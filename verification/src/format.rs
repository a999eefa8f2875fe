//! The framing of a compressed bitstream: a 60-byte header with a checksum.

use crate::error::{
    FormatError, FormatErrorView, Hex32, IntegrityError, IntegrityErrorView, MagicBytes, result_view,
};
use crate::wire::{
    be_bytes, be_value, law_be_bytes_are_digits, law_be_bytes_of_be_value, law_be_value_digits,
    law_be_value_of_be_bytes, lemma_be_bytes_len, lemma_be_value_bound, lemma_pow256, push_be,
    read_be,
};
use sha2::{Digest, Sha256};
use vstd::arithmetic::power::pow;
use vstd::prelude::*;

verus! {

/// Magic bytes that identify a bitstream: `HTC` and the byte 1.
pub const MAGIC: [u8; 4] = [0x48, 0x54, 0x43, 0x01];

/// Current wire format version.
pub const CURRENT_VERSION: u16 = 1;

/// Size of the header on the wire, in bytes.
pub const HEADER_LEN: usize = 60;

/// The file header. All integers are big-endian on the wire.
///
/// | offset | size | field           |
/// |--------|------|-----------------|
/// | 0      | 4    | magic           |
/// | 4      | 2    | version         |
/// | 6      | 2    | model_version   |
/// | 8      | 4    | flags           |
/// | 12     | 32   | sha256          |
/// | 44     | 8    | original_size   |
/// | 52     | 8    | compressed_size |
#[derive(Debug, Clone, PartialEq, Eq)]
pub struct Header {
    /// Magic bytes, [`MAGIC`] in a valid header.
    pub magic: [u8; 4],
    /// Wire format version, [`CURRENT_VERSION`] in a valid header.
    pub version: u16,
    /// Version of the predictor model used during compression.
    pub model_version: u16,
    /// Reserved flags.
    pub flags: u32,
    /// SHA-256 hash of the decompressed payload.
    pub sha256: [u8; 32],
    /// Decompressed payload size in bytes.
    pub original_size: u64,
    /// Compressed payload size in bytes.
    pub compressed_size: u64,
}

/// The view of a [`Header`].
#[verifier::ext_equal]
pub struct HeaderView {
    pub magic: Seq<u8>,
    pub version: u16,
    pub model_version: u16,
    pub flags: u32,
    pub sha256: Seq<u8>,
    pub original_size: u64,
    pub compressed_size: u64,
}

impl View for Header {
    type V = HeaderView;

    open spec fn view(&self) -> HeaderView {
        HeaderView {
            magic: self.magic@,
            version: self.version,
            model_version: self.model_version,
            flags: self.flags,
            sha256: self.sha256@,
            original_size: self.original_size,
            compressed_size: self.compressed_size,
        }
    }
}

impl HeaderView {
    /// The byte fields have the sizes of the wire layout.
    pub open spec fn wf(self) -> bool {
        self.magic.len() == 4 && self.sha256.len() == 32
    }

    /// The header on the wire.
    pub open spec fn wire(self) -> Seq<u8> {
        self.magic + be_bytes(self.version as nat, 2) + be_bytes(self.model_version as nat, 2)
            + be_bytes(self.flags as nat, 4) + self.sha256 + be_bytes(self.original_size as nat, 8)
            + be_bytes(self.compressed_size as nat, 8)
    }
}

/// The header at the start of `bytes`, or the reason why there is none.
pub open spec fn parse_header(bytes: Seq<u8>) -> Result<HeaderView, FormatErrorView> {
    if bytes.len() < HEADER_LEN {
        Err(FormatErrorView::TruncatedHeader)
    } else if bytes.subrange(0, 4) != MAGIC@ {
        Err(FormatErrorView::InvalidMagic { found: bytes.subrange(0, 4) })
    } else if be_value(bytes.subrange(4, 6)) != CURRENT_VERSION {
        Err(
            FormatErrorView::UnsupportedVersion { version: be_value(bytes.subrange(4, 6)) as u32 },
        )
    } else {
        Ok(
            HeaderView {
                magic: MAGIC@,
                version: CURRENT_VERSION,
                model_version: be_value(bytes.subrange(6, 8)) as u16,
                flags: be_value(bytes.subrange(8, 12)) as u32,
                sha256: bytes.subrange(12, 44),
                original_size: be_value(bytes.subrange(44, 52)) as u64,
                compressed_size: be_value(bytes.subrange(52, 60)) as u64,
            },
        )
    }
}

/// What one read from a byte source gave.
pub enum ReadOutcome {
    /// The number of bytes that were placed, zero at the end of the source.
    Bytes(usize),
    /// The read failed.
    Failed,
}

/// The position after one more read into a buffer of `len` bytes of which
/// `filled` are filled.
///
/// The buffer is read until it is full; the end of the source and a failed
/// read both mean that the header is truncated.
pub fn read_exact_or_truncated(filled: usize, len: usize, outcome: ReadOutcome) -> (r: Result<
    usize,
    FormatError,
>)
    requires
        filled < len,
        outcome matches ReadOutcome::Bytes(n) ==> n <= len - filled,
    ensures
        match outcome {
            ReadOutcome::Bytes(n) if n > 0 => r == Ok::<usize, FormatError>((filled + n) as usize),
            _ => r == Err::<usize, FormatError>(FormatError::TruncatedHeader),
        },
{
    match outcome {
        ReadOutcome::Bytes(n) => {
            if n == 0 {
                Err(FormatError::TruncatedHeader)
            } else {
                Ok(filled + n)
            }
        },
        ReadOutcome::Failed => Err(FormatError::TruncatedHeader),
    }
}

/// Moves as many bytes as fit from the front of `reader` into
/// `buf[filled..]` and returns their number.
fn read_slice(reader: &mut &[u8], buf: &mut [u8; 60], filled: usize) -> (n: usize)
    requires
        filled <= 60,
    ensures
        n == (if old(reader)@.len() < 60 - filled {
            old(reader)@.len() as int
        } else {
            60 - filled
        }),
        final(reader)@ == old(reader)@.skip(n as int),
        final(buf)@ == old(buf)@.take(filled as int) + old(reader)@.take(n as int)
            + old(buf)@.skip(filled + n),
{
    let source: &[u8] = *reader;
    let room: usize = 60 - filled;
    let n: usize = if source.len() < room {
        source.len()
    } else {
        room
    };
    let ghost before = buf@;
    let mut i: usize = 0;
    assert(buf@ =~= before.take(filled as int) + source@.take(0) + before.skip(filled + 0));
    while i < n
        invariant
            i <= n <= source@.len(),
            filled + n <= 60,
            before.len() == 60,
            buf@ == before.take(filled as int) + source@.take(i as int) + before.skip(filled + i),
        decreases n - i,
    {
        buf[filled + i] = source[i];
        i = i + 1;
        assert(buf@ =~= before.take(filled as int) + source@.take(i as int) + before.skip(
            filled + i,
        ));
    }
    *reader = vstd::slice::slice_subrange(source, n, source.len());
    n
}

/// Whether two byte strings are equal.
pub fn same_bytes(a: &[u8], b: &[u8]) -> (same: bool)
    ensures
        same == (a@ == b@),
{
    if a.len() != b.len() {
        return false;
    }
    let mut i: usize = 0;
    while i < a.len()
        invariant
            i <= a@.len(),
            a@.len() == b@.len(),
            forall|j: int| 0 <= j < i ==> a@[j] == b@[j],
        decreases a@.len() - i,
    {
        if a[i] != b[i] {
            return false;
        }
        i = i + 1;
    }
    assert(a@ =~= b@);
    true
}

impl Default for Header {
    fn default() -> (h: Header)
        ensures
            h@ == (HeaderView {
                magic: MAGIC@,
                version: CURRENT_VERSION,
                model_version: 0,
                flags: 0,
                sha256: Seq::new(32, |i: int| 0u8),
                original_size: 0,
                compressed_size: 0,
            }),
    {
        let h = Header {
            magic: MAGIC,
            version: CURRENT_VERSION,
            model_version: 0,
            flags: 0,
            sha256: [0u8; 32],
            original_size: 0,
            compressed_size: 0,
        };
        assert(h.sha256@ =~= Seq::new(32, |i: int| 0u8));
        h
    }
}

impl Header {
    /// A header of the current version with the given fields.
    pub fn new(
        model_version: u16,
        flags: u32,
        sha256: [u8; 32],
        original_size: u64,
        compressed_size: u64,
    ) -> (h: Header)
        ensures
            h@ == (HeaderView {
                magic: MAGIC@,
                version: CURRENT_VERSION,
                model_version,
                flags,
                sha256: sha256@,
                original_size,
                compressed_size,
            }),
    {
        Header {
            magic: MAGIC,
            version: CURRENT_VERSION,
            model_version,
            flags,
            sha256,
            original_size,
            compressed_size,
        }
    }

    /// Appends the 60 bytes of the header to `writer`.
    pub fn write(&self, writer: &mut Vec<u8>)
        ensures
            final(writer)@ == old(writer)@ + self@.wire(),
            self@.wire().len() == HEADER_LEN,
    {
        writer.extend_from_slice(self.magic.as_slice());
        push_be(writer, self.version as u64, 2);
        push_be(writer, self.model_version as u64, 2);
        push_be(writer, self.flags as u64, 4);
        writer.extend_from_slice(self.sha256.as_slice());
        push_be(writer, self.original_size, 8);
        push_be(writer, self.compressed_size, 8);
        proof {
            assert(writer@ =~= old(writer)@ + self@.wire());
            law_wire_len(self@);
        }
    }

    /// Reads a header from the front of `reader` and checks its magic bytes
    /// and its version.
    ///
    /// # Errors
    ///
    /// - `TruncatedHeader` if fewer than 60 bytes are available.
    /// - `InvalidMagic` if the first four bytes are not [`MAGIC`].
    /// - `UnsupportedVersion` if the version is not [`CURRENT_VERSION`].
    pub fn read(reader: &mut &[u8]) -> (r: Result<Header, FormatError>)
        ensures
            result_view(r) == parse_header(old(reader)@),
            final(reader)@ == old(reader)@.skip(
                if old(reader)@.len() < HEADER_LEN {
                    old(reader)@.len() as int
                } else {
                    HEADER_LEN as int
                },
            ),
    {
        let ghost input = reader@;
        let mut buf: [u8; 60] = [0u8; 60];
        let mut filled: usize = 0;
        assert(input.skip(0) =~= input);
        while filled < 60
            invariant
                filled <= 60,
                filled <= input.len(),
                input == old(reader)@,
                reader@ == input.skip(filled as int),
                buf@.take(filled as int) == input.take(filled as int),
            decreases 60 - filled,
        {
            let n: usize = read_slice(reader, &mut buf, filled);
            assert(reader@ =~= input.skip(filled + n));
            assert(buf@.take(filled + n) =~= input.take(filled + n));
            match read_exact_or_truncated(filled, 60, ReadOutcome::Bytes(n)) {
                Ok(position) => {
                    filled = position;
                },
                Err(e) => {
                    return Err(e);
                },
            }
        }
        assert(buf@ =~= input.take(60));

        let magic: [u8; 4] = [buf[0], buf[1], buf[2], buf[3]];
        assert(magic@ =~= input.subrange(0, 4));
        if !same_bytes(magic.as_slice(), MAGIC.as_slice()) {
            return Err(FormatError::InvalidMagic { found: MagicBytes(magic) });
        }
        proof {
            lemma_pow256();
            assert(buf@.subrange(4, 6) =~= input.subrange(4, 6));
            lemma_be_value_bound(input.subrange(4, 6));
            assert(buf@.subrange(6, 8) =~= input.subrange(6, 8));
            lemma_be_value_bound(input.subrange(6, 8));
            assert(buf@.subrange(8, 12) =~= input.subrange(8, 12));
            lemma_be_value_bound(input.subrange(8, 12));
            assert(buf@.subrange(44, 52) =~= input.subrange(44, 52));
            assert(buf@.subrange(52, 60) =~= input.subrange(52, 60));
        }
        let bytes: &[u8] = buf.as_slice();
        let version: u16 = read_be(bytes, 4, 2) as u16;
        if version != CURRENT_VERSION {
            return Err(FormatError::UnsupportedVersion { version: version as u32 });
        }
        let model_version: u16 = read_be(bytes, 6, 2) as u16;
        let flags: u32 = read_be(bytes, 8, 4) as u32;
        let mut sha256: [u8; 32] = [0u8; 32];
        let mut i: usize = 0;
        while i < 32
            invariant
                i <= 32,
                buf@.len() == 60,
                forall|j: int| 0 <= j < i ==> sha256@[j] == buf@[12 + j],
            decreases 32 - i,
        {
            sha256[i] = buf[12 + i];
            i = i + 1;
        }
        assert(sha256@ =~= input.subrange(12, 44));
        let original_size: u64 = read_be(bytes, 44, 8);
        let compressed_size: u64 = read_be(bytes, 52, 8);
        Ok(
            Header {
                magic,
                version,
                model_version,
                flags,
                sha256,
                original_size,
                compressed_size,
            },
        )
    }
}

// ---- Laws of the header ----------------------------------------------------

/// A header takes 60 bytes on the wire.
pub proof fn law_wire_len(h: HeaderView)
    requires
        h.wf(),
    ensures
        h.wire().len() == HEADER_LEN,
{
    lemma_be_bytes_len(h.version as nat, 2);
    lemma_be_bytes_len(h.model_version as nat, 2);
    lemma_be_bytes_len(h.flags as nat, 4);
    lemma_be_bytes_len(h.original_size as nat, 8);
    lemma_be_bytes_len(h.compressed_size as nat, 8);
}

/// The fields of a header stand on the wire at their offsets.
pub proof fn lemma_wire_fields(h: HeaderView)
    requires
        h.wf(),
    ensures
        h.wire().len() == 60,
        h.wire().subrange(0, 4) == h.magic,
        h.wire().subrange(4, 6) == be_bytes(h.version as nat, 2),
        h.wire().subrange(6, 8) == be_bytes(h.model_version as nat, 2),
        h.wire().subrange(8, 12) == be_bytes(h.flags as nat, 4),
        h.wire().subrange(12, 44) == h.sha256,
        h.wire().subrange(44, 52) == be_bytes(h.original_size as nat, 8),
        h.wire().subrange(52, 60) == be_bytes(h.compressed_size as nat, 8),
{
    lemma_be_bytes_len(h.version as nat, 2);
    lemma_be_bytes_len(h.model_version as nat, 2);
    lemma_be_bytes_len(h.flags as nat, 4);
    lemma_be_bytes_len(h.original_size as nat, 8);
    lemma_be_bytes_len(h.compressed_size as nat, 8);
    let w = h.wire();
    assert(w.subrange(0, 4) =~= h.magic);
    assert(w.subrange(4, 6) =~= be_bytes(h.version as nat, 2));
    assert(w.subrange(6, 8) =~= be_bytes(h.model_version as nat, 2));
    assert(w.subrange(8, 12) =~= be_bytes(h.flags as nat, 4));
    assert(w.subrange(12, 44) =~= h.sha256);
    assert(w.subrange(44, 52) =~= be_bytes(h.original_size as nat, 8));
    assert(w.subrange(52, 60) =~= be_bytes(h.compressed_size as nat, 8));
}

/// Byte for byte, a header on the wire is: the magic bytes; then, each most
/// significant digit first, the two digits in base 256 of the version, the two
/// of the model version and the four of the flags; the checksum; and the eight
/// digits of the original size and of the compressed size.
pub proof fn law_wire_byte_by_byte(h: HeaderView, i: int)
    requires
        h.wf(),
    ensures
        h.wire().len() == 60,
        0 <= i < 4 ==> h.wire()[i] == h.magic[i],
        0 <= i < 2 ==> h.wire()[4 + i] as int == (h.version as int / pow(256, (1 - i) as nat))
            % 256,
        0 <= i < 2 ==> h.wire()[6 + i] as int == (h.model_version as int / pow(
            256,
            (1 - i) as nat,
        )) % 256,
        0 <= i < 4 ==> h.wire()[8 + i] as int == (h.flags as int / pow(256, (3 - i) as nat)) % 256,
        0 <= i < 32 ==> h.wire()[12 + i] == h.sha256[i],
        0 <= i < 8 ==> h.wire()[44 + i] as int == (h.original_size as int / pow(
            256,
            (7 - i) as nat,
        )) % 256,
        0 <= i < 8 ==> h.wire()[52 + i] as int == (h.compressed_size as int / pow(
            256,
            (7 - i) as nat,
        )) % 256,
{
    lemma_wire_fields(h);
    let w = h.wire();
    if 0 <= i < 2 {
        law_be_bytes_are_digits(h.version as nat, 2, i);
        law_be_bytes_are_digits(h.model_version as nat, 2, i);
        assert(w[4 + i] == w.subrange(4, 6)[i]);
        assert(w[6 + i] == w.subrange(6, 8)[i]);
    }
    if 0 <= i < 4 {
        law_be_bytes_are_digits(h.flags as nat, 4, i);
        assert(w[i] == w.subrange(0, 4)[i]);
        assert(w[8 + i] == w.subrange(8, 12)[i]);
    }
    if 0 <= i < 8 {
        law_be_bytes_are_digits(h.original_size as nat, 8, i);
        law_be_bytes_are_digits(h.compressed_size as nat, 8, i);
        assert(w[44 + i] == w.subrange(44, 52)[i]);
        assert(w[52 + i] == w.subrange(52, 60)[i]);
    }
    if 0 <= i < 32 {
        assert(w[12 + i] == w.subrange(12, 44)[i]);
    }
}

/// A header is read from 60 bytes that start with `HTC`, the byte 1 and the
/// version 1. Fewer bytes are truncated, other magic bytes are named, and so
/// is another version.
pub proof fn law_readable_headers(bytes: Seq<u8>)
    ensures
        parse_header(bytes) is Ok <==> {
            &&& bytes.len() >= 60
            &&& bytes[0] == 0x48
            &&& bytes[1] == 0x54
            &&& bytes[2] == 0x43
            &&& bytes[3] == 0x01
            &&& bytes[4] == 0
            &&& bytes[5] == 1
        },
        bytes.len() < 60 ==> parse_header(bytes) == Err::<HeaderView, FormatErrorView>(
            FormatErrorView::TruncatedHeader,
        ),
        bytes.len() >= 60 && bytes.take(4) != seq![0x48u8, 0x54u8, 0x43u8, 0x01u8] ==> parse_header(
            bytes,
        ) == Err::<HeaderView, FormatErrorView>(
            FormatErrorView::InvalidMagic { found: bytes.take(4) },
        ),
        bytes.len() >= 60 && bytes.take(4) == seq![0x48u8, 0x54u8, 0x43u8, 0x01u8] && !(bytes[4]
            == 0 && bytes[5] == 1) ==> parse_header(bytes) == Err::<HeaderView, FormatErrorView>(
            FormatErrorView::UnsupportedVersion { version: (bytes[4] * 256 + bytes[5]) as u32 },
        ),
{
    assert(MAGIC@ =~= seq![0x48u8, 0x54u8, 0x43u8, 0x01u8]);
    if bytes.len() >= 60 {
        let magic = bytes.take(4);
        assert(magic =~= bytes.subrange(0, 4));
        let current = seq![0x48u8, 0x54u8, 0x43u8, 0x01u8];
        assert(magic[0] == bytes[0] && magic[1] == bytes[1] && magic[2] == bytes[2] && magic[3]
            == bytes[3]);
        assert(current[0] == 0x48 && current[1] == 0x54 && current[2] == 0x43 && current[3] == 1);
        if bytes[0] == 0x48 && bytes[1] == 0x54 && bytes[2] == 0x43 && bytes[3] == 1 {
            assert(magic =~= current);
        }
        let version = bytes.subrange(4, 6);
        reveal_with_fuel(be_value, 3);
        assert(version.drop_last().drop_last() =~= seq![]);
        assert(be_value(version) == bytes[4] * 256 + bytes[5]);
    }
}

/// A header that is read holds the current magic bytes and version, and in
/// its other fields the numbers whose digits in base 256 stand at their
/// places.
pub proof fn law_read_digit_by_digit(bytes: Seq<u8>, h: HeaderView, i: int)
    requires
        parse_header(bytes) == Ok::<HeaderView, FormatErrorView>(h),
    ensures
        h.magic == seq![0x48u8, 0x54u8, 0x43u8, 0x01u8],
        h.version == 1,
        h.sha256.len() == 32,
        0 <= i < 2 ==> bytes[6 + i] as int == (h.model_version as int / pow(256, (1 - i) as nat))
            % 256,
        0 <= i < 4 ==> bytes[8 + i] as int == (h.flags as int / pow(256, (3 - i) as nat)) % 256,
        0 <= i < 32 ==> bytes[12 + i] == h.sha256[i],
        0 <= i < 8 ==> bytes[44 + i] as int == (h.original_size as int / pow(256, (7 - i) as nat))
            % 256,
        0 <= i < 8 ==> bytes[52 + i] as int == (h.compressed_size as int / pow(
            256,
            (7 - i) as nat,
        )) % 256,
{
    assert(MAGIC@ =~= seq![0x48u8, 0x54u8, 0x43u8, 0x01u8]);
    lemma_pow256();
    lemma_be_value_bound(bytes.subrange(6, 8));
    lemma_be_value_bound(bytes.subrange(8, 12));
    lemma_be_value_bound(bytes.subrange(44, 52));
    lemma_be_value_bound(bytes.subrange(52, 60));
    if 0 <= i < 2 {
        law_be_value_digits(bytes.subrange(6, 8), i);
    }
    if 0 <= i < 4 {
        law_be_value_digits(bytes.subrange(8, 12), i);
    }
    if 0 <= i < 8 {
        law_be_value_digits(bytes.subrange(44, 52), i);
        law_be_value_digits(bytes.subrange(52, 60), i);
    }
}

/// A header is seen by its fields as they are.
pub proof fn law_header_view(h: Header)
    ensures
        h@.magic == h.magic@,
        h@.version == h.version,
        h@.model_version == h.model_version,
        h@.flags == h.flags,
        h@.sha256 == h.sha256@,
        h@.original_size == h.original_size,
        h@.compressed_size == h.compressed_size,
        h@.wf(),
{
}

/// Reading what was written gives the header back if its magic bytes and its
/// version are the current ones. A header with other magic bytes is refused
/// for them, one with another version for its version. What follows the
/// header plays no part.
pub proof fn law_header_round_trip(h: HeaderView, rest: Seq<u8>)
    requires
        h.wf(),
    ensures
        parse_header(h.wire() + rest) == (if h.magic != MAGIC@ {
            Err::<HeaderView, FormatErrorView>(FormatErrorView::InvalidMagic { found: h.magic })
        } else if h.version != CURRENT_VERSION {
            Err(FormatErrorView::UnsupportedVersion { version: h.version as u32 })
        } else {
            Ok(h)
        }),
{
    lemma_wire_fields(h);
    lemma_pow256();
    law_be_value_of_be_bytes(h.version as nat, 2);
    law_be_value_of_be_bytes(h.model_version as nat, 2);
    law_be_value_of_be_bytes(h.flags as nat, 4);
    law_be_value_of_be_bytes(h.original_size as nat, 8);
    law_be_value_of_be_bytes(h.compressed_size as nat, 8);
    let w = h.wire();
    let all = w + rest;
    assert(all.subrange(0, 4) =~= w.subrange(0, 4));
    assert(all.subrange(4, 6) =~= w.subrange(4, 6));
    assert(all.subrange(6, 8) =~= w.subrange(6, 8));
    assert(all.subrange(8, 12) =~= w.subrange(8, 12));
    assert(all.subrange(12, 44) =~= w.subrange(12, 44));
    assert(all.subrange(44, 52) =~= w.subrange(44, 52));
    assert(all.subrange(52, 60) =~= w.subrange(52, 60));
}

/// A header that can be read is the only one that its bytes encode: writing
/// it again gives the 60 bytes back.
pub proof fn law_header_canonical(bytes: Seq<u8>, h: HeaderView)
    requires
        parse_header(bytes) == Ok::<HeaderView, FormatErrorView>(h),
    ensures
        h.wire() == bytes.take(60),
{
    lemma_pow256();
    lemma_be_value_bound(bytes.subrange(4, 6));
    lemma_be_value_bound(bytes.subrange(6, 8));
    lemma_be_value_bound(bytes.subrange(8, 12));
    lemma_be_value_bound(bytes.subrange(44, 52));
    lemma_be_value_bound(bytes.subrange(52, 60));
    law_be_bytes_of_be_value(bytes.subrange(4, 6));
    law_be_bytes_of_be_value(bytes.subrange(6, 8));
    law_be_bytes_of_be_value(bytes.subrange(8, 12));
    law_be_bytes_of_be_value(bytes.subrange(44, 52));
    law_be_bytes_of_be_value(bytes.subrange(52, 60));
    assert(bytes.take(60) =~= bytes.subrange(0, 4) + bytes.subrange(4, 6) + bytes.subrange(6, 8)
        + bytes.subrange(8, 12) + bytes.subrange(12, 44) + bytes.subrange(44, 52)
        + bytes.subrange(52, 60));
}

// ---- Checksums -------------------------------------------------------------

/// The SHA-256 hash of `data`, as the `sha2` crate computes it.
pub uninterp spec fn sha256(data: Seq<u8>) -> Seq<u8>;

/// `sha2::Sha256::digest` hashes the data in one call. The 32 bytes that it
/// returns are a function of the data alone, which [`sha256`] names.
#[verifier::external_body]
pub(crate) fn compute_sha256(data: &[u8]) -> (digest: [u8; 32])
    ensures
        digest@ == sha256(data@),
{
    Sha256::digest(data).into()
}

/// Success if a checksum is the expected one, else the mismatch.
pub open spec fn checksum_verdict(actual: Seq<u8>, expected: Seq<u8>) -> Result<
    (),
    IntegrityErrorView,
> {
    if actual == expected {
        Ok(())
    } else {
        Err(IntegrityErrorView::ChecksumMismatch { expected, actual })
    }
}

/// A checksum is accepted exactly if it has every byte of the expected one. A
/// complaint names both, each in its role.
pub proof fn law_checksum_compared_byte_by_byte(actual: Seq<u8>, expected: Seq<u8>)
    requires
        actual.len() == expected.len(),
    ensures
        checksum_verdict(actual, expected) is Ok <==> forall|i: int|
            0 <= i < expected.len() ==> #[trigger] actual[i] == expected[i],
        checksum_verdict(actual, expected) matches Err(e) ==> {
            &&& e is ChecksumMismatch
            &&& e->expected == expected
            &&& e->actual == actual
        },
{
    if forall|i: int| 0 <= i < expected.len() ==> #[trigger] actual[i] == expected[i] {
        assert(actual =~= expected);
    }
}

/// Compares a checksum with the expected one.
pub fn compare_checksum(actual: &[u8; 32], expected: &[u8; 32]) -> (r: Result<(), IntegrityError>)
    ensures
        result_view(r) == checksum_verdict(actual@, expected@),
{
    if same_bytes(actual.as_slice(), expected.as_slice()) {
        Ok(())
    } else {
        Err(IntegrityError::ChecksumMismatch { expected: Hex32(*expected), actual: Hex32(*actual) })
    }
}

/// Computes the SHA-256 hash of `data` and compares it with `expected`.
pub fn verify_checksum(data: &[u8], expected: &[u8; 32]) -> (r: Result<(), IntegrityError>)
    ensures
        result_view(r) == checksum_verdict(sha256(data@), expected@),
{
    let actual = compute_sha256(data);
    compare_checksum(&actual, expected)
}

} // verus!
