//! The compression pipeline: prediction, entropy coding and framing.
//!
//! ```text
//! compress:   bytes -> predict and encode each byte -> words -> frame
//! decompress: frame -> words -> predict and decode each byte -> verify checksum
//! ```

use crate::coder::ans::{
    law_uniform_table_valid, law_words_stack_of_stack_words, stack_words, valid_table, words_stack,
};
use crate::coder::sequence::{
    SequenceEncoder, all_valid, law_sequence_is_stacked, law_sequence_words, pops_back, pushed_from,
    sequence_reads_back, sequence_words,
};
use crate::coder::size::{is_compact, law_sequence_takes_at_most};
use crate::coder::stream::{AnsCoder, AnsCoderView};
use crate::error::{
    CoderErrorView, FormatError, FormatErrorView, HeretikError, HeretikErrorView,
    IntegrityErrorView, PredictorErrorView, result_view,
};
use crate::format::{
    CURRENT_VERSION, HEADER_LEN, Header, HeaderView, MAGIC, checksum_verdict, compute_sha256,
    law_header_round_trip, law_wire_byte_by_byte, law_wire_len, lemma_wire_fields, parse_header,
    sha256, verify_checksum,
};
use crate::predictor::{Predictor, StubPredictor};
use crate::wire::{
    be_bytes, be_value, law_be_bytes_are_digits, law_be_bytes_of_be_value, law_be_value_digits,
    law_be_value_of_be_bytes, lemma_be_bytes_len, lemma_be_value_bound, lemma_pow256, push_be,
    read_be,
};
use vstd::arithmetic::power::pow;
use vstd::prelude::*;

verus! {

// ---- Words and bytes -------------------------------------------------------

/// The words as big-endian bytes, four for each word.
pub open spec fn words_bytes(words: Seq<u32>) -> Seq<u8>
    decreases words.len(),
{
    if words.len() == 0 {
        seq![]
    } else {
        words_bytes(words.drop_last()) + be_bytes(words.last() as nat, 4)
    }
}

/// The words that big-endian bytes stand for.
pub open spec fn bytes_words(bytes: Seq<u8>) -> Seq<u32> {
    Seq::new(
        bytes.len() / 4,
        |i: int| be_value(bytes.subrange(4 * i, 4 * i + 4)) as u32,
    )
}

/// Words take four bytes each.
pub proof fn lemma_words_bytes_len(words: Seq<u32>)
    ensures
        words_bytes(words).len() == 4 * words.len(),
    decreases words.len(),
{
    if words.len() > 0 {
        lemma_words_bytes_len(words.drop_last());
        lemma_be_bytes_len(words.last() as nat, 4);
    }
}

/// Reading the bytes of words gives the words back.
pub proof fn law_words_of_bytes_of_words(words: Seq<u32>)
    ensures
        bytes_words(words_bytes(words)) == words,
    decreases words.len(),
{
    lemma_words_bytes_len(words);
    if words.len() > 0 {
        let shorter = words.drop_last();
        let last = be_bytes(words.last() as nat, 4);
        let bytes = words_bytes(words);
        law_words_of_bytes_of_words(shorter);
        lemma_words_bytes_len(shorter);
        lemma_be_bytes_len(words.last() as nat, 4);
        lemma_pow256();
        law_be_value_of_be_bytes(words.last() as nat, 4);
        assert forall|i: int| 0 <= i < words.len() implies bytes_words(bytes)[i] == words[i] by {
            if i < shorter.len() {
                assert(bytes.subrange(4 * i, 4 * i + 4) =~= words_bytes(shorter).subrange(
                    4 * i,
                    4 * i + 4,
                ));
                assert(bytes_words(words_bytes(shorter))[i] == shorter[i]);
            } else {
                assert(bytes.subrange(4 * i, 4 * i + 4) =~= last);
            }
        }
        assert(bytes_words(bytes) =~= words);
    } else {
        assert(bytes_words(words_bytes(words)) =~= words);
    }
}

/// Bytes in groups of four are the bytes of the words that they stand for.
pub proof fn law_bytes_of_words_of_bytes(bytes: Seq<u8>)
    requires
        bytes.len() % 4 == 0,
    ensures
        words_bytes(bytes_words(bytes)) == bytes,
    decreases bytes.len(),
{
    let words = bytes_words(bytes);
    if bytes.len() > 0 {
        let n = bytes.len() as int;
        let shorter = bytes.take(n - 4);
        let last = bytes.subrange(n - 4, n);
        law_bytes_of_words_of_bytes(shorter);
        assert(words.drop_last() =~= bytes_words(shorter)) by {
            assert forall|i: int| 0 <= i < shorter.len() / 4 implies words[i] == bytes_words(
                shorter,
            )[i] by {
                assert(bytes.subrange(4 * i, 4 * i + 4) =~= shorter.subrange(4 * i, 4 * i + 4));
            }
        }
        lemma_be_value_bound(last);
        lemma_pow256();
        law_be_bytes_of_be_value(last);
        assert(4 * (words.len() - 1) == n - 4);
        assert(words.last() == be_value(last) as u32);
        assert(bytes =~= shorter + last);
    } else {
        assert(bytes =~= seq![]);
    }
}

/// Byte `j` of the four bytes of word `i` is digit `3 - j` of that word in base
/// 256.
pub proof fn law_words_bytes_are_digits(words: Seq<u32>, i: int, j: int)
    requires
        0 <= i < words.len(),
        0 <= j < 4,
    ensures
        words_bytes(words).len() == 4 * words.len(),
        words_bytes(words)[4 * i + j] as int == (words[i] as int / pow(256, (3 - j) as nat)) % 256,
    decreases words.len(),
{
    let shorter = words.drop_last();
    lemma_words_bytes_len(words);
    lemma_words_bytes_len(shorter);
    if i < shorter.len() {
        law_words_bytes_are_digits(shorter, i, j);
    } else {
        law_be_bytes_are_digits(words.last() as nat, 4, j);
    }
}

/// Bytes give one word for each full group of four. Digit `3 - j` of word `i` in
/// base 256 is byte `j` of its group.
pub proof fn law_bytes_words_have_digits(bytes: Seq<u8>, i: int, j: int)
    requires
        0 <= i < bytes.len() as int / 4,
        0 <= j < 4,
    ensures
        bytes_words(bytes).len() == bytes.len() as int / 4,
        (bytes_words(bytes)[i] as int / pow(256, (3 - j) as nat)) % 256 == bytes[4 * i + j] as int,
{
    let group = bytes.subrange(4 * i, 4 * i + 4);
    lemma_be_value_bound(group);
    lemma_pow256();
    law_be_value_digits(group, j);
    assert(group[j] == bytes[4 * i + j]);
}

/// Writes words as big-endian bytes.
pub fn words_to_be_bytes(words: &[u32]) -> (bytes: Vec<u8>)
    ensures
        bytes@ == words_bytes(words@),
{
    let mut bytes: Vec<u8> = Vec::new();
    let mut i: usize = 0;
    while i < words.len()
        invariant
            i <= words@.len(),
            bytes@ == words_bytes(words@.take(i as int)),
        decreases words@.len() - i,
    {
        push_be(&mut bytes, words[i] as u64, 4);
        i = i + 1;
        assert(words@.take(i as int).drop_last() =~= words@.take(i - 1));
    }
    assert(words@.take(i as int) =~= words@);
    bytes
}

/// Reads words from big-endian bytes, in groups of four.
pub fn be_bytes_to_words(bytes: &[u8]) -> (words: Vec<u32>)
    requires
        bytes@.len() % 4 == 0,
    ensures
        words@ == bytes_words(bytes@),
{
    let mut words: Vec<u32> = Vec::new();
    let mut at: usize = 0;
    while at < bytes.len()
        invariant
            at <= bytes.len(),
            at % 4 == 0,
            bytes.len() % 4 == 0,
            words@.len() == at as int / 4,
            forall|i: int|
                0 <= i < words@.len() ==> #[trigger] words@[i] == be_value(
                    bytes@.subrange(4 * i, 4 * i + 4),
                ) as u32,
        decreases bytes.len() - at,
    {
        proof {
            lemma_be_value_bound(bytes@.subrange(at as int, at + 4));
            lemma_pow256();
        }
        words.push(read_be(bytes, at, 4) as u32);
        at = at + 4;
    }
    assert(words@ =~= bytes_words(bytes@));
    words
}

// ---- Framing ---------------------------------------------------------------

/// The header of a frame.
pub open spec fn frame_header(
    original_size: u64,
    checksum: Seq<u8>,
    compressed_size: u64,
) -> HeaderView {
    HeaderView {
        magic: MAGIC@,
        version: CURRENT_VERSION,
        model_version: 0,
        flags: 0,
        sha256: checksum,
        original_size,
        compressed_size,
    }
}

/// The frame of a compressed bitstream: the header, then the words.
pub open spec fn frame(original_size: u64, checksum: Seq<u8>, words: Seq<u32>) -> Seq<u8> {
    frame_header(original_size, checksum, words_bytes(words).len() as u64).wire() + words_bytes(
        words,
    )
}

/// The header and the words of a frame, or the reason why there are none.
/// Bytes behind the payload play no part.
pub open spec fn unframe(bytes: Seq<u8>) -> Result<(HeaderView, Seq<u32>), FormatErrorView> {
    match parse_header(bytes) {
        Err(e) => Err(e),
        Ok(header) => {
            let n = header.compressed_size as usize;
            if bytes.len() - HEADER_LEN < n {
                Err(FormatErrorView::TruncatedHeader)
            } else if n % 4 != 0 {
                Err(FormatErrorView::CorruptBitstream { offset: (HEADER_LEN + n - n % 4) as u64 })
            } else {
                Ok((header, bytes_words(bytes.subrange(HEADER_LEN as int, HEADER_LEN + n))))
            }
        },
    }
}

/// Puts words behind a header with the given checksum and size of what they
/// were made from.
pub fn frame_words(original_size: u64, checksum: [u8; 32], words: &[u32]) -> (bytes: Vec<u8>)
    ensures
        bytes@ == frame(original_size, checksum@, words@),
        words_bytes(words@).len() <= usize::MAX,
{
    let payload = words_to_be_bytes(words);
    let header = Header::new(0, 0, checksum, original_size, payload.len() as u64);
    let mut output: Vec<u8> = Vec::new();
    header.write(&mut output);
    output.extend_from_slice(payload.as_slice());
    assert(output@ =~= frame(original_size, checksum@, words@));
    output
}

/// Takes a frame apart into its header and its words.
///
/// # Errors
///
/// - `TruncatedHeader` if the header or the payload is not complete.
/// - `InvalidMagic` or `UnsupportedVersion` if the header is not valid.
/// - `CorruptBitstream` if the payload ends within a word, at the offset of
///   that word.
pub fn unframe_words(compressed: &[u8]) -> (r: Result<(Header, Vec<u32>), FormatError>)
    ensures
        match unframe(compressed@) {
            Ok((header, words)) => r matches Ok(parts) && parts.0@ == header && parts.1@ == words,
            Err(e) => r matches Err(error) && error@ == e,
        },
{
    if compressed.len() < HEADER_LEN {
        return Err(FormatError::TruncatedHeader);
    }
    let mut front: &[u8] = vstd::slice::slice_subrange(compressed, 0, HEADER_LEN);
    proof {
        lemma_parse_prefix(compressed@);
        assert(front@ =~= compressed@.take(60));
    }
    let header = match Header::read(&mut front) {
        Ok(header) => header,
        Err(e) => {
            return Err(e);
        },
    };
    let payload_len: usize = compressed.len() - HEADER_LEN;
    let n: usize = header.compressed_size as usize;
    if payload_len < n {
        return Err(FormatError::TruncatedHeader);
    }
    if n % 4 != 0 {
        return Err(FormatError::CorruptBitstream { offset: (HEADER_LEN + (n - n % 4)) as u64 });
    }
    let payload = vstd::slice::slice_subrange(compressed, HEADER_LEN, HEADER_LEN + n);
    Ok((header, be_bytes_to_words(payload)))
}

/// The header is read from the first 60 bytes alone.
proof fn lemma_parse_prefix(bytes: Seq<u8>)
    requires
        bytes.len() >= 60,
    ensures
        parse_header(bytes.take(60)) == parse_header(bytes),
{
    let front = bytes.take(60);
    assert(front.subrange(0, 4) =~= bytes.subrange(0, 4));
    assert(front.subrange(4, 6) =~= bytes.subrange(4, 6));
    assert(front.subrange(6, 8) =~= bytes.subrange(6, 8));
    assert(front.subrange(8, 12) =~= bytes.subrange(8, 12));
    assert(front.subrange(12, 44) =~= bytes.subrange(12, 44));
    assert(front.subrange(44, 52) =~= bytes.subrange(44, 52));
    assert(front.subrange(52, 60) =~= bytes.subrange(52, 60));
}

/// A frame can be taken apart into what it was made from, whatever follows it.
pub proof fn law_unframe_of_frame(
    original_size: u64,
    checksum: Seq<u8>,
    words: Seq<u32>,
    rest: Seq<u8>,
)
    requires
        checksum.len() == 32,
        words_bytes(words).len() <= usize::MAX,
    ensures
        unframe(frame(original_size, checksum, words) + rest) == Ok::<
            (HeaderView, Seq<u32>),
            FormatErrorView,
        >(
            (
                frame_header(original_size, checksum, words_bytes(words).len() as u64),
                words,
            ),
        ),
{
    let header = frame_header(original_size, checksum, words_bytes(words).len() as u64);
    let payload = words_bytes(words);
    let bytes = frame(original_size, checksum, words) + rest;
    assert(bytes =~= header.wire() + (payload + rest));
    law_header_round_trip(header, payload + rest);
    law_wire_len(header);
    lemma_words_bytes_len(words);
    law_words_of_bytes_of_words(words);
    assert(bytes.subrange(60, 60 + payload.len() as int) =~= payload);
}

/// A frame starts with the magic bytes and has the length of the header and
/// four bytes for each word.
pub proof fn law_frame_structure(original_size: u64, checksum: Seq<u8>, words: Seq<u32>)
    requires
        checksum.len() == 32,
    ensures
        frame(original_size, checksum, words).take(4) == MAGIC@,
        frame(original_size, checksum, words).len() == HEADER_LEN + 4 * words.len(),
{
    let header = frame_header(original_size, checksum, words_bytes(words).len() as u64);
    lemma_wire_fields(header);
    lemma_words_bytes_len(words);
    assert(frame(original_size, checksum, words).take(4) =~= header.wire().subrange(0, 4));
}

/// Byte for byte, a frame is: `HTC` and the byte 1; the version 1, the model
/// version 0 and no flags; the checksum; the original size and four times the
/// number of words, each in eight digits in base 256; and each word in four.
pub proof fn law_frame_byte_by_byte(
    original_size: u64,
    checksum: Seq<u8>,
    words: Seq<u32>,
    i: int,
    k: int,
)
    requires
        checksum.len() == 32,
        4 * words.len() <= u64::MAX,
    ensures
        ({
            let bytes = frame(original_size, checksum, words);
            &&& bytes.len() == 60 + 4 * words.len()
            &&& bytes[0] == 0x48 && bytes[1] == 0x54 && bytes[2] == 0x43 && bytes[3] == 0x01
            &&& bytes[4] == 0 && bytes[5] == 1
            &&& 6 <= i < 12 ==> bytes[i] == 0
            &&& 0 <= i < 32 ==> bytes[12 + i] == checksum[i]
            &&& 0 <= i < 8 ==> bytes[44 + i] as int == (original_size as int / pow(
                256,
                (7 - i) as nat,
            )) % 256
            &&& 0 <= i < 8 ==> bytes[52 + i] as int == ((4 * words.len()) as int / pow(
                256,
                (7 - i) as nat,
            )) % 256
            &&& 0 <= k < words.len() && 0 <= i < 4 ==> bytes[60 + 4 * k + i] as int == (
            words[k] as int / pow(256, (3 - i) as nat)) % 256
        }),
{
    let header = frame_header(original_size, checksum, words_bytes(words).len() as u64);
    let bytes = frame(original_size, checksum, words);
    lemma_words_bytes_len(words);
    law_wire_byte_by_byte(header, 0);
    law_wire_byte_by_byte(header, 1);
    law_wire_byte_by_byte(header, 2);
    law_wire_byte_by_byte(header, 3);
    vstd::arithmetic::power::lemma_pow0(256);
    vstd::arithmetic::power::lemma_pow1(256);
    if 6 <= i < 8 {
        law_wire_byte_by_byte(header, i - 6);
        lemma_zero_digit((7 - i) as nat);
    }
    if 8 <= i < 12 {
        law_wire_byte_by_byte(header, i - 8);
        lemma_zero_digit((11 - i) as nat);
    }
    law_wire_byte_by_byte(header, i);
    if 0 <= k < words.len() && 0 <= i < 4 {
        law_words_bytes_are_digits(words, k, i);
        assert(bytes[60 + 4 * k + i] == words_bytes(words)[4 * k + i]);
    }
}

/// Every digit of zero is zero.
proof fn lemma_zero_digit(e: nat)
    ensures
        (0int / pow(256, e)) % 256 == 0,
{
    vstd::arithmetic::power::lemma_pow_positive(256, e);
    let p = pow(256, e);
    assert(0int / p == 0) by (nonlinear_arith)
        requires
            p > 0,
    ;
}

/// What is wrong with the header is wrong with the frame. Behind a good header
/// must stand as many bytes as it promises, in whole words: if there are fewer,
/// the frame is truncated, and if they end within a word, it is corrupt where
/// that word begins. The words are read from these bytes, four for each.
pub proof fn law_unframe_takes_apart(bytes: Seq<u8>, k: int, j: int)
    ensures
        parse_header(bytes) matches Err(e) ==> unframe(bytes) == Err::<
            (HeaderView, Seq<u32>),
            FormatErrorView,
        >(e),
        parse_header(bytes) matches Ok(h) ==> ({
            let n = h.compressed_size as usize as int;
            &&& bytes.len() < 60 + n ==> unframe(bytes) == Err::<
                (HeaderView, Seq<u32>),
                FormatErrorView,
            >(FormatErrorView::TruncatedHeader)
            &&& bytes.len() >= 60 + n && n % 4 != 0 ==> unframe(bytes) == Err::<
                (HeaderView, Seq<u32>),
                FormatErrorView,
            >(FormatErrorView::CorruptBitstream { offset: (60 + 4 * (n / 4)) as u64 })
            &&& bytes.len() >= 60 + n && n % 4 == 0 ==> (unframe(bytes) matches Ok(parts) && {
                &&& parts.0 == h
                &&& 4 * parts.1.len() == n
                &&& 0 <= k < parts.1.len() && 0 <= j < 4 ==> (parts.1[k] as int / pow(
                    256,
                    (3 - j) as nat,
                )) % 256 == bytes[60 + 4 * k + j] as int
            })
        }),
{
    if parse_header(bytes) is Ok {
        let n = parse_header(bytes)->Ok_0.compressed_size as usize as int;
        assert(n - n % 4 == 4 * (n / 4));
        if bytes.len() >= 60 + n && n % 4 == 0 && 0 <= k < n / 4 && 0 <= j < 4 {
            let payload = bytes.subrange(60, 60 + n);
            law_bytes_words_have_digits(payload, k, j);
            assert(payload[4 * k + j] == bytes[60 + 4 * k + j]);
        }
    }
}

/// A frame that was cut short anywhere is refused as truncated.
pub proof fn law_cut_frame_is_truncated(
    original_size: u64,
    checksum: Seq<u8>,
    words: Seq<u32>,
    len: int,
)
    requires
        checksum.len() == 32,
        words_bytes(words).len() <= usize::MAX,
        0 <= len < frame(original_size, checksum, words).len(),
    ensures
        unframe(frame(original_size, checksum, words).take(len)) == Err::<
            (HeaderView, Seq<u32>),
            FormatErrorView,
        >(FormatErrorView::TruncatedHeader),
{
    let header = frame_header(original_size, checksum, words_bytes(words).len() as u64);
    let whole = frame(original_size, checksum, words);
    let cut = whole.take(len);
    law_wire_len(header);
    if len >= 60 {
        assert(cut =~= header.wire() + words_bytes(words).take(len - 60));
        law_header_round_trip(header, words_bytes(words).take(len - 60));
    }
}

/// Bytes that are too short for a header are refused as truncated, and longer
/// ones that do not start with the magic bytes are refused for that.
pub proof fn law_foreign_bytes_refused(bytes: Seq<u8>)
    requires
        bytes.len() < HEADER_LEN || bytes.take(4) != MAGIC@,
    ensures
        unframe(bytes) == Err::<(HeaderView, Seq<u32>), FormatErrorView>(
            if bytes.len() < HEADER_LEN {
                FormatErrorView::TruncatedHeader
            } else {
                FormatErrorView::InvalidMagic { found: bytes.take(4) }
            },
        ),
{
    if bytes.len() >= 60 {
        assert(bytes.subrange(0, 4) =~= bytes.take(4));
    }
}

/// Bytes behind the payload of a frame play no part.
pub proof fn law_trailing_bytes_ignored(bytes: Seq<u8>, rest: Seq<u8>)
    requires
        unframe(bytes) is Ok,
    ensures
        unframe(bytes + rest) == unframe(bytes),
{
    lemma_parse_prefix(bytes);
    lemma_parse_prefix(bytes + rest);
    assert((bytes + rest).take(60) =~= bytes.take(60));
    let header = parse_header(bytes)->Ok_0;
    let n = header.compressed_size as usize;
    assert((bytes + rest).subrange(60, 60 + n) =~= bytes.subrange(60, 60 + n));
}

// ---- Compression -----------------------------------------------------------

/// The distributions that the predictor gives for the bytes of `input`, each
/// for the bytes before it, or the first error.
pub open spec fn predictions<P: Predictor + ?Sized>(predictor: &P, input: Seq<u8>) -> Result<
    Seq<Seq<u32>>,
    PredictorErrorView,
>
    decreases input.len(),
{
    if input.len() == 0 {
        Ok(seq![])
    } else {
        match predictions(predictor, input.drop_last()) {
            Err(e) => Err(e),
            Ok(tables) => match predictor.next_distribution(input.drop_last()) {
                Err(e) => Err(e),
                Ok(table) => Ok(tables.push(table)),
            },
        }
    }
}

/// The predictor gives a valid probability table for every byte of `input`.
pub open spec fn predictable<P: Predictor + ?Sized>(predictor: &P, input: Seq<u8>) -> bool {
    forall|i: int|
        0 <= i < input.len() ==> (predictor.next_distribution(#[trigger] input.take(i)) matches Ok(
            table,
        ) && valid_table(table))
}

/// The compressed form of `input`, or why there is none.
pub open spec fn compressed<P: Predictor + ?Sized>(predictor: &P, input: Seq<u8>) -> Result<
    Seq<u8>,
    HeretikErrorView,
> {
    match predictions(predictor, input) {
        Err(e) => Err(HeretikErrorView::Predictor(e)),
        Ok(tables) => match sequence_words(input, tables) {
            Err(e) => Err(HeretikErrorView::Coder(e)),
            Ok(words) => Ok(frame(input.len() as u64, sha256(input), words)),
        },
    }
}

/// Bytes that are a header and whole words, no more words than the input needs
/// by its distributions, up to a small slack.
pub open spec fn has_compact_payload(
    bytes: Seq<u8>,
    input: Seq<u8>,
    tables: Seq<Seq<u32>>,
) -> bool {
    &&& bytes.len() >= HEADER_LEN
    &&& (bytes.len() - HEADER_LEN) % 4 == 0
    &&& is_compact(((bytes.len() - HEADER_LEN) / 4) as nat, input, tables)
}

/// The first `n` bytes that a decoder gives, each decoded with the
/// distribution that the predictor gives for the bytes before it, and the
/// decoder after them, or the first error.
pub open spec fn run_decode<P: Predictor + ?Sized>(
    predictor: &P,
    decoder: AnsCoderView,
    n: nat,
) -> Result<(Seq<u8>, AnsCoderView), HeretikErrorView>
    decreases n,
{
    if n == 0 {
        Ok((seq![], decoder))
    } else {
        match run_decode(predictor, decoder, (n - 1) as nat) {
            Err(e) => Err(e),
            Ok((output, now)) => match predictor.next_distribution(output) {
                Err(e) => Err(HeretikErrorView::Predictor(e)),
                Ok(probs) => match now.decoded_symbol(probs) {
                    Err(e) => Err(HeretikErrorView::Coder(e)),
                    Ok((symbol, after)) => Ok((output.push(symbol), after)),
                },
            },
        }
    }
}

/// What `bytes` decompress to, or why there is nothing.
pub open spec fn decompressed<P: Predictor + ?Sized>(predictor: &P, bytes: Seq<u8>) -> Result<
    Seq<u8>,
    HeretikErrorView,
> {
    match unframe(bytes) {
        Err(e) => Err(HeretikErrorView::Format(e)),
        Ok((header, words)) => match AnsCoderView::started(words) {
            Err(e) => Err(HeretikErrorView::Coder(e)),
            Ok(decoder) => match run_decode(
                predictor,
                decoder,
                header.original_size as usize as nat,
            ) {
                Err(e) => Err(e),
                Ok((output, _)) => match checksum_verdict(sha256(output), header.sha256) {
                    Err(e) => Err(HeretikErrorView::Integrity(e)),
                    Ok(_) => Ok(output),
                },
            },
        },
    }
}

/// An error on the first bytes of an input is the error on the whole input.
proof fn lemma_prediction_error_persists<P: Predictor + ?Sized>(
    predictor: &P,
    input: Seq<u8>,
    n: int,
)
    requires
        0 <= n <= input.len(),
        predictions(predictor, input.take(n)) is Err,
    ensures
        predictions(predictor, input) == predictions(predictor, input.take(n)),
    decreases input.len() - n,
{
    if n < input.len() {
        assert(input.take(n + 1).drop_last() =~= input.take(n));
        lemma_prediction_error_persists(predictor, input, n + 1);
    } else {
        assert(input.take(n) =~= input);
    }
}

/// An error on the first symbols is the error on all.
proof fn lemma_decode_error_persists<P: Predictor + ?Sized>(
    predictor: &P,
    decoder: AnsCoderView,
    k: nat,
    n: nat,
)
    requires
        k <= n,
        run_decode(predictor, decoder, k) is Err,
    ensures
        run_decode(predictor, decoder, n) == run_decode(predictor, decoder, k),
    decreases n - k,
{
    if k < n {
        lemma_decode_error_persists(predictor, decoder, k, (n - 1) as nat);
    }
}

/// There is one prediction for each byte, made from the bytes before it.
proof fn lemma_predictions<P: Predictor + ?Sized>(predictor: &P, input: Seq<u8>)
    ensures
        predictions(predictor, input) matches Ok(tables) ==> tables.len() == input.len() && forall|
            i: int,
        |
            0 <= i < input.len() ==> predictor.next_distribution(#[trigger] input.take(i)) == Ok::<
                Seq<u32>,
                PredictorErrorView,
            >(tables[i]),
        predictions(predictor, input) is Err ==> exists|i: int|
            0 <= i < input.len() && predictor.next_distribution(#[trigger] input.take(i)) is Err,
    decreases input.len(),
{
    if input.len() > 0 {
        let shorter = input.drop_last();
        lemma_predictions(predictor, shorter);
        assert(input.take(input.len() - 1) =~= shorter);
        assert forall|i: int| 0 <= i < shorter.len() implies #[trigger] input.take(i)
            == shorter.take(i) by {
            assert(input.take(i) =~= shorter.take(i));
        }
        if predictions(predictor, shorter) is Err {
            let i = choose|i: int|
                0 <= i < shorter.len() && predictor.next_distribution(
                    #[trigger] shorter.take(i),
                ) is Err;
            assert(input.take(i) == shorter.take(i));
        }
    }
}

/// Decoding words that read back gives the bytes of the input, one by one.
proof fn lemma_decode_gives_input<P: Predictor + ?Sized>(
    predictor: &P,
    input: Seq<u8>,
    tables: Seq<Seq<u32>>,
    words: Seq<u32>,
    k: nat,
)
    requires
        predictions(predictor, input) == Ok::<Seq<Seq<u32>>, PredictorErrorView>(tables),
        all_valid(tables),
        sequence_reads_back(words, input, tables),
        k <= input.len(),
    ensures
        ({
            let (bulk, state) = pushed_from(input, tables, k as int);
            run_decode(predictor, AnsCoderView::started(words)->Ok_0, k) == Ok::<
                (Seq<u8>, AnsCoderView),
                HeretikErrorView,
            >(
                (
                    input.take(k as int),
                    (AnsCoderView { bulk, state, symbols: seq![], model: None }),
                ),
            )
        }),
    decreases k,
{
    if k == 0 {
        assert(input.take(0) =~= seq![]);
    } else {
        let j = (k - 1) as nat;
        lemma_decode_gives_input(predictor, input, tables, words, j);
        lemma_predictions(predictor, input);
        assert(pops_back(input, tables, j as int));
        assert(valid_table(tables[j as int]));
        assert(predictor.next_distribution(input.take(j as int)) is Ok);
        assert(input.take(k as int) =~= input.take(j as int).push(input[j as int]));
    }
}

/// A frame of words that read back decompresses to the input.
proof fn lemma_frame_decompresses<P: Predictor + ?Sized>(
    predictor: &P,
    input: Seq<u8>,
    tables: Seq<Seq<u32>>,
    words: Seq<u32>,
)
    requires
        predictions(predictor, input) == Ok::<Seq<Seq<u32>>, PredictorErrorView>(tables),
        all_valid(tables),
        sequence_reads_back(words, input, tables),
        input.len() <= usize::MAX,
        words_bytes(words).len() <= usize::MAX,
        sha256(input).len() == 32,
    ensures
        decompressed(predictor, frame(input.len() as u64, sha256(input), words)) == Ok::<
            Seq<u8>,
            HeretikErrorView,
        >(input),
{
    let bytes = frame(input.len() as u64, sha256(input), words);
    assert(bytes + Seq::<u8>::empty() =~= bytes);
    law_unframe_of_frame(input.len() as u64, sha256(input), words, Seq::<u8>::empty());
    lemma_decode_gives_input(predictor, input, tables, words, input.len());
    assert(input.take(input.len() as int) =~= input);
}

/// Compresses `input` with the distributions of `predictor`, one for each byte.
///
/// The output is a header and the words of the encoded bytes. It succeeds
/// exactly if the predictor gives a valid probability table for every byte,
/// and decompressing the output with the same predictor gives the input back.
/// An empty input is compressed to the header alone.
pub fn compress_to_bytes<P: Predictor + ?Sized>(input: &[u8], predictor: &P) -> (r: Result<
    Vec<u8>,
    HeretikError,
>)
    ensures
        result_view(r) == compressed(predictor, input@),
        r is Ok <==> predictable(predictor, input@),
        r matches Ok(bytes) ==> decompressed(predictor, bytes@) == Ok::<Seq<u8>, HeretikErrorView>(
            input@,
        ),
        r matches Ok(bytes) ==> has_compact_payload(
            bytes@,
            input@,
            predictions(predictor, input@)->Ok_0,
        ),
        input@.len() == 0 ==> (r matches Ok(bytes) && bytes@ == frame(0, sha256(input@), seq![])),
{
    proof {
        law_compresses_if_predictable(predictor, input@);
    }
    let mut encoder = SequenceEncoder::new();
    let mut i: usize = 0;
    assert(input@.take(0) =~= seq![]);
    while i < input.len()
        invariant
            i <= input@.len(),
            encoder.wf(),
            encoder@.symbols == input@.take(i as int),
            predictions(predictor, input@.take(i as int)) == Ok::<
                Seq<Seq<u32>>,
                PredictorErrorView,
            >(encoder@.tables),
            compressed(predictor, input@) is Ok <==> predictable(predictor, input@),
        decreases input@.len() - i,
    {
        let context = vstd::slice::slice_subrange(input, 0, i);
        proof {
            assert(context@ =~= input@.take(i as int));
            assert(input@.take(i + 1).drop_last() =~= input@.take(i as int));
            assert(input@.take(i + 1) =~= input@.take(i as int).push(input@[i as int]));
            if predictions(predictor, input@.take(i + 1)) is Err {
                lemma_prediction_error_persists(predictor, input@, i + 1);
            }
        }
        let probs = match predictor.predict_single(context) {
            Ok(probs) => probs,
            Err(e) => {
                return Err(HeretikError::Predictor(e));
            },
        };
        encoder.encode(&probs, input[i]);
        i = i + 1;
    }
    assert(input@.take(i as int) =~= input@);
    let ghost tables = encoder@.tables;
    let words = match encoder.finish() {
        Ok(words) => words,
        Err(e) => {
            return Err(HeretikError::Coder(e));
        },
    };
    let checksum = compute_sha256(input);
    let output = frame_words(input.len() as u64, checksum, words.as_slice());
    proof {
        lemma_frame_decompresses(predictor, input@, tables, words@);
        lemma_predictions(predictor, input@);
        law_sequence_takes_at_most(input@, tables);
        law_frame_structure(input@.len() as u64, checksum@, words@);
        if input@.len() == 0 {
            assert(words@ =~= seq![]);
        }
    }
    Ok(output)
}

/// Decompresses what [`compress_to_bytes`] made with the same predictor.
///
/// # Errors
///
/// - A format error if the bytes are no complete frame.
/// - An error of the coder if the words are no bitstream, or a distribution
///   is no probability table.
/// - The error of the predictor if it gives no distribution.
/// - `ChecksumMismatch` if the decoded bytes are not those that were
///   compressed.
pub fn decompress_from_bytes<P: Predictor + ?Sized>(compressed: &[u8], predictor: &P) -> (r: Result<
    Vec<u8>,
    HeretikError,
>)
    ensures
        result_view(r) == decompressed(predictor, compressed@),
{
    let (header, words) = match unframe_words(compressed) {
        Ok(parts) => parts,
        Err(e) => {
            return Err(HeretikError::Format(e));
        },
    };
    let mut coder = match AnsCoder::start_decode(words.as_slice()) {
        Ok(coder) => coder,
        Err(e) => {
            return Err(HeretikError::Coder(e));
        },
    };
    let ghost decoder = coder@;
    let n: usize = header.original_size as usize;
    let mut output: Vec<u8> = Vec::new();
    let mut i: usize = 0;
    while i < n
        invariant
            i <= n,
            n == header@.original_size as usize,
            unframe(compressed@) == Ok::<(HeaderView, Seq<u32>), FormatErrorView>(
                (header@, words@),
            ),
            AnsCoderView::started(words@) == Ok::<AnsCoderView, CoderErrorView>(
                decoder,
            ),
            coder@.wf(),
            run_decode(predictor, decoder, i as nat) == Ok::<
                (Seq<u8>, AnsCoderView),
                HeretikErrorView,
            >((output@, coder@)),
        decreases n - i,
    {
        proof {
            if run_decode(predictor, decoder, (i + 1) as nat) is Err {
                lemma_decode_error_persists(predictor, decoder, (i + 1) as nat, n as nat);
            }
        }
        let probs = match predictor.predict_single(output.as_slice()) {
            Ok(probs) => probs,
            Err(e) => {
                return Err(HeretikError::Predictor(e));
            },
        };
        let byte: u8 = match coder.decode_symbol(&probs) {
            Ok(byte) => byte,
            Err(e) => {
                return Err(HeretikError::Coder(e));
            },
        };
        output.push(byte);
        i = i + 1;
    }
    match verify_checksum(output.as_slice(), &header.sha256) {
        Ok(_) => Ok(output),
        Err(e) => Err(HeretikError::Integrity(e)),
    }
}

/// Compresses bytes with the predictor that it holds.
pub struct Compressor<P: Predictor> {
    predictor: P,
}

/// Decompresses bytes with the predictor that it holds, which must give the
/// distributions that were used to compress them.
pub struct Decompressor<P: Predictor> {
    predictor: P,
}

impl<P: Predictor> Compressor<P> {
    /// The predictor.
    pub closed spec fn predictor(&self) -> P {
        self.predictor
    }

    /// A compressor with the given predictor.
    pub fn new(predictor: P) -> (c: Compressor<P>)
        ensures
            c.predictor() == predictor,
    {
        Compressor { predictor }
    }

    /// Compresses `input`. See [`compress_to_bytes`].
    pub fn compress(&self, input: &[u8]) -> (r: Result<Vec<u8>, HeretikError>)
        ensures
            result_view(r) == compressed(&self.predictor(), input@),
            r is Ok <==> predictable(&self.predictor(), input@),
            r matches Ok(bytes) ==> decompressed(&self.predictor(), bytes@) == Ok::<
                Seq<u8>,
                HeretikErrorView,
            >(input@),
            r matches Ok(bytes) ==> has_compact_payload(
                bytes@,
                input@,
                predictions(&self.predictor(), input@)->Ok_0,
            ),
            input@.len() == 0 ==> (r matches Ok(bytes) && bytes@ == frame(
                0,
                sha256(input@),
                seq![],
            )),
    {
        compress_to_bytes(input, &self.predictor)
    }
}

impl<P: Predictor> Decompressor<P> {
    /// The predictor.
    pub closed spec fn predictor(&self) -> P {
        self.predictor
    }

    /// A decompressor with the given predictor.
    pub fn new(predictor: P) -> (d: Decompressor<P>)
        ensures
            d.predictor() == predictor,
    {
        Decompressor { predictor }
    }

    /// Decompresses `compressed`. See [`decompress_from_bytes`].
    pub fn decompress(&self, compressed: &[u8]) -> (r: Result<Vec<u8>, HeretikError>)
        ensures
            result_view(r) == decompressed(&self.predictor(), compressed@),
    {
        decompress_from_bytes(compressed, &self.predictor)
    }
}

// ---- Laws of the pipeline --------------------------------------------------

/// An input is compressed successfully exactly if the predictor gives a valid
/// probability table for each of its bytes. The tables may differ.
pub proof fn law_compresses_if_predictable<P: Predictor + ?Sized>(predictor: &P, input: Seq<u8>)
    ensures
        compressed(predictor, input) is Ok <==> predictable(predictor, input),
{
    lemma_predictions(predictor, input);
    if predictable(predictor, input) {
        if predictions(predictor, input) is Ok {
            let tables = predictions(predictor, input)->Ok_0;
            assert forall|i: int| 0 <= i < tables.len() implies valid_table(
                #[trigger] tables[i],
            ) by {
                assert(predictor.next_distribution(input.take(i)) is Ok);
            }
        }
    }
    if compressed(predictor, input) is Ok {
        let tables = predictions(predictor, input)->Ok_0;
        assert forall|i: int| 0 <= i < input.len() implies (predictor.next_distribution(
            #[trigger] input.take(i),
        ) matches Ok(table) && valid_table(table)) by {
            assert(valid_table(tables[i]));
        }
    }
}

/// The distribution for each byte is the one that the predictor gives for the
/// bytes before it. If it gives none somewhere, its first error is the error.
pub proof fn law_predictions_follow_the_input<P: Predictor + ?Sized>(
    predictor: &P,
    input: Seq<u8>,
    k: int,
)
    ensures
        predictions(predictor, input) is Ok <==> forall|i: int|
            0 <= i < input.len() ==> predictor.next_distribution(#[trigger] input.take(i)) is Ok,
        predictions(predictor, input) matches Ok(tables) ==> {
            &&& tables.len() == input.len()
            &&& 0 <= k < input.len() ==> predictor.next_distribution(input.take(k)) == Ok::<
                Seq<u32>,
                PredictorErrorView,
            >(tables[k])
        },
        0 <= k < input.len() && predictor.next_distribution(input.take(k)) is Err && (forall|
            i: int,
        |
            0 <= i < k ==> predictor.next_distribution(#[trigger] input.take(i)) is Ok)
            ==> predictions(predictor, input) == Err::<Seq<Seq<u32>>, PredictorErrorView>(
            predictor.next_distribution(input.take(k))->Err_0,
        ),
{
    lemma_predictions(predictor, input);
    if predictions(predictor, input) is Ok {
        let tables = predictions(predictor, input)->Ok_0;
        assert forall|i: int| 0 <= i < input.len() implies predictor.next_distribution(
            #[trigger] input.take(i),
        ) is Ok by {
            assert(predictor.next_distribution(input.take(i)) == Ok::<
                Seq<u32>,
                PredictorErrorView,
            >(tables[i]));
        }
        if 0 <= k < input.len() {
            assert(predictor.next_distribution(input.take(k)) == Ok::<
                Seq<u32>,
                PredictorErrorView,
            >(tables[k]));
        }
    }
    if 0 <= k < input.len() && predictor.next_distribution(input.take(k)) is Err && (forall|i: int|
        0 <= i < k ==> predictor.next_distribution(#[trigger] input.take(i)) is Ok) {
        let front = input.take(k);
        lemma_predictions(predictor, front);
        if predictions(predictor, front) is Err {
            let i = choose|i: int|
                0 <= i < front.len() && predictor.next_distribution(
                    #[trigger] front.take(i),
                ) is Err;
            assert(front.take(i) =~= input.take(i));
        }
        assert(input.take(k + 1).drop_last() =~= front);
        lemma_prediction_error_persists(predictor, input, k + 1);
    }
}

/// An input is compressed with the distributions for its bytes: to the frame
/// with its length, its checksum and the words of its bytes, each encoded with
/// its own distribution. It fails with the error of the predictor if there is
/// one, and else if some distribution is no probability table.
pub proof fn law_compressed_holds_the_input<P: Predictor + ?Sized>(predictor: &P, input: Seq<u8>)
    requires
        input.len() <= u64::MAX,
    ensures
        predictions(predictor, input) matches Err(e) ==> compressed(predictor, input) == Err::<
            Seq<u8>,
            HeretikErrorView,
        >(HeretikErrorView::Predictor(e)),
        predictions(predictor, input) matches Ok(tables) ==> {
            &&& (exists|i: int| 0 <= i < input.len() && !valid_table(#[trigger] tables[i]))
                ==> compressed(predictor, input) == Err::<Seq<u8>, HeretikErrorView>(
                HeretikErrorView::Coder(
                    CoderErrorView::EncodeFailed { message: "model build failed: ()"@ },
                ),
            )
            &&& (forall|i: int| 0 <= i < input.len() ==> valid_table(#[trigger] tables[i]))
                ==> exists|size: u64|
                {
                    &&& size == input.len()
                    &&& compressed(predictor, input) == Ok::<Seq<u8>, HeretikErrorView>(
                        #[trigger] frame(
                            size,
                            sha256(input),
                            stack_words(
                                pushed_from(input, tables, 0).0,
                                pushed_from(input, tables, 0).1,
                            ),
                        ),
                    )
                }
        },
{
    lemma_predictions(predictor, input);
    if predictions(predictor, input) is Ok {
        let tables = predictions(predictor, input)->Ok_0;
        law_sequence_words(input, tables);
        let size = input.len() as u64;
        let words = stack_words(
            pushed_from(input, tables, 0).0,
            pushed_from(input, tables, 0).1,
        );
        assert(frame(size, sha256(input), words) == frame(size, sha256(input), words));
        if exists|i: int| 0 <= i < input.len() && !valid_table(#[trigger] tables[i]) {
            let i = choose|i: int| 0 <= i < input.len() && !valid_table(#[trigger] tables[i]);
            assert(!valid_table(tables[i]));
        }
    }
}

/// Decompressing what an input was compressed to, with the same predictor,
/// gives the input back.
pub proof fn law_decompress_undoes_compress<P: Predictor + ?Sized>(predictor: &P, input: Seq<u8>)
    requires
        compressed(predictor, input) is Ok,
        compressed(predictor, input)->Ok_0.len() <= usize::MAX,
        input.len() <= usize::MAX,
        sha256(input).len() == 32,
    ensures
        decompressed(predictor, compressed(predictor, input)->Ok_0) == Ok::<
            Seq<u8>,
            HeretikErrorView,
        >(input),
{
    lemma_predictions(predictor, input);
    let tables = predictions(predictor, input)->Ok_0;
    let words = sequence_words(input, tables)->Ok_0;
    law_sequence_is_stacked(input, tables, 0);
    let (bulk, state) = pushed_from(input, tables, 0);
    law_words_stack_of_stack_words(bulk, state);
    assert(words_stack(words) == Some((bulk, state)));
    assert forall|i: int| 0 <= i < input.len() implies #[trigger] pops_back(input, tables, i) by {
        law_sequence_is_stacked(input, tables, i);
    }
    law_frame_structure(input.len() as u64, sha256(input), words);
    lemma_words_bytes_len(words);
    lemma_frame_decompresses(predictor, input, tables, words);
}

/// Each byte is decoded with the distribution that the predictor gives for the
/// bytes decoded before it. `steps` are the decoders before and after each of
/// the first `output.len()` bytes. If the predictor or the decoder then fails,
/// its error is the result for every greater number of bytes.
pub proof fn law_decoding_follows_the_output<P: Predictor + ?Sized>(
    predictor: &P,
    output: Seq<u8>,
    steps: Seq<AnsCoderView>,
    n: nat,
)
    requires
        steps.len() == output.len() + 1,
        forall|i: int|
            0 <= i < output.len() ==> (predictor.next_distribution(
                #[trigger] output.take(i),
            ) matches Ok(table) && steps[i].decoded_symbol(table) == Ok::<
                (u8, AnsCoderView),
                CoderErrorView,
            >((output[i], steps[i + 1]))),
    ensures
        run_decode(predictor, steps[0], output.len()) == Ok::<
            (Seq<u8>, AnsCoderView),
            HeretikErrorView,
        >((output, steps.last())),
        n > output.len() ==> (predictor.next_distribution(output) matches Err(e) ==> run_decode(
            predictor,
            steps[0],
            n,
        ) == Err::<(Seq<u8>, AnsCoderView), HeretikErrorView>(HeretikErrorView::Predictor(e))),
        n > output.len() ==> (predictor.next_distribution(output) matches Ok(table) ==> (
        steps.last().decoded_symbol(table) matches Err(e) ==> run_decode(predictor, steps[0], n)
            == Err::<(Seq<u8>, AnsCoderView), HeretikErrorView>(HeretikErrorView::Coder(e)))),
    decreases output.len(),
{
    let len = output.len();
    if len > 0 {
        let shorter = output.drop_last();
        let before = steps.drop_last();
        assert forall|i: int| 0 <= i < shorter.len() implies (predictor.next_distribution(
            #[trigger] shorter.take(i),
        ) matches Ok(table) && before[i].decoded_symbol(table) == Ok::<
            (u8, AnsCoderView),
            CoderErrorView,
        >((shorter[i], before[i + 1]))) by {
            assert(shorter.take(i) =~= output.take(i));
        }
        law_decoding_follows_the_output(predictor, shorter, before, n);
        assert(output.take(len - 1) =~= shorter);
        assert(shorter.push(output.last()) =~= output);
    } else {
        assert(output =~= seq![]);
    }
    if n > len && run_decode(predictor, steps[0], len + 1) is Err {
        lemma_decode_error_persists(predictor, steps[0], len + 1, n);
    }
}

/// Bytes are taken apart, their words are started on, and as many bytes are
/// decoded as the header promises; whatever fails first is the error. The
/// output is what was decoded if it has the promised checksum, and is refused
/// for the mismatch if it has another.
pub proof fn law_decompression_in_steps<P: Predictor + ?Sized>(
    predictor: &P,
    bytes: Seq<u8>,
    header: HeaderView,
    words: Seq<u32>,
    decoder: AnsCoderView,
    output: Seq<u8>,
    after: AnsCoderView,
)
    ensures
        unframe(bytes) matches Err(e) ==> decompressed(predictor, bytes) == Err::<
            Seq<u8>,
            HeretikErrorView,
        >(HeretikErrorView::Format(e)),
        unframe(bytes) == Ok::<(HeaderView, Seq<u32>), FormatErrorView>((header, words)) ==> {
            &&& AnsCoderView::started(words) matches Err(e) ==> decompressed(predictor, bytes)
                == Err::<Seq<u8>, HeretikErrorView>(HeretikErrorView::Coder(e))
            &&& AnsCoderView::started(words) == Ok::<AnsCoderView, CoderErrorView>(decoder) ==> {
                let run = run_decode(predictor, decoder, header.original_size as usize as nat);
                &&& run matches Err(e) ==> decompressed(predictor, bytes) == Err::<
                    Seq<u8>,
                    HeretikErrorView,
                >(e)
                &&& run == Ok::<(Seq<u8>, AnsCoderView), HeretikErrorView>((output, after)) ==> {
                    &&& sha256(output) == header.sha256 ==> decompressed(predictor, bytes) == Ok::<
                        Seq<u8>,
                        HeretikErrorView,
                    >(output)
                    &&& sha256(output) != header.sha256 ==> decompressed(predictor, bytes) == Err::<
                        Seq<u8>,
                        HeretikErrorView,
                    >(
                        HeretikErrorView::Integrity(
                            IntegrityErrorView::ChecksumMismatch {
                                expected: header.sha256,
                                actual: sha256(output),
                            },
                        ),
                    )
                }
            }
        },
{
}

/// With the stub predictor every input is compressed successfully.
pub proof fn law_stub_compresses(input: Seq<u8>)
    ensures
        compressed(&StubPredictor, input) is Ok,
{
    law_uniform_table_valid();
    law_compresses_if_predictable(&StubPredictor, input);
}

/// What is decompressed successfully has the size and the checksum that the
/// header promises.
pub proof fn law_output_is_verified<P: Predictor + ?Sized>(predictor: &P, bytes: Seq<u8>)
    requires
        decompressed(predictor, bytes) is Ok,
    ensures
        parse_header(bytes) is Ok,
        sha256(decompressed(predictor, bytes)->Ok_0) == parse_header(bytes)->Ok_0.sha256,
        decompressed(predictor, bytes)->Ok_0.len() == parse_header(bytes)->Ok_0.original_size
            as usize,
{
    let (header, words) = unframe(bytes)->Ok_0;
    lemma_decoded_len(
        predictor,
        AnsCoderView::started(words)->Ok_0,
        header.original_size as usize as nat,
    );
}

/// Decoding `n` symbols gives `n` bytes.
proof fn lemma_decoded_len<P: Predictor + ?Sized>(predictor: &P, decoder: AnsCoderView, n: nat)
    requires
        run_decode(predictor, decoder, n) is Ok,
    ensures
        run_decode(predictor, decoder, n)->Ok_0.0.len() == n,
    decreases n,
{
    if n > 0 {
        lemma_decoded_len(predictor, decoder, (n - 1) as nat);
    }
}

/// Changing the checksum in the header of bytes that decompress is detected:
/// the bytes are decoded as before and then refused for the mismatch.
pub proof fn law_changed_checksum_detected<P: Predictor + ?Sized>(
    predictor: &P,
    bytes: Seq<u8>,
    changed: Seq<u8>,
)
    requires
        decompressed(predictor, bytes) is Ok,
        changed.len() == bytes.len(),
        changed.take(12) == bytes.take(12),
        changed.skip(44) == bytes.skip(44),
        changed.subrange(12, 44) != bytes.subrange(12, 44),
    ensures
        decompressed(predictor, changed) == Err::<Seq<u8>, HeretikErrorView>(
            HeretikErrorView::Integrity(
                IntegrityErrorView::ChecksumMismatch {
                    expected: changed.subrange(12, 44),
                    actual: bytes.subrange(12, 44),
                },
            ),
        ),
{
    assert(changed.subrange(0, 4) =~= changed.take(12).subrange(0, 4));
    assert(changed.subrange(4, 6) =~= changed.take(12).subrange(4, 6));
    assert(changed.subrange(6, 8) =~= changed.take(12).subrange(6, 8));
    assert(changed.subrange(8, 12) =~= changed.take(12).subrange(8, 12));
    assert(changed.subrange(44, 52) =~= changed.skip(44).subrange(0, 8));
    assert(changed.subrange(52, 60) =~= changed.skip(44).subrange(8, 16));
    assert(bytes.subrange(0, 4) =~= bytes.take(12).subrange(0, 4));
    assert(bytes.subrange(4, 6) =~= bytes.take(12).subrange(4, 6));
    assert(bytes.subrange(6, 8) =~= bytes.take(12).subrange(6, 8));
    assert(bytes.subrange(8, 12) =~= bytes.take(12).subrange(8, 12));
    assert(bytes.subrange(44, 52) =~= bytes.skip(44).subrange(0, 8));
    assert(bytes.subrange(52, 60) =~= bytes.skip(44).subrange(8, 16));
    let n = parse_header(bytes)->Ok_0.compressed_size as usize;
    assert(changed.subrange(60, 60 + n) =~= changed.skip(44).subrange(16, 16 + n));
    assert(bytes.subrange(60, 60 + n) =~= bytes.skip(44).subrange(16, 16 + n));
}

/// Bytes behind a frame that decompresses do not change what it decompresses
/// to.
pub proof fn law_trailing_bytes_do_not_matter<P: Predictor + ?Sized>(
    predictor: &P,
    bytes: Seq<u8>,
    rest: Seq<u8>,
)
    requires
        unframe(bytes) is Ok,
    ensures
        decompressed(predictor, bytes + rest) == decompressed(predictor, bytes),
{
    law_trailing_bytes_ignored(bytes, rest);
}

/// Changing the payload but not the header is detected, unless the hash takes
/// both outputs for the same: what still decompresses has the size and the
/// hash of what was compressed.
pub proof fn law_changed_payload_keeps_hash<P: Predictor + ?Sized>(
    predictor: &P,
    bytes: Seq<u8>,
    changed: Seq<u8>,
)
    requires
        decompressed(predictor, bytes) is Ok,
        decompressed(predictor, changed) is Ok,
        changed.take(60) == bytes.take(60),
    ensures
        sha256(decompressed(predictor, changed)->Ok_0) == sha256(
            decompressed(predictor, bytes)->Ok_0,
        ),
        decompressed(predictor, changed)->Ok_0.len() == decompressed(predictor, bytes)->Ok_0.len(),
{
    law_output_is_verified(predictor, bytes);
    law_output_is_verified(predictor, changed);
    lemma_parse_prefix(bytes);
    lemma_parse_prefix(changed);
}

} // verus!
