//! Structured errors, their texts and the conversions between them.

use crate::text::{decimal, hex_byte, hex_bytes, push_decimal, push_hex_byte, push_hex_bytes};
use vstd::prelude::*;
use vstd::std_specs::convert::FromSpec;

verus! {

/// A result seen through the views of its value and of its error.
pub open spec fn result_view<T: View, E: View>(r: Result<T, E>) -> Result<T::V, E::V> {
    match r {
        Ok(value) => Ok(value@),
        Err(error) => Err(error@),
    }
}

/// A result and its view succeed together, with the value and its view or
/// with the error and its view.
pub proof fn law_result_view<T: View, E: View>(value: T, error: E)
    ensures
        result_view(Ok::<T, E>(value)) == Ok::<T::V, E::V>(value@),
        result_view(Err::<T, E>(error)) == Err::<T::V, E::V>(error@),
{
}

// ---- Coder errors ----------------------------------------------------------

/// Errors originating in the entropy coder.
#[derive(Debug)]
pub enum CoderError {
    /// The internal symbol stack underflowed: malformed or truncated bitstream.
    StackUnderflow { at_byte: u64 },
    /// Encoding failed for a reason that no narrower variant describes.
    EncodeFailed { message: String },
    /// Decoding failed for a reason that no narrower variant describes.
    DecodeFailed { message: String },
}

/// The view of a [`CoderError`].
pub enum CoderErrorView {
    StackUnderflow { at_byte: u64 },
    EncodeFailed { message: Seq<char> },
    DecodeFailed { message: Seq<char> },
}

impl View for CoderError {
    type V = CoderErrorView;

    open spec fn view(&self) -> CoderErrorView {
        match *self {
            CoderError::StackUnderflow { at_byte } => CoderErrorView::StackUnderflow { at_byte },
            CoderError::EncodeFailed { message } => CoderErrorView::EncodeFailed {
                message: message@,
            },
            CoderError::DecodeFailed { message } => CoderErrorView::DecodeFailed {
                message: message@,
            },
        }
    }
}

impl CoderErrorView {
    /// The text of the error.
    pub open spec fn text(self) -> Seq<char> {
        match self {
            CoderErrorView::StackUnderflow { at_byte } => "coder stack underflow at byte offset "@
                + decimal(at_byte as nat),
            CoderErrorView::EncodeFailed { message } => "encode failed: "@ + message,
            CoderErrorView::DecodeFailed { message } => "decode failed: "@ + message,
        }
    }
}

impl CoderError {
    /// The text of the error.
    pub fn to_string(&self) -> (s: String)
        ensures
            s@ == self@.text(),
    {
        match self {
            CoderError::StackUnderflow { at_byte } => {
                let mut s = String::from_str("coder stack underflow at byte offset ");
                push_decimal(&mut s, *at_byte);
                s
            },
            CoderError::EncodeFailed { message } => {
                let mut s = String::from_str("encode failed: ");
                s.append(message.as_str());
                s
            },
            CoderError::DecodeFailed { message } => {
                let mut s = String::from_str("decode failed: ");
                s.append(message.as_str());
                s
            },
        }
    }
}

/// A coder error is seen, and told in words, by all that it holds.
pub proof fn law_coder_error_tells_all(e: CoderError)
    ensures
        match e {
            CoderError::StackUnderflow { at_byte } => {
                &&& e@ == CoderErrorView::StackUnderflow { at_byte }
                &&& e@.text() == "coder stack underflow at byte offset "@ + decimal(at_byte as nat)
            },
            CoderError::EncodeFailed { message } => {
                &&& e@ == CoderErrorView::EncodeFailed { message: message@ }
                &&& e@.text() == "encode failed: "@ + message@
            },
            CoderError::DecodeFailed { message } => {
                &&& e@ == CoderErrorView::DecodeFailed { message: message@ }
                &&& e@.text() == "decode failed: "@ + message@
            },
        },
{
}

// ---- Predictor errors ------------------------------------------------------

/// Errors originating in the predictor.
#[derive(Debug)]
pub enum PredictorError {
    /// A probability distribution is invalid: an entry is negative or the
    /// entries do not sum to one. `sum` is the sum in decimal notation.
    InvalidDistribution { index: usize, sum: String },
    /// The model could not be loaded.
    ModelLoadFailed { path: String, message: String },
    /// The forward pass through the model failed.
    ForwardPassFailed { message: String },
}

/// The view of a [`PredictorError`].
pub enum PredictorErrorView {
    InvalidDistribution { index: usize, sum: Seq<char> },
    ModelLoadFailed { path: Seq<char>, message: Seq<char> },
    ForwardPassFailed { message: Seq<char> },
}

impl View for PredictorError {
    type V = PredictorErrorView;

    open spec fn view(&self) -> PredictorErrorView {
        match *self {
            PredictorError::InvalidDistribution {
                index,
                sum,
            } => PredictorErrorView::InvalidDistribution { index, sum: sum@ },
            PredictorError::ModelLoadFailed { path, message } => {
                PredictorErrorView::ModelLoadFailed { path: path@, message: message@ }
            },
            PredictorError::ForwardPassFailed {
                message,
            } => PredictorErrorView::ForwardPassFailed { message: message@ },
        }
    }
}

impl PredictorErrorView {
    /// The text of the error.
    pub open spec fn text(self) -> Seq<char> {
        match self {
            PredictorErrorView::InvalidDistribution {
                index,
                sum,
            } => "invalid probability distribution: index "@ + decimal(index as nat) + ", sum "@
                + sum,
            PredictorErrorView::ModelLoadFailed { path, message } => {
                "failed to load model from "@ + path + ": "@ + message
            },
            PredictorErrorView::ForwardPassFailed { message } => "forward pass failed: "@ + message,
        }
    }
}

impl PredictorError {
    /// The text of the error.
    pub fn to_string(&self) -> (s: String)
        ensures
            s@ == self@.text(),
    {
        match self {
            PredictorError::InvalidDistribution { index, sum } => {
                let mut s = String::from_str("invalid probability distribution: index ");
                push_decimal(&mut s, *index as u64);
                s.append(", sum ");
                s.append(sum.as_str());
                s
            },
            PredictorError::ModelLoadFailed { path, message } => {
                let mut s = String::from_str("failed to load model from ");
                s.append(path.as_str());
                s.append(": ");
                s.append(message.as_str());
                s
            },
            PredictorError::ForwardPassFailed { message } => {
                let mut s = String::from_str("forward pass failed: ");
                s.append(message.as_str());
                s
            },
        }
    }
}

/// A predictor error is seen, and told in words, by all that it holds.
pub proof fn law_predictor_error_tells_all(e: PredictorError)
    ensures
        match e {
            PredictorError::InvalidDistribution { index, sum } => {
                &&& e@ == PredictorErrorView::InvalidDistribution { index, sum: sum@ }
                &&& e@.text() == "invalid probability distribution: index "@ + decimal(index as nat)
                    + ", sum "@ + sum@
            },
            PredictorError::ModelLoadFailed { path, message } => {
                &&& e@ == PredictorErrorView::ModelLoadFailed { path: path@, message: message@ }
                &&& e@.text() == "failed to load model from "@ + path@ + ": "@ + message@
            },
            PredictorError::ForwardPassFailed { message } => {
                &&& e@ == PredictorErrorView::ForwardPassFailed { message: message@ }
                &&& e@.text() == "forward pass failed: "@ + message@
            },
        },
{
}

// ---- Integrity errors ------------------------------------------------------

/// A checksum, shown as 64 lowercase hexadecimal digits.
#[derive(Debug, Clone, Copy, PartialEq, Eq)]
pub struct Hex32(pub [u8; 32]);

impl View for Hex32 {
    type V = Seq<u8>;

    open spec fn view(&self) -> Seq<u8> {
        self.0@
    }
}

impl Hex32 {
    /// The checksum in hexadecimal.
    pub fn to_string(&self) -> (s: String)
        ensures
            s@ == hex_bytes(self@),
            s@.len() == 64,
    {
        let mut s = String::new();
        push_hex_bytes(&mut s, self.0.as_slice());
        assert(s@ =~= hex_bytes(self@));
        s
    }
}

/// Integrity and round-trip failures.
#[derive(Debug)]
pub enum IntegrityError {
    /// The checksum of the data is not the expected one.
    ChecksumMismatch { expected: Hex32, actual: Hex32 },
    /// A byte-for-byte comparison failed at an offset.
    RoundTripMismatch { offset: u64, expected_byte: u8, actual_byte: u8 },
}

/// The view of an [`IntegrityError`].
pub enum IntegrityErrorView {
    ChecksumMismatch { expected: Seq<u8>, actual: Seq<u8> },
    RoundTripMismatch { offset: u64, expected_byte: u8, actual_byte: u8 },
}

impl View for IntegrityError {
    type V = IntegrityErrorView;

    open spec fn view(&self) -> IntegrityErrorView {
        match *self {
            IntegrityError::ChecksumMismatch { expected, actual } => {
                IntegrityErrorView::ChecksumMismatch { expected: expected@, actual: actual@ }
            },
            IntegrityError::RoundTripMismatch { offset, expected_byte, actual_byte } => {
                IntegrityErrorView::RoundTripMismatch { offset, expected_byte, actual_byte }
            },
        }
    }
}

impl IntegrityErrorView {
    /// The text of the error.
    pub open spec fn text(self) -> Seq<char> {
        match self {
            IntegrityErrorView::ChecksumMismatch { expected, actual } => {
                "checksum mismatch: expected "@ + hex_bytes(expected) + ", actual "@ + hex_bytes(
                    actual,
                )
            },
            IntegrityErrorView::RoundTripMismatch { offset, expected_byte, actual_byte } => {
                "round-trip mismatch at byte offset "@ + decimal(offset as nat) + ": expected 0x"@
                    + hex_byte(expected_byte) + ", got 0x"@ + hex_byte(actual_byte)
            },
        }
    }
}

impl IntegrityError {
    /// The text of the error.
    pub fn to_string(&self) -> (s: String)
        ensures
            s@ == self@.text(),
    {
        match self {
            IntegrityError::ChecksumMismatch { expected, actual } => {
                let mut s = String::from_str("checksum mismatch: expected ");
                push_hex_bytes(&mut s, expected.0.as_slice());
                s.append(", actual ");
                push_hex_bytes(&mut s, actual.0.as_slice());
                s
            },
            IntegrityError::RoundTripMismatch { offset, expected_byte, actual_byte } => {
                let mut s = String::from_str("round-trip mismatch at byte offset ");
                push_decimal(&mut s, *offset);
                s.append(": expected 0x");
                push_hex_byte(&mut s, *expected_byte);
                s.append(", got 0x");
                push_hex_byte(&mut s, *actual_byte);
                s
            },
        }
    }
}

/// An integrity error is seen, and told in words, by all that it holds.
pub proof fn law_integrity_error_tells_all(e: IntegrityError)
    ensures
        match e {
            IntegrityError::ChecksumMismatch { expected, actual } => {
                &&& e@ == (IntegrityErrorView::ChecksumMismatch {
                    expected: expected.0@,
                    actual: actual.0@,
                })
                &&& e@.text() == "checksum mismatch: expected "@ + hex_bytes(expected.0@)
                    + ", actual "@ + hex_bytes(actual.0@)
            },
            IntegrityError::RoundTripMismatch { offset, expected_byte, actual_byte } => {
                &&& e@ == (IntegrityErrorView::RoundTripMismatch {
                    offset,
                    expected_byte,
                    actual_byte,
                })
                &&& e@.text() == "round-trip mismatch at byte offset "@ + decimal(offset as nat)
                    + ": expected 0x"@ + hex_byte(expected_byte) + ", got 0x"@ + hex_byte(
                    actual_byte,
                )
            },
        },
{
}

// ---- Format errors ---------------------------------------------------------

/// Magic bytes, shown as ASCII and hexadecimal, such as `HTK. (48 54 4b 01)`.
#[derive(Debug, Clone, Copy, PartialEq, Eq)]
pub struct MagicBytes(pub [u8; 4]);

impl View for MagicBytes {
    type V = Seq<u8>;

    open spec fn view(&self) -> Seq<u8> {
        self.0@
    }
}

/// A printable ASCII byte as its character, any other byte as a dot.
pub open spec fn ascii_or_dot(b: u8) -> char {
    if 0x21 <= b <= 0x7e {
        b as char
    } else {
        '.'
    }
}

/// The text of four magic bytes.
pub open spec fn magic_text(magic: Seq<u8>) -> Seq<char> {
    magic.map_values(|b: u8| ascii_or_dot(b)) + " ("@ + hex_byte(magic[0]) + " "@ + hex_byte(
        magic[1],
    ) + " "@ + hex_byte(magic[2]) + " "@ + hex_byte(magic[3]) + ")"@
}

fn ascii_char(b: u8) -> (c: char)
    ensures
        c == ascii_or_dot(b),
{
    if 0x21 <= b && b <= 0x7e {
        b as char
    } else {
        '.'
    }
}

impl MagicBytes {
    /// The magic bytes as ASCII and hexadecimal.
    pub fn to_string(&self) -> (s: String)
        ensures
            s@ == magic_text(self@),
    {
        let mut s = String::new();
        s.push(ascii_char(self.0[0]));
        s.push(ascii_char(self.0[1]));
        s.push(ascii_char(self.0[2]));
        s.push(ascii_char(self.0[3]));
        assert(s@ =~= self@.map_values(|b: u8| ascii_or_dot(b)));
        s.append(" (");
        push_hex_byte(&mut s, self.0[0]);
        s.append(" ");
        push_hex_byte(&mut s, self.0[1]);
        s.append(" ");
        push_hex_byte(&mut s, self.0[2]);
        s.append(" ");
        push_hex_byte(&mut s, self.0[3]);
        s.append(")");
        s
    }
}

/// Bitstream and header format errors.
#[derive(Debug)]
pub enum FormatError {
    /// The magic bytes at the start of the bitstream are not the expected ones.
    InvalidMagic { found: MagicBytes },
    /// The version of the bitstream is not supported.
    UnsupportedVersion { version: u32 },
    /// The input ended before all required fields could be read.
    TruncatedHeader,
    /// The compressed bitstream is corrupt at a known byte offset.
    CorruptBitstream { offset: u64 },
}

/// The view of a [`FormatError`].
pub enum FormatErrorView {
    InvalidMagic { found: Seq<u8> },
    UnsupportedVersion { version: u32 },
    TruncatedHeader,
    CorruptBitstream { offset: u64 },
}

impl View for FormatError {
    type V = FormatErrorView;

    open spec fn view(&self) -> FormatErrorView {
        match *self {
            FormatError::InvalidMagic { found } => FormatErrorView::InvalidMagic { found: found@ },
            FormatError::UnsupportedVersion { version } => FormatErrorView::UnsupportedVersion {
                version,
            },
            FormatError::TruncatedHeader => FormatErrorView::TruncatedHeader,
            FormatError::CorruptBitstream { offset } => FormatErrorView::CorruptBitstream {
                offset,
            },
        }
    }
}

impl FormatErrorView {
    /// The text of the error.
    pub open spec fn text(self) -> Seq<char> {
        match self {
            FormatErrorView::InvalidMagic { found } => "invalid magic bytes: "@ + magic_text(found),
            FormatErrorView::UnsupportedVersion { version } => "unsupported format version "@
                + decimal(version as nat),
            FormatErrorView::TruncatedHeader =>
                "truncated header: not enough bytes to parse all header fields"@,
            FormatErrorView::CorruptBitstream { offset } => "corrupt bitstream at byte offset "@
                + decimal(offset as nat),
        }
    }
}

impl FormatError {
    /// The text of the error.
    pub fn to_string(&self) -> (s: String)
        ensures
            s@ == self@.text(),
    {
        match self {
            FormatError::InvalidMagic { found } => {
                let mut s = String::from_str("invalid magic bytes: ");
                let magic = found.to_string();
                s.append(magic.as_str());
                s
            },
            FormatError::UnsupportedVersion { version } => {
                let mut s = String::from_str("unsupported format version ");
                push_decimal(&mut s, *version as u64);
                s
            },
            FormatError::TruncatedHeader => {
                String::from_str("truncated header: not enough bytes to parse all header fields")
            },
            FormatError::CorruptBitstream { offset } => {
                let mut s = String::from_str("corrupt bitstream at byte offset ");
                push_decimal(&mut s, *offset);
                s
            },
        }
    }
}

/// The text of four magic bytes shows each byte twice: first as its
/// character, where that is printable and no blank, and as a dot elsewhere;
/// then, in brackets and set off by blanks, in hexadecimal.
pub proof fn law_magic_text_shows_each_byte(magic: Seq<u8>, i: int)
    requires
        magic.len() == 4,
        0 <= i < 4,
    ensures
        magic_text(magic).len() == 18,
        0x21 <= magic[i] <= 0x7e ==> magic_text(magic)[i] as int == magic[i] as int,
        !(0x21 <= magic[i] <= 0x7e) ==> magic_text(magic)[i] == '.',
        magic_text(magic)[4] == ' ',
        magic_text(magic)[5] == '(',
        magic_text(magic).subrange(6 + 3 * i, 8 + 3 * i) == hex_byte(magic[i]),
        magic_text(magic)[8 + 3 * i] == (if i < 3 {
            ' '
        } else {
            ')'
        }),
{
    reveal_strlit(" (");
    reveal_strlit(" ");
    reveal_strlit(")");
    assert(magic_text(magic).subrange(6 + 3 * i, 8 + 3 * i) =~= hex_byte(magic[i]));
}

/// A format error is seen, and told in words, by all that it holds.
pub proof fn law_format_error_tells_all(e: FormatError)
    ensures
        match e {
            FormatError::InvalidMagic { found } => {
                &&& e@ == FormatErrorView::InvalidMagic { found: found.0@ }
                &&& e@.text() == "invalid magic bytes: "@ + magic_text(found.0@)
            },
            FormatError::UnsupportedVersion { version } => {
                &&& e@ == FormatErrorView::UnsupportedVersion { version }
                &&& e@.text() == "unsupported format version "@ + decimal(version as nat)
            },
            FormatError::TruncatedHeader => {
                &&& e@ == FormatErrorView::TruncatedHeader
                &&& e@.text() == "truncated header: not enough bytes to parse all header fields"@
            },
            FormatError::CorruptBitstream { offset } => {
                &&& e@ == FormatErrorView::CorruptBitstream { offset }
                &&& e@.text() == "corrupt bitstream at byte offset "@ + decimal(offset as nat)
            },
        },
{
}

// ---- The top-level error ---------------------------------------------------

/// Any error of the compression engine.
#[derive(Debug)]
pub enum HeretikError {
    /// Errors originating in the entropy coder.
    Coder(CoderError),
    /// Errors originating in the predictor.
    Predictor(PredictorError),
    /// Integrity and round-trip failures.
    Integrity(IntegrityError),
    /// Bitstream and header format errors.
    Format(FormatError),
}

/// The view of a [`HeretikError`].
pub enum HeretikErrorView {
    Coder(CoderErrorView),
    Predictor(PredictorErrorView),
    Integrity(IntegrityErrorView),
    Format(FormatErrorView),
}

impl View for HeretikError {
    type V = HeretikErrorView;

    open spec fn view(&self) -> HeretikErrorView {
        match *self {
            HeretikError::Coder(e) => HeretikErrorView::Coder(e@),
            HeretikError::Predictor(e) => HeretikErrorView::Predictor(e@),
            HeretikError::Integrity(e) => HeretikErrorView::Integrity(e@),
            HeretikError::Format(e) => HeretikErrorView::Format(e@),
        }
    }
}

impl HeretikErrorView {
    /// The text of the error that it holds.
    pub open spec fn text(self) -> Seq<char> {
        match self {
            HeretikErrorView::Coder(e) => e.text(),
            HeretikErrorView::Predictor(e) => e.text(),
            HeretikErrorView::Integrity(e) => e.text(),
            HeretikErrorView::Format(e) => e.text(),
        }
    }
}

impl HeretikError {
    /// The text of the error that it holds.
    pub fn to_string(&self) -> (s: String)
        ensures
            s@ == self@.text(),
    {
        match self {
            HeretikError::Coder(e) => e.to_string(),
            HeretikError::Predictor(e) => e.to_string(),
            HeretikError::Integrity(e) => e.to_string(),
            HeretikError::Format(e) => e.to_string(),
        }
    }
}

impl From<CoderError> for HeretikError {
    fn from(e: CoderError) -> (r: HeretikError) {
        HeretikError::Coder(e)
    }
}

impl vstd::std_specs::convert::FromSpecImpl<CoderError> for HeretikError {
    open spec fn obeys_from_spec() -> bool {
        true
    }

    open spec fn from_spec(e: CoderError) -> HeretikError {
        HeretikError::Coder(e)
    }
}

impl From<PredictorError> for HeretikError {
    fn from(e: PredictorError) -> (r: HeretikError) {
        HeretikError::Predictor(e)
    }
}

impl vstd::std_specs::convert::FromSpecImpl<PredictorError> for HeretikError {
    open spec fn obeys_from_spec() -> bool {
        true
    }

    open spec fn from_spec(e: PredictorError) -> HeretikError {
        HeretikError::Predictor(e)
    }
}

impl From<IntegrityError> for HeretikError {
    fn from(e: IntegrityError) -> (r: HeretikError) {
        HeretikError::Integrity(e)
    }
}

impl vstd::std_specs::convert::FromSpecImpl<IntegrityError> for HeretikError {
    open spec fn obeys_from_spec() -> bool {
        true
    }

    open spec fn from_spec(e: IntegrityError) -> HeretikError {
        HeretikError::Integrity(e)
    }
}

impl From<FormatError> for HeretikError {
    fn from(e: FormatError) -> (r: HeretikError) {
        HeretikError::Format(e)
    }
}

impl vstd::std_specs::convert::FromSpecImpl<FormatError> for HeretikError {
    open spec fn obeys_from_spec() -> bool {
        true
    }

    open spec fn from_spec(e: FormatError) -> HeretikError {
        HeretikError::Format(e)
    }
}

/// A top-level error is the error that it holds: in its view, in its text, and
/// when it is made from one.
pub proof fn law_top_level_error_is_its_cause(
    coder: CoderError,
    predictor: PredictorError,
    integrity: IntegrityError,
    format: FormatError,
)
    ensures
        HeretikError::Coder(coder)@ == HeretikErrorView::Coder(coder@),
        HeretikError::Predictor(predictor)@ == HeretikErrorView::Predictor(predictor@),
        HeretikError::Integrity(integrity)@ == HeretikErrorView::Integrity(integrity@),
        HeretikError::Format(format)@ == HeretikErrorView::Format(format@),
        HeretikErrorView::Coder(coder@).text() == coder@.text(),
        HeretikErrorView::Predictor(predictor@).text() == predictor@.text(),
        HeretikErrorView::Integrity(integrity@).text() == integrity@.text(),
        HeretikErrorView::Format(format@).text() == format@.text(),
        HeretikError::from_spec(coder) == HeretikError::Coder(coder),
        HeretikError::from_spec(predictor) == HeretikError::Predictor(predictor),
        HeretikError::from_spec(integrity) == HeretikError::Integrity(integrity),
        HeretikError::from_spec(format) == HeretikError::Format(format),
{
}

} // verus!
