use heretek::engine::{
    be_bytes_to_words, compress_to_bytes, decompress_from_bytes, frame_words, unframe_words,
    words_to_be_bytes, Compressor, Decompressor,
};
use heretek::error::{
    CoderError, FormatError, Hex32, HeretikError, IntegrityError, MagicBytes, PredictorError,
};
use heretek::format::{Header, MAGIC};
use heretek::predictor::{Predictor, StubPredictor};
use sha2::{Digest, Sha256};

fn predictor() -> StubPredictor {
    StubPredictor
}

/// Round-trip helper: compress then decompress and assert equality.
fn round_trip(data: &[u8]) {
    let comp = Compressor::new(predictor());
    let decomp = Decompressor::new(predictor());
    let compressed = comp.compress(data).expect("compress");
    let recovered = decomp.decompress(&compressed).expect("decompress");
    assert_eq!(
        recovered,
        data,
        "round-trip mismatch: got {} bytes, expected {}",
        recovered.len(),
        data.len()
    );
}

#[test]
fn empty_input() {
    round_trip(&[]);
}

#[test]
fn single_byte() {
    round_trip(&[42]);
    round_trip(&[0]);
    round_trip(&[255]);
}

#[test]
fn repeated_byte() {
    round_trip(&[0xAA; 100]);
    round_trip(&[0x00; 256]);
    round_trip(&[0xFF; 512]);
}

#[test]
fn all_256_byte_values() {
    let all: Vec<u8> = (0..=255).collect();
    round_trip(&all);
}

#[test]
fn small_text() {
    round_trip(b"Hello, world! This is a test of the heretik compression engine.");
}

#[test]
fn checksum_detects_corruption() {
    let comp = Compressor::new(predictor());
    let data = b"this data must survive tamper detection";
    let mut compressed = comp.compress(data).unwrap();

    // Flip a byte in the compressed payload (not the header).
    compressed[65] ^= 0x01;

    let decomp = Decompressor::new(predictor());
    let result = decomp.decompress(&compressed);
    assert!(
        matches!(
            result,
            Err(HeretikError::Integrity(IntegrityError::ChecksumMismatch { .. }))
        ),
        "expected ChecksumMismatch, got {:?}",
        result
    );
}

#[test]
fn header_validates_magic() {
    // Random bytes should not parse as valid compressed data.
    let random: Vec<u8> = (0..256u32).map(|i| (i.wrapping_mul(13) ^ 17) as u8).collect();
    let decomp = Decompressor::new(predictor());
    let result = decomp.decompress(&random);
    assert!(result.is_err(), "random bytes should not parse");
}

#[test]
fn truncated_header_fails() {
    let decomp = Decompressor::new(predictor());
    let result = decomp.decompress(&[0u8; 10]);
    assert!(matches!(result, Err(HeretikError::Format(FormatError::TruncatedHeader))));
}

#[test]
fn free_function_round_trip() {
    let data = b"free function convenience wrappers";
    let compressed = compress_to_bytes(data, &predictor()).unwrap();
    let recovered = decompress_from_bytes(&compressed, &predictor()).unwrap();
    assert_eq!(recovered.as_slice(), data);
}

#[test]
fn compressed_output_has_correct_structure() {
    let data = b"structure check";
    let comp = Compressor::new(predictor());
    let compressed = comp.compress(data).unwrap();

    // Must start with magic bytes.
    assert_eq!(&compressed[..4], &MAGIC);

    // Total size should be 60 (header) + N*4 (one u32 per ANS word).
    let payload_len = compressed.len() - 60;
    assert_eq!(payload_len % 4, 0, "payload should be u32-aligned");
    assert!(payload_len > 0, "should produce at least some compressed output");
}

#[test]
fn decompress_empty_compressed_fails() {
    let decomp = Decompressor::new(predictor());
    let result = decomp.decompress(&[]);
    assert!(result.is_err());
}

/// Pseudo-random bytes.
fn noise(seed: u32, len: usize) -> Vec<u8> {
    let mut state = seed;
    (0..len)
        .map(|_| {
            state = state.wrapping_mul(1664525).wrapping_add(1013904223);
            (state >> 24) as u8
        })
        .collect()
}

#[test]
fn round_trip_many_lengths() {
    for len in 0..200 {
        round_trip(&noise(len as u32, len));
    }
    round_trip(&noise(99, 10_239));
}

#[test]
fn changed_checksum_is_detected() {
    for len in [4usize, 5, 100, 1023] {
        let data = noise(7, len);
        let mut compressed = compress_to_bytes(&data, &predictor()).unwrap();
        // The first byte of the checksum in the header.
        compressed[12] ^= 0x01;
        let mut expected: [u8; 32] = Sha256::digest(&data).into();
        let actual = expected;
        expected[0] ^= 0x01;
        match decompress_from_bytes(&compressed, &predictor()) {
            Err(HeretikError::Integrity(IntegrityError::ChecksumMismatch {
                expected: Hex32(e),
                actual: Hex32(a),
            })) => {
                assert_eq!(e, expected);
                assert_eq!(a, actual);
            }
            other => panic!("expected ChecksumMismatch, got {:?}", other),
        }
    }
}

#[test]
fn foreign_bytes_are_refused_without_panicking() {
    for len in 0..300 {
        let bytes = noise(len as u32 + 1000, len);
        let result = decompress_from_bytes(&bytes, &predictor());
        if len < 60 {
            assert!(matches!(result, Err(HeretikError::Format(FormatError::TruncatedHeader))));
        } else {
            match result {
                Err(HeretikError::Format(FormatError::InvalidMagic { found: MagicBytes(found) })) => {
                    assert_eq!(found[..], bytes[..4])
                }
                other => panic!("expected InvalidMagic, got {:?}", other),
            }
        }
    }
}

#[test]
fn header_of_the_output() {
    let data = b"some input";
    let compressed = compress_to_bytes(data, &predictor()).unwrap();
    let header = Header::read(&mut &compressed[..]).unwrap();
    let checksum: [u8; 32] = Sha256::digest(data).into();
    assert_eq!(header, Header::new(0, 0, checksum, 10, compressed.len() as u64 - 60));
}

#[test]
fn empty_input_is_only_a_header() {
    let compressed = compress_to_bytes(&[], &predictor()).unwrap();
    assert_eq!(compressed.len(), 60);
    let checksum: [u8; 32] = Sha256::digest([]).into();
    assert_eq!(compressed, frame_words(0, checksum, &[]));
}

#[test]
fn output_for_one_byte() {
    // The only word is the cumulative probability of the byte.
    let compressed = compress_to_bytes(&[42], &predictor()).unwrap();
    assert_eq!(&compressed[60..], &[0, 42, 0, 0]);
    // A zero leaves the coder empty.
    assert_eq!(compress_to_bytes(&[0, 0], &predictor()).unwrap().len(), 60);
}

#[test]
fn words_and_bytes_round_trip() {
    let words = [1u32, 0xDEAD_BEEF, 0, u32::MAX];
    let bytes = words_to_be_bytes(&words);
    assert_eq!(bytes, [0, 0, 0, 1, 0xDE, 0xAD, 0xBE, 0xEF, 0, 0, 0, 0, 255, 255, 255, 255]);
    assert_eq!(be_bytes_to_words(&bytes), words);
    assert_eq!(words_to_be_bytes(&be_bytes_to_words(&[9, 8, 7, 6])), [9, 8, 7, 6]);
    assert_eq!(be_bytes_to_words(&[]), Vec::<u32>::new());
}

#[test]
fn frame_can_be_taken_apart() {
    let mut bytes = frame_words(77, [3u8; 32], &[5, 6]);
    assert_eq!(bytes.len(), 68);
    bytes.extend([1, 2, 3]);
    match unframe_words(&bytes) {
        Ok((header, words)) => {
            assert_eq!(header, Header::new(0, 0, [3u8; 32], 77, 8));
            assert_eq!(words, [5, 6]);
        }
        Err(e) => panic!("{:?}", e),
    }
}

#[test]
fn cut_frames_are_truncated() {
    let compressed = compress_to_bytes(b"cut me", &predictor()).unwrap();
    for len in 0..compressed.len() {
        assert!(matches!(
            decompress_from_bytes(&compressed[..len], &predictor()),
            Err(HeretikError::Format(FormatError::TruncatedHeader))
        ));
    }
}

#[test]
fn trailing_bytes_do_not_matter() {
    let data = b"payload";
    let mut compressed = compress_to_bytes(data, &predictor()).unwrap();
    compressed.extend(noise(3, 17));
    assert_eq!(decompress_from_bytes(&compressed, &predictor()).unwrap(), data);
}

#[test]
fn payload_that_ends_within_a_word_is_corrupt() {
    let mut bytes = Vec::new();
    Header::new(0, 0, [0u8; 32], 1, 7).write(&mut bytes);
    bytes.extend([0u8; 7]);
    assert!(matches!(
        decompress_from_bytes(&bytes, &predictor()),
        Err(HeretikError::Format(FormatError::CorruptBitstream { offset: 64 }))
    ));
}

#[test]
fn unsupported_version_is_refused() {
    let mut compressed = compress_to_bytes(b"x", &predictor()).unwrap();
    compressed[5] = 2;
    assert!(matches!(
        decompress_from_bytes(&compressed, &predictor()),
        Err(HeretikError::Format(FormatError::UnsupportedVersion { version: 2 }))
    ));
}

#[test]
fn words_without_a_bitstream_are_refused() {
    let bytes = frame_words(1, [0u8; 32], &[4, 0]);
    match decompress_from_bytes(&bytes, &predictor()) {
        Err(HeretikError::Coder(CoderError::DecodeFailed { message })) => {
            assert_eq!(message, "ANS init failed: [4]")
        }
        other => panic!("expected DecodeFailed, got {:?}", other),
    }
}

/// Gives a table that depends on the context: it favours the byte after the
/// last one.
struct Changing;

fn table_with(favourite: usize) -> [u32; 256] {
    let mut table = [1u32; 256];
    table[favourite] = (1 << 24) - 255;
    table
}

impl Predictor for Changing {
    fn predict(&self, context: &[u8]) -> Result<Vec<[u32; 256]>, PredictorError> {
        (0..context.len()).map(|i| self.predict_single(&context[..i])).collect()
    }

    fn predict_single(&self, context: &[u8]) -> Result<[u32; 256], PredictorError> {
        Ok(table_with(context.last().map_or(65, |&b| b as usize + 1) % 256))
    }
}

#[test]
fn context_dependent_predictor_round_trips() {
    for data in [&b""[..], b"A", b"AB", b"ABCDEFG", b"BA", b"zzz\xff\x00\x01"] {
        let compressed = compress_to_bytes(data, &Changing).unwrap();
        assert_eq!(decompress_from_bytes(&compressed, &Changing).unwrap(), data);
        let comp = Compressor::new(Changing);
        assert_eq!(comp.compress(data).unwrap(), compressed);
        assert_eq!(Decompressor::new(Changing).decompress(&compressed).unwrap(), data);
    }
    for len in 0..100 {
        let data = noise(len as u32 + 5, len);
        let compressed = compress_to_bytes(&data, &Changing).unwrap();
        assert_eq!(decompress_from_bytes(&compressed, &Changing).unwrap(), data);
    }
}

#[test]
fn good_predictions_compress() {
    let data: Vec<u8> = (0..1000u32).map(|i| (i + 65) as u8).collect();
    let predicted = compress_to_bytes(&data, &Changing).unwrap();
    let unpredicted = compress_to_bytes(&data, &predictor()).unwrap();
    assert_eq!(decompress_from_bytes(&predicted, &Changing).unwrap(), data);
    assert!(predicted.len() < 80, "{} bytes", predicted.len());
    assert!(unpredicted.len() > 1000);
}

#[test]
fn wrong_predictor_is_detected() {
    let compressed = compress_to_bytes(b"data for the stub", &predictor()).unwrap();
    assert!(matches!(
        decompress_from_bytes(&compressed, &Changing),
        Err(HeretikError::Integrity(IntegrityError::ChecksumMismatch { .. }))
    ));
}

/// Fails after one byte.
struct Failing;

impl Predictor for Failing {
    fn predict(&self, context: &[u8]) -> Result<Vec<[u32; 256]>, PredictorError> {
        (0..context.len()).map(|i| self.predict_single(&context[..i])).collect()
    }

    fn predict_single(&self, context: &[u8]) -> Result<[u32; 256], PredictorError> {
        if context.is_empty() {
            Ok([65536u32; 256])
        } else {
            Err(PredictorError::ForwardPassFailed { message: String::from("broken") })
        }
    }
}

#[test]
fn predictor_errors_are_passed_on() {
    let compressed = compress_to_bytes(b"a", &Failing).unwrap();
    assert_eq!(decompress_from_bytes(&compressed, &Failing).unwrap(), b"a");
    let longer = compress_to_bytes(b"ab", &predictor()).unwrap();
    for result in [compress_to_bytes(b"ab", &Failing), decompress_from_bytes(&longer, &Failing)] {
        match result {
            Err(HeretikError::Predictor(PredictorError::ForwardPassFailed { message })) => {
                assert_eq!(message, "broken")
            }
            other => panic!("expected ForwardPassFailed, got {:?}", other),
        }
    }
}

/// Gives a table that is none.
struct Invalid;

impl Predictor for Invalid {
    fn predict(&self, context: &[u8]) -> Result<Vec<[u32; 256]>, PredictorError> {
        Ok(vec![[0u32; 256]; context.len()])
    }

    fn predict_single(&self, _context: &[u8]) -> Result<[u32; 256], PredictorError> {
        Ok([0u32; 256])
    }
}

#[test]
fn invalid_tables_are_refused() {
    let frame = compress_to_bytes(b"a", &predictor()).unwrap();
    match compress_to_bytes(b"a", &Invalid) {
        Err(HeretikError::Coder(CoderError::EncodeFailed { message })) => {
            assert_eq!(message, "model build failed: ()")
        }
        other => panic!("expected EncodeFailed, got {:?}", other),
    }
    match decompress_from_bytes(&frame, &Invalid) {
        Err(HeretikError::Coder(CoderError::DecodeFailed { message })) => {
            assert_eq!(message, "model build failed: ()")
        }
        other => panic!("expected DecodeFailed, got {:?}", other),
    }
}

#[test]
fn predictors_work_as_trait_objects() {
    let boxed: Box<dyn Predictor> = Box::new(StubPredictor);
    let compressed = compress_to_bytes(b"dynamic", boxed.as_ref()).unwrap();
    assert_eq!(decompress_from_bytes(&compressed, boxed.as_ref()).unwrap(), b"dynamic");
}
