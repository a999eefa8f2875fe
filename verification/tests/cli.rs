use heretek::cli::{
    check_model_config, check_model_files, load_failed, map_error_to_exit_code, Cause, LoadStep,
};
use heretek::engine::{compress_to_bytes, decompress_from_bytes};
use heretek::error::{
    CoderError, FormatError, Hex32, HeretikError, IntegrityError, MagicBytes, PredictorError,
};
use heretek::predictor::StubPredictor;

fn stub() -> StubPredictor {
    StubPredictor
}

/// The chain of causes of an error of the library.
fn wrap_err(e: &HeretikError) -> Vec<Cause<'_>> {
    vec![Cause::Heretik(e)]
}

#[test]
fn round_trip_empty() {
    let data = &[];
    let compressed = compress_to_bytes(data, &stub()).expect("compress empty");
    let recovered = decompress_from_bytes(&compressed, &stub()).expect("decompress empty");
    assert_eq!(recovered, data);
}

#[test]
fn round_trip_single_byte() {
    for byte in [0u8, 42, 128, 255] {
        let data = &[byte];
        let compressed = compress_to_bytes(data, &stub()).expect("compress single");
        let recovered = decompress_from_bytes(&compressed, &stub()).expect("decompress single");
        assert_eq!(recovered, data, "mismatch for byte {byte}");
    }
}

#[test]
fn round_trip_1kb_text() {
    // 1 KB of printable ASCII (deterministic repeating pattern).
    let data: Vec<u8> = (0..1024).map(|i| (i % 95 + 32) as u8).collect();
    let compressed = compress_to_bytes(&data, &stub()).expect("compress 1KB");
    let recovered = decompress_from_bytes(&compressed, &stub()).expect("decompress 1KB");
    assert_eq!(recovered, data);
}

#[test]
fn round_trip_64kb_random() {
    // 64 KB of pseudo-random bytes (deterministic for reproducibility).
    let mut data = vec![0u8; 65536];
    for (i, b) in data.iter_mut().enumerate() {
        *b = (i.wrapping_mul(17).wrapping_add(13) ^ (i >> 3)) as u8;
    }
    let compressed = compress_to_bytes(&data, &stub()).expect("compress 64KB");
    let recovered = decompress_from_bytes(&compressed, &stub()).expect("decompress 64KB");
    assert_eq!(recovered, data);
}

#[test]
fn exit_code_format_truncated_header_maps_to_2() {
    let error: HeretikError = FormatError::TruncatedHeader.into();
    let e = wrap_err(&error);
    assert_eq!(map_error_to_exit_code(&e), 2);
}

#[test]
fn exit_code_format_invalid_magic_maps_to_2() {
    let error: HeretikError =
        FormatError::InvalidMagic { found: MagicBytes([0x00, 0x00, 0x00, 0x00]) }.into();
    let e = wrap_err(&error);
    assert_eq!(map_error_to_exit_code(&e), 2);
}

#[test]
fn exit_code_format_unsupported_version_maps_to_2() {
    let error: HeretikError = FormatError::UnsupportedVersion { version: 99 }.into();
    let e = wrap_err(&error);
    assert_eq!(map_error_to_exit_code(&e), 2);
}

#[test]
fn exit_code_model_load_failed_maps_to_3() {
    let error: HeretikError =
        PredictorError::ModelLoadFailed {
            path: "test_model.bin".into(),
            message: "file not found".into(),
        }
        .into();
    let e = wrap_err(&error);
    assert_eq!(map_error_to_exit_code(&e), 3);
}

#[test]
fn exit_code_checksum_mismatch_maps_to_2() {
    let error: HeretikError =
        IntegrityError::ChecksumMismatch {
            expected: Hex32([0xAA; 32]),
            actual: Hex32([0xBB; 32]),
        }
        .into();
    let e = wrap_err(&error);
    assert_eq!(map_error_to_exit_code(&e), 2);
}

#[test]
fn exit_code_coder_stack_underflow_maps_to_2() {
    let error: HeretikError = CoderError::StackUnderflow { at_byte: 0 }.into();
    let e = wrap_err(&error);
    assert_eq!(map_error_to_exit_code(&e), 2);
}

#[test]
fn exit_code_plain_io_error_maps_to_1() {
    let e = std::io::Error::new(std::io::ErrorKind::NotFound, "no such file or directory");
    let chain = vec![Cause::Other(e.to_string())];
    assert_eq!(
        map_error_to_exit_code(&chain),
        1,
        "bare I/O error must default to exit code 1"
    );
}

#[test]
fn corrupted_compressed_data_exit_code_2() {
    let data = b"data that will be corrupted in transit";
    let mut compressed = compress_to_bytes(data, &stub()).expect("compress");

    // Bit-flip deep in the payload (byte 65 - past the 60-byte header).
    if compressed.len() > 65 {
        compressed[65] ^= 0x01;
    } else {
        let last = compressed.len() - 1;
        compressed[last] ^= 0x01;
    }

    let result = decompress_from_bytes(&compressed, &stub());
    assert!(result.is_err(), "corrupted data must fail decompression");

    let error = result.unwrap_err();
    let exit_code = map_error_to_exit_code(&wrap_err(&error));
    assert_eq!(exit_code, 2, "checksum mismatch from corruption must map to exit code 2");
}

#[test]
fn exit_code_matrix_complete() {
    let cases: Vec<(&str, HeretikError, i32)> = vec![
        ("FormatError::TruncatedHeader", FormatError::TruncatedHeader.into(), 2),
        (
            "FormatError::InvalidMagic",
            FormatError::InvalidMagic { found: MagicBytes([0xDE, 0xAD, 0xBE, 0xEF]) }.into(),
            2,
        ),
        (
            "FormatError::UnsupportedVersion",
            FormatError::UnsupportedVersion { version: 99 }.into(),
            2,
        ),
        (
            "FormatError::CorruptBitstream",
            FormatError::CorruptBitstream { offset: 2048 }.into(),
            2,
        ),
        (
            "PredictorError::ModelLoadFailed",
            PredictorError::ModelLoadFailed { path: "m".into(), message: "e".into() }.into(),
            3,
        ),
        (
            "PredictorError::InvalidDistribution",
            PredictorError::InvalidDistribution { index: 0, sum: 0.5f64.to_string() }.into(),
            3,
        ),
        (
            "PredictorError::ForwardPassFailed",
            PredictorError::ForwardPassFailed { message: "NaN".into() }.into(),
            3,
        ),
        (
            "IntegrityError::ChecksumMismatch",
            IntegrityError::ChecksumMismatch {
                expected: Hex32([0x00; 32]),
                actual: Hex32([0xFF; 32]),
            }
            .into(),
            2,
        ),
        (
            "IntegrityError::RoundTripMismatch",
            IntegrityError::RoundTripMismatch { offset: 0, expected_byte: 0xAB, actual_byte: 0xCD }
                .into(),
            2,
        ),
        ("CoderError::StackUnderflow", CoderError::StackUnderflow { at_byte: 42 }.into(), 2),
        (
            "CoderError::EncodeFailed",
            CoderError::EncodeFailed { message: "test".into() }.into(),
            2,
        ),
        (
            "CoderError::DecodeFailed",
            CoderError::DecodeFailed { message: "test".into() }.into(),
            2,
        ),
    ];

    for (name, error, expected_code) in cases {
        let e = wrap_err(&error);
        let code = map_error_to_exit_code(&e);
        assert_eq!(
            code, expected_code,
            "{name}: expected exit code {expected_code}, got {code}"
        );
    }
}

#[test]
fn exit_code_is_that_of_the_first_library_error() {
    assert_eq!(map_error_to_exit_code(&[]), 1);
    let first: HeretikError = PredictorError::ForwardPassFailed { message: "NaN".into() }.into();
    let second: HeretikError = FormatError::TruncatedHeader.into();
    let chain = vec![
        Cause::Other(String::from("while reading")),
        Cause::Heretik(&first),
        Cause::Heretik(&second),
    ];
    assert_eq!(map_error_to_exit_code(&chain), 3);
    assert_eq!(map_error_to_exit_code(&chain[1..]), 3);
    assert_eq!(map_error_to_exit_code(&chain[2..]), 2);
    assert_eq!(map_error_to_exit_code(&chain[..1]), 1);
}

#[test]
fn missing_model_files_are_named() {
    assert_eq!(check_model_files("m", true, "c", true), Ok(()));
    assert_eq!(check_model_files("m", false, "c", true), Err(String::from("m not found")));
    assert_eq!(check_model_files("m", false, "c", false), Err(String::from("m not found")));
    assert_eq!(check_model_files("m", true, "c", false), Err(String::from("c not found")));
    assert_eq!(check_model_config("c", true), Ok(()));
    assert_eq!(
        check_model_config("c", false),
        Err(String::from("model config not found at c"))
    );
}

#[test]
fn failed_load_steps_name_themselves() {
    assert_eq!(load_failed(LoadStep::ReadConfig, "x"), "failed to read config: x");
    assert_eq!(load_failed(LoadStep::ParseConfig, "x"), "failed to parse config: x");
    assert_eq!(load_failed(LoadStep::ReadDefaultModel, "x"), "failed to read model file: x");
    assert_eq!(load_failed(LoadStep::ReadModel, "x"), "failed to read model: x");
    assert_eq!(load_failed(LoadStep::Load, "x"), "model load failed: x");
}
