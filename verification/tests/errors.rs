use heretek::error::{
    CoderError, FormatError, HeretikError, Hex32, IntegrityError, MagicBytes, PredictorError,
};

#[test]
fn coder_error_display() {
    let e = CoderError::StackUnderflow { at_byte: 42 };
    assert_eq!(e.to_string(), "coder stack underflow at byte offset 42");

    let e = CoderError::EncodeFailed {
        message: "oom".into(),
    };
    assert_eq!(e.to_string(), "encode failed: oom");

    let e = CoderError::DecodeFailed {
        message: "bad sym".into(),
    };
    assert_eq!(e.to_string(), "decode failed: bad sym");
}

#[test]
fn predictor_error_display() {
    let e = PredictorError::InvalidDistribution {
        index: 3,
        sum: 0.95f64.to_string(),
    };
    assert_eq!(
        e.to_string(),
        "invalid probability distribution: index 3, sum 0.95"
    );

    let e = PredictorError::ModelLoadFailed {
        path: "m.bin".into(),
        message: "ENOENT".into(),
    };
    assert_eq!(e.to_string(), "failed to load model from m.bin: ENOENT");

    let e = PredictorError::ForwardPassFailed {
        message: "NaN".into(),
    };
    assert_eq!(e.to_string(), "forward pass failed: NaN");
}

#[test]
fn integrity_error_display_roundtrip() {
    let e = IntegrityError::RoundTripMismatch {
        offset: 1024,
        expected_byte: 0xAB,
        actual_byte: 0xCD,
    };
    assert_eq!(
        e.to_string(),
        "round-trip mismatch at byte offset 1024: expected 0xab, got 0xcd"
    );
}

#[test]
fn integrity_error_display_checksum() {
    let e = IntegrityError::ChecksumMismatch {
        expected: Hex32([0xAA; 32]),
        actual: Hex32([0xBB; 32]),
    };
    let s = e.to_string();
    assert!(s.starts_with("checksum mismatch: expected "));
    assert!(s.contains(&"aa".repeat(32)));
    assert!(s.contains(&"bb".repeat(32)));
}

#[test]
fn checksum_mismatch_text_is_exact() {
    let e = IntegrityError::ChecksumMismatch {
        expected: Hex32([0x0A; 32]),
        actual: Hex32([0xF1; 32]),
    };
    let expected = format!(
        "checksum mismatch: expected {}, actual {}",
        "0a".repeat(32),
        "f1".repeat(32)
    );
    assert_eq!(e.to_string(), expected);
}

#[test]
fn format_error_display() {
    let e = FormatError::InvalidMagic {
        found: MagicBytes([0x48, 0x54, 0x4B, 0x01]),
    };
    let s = e.to_string();
    assert!(s.starts_with("invalid magic bytes: "));
    assert!(s.contains("HTK"));

    let e = FormatError::UnsupportedVersion { version: 99 };
    assert_eq!(e.to_string(), "unsupported format version 99");

    let e = FormatError::TruncatedHeader;
    assert!(e.to_string().contains("truncated header"));

    let e = FormatError::CorruptBitstream { offset: 2048 };
    assert_eq!(e.to_string(), "corrupt bitstream at byte offset 2048");
}

#[test]
fn format_error_texts_are_exact() {
    let e = FormatError::InvalidMagic {
        found: MagicBytes([0x00, 0x21, 0x7E, 0x7F]),
    };
    assert_eq!(e.to_string(), "invalid magic bytes: .!~. (00 21 7e 7f)");
    assert_eq!(
        FormatError::TruncatedHeader.to_string(),
        "truncated header: not enough bytes to parse all header fields"
    );
}

#[test]
fn top_level_error_from_conversions() {
    let e: HeretikError = CoderError::StackUnderflow { at_byte: 1 }.into();
    assert!(matches!(
        e,
        HeretikError::Coder(CoderError::StackUnderflow { at_byte: 1 })
    ));

    let e: HeretikError = PredictorError::InvalidDistribution {
        index: 0,
        sum: 0.5f64.to_string(),
    }
    .into();
    assert!(matches!(
        e,
        HeretikError::Predictor(PredictorError::InvalidDistribution { index: 0, .. })
    ));

    let e: HeretikError = IntegrityError::RoundTripMismatch {
        offset: 0,
        expected_byte: 0,
        actual_byte: 1,
    }
    .into();
    assert!(matches!(
        e,
        HeretikError::Integrity(IntegrityError::RoundTripMismatch { offset: 0, .. })
    ));

    let e: HeretikError = FormatError::TruncatedHeader.into();
    assert!(matches!(
        e,
        HeretikError::Format(FormatError::TruncatedHeader)
    ));
}

#[test]
fn top_level_error_display_is_transparent() {
    let e: HeretikError = CoderError::StackUnderflow { at_byte: 99 }.into();
    assert_eq!(e.to_string(), "coder stack underflow at byte offset 99");
}

#[test]
fn top_level_error_text_is_that_of_each_kind() {
    let e: HeretikError = PredictorError::ForwardPassFailed {
        message: "NaN".into(),
    }
    .into();
    assert_eq!(e.to_string(), "forward pass failed: NaN");
    let e: HeretikError = FormatError::UnsupportedVersion { version: 7 }.into();
    assert_eq!(e.to_string(), "unsupported format version 7");
    let e: HeretikError = IntegrityError::RoundTripMismatch {
        offset: u64::MAX,
        expected_byte: 0,
        actual_byte: 255,
    }
    .into();
    assert_eq!(
        e.to_string(),
        "round-trip mismatch at byte offset 18446744073709551615: expected 0x00, got 0xff"
    );
}

#[test]
fn error_types_are_send_sync() {
    fn assert_send_sync<T: Send + Sync>() {}
    assert_send_sync::<HeretikError>();
    assert_send_sync::<CoderError>();
    assert_send_sync::<PredictorError>();
    assert_send_sync::<IntegrityError>();
    assert_send_sync::<FormatError>();
}

#[test]
fn hex32_display() {
    let mut arr = [0u8; 32];
    arr[0] = 0x0f;
    arr[31] = 0xf0;
    let h = Hex32(arr);
    let s = h.to_string();
    assert_eq!(s.len(), 64);
    assert!(s.starts_with("0f"));
    assert!(s.ends_with("f0"));
}

#[test]
fn magic_bytes_display() {
    let m = MagicBytes([0x48, 0x54, 0x4B, 0x01]);
    let s = m.to_string();
    assert_eq!(s, "HTK. (48 54 4b 01)");
}
