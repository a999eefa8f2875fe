use heretek::error::{FormatError, Hex32, IntegrityError};
use heretek::format::{
    compare_checksum, read_exact_or_truncated, verify_checksum, Header, ReadOutcome,
    CURRENT_VERSION, HEADER_LEN, MAGIC,
};
use sha2::{Digest, Sha256};

#[test]
fn header_write_read_round_trip() {
    let header = Header::new(7, 0xDEAD_BEEF, [0xAB; 32], 1024, 512);
    let mut buf = Vec::new();
    header.write(&mut buf);
    assert_eq!(buf.len(), 60);

    let round_tripped = Header::read(&mut buf.as_slice()).unwrap();
    assert_eq!(round_tripped, header);
}

#[test]
fn header_default_magic_and_version() {
    let header = Header::default();
    assert_eq!(header.magic, MAGIC);
    assert_eq!(header.version, CURRENT_VERSION);
}

#[test]
fn header_default_is_otherwise_zero() {
    assert_eq!(Header::default(), Header::new(0, 0, [0u8; 32], 0, 0));
    assert_eq!(&MAGIC, b"HTC\x01");
    assert_eq!(CURRENT_VERSION, 1);
    assert_eq!(HEADER_LEN, 60);
}

#[test]
fn magic_byte_validation_rejects_wrong_magic() {
    let mut header = Header::default();
    header.magic = *b"BAD\x01";
    let mut buf = Vec::new();
    header.write(&mut buf);

    let result = Header::read(&mut buf.as_slice());
    assert!(matches!(result, Err(FormatError::InvalidMagic { .. })));
}

#[test]
fn wrong_magic_is_reported_before_wrong_version() {
    let mut header = Header::default();
    header.magic = *b"BAD\x01";
    header.version = 99;
    let mut buf = Vec::new();
    header.write(&mut buf);
    match Header::read(&mut buf.as_slice()) {
        Err(FormatError::InvalidMagic { found }) => assert_eq!(&found.0, b"BAD\x01"),
        other => panic!("{:?}", other),
    }
}

#[test]
fn version_validation_rejects_unsupported_version() {
    let mut header = Header::default();
    header.version = 99;
    let mut buf = Vec::new();
    header.write(&mut buf);

    let result = Header::read(&mut buf.as_slice());
    assert!(matches!(
        result,
        Err(FormatError::UnsupportedVersion { version: 99 })
    ));
}

#[test]
fn truncated_header_error() {
    let buf = [0u8; 10];
    let result = Header::read(&mut buf.as_slice());
    assert!(matches!(result, Err(FormatError::TruncatedHeader)));
}

#[test]
fn header_of_59_bytes_is_truncated() {
    let mut buf = Vec::new();
    Header::default().write(&mut buf);
    let mut reader = &buf[..59];
    assert!(matches!(
        Header::read(&mut reader),
        Err(FormatError::TruncatedHeader)
    ));
    assert!(reader.is_empty());
}

#[test]
fn header_bytes_are_big_endian_at_their_offsets() {
    let header = Header::new(
        0x0102,
        0x0304_0506,
        [0x77; 32],
        0x1112_1314_1516_1718,
        0x2122_2324_2526_2728,
    );
    let mut buf = vec![9u8];
    header.write(&mut buf);
    let mut expected = vec![9u8];
    expected.extend_from_slice(b"HTC\x01");
    expected.extend_from_slice(&[0, 1, 1, 2, 3, 4, 5, 6]);
    expected.extend_from_slice(&[0x77; 32]);
    expected.extend_from_slice(&[0x11, 0x12, 0x13, 0x14, 0x15, 0x16, 0x17, 0x18]);
    expected.extend_from_slice(&[0x21, 0x22, 0x23, 0x24, 0x25, 0x26, 0x27, 0x28]);
    assert_eq!(buf, expected);
}

#[test]
fn reading_a_header_leaves_what_follows() {
    let header = Header::new(1, 2, [3; 32], 4, 5);
    let mut buf = Vec::new();
    header.write(&mut buf);
    buf.extend_from_slice(b"tail");
    let mut reader = buf.as_slice();
    assert_eq!(Header::read(&mut reader).unwrap(), header);
    assert_eq!(reader, b"tail");
}

#[test]
fn written_bytes_of_a_read_header_are_the_read_bytes() {
    let mut bytes: Vec<u8> = (0..60).map(|i| (i * 7 + 3) as u8).collect();
    bytes[..4].copy_from_slice(&MAGIC);
    bytes[4] = 0;
    bytes[5] = 1;
    let header = Header::read(&mut bytes.as_slice()).unwrap();
    let mut again = Vec::new();
    header.write(&mut again);
    assert_eq!(again, bytes);
}

#[test]
fn short_reads_add_up() {
    assert!(matches!(
        read_exact_or_truncated(0, 60, ReadOutcome::Bytes(20)),
        Ok(20)
    ));
    assert!(matches!(
        read_exact_or_truncated(20, 60, ReadOutcome::Bytes(40)),
        Ok(60)
    ));
    assert!(matches!(
        read_exact_or_truncated(20, 60, ReadOutcome::Bytes(0)),
        Err(FormatError::TruncatedHeader)
    ));
    assert!(matches!(
        read_exact_or_truncated(20, 60, ReadOutcome::Failed),
        Err(FormatError::TruncatedHeader)
    ));
}

#[test]
fn checksum_verification_passes() {
    let data = b"hello world";
    let mut hasher = Sha256::new();
    hasher.update(data);
    let expected: [u8; 32] = hasher.finalize().into();

    verify_checksum(data, &expected).unwrap();
}

#[test]
fn checksum_verification_detects_bit_flip() {
    let data = b"hello world";
    let mut hasher = Sha256::new();
    hasher.update(data);
    let mut expected: [u8; 32] = hasher.finalize().into();
    expected[0] ^= 0x01;

    let result = verify_checksum(data, &expected);
    assert!(matches!(
        result,
        Err(IntegrityError::ChecksumMismatch { .. })
    ));
}

#[test]
fn checksum_detects_wrong_data() {
    let data_a = b"hello world";
    let data_b = b"HELLO WORLD";
    let mut hasher = Sha256::new();
    hasher.update(data_b);
    let expected: [u8; 32] = hasher.finalize().into();

    let result = verify_checksum(data_a, &expected);
    assert!(matches!(
        result,
        Err(IntegrityError::ChecksumMismatch { .. })
    ));
}

#[test]
fn checksum_empty_data() {
    let data = [];
    let mut hasher = Sha256::new();
    hasher.update(data);
    let expected: [u8; 32] = hasher.finalize().into();
    verify_checksum(&data, &expected).unwrap();
}

#[test]
fn checksum_of_abc_is_the_published_one() {
    let expected: [u8; 32] = [
        0xba, 0x78, 0x16, 0xbf, 0x8f, 0x01, 0xcf, 0xea, 0x41, 0x41, 0x40, 0xde, 0x5d, 0xae, 0x22,
        0x23, 0xb0, 0x03, 0x61, 0xa3, 0x96, 0x17, 0x7a, 0x9c, 0xb4, 0x10, 0xff, 0x61, 0xf2, 0x00,
        0x15, 0xad,
    ];
    verify_checksum(b"abc", &expected).unwrap();
    match verify_checksum(b"abd", &expected) {
        Err(IntegrityError::ChecksumMismatch {
            expected: e,
            actual: a,
        }) => {
            assert_eq!(e, Hex32(expected));
            assert_ne!(a, Hex32(expected));
        }
        other => panic!("{:?}", other),
    }
}

#[test]
fn checksum_comparison_reports_both_sides() {
    compare_checksum(&[5; 32], &[5; 32]).unwrap();
    match compare_checksum(&[5; 32], &[6; 32]) {
        Err(IntegrityError::ChecksumMismatch { expected, actual }) => {
            assert_eq!(expected, Hex32([6; 32]));
            assert_eq!(actual, Hex32([5; 32]));
        }
        other => panic!("{:?}", other),
    }
}
