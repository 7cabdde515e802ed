use pfserialize::header::{
    checksum_bytes, parse_header, validate_flags, write_base_header, Header, HeaderError,
    FLAGS_DEFAULT, FLAG_CHECKSUM, FLAG_STRDEDUP, HEADER_BASE_LEN,
};

#[test]
fn parse_default_header() {
    let mut buf = Vec::new();
    write_base_header(&mut buf, FLAGS_DEFAULT).unwrap();
    buf.extend_from_slice(&[0x00]);
    let (h, payload) = parse_header(&buf).unwrap();
    assert!(h.strdedup_enabled());
    assert!(!h.checksum_enabled());
    assert_eq!(payload, &[0x00]);
}

#[test]
fn checksum_roundtrip() {
    let payload = [0x08, 0x04, 0x03, 0x02, 0x03, 0x04, 0x03, 0x06, 0x03, 0x08];
    let mut buf = Vec::new();
    write_base_header(&mut buf, FLAG_CHECKSUM | FLAG_STRDEDUP).unwrap();
    let cs = checksum_bytes(&payload);
    buf.extend_from_slice(&cs);
    buf.extend_from_slice(&payload);
    let (h, p) = parse_header(&buf).unwrap();
    assert!(h.checksum_enabled());
    assert_eq!(p, &payload);
}

#[test]
fn bad_magic() {
    let data = b"XXXX\x01\x02\x00";
    assert_eq!(parse_header(data), Err(HeaderError::BadMagic));
}

#[test]
fn header_errors() {
    assert_eq!(parse_header(b"PFBN\x01"), Err(HeaderError::Truncated));
    assert_eq!(parse_header(b"PFBN\x02\x02\x00"), Err(HeaderError::UnsupportedVersion));
    assert_eq!(parse_header(b"PFBN\x01\x06\x00"), Err(HeaderError::UnknownFlags));
    assert_eq!(parse_header(b"PFBN\x01\x03\x00\x00"), Err(HeaderError::Truncated));
    assert_eq!(validate_flags(0x80), Err(HeaderError::UnknownFlags));
    assert_eq!(validate_flags(FLAG_CHECKSUM | FLAG_STRDEDUP), Ok(()));
    let mut buf = vec![0xAA];
    assert_eq!(write_base_header(&mut buf, 0x04), Err(HeaderError::UnknownFlags));
    assert_eq!(buf, vec![0xAA]);
}

#[test]
fn header_bytes_and_length() {
    let mut buf = Vec::new();
    write_base_header(&mut buf, FLAG_CHECKSUM).unwrap();
    assert_eq!(buf, vec![0x50, 0x46, 0x42, 0x4E, 0x01, 0x01]);
    let plain = Header { version: 1, flags: FLAG_STRDEDUP };
    let checked = Header { version: 1, flags: FLAG_CHECKSUM };
    assert_eq!(plain.header_len(), HEADER_BASE_LEN);
    assert_eq!(checked.header_len(), HEADER_BASE_LEN + 4);
}

#[test]
fn checksum_mismatch_and_hash_bytes() {
    let payload = [0x00u8];
    let cs = checksum_bytes(&payload);
    let h = xxhash_rust::xxh3::xxh3_64(&payload);
    assert_eq!(cs, [h as u8, (h >> 8) as u8, (h >> 16) as u8, (h >> 24) as u8]);
    let other = checksum_bytes(&[0x01u8]);
    assert_ne!(cs, other);
    let mut buf = Vec::new();
    write_base_header(&mut buf, FLAG_CHECKSUM).unwrap();
    buf.extend_from_slice(&other);
    buf.extend_from_slice(&payload);
    assert_eq!(parse_header(&buf), Err(HeaderError::Checksum));
}
