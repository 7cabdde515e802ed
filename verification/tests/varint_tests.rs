use pfserialize::varint::{
    read_ivarint, read_uvarint, write_ivarint, write_uvarint, zigzag_decode, zigzag_encode,
};
use pfserialize::Error;

#[test]
fn zigzag_vectors() {
    let cases: &[(i64, u64)] = &[
        (0, 0),
        (-1, 1),
        (1, 2),
        (63, 126),
        (-64, 127),
        (64, 128),
        (10001, 20002),
    ];
    for &(n, z) in cases {
        assert_eq!(zigzag_encode(n), z, "encode {n}");
        assert_eq!(zigzag_decode(z), n, "decode {z}");
    }
}

#[test]
fn leb128_10001() {
    let mut buf = Vec::new();
    write_ivarint(&mut buf, 10001);
    assert_eq!(buf, vec![0xA2, 0x9C, 0x01]);
    let (v, n) = read_ivarint(&buf).unwrap();
    assert_eq!(v, 10001);
    assert_eq!(n, 3);
}

#[test]
fn roundtrip_edges() {
    for n in [i64::MIN, i64::MAX, -2, 127, -128, 255] {
        let mut buf = Vec::new();
        write_ivarint(&mut buf, n);
        let (v, _) = read_ivarint(&buf).unwrap();
        assert_eq!(v, n);
    }
}

#[test]
fn reject_overlong_10th_byte() {
    let bad = [0x80u8, 0x80, 0x80, 0x80, 0x80, 0x80, 0x80, 0x80, 0x80, 0x02];
    assert_eq!(read_uvarint(&bad).unwrap_err(), Error::VarInt);
}

#[test]
fn zigzag_extremes() {
    assert_eq!(zigzag_encode(i64::MAX), u64::MAX - 1);
    assert_eq!(zigzag_encode(i64::MIN), u64::MAX);
    assert_eq!(zigzag_decode(u64::MAX), i64::MIN);
    for n in [i64::MIN, -300, -1, 0, 1, 300, i64::MAX] {
        assert_eq!(zigzag_decode(zigzag_encode(n)), n);
    }
}

#[test]
fn uvarint_lengths_and_roundtrip() {
    let cases: &[(u64, usize)] = &[(0, 1), (127, 1), (128, 2), (16383, 2), (16384, 3), (u64::MAX, 10)];
    for &(x, len) in cases {
        let mut buf = vec![0xEEu8];
        write_uvarint(&mut buf, x);
        assert_eq!(buf.len(), 1 + len);
        assert_eq!(buf[0], 0xEE);
        let mut with_rest = buf[1..].to_vec();
        with_rest.push(0x55);
        assert_eq!(read_uvarint(&with_rest).unwrap(), (x, len));
    }
    let mut buf = Vec::new();
    write_uvarint(&mut buf, 300);
    assert_eq!(buf, vec![0xAC, 0x02]);
}

#[test]
fn uvarint_truncated_and_empty() {
    assert_eq!(read_uvarint(&[]).unwrap_err(), Error::Truncated);
    assert_eq!(read_uvarint(&[0x80, 0x80]).unwrap_err(), Error::Truncated);
    assert_eq!(read_ivarint(&[0xFF]).unwrap_err(), Error::Truncated);
}

#[test]
fn uvarint_tenth_byte_one_is_max() {
    let max = [0xFFu8, 0xFF, 0xFF, 0xFF, 0xFF, 0xFF, 0xFF, 0xFF, 0xFF, 0x01];
    assert_eq!(read_uvarint(&max).unwrap(), (u64::MAX, 10));
}
