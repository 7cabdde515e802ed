use pfserialize::abi::{PfEncoder, PfErr};
use pfserialize::header::{FLAG_CHECKSUM, FLAG_STRDEDUP};
use pfserialize::hex::{from_hex, parse_hex, to_hex};
use pfserialize::normalize::normalize_for_cmp;
use pfserialize::string_table::{DecodeStringTable, EncodeStringTable};
use pfserialize::tags::{is_v1_key_tag, is_v1_value_tag};
use pfserialize::test_host::TestHost;
use pfserialize::value::maybe_pack;
use pfserialize::{
    decode, decode_with, encode, encode_with, DecodeOptions, EncodeOptions, Encoder, Error, Key,
    Value,
};

#[test]
fn ffi_encoder_roundtrip_hex() {
    let mut enc = PfEncoder { inner: Encoder::new(FLAG_STRDEDUP).unwrap() };
    enc.inner.write_packed_longs_begin(4);
    enc.inner.write_packed_long_item(1);
    enc.inner.write_packed_long_item(2);
    enc.inner.write_packed_long_item(3);
    enc.inner.write_packed_long_item(4);
    let bytes = enc.inner.finish();
    assert_eq!(
        bytes,
        vec![0x50, 0x46, 0x42, 0x4E, 0x01, 0x02, 0x0A, 0x04, 0x02, 0x04, 0x06, 0x08]
    );
}

#[test]
fn encoder_streaming_matches_encode() {
    let mut e = Encoder::new(FLAG_STRDEDUP).unwrap();
    assert_eq!(e.flags(), FLAG_STRDEDUP);
    e.write_array_hash_begin(3);
    e.write_key_string(b"a");
    e.write_string(b"x");
    e.write_key_i64(7);
    e.write_string(b"x");
    e.write_key_string(b"");
    e.write_f64(1.5f64.to_bits());
    let streamed = e.finish();
    let v = Value::ArrayHash(vec![
        (Key::str(b"a"), Value::str(b"x")),
        (Key::Int(7), Value::str(b"x")),
        (Key::str(b""), Value::Float(1.5f64.to_bits())),
    ]);
    assert_eq!(streamed, encode(&v).unwrap());
    assert_eq!(
        streamed,
        vec![
            0x50, 0x46, 0x42, 0x4E, 0x01, 0x02, 0x09, 0x03, 0x06, 0x01, b'a', 0x06, 0x01, b'x',
            0x03, 0x0E, 0x07, 0x01, 0x05, 0x04, 0, 0, 0, 0, 0, 0, 0xF8, 0x3F
        ]
    );
}

#[test]
fn encoder_rejects_unknown_flags() {
    assert!(matches!(Encoder::new(0x08), Err(Error::UnknownFlags)));
    let v = Value::Null;
    assert_eq!(encode_with(&v, &EncodeOptions { flags: 0x10 }), Err(Error::UnknownFlags));
    assert_eq!(EncodeOptions::default().flags, FLAG_STRDEDUP);
}

#[test]
fn encoder_other_layouts() {
    let mut e = Encoder::new(0).unwrap();
    e.write_array_rows_begin(2, 1);
    e.write_array_repeat_begin(3);
    e.write_array_packed_begin(2);
    e.write_null();
    e.write_bool(true);
    e.write_bool(false);
    e.write_i64(-1);
    let b = e.finish();
    assert_eq!(
        b,
        vec![0x50, 0x46, 0x42, 0x4E, 0x01, 0x00, 0x0B, 0x02, 0x01, 0x0C, 0x03, 0x08, 0x02, 0x00, 0x02, 0x01, 0x03, 0x01]
    );
}

#[test]
fn roundtrip_nested_values_all_flags() {
    let inner = Value::ArrayHash(vec![
        (Key::Int(-5), Value::str(b"neg")),
        (Key::str(b"k"), Value::ArrayPacked(vec![Value::Null, Value::Bool(false)])),
    ]);
    let v = Value::ArrayPacked(vec![
        Value::str(b"dup"),
        Value::str(b"dup"),
        inner.clone(),
        Value::ArrayPacked(vec![Value::Int(3), Value::Int(-4)]),
        Value::Float(f64::NAN.to_bits()),
    ]);
    for flags in [0u8, FLAG_STRDEDUP, FLAG_CHECKSUM, FLAG_CHECKSUM | FLAG_STRDEDUP] {
        let bytes = encode_with(&v, &EncodeOptions { flags }).unwrap();
        assert_eq!(bytes[5], flags);
        let mut host = TestHost::new();
        let out = decode(&bytes, &mut host).unwrap();
        assert_eq!(out, v);
    }
}

#[test]
fn repeat_roundtrip_gives_copies() {
    let v = Value::ArrayPacked(vec![Value::str(b"same"); 4]);
    let bytes = encode(&v).unwrap();
    assert_eq!(bytes[6], 0x0C);
    let mut host = TestHost::new();
    assert_eq!(decode(&bytes, &mut host).unwrap(), v);
}

#[test]
fn trailing_bytes_allowed_when_not_strict() {
    let mut doc = encode(&Value::Int(5)).unwrap();
    doc.push(0xFF);
    let mut host = TestHost::new();
    let opts = DecodeOptions { max_depth: 0, max_size: 0, strict_trailing: false };
    assert_eq!(decode_with(&doc, &mut host, &opts).unwrap(), Value::Int(5));
    let d = DecodeOptions::default();
    assert!(d.strict_trailing);
}

#[test]
fn decode_errors_more() {
    let mut host = TestHost::new();
    let doc = vec![0x50, 0x46, 0x42, 0x4E, 0x01, 0x02, 0x03, 0x80];
    assert_eq!(decode(&doc, &mut host).unwrap_err(), Error::Truncated);
    let doc = vec![0x50, 0x46, 0x42, 0x4E, 0x02, 0x02, 0x00];
    assert_eq!(decode(&doc, &mut host).unwrap_err(), Error::UnsupportedVersion);
    let doc = vec![0x50, 0x46, 0x42, 0x4E, 0x01, 0x02, 0x04, 0x00];
    assert_eq!(decode(&doc, &mut host).unwrap_err(), Error::Truncated);
    let doc = vec![
        0x50, 0x46, 0x42, 0x4E, 0x01, 0x02, 0x03, 0x80, 0x80, 0x80, 0x80, 0x80, 0x80, 0x80, 0x80,
        0x80, 0x02,
    ];
    assert_eq!(decode(&doc, &mut host).unwrap_err(), Error::VarInt);
}

#[test]
fn error_messages_and_codes() {
    assert_eq!(Error::BadMagic.message(), "bad magic");
    assert_eq!(Error::Overflow.message(), "length/count overflow");
    assert_eq!(Error::BadMagic.code(), 1);
    assert_eq!(Error::Internal.code(), 127);
    assert_eq!(PfErr::from(Error::Checksum), PfErr::Checksum);
    assert_eq!(PfErr::from(Error::Internal).code(), 127);
    assert_eq!(PfErr::Success.code(), 0);
    assert_eq!(PfErr::NullArg.code(), 16);
    assert_eq!(PfErr::from(Error::Host).code(), Error::Host.code());
}

#[test]
fn hex_helpers() {
    assert_eq!(to_hex(&[0x00, 0x0F, 0xA5, 0xFF]), "000fa5ff");
    assert_eq!(to_hex(&[]), "");
    assert_eq!(from_hex(b'7'), Ok(7));
    assert_eq!(from_hex(b'c'), Ok(12));
    assert_eq!(from_hex(b'C'), Ok(12));
    assert_eq!(from_hex(b'g'), Err("bad hex digit g".to_string()));
    assert_eq!(parse_hex("50 46\n42 4e"), Ok(vec![0x50, 0x46, 0x42, 0x4E]));
    assert_eq!(parse_hex("abc"), Err("odd length".to_string()));
    assert_eq!(parse_hex("0x12"), Err("bad hex digit x".to_string()));
    assert_eq!(parse_hex("zz"), Err("bad hex digit z".to_string()));
    assert_eq!(parse_hex("\u{00e9}0"), Err("odd length".to_string()));
    assert_eq!(parse_hex("\u{00e9}"), Err("bad hex digit \u{00c3}".to_string()));
    assert_eq!(parse_hex("\u{3000}ff"), Ok(vec![0xFF]));
    let bytes = vec![1u8, 2, 0xAB];
    assert_eq!(parse_hex(&to_hex(&bytes)), Ok(bytes));
}

#[test]
fn normalize_sorts_and_keeps_last() {
    let v = Value::ArrayHash(vec![
        (Key::str(b"b"), Value::Int(1)),
        (Key::Int(2), Value::Int(2)),
        (Key::str(b"a"), Value::Int(3)),
        (Key::str(b"b"), Value::Int(4)),
        (Key::Int(-1), Value::ArrayPacked(vec![Value::Null])),
    ]);
    let n = normalize_for_cmp(&v);
    let expected = Value::ArrayHash(vec![
        (Key::Int(-1), Value::ArrayHash(vec![(Key::Int(0), Value::Null)])),
        (Key::Int(2), Value::Int(2)),
        (Key::str(b"a"), Value::Int(3)),
        (Key::str(b"b"), Value::Int(4)),
    ]);
    assert_eq!(n, expected);
    let packed = Value::ArrayPacked(vec![Value::Int(9), Value::str(b"x")]);
    let hashed = Value::ArrayHash(vec![(Key::Int(0), Value::Int(9)), (Key::Int(1), Value::str(b"x"))]);
    assert_eq!(normalize_for_cmp(&packed), normalize_for_cmp(&hashed));
    let ab = Value::ArrayHash(vec![(Key::str(b"ab"), Value::Null), (Key::str(b"a"), Value::Null)]);
    assert_eq!(
        normalize_for_cmp(&ab),
        Value::ArrayHash(vec![(Key::str(b"a"), Value::Null), (Key::str(b"ab"), Value::Null)])
    );
}

#[test]
fn maybe_pack_and_builders() {
    let seq = vec![(Key::Int(0), Value::Null), (Key::Int(1), Value::Bool(true))];
    assert_eq!(maybe_pack(seq), Value::ArrayPacked(vec![Value::Null, Value::Bool(true)]));
    let gap = vec![(Key::Int(0), Value::Null), (Key::Int(2), Value::Bool(true))];
    match maybe_pack(gap) {
        Value::ArrayHash(p) => assert_eq!(p.len(), 2),
        other => panic!("unexpected {other:?}"),
    }
    let named = vec![(Key::str(b"0"), Value::Null)];
    assert!(matches!(maybe_pack(named), Value::ArrayHash(_)));
    assert!(matches!(maybe_pack(vec![]), Value::ArrayPacked(ref v) if v.is_empty()));
    assert_eq!(Key::str(b"k"), Key::String(b"k".to_vec()));
    assert!(matches!(Value::str(b"v"), Value::String(ref s) if s == b"v"));
    match Value::map_str(vec![("x", Value::Int(1)), ("y", Value::Null)]) {
        Value::ArrayHash(p) => {
            assert_eq!(p.len(), 2);
            assert_eq!(p[0].0, Key::str(b"x"));
            assert_eq!(p[1].0, Key::str(b"y"));
            assert_eq!(p[0].1, Value::Int(1));
        }
        other => panic!("unexpected {other:?}"),
    }
}

#[test]
fn string_tables() {
    let mut t = EncodeStringTable::new();
    assert!(t.is_empty());
    assert_eq!(t.intern_get(b"a"), (0, true));
    assert_eq!(t.intern_get(b"b"), (1, true));
    assert_eq!(t.intern_get(b"a"), (0, false));
    assert_eq!(t.len(), 2);
    let mut d = DecodeStringTable::new();
    assert_eq!(d.push(b"x".to_vec()), 0);
    assert_eq!(d.push(b"y".to_vec()), 1);
    assert_eq!(d.get(1), Some(&b"y"[..]));
    assert_eq!(d.get(2), None);
    assert_eq!(d.len(), 2);
}

#[test]
fn tag_sets() {
    assert!(is_v1_value_tag(0x00));
    assert!(is_v1_value_tag(0x0C));
    assert!(!is_v1_value_tag(0x0D));
    assert!(is_v1_key_tag(0x03));
    assert!(is_v1_key_tag(0x07));
    assert!(!is_v1_key_tag(0x00));
    assert!(!is_v1_key_tag(0x08));
}

#[test]
fn value_equality_rules() {
    assert_eq!(Value::ArrayPacked(vec![]), Value::ArrayHash(vec![]));
    assert_ne!(Value::ArrayPacked(vec![Value::Null]), Value::ArrayHash(vec![(Key::Int(0), Value::Null)]));
    assert_eq!(Value::Float(f64::NAN.to_bits()), Value::Float(f64::NAN.to_bits()));
    assert_ne!(Value::Float(0.0f64.to_bits()), Value::Float((-0.0f64).to_bits()));
    let v = Value::ArrayHash(vec![(Key::str(b"z"), Value::ArrayPacked(vec![Value::Int(1)]))]);
    assert_eq!(v.clone(), v);
}

#[test]
fn depth_limit_accepts_exact_depth() {
    let v = Value::ArrayPacked(vec![Value::ArrayPacked(vec![Value::ArrayHash(vec![(
        Key::Int(1),
        Value::Null,
    )])])]);
    let bytes = encode(&v).unwrap();
    let mut host = TestHost::new();
    let opts = DecodeOptions { max_depth: 3, max_size: 0, strict_trailing: true };
    assert_eq!(decode_with(&bytes, &mut host, &opts).unwrap(), v);
    let mut host = TestHost::new();
    let tight = DecodeOptions { max_depth: 2, max_size: 0, strict_trailing: true };
    assert_eq!(decode_with(&bytes, &mut host, &tight).unwrap_err(), Error::MaxDepth);
}

#[test]
fn rows_need_two_levels_of_depth() {
    let row = |id: i64| Value::map_str(vec![("id", Value::Int(id)), ("s", Value::str(b"x"))]);
    let v = Value::ArrayPacked(vec![row(1), row(2)]);
    let bytes = encode(&v).unwrap();
    assert_eq!(bytes[6], 0x0B);
    let mut host = TestHost::new();
    let opts = DecodeOptions { max_depth: 2, max_size: 0, strict_trailing: true };
    assert_eq!(decode_with(&bytes, &mut host, &opts).unwrap(), v);
    let mut host = TestHost::new();
    let tight = DecodeOptions { max_depth: 1, max_size: 0, strict_trailing: true };
    assert_eq!(decode_with(&bytes, &mut host, &tight).unwrap_err(), Error::MaxDepth);
}

#[test]
fn size_limit_counts_repeated_strings_once() {
    let v = Value::ArrayPacked(vec![Value::str(b"abcdefgh"); 10]);
    let bytes = encode(&v).unwrap();
    assert_eq!(bytes[6], 0x0C);
    let mut host = TestHost::new();
    let opts = DecodeOptions { max_depth: 0, max_size: 12, strict_trailing: true };
    assert_eq!(decode_with(&bytes, &mut host, &opts).unwrap(), v);
}

#[test]
fn empty_arrays_encode_as_empty_packed() {
    let expected = vec![0x50, 0x46, 0x42, 0x4E, 0x01, 0x02, 0x08, 0x00];
    assert_eq!(encode(&Value::ArrayHash(vec![])).unwrap(), expected);
    assert_eq!(encode(&Value::ArrayPacked(vec![])).unwrap(), expected);
    let mut e = Encoder::new(FLAG_STRDEDUP).unwrap();
    e.write_array_hash_begin(0);
    assert_eq!(e.finish(), vec![0x50, 0x46, 0x42, 0x4E, 0x01, 0x02, 0x09, 0x00]);
    let mut host = TestHost::new();
    let out = decode(&expected, &mut host).unwrap();
    assert!(matches!(out, Value::ArrayPacked(ref v) if v.is_empty()));
    assert_eq!(out, Value::ArrayHash(vec![]));
    let nested = Value::ArrayHash(vec![(Key::str(b"k"), Value::ArrayHash(vec![]))]);
    let mut host = TestHost::new();
    assert_eq!(decode(&encode(&nested).unwrap(), &mut host).unwrap(), nested);
}

#[test]
fn hex_roundtrip_all_bytes() {
    let all: Vec<u8> = (0..=255u8).collect();
    assert_eq!(parse_hex(&to_hex(&all)), Ok(all));
    assert_eq!(parse_hex("\u{00a0}0a\u{2028}0B\u{0085}"), Ok(vec![0x0A, 0x0B]));
}
