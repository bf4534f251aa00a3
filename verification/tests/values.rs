//! Tagged value parser and serializer: round trips and failures.

use starbound_assets::bson::{parse_bson, parse_maybe_u32, parse_object};
use starbound_assets::serializer::to_writer;
use starbound_assets::{ErrorKind, Frame, ObjectMap, Rule, Serializer, Value};

fn round_trip(v: &Value) -> Value {
    let mut bytes: Vec<u8> = Vec::new();
    to_writer(&mut bytes, v).expect("serializing a value cannot fail");
    let (parsed, end) = parse_bson(&bytes, 0).expect("serialized value must parse");
    assert_eq!(end, bytes.len());
    parsed
}

#[test]
fn round_trip_scalars() {
    for v in [
        Value::Empty,
        Value::Boolean(true),
        Value::Boolean(false),
        Value::Integer(0),
        Value::Integer(42),
        Value::Integer(i64::MIN),
        Value::Integer(i64::MAX),
        Value::Float(0.0f64.to_bits()),
        Value::Float(1.5f64.to_bits()),
        Value::Float((-2.25f64).to_bits()),
        Value::String(String::new()),
        Value::String(String::from("hello")),
        Value::String(String::from("snow\u{2603}man")),
    ] {
        let parsed = round_trip(&v);
        assert_eq!(parsed, v);
    }
}

#[test]
fn round_trip_negative_integer() {
    assert_eq!(round_trip(&Value::Integer(-5)), Value::Integer(-5));
}

#[test]
fn round_trip_nested() {
    let mut obj = ObjectMap::new();
    obj.insert(String::from("alpha"), Value::Integer(-7));
    obj.insert(String::from("beta"), Value::Array(vec![Value::Empty, Value::Boolean(true)]));
    let v = Value::Array(vec![
        Value::Object(obj),
        Value::String(String::from("tail")),
        Value::Array(vec![]),
    ]);
    let parsed = round_trip(&v);
    assert_eq!(parsed, v);
}

#[test]
fn empty_decodes_from_both_tags_but_encodes_as_one() {
    let (v0, _) = parse_bson(&[0x00], 0).expect("tag 0x00 is empty");
    let (v1, _) = parse_bson(&[0x01], 0).expect("tag 0x01 is empty");
    assert_eq!(v0, Value::Empty);
    assert_eq!(v1, Value::Empty);
    let mut bytes: Vec<u8> = Vec::new();
    to_writer(&mut bytes, &Value::Empty).unwrap();
    assert_eq!(bytes, vec![0x01]);
}

#[test]
fn boolean_any_nonzero_is_true() {
    let (v, _) = parse_bson(&[0x03, 0x00], 0).unwrap();
    assert_eq!(v, Value::Boolean(false));
    let (v, _) = parse_bson(&[0x03, 0x01], 0).unwrap();
    assert_eq!(v, Value::Boolean(true));
    let (v, _) = parse_bson(&[0x03, 0x7f], 0).unwrap();
    assert_eq!(v, Value::Boolean(true));
}

#[test]
fn float_payload_is_big_endian() {
    // 1.0 is 0x3ff0000000000000
    let bytes = [0x02, 0x3f, 0xf0, 0, 0, 0, 0, 0, 0];
    let (v, end) = parse_bson(&bytes, 0).unwrap();
    assert_eq!(end, 9);
    assert_eq!(v, Value::Float(1.0f64.to_bits()));
}

#[test]
fn duplicate_keys_later_wins_and_order_is_sorted() {
    // object with keys out of order and one duplicate:
    // { "b": 1, "a": 2, "b": 3 }
    let bytes = [
        0x07, 0x03, // object, 3 pairs
        0x01, b'b', 0x04, 0x02, // "b": 1
        0x01, b'a', 0x04, 0x04, // "a": 2
        0x01, b'b', 0x04, 0x06, // "b": 3
    ];
    let (v, _) = parse_bson(&bytes, 0).unwrap();
    let mut expected = ObjectMap::new();
    expected.insert(String::from("a"), Value::Integer(2));
    expected.insert(String::from("b"), Value::Integer(3));
    assert_eq!(v, Value::Object(expected));
    match v {
        Value::Object(map) => {
            assert_eq!(map.len(), 2);
            assert_eq!(map.entry_at(0).0, "a");
            assert_eq!(map.entry_at(1).0, "b");
            assert_eq!(map.get("b"), Some(&Value::Integer(3)));
            assert_eq!(map.get("c"), None);
        },
        _ => unreachable!(),
    }
}

#[test]
fn invalid_tag_reports_exact_offset() {
    let e = parse_bson(&[0x09], 0).expect_err("unknown tag must fail");
    assert_eq!(e.kind, ErrorKind::InvalidTag);
    assert_eq!(e.offset, 0);

    // nested: the second array element has the bad tag at offset 3
    let e = parse_bson(&[0x06, 0x02, 0x01, 0x09], 0).expect_err("unknown tag must fail");
    assert_eq!(e.kind, ErrorKind::InvalidTag);
    assert_eq!(e.offset, 3);
    // innermost frame names the value rule at that byte
    assert_eq!(e.frames[0], Frame { rule: Rule::Value, offset: 3 });
}

#[test]
fn invalid_utf8_reports_string_start() {
    // string of length 1 whose payload is a lone continuation byte
    let e = parse_bson(&[0x05, 0x01, 0x80], 0).expect_err("bad utf-8 must fail");
    assert_eq!(e.kind, ErrorKind::InvalidUtf8);
    assert_eq!(e.offset, 1);
}

#[test]
fn truncated_value_fails() {
    let e = parse_bson(&[], 0).expect_err("empty input must fail");
    assert_eq!(e.kind, ErrorKind::TruncatedInput);
    let e = parse_bson(&[0x02, 0x00], 0).expect_err("short float must fail");
    assert_eq!(e.kind, ErrorKind::TruncatedInput);
    let e = parse_bson(&[0x05, 0x05, b'h', b'i'], 0).expect_err("short string must fail");
    assert_eq!(e.kind, ErrorKind::TruncatedInput);
    let e = parse_bson(&[0x06, 0x02, 0x01], 0).expect_err("short array must fail");
    assert_eq!(e.kind, ErrorKind::TruncatedInput);
}

#[test]
fn parse_object_payload() {
    // bare object payload: 1 pair, "k": Empty
    let bytes = [0x01, 0x01, b'k', 0x01];
    let (v, end) = parse_object(&bytes, 0).unwrap();
    assert_eq!(end, 4);
    let mut expected = ObjectMap::new();
    expected.insert(String::from("k"), Value::Empty);
    assert_eq!(v, Value::Object(expected));
}

#[test]
fn parse_maybe_u32_presence() {
    let (v, end) = parse_maybe_u32(&[0x00], 0).unwrap();
    assert_eq!(v, None);
    assert_eq!(end, 1);
    let (v, end) = parse_maybe_u32(&[0x01, 0x00, 0x00, 0x01, 0x02], 0).unwrap();
    assert_eq!(v, Some(258));
    assert_eq!(end, 5);
    assert!(parse_maybe_u32(&[0x01, 0x00], 0).is_err());
}

#[test]
fn serializer_primitives() {
    let mut s = Serializer::new();
    s.serialize_bool(true);
    assert_eq!(s.into_bytes(), vec![0x03, 0x01]);

    let mut s = Serializer::new();
    s.serialize_i64(1);
    assert_eq!(s.into_bytes(), vec![0x04, 0x02]);

    let mut s = Serializer::new();
    s.serialize_i8(-1);
    s.serialize_u16(2);
    assert_eq!(s.into_bytes(), vec![0x04, 0x01, 0x04, 0x04]);

    let mut s = Serializer::new();
    s.serialize_str("hi");
    assert_eq!(s.into_bytes(), vec![0x05, 0x02, b'h', b'i']);

    let mut s = Serializer::new();
    s.serialize_none();
    assert_eq!(s.into_bytes(), vec![0x01]);

    let mut s = Serializer::new();
    s.serialize_f64(1.0f64.to_bits());
    assert_eq!(s.into_bytes(), vec![0x02, 0x3f, 0xf0, 0, 0, 0, 0, 0, 0]);
}

#[test]
fn serializer_streams_a_map() {
    let mut s = Serializer::new();
    s.serialize_map(Some(1)).unwrap();
    s.serialize_key("k");
    s.serialize_bool(false);
    let bytes = s.into_bytes();
    assert_eq!(bytes, vec![0x07, 0x01, 0x01, b'k', 0x03, 0x00]);
    let (v, _) = parse_bson(&bytes, 0).unwrap();
    let mut expected = ObjectMap::new();
    expected.insert(String::from("k"), Value::Boolean(false));
    assert_eq!(v, Value::Object(expected));
}

#[test]
fn serializer_bytes_become_an_integer_array() {
    let mut s = Serializer::new();
    s.serialize_bytes(&[0x01, 0xff]);
    let bytes = s.into_bytes();
    assert_eq!(bytes, vec![0x06, 0x02, 0x04, 0x02, 0x04, 0x83, 0x7e]);
    let (v, _) = parse_bson(&bytes, 0).unwrap();
    assert_eq!(v, Value::Array(vec![Value::Integer(1), Value::Integer(255)]));
}

#[test]
fn serializer_u64_overflow() {
    let mut s = Serializer::new();
    s.serialize_u64(5).unwrap();
    let e = s.serialize_u64(u64::MAX).expect_err("out-of-range u64 must fail");
    assert_eq!(e.kind, ErrorKind::IntegerOverflow);
}

#[test]
fn serializer_needs_definite_lengths() {
    let mut s = Serializer::new();
    let e = s.serialize_seq(None).expect_err("unknown sequence length must fail");
    assert_eq!(e.kind, ErrorKind::UnsupportedShape);
    let e = s.serialize_map(None).expect_err("unknown map length must fail");
    assert_eq!(e.kind, ErrorKind::UnsupportedShape);
    s.serialize_seq(Some(0)).unwrap();
    assert_eq!(s.into_bytes(), vec![0x06, 0x00]);
}

#[test]
fn nesting_within_the_allowance_parses() {
    // 512 nested arrays, innermost holding an empty value
    let mut bytes: Vec<u8> = Vec::new();
    for _ in 0..512 {
        bytes.push(0x06);
        bytes.push(0x01);
    }
    bytes.push(0x01);
    let (_, end) = parse_bson(&bytes, 0).expect("nesting at the allowance must parse");
    assert_eq!(end, bytes.len());
}

#[test]
fn nesting_past_the_allowance_is_rejected() {
    let mut bytes: Vec<u8> = Vec::new();
    for _ in 0..513 {
        bytes.push(0x06);
        bytes.push(0x01);
    }
    bytes.push(0x01);
    let e = parse_bson(&bytes, 0).expect_err("nesting past the allowance must fail");
    assert_eq!(e.kind, ErrorKind::DepthLimit);
}

#[test]
fn value_default_and_duplicate() {
    assert_eq!(Value::default(), Value::Empty);
    let v = Value::Array(vec![Value::String(String::from("x")), Value::Integer(3)]);
    assert_eq!(v.duplicate(), v);
}
