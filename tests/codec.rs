use emp::decode::{decode, decode_safe};
use emp::encode::encode;
use emp::errors::DecodeError;
use emp::value::Value;

fn round_trip(v: Value) {
    let bytes = encode(v.clone());
    let (back, rest) = decode(&bytes).expect("decodes");
    assert_eq!(back, v);
    assert!(rest.is_empty());
}

#[test]
fn int32_zero_keeps_one_byte() {
    assert_eq!(encode(Value::Int32(0)), vec![0x39, 0x00]);
}

#[test]
fn int32_extremes_round_trip() {
    round_trip(Value::Int32(i32::MIN));
    round_trip(Value::Int32(i32::MAX));
    round_trip(Value::Int32(-1));
    assert_eq!(encode(Value::Int32(i32::MIN)), vec![0x89, 0x80, 0x00, 0x00, 0x00]);
    assert_eq!(encode(Value::Int32(-5)), vec![0xB9, 0x05]);
}

#[test]
fn other_numbers_round_trip() {
    for v in [i64::MIN, i64::MAX, 0, -1, 256, -65536] {
        round_trip(Value::Int64(v));
    }
    for v in [i16::MIN, i16::MAX, 0, -300] {
        round_trip(Value::Int16(v));
    }
    for v in [i8::MIN, i8::MAX, 0, 1, 15, 16, -1] {
        round_trip(Value::Int8(v));
    }
    for bits in [0u32, 0x3fc0_0000, 0xbfc0_0000, 0x8000_0000, 0xffff_ffff] {
        round_trip(Value::Float(bits));
    }
    for bits in [0u64, 0x3ff8_0000_0000_0000, 0xbff8_0000_0000_0000, u64::MAX] {
        round_trip(Value::Double(bits));
    }
    assert_eq!(encode(Value::Int64(256)), vec![0x6C, 0x01, 0x00]);
    assert_eq!(encode(Value::Float(0xbfc0_0000)), vec![0x8A, 0x3f, 0xc0, 0x00, 0x00]);
}

#[test]
fn array_of_fifteen_is_short() {
    let a: Vec<Value> = (0..15).map(|_| Value::Null).collect();
    let bytes = encode(Value::Array(a));
    assert_eq!(bytes.len(), 16);
    assert_eq!(bytes[0], 0xF2);
    assert_eq!(*bytes.last().unwrap(), 0x05);
}

#[test]
fn array_of_sixteen_is_long() {
    let a: Vec<Value> = (0..16).map(|_| Value::Null).collect();
    let bytes = encode(Value::Array(a));
    assert_eq!(bytes.len(), 18);
    assert_eq!(bytes[0], 0x02);
    assert_eq!(*bytes.last().unwrap(), 0x03);
    round_trip(Value::Array((0..16).map(|i| Value::Int32(i)).collect()));
}

#[test]
fn empty_array_is_long() {
    assert_eq!(encode(Value::Array(vec![])), vec![0x02, 0x03]);
    round_trip(Value::Array(vec![]));
}

#[test]
fn int8_widths() {
    for i in 1..=15i8 {
        assert_eq!(encode(Value::Int8(i)).len(), 1);
    }
    for i in [0i8, -1, -128, 16, 127] {
        assert_eq!(encode(Value::Int8(i)).len(), 2);
    }
    assert_eq!(encode(Value::Int8(5)), vec![0x5E]);
    assert_eq!(encode(Value::Int8(-2)), vec![0x0E, 0xFE]);
}

#[test]
fn truncated_int64_is_eof() {
    let r = decode(&[0x0C, 1, 2, 3]);
    assert!(matches!(r, Err(DecodeError::EOFError)));
}

#[test]
fn example_array_encoding() {
    let v = Value::Array(vec![
        Value::String("hi".to_string()),
        Value::Null,
        Value::Boolean(true),
        Value::Int32(5),
    ]);
    assert_eq!(encode(v), vec![0x42, 0x24, b'h', b'i', 0x05, 0x18, 0x39, 0x05]);
}

#[test]
fn strings_and_objects_round_trip() {
    round_trip(Value::String(String::new()));
    round_trip(Value::String("a fairly long string over fifteen".to_string()));
    let o = Value::Object(vec![
        ("x".to_string(), Value::Int32(1)),
        ("y".to_string(), Value::Array(vec![Value::Bit(true), Value::Bit(false)])),
        ("z".to_string(), Value::Object(vec![])),
    ]);
    round_trip(o);
    let big: Vec<(String, Value)> = (0..20).map(|i| (format!("k{}", i), Value::Int16(i))).collect();
    round_trip(Value::Object(big));
}

#[test]
fn encoding_drops_non_ascii_and_tag_bytes() {
    assert_eq!(encode(Value::String("h\u{e9}i".to_string())), vec![0x24, b'h', b'i']);
    assert_eq!(encode(Value::String("a\u{4}b".to_string())), vec![0x24, b'a', b'b']);
}

#[test]
fn decodes_utf8_payload() {
    let r = decode(&[0x34, b'h', 0xC3, 0xA9]).expect("valid");
    assert_eq!(r.0, Value::String("h\u{e9}".to_string()));
}

#[test]
fn decode_errors() {
    assert!(matches!(decode(&[]), Err(DecodeError::EOFError)));
    assert!(matches!(decode(&[0x06, 0x00]), Err(DecodeError::UnexpectedByteError(0x06, 2))));
    assert!(matches!(decode(&[0x15]), Err(DecodeError::UnexpectedByteError(0x15, 1))));
    match decode(&[0x00, 0x14, b'k', 0x01]) {
        Err(DecodeError::UnmatchedKeyError(k)) => assert_eq!(k, "k"),
        other => panic!("unexpected {:?}", other),
    }
    assert!(matches!(decode(&[0x14, 0xFF]), Err(DecodeError::StringDecodeError(_))));
    match decode(&[0x10, 0x05, 0x05]) {
        Err(DecodeError::InvalidKeyError(v)) => assert_eq!(v, Value::Null),
        other => panic!("unexpected {:?}", other),
    }
    assert!(matches!(decode(&[0x32, 0x05]), Err(DecodeError::EOFError)));
    assert!(matches!(decode(&[0x02, 0x05]), Err(DecodeError::EOFError)));
    assert!(matches!(decode(&[0x04, b'a']), Err(DecodeError::EOFError)));
    assert!(matches!(decode(&[0x0E]), Err(DecodeError::EOFError)));
}

#[test]
fn decode_reports_the_rest() {
    let (v, rest) = decode(&[0x05, 0x18, 0x07]).expect("ok");
    assert_eq!(v, Value::Null);
    assert_eq!(rest, &[0x18, 0x07]);
}

#[test]
fn long_object_keeps_last_write() {
    let bytes = [0x00, 0x14, b'x', 0x1E, 0x14, b'x', 0x2E, 0x01];
    let (v, _) = decode(&bytes).expect("ok");
    assert_eq!(v, Value::Object(vec![("x".to_string(), Value::Int8(2))]));
}

#[test]
fn clone_is_deep() {
    let v = Value::Object(vec![("a".to_string(), Value::Array(vec![Value::Int8(3), Value::String("s".to_string())]))]);
    let c = v.clone();
    assert_eq!(c, v);
}

#[test]
fn decode_safe_gives_null_on_error() {
    assert_eq!(decode_safe(&[0x06]), Value::Null);
    assert_eq!(decode_safe(&[0x18]), Value::Boolean(true));
}
