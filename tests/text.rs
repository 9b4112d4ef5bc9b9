use emp::argument::{resolve_arguments, ArgumentOptions};
use emp::errors::{display_decode_error, display_parse_error, DecodeError, ParseError};
use emp::value::display::{display, floats_of};
use emp::value::parse::{float_literal, lex, parse};
use emp::value::{integer_value, insert_entry, Value};

fn parse_text(s: &str) -> Result<Value, ParseError> {
    let tokens = lex(s)?;
    let floats: Vec<Option<u64>> = vec![None; tokens.len()];
    parse(&tokens, &floats).map(|(v, _)| v)
}

#[test]
fn escaped_quote_round_trip() {
    let tokens = lex("\"a\\\"b\"").expect("lexes");
    assert_eq!(tokens, vec!["\"a\"b\"".to_string()]);
    let v = parse_text("\"a\\\"b\"").expect("parses");
    assert_eq!(v, Value::String("a\"b".to_string()));
    assert_eq!(display(&v, &[]), "\"a\\\"b\"");
}

#[test]
fn duplicate_keys_keep_last() {
    let v = parse_text("{\"x\": 1, \"x\": 2}").expect("parses");
    assert_eq!(v, Value::Object(vec![("x".to_string(), Value::Int32(2))]));
}

#[test]
fn lexes_all_token_kinds() {
    let t = lex(" [1b, -2.5f, null,true\tfalse\n{\"k\": 7l}]\r").expect("lexes");
    let want = vec!["[", "1b", ",", "-2.5f", ",", "null", ",", "true", "false", "{", "\"k\"", ":", "7l", "}", "]"];
    assert_eq!(t, want.iter().map(|s| s.to_string()).collect::<Vec<_>>());
}

#[test]
fn parses_suffixed_numbers() {
    assert_eq!(parse_text("1b").unwrap(), Value::Bit(true));
    assert_eq!(parse_text("0b").unwrap(), Value::Bit(false));
    assert_eq!(parse_text("-128B").unwrap(), Value::Int8(-128));
    assert_eq!(parse_text("300s").unwrap(), Value::Int16(300));
    assert_eq!(parse_text("-9000000000l").unwrap(), Value::Int64(-9000000000));
    assert_eq!(parse_text("2147483647").unwrap(), Value::Int32(i32::MAX));
    assert_eq!(parse_text("[]").unwrap(), Value::Array(vec![]));
    assert_eq!(parse_text("{}").unwrap(), Value::Object(vec![]));
}

#[test]
fn float_literals_take_given_bits() {
    let tokens = lex("[1.5f, 2d]").unwrap();
    let floats = vec![None, Some(0x3fc0_0000), None, Some(0x4000_0000_0000_0000), None];
    let (v, rest) = parse(&tokens, &floats).unwrap();
    assert!(rest.is_empty());
    assert_eq!(v, Value::Array(vec![Value::Float(0x3fc0_0000), Value::Double(0x4000_0000_0000_0000)]));
    assert!(matches!(parse_text("1.5f"), Err(ParseError::InvalidNumberError('f'))));
    assert_eq!(float_literal(&"-1.5f".to_string()), Some(("-1.5".to_string(), false)));
    assert_eq!(float_literal(&"2d".to_string()), Some(("2".to_string(), true)));
    assert_eq!(float_literal(&"2s".to_string()), None);
}

#[test]
fn parse_errors() {
    assert!(matches!(parse_text("@"), Err(ParseError::UnexpectedCharacterError('@'))));
    match parse_text("[1 2]") {
        Err(ParseError::UnexpectedTokenError(t)) => assert_eq!(t, "2"),
        other => panic!("unexpected {:?}", other),
    }
    match parse_text("{1: 2}") {
        Err(ParseError::InvalidKeyError(v)) => assert_eq!(v, Value::Int32(1)),
        other => panic!("unexpected {:?}", other),
    }
    assert!(matches!(parse_text("300B"), Err(ParseError::InvalidNumberError('B'))));
    assert!(matches!(parse_text("1.5"), Err(ParseError::InvalidNumberError('5'))));
    assert!(matches!(parse_text("[1,"), Err(ParseError::EOFError)));
    assert!(matches!(parse_text("\"abc"), Err(ParseError::EOFError)));
    assert!(matches!(parse_text(""), Err(ParseError::EOFError)));
}

#[test]
fn writes_every_kind() {
    let v = Value::Array(vec![
        Value::Null,
        Value::Boolean(false),
        Value::Bit(true),
        Value::Int8(-3),
        Value::Int16(12),
        Value::Int32(-40),
        Value::Int64(5),
        Value::Float(0x3fc0_0000),
        Value::Double(7),
        Value::Object(vec![("k".to_string(), Value::String("v".to_string()))]),
    ]);
    let table = vec![(0x3fc0_0000u64, false, "1.5".to_string()), (7u64, true, "3.5e-323".to_string())];
    assert_eq!(
        display(&v, &table),
        "[null, false, 1b, -3B, 12s, -40, 5l, 1.5f, 3.5e-323d, {\"k\": \"v\"}]"
    );
    assert_eq!(floats_of(&v), vec![(0x3fc0_0000u64, false), (7u64, true)]);
}

#[test]
fn text_round_trip() {
    let v = Value::Object(vec![
        ("a".to_string(), Value::Array(vec![Value::Int32(1), Value::Int8(-2), Value::Bit(false)])),
        ("b".to_string(), Value::String("q\"uote".to_string())),
        ("c".to_string(), Value::Int64(i64::MIN)),
    ]);
    let text = display(&v, &[]);
    assert_eq!(parse_text(&text).unwrap(), v);
}

#[test]
fn error_messages() {
    assert_eq!(display_decode_error(&DecodeError::UnexpectedByteError(0x6f, 12), &[]), "Unexpected Byte: 0x6f at location 12");
    assert_eq!(display_decode_error(&DecodeError::EOFError, &[]), "Unexpected EOF");
    assert_eq!(display_decode_error(&DecodeError::UnmatchedKeyError("k".to_string()), &[]), "Unmatched Key: `k`");
    assert_eq!(display_decode_error(&DecodeError::InvalidKeyError(Value::Int8(1)), &[]), "Invalid Key: `1B`");
    let utf8 = std::str::from_utf8(&[0xFFu8]).unwrap_err();
    assert!(display_decode_error(&DecodeError::StringDecodeError(utf8), &[]).starts_with("Unable to decode string data: "));
    assert_eq!(display_parse_error(&ParseError::UnexpectedCharacterError('@'), &[]), "Unexpected Character: '@'");
    assert_eq!(display_parse_error(&ParseError::UnexpectedTokenError("]".to_string()), &[]), "Unexpected Token: \"]\"");
    assert_eq!(display_parse_error(&ParseError::EOFError, &[]), "Unexpected EOF");
    assert_eq!(display_parse_error(&ParseError::InvalidKeyError(Value::Null), &[]), "Invalid Key: `null`");
    assert_eq!(display_parse_error(&ParseError::InvalidNumberError('B'), &[]), "Could not parse number with signifier: `B`");
}

#[test]
fn arguments() {
    let args = |v: &[&str]| v.iter().map(|s| s.to_string()).collect::<Vec<String>>();
    assert!(matches!(resolve_arguments(&args(&["emp"])), ArgumentOptions::Help));
    match resolve_arguments(&args(&["emp", "-r", "f.emp"])) {
        ArgumentOptions::ReadFromFile(f) => assert_eq!(f, "f.emp"),
        _ => panic!("wrong option"),
    }
    match resolve_arguments(&args(&["emp", "--write", "f", "[1]"])) {
        ArgumentOptions::WriteToFile(f, v) => {
            assert_eq!(f, "f");
            assert_eq!(v, "[1]");
        },
        _ => panic!("wrong option"),
    }
    assert!(matches!(resolve_arguments(&args(&["emp", "-w", "f"])), ArgumentOptions::Help));
    assert!(matches!(resolve_arguments(&args(&["emp", "-fj", "{}"])), ArgumentOptions::FromJSON(_)));
    assert!(matches!(resolve_arguments(&args(&["emp", "--to_json", "1"])), ArgumentOptions::ToJSON(_)));
    assert!(matches!(resolve_arguments(&args(&["emp", "-v"])), ArgumentOptions::Version));
    assert!(matches!(resolve_arguments(&args(&["emp", "-x"])), ArgumentOptions::Help));
}

#[test]
fn integer_narrowing() {
    assert_eq!(integer_value(0), Value::Bit(false));
    assert_eq!(integer_value(1), Value::Bit(true));
    assert_eq!(integer_value(127), Value::Int8(127));
    assert_eq!(integer_value(-128), Value::Int8(-128));
    assert_eq!(integer_value(128), Value::Int16(128));
    assert_eq!(integer_value(70000), Value::Int32(70000));
    assert_eq!(integer_value(-3_000_000_000), Value::Int64(-3_000_000_000));
}

#[test]
fn insert_overwrites_in_place() {
    let mut e = vec![("a".to_string(), Value::Null), ("b".to_string(), Value::Null)];
    insert_entry(&mut e, "a".to_string(), Value::Int8(1));
    insert_entry(&mut e, "c".to_string(), Value::Int8(2));
    assert_eq!(e, vec![("a".to_string(), Value::Int8(1)), ("b".to_string(), Value::Null), ("c".to_string(), Value::Int8(2))]);
}
