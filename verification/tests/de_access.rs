use soml::de::error::{ErrorKind, IntegerError};
use soml::de::number::{parse_binary, parse_hexadecimal, parse_integer, parse_octal};
use soml::de::value::{Table, Value};
use soml::de::{integer_value, Deserializer, EnumAccess, MapAccess, SeqAccess, ValueDeserializer};

fn integer(s: &str) -> Value {
    Value::Integer(s.as_bytes().to_vec())
}

fn table(entries: Vec<(&str, Value)>) -> Table {
    entries.into_iter().map(|(k, v)| (k.to_string(), v)).collect()
}

fn three_entries() -> Table {
    table(vec![("abc", integer("123")), ("def", integer("456")), ("ghi", integer("789"))])
}

fn as_i32(value: &Value) -> i32 {
    match integer_value::<i32>(value) {
        Some(Ok(n)) => n,
        other => panic!("not an i32: {other:?}"),
    }
}

fn is_invalid_integer<T: std::fmt::Debug>(r: soml::de::error::Result<T>) -> bool {
    matches!(r, Err(e) if matches!(e.kind(), ErrorKind::InvalidInteger(..)))
}

#[test]
fn value_deserializer_new() {
    let deserializer = ValueDeserializer::new(Value::String("hello".into()));
    assert_eq!(deserializer.value, Value::String("hello".into()));
}

#[test]
fn deserializer_from_str() {
    let mut deserializer = Deserializer::from_str("abc = 123");
    assert_eq!(deserializer.parse().unwrap(), Value::Table(table(vec![("abc", integer("123"))])));
}

#[test]
fn deserializer_from_slice() {
    let mut deserializer = Deserializer::from_slice(b"abc = 123");
    assert_eq!(deserializer.parse().unwrap(), Value::Table(table(vec![("abc", integer("123"))])));
}

#[test]
fn seq_access_new() {
    let array = vec!["123", "456", "789"];
    let mut seq = SeqAccess::new(array.clone());
    let mut values = Vec::new();
    while let Some(v) = seq.next() {
        values.push(v);
    }
    assert_eq!(values, array);
}

#[test]
fn seq_access_next_element() {
    let array = vec![integer("123"), integer("456"), integer("789")];
    let mut seq = SeqAccess::new(array);
    assert_eq!(seq.next().map(|v| as_i32(&v)), Some(123));
    assert_eq!(seq.next().map(|v| as_i32(&v)), Some(456));
    assert_eq!(seq.next().map(|v| as_i32(&v)), Some(789));
    assert_eq!(seq.next(), None);

    let array = vec![
        table(vec![("abc", integer("123"))]),
        table(vec![("def", integer("456"))]),
        table(vec![("ghi", integer("789"))]),
    ];
    let mut seq = SeqAccess::new(array);
    assert_eq!(seq.next(), Some(table(vec![("abc", integer("123"))])));
    assert_eq!(seq.next(), Some(table(vec![("def", integer("456"))])));
    assert_eq!(seq.next(), Some(table(vec![("ghi", integer("789"))])));
    assert_eq!(seq.next(), None);
}

#[test]
fn seq_access_size_hint() {
    let array = vec![integer("123"), integer("456"), integer("789")];
    let mut seq = SeqAccess::new(array);
    assert_eq!(seq.size_hint(), Some(3));
    let _ = seq.next();
    assert_eq!(seq.size_hint(), Some(2));

    let array = vec![
        table(vec![("abc", integer("123"))]),
        table(vec![("def", integer("456"))]),
        table(vec![("ghi", integer("789"))]),
    ];
    let seq = SeqAccess::new(array);
    assert_eq!(seq.size_hint(), Some(3));
}

#[test]
fn map_access_new() {
    let mut map = MapAccess::new(three_entries());
    let mut entries = Vec::new();
    while let Some(e) = map.next_entry() {
        entries.push(e);
    }
    assert_eq!(entries, three_entries());
}

#[test]
fn map_access_next_key_value() {
    let mut map = MapAccess::new(three_entries());
    let mut entries: Vec<(String, i32)> = Vec::new();
    assert!(!map.has_pending_value());
    while let Some(key) = map.next_key() {
        assert!(map.has_pending_value());
        let value = map.next_value();
        assert!(!map.has_pending_value());
        entries.push((key, as_i32(&value)));
    }
    entries.sort();
    assert_eq!(
        entries,
        vec![("abc".to_owned(), 123), ("def".to_owned(), 456), ("ghi".to_owned(), 789)]
    );
    assert_eq!(map.next_key(), None);
}

#[test]
fn map_access_next_entry() {
    let mut map = MapAccess::new(three_entries());
    let mut entries: Vec<(String, i32)> = Vec::new();
    while let Some((key, value)) = map.next_entry() {
        entries.push((key, as_i32(&value)));
    }
    entries.sort();
    assert_eq!(
        entries,
        vec![("abc".to_owned(), 123), ("def".to_owned(), 456), ("ghi".to_owned(), 789)]
    );
    assert_eq!(map.next_key(), None);
}

#[test]
fn map_access_size_hint() {
    let mut map = MapAccess::new(three_entries());
    assert_eq!(map.size_hint(), Some(3));
    let _ = map.next_key();
    assert_eq!(map.size_hint(), Some(2));
}

#[test]
fn enum_access_new() {
    let enum_ = EnumAccess::new(table(vec![("Variant", integer("123"))])).unwrap();
    assert_eq!(enum_.variant, "Variant");
    assert_eq!(enum_.value, integer("123"));

    let r = EnumAccess::new(three_entries());
    assert!(matches!(r, Err(e) if matches!(e.kind(), ErrorKind::InvalidValue(u, x)
        if u == "multiple entries in table" && x == "exactly one key/value pair")));

    let r = EnumAccess::new(Vec::new());
    assert!(matches!(r, Err(e) if matches!(e.kind(), ErrorKind::InvalidValue(u, _) if u == "empty table")));
}

#[test]
fn enum_access_unit_variant() {
    let access = EnumAccess::new(table(vec![("VariantA", Value::Table(Vec::new()))])).unwrap();
    access.unit_variant().unwrap();

    let access = EnumAccess::new(table(vec![("VariantB", integer("123"))])).unwrap();
    assert!(matches!(access.unit_variant(), Err(e) if matches!(e.kind(), ErrorKind::InvalidType(u, x)
        if u == "integer" && x == "empty table")));

    let access =
        EnumAccess::new(table(vec![("VariantC", Value::Array(vec![integer("123"), integer("456")]))])).unwrap();
    assert!(matches!(access.unit_variant(), Err(e) if matches!(e.kind(), ErrorKind::InvalidType(u, _)
        if u == "array")));

    let access = EnumAccess::new(table(vec![(
        "VariantD",
        Value::Table(table(vec![("a", integer("123")), ("b", integer("456"))])),
    )]))
    .unwrap();
    assert!(matches!(access.unit_variant(), Err(e) if matches!(e.kind(), ErrorKind::InvalidType(u, _)
        if u == "table")));
}

#[test]
fn test_parse_integer() {
    assert_eq!(parse_integer::<i32>(b"123").unwrap(), 123);
    // Leading zeros are handled in the parser
    assert_eq!(parse_integer::<i32>(b"0123").unwrap(), 123);
    // Underscores are stripped in the parser
    assert!(is_invalid_integer(parse_integer::<i32>(b"1_2_3")));
    assert!(is_invalid_integer(parse_integer::<i32>(b"123.0")));
}

#[test]
fn test_parse_binary() {
    assert_eq!(parse_binary::<i32>(b"1010").unwrap(), 10);
    assert_eq!(parse_binary::<i32>(b"01010").unwrap(), 10);
    assert!(is_invalid_integer(parse_binary::<i32>(b"1_0_1_0")));
    assert!(is_invalid_integer(parse_binary::<i32>(b"1010.0")));
}

#[test]
fn test_parse_octal() {
    assert_eq!(parse_octal::<i32>(b"123").unwrap(), 83);
    assert_eq!(parse_octal::<i32>(b"0123").unwrap(), 83);
    assert!(is_invalid_integer(parse_octal::<i32>(b"1_2_3")));
    assert!(is_invalid_integer(parse_octal::<i32>(b"123.0")));
}

#[test]
fn test_parse_hexadecimal() {
    assert_eq!(parse_hexadecimal::<i32>(b"123").unwrap(), 291);
    assert_eq!(parse_hexadecimal::<i32>(b"0123").unwrap(), 291);
    assert!(is_invalid_integer(parse_hexadecimal::<i32>(b"1_2_3")));
    assert!(is_invalid_integer(parse_hexadecimal::<i32>(b"123.0")));
}

#[test]
fn integer_bounds_and_signs() {
    assert_eq!(parse_integer::<i8>(b"-128").unwrap(), -128);
    assert_eq!(parse_integer::<i8>(b"+127").unwrap(), 127);
    assert!(matches!(parse_integer::<i8>(b"128"), Err(e)
        if matches!(e.kind(), ErrorKind::InvalidInteger(IntegerError::PosOverflow))));
    assert!(matches!(parse_integer::<i8>(b"-129"), Err(e)
        if matches!(e.kind(), ErrorKind::InvalidInteger(IntegerError::NegOverflow))));
    assert!(matches!(parse_integer::<u8>(b"-1"), Err(e)
        if matches!(e.kind(), ErrorKind::InvalidInteger(IntegerError::InvalidDigit))));
    assert!(matches!(parse_integer::<u32>(b""), Err(e)
        if matches!(e.kind(), ErrorKind::InvalidInteger(IntegerError::Empty))));
    assert!(matches!(parse_integer::<i32>(b"-"), Err(e)
        if matches!(e.kind(), ErrorKind::InvalidInteger(IntegerError::InvalidDigit))));
    assert_eq!(parse_integer::<u128>(b"340282366920938463463374607431768211455").unwrap(), u128::MAX);
    assert_eq!(parse_integer::<i64>(b"-9223372036854775808").unwrap(), i64::MIN);
    assert_eq!(parse_hexadecimal::<u16>(b"ffFF").unwrap(), 0xffff);
    assert!(is_invalid_integer(parse_hexadecimal::<u16>(b"10000")));
    assert!(is_invalid_integer(parse_octal::<u8>(b"8")));
    assert!(is_invalid_integer(parse_binary::<u8>(b"2")));
}

#[test]
fn integer_value_by_radix() {
    assert_eq!(as_i32(&Value::BinaryInt(b"1010".to_vec())), 10);
    assert_eq!(as_i32(&Value::OctalInt(b"123".to_vec())), 83);
    assert_eq!(as_i32(&Value::HexInt(b"123".to_vec())), 291);
    assert!(integer_value::<i32>(&Value::Boolean(true)).is_none());
    assert!(integer_value::<i32>(&Value::Float(b"1.0".to_vec())).is_none());
}
