use soml::ser::error::{ErrorKind, Result};
use soml::ser::value::Serializer;

fn written(f: impl FnOnce(Serializer<'_>) -> Result<()>) -> String {
    let mut buf = String::new();
    f(Serializer::new(&mut buf)).unwrap();
    buf
}

fn failure(f: impl FnOnce(Serializer<'_>) -> Result<()>) -> ErrorKind {
    let mut buf = String::new();
    let r = f(Serializer::new(&mut buf));
    assert_eq!(buf, "");
    r.unwrap_err().kind().clone()
}

#[test]
fn value_serializer_new() {
    let mut buf = String::from("x = ");
    let serializer = Serializer::new(&mut buf);
    serializer.serialize_bool(true).unwrap();
    assert_eq!(buf, "x = true");
}

#[test]
fn value_serializer_serialize_bool() {
    assert_eq!(written(|s| s.serialize_bool(true)), "true");
    assert_eq!(written(|s| s.serialize_bool(false)), "false");
}

#[test]
fn value_serializer_serialize_i8() {
    assert_eq!(written(|s| s.serialize_i8(42)), "42");
    assert_eq!(written(|s| s.serialize_i8(-12)), "-12");
}

#[test]
fn value_serializer_serialize_i16() {
    assert_eq!(written(|s| s.serialize_i16(42)), "42");
    assert_eq!(written(|s| s.serialize_i16(-12)), "-12");
}

#[test]
fn value_serializer_serialize_i32() {
    assert_eq!(written(|s| s.serialize_i32(42)), "42");
    assert_eq!(written(|s| s.serialize_i32(-12)), "-12");
}

#[test]
fn value_serializer_serialize_i64() {
    assert_eq!(written(|s| s.serialize_i64(42)), "42");
    assert_eq!(written(|s| s.serialize_i64(-12)), "-12");
}

#[test]
fn value_serializer_serialize_i128() {
    assert_eq!(written(|s| s.serialize_i128(42)), "42");
    assert_eq!(written(|s| s.serialize_i128(-12)), "-12");
}

#[test]
fn value_serializer_serialize_u8() {
    assert_eq!(written(|s| s.serialize_u8(42)), "42");
    assert_eq!(written(|s| s.serialize_u8(12)), "12");
}

#[test]
fn value_serializer_serialize_u16() {
    assert_eq!(written(|s| s.serialize_u16(42)), "42");
    assert_eq!(written(|s| s.serialize_u16(12)), "12");
}

#[test]
fn value_serializer_serialize_u32() {
    assert_eq!(written(|s| s.serialize_u32(42)), "42");
    assert_eq!(written(|s| s.serialize_u32(12)), "12");
}

#[test]
fn value_serializer_serialize_u64() {
    assert_eq!(written(|s| s.serialize_u64(42)), "42");
    assert_eq!(written(|s| s.serialize_u64(12)), "12");
}

#[test]
fn value_serializer_serialize_u128() {
    assert_eq!(written(|s| s.serialize_u128(42)), "42");
    assert_eq!(written(|s| s.serialize_u128(12)), "12");
}

#[test]
fn value_serializer_integer_extremes() {
    assert_eq!(written(|s| s.serialize_i8(i8::MIN)), "-128");
    assert_eq!(written(|s| s.serialize_i64(i64::MIN)), "-9223372036854775808");
    assert_eq!(written(|s| s.serialize_i128(i128::MIN)), "-170141183460469231731687303715884105728");
    assert_eq!(written(|s| s.serialize_u128(u128::MAX)), "340282366920938463463374607431768211455");
    assert_eq!(written(|s| s.serialize_u64(0)), "0");
}

#[test]
fn value_serializer_serialize_char() {
    assert_eq!(written(|s| s.serialize_char('a')), r#""a""#);
    assert_eq!(written(|s| s.serialize_char('😎')), r#""😎""#);
    assert_eq!(written(|s| s.serialize_char('\n')), "\"\"\"\n\n\"\"\"");
}

#[test]
fn value_serializer_serialize_str() {
    assert_eq!(written(|s| s.serialize_str("foo")), r#""foo""#);
    assert_eq!(written(|s| s.serialize_str("😎")), r#""😎""#);
    assert_eq!(written(|s| s.serialize_str("abc\ndef\n")), "\"\"\"\nabc\ndef\n\"\"\"");
}

#[test]
fn value_serializer_serialize_bytes() {
    assert_eq!(written(|s| s.serialize_bytes(b"foo")), "[102, 111, 111]");
    assert_eq!(written(|s| s.serialize_bytes(b"\xF0\x9F\x98\x8E")), "[240, 159, 152, 142]");
    assert_eq!(written(|s| s.serialize_bytes(b"abc\ndef\n")), "[97, 98, 99, 10, 100, 101, 102, 10]");
    assert_eq!(written(|s| s.serialize_bytes(b"")), "[]");
}

#[test]
fn value_serializer_serialize_none() {
    assert!(matches!(failure(|s| s.serialize_none()), ErrorKind::UnsupportedValue(..)));
}

#[test]
fn value_serializer_serialize_unit() {
    assert!(matches!(failure(|s| s.serialize_unit()), ErrorKind::UnsupportedType(..)));
}

#[test]
fn value_serializer_serialize_unit_struct() {
    assert!(matches!(failure(|s| s.serialize_unit_struct("name")), ErrorKind::UnsupportedType(..)));
}

#[test]
fn value_serializer_serialize_unit_variant() {
    assert_eq!(written(|s| s.serialize_unit_variant("name", 0, "foo")), r#""foo""#);
}

#[test]
fn value_serializer_serialize_seq() {
    let mut buf = String::new();
    let mut seq = Serializer::new(&mut buf).serialize_seq().unwrap();
    Serializer::new(seq.element()).serialize_i32(42).unwrap();
    Serializer::new(seq.element()).serialize_str("foo").unwrap();
    seq.end().unwrap();
    assert_eq!(buf, r#"[42, "foo"]"#);
}

#[test]
fn value_serializer_serialize_tuple() {
    let mut buf = String::new();
    let mut seq = Serializer::new(&mut buf).serialize_seq().unwrap();
    Serializer::new(seq.element()).serialize_i64(42).unwrap();
    Serializer::new(seq.element()).serialize_str("foo").unwrap();
    seq.end().unwrap();
    assert_eq!(buf, r#"[42, "foo"]"#);
}

#[test]
fn value_serializer_serialize_tuple_struct() {
    let mut buf = String::new();
    let mut seq = Serializer::new(&mut buf).serialize_seq().unwrap();
    Serializer::new(seq.element()).serialize_u8(42).unwrap();
    Serializer::new(seq.element()).serialize_str("foo").unwrap();
    seq.end().unwrap();
    assert_eq!(buf, r#"[42, "foo"]"#);
}

#[test]
fn value_serializer_serialize_tuple_variant() {
    let mut buf = String::new();
    let mut seq = Serializer::new(&mut buf).serialize_tuple_variant("foo").unwrap();
    Serializer::new(seq.field()).serialize_i32(42).unwrap();
    Serializer::new(seq.field()).serialize_str("bar").unwrap();
    seq.end().unwrap();
    assert_eq!(buf, r#"{ foo = [42, "bar"] }"#);
}

#[test]
fn value_serializer_serialize_map() {
    let mut buf = String::new();
    let mut map = Serializer::new(&mut buf).serialize_map().unwrap();
    map.key().push_str("foo");
    Serializer::new(map.value()).serialize_i32(42).unwrap();
    map.key().push_str("bar");
    Serializer::new(map.value()).serialize_str("baz").unwrap();
    map.end().unwrap();
    assert_eq!(buf, r#"{ foo = 42, bar = "baz" }"#);
}

#[test]
fn value_serializer_serialize_struct() {
    let mut buf = String::new();
    let mut map = Serializer::new(&mut buf).serialize_map().unwrap();
    soml::ser::writer::Formatter::write_key("foo", map.key());
    Serializer::new(map.value()).serialize_i32(42).unwrap();
    soml::ser::writer::Formatter::write_key("bar", map.key());
    Serializer::new(map.value()).serialize_str("baz").unwrap();
    map.end().unwrap();
    assert_eq!(buf, r#"{ foo = 42, bar = "baz" }"#);
}

#[test]
fn value_serializer_serialize_struct_variant() {
    let mut buf = String::new();
    let mut t = Serializer::new(&mut buf).serialize_struct_variant("foo").unwrap();
    Serializer::new(t.field("bar")).serialize_i32(42).unwrap();
    Serializer::new(t.field("baz")).serialize_str("qux").unwrap();
    t.end().unwrap();
    assert_eq!(buf, r#"{ foo = { bar = 42, baz = "qux" } }"#);
}

#[test]
fn value_serializer_keys_are_quoted_when_needed() {
    let mut buf = String::new();
    let mut t = Serializer::new(&mut buf).serialize_struct_variant("a b").unwrap();
    Serializer::new(t.field("c.d")).serialize_bool(false).unwrap();
    t.end().unwrap();
    assert_eq!(buf, r#"{ "a b" = { "c.d" = false } }"#);
}
