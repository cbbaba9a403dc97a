use soml::ser::error::ErrorKind;
use soml::ser::tree::{
    ArraySerializer, InlineArraySerializer, InlineSerializer, InlineTableSerializer, Serializer, Table,
    TableSerializer, Value, WrappedArraySerializer, WrappedTableSerializer,
};

fn inline(s: &str) -> Value {
    Value::Inline(s.to_string())
}

fn entries(e: Vec<(&str, Value)>) -> Vec<(String, Value)> {
    e.into_iter().map(|(k, v)| (k.to_string(), v)).collect()
}

#[test]
fn tree_serializer_serialize_bool() {
    assert_eq!(Serializer.serialize_bool(true).unwrap(), inline("true"));
    assert_eq!(Serializer.serialize_bool(false).unwrap(), inline("false"));
}

#[test]
fn tree_serializer_serialize_i8() {
    assert_eq!(Serializer.serialize_integer(&42i8).unwrap(), inline("42"));
    assert_eq!(Serializer.serialize_integer(&-12i8).unwrap(), inline("-12"));
}

#[test]
fn tree_serializer_serialize_i16() {
    assert_eq!(Serializer.serialize_integer(&42i16).unwrap(), inline("42"));
    assert_eq!(Serializer.serialize_integer(&-12i16).unwrap(), inline("-12"));
}

#[test]
fn tree_serializer_serialize_i32() {
    assert_eq!(Serializer.serialize_integer(&42i32).unwrap(), inline("42"));
    assert_eq!(Serializer.serialize_integer(&-12i32).unwrap(), inline("-12"));
}

#[test]
fn tree_serializer_serialize_i64() {
    assert_eq!(Serializer.serialize_integer(&42i64).unwrap(), inline("42"));
    assert_eq!(Serializer.serialize_integer(&-12i64).unwrap(), inline("-12"));
}

#[test]
fn tree_serializer_serialize_i128() {
    assert_eq!(Serializer.serialize_integer(&42i128).unwrap(), inline("42"));
    assert_eq!(Serializer.serialize_integer(&-12i128).unwrap(), inline("-12"));
}

#[test]
fn tree_serializer_serialize_u8() {
    assert_eq!(Serializer.serialize_integer(&42u8).unwrap(), inline("42"));
    assert_eq!(Serializer.serialize_integer(&12u8).unwrap(), inline("12"));
}

#[test]
fn tree_serializer_serialize_u16() {
    assert_eq!(Serializer.serialize_integer(&42u16).unwrap(), inline("42"));
    assert_eq!(Serializer.serialize_integer(&12u16).unwrap(), inline("12"));
}

#[test]
fn tree_serializer_serialize_u32() {
    assert_eq!(Serializer.serialize_integer(&42u32).unwrap(), inline("42"));
    assert_eq!(Serializer.serialize_integer(&12u32).unwrap(), inline("12"));
}

#[test]
fn tree_serializer_serialize_u64() {
    assert_eq!(Serializer.serialize_integer(&42u64).unwrap(), inline("42"));
    assert_eq!(Serializer.serialize_integer(&12u64).unwrap(), inline("12"));
}

#[test]
fn tree_serializer_serialize_u128() {
    assert_eq!(Serializer.serialize_integer(&42u128).unwrap(), inline("42"));
    assert_eq!(Serializer.serialize_integer(&12u128).unwrap(), inline("12"));
}

#[test]
fn tree_serializer_serialize_char() {
    assert_eq!(Serializer.serialize_char('a').unwrap(), inline(r#""a""#));
    assert_eq!(Serializer.serialize_char('😎').unwrap(), inline(r#""😎""#));
    assert_eq!(Serializer.serialize_char('\n').unwrap(), inline("\"\"\"\n\n\"\"\""));
}

#[test]
fn tree_serializer_serialize_str() {
    assert_eq!(Serializer.serialize_str("foo").unwrap(), inline(r#""foo""#));
    assert_eq!(Serializer.serialize_str("😎").unwrap(), inline(r#""😎""#));
    assert_eq!(Serializer.serialize_str("abc\ndef\n").unwrap(), inline("\"\"\"\nabc\ndef\n\"\"\""));
}

#[test]
fn tree_serializer_serialize_bytes() {
    assert_eq!(Serializer.serialize_bytes(b"foo").unwrap(), inline("[102, 111, 111]"));
    assert_eq!(Serializer.serialize_bytes(b"\xF0\x9F\x98\x8E").unwrap(), inline("[240, 159, 152, 142]"));
    assert_eq!(
        Serializer.serialize_bytes(b"abc\ndef\n").unwrap(),
        inline("[97, 98, 99, 10, 100, 101, 102, 10]")
    );
}

#[test]
fn tree_serializer_serialize_none() {
    let r = Serializer.serialize_none();
    assert!(matches!(r, Err(e) if matches!(e.kind(), ErrorKind::UnsupportedValue(..))));
}

#[test]
fn tree_serializer_serialize_unit() {
    let r = Serializer.serialize_unit();
    assert!(matches!(r, Err(e) if matches!(e.kind(), ErrorKind::UnsupportedType(..))));
}

#[test]
fn tree_serializer_serialize_unit_variant() {
    assert_eq!(Serializer.serialize_unit_variant("name", 0, "foo").unwrap(), inline(r#""foo""#));
}

#[test]
fn array_serializer_seq() {
    let mut array = ArraySerializer::start(None);
    assert!(array.arr.is_empty());
    assert_eq!(array.arr.capacity(), 0);
    array.push(Serializer.serialize_integer(&42i32).unwrap());
    assert_eq!(array.arr.len(), 1);
    array.push(Serializer.serialize_str("foo").unwrap());
    assert_eq!(array.arr.len(), 2);
    assert_eq!(array.end().unwrap(), inline(r#"[42, "foo"]"#));
}

#[test]
fn array_serializer_tuple() {
    let mut array = ArraySerializer::start(Some(2));
    assert!(array.arr.is_empty());
    assert_eq!(array.arr.capacity(), 2);
    array.push(Serializer.serialize_integer(&42u8).unwrap());
    array.push(Serializer.serialize_str("foo").unwrap());
    assert_eq!(array.arr.len(), 2);
    assert_eq!(array.end().unwrap(), inline(r#"[42, "foo"]"#));
}

#[test]
fn array_serializer_tuple_struct() {
    let mut array = ArraySerializer::start(Some(2));
    array.push(Serializer.serialize_integer(&42i64).unwrap());
    array.push(Serializer.serialize_str("foo").unwrap());
    assert_eq!(array.end().unwrap(), inline(r#"[42, "foo"]"#));
}

#[test]
fn array_serializer_array_of_tables() {
    let mut array = ArraySerializer::start(None);
    let mut t = TableSerializer::start(None);
    t.serialize_entry("foo".to_string(), Serializer.serialize_str("bar").unwrap());
    array.push(t.end());
    let mut t = TableSerializer::start(None);
    t.serialize_entry("baz".to_string(), Serializer.serialize_str("qux").unwrap());
    array.push(t.end());
    assert_eq!(array.arr.len(), 2);
    assert_eq!(
        array.end().unwrap(),
        Value::Table(Table::Array(vec![
            entries(vec![("foo", inline(r#""bar""#))]),
            entries(vec![("baz", inline(r#""qux""#))]),
        ]))
    );
}

#[test]
fn array_serializer_mixed_and_empty() {
    // A table among other values makes an inline array, the table written inline.
    let mut array = ArraySerializer::start(None);
    array.push(inline("1"));
    array.push(Value::Table(Table::Table(entries(vec![("a", inline("2"))]))));
    assert_eq!(array.end().unwrap(), inline("[1, { a = 2 }]"));

    assert_eq!(ArraySerializer::start(None).end().unwrap(), inline("[]"));
}

#[test]
fn tree_wrapped_array_serializer() {
    let mut array = WrappedArraySerializer::start("foo", 2);
    assert_eq!(array.key, "foo");
    assert!(array.arr.arr.is_empty());
    array.arr.push(Serializer.serialize_integer(&42i32).unwrap());
    array.arr.push(Serializer.serialize_str("bar").unwrap());
    assert_eq!(array.arr.arr.len(), 2);
    assert_eq!(array.end_inner().unwrap(), ("foo".to_string(), inline(r#"[42, "bar"]"#)));
}

#[test]
fn tree_table_serializer_map() {
    let mut table = TableSerializer::start(None);
    assert!(table.key.is_none());
    assert!(table.table.is_empty());

    table.serialize_key("foo".to_string());
    assert!(table.key.is_some());
    assert!(table.table.is_empty());

    table.serialize_value(Serializer.serialize_integer(&42i32).unwrap());
    assert!(table.key.is_none());
    assert_eq!(table.table.len(), 1);

    table.serialize_entry("bar".to_string(), Serializer.serialize_str("baz").unwrap());
    assert!(table.key.is_none());
    assert_eq!(table.table.len(), 2);

    assert_eq!(
        table.end(),
        Value::Table(Table::Table(entries(vec![("foo", inline("42")), ("bar", inline(r#""baz""#))])))
    );
}

#[test]
fn tree_table_serializer_struct() {
    let mut table = TableSerializer::start(Some(2));
    assert_eq!(table.table.capacity(), 2);
    table.serialize_entry("foo".to_string(), Serializer.serialize_integer(&42i32).unwrap());
    assert_eq!(table.table.len(), 1);
    table.serialize_entry("bar".to_string(), Serializer.serialize_str("baz").unwrap());
    assert_eq!(table.table.len(), 2);
    assert_eq!(
        table.end_inner(),
        entries(vec![("foo", inline("42")), ("bar", inline(r#""baz""#))])
    );
}

#[test]
fn tree_wrapped_table_serializer() {
    let mut table = WrappedTableSerializer::start("foo", 2);
    assert_eq!(table.key, "foo");
    assert!(table.table.key.is_none());
    assert!(table.table.table.is_empty());
    table.table.serialize_entry("bar".to_string(), Serializer.serialize_integer(&42i32).unwrap());
    table.table.serialize_entry("baz".to_string(), Serializer.serialize_str("qux").unwrap());
    assert_eq!(table.table.table.len(), 2);
    assert_eq!(
        table.end(),
        Value::Table(Table::Table(entries(vec![(
            "foo",
            Value::Table(Table::Table(entries(vec![("bar", inline("42")), ("baz", inline(r#""qux""#))])))
        )])))
    );
}

#[test]
fn inline_serializer_serialize_str() {
    let mut buf = String::new();
    InlineSerializer::new(&mut buf).serialize_str("foo").unwrap();
    assert_eq!(buf, "foo");

    let mut buf = String::new();
    InlineSerializer::new(&mut buf).serialize_str("😎").unwrap();
    assert_eq!(buf, "😎");
}

#[test]
fn inline_serializer_serialize_seq() {
    let mut buf = String::new();
    let array = InlineSerializer::new(&mut buf).serialize_seq().unwrap();
    assert!(array.first);
    array.end().unwrap();
    assert_eq!(buf, "[]");
}

#[test]
fn inline_serializer_serialize_map() {
    let mut buf = String::new();
    let table = InlineSerializer::new(&mut buf).serialize_map().unwrap();
    assert!(table.first);
    table.end().unwrap();
    assert_eq!(buf, "{  }");
}

#[test]
fn inline_serializer_serialize_value() {
    let mut buf = String::new();
    let v = Value::Table(Table::Array(vec![
        entries(vec![("a", inline("1")), ("b", inline("2"))]),
        Vec::new(),
    ]));
    InlineSerializer::new(&mut buf).serialize_value(&v).unwrap();
    assert_eq!(buf, "[{ a = 1, b = 2 }, {  }]");
}

#[test]
fn inline_array_serializer() {
    let mut buf = String::new();
    let mut array = InlineArraySerializer::start(&mut buf);
    array.element().push_str("42");
    array.element().push_str(r#""foo""#);
    array.end().unwrap();
    assert_eq!(buf, r#"[42, "foo"]"#);
}

#[test]
fn inline_table_serializer() {
    let mut buf = String::new();
    let mut table = InlineTableSerializer::start(&mut buf);
    table.key().push_str("foo");
    table.value().push_str("42");
    table.key().push_str("bar");
    table.value().push_str(r#""baz""#);
    table.end().unwrap();
    assert_eq!(buf, r#"{ foo = 42, bar = "baz" }"#);
}
