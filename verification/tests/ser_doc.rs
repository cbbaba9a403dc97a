use soml::ser::error::{Error, ErrorKind};
use soml::ser::tree::{Serializer as TreeSerializer, Table, TableSerializer as TreeTable, Value};
use soml::ser::utils::{KeySerializer, RawStringSerializer};
use soml::ser::Serializer;

fn int_value(n: i32) -> Value {
    TreeSerializer.serialize_integer(&n).unwrap()
}

fn str_value(s: &str) -> Value {
    TreeSerializer.serialize_str(s).unwrap()
}

fn one_entry_table(k: &str, v: Value) -> Value {
    let mut t = TreeTable::start(None);
    t.serialize_entry(k.to_string(), v);
    t.end()
}

#[test]
fn error_debug() {
    let error = Error::from_kind(ErrorKind::UnsupportedValue("foo"));
    assert_eq!(error.debug_string(), r#"Error { type: UnsupportedValue("foo"), .. }"#);
}

#[test]
fn error_display() {
    let error = Error::from_kind(ErrorKind::UnsupportedValue("foo"));
    assert_eq!(error.message(), "unsupported value: foo");
}

#[test]
fn error_custom() {
    let error = Error::custom("foo".to_string());
    assert!(matches!(error.kind(), ErrorKind::Custom(msg) if msg == "foo"));
}

#[test]
fn error_from_error_kind() {
    let err = Error::from_kind(ErrorKind::UnsupportedValue("foo"));
    assert!(matches!(err.kind(), ErrorKind::UnsupportedValue(..)));
}

#[test]
fn error_kind_display() {
    assert_eq!(ErrorKind::UnsupportedValue("foo").message(), "unsupported value: foo");
    assert_eq!(ErrorKind::UnsupportedType("foo").message(), "unsupported type: foo");
    assert_eq!(ErrorKind::DuplicateKey("foo".into()).message(), r#"duplicate key "foo" in table"#);
    assert_eq!(ErrorKind::Io(std::sync::Arc::new(std::io::Error::new(std::io::ErrorKind::NotFound, "foo"))).message(), "IO error: foo");
    assert_eq!(
        ErrorKind::Fmt.message(),
        "formatting error: an error occurred when formatting an argument"
    );
    assert_eq!(ErrorKind::Custom("foo".into()).message(), "foo");
}

#[test]
fn error_kind_debug_string() {
    assert_eq!(ErrorKind::Fmt.debug_string(), "Fmt(Error)");
    assert_eq!(ErrorKind::DuplicateKey("a\"b".into()).debug_string(), r#"DuplicateKey("a\"b")"#);
}

#[test]
fn mod_serializer_new() {
    let mut buf = String::new();
    let serializer = Serializer::new(&mut buf);
    assert_eq!(serializer.writer, "");
}

#[test]
fn serializer_from_fmt_writer() {
    let mut buf = String::new();
    let serializer = Serializer::from_fmt_writer(&mut buf);
    assert_eq!(serializer.writer, "");
}

#[test]
fn mod_serializer_serialize_tuple_variant() {
    let mut buf = String::new();
    let seq = Serializer::new(&mut buf).serialize_tuple_variant("name", 0, "foo", 2).unwrap();
    assert_eq!(seq.key, "foo");
    assert!(seq.arr.arr.is_empty());
}

#[test]
fn mod_serializer_serialize_map() {
    let mut buf = String::new();
    let seq = Serializer::new(&mut buf).serialize_map(Some(2)).unwrap();
    assert!(seq.table.table.is_empty());
    assert!(seq.table.key.is_none());
}

#[test]
fn mod_serializer_serialize_struct() {
    let mut buf = String::new();
    let seq = Serializer::new(&mut buf).serialize_struct("name", 2).unwrap();
    assert!(seq.table.table.is_empty());
}

#[test]
fn mod_serializer_serialize_struct_variant() {
    let mut buf = String::new();
    let seq = Serializer::new(&mut buf).serialize_struct_variant("name", 0, "foo", 2).unwrap();
    assert_eq!(seq.key, "foo");
    assert!(seq.table.table.is_empty());
}

#[test]
fn mod_wrapped_array_serializer() {
    let mut buf = String::new();
    let mut array = Serializer::new(&mut buf).serialize_tuple_variant("name", 0, "foo", 2).unwrap();
    array.arr.push(int_value(42));
    assert_eq!(array.arr.arr.len(), 1);
    array.arr.push(str_value("bar"));
    assert_eq!(array.arr.arr.len(), 2);
    array.end().unwrap();
    assert_eq!(buf, "foo = [42, \"bar\"]\n");

    let mut buf = String::new();
    let mut array = Serializer::new(&mut buf).serialize_tuple_variant("name", 0, "foo", 2).unwrap();
    array.arr.push(one_entry_table("bar", int_value(42)));
    array.arr.push(one_entry_table("baz", str_value("qux")));
    array.end().unwrap();
    assert_eq!(buf, "[[foo]]\nbar = 42\n\n[[foo]]\nbaz = \"qux\"\n");
}

#[test]
fn mod_table_serializer_map() {
    let mut buf = String::new();
    let mut table = Serializer::new(&mut buf).serialize_map(None).unwrap();
    table.table.serialize_key("foo".to_string());
    assert!(table.table.table.is_empty());
    table.table.serialize_value(int_value(42));
    assert_eq!(table.table.table.len(), 1);
    table.table.serialize_entry("bar".to_string(), str_value("baz"));
    assert_eq!(table.table.table.len(), 2);
    table.end().unwrap();
    assert_eq!(buf, "foo = 42\nbar = \"baz\"\n");
}

#[test]
fn mod_table_serializer_struct() {
    let mut buf = String::new();
    let mut table = Serializer::new(&mut buf).serialize_struct("name", 2).unwrap();
    table.table.serialize_entry("foo".to_string(), int_value(42));
    table.table.serialize_entry("bar".to_string(), str_value("baz"));
    table.end().unwrap();
    assert_eq!(buf, "foo = 42\nbar = \"baz\"\n");
}

#[test]
fn mod_wrapped_table_serializer() {
    let mut buf = String::new();
    let mut table = Serializer::new(&mut buf).serialize_struct_variant("name", 0, "foo", 2).unwrap();
    table.table.serialize_entry("bar".to_string(), int_value(42));
    assert_eq!(table.table.table.len(), 1);
    table.table.serialize_entry("baz".to_string(), str_value("qux"));
    table.end().unwrap();
    assert_eq!(buf, "[foo]\nbar = 42\nbaz = \"qux\"\n");
}

#[test]
fn document_with_nested_tables_and_arrays() {
    let mut buf = String::new();
    let mut root = Serializer::new(&mut buf).serialize_map(None).unwrap();
    root.table.serialize_entry("title".to_string(), str_value("TOML"));
    let mut owner = TreeTable::start(None);
    owner.serialize_entry("name".to_string(), str_value("Tom"));
    owner.serialize_entry("dob".to_string(), int_value(1979));
    root.table.serialize_entry("owner".to_string(), owner.end());
    root.table.serialize_entry(
        "servers".to_string(),
        Value::Table(Table::Array(vec![
            vec![("ip".to_string(), str_value("10.0.0.1"))],
            vec![("ip".to_string(), str_value("10.0.0.2"))],
        ])),
    );
    root.end().unwrap();
    assert_eq!(
        buf,
        "title = \"TOML\"\n\n[owner]\nname = \"Tom\"\ndob = 1979\n\n[[servers]]\nip = \"10.0.0.1\"\n\n[[servers]]\nip = \"10.0.0.2\"\n"
    );
}

#[test]
fn utils_key_serializer() {
    let key = |f: &dyn Fn(KeySerializer<'_>)| {
        let mut buf = String::new();
        f(KeySerializer::new(&mut buf));
        buf
    };
    assert_eq!(key(&|s| s.serialize_str("foo").unwrap()), "foo");
    assert_eq!(key(&|s| s.serialize_str("abc.123").unwrap()), r#""abc.123""#);
    assert_eq!(key(&|s| s.serialize_str("😎").unwrap()), r#""😎""#);
    assert_eq!(key(&|s| s.serialize_integer(&2i8).unwrap()), "2");
    assert_eq!(key(&|s| s.serialize_integer(&2i16).unwrap()), "2");
    assert_eq!(key(&|s| s.serialize_integer(&2i32).unwrap()), "2");
    assert_eq!(key(&|s| s.serialize_integer(&2i64).unwrap()), "2");
    assert_eq!(key(&|s| s.serialize_integer(&2i128).unwrap()), "2");
    assert_eq!(key(&|s| s.serialize_integer(&2u8).unwrap()), "2");
    assert_eq!(key(&|s| s.serialize_integer(&2u16).unwrap()), "2");
    assert_eq!(key(&|s| s.serialize_integer(&2u32).unwrap()), "2");
    assert_eq!(key(&|s| s.serialize_integer(&2u64).unwrap()), "2");
    assert_eq!(key(&|s| s.serialize_integer(&2u128).unwrap()), "2");
    assert_eq!(key(&|s| s.serialize_integer(&-7i32).unwrap()), "-7");
}

#[test]
fn utils_raw_string_serializer() {
    let raw = |f: &dyn Fn(RawStringSerializer<'_>) -> soml::ser::error::Result<()>| {
        let mut buf = String::new();
        let r = f(RawStringSerializer { writer: &mut buf });
        (r.is_ok(), buf)
    };
    assert_eq!(raw(&|s| s.serialize_str("foo")), (true, "foo".to_string()));
    assert_eq!(raw(&|s| s.serialize_str("abc.123")), (true, "abc.123".to_string()));
    assert_eq!(raw(&|s| s.serialize_str("😎")), (true, "😎".to_string()));
    assert_eq!(raw(&|s| s.serialize_bytes(b"foo")), (true, "foo".to_string()));
    assert_eq!(raw(&|s| s.serialize_bytes("é😎".as_bytes())), (true, "é😎".to_string()));
    assert_eq!(raw(&|s| s.serialize_bytes(b"\xff")), (false, String::new()));

    let mut buf = String::new();
    let r = RawStringSerializer { writer: &mut buf }.serialize_bytes(b"ab\xc3");
    assert!(matches!(r, Err(e) if matches!(e.kind(), ErrorKind::UnsupportedValue("invalid encoded bytes"))));
}

#[test]
fn io_errors_show_like_the_standard_library_error_when_writing() {
    let io_err = || std::io::Error::new(std::io::ErrorKind::NotFound, "foo");
    let kind = ErrorKind::Io(std::sync::Arc::new(io_err()));
    assert_eq!(kind.debug_string(), format!("Io({:?})", io_err()));
    let error = Error::from_kind(ErrorKind::Io(std::sync::Arc::new(io_err())));
    assert_eq!(error.debug_string(), format!("Error {{ type: Io({:?}), .. }}", io_err()));
    assert_eq!(error.message(), "IO error: foo");
}
