use soml::ser::tree::{Table, Value};
use soml::ser::writer::{split_inlines_and_subtables, Formatter};

fn inline(s: &str) -> Value {
    Value::Inline(s.to_string())
}

fn entries(e: Vec<(&str, Value)>) -> Vec<(String, Value)> {
    e.into_iter().map(|(k, v)| (k.to_string(), v)).collect()
}

fn write(f: impl FnOnce(&mut String)) -> String {
    let mut buf = String::new();
    f(&mut buf);
    buf
}

fn path(keys: &[&str]) -> Vec<String> {
    keys.iter().map(|k| k.to_string()).collect()
}

#[test]
fn formatter_write_key() {
    assert_eq!(write(|b| Formatter::write_key("foo", b)), "foo");
    assert_eq!(write(|b| Formatter::write_key("abc.123", b)), r#""abc.123""#);
    assert_eq!(write(|b| Formatter::write_key("😎", b)), r#""😎""#);
    assert_eq!(write(|b| Formatter::write_key("A-z_09", b)), "A-z_09");
    assert_eq!(write(|b| Formatter::write_key("", b)), r#""""#);
}

#[test]
fn formatter_write_string() {
    assert_eq!(write(|b| Formatter::write_string("foo", b)), r#""foo""#);
    assert_eq!(write(|b| Formatter::write_string("😎", b)), r#""😎""#);
    assert_eq!(write(|b| Formatter::write_string("abc\ndef\n", b)), "\"\"\"\nabc\ndef\n\"\"\"");
}

#[test]
fn formatter_write_basic_str() {
    assert_eq!(write(|b| Formatter::write_basic_string("foo", b)), r#""foo""#);
    assert_eq!(write(|b| Formatter::write_basic_string("😎", b)), r#""😎""#);
    assert_eq!(write(|b| Formatter::write_basic_string("abc\ndef\n", b)), r#""abc\ndef\n""#);
    assert_eq!(write(|b| Formatter::write_basic_string("\x08\x09\x0A\x0C\x0D\"\\", b)), r#""\b\t\n\f\r\"\\""#);
    assert_eq!(
        write(|b| Formatter::write_basic_string(
            "\x00\x01\x02\x03\x04\x05\x06\x07\x0B\x0E\x0F\x10\x11\x12\x13\x14\x15\x16\x17\x18\x19\x1A\x1B\x1C\x1D\x1E\x1F",
            b
        )),
        r#""\u0000\u0001\u0002\u0003\u0004\u0005\u0006\u0007\u000b\u000e\u000f\u0010\u0011\u0012\u0013\u0014\u0015\u0016\u0017\u0018\u0019\u001a\u001b\u001c\u001d\u001e\u001f""#
    );
    assert_eq!(write(|b| Formatter::write_basic_string("\x7f", b)), r#""\u007f""#);
}

#[test]
fn formatter_write_multiline_basic_str() {
    assert_eq!(write(|b| Formatter::write_multiline_basic_string("foo", b)), "\"\"\"\nfoo\"\"\"");
    assert_eq!(write(|b| Formatter::write_multiline_basic_string("😎", b)), "\"\"\"\n😎\"\"\"");
    assert_eq!(
        write(|b| Formatter::write_multiline_basic_string("abc\ndef\n", b)),
        "\"\"\"\nabc\ndef\n\"\"\""
    );
    assert_eq!(
        write(|b| Formatter::write_multiline_basic_string("\x08\x09\x0A\x0C\x0D\"\\", b)),
        "\"\"\"\n\\b\t\n\\f\\r\\\"\\\\\"\"\""
    );
    assert_eq!(
        write(|b| Formatter::write_multiline_basic_string(
            "\x00\x01\x02\x03\x04\x05\x06\x07\x0B\x0E\x0F\x10\x11\x12\x13\x14\x15\x16\x17\x18\x19\x1A\x1B\x1C\x1D\x1E\x1F",
            b
        )),
        "\"\"\"\n\\u0000\\u0001\\u0002\\u0003\\u0004\\u0005\\u0006\\u0007\\u000b\\u000e\\u000f\\u0010\\u0011\\u0012\\u0013\\u0014\\u0015\\u0016\\u0017\\u0018\\u0019\\u001a\\u001b\\u001c\\u001d\\u001e\\u001f\"\"\""
    );
}

#[test]
fn formatter_write_integer() {
    assert_eq!(write(|b| Formatter::write_integer(&42, b)), "42");
    assert_eq!(write(|b| Formatter::write_integer(&-12, b)), "-12");
    assert_eq!(write(|b| Formatter::write_integer(&0u8, b)), "0");
    assert_eq!(write(|b| Formatter::write_integer(&1000000007usize, b)), "1000000007");
}

#[test]
fn formatter_write_table_header() {
    assert_eq!(write(|b| Formatter::write_table_header(&[], b)), "");

    let p = path(&["a", "b", "c"]);
    let refs: Vec<&String> = p.iter().collect();
    assert_eq!(write(|b| Formatter::write_table_header(&refs, b)), "[a.b.c]\n");

    let p = path(&["a", "b.c", "d"]);
    let refs: Vec<&String> = p.iter().collect();
    assert_eq!(write(|b| Formatter::write_table_header(&refs, b)), "[a.\"b.c\".d]\n");

    let p = path(&["a", "😎", "b"]);
    let refs: Vec<&String> = p.iter().collect();
    assert_eq!(write(|b| Formatter::write_table_header(&refs, b)), "[a.\"😎\".b]\n");
}

#[test]
fn formatter_write_array_header() {
    assert_eq!(write(|b| Formatter::write_array_header(&[], b)), "");

    let p = path(&["a", "b", "c"]);
    let refs: Vec<&String> = p.iter().collect();
    assert_eq!(write(|b| Formatter::write_array_header(&refs, b)), "[[a.b.c]]\n");

    let p = path(&["a", "b.c", "d"]);
    let refs: Vec<&String> = p.iter().collect();
    assert_eq!(write(|b| Formatter::write_array_header(&refs, b)), "[[a.\"b.c\".d]]\n");

    let p = path(&["a", "😎", "b"]);
    let refs: Vec<&String> = p.iter().collect();
    assert_eq!(write(|b| Formatter::write_array_header(&refs, b)), "[[a.\"😎\".b]]\n");
}

#[test]
fn formatter_write_table() {
    let foo = "foo".to_string();
    let t = entries(vec![
        ("bar", inline("baz")),
        ("qux", Value::Table(Table::Table(entries(vec![("quux", inline("corge"))])))),
    ]);
    assert_eq!(
        write(|b| Formatter::write_table(&t, &[&foo], b)),
        "[foo]\nbar = baz\n\n[foo.qux]\nquux = corge\n"
    );

    let t = entries(vec![("bar", Value::Table(Table::Table(entries(vec![("baz", inline("qux"))]))))]);
    assert_eq!(write(|b| Formatter::write_table(&t, &[&foo], b)), "[foo.bar]\nbaz = qux\n");

    assert_eq!(write(|b| Formatter::write_table(&[], &[&foo], b)), "[foo]\n");
}

#[test]
fn formatter_write_array_of_tables() {
    let foo = "foo".to_string();
    let a = vec![
        entries(vec![
            ("bar", inline("baz")),
            ("qux", Value::Table(Table::Table(entries(vec![("quux", inline("corge"))])))),
        ]),
        entries(vec![("grault", inline("garply"))]),
    ];
    assert_eq!(
        write(|b| Formatter::write_array_of_tables(&a, &[&foo], b)),
        "[[foo]]\nbar = baz\n\n[foo.qux]\nquux = corge\n\n[[foo]]\ngrault = garply\n"
    );

    let a = vec![entries(vec![("bar", Value::Table(Table::Table(entries(vec![("baz", inline("qux"))]))))])];
    assert_eq!(
        write(|b| Formatter::write_array_of_tables(&a, &[&foo], b)),
        "[[foo]]\n[foo.bar]\nbaz = qux\n"
    );

    assert_eq!(write(|b| Formatter::write_array_of_tables(&[vec![]], &[&foo], b)), "[[foo]]\n");
    assert_eq!(write(|b| Formatter::write_array_of_tables(&[], &[&foo], b)), "");
}

#[test]
fn formatter_write_inlines() {
    let (foo, bar, baz, qux) = ("foo".to_string(), "bar".to_string(), "baz".to_string(), "qux".to_string());
    assert_eq!(
        write(|b| Formatter::write_inlines(&[(&foo, &bar), (&baz, &qux)], b)),
        "foo = bar\nbaz = qux\n"
    );
}

#[test]
fn formatter_write_inline() {
    assert_eq!(write(|b| Formatter::write_inline("foo", "bar", b)), "foo = bar\n");
    assert_eq!(write(|b| Formatter::write_inline("a.b", "blah", b)), "\"a.b\" = blah\n");
    assert_eq!(write(|b| Formatter::write_inline("😎", "😎", b)), "\"😎\" = 😎\n");
}

#[test]
fn formatter_write_subtables() {
    let foo = "foo".to_string();
    let (bar, quux) = ("bar".to_string(), "quux".to_string());
    let t1 = Table::Table(entries(vec![("baz", inline("qux"))]));
    let t2 = Table::Array(vec![entries(vec![("corge", inline("grault"))])]);
    assert_eq!(
        write(|b| Formatter::write_subtables(&[(&bar, &t1), (&quux, &t2)], &[&foo], b)),
        "[foo.bar]\nbaz = qux\n\n[[foo.quux]]\ncorge = grault\n"
    );
    assert_eq!(write(|b| Formatter::write_subtables(&[], &[&foo], b)), "");
}

#[test]
fn formatter_write_subtable() {
    let foo = "foo".to_string();
    let bar = "bar".to_string();
    let t = Table::Table(entries(vec![("baz", inline("qux"))]));
    assert_eq!(write(|b| Formatter::write_subtable(&bar, &t, &[&foo], b)), "[foo.bar]\nbaz = qux\n");

    let t = Table::Array(vec![entries(vec![("baz", inline("qux"))])]);
    assert_eq!(write(|b| Formatter::write_subtable(&bar, &t, &[&foo], b)), "[[foo.bar]]\nbaz = qux\n");

    let t = Table::Table(entries(vec![("bar", inline("baz"))]));
    assert_eq!(write(|b| Formatter::write_subtable(&foo, &t, &[], b)), "[foo]\nbar = baz\n");
}

#[test]
fn test_split_inlines_and_subtables() {
    let table = entries(vec![
        ("foo", inline("bar")),
        ("baz", Value::Table(Table::Table(entries(vec![("qux", inline("quux"))])))),
    ]);
    let (inlines, subtables) = split_inlines_and_subtables(&table);
    assert_eq!(inlines, vec![(&"foo".to_string(), &"bar".to_string())]);
    assert_eq!(
        subtables,
        vec![(&"baz".to_string(), &Table::Table(entries(vec![("qux", inline("quux"))])))]
    );
}

#[test]
fn tables_written_after_the_inline_values_they_follow() {
    // Inline values come first, then subtables, whatever order the entries were given in.
    let t = entries(vec![
        ("sub", Value::Table(Table::Table(entries(vec![("x", inline("1"))])))),
        ("a", inline("2")),
    ]);
    assert_eq!(write(|b| Formatter::write_table(&t, &[], b)), "a = 2\n\n[sub]\nx = 1\n");
}
