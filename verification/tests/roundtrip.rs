use soml::de::integer_value;
use soml::de::number::parse_integer;
use soml::de::value::Value;
use soml::de::parser::Parser;
use soml::ser::tree::Value as Written;
use soml::ser::tree::{Array, ArraySerializer, Serializer as TreeSerializer, Table as WrittenTable};
use soml::ser::writer::Formatter;

fn parser_on(text: &str) -> Parser<'_> {
    let mut parser = Parser::from_str(text);
    let _ = parser.next_line();
    parser
}

#[test]
fn integers_read_back_what_was_written() {
    for n in [0i64, 1, -1, 42, -12, i64::MAX, i64::MIN, 1_000_000_007] {
        let mut buf = String::new();
        Formatter::write_integer(&n, &mut buf);
        assert_eq!(parse_integer::<i64>(buf.as_bytes()).unwrap(), n);
    }
    let mut buf = String::new();
    Formatter::write_integer(&u128::MAX, &mut buf);
    assert_eq!(parse_integer::<u128>(buf.as_bytes()).unwrap(), u128::MAX);
}

#[test]
fn basic_strings_read_back_what_was_written() {
    for s in ["", "foo", "a\"b\\c", "tab\there", "\u{0}\u{1f}\u{7f}", "😎 é", "line\nbreak\r"] {
        let mut buf = String::new();
        Formatter::write_basic_string(s, &mut buf);
        let text = buf[1..].to_string();
        let mut parser = parser_on(&text);
        assert_eq!(parser.parse_basic_str().unwrap(), s);
        assert!(parser.line().is_empty());
    }
}

#[test]
fn keys_read_back_what_was_written() {
    for k in ["foo", "A-z_09", "abc.123", "", "with space", "😎", "q\"uote", "=", "-"] {
        let mut buf = String::new();
        Formatter::write_key(k, &mut buf);
        buf.push_str(" = 1");
        let mut parser = parser_on(&buf);
        assert_eq!(parser.parse_key().unwrap(), k);
        assert_eq!(parser.line(), b" = 1");
    }
}

#[test]
fn parsed_documents_never_repeat_a_key() {
    let mut parser = Parser::from_str("a = 1\na = 2\n");
    assert!(parser.parse().is_err());
    let mut parser = Parser::from_str("[t]\nx = 1\n[t]\ny = 2\n");
    assert!(parser.parse().is_err());
    let mut parser = Parser::from_str("a.b = 1\na.b = 2\n");
    assert!(parser.parse().is_err());
    let mut parser = Parser::from_str("[[t]]\nx = 1\n[[t]]\nx = 2\n");
    assert!(parser.parse().is_ok());
}

#[test]
fn string_pairs_read_back_what_was_written() {
    for (k, s) in [("title", "TOML"), ("with space", "tab\tand \"quotes\""), ("😎", ""), ("a.b", "\u{1}")] {
        let mut value = String::new();
        Formatter::write_string(s, &mut value);
        let mut line = String::new();
        Formatter::write_inline(k, &value, &mut line);
        let mut parser = Parser::from_str(&line);
        assert_eq!(parser.parse().unwrap(), Value::Table(vec![(k.to_string(), Value::String(s.to_string()))]));
    }
}

#[test]
fn integer_pairs_read_back_what_was_written() {
    for (k, n) in [("answer", 42i64), ("neg", -7), ("zero", 0), ("min", i64::MIN), ("big key", 123456789)] {
        let mut value = String::new();
        Formatter::write_integer(&n, &mut value);
        let mut line = String::new();
        Formatter::write_inline(k, &value, &mut line);
        let mut parser = Parser::from_str(&line);
        let doc = parser.parse().unwrap();
        let Value::Table(entries) = doc else { panic!("not a table") };
        assert_eq!(entries.len(), 1);
        assert_eq!(entries[0].0, k);
        assert_eq!(entries[0].1, Value::Integer(value.as_bytes().to_vec()));
        assert_eq!(integer_value::<i64>(&entries[0].1).unwrap().unwrap(), n);
    }
}

#[test]
fn multiline_strings_read_back_what_was_written() {
    for s in ["abc\ndef\n", "\n", "a\"\"\"b\nc", "tab\there\nback\\slash\r\n", "😎\n\u{1}\u{7f}", "ends with quote\n\""] {
        let mut value = String::new();
        Formatter::write_string(s, &mut value);
        assert!(value.starts_with("\"\"\"\n"));
        let mut doc = String::new();
        Formatter::write_inline("k", &value, &mut doc);
        doc.push_str("after = 1\n");
        let mut parser = Parser::from_str(&doc);
        assert_eq!(
            parser.parse().unwrap(),
            Value::Table(vec![
                ("k".to_string(), Value::String(s.to_string())),
                ("after".to_string(), Value::Integer(b"1".to_vec())),
            ])
        );
    }
}

#[test]
fn tables_of_strings_and_integers_read_back_what_was_written() {
    let entries: Vec<(&str, Result<&str, i64>)> = vec![
        ("title", Ok("TOML Example")),
        ("port", Err(8080)),
        ("with space", Ok("two\nlines")),
        ("neg", Err(-42)),
        ("😎", Ok("tab\t\"quote\"")),
    ];
    let mut table = Vec::new();
    let mut expected = Vec::new();
    for (k, v) in &entries {
        let mut text = String::new();
        match v {
            Ok(s) => {
                Formatter::write_string(s, &mut text);
                expected.push((k.to_string(), Value::String(s.to_string())));
            }
            Err(n) => {
                Formatter::write_integer(n, &mut text);
                expected.push((k.to_string(), Value::Integer(text.as_bytes().to_vec())));
            }
        }
        table.push((k.to_string(), Written::Inline(text)));
    }
    let mut doc = String::new();
    Formatter::write_table(&table, &[], &mut doc);
    let mut parser = Parser::from_str(&doc);
    assert_eq!(parser.parse().unwrap(), Value::Table(expected));
}

fn written_array(values: Vec<Written>) -> Written {
    let mut arr = ArraySerializer::start(Some(values.len()));
    for v in values {
        arr.push(v);
    }
    match arr.end_inner().unwrap() {
        Array::Inline(text) => Written::Inline(text),
        Array::Table(_) => panic!("an array of tables"),
    }
}

#[test]
fn tables_of_booleans_and_arrays_read_back_what_was_written() {
    let int = |n: i64| TreeSerializer.serialize_integer(&n).unwrap();
    let string = |s: &str| TreeSerializer.serialize_str(s).unwrap();
    let table = vec![
        ("yes".to_string(), TreeSerializer.serialize_bool(true).unwrap()),
        ("no".to_string(), TreeSerializer.serialize_bool(false).unwrap()),
        ("ports".to_string(), written_array(vec![int(8001), int(-2), int(0)])),
        ("empty".to_string(), written_array(vec![])),
        ("names".to_string(), written_array(vec![string("a, b]"), string(""), string("😎")])),
        (
            "nested".to_string(),
            written_array(vec![written_array(vec![int(1)]), written_array(vec![]), TreeSerializer.serialize_bool(false).unwrap()]),
        ),
    ];
    let mut doc = String::new();
    Formatter::write_table(&table, &[], &mut doc);
    assert_eq!(
        doc,
        "yes = true\nno = false\nports = [8001, -2, 0]\nempty = []\nnames = [\"a, b]\", \"\", \"😎\"]\nnested = [[1], [], false]\n"
    );
    let mut parser = Parser::from_str(&doc);
    let int_value = |s: &str| Value::Integer(s.as_bytes().to_vec());
    assert_eq!(
        parser.parse().unwrap(),
        Value::Table(vec![
            ("yes".to_string(), Value::Boolean(true)),
            ("no".to_string(), Value::Boolean(false)),
            ("ports".to_string(), Value::Array(vec![int_value("8001"), int_value("-2"), int_value("0")])),
            ("empty".to_string(), Value::Array(vec![])),
            (
                "names".to_string(),
                Value::Array(vec![
                    Value::String("a, b]".to_string()),
                    Value::String(String::new()),
                    Value::String("😎".to_string()),
                ]),
            ),
            (
                "nested".to_string(),
                Value::Array(vec![Value::Array(vec![int_value("1")]), Value::Array(vec![]), Value::Boolean(false)]),
            ),
        ])
    );
}

#[test]
fn documents_with_sections_read_back_what_was_written() {
    let int = |n: i64| TreeSerializer.serialize_integer(&n).unwrap();
    let string = |s: &str| TreeSerializer.serialize_str(s).unwrap();
    let server = vec![("host".to_string(), string("example.org")), ("port".to_string(), int(8080))];
    let products = vec![
        vec![("name".to_string(), string("Hammer")), ("sku".to_string(), int(738594937))],
        vec![],
        vec![("name".to_string(), string("Nail")), ("color".to_string(), string("gray\nish"))],
    ];
    let table = vec![
        ("title".to_string(), string("TOML")),
        ("server".to_string(), Written::Table(WrittenTable::Table(server))),
        ("empty".to_string(), Written::Table(WrittenTable::Table(vec![]))),
        ("products".to_string(), Written::Table(WrittenTable::Array(products))),
        ("last".to_string(), TreeSerializer.serialize_bool(true).unwrap()),
    ];
    let mut doc = String::new();
    Formatter::write_table(&table, &[], &mut doc);
    assert_eq!(
        doc,
        "title = \"TOML\"\nlast = true\n\n[server]\nhost = \"example.org\"\nport = 8080\n\n[empty]\n\n\
         [[products]]\nname = \"Hammer\"\nsku = 738594937\n\n[[products]]\n\n\
         [[products]]\nname = \"Nail\"\ncolor = \"\"\"\ngray\nish\"\"\"\n"
    );
    let mut parser = Parser::from_str(&doc);
    let int_value = |s: &str| Value::Integer(s.as_bytes().to_vec());
    let string_value = |s: &str| Value::String(s.to_string());
    assert_eq!(
        parser.parse().unwrap(),
        Value::Table(vec![
            ("title".to_string(), string_value("TOML")),
            ("last".to_string(), Value::Boolean(true)),
            (
                "server".to_string(),
                Value::Table(vec![
                    ("host".to_string(), string_value("example.org")),
                    ("port".to_string(), int_value("8080")),
                ]),
            ),
            ("empty".to_string(), Value::Table(vec![])),
            (
                "products".to_string(),
                Value::ArrayOfTables(vec![
                    vec![("name".to_string(), string_value("Hammer")), ("sku".to_string(), int_value("738594937"))],
                    vec![],
                    vec![("name".to_string(), string_value("Nail")), ("color".to_string(), string_value("gray\nish"))],
                ]),
            ),
        ])
    );
}

#[test]
fn nested_documents_read_back_what_was_written() {
    let int = |n: i64| TreeSerializer.serialize_integer(&n).unwrap();
    let string = |s: &str| TreeSerializer.serialize_str(s).unwrap();
    let table = |entries: Vec<(&str, Written)>| {
        Written::Table(WrittenTable::Table(entries.into_iter().map(|(k, v)| (k.to_string(), v)).collect()))
    };
    let tables = |elements: Vec<Vec<(&str, Written)>>| {
        Written::Table(WrittenTable::Array(
            elements
                .into_iter()
                .map(|entries| entries.into_iter().map(|(k, v)| (k.to_string(), v)).collect())
                .collect(),
        ))
    };
    let root = vec![
        ("title".to_string(), string("TOML")),
        (
            "servers".to_string(),
            table(vec![("alpha", table(vec![("ip", string("10.0.0.1"))])), ("beta", table(vec![("ip", string("10.0.0.2"))]))]),
        ),
        (
            "clients".to_string(),
            table(vec![
                ("data", table(vec![("gamma", int(1))])),
                ("hosts", written_array(vec![string("alpha"), string("omega")])),
            ]),
        ),
        (
            "fruit".to_string(),
            tables(vec![vec![
                ("variety", tables(vec![vec![("name", string("red"))], vec![("name", string("green"))]])),
                ("name", string("apple")),
            ]]),
        ),
    ];
    let mut doc = String::new();
    Formatter::write_table(&root, &[], &mut doc);
    assert_eq!(
        doc,
        "title = \"TOML\"\n\n[servers.alpha]\nip = \"10.0.0.1\"\n\n[servers.beta]\nip = \"10.0.0.2\"\n\n\
         [clients]\nhosts = [\"alpha\", \"omega\"]\n\n[clients.data]\ngamma = 1\n\n\
         [[fruit]]\nname = \"apple\"\n\n[[fruit.variety]]\nname = \"red\"\n\n[[fruit.variety]]\nname = \"green\"\n"
    );
    let mut parser = Parser::from_str(&doc);
    let string_value = |s: &str| Value::String(s.to_string());
    let entry = |k: &str, v: Value| (k.to_string(), v);
    assert_eq!(
        parser.parse().unwrap(),
        Value::Table(vec![
            entry("title", string_value("TOML")),
            entry(
                "servers",
                Value::UndefinedTable(vec![
                    entry("alpha", Value::Table(vec![entry("ip", string_value("10.0.0.1"))])),
                    entry("beta", Value::Table(vec![entry("ip", string_value("10.0.0.2"))])),
                ]),
            ),
            entry(
                "clients",
                Value::Table(vec![
                    entry("hosts", Value::Array(vec![string_value("alpha"), string_value("omega")])),
                    entry("data", Value::Table(vec![entry("gamma", Value::Integer(b"1".to_vec()))])),
                ]),
            ),
            entry(
                "fruit",
                Value::ArrayOfTables(vec![vec![
                    entry("name", string_value("apple")),
                    entry(
                        "variety",
                        Value::ArrayOfTables(vec![
                            vec![entry("name", string_value("red"))],
                            vec![entry("name", string_value("green"))],
                        ]),
                    ),
                ]]),
            ),
        ])
    );
}

#[test]
fn bytes_read_back_as_arrays_of_their_values() {
    let table = vec![
        ("bytes".to_string(), TreeSerializer.serialize_bytes(&[0, 7, 255]).unwrap()),
        ("none".to_string(), TreeSerializer.serialize_bytes(&[]).unwrap()),
    ];
    let mut doc = String::new();
    Formatter::write_table(&table, &[], &mut doc);
    assert_eq!(doc, "bytes = [0, 7, 255]\nnone = []\n");
    let mut parser = Parser::from_str(&doc);
    let int_value = |s: &str| Value::Integer(s.as_bytes().to_vec());
    assert_eq!(
        parser.parse().unwrap(),
        Value::Table(vec![
            ("bytes".to_string(), Value::Array(vec![int_value("0"), int_value("7"), int_value("255")])),
            ("none".to_string(), Value::Array(vec![])),
        ])
    );
}

fn written_any_array(values: Vec<Written>) -> Written {
    let mut arr = ArraySerializer::start(None);
    for v in values {
        arr.push(v);
    }
    match arr.end_inner().unwrap() {
        Array::Inline(text) => Written::Inline(text),
        Array::Table(tables) => Written::Table(WrittenTable::Array(tables)),
    }
}

#[test]
fn inline_tables_read_back_what_was_written() {
    let int = |n: i64| TreeSerializer.serialize_integer(&n).unwrap();
    let table = |k: &str, v: Written| Written::Table(WrittenTable::Table(vec![(k.to_string(), v)]));
    let root = vec![
        ("mixed".to_string(), written_any_array(vec![int(1), table("a", int(2)), Written::Table(WrittenTable::Table(vec![]))])),
        (
            "nested".to_string(),
            written_any_array(vec![
                written_any_array(vec![table("x", int(1))]),
                written_any_array(vec![table("x", int(2)), table("x", int(3))]),
            ]),
        ),
    ];
    let mut doc = String::new();
    Formatter::write_table(&root, &[], &mut doc);
    assert_eq!(doc, "mixed = [1, { a = 2 }, {  }]\nnested = [[{ x = 1 }], [{ x = 2 }, { x = 3 }]]\n");
    let mut parser = Parser::from_str(&doc);
    let int_value = |s: &str| Value::Integer(s.as_bytes().to_vec());
    let inline = |k: &str, v: Value| Value::InlineTable(vec![(k.to_string(), v)]);
    assert_eq!(
        parser.parse().unwrap(),
        Value::Table(vec![
            (
                "mixed".to_string(),
                Value::Array(vec![int_value("1"), inline("a", int_value("2")), Value::InlineTable(vec![])]),
            ),
            (
                "nested".to_string(),
                Value::Array(vec![
                    Value::Array(vec![inline("x", int_value("1"))]),
                    Value::Array(vec![inline("x", int_value("2")), inline("x", int_value("3"))]),
                ]),
            ),
        ])
    );
}

#[test]
fn multiline_strings_inside_arrays_read_back_what_was_written() {
    let string = |s: &str| TreeSerializer.serialize_str(s).unwrap();
    let table = |k: &str, v: Written| Written::Table(WrittenTable::Table(vec![(k.to_string(), v)]));
    let root = vec![
        ("lines".to_string(), written_array(vec![string("a\nb"), string("c")])),
        ("mixed".to_string(), written_any_array(vec![table("t", string("x\n\"y\"\n")), string("z\n")])),
    ];
    let mut doc = String::new();
    Formatter::write_table(&root, &[], &mut doc);
    assert_eq!(
        doc,
        "lines = [\"\"\"\na\nb\"\"\", \"c\"]\nmixed = [{ t = \"\"\"\nx\n\\\"y\\\"\n\"\"\" }, \"\"\"\nz\n\"\"\"]\n"
    );
    let mut parser = Parser::from_str(&doc);
    assert_eq!(
        parser.parse().unwrap(),
        Value::Table(vec![
            (
                "lines".to_string(),
                Value::Array(vec![Value::String("a\nb".to_string()), Value::String("c".to_string())]),
            ),
            (
                "mixed".to_string(),
                Value::Array(vec![
                    Value::InlineTable(vec![("t".to_string(), Value::String("x\n\"y\"\n".to_string()))]),
                    Value::String("z\n".to_string()),
                ]),
            ),
        ])
    );
}
