use soml::de::bytes::ByteClass;
use soml::de::error::{Error, ErrorKind};
use soml::de::parser::{HeaderKind, Key, Line, Parser};
use soml::de::value::{SpecialFloat, Table, Value};

fn start_parser(bytes: &[u8]) -> Parser<'_> {
    let mut parser = Parser::from_slice(bytes);
    let _ = parser.next_line();
    parser
}

fn integer(s: &str) -> Value {
    Value::Integer(s.as_bytes().to_vec())
}

fn string(s: &str) -> Value {
    Value::String(s.to_string())
}

fn table(entries: Vec<(&str, Value)>) -> Table {
    entries.into_iter().map(|(k, v)| (k.to_string(), v)).collect()
}

fn kind<T>(r: &Result<T, Error>) -> Option<&ErrorKind> {
    match r {
        Ok(_) => None,
        Err(e) => Some(e.kind()),
    }
}

fn key_text(key: &Key) -> String {
    key.to_display_string()
}

#[test]
fn parser_from_str() {
    let parser = Parser::from_str("foo = 123");
    assert_eq!(parser.line(), b"");
    // Can't check the reader directly, so check it line by line
    let mut reader = parser.reader().clone();
    assert_eq!(reader.next_line(), Some(&b"foo = 123"[..]));
    assert_eq!(reader.next_line(), None);
}

#[test]
fn parser_from_slice() {
    let parser = Parser::from_slice(b"foo = 123");
    assert_eq!(parser.line(), b"");
    let mut reader = parser.reader().clone();
    assert_eq!(reader.next_line(), Some(&b"foo = 123"[..]));
    assert_eq!(reader.next_line(), None);
}

#[test]
fn parser_parse() {
    let mut parser = Parser::from_slice(b"a = 1\nb = 2");
    assert_eq!(parser.parse().unwrap(), Value::Table(table(vec![("a", integer("1")), ("b", integer("2"))])));

    let mut parser = Parser::from_slice(b"a = 1\r\nb = 2");
    assert_eq!(parser.parse().unwrap(), Value::Table(table(vec![("a", integer("1")), ("b", integer("2"))])));

    let doc = r#"# This is a TOML document.

title = "TOML Example"

[owner]
name = "Tom Preston-Werner"
dob = 1979-05-27T07:32:00-08:00 # First class dates

[database]
server = "192.168.1.1"
ports = [ 8000, 8001, 8002 ]
connection_max = 5000
enabled = true

[servers]

    # Indentation (tabs and/or spaces) is allowed but not required
    [servers.alpha]
    ip = "10.0.0.1"
    dc = "eqdc10"

    [servers.beta]
    ip = "10.0.0.2"
    dc = "eqdc10"

[clients]

# Line breaks are OK when inside arrays
hosts = [
    "alpha",
    "omega"
]

[[clients.data]]
    value = ["gamma", "delta"]

[[clients.data]]
    value = [1, 2]
"#;
    let mut parser = Parser::from_slice(doc.as_bytes());
    let expected = table(vec![
        ("title", string("TOML Example")),
        (
            "owner",
            Value::Table(table(vec![
                ("name", string("Tom Preston-Werner")),
                ("dob", Value::OffsetDatetime(b"1979-05-27T07:32:00-08:00".to_vec())),
            ])),
        ),
        (
            "database",
            Value::Table(table(vec![
                ("server", string("192.168.1.1")),
                ("ports", Value::Array(vec![integer("8000"), integer("8001"), integer("8002")])),
                ("connection_max", integer("5000")),
                ("enabled", Value::Boolean(true)),
            ])),
        ),
        (
            "servers",
            Value::Table(table(vec![
                ("alpha", Value::Table(table(vec![("ip", string("10.0.0.1")), ("dc", string("eqdc10"))]))),
                ("beta", Value::Table(table(vec![("ip", string("10.0.0.2")), ("dc", string("eqdc10"))]))),
            ])),
        ),
        (
            "clients",
            Value::Table(table(vec![
                ("hosts", Value::Array(vec![string("alpha"), string("omega")])),
                (
                    "data",
                    Value::ArrayOfTables(vec![
                        table(vec![("value", Value::Array(vec![string("gamma"), string("delta")]))]),
                        table(vec![("value", Value::Array(vec![integer("1"), integer("2")]))]),
                    ]),
                ),
            ])),
        ),
    ]);
    assert_eq!(parser.parse().unwrap(), Value::Table(expected));
}

#[test]
fn parser_parse_invalid() {
    let mut parser = Parser::from_slice(b"a = 123\na = 456\n");
    assert!(matches!(kind(&parser.parse()), Some(ErrorKind::DuplicateKey(..))));

    let mut parser = Parser::from_slice(b"a = 123\n\n[a]\nb = 456\n");
    assert!(matches!(kind(&parser.parse()), Some(ErrorKind::InvalidTableHeader(..))));

    let mut parser = Parser::from_slice(b"a = 123\n\n[[a]]\nb = 456\n");
    assert!(matches!(kind(&parser.parse()), Some(ErrorKind::InvalidTableHeader(..))));

    let mut parser = Parser::from_slice(b"a = 123\na.b = 456\n");
    assert!(matches!(kind(&parser.parse()), Some(ErrorKind::InvalidKeyPath(..))));

    let mut parser = Parser::from_slice(b"[a.b]\nc = 123\n\n[a]\nb.d = 456\n");
    assert!(matches!(kind(&parser.parse()), Some(ErrorKind::InvalidKeyPath(..))));

    let mut parser = Parser::from_slice(b"[table]\na.b = 123\na.b = 456\n");
    assert!(matches!(kind(&parser.parse()), Some(ErrorKind::DuplicateKey(..))));

    let mut parser = Parser::from_slice(b"a = 123 $");
    assert!(matches!(kind(&parser.parse()), Some(ErrorKind::ExpectedToken(..))));

    let mut parser = Parser::from_slice(b"a = 123 \0");
    assert!(matches!(kind(&parser.parse()), Some(ErrorKind::IllegalChar(..))));

    let mut parser = Parser::from_slice(b"$");
    assert!(matches!(kind(&parser.parse()), Some(ErrorKind::ExpectedToken(..))));

    let mut parser = Parser::from_slice(b"\0");
    assert!(matches!(kind(&parser.parse()), Some(ErrorKind::IllegalChar(..))));

    let mut parser = Parser::from_slice(b"a = 1\rb = 2");
    assert!(matches!(kind(&parser.parse()), Some(ErrorKind::ExpectedToken(..))));
}

#[test]
fn parser_parse_errors_name_the_key_and_table() {
    let mut parser = Parser::from_slice(b"a = 123\na = 456\n");
    match parser.parse() {
        Err(e) => assert_eq!(e.message(), "duplicate key: a in root table"),
        Ok(_) => panic!("expected an error"),
    }

    let mut parser = Parser::from_slice(b"[x.y]\nk = 1\nk.z = 2\n");
    match parser.parse() {
        Err(e) => assert_eq!(e.message(), "invalid key: k.z in x.y"),
        Ok(_) => panic!("expected an error"),
    }

    let mut parser = Parser::from_slice(b"a = 1\n[a.b]\n");
    match parser.parse() {
        Err(e) => assert_eq!(e.message(), "invalid table header: a.b"),
        Ok(_) => panic!("expected an error"),
    }
}

#[test]
fn parser_parse_line() {
    let mut parser = Parser::from_slice(b"[[a]]");
    match parser.parse_line() {
        Ok(Some(Line::TableHeader { key, kind: HeaderKind::Array })) => assert_eq!(key_text(&key), "a"),
        _ => panic!("expected an array header"),
    }

    let mut parser = Parser::from_slice(b"[a]");
    match parser.parse_line() {
        Ok(Some(Line::TableHeader { key, kind: HeaderKind::Table })) => assert_eq!(key_text(&key), "a"),
        _ => panic!("expected a table header"),
    }

    for src in [&b"a = 1"[..], &b"'a' = 1"[..], &br#""a" = 1"#[..]] {
        let mut parser = Parser::from_slice(src);
        match parser.parse_line() {
            Ok(Some(Line::KeyValuePair { key, value })) => {
                assert_eq!(key_text(&key), "a");
                assert_eq!(value, integer("1"));
            },
            _ => panic!("expected a key/value pair"),
        }
    }

    let mut parser = Parser::from_slice(b"\n");
    assert!(matches!(parser.parse_line(), Ok(Some(Line::Empty))));

    let mut parser = Parser::from_slice(b"a = 1 # comment");
    assert!(matches!(parser.parse_line(), Ok(Some(Line::KeyValuePair { .. }))));

    let mut parser = Parser::from_slice(b"");
    assert!(matches!(parser.parse_line(), Ok(None)));

    let mut parser = Parser::from_slice(b"a = 1 blah");
    assert!(matches!(kind(&parser.parse_line()), Some(ErrorKind::ExpectedToken(..))));

    let mut parser = Parser::from_slice(b"a = 1 \0");
    assert!(matches!(kind(&parser.parse_line()), Some(ErrorKind::IllegalChar(..))));
}

#[test]
fn parser_parse_array_header() {
    let mut parser = start_parser(br#" a .b. "..c"]]"#);
    let key = parser.parse_array_header().unwrap();
    assert_eq!(key.path, ["a", "b"]);
    assert_eq!(key.name, "..c");

    let mut parser = start_parser(br#""]]""#);
    assert!(matches!(kind(&parser.parse_array_header()), Some(ErrorKind::ExpectedToken(..))));
}

#[test]
fn parser_parse_table_header() {
    let mut parser = start_parser(br#" a .b. "..c"]"#);
    let key = parser.parse_table_header().unwrap();
    assert_eq!(key.path, ["a", "b"]);
    assert_eq!(key.name, "..c");

    let mut parser = start_parser(br#""]""#);
    assert!(matches!(kind(&parser.parse_table_header()), Some(ErrorKind::ExpectedToken(..))));
}

#[test]
fn parser_parse_key_value_pair() {
    let mut parser = start_parser(b"a = 123");
    let (k, v) = parser.parse_key_value_pair().unwrap();
    assert!(k.path.is_empty());
    assert_eq!(k.name, "a");
    assert_eq!(v, integer("123"));

    let mut parser = start_parser(br#""a = 123""#);
    assert!(matches!(kind(&parser.parse_key_value_pair()), Some(ErrorKind::ExpectedToken(..))));
}

#[test]
fn parser_parse_dotted_key() {
    let mut parser = start_parser(br#"a .b. "..c""#);
    let key = parser.parse_dotted_key().unwrap();
    assert_eq!(key.path, ["a", "b"]);
    assert_eq!(key.name, "..c");

    let mut parser = start_parser(b".");
    assert!(matches!(kind(&parser.parse_dotted_key()), Some(ErrorKind::ExpectedToken(..))));

    let mut parser = start_parser(b"a..b");
    assert!(matches!(kind(&parser.parse_dotted_key()), Some(ErrorKind::ExpectedToken(..))));
}

#[test]
fn parser_parse_key() {
    let mut parser = start_parser(b"abc");
    assert_eq!(parser.parse_key().unwrap(), "abc");

    let mut parser = start_parser(br#""abc""#);
    assert_eq!(parser.parse_key().unwrap(), "abc");

    let mut parser = start_parser(b"'abc'");
    assert_eq!(parser.parse_key().unwrap(), "abc");

    let mut parser = start_parser(br#""""abc""""#);
    assert!(matches!(kind(&parser.parse_key()), Some(ErrorKind::ExpectedToken(..))));

    let mut parser = start_parser(b"'''abc'''");
    assert!(matches!(kind(&parser.parse_key()), Some(ErrorKind::ExpectedToken(..))));
}

#[test]
fn parser_parse_bare_key() {
    for k in ["abc", "123", "-", "_"] {
        let mut parser = start_parser(k.as_bytes());
        assert_eq!(parser.parse_bare_key().unwrap(), k);
    }

    let mut parser = start_parser(b"[key]");
    assert!(matches!(kind(&parser.parse_bare_key()), Some(ErrorKind::ExpectedToken(..))));
}

#[test]
fn parser_parse_value() {
    let mut parser = start_parser(br#""hello""#);
    assert_eq!(parser.parse_value().unwrap(), string("hello"));

    let mut parser = start_parser(b"true");
    assert_eq!(parser.parse_value().unwrap(), Value::Boolean(true));

    let mut parser = start_parser(b"0.2");
    assert_eq!(parser.parse_value().unwrap(), Value::Float(b"0.2".to_vec()));

    let mut parser = start_parser(b"0x123abc");
    assert_eq!(parser.parse_value().unwrap(), Value::HexInt(b"123abc".to_vec()));

    let mut parser = start_parser(b"0001-01-01");
    assert_eq!(parser.parse_value().unwrap(), Value::LocalDate(b"0001-01-01".to_vec()));

    let mut parser = start_parser(b"00:00:00");
    assert_eq!(parser.parse_value().unwrap(), Value::LocalTime(b"00:00:00".to_vec()));

    for n in ["0", "12", "1234", "-123", "+123"] {
        let mut parser = start_parser(n.as_bytes());
        assert_eq!(parser.parse_value().unwrap(), integer(n));
    }

    let mut parser = start_parser(b"1234-05-06");
    assert_eq!(parser.parse_value().unwrap(), Value::LocalDate(b"1234-05-06".to_vec()));

    let mut parser = start_parser(b"12:34:56");
    assert_eq!(parser.parse_value().unwrap(), Value::LocalTime(b"12:34:56".to_vec()));

    let mut parser = start_parser(b"+inf");
    assert_eq!(parser.parse_value().unwrap(), Value::SpecialFloat(SpecialFloat::Infinity));

    let mut parser = start_parser(b"-nan");
    assert_eq!(parser.parse_value().unwrap(), Value::SpecialFloat(SpecialFloat::NegNan));

    let mut parser = start_parser(b"inf");
    assert_eq!(parser.parse_value().unwrap(), Value::SpecialFloat(SpecialFloat::Infinity));

    let mut parser = start_parser(b"nan");
    assert_eq!(parser.parse_value().unwrap(), Value::SpecialFloat(SpecialFloat::Nan));

    let mut parser = start_parser(b"[123, 456, 789]");
    assert_eq!(parser.parse_value().unwrap(), Value::Array(vec![integer("123"), integer("456"), integer("789")]));

    let mut parser = start_parser(b"{ a = 123, b = 456, c = 789 }");
    assert_eq!(
        parser.parse_value().unwrap(),
        Value::InlineTable(table(vec![("a", integer("123")), ("b", integer("456")), ("c", integer("789"))]))
    );
}

#[test]
fn parser_parse_value_invalid() {
    for src in [&b"01"[..], &b"0123"[..], &b"+"[..]] {
        let mut parser = start_parser(src);
        assert!(matches!(kind(&parser.parse_value()), Some(ErrorKind::InvalidNumber(..))));
    }

    let mut parser = start_parser(b"blah");
    assert!(matches!(kind(&parser.parse_value()), Some(ErrorKind::ExpectedToken(..))));

    let mut parser = start_parser(b"\0");
    assert!(matches!(kind(&parser.parse_value()), Some(ErrorKind::IllegalChar(..))));

    let mut parser = start_parser(b"");
    assert!(matches!(kind(&parser.parse_value()), Some(ErrorKind::ExpectedToken(..))));
}

#[test]
fn parser_parse_string() {
    let mut parser = start_parser(b"\"hello\"\n");
    assert_eq!(parser.parse_string().unwrap(), "hello");

    let mut parser = start_parser(b"\"\"\"\nhello\n\"\"\"\n");
    assert_eq!(parser.parse_string().unwrap(), "hello\n");

    let mut parser = start_parser(b"'hello'\n");
    assert_eq!(parser.parse_string().unwrap(), "hello");

    let mut parser = start_parser(b"'''\nhello\n'''\n");
    assert_eq!(parser.parse_string().unwrap(), "hello\n");

    for src in [
        &b"\"hello'\n"[..],
        &b"\"\"\"\nhello\n\"\n"[..],
        &b"\"\"\"\nhello\n'''\n"[..],
        &b"'hello\"\n"[..],
        &b"'''\nhello\n\"\n"[..],
        &b"'''\nhello\n\"\"\"\n"[..],
    ] {
        let mut parser = start_parser(src);
        assert!(matches!(kind(&parser.parse_string()), Some(ErrorKind::UnterminatedString)));
    }

    let mut parser = start_parser(b"hello");
    assert!(matches!(kind(&parser.parse_string()), Some(ErrorKind::ExpectedToken(..))));
}

#[test]
fn parser_parse_basic_str() {
    let mut parser = start_parser(b"hello\\n\"\n");
    assert_eq!(parser.parse_basic_str().unwrap(), "hello\n");

    let mut parser = start_parser(b"hello\\\"\n");
    assert!(matches!(kind(&parser.parse_basic_str()), Some(ErrorKind::UnterminatedString)));

    let mut parser = start_parser(b"hello\\0\"\n");
    assert!(matches!(kind(&parser.parse_basic_str()), Some(ErrorKind::InvalidEscape(..))));

    let mut parser = start_parser(b"hello\0\"");
    assert!(matches!(kind(&parser.parse_basic_str()), Some(ErrorKind::IllegalChar(..))));
}

#[test]
fn parser_parse_multiline_basic_str() {
    let cases: [(&[u8], &str); 10] = [
        (b"hello\n\"\"\"\n", "hello\n"),
        (b"hello\n\"\"\"\"\n", "hello\n\""),
        (b"hello\n\"\"\"\"\"\n", "hello\n\"\""),
        (b"hello\n\"\"\"\"\"\"\n", "hello\n\"\""),
        (b"hello\n\"\"\n\"\"\"\n", "hello\n\"\"\n"),
        (b"hello\\t\n\"\"\"\n", "hello\t\n"),
        (b"hello \\\nworld\n\"\"\"\n", "hello world\n"),
        (b"\nhello \\             \n   \nworld\n\"\"\"", "hello world\n"),
        (b"hello\r\n\"\"\"", "hello\n"),
        (b"\nhello\n\"\"\"", "hello\n"),
    ];
    for (src, expected) in cases {
        let mut parser = start_parser(src);
        assert_eq!(parser.parse_multiline_basic_str().unwrap(), expected);
    }

    let mut parser = start_parser(b"hello\n\"\"\n");
    assert!(matches!(kind(&parser.parse_multiline_basic_str()), Some(ErrorKind::UnterminatedString)));

    let mut parser = start_parser(b"\n");
    assert!(matches!(kind(&parser.parse_multiline_basic_str()), Some(ErrorKind::UnterminatedString)));

    let mut parser = start_parser(b"hello\\    \\\n\"\"\"\n");
    assert!(matches!(kind(&parser.parse_multiline_basic_str()), Some(ErrorKind::InvalidEscape(..))));

    let mut parser = start_parser(b"hello\0\"");
    assert!(matches!(kind(&parser.parse_multiline_basic_str()), Some(ErrorKind::IllegalChar(..))));
}

#[test]
fn parser_parse_literal_str() {
    let mut parser = start_parser(b"hello\\n'");
    assert_eq!(parser.parse_literal_str().unwrap(), "hello\\n");

    let mut parser = start_parser(b"hello\n'");
    assert!(matches!(kind(&parser.parse_literal_str()), Some(ErrorKind::UnterminatedString)));

    let mut parser = start_parser(b"hello\0'");
    assert!(matches!(kind(&parser.parse_literal_str()), Some(ErrorKind::IllegalChar(..))));
}

#[test]
fn parser_parse_multiline_literal_str() {
    let cases: [(&[u8], &str); 7] = [
        (b"hello\n'''\n", "hello\n"),
        (b"hello\n''''\n", "hello\n'"),
        (b"hello\n'''''\n", "hello\n''"),
        (b"hello\n''''''\n", "hello\n''"),
        (b"hello\n''\n'''\n", "hello\n''\n"),
        (b"hello\r\n'''", "hello\n"),
        (b"\nhello\n'''", "hello\n"),
    ];
    for (src, expected) in cases {
        let mut parser = start_parser(src);
        assert_eq!(parser.parse_multiline_literal_str().unwrap(), expected);
    }

    let mut parser = start_parser(b"hello\n''\n");
    assert!(matches!(kind(&parser.parse_multiline_literal_str()), Some(ErrorKind::UnterminatedString)));

    let mut parser = start_parser(b"\n");
    assert!(matches!(kind(&parser.parse_multiline_literal_str()), Some(ErrorKind::UnterminatedString)));

    let mut parser = start_parser(b"hello\0'");
    assert!(matches!(kind(&parser.parse_multiline_literal_str()), Some(ErrorKind::IllegalChar(..))));
}

#[test]
fn parser_parse_escape_seq() {
    let cases: [(&[u8], char); 9] = [
        (b"b", '\x08'),
        (b"t", '\t'),
        (b"n", '\n'),
        (b"f", '\x0c'),
        (b"r", '\r'),
        (b"\"", '"'),
        (b"\\", '\\'),
        (b"u20ac", '€'),
        (b"U0001f60e", '😎'),
    ];
    for (src, expected) in cases {
        let mut parser = start_parser(src);
        assert_eq!(parser.parse_escape_seq().unwrap(), expected);
    }

    for src in [&b"u2"[..], &b"U2"[..], &b""[..]] {
        let mut parser = start_parser(src);
        assert!(matches!(kind(&parser.parse_escape_seq()), Some(ErrorKind::UnterminatedString)));
    }

    for (src, esc) in [(&b"ulmao"[..], "\\ulmao"), (&b"UROFLCOPTER"[..], "\\UROFLCOPT"), (&b"p"[..], "\\p")] {
        let mut parser = start_parser(src);
        match kind(&parser.parse_escape_seq()) {
            Some(ErrorKind::InvalidEscape(e)) => assert_eq!(e, esc),
            _ => panic!("expected an invalid escape"),
        }
    }

    for src in [&b"u\xff\xff\xff\xff"[..], &b"U\xff\xff\xff\xff\xff\xff\xff\xff"[..]] {
        let mut parser = start_parser(src);
        assert!(matches!(kind(&parser.parse_escape_seq()), Some(ErrorKind::InvalidEncoding)));
    }
}

#[test]
fn parser_parse_bool() {
    let mut parser = start_parser(b"true");
    assert_eq!(parser.parse_bool().unwrap(), true);

    let mut parser = start_parser(b"false");
    assert_eq!(parser.parse_bool().unwrap(), false);

    for src in [&b"TRUE"[..], &b"f"[..], &b"1"[..]] {
        let mut parser = start_parser(src);
        assert!(matches!(kind(&parser.parse_bool()), Some(ErrorKind::ExpectedToken(..))));
    }
}

#[test]
fn parser_parse_number_or_datetime() {
    let mut parser = start_parser(b"0x123");
    assert!(matches!(parser.parse_number_or_datetime(), Ok(Value::HexInt(_))));

    let mut parser = start_parser(b"0o123");
    assert!(matches!(parser.parse_number_or_datetime(), Ok(Value::OctalInt(_))));

    let mut parser = start_parser(b"0b101");
    assert!(matches!(parser.parse_number_or_datetime(), Ok(Value::BinaryInt(_))));

    let mut parser = start_parser(b"1980-01-01T12:00:00.000+02:30");
    assert!(matches!(parser.parse_number_or_datetime(), Ok(Value::OffsetDatetime(_))));

    let mut parser = start_parser(b"1980-01-01 12:00:00Z");
    assert!(matches!(parser.parse_number_or_datetime(), Ok(Value::OffsetDatetime(_))));

    let mut parser = start_parser(b"1980-01-01T12:00:00.000");
    assert!(matches!(parser.parse_number_or_datetime(), Ok(Value::LocalDatetime(_))));

    let mut parser = start_parser(b"1980-01-01 12:00:00");
    assert!(matches!(parser.parse_number_or_datetime(), Ok(Value::LocalDatetime(_))));

    let mut parser = start_parser(b"1980-01-01");
    assert!(matches!(parser.parse_number_or_datetime(), Ok(Value::LocalDate(_))));

    let mut parser = start_parser(b"12:00:00.000000000");
    assert!(matches!(parser.parse_number_or_datetime(), Ok(Value::LocalTime(_))));

    let mut parser = start_parser(b"123");
    assert!(matches!(parser.parse_number_or_datetime(), Ok(Value::Integer(_))));

    let mut parser = start_parser(b"4.5");
    assert!(matches!(parser.parse_number_or_datetime(), Ok(Value::Float(_))));
}

#[test]
fn parser_parse_number_decimal() {
    let ok: [(&[u8], Value); 9] = [
        (b"123_456", integer("123456")),
        (b"+123_456", integer("+123456")),
        (b"-123_456", integer("-123456")),
        (b"0", integer("0")),
        (b"123_456.789_012", Value::Float(b"123456.789012".to_vec())),
        (b"123_456.789_012e345_678", Value::Float(b"123456.789012e345678".to_vec())),
        (b"123_456.789_012e+345_678", Value::Float(b"123456.789012e+345678".to_vec())),
        (b"123_456.789_012e-345_678", Value::Float(b"123456.789012e-345678".to_vec())),
        (b"123_456e345_678", Value::Float(b"123456e345678".to_vec())),
    ];
    for (src, expected) in ok {
        let mut parser = start_parser(src);
        assert_eq!(parser.parse_number_decimal().unwrap(), expected);
    }

    for src in [
        &b"0123"[..],
        &b"0_1"[..],
        &b"abc"[..],
        &b"-abc"[..],
        &b".123"[..],
        &b"123."[..],
        &b"123e"[..],
        &b"e123"[..],
        &b"123.e456"[..],
        &b"123.abc"[..],
        &b"123.456eabc"[..],
    ] {
        let mut parser = start_parser(src);
        assert!(matches!(kind(&parser.parse_number_decimal()), Some(ErrorKind::InvalidNumber(..))));
    }
}

#[test]
fn parser_parse_digits() {
    let mut parser = start_parser(b"123_456");
    assert_eq!(parser.parse_digits(ByteClass::Digit).unwrap(), b"123456");

    let mut parser = start_parser(b"abc_def");
    assert_eq!(parser.parse_digits(ByteClass::HexDigit).unwrap(), b"abcdef");

    for src in [&b"abc_def"[..], &b"_123_"[..], &b"_123"[..], &b"123_"[..], &b"123__456"[..], &b""[..]] {
        let mut parser = start_parser(src);
        assert!(matches!(kind(&parser.parse_digits(ByteClass::Digit)), Some(ErrorKind::InvalidNumber(..))));
    }
}

#[test]
fn parser_parse_number_special() {
    let ok: [(&[u8], SpecialFloat); 6] = [
        (b"inf", SpecialFloat::Infinity),
        (b"+inf", SpecialFloat::Infinity),
        (b"-inf", SpecialFloat::NegInfinity),
        (b"nan", SpecialFloat::Nan),
        (b"+nan", SpecialFloat::Nan),
        (b"-nan", SpecialFloat::NegNan),
    ];
    for (src, expected) in ok {
        let mut parser = start_parser(src);
        assert_eq!(parser.parse_number_special().unwrap(), expected);
    }

    for src in [&b"+1.0e+3"[..], &b"NaN"[..], &b"INF"[..], &b"abc"[..], &b"+abc"[..], &b"-abc"[..]] {
        let mut parser = start_parser(src);
        assert!(matches!(kind(&parser.parse_number_special()), Some(ErrorKind::ExpectedToken(..))));
    }
}

#[test]
fn parser_parse_array() {
    for src in [&b"]"[..], &b"  ]"[..], &b"    # comment\n]\n"[..]] {
        let mut parser = start_parser(src);
        assert!(parser.parse_array().unwrap().is_empty());
    }

    for src in [&b"123]"[..], &b"123,]"[..], &b"    123,\n]\n"[..]] {
        let mut parser = start_parser(src);
        assert_eq!(parser.parse_array().unwrap(), vec![integer("123")]);
    }

    for src in [
        &b"123, 456, 789]"[..],
        &b"123, 456, 789,]"[..],
        &b"    123,\n    456,\n    789,\n]\n"[..],
        &b"    123,\n    456, # comment\n    789 # comment\n]\n"[..],
    ] {
        let mut parser = start_parser(src);
        assert_eq!(parser.parse_array().unwrap(), vec![integer("123"), integer("456"), integer("789")]);
    }

    let mut parser = start_parser(b"123 abc]");
    assert!(matches!(kind(&parser.parse_array()), Some(ErrorKind::ExpectedToken(..))));
}

#[test]
fn parser_parse_inline_table() {
    let mut parser = start_parser(b"}");
    assert_eq!(parser.parse_inline_table().unwrap(), Table::new());

    let mut parser = start_parser(b"  }");
    assert_eq!(parser.parse_inline_table().unwrap(), Table::new());

    let mut parser = start_parser(b"abc = 123 }");
    assert_eq!(parser.parse_inline_table().unwrap(), table(vec![("abc", integer("123"))]));

    let mut parser = start_parser(b"abc = 123, def = 456, ghi = 789 }");
    assert_eq!(
        parser.parse_inline_table().unwrap(),
        table(vec![("abc", integer("123")), ("def", integer("456")), ("ghi", integer("789"))])
    );

    let mut parser = start_parser(b"abc = { def = 123, ghi = 456 } }");
    assert_eq!(
        parser.parse_inline_table().unwrap(),
        table(vec![("abc", Value::InlineTable(table(vec![("def", integer("123")), ("ghi", integer("456"))])))])
    );

    let mut parser = start_parser(b"abc.def = 123, abc.ghi = 456 }");
    assert_eq!(
        parser.parse_inline_table().unwrap(),
        table(vec![("abc", Value::DottedKeyTable(table(vec![("def", integer("123")), ("ghi", integer("456"))])))])
    );

    for src in [&b"abc 123 }"[..], &b"abc = 123, }"[..], &b"123 }"[..], &b"    abc = 123\n}\n"[..], &b"abc = 123, def = 456 "[..]] {
        let mut parser = start_parser(src);
        assert!(matches!(kind(&parser.parse_inline_table()), Some(ErrorKind::ExpectedToken(..))));
    }

    let mut parser = start_parser(b"abc = 123, abc = 456 }");
    assert!(matches!(kind(&parser.parse_inline_table()), Some(ErrorKind::DuplicateKey(..))));

    let mut parser = start_parser(b"abc = { def = 123 }, abc.ghi = 456 }");
    assert!(matches!(kind(&parser.parse_inline_table()), Some(ErrorKind::InvalidKeyPath(..))));
}

#[test]
fn parser_skip_whitespace() {
    let mut parser = start_parser(b"   ");
    parser.skip_whitespace();
    assert!(parser.line().is_empty());

    let mut parser = start_parser(b"   \t");
    parser.skip_whitespace();
    assert!(parser.line().is_empty());

    let mut parser = start_parser(b"   abc");
    parser.skip_whitespace();
    assert_eq!(parser.line(), b"abc");

    let mut parser = start_parser(b"   \t   abc");
    parser.skip_whitespace();
    assert_eq!(parser.line(), b"abc");

    let mut parser = start_parser(b"   \t   # comment");
    parser.skip_whitespace();
    assert_eq!(parser.line(), b"# comment");

    let mut parser = start_parser(b"abc");
    parser.skip_whitespace();
    assert_eq!(parser.line(), b"abc");

    let mut parser = start_parser(b"");
    parser.skip_whitespace();
    assert!(parser.line().is_empty());
}

#[test]
fn parser_skip_comment() {
    for src in [&b"# comment"[..], &b"# comment\n"[..], &b"# comment\r\n"[..]] {
        let mut parser = start_parser(src);
        parser.skip_comment().unwrap();
        assert!(parser.line().is_empty());
    }

    let mut parser = start_parser(b"abc");
    parser.skip_comment().unwrap();
    assert_eq!(parser.line(), b"abc");

    let mut parser = start_parser(b"# comment\xff");
    assert!(matches!(kind(&parser.skip_comment()), Some(ErrorKind::InvalidEncoding)));

    let mut parser = start_parser(b"# comment\0");
    assert!(matches!(kind(&parser.skip_comment()), Some(ErrorKind::IllegalChar(..))));
}

#[test]
fn parser_next_line() {
    let mut parser = Parser::from_str("[a]\nb = c\n");
    assert!(parser.next_line().is_some());
    assert_eq!(parser.line(), b"[a]");
    assert!(parser.next_line().is_some());
    assert_eq!(parser.line(), b"b = c");
    assert!(parser.next_line().is_none());
}

#[test]
fn key_display() {
    let key = Key { path: vec!["a".to_string(), "b".to_string()], name: "c".to_string() };
    assert_eq!(key.to_display_string(), "a.b.c");

    let key = Key { path: vec!["a".to_string()], name: "b".to_string() };
    assert_eq!(key.to_display_string(), "a.b");

    let key = Key { path: vec![], name: "a".to_string() };
    assert_eq!(key.to_display_string(), "a");
}

#[test]
fn parsed_inline_and_dotted_tables_keep_keys_once() {
    let mut parser = Parser::from_slice(b"a = { b = 1, c = { d = 2 } }\n[t]\nx.y = 1\nx.z = 2\n");
    let doc = parser.parse().unwrap();
    assert_eq!(
        doc,
        Value::Table(table(vec![
            ("a", Value::InlineTable(table(vec![("b", integer("1")), ("c", Value::InlineTable(table(vec![("d", integer("2"))])))]))),
            ("t", Value::Table(table(vec![("x", Value::DottedKeyTable(table(vec![("y", integer("1")), ("z", integer("2"))])))]))),
        ]))
    );

    let mut parser = Parser::from_slice(b"a = { b = 1, b = 2 }\n");
    assert!(matches!(kind(&parser.parse()), Some(ErrorKind::DuplicateKey(..))));
}

#[test]
fn crlf_line_ends_read_like_lf_line_ends() {
    let docs: [&[u8]; 6] = [
        b"a = 1\nb = 2",
        b"# head\n[t]\nx = \"\"\"\none\ntwo\"\"\"\ny = [\n  1,\n  2,\n]\n",
        b"[[a]]\nb = { c = 'd' }\n\n[[a]]\nb = true\n",
        b"s = '''\nx\n'''\nt = \"\"\"a \\\n\n   b\"\"\"\n",
        b"a = 1\na = 2\n",
        b"x = [1,\n",
    ];
    for doc in docs {
        let mut crlf = Vec::new();
        for &b in doc {
            if b == b'\n' {
                crlf.push(b'\r');
            }
            crlf.push(b);
        }
        let lf = Parser::from_slice(doc).parse();
        let cr = Parser::from_slice(&crlf).parse();
        match (lf, cr) {
            (Ok(x), Ok(y)) => assert_eq!(x, y),
            (Err(x), Err(y)) => assert_eq!(format!("{:?}", x.kind()), format!("{:?}", y.kind())),
            _ => panic!("the two line ends read differently"),
        }
    }
    assert!(matches!(kind(&Parser::from_slice(b"a = 1\rb = 2").parse()), Some(ErrorKind::ExpectedToken(..))));
}
