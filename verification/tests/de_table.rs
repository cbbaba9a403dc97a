use soml::de::reader::{utf8_len, Reader};
use soml::de::table::{append_array_of_tables, get_dotted_subtable, get_subtable, insert_table, TableAction, TableError};
use soml::de::value::{SpecialFloat, Table, Type, Value};

fn integer(s: &str) -> Value {
    Value::Integer(s.as_bytes().to_vec())
}

fn table(entries: Vec<(&str, Value)>) -> Table {
    entries.into_iter().map(|(k, v)| (k.to_string(), v)).collect()
}

fn path(keys: &[&str]) -> Vec<String> {
    keys.iter().map(|k| k.to_string()).collect()
}

fn lookup<'a>(t: &'a Table, key: &str) -> &'a Value {
    &t.iter().find(|(k, _)| k == key).unwrap().1
}

fn entry() -> TableAction {
    TableAction::Entry(Vec::new(), "z".to_string(), integer("1"))
}

fn subtable_fixture() -> Table {
    table(vec![
        ("a", Value::ArrayOfTables(vec![Vec::new()])),
        (
            "b",
            Value::Table(table(vec![
                ("c", Value::UndefinedTable(Vec::new())),
                ("d", Value::DottedKeyTable(Vec::new())),
                ("e", Value::Table(Vec::new())),
                ("f", Value::ArrayOfTables(vec![Vec::new()])),
                ("g", Value::InlineTable(Vec::new())),
                ("h", integer("123")),
            ])),
        ),
    ])
}

fn subtable_at(keys: &[&str]) -> (Result<(), TableError>, Table) {
    let mut t = subtable_fixture();
    let r = get_subtable(&mut t, &path(keys), 0, entry());
    (r, t)
}

fn dotted_fixture() -> Table {
    table(vec![
        ("a", Value::DottedKeyTable(Vec::new())),
        ("b", Value::UndefinedTable(Vec::new())),
        ("c", Value::Table(Vec::new())),
    ])
}

fn dotted_at(keys: &[&str], allow_undefined: bool) -> Result<(), TableError> {
    let mut t = dotted_fixture();
    get_dotted_subtable(&mut t, &path(keys), 0, allow_undefined, "z".to_string(), integer("1"))
}

#[test]
fn table_get_subtable() {
    let (r, t) = subtable_at(&[]);
    assert_eq!(r, Ok(()));
    assert_eq!(lookup(&t, "z"), &integer("1"));

    let (r, t) = subtable_at(&["a"]);
    assert_eq!(r, Ok(()));
    assert_eq!(lookup(&t, "a"), &Value::ArrayOfTables(vec![table(vec![("z", integer("1"))])]));

    let (r, t) = subtable_at(&["a", "b"]);
    assert_eq!(r, Ok(()));
    assert_eq!(
        lookup(&t, "a"),
        &Value::ArrayOfTables(vec![table(vec![("b", Value::UndefinedTable(table(vec![("z", integer("1"))])))])])
    );

    assert_eq!(subtable_at(&["a", "b", "c"]).0, Ok(()));
    assert_eq!(subtable_at(&["b", "a"]).0, Ok(()));
    assert_eq!(subtable_at(&["b", "c"]).0, Ok(()));
    assert_eq!(subtable_at(&["b", "d"]).0, Ok(()));
    assert_eq!(subtable_at(&["b", "e"]).0, Ok(()));
    assert_eq!(subtable_at(&["b", "f"]).0, Ok(()));
    assert_eq!(subtable_at(&["b", "g"]).0, Err(TableError::InvalidPath));
    assert_eq!(subtable_at(&["b", "h"]).0, Err(TableError::InvalidPath));
}

#[test]
fn table_get_dotted_subtable() {
    assert_eq!(dotted_at(&[], true), Ok(()));
    assert_eq!(dotted_at(&["a"], true), Ok(()));
    assert_eq!(dotted_at(&["a", "b"], true), Ok(()));
    assert_eq!(dotted_at(&["b"], true), Ok(()));
    assert_eq!(dotted_at(&["b", "c"], true), Ok(()));
    assert_eq!(dotted_at(&["c"], true), Err(TableError::InvalidPath));

    assert_eq!(dotted_at(&[], false), Ok(()));
    assert_eq!(dotted_at(&["a"], false), Ok(()));
    assert_eq!(dotted_at(&["a", "b"], false), Ok(()));
    assert_eq!(dotted_at(&["b"], false), Err(TableError::InvalidPath));
    assert_eq!(dotted_at(&["b", "c"], false), Err(TableError::InvalidPath));
    assert_eq!(dotted_at(&["c"], false), Err(TableError::InvalidPath));

    let mut t = dotted_fixture();
    let r = get_dotted_subtable(&mut t, &path(&["b", "c"]), 0, true, "z".to_string(), integer("1"));
    assert_eq!(r, Ok(()));
    assert_eq!(
        lookup(&t, "b"),
        &Value::DottedKeyTable(table(vec![("c", Value::DottedKeyTable(table(vec![("z", integer("1"))])))]))
    );

    let mut t = dotted_fixture();
    let r = get_dotted_subtable(&mut t, &path(&["a"]), 0, true, "z".to_string(), integer("1"));
    assert_eq!(r, Ok(()));
    let r = get_dotted_subtable(&mut t, &path(&["a"]), 0, true, "z".to_string(), integer("2"));
    assert_eq!(r, Err(TableError::Duplicate));
}

#[test]
fn table_insert_table() {
    let mut t = table(vec![("a", Value::UndefinedTable(Vec::new()))]);
    assert!(insert_table(&mut t, "a".to_string()));
    assert!(insert_table(&mut t, "b".to_string()));
    assert_eq!(t.len(), 2);
    assert_eq!(lookup(&t, "a"), &Value::Table(Vec::new()));
    assert_eq!(lookup(&t, "b"), &Value::Table(Vec::new()));

    let mut t = table(vec![("a", Value::Table(Vec::new()))]);
    assert!(!insert_table(&mut t, "a".to_string()));
}

#[test]
fn table_append_array_of_tables() {
    let mut t = table(vec![("a", Value::ArrayOfTables(vec![]))]);
    assert!(append_array_of_tables(&mut t, "a".to_string()));
    assert!(append_array_of_tables(&mut t, "a".to_string()));
    assert!(append_array_of_tables(&mut t, "b".to_string()));
    assert_eq!(t.len(), 2);
    assert!(matches!(lookup(&t, "a"), Value::ArrayOfTables(v) if v.len() == 2));
    assert!(matches!(lookup(&t, "b"), Value::ArrayOfTables(v) if v.len() == 1));

    let mut t = table(vec![("a", Value::Table(Vec::new()))]);
    assert!(!append_array_of_tables(&mut t, "a".to_string()));
}

#[test]
fn table_header_actions_at_the_end_of_a_path() {
    let mut t = Vec::new();
    assert_eq!(get_subtable(&mut t, &path(&["x", "y"]), 0, TableAction::Table("t".to_string())), Ok(()));
    assert_eq!(
        t,
        table(vec![(
            "x",
            Value::UndefinedTable(table(vec![("y", Value::UndefinedTable(table(vec![("t", Value::Table(Vec::new()))])))]))
        )])
    );
    assert_eq!(
        get_subtable(&mut t, &path(&["x", "y"]), 0, TableAction::Table("t".to_string())),
        Err(TableError::InvalidPath)
    );
    assert_eq!(get_subtable(&mut t, &path(&["x"]), 0, TableAction::ArrayOfTables("u".to_string())), Ok(()));
    assert_eq!(get_subtable(&mut t, &path(&["x"]), 0, TableAction::ArrayOfTables("u".to_string())), Ok(()));
    assert!(matches!(lookup(&t, "x"), Value::UndefinedTable(x) if matches!(lookup(x, "u"), Value::ArrayOfTables(a) if a.len() == 2)));
}

const FOUR_LINES: &str = "[a]\nb = 1\nc = 2\nd = 3\n";

#[test]
fn slice_reader_from_str() {
    let r = Reader::from_str(FOUR_LINES);
    assert_eq!(r.bytes(), FOUR_LINES.as_bytes());
    assert_eq!(r.line_no(), 0);
}

#[test]
fn slice_reader_from_slice() {
    let r = Reader::from_slice(FOUR_LINES.as_bytes());
    assert_eq!(r.bytes(), FOUR_LINES.as_bytes());
    assert_eq!(r.line_no(), 0);
}

#[test]
fn slice_reader_next_line() {
    let mut reader = Reader::from_slice(FOUR_LINES.as_bytes());

    assert_eq!(reader.next_line(), Some(&b"[a]"[..]));
    assert_eq!(reader.line_no(), 1);

    assert_eq!(reader.next_line(), Some(&b"b = 1"[..]));
    assert_eq!(reader.line_no(), 2);

    assert_eq!(reader.next_line(), Some(&b"c = 2"[..]));
    assert_eq!(reader.line_no(), 3);

    assert_eq!(reader.next_line(), Some(&b"d = 3"[..]));
    assert_eq!(reader.line_no(), 4);

    assert_eq!(reader.next_line(), None);
    assert_eq!(reader.line_no(), 4);
}

#[test]
fn slice_reader_line_no() {
    let mut reader = Reader::from_slice(FOUR_LINES.as_bytes());
    assert_eq!(reader.line_no(), 0);
    for _ in 0..3 {
        let _ = reader.next_line();
    }
    assert_eq!(reader.line_no(), 3);
}

#[test]
fn slice_reader_crlf_and_empty_lines() {
    let mut reader = Reader::from_slice(b"a\r\n\nb");
    assert_eq!(reader.next_line(), Some(&b"a"[..]));
    assert_eq!(reader.next_line(), Some(&b""[..]));
    assert_eq!(reader.next_line(), Some(&b"b"[..]));
    assert_eq!(reader.next_line(), None);
    assert_eq!(reader.line_no(), 3);
}

#[test]
fn test_utf8_len() {
    let mut buf = [0; 4];
    let mut ch = '\0';
    loop {
        let s = ch.encode_utf8(&mut buf);
        assert_eq!(utf8_len(s.as_bytes()[0]), Some(s.len()));
        if ch == char::MAX {
            break;
        }
        ch = match char::from_u32(ch as u32 + 1) {
            Some(c) => c,
            None => '\u{E000}',
        };
    }
    assert_eq!(utf8_len(0x80), None);
    assert_eq!(utf8_len(0xff), None);
}

#[test]
fn type_to_str() {
    assert_eq!(Type::String.to_str(), "string");
    assert_eq!(Type::Integer.to_str(), "integer");
    assert_eq!(Type::Float.to_str(), "float");
    assert_eq!(Type::Boolean.to_str(), "boolean");
    assert_eq!(Type::Datetime.to_str(), "datetime");
    assert_eq!(Type::Array.to_str(), "array");
    assert_eq!(Type::Table.to_str(), "table");
}

#[test]
fn value_type() {
    assert_eq!(Value::String("foo".into()).typ(), Type::String);
    assert_eq!(Value::Integer(b"123".to_vec()).typ(), Type::Integer);
    assert_eq!(Value::BinaryInt(b"123".to_vec()).typ(), Type::Integer);
    assert_eq!(Value::OctalInt(b"123".to_vec()).typ(), Type::Integer);
    assert_eq!(Value::HexInt(b"123".to_vec()).typ(), Type::Integer);
    assert_eq!(Value::Float(b"123".to_vec()).typ(), Type::Float);
    assert_eq!(Value::SpecialFloat(SpecialFloat::Infinity).typ(), Type::Float);
    assert_eq!(Value::Boolean(true).typ(), Type::Boolean);
    assert_eq!(Value::OffsetDatetime(Vec::new()).typ(), Type::Datetime);
    assert_eq!(Value::LocalDatetime(Vec::new()).typ(), Type::Datetime);
    assert_eq!(Value::LocalDate(Vec::new()).typ(), Type::Datetime);
    assert_eq!(Value::LocalTime(Vec::new()).typ(), Type::Datetime);
    assert_eq!(Value::Array(vec![]).typ(), Type::Array);
    assert_eq!(Value::ArrayOfTables(vec![]).typ(), Type::Array);
    assert_eq!(Value::Table(Table::new()).typ(), Type::Table);
    assert_eq!(Value::InlineTable(Table::new()).typ(), Type::Table);
    assert_eq!(Value::UndefinedTable(Table::new()).typ(), Type::Table);
    assert_eq!(Value::DottedKeyTable(Table::new()).typ(), Type::Table);
}

#[test]
fn line_no_counts_the_lines_returned() {
    for text in ["", "a", "a\n", "a\r\nb\n\nc", "\n\n\n"] {
        let mut reader = Reader::from_str(text);
        let mut returned = 0;
        for _ in 0..6 {
            if reader.next_line().is_some() {
                returned += 1;
            }
            assert_eq!(reader.line_no(), returned);
        }
    }
    let mut reader = Reader::from_str("a\r\nb\n\nc");
    for _ in 0..10 {
        reader.next_line();
    }
    assert_eq!(reader.line_no(), 4);
}

#[test]
fn refused_headers_leave_the_table_as_it_was() {
    let make = || table(vec![("a", Value::Table(vec![("x".to_string(), integer("1"))])), ("b", integer("2"))]);
    let original = make();
    let mut t = make();
    assert!(!insert_table(&mut t, "a".to_string()));
    assert_eq!(t, original);
    assert!(!insert_table(&mut t, "b".to_string()));
    assert_eq!(t, original);
    assert!(!append_array_of_tables(&mut t, "a".to_string()));
    assert_eq!(t, original);
}
