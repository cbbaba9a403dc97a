use soml::de::error::{expected_list, Error, ErrorKind, FloatError, IntegerError};

fn invalid_type_kind() -> ErrorKind {
    ErrorKind::InvalidType("foo".to_string(), "bar".to_string())
}

#[test]
fn error_error_display() {
    let error = Error::from_kind(invalid_type_kind());
    assert_eq!(error.message(), "invalid type: foo, expected bar");
}

#[test]
fn error_error_debug() {
    let error = Error::from_kind(invalid_type_kind());
    assert_eq!(error.debug_string(), r#"Error { type: InvalidType("foo", "bar"), .. }"#);
}

#[test]
fn error_error_custom() {
    let error = Error::custom("foo".to_string());
    assert!(matches!(error.kind(), ErrorKind::Custom(msg) if msg == "foo"));
}

#[test]
fn error_invalid_type() {
    let error = Error::invalid_type(r#"string "foo""#.to_string(), "bar".to_string());
    assert!(
        matches!(error.kind(), ErrorKind::InvalidType(unexp, exp) if unexp == r#"string "foo""# && exp == "bar")
    );
}

#[test]
fn error_invalid_value() {
    let error = Error::invalid_value(r#"string "foo""#.to_string(), "bar".to_string());
    assert!(
        matches!(error.kind(), ErrorKind::InvalidValue(unexp, exp) if unexp == r#"string "foo""# && exp == "bar")
    );
}

#[test]
fn error_invalid_length() {
    let error = Error::invalid_length(1, "bar".to_string());
    assert!(matches!(error.kind(), ErrorKind::InvalidLength(1, exp) if exp == "bar"));
}

#[test]
fn error_unknown_variant() {
    let error = Error::unknown_variant("foo", &[]);
    assert!(matches!(error.kind(), ErrorKind::UnknownVariant(var, exp) if var == "foo" && exp == "no variant"));

    let error = Error::unknown_variant("foo", &["bar"]);
    assert!(matches!(error.kind(), ErrorKind::UnknownVariant(var, exp) if var == "foo" && exp == "bar"));

    let error = Error::unknown_variant("foo", &["bar", "baz"]);
    assert!(matches!(error.kind(), ErrorKind::UnknownVariant(var, exp) if var == "foo" && exp == "bar or baz"));

    let error = Error::unknown_variant("foo", &["bar", "baz", "qux"]);
    assert!(
        matches!(error.kind(), ErrorKind::UnknownVariant(var, exp) if var == "foo" && exp == "bar, baz, or qux")
    );
}

#[test]
fn error_unknown_field() {
    let error = Error::unknown_field("foo", &[]);
    assert!(matches!(error.kind(), ErrorKind::UnknownField(fld, exp) if fld == "foo" && exp == "no field"));

    let error = Error::unknown_field("foo", &["bar"]);
    assert!(matches!(error.kind(), ErrorKind::UnknownField(fld, exp) if fld == "foo" && exp == "bar"));

    let error = Error::unknown_field("foo", &["bar", "baz"]);
    assert!(matches!(error.kind(), ErrorKind::UnknownField(fld, exp) if fld == "foo" && exp == "bar or baz"));

    let error = Error::unknown_field("foo", &["bar", "baz", "qux"]);
    assert!(
        matches!(error.kind(), ErrorKind::UnknownField(fld, exp) if fld == "foo" && exp == "bar, baz, or qux")
    );
}

#[test]
fn error_missing_field() {
    let error = Error::missing_field("foo");
    assert!(matches!(error.kind(), ErrorKind::MissingField(fld) if *fld == "foo"));
}

#[test]
fn error_duplicate_field() {
    let error = Error::duplicate_field("foo");
    assert!(matches!(error.kind(), ErrorKind::DuplicateField(fld) if *fld == "foo"));
}

#[test]
fn error_from_error_impl() {
    let err = Error::from_kind(invalid_type_kind());
    assert!(matches!(err.kind(), ErrorKind::InvalidType(..)));
}

#[test]
fn error_error_from_error_kind() {
    let kind = invalid_type_kind();
    let err = Error::from_kind(kind);
    assert!(matches!(err.kind(), ErrorKind::InvalidType(..)));
}

#[test]
fn error_impl_display() {
    let kind = invalid_type_kind();
    assert_eq!(kind.message(), "invalid type: foo, expected bar");
}

#[test]
fn error_error_kind_display() {
    let cases: Vec<(ErrorKind, &str)> = vec![
        (ErrorKind::InvalidEncoding, "file contains invalid UTF-8 bytes"),
        (ErrorKind::UnexpectedEof, "unexpected end of file"),
        (ErrorKind::IllegalChar(b'a'), "illegal character: 'a'"),
        (ErrorKind::UnterminatedString, "unterminated string"),
        (ErrorKind::InvalidEscape("foo".into()), "invalid escape sequence: foo"),
        (ErrorKind::InvalidNumber("foo".into()), "invalid number: foo"),
        (ErrorKind::InvalidDatetime, "invalid datetime"),
        (ErrorKind::ExpectedToken("foo".into()), "expected foo"),
        (ErrorKind::DuplicateKey("foo".into(), "bar".into()), "duplicate key: foo in bar"),
        (ErrorKind::InvalidTableHeader("foo".into()), "invalid table header: foo"),
        (ErrorKind::InvalidKeyPath("foo".into(), "bar".into()), "invalid key: foo in bar"),
        (ErrorKind::InvalidType("foo".into(), "bar".into()), "invalid type: foo, expected bar"),
        (ErrorKind::InvalidValue("foo".into(), "bar".into()), "invalid value: foo, expected bar"),
        (ErrorKind::InvalidLength(1, "bar".into()), "invalid length: 1, expected bar"),
        (ErrorKind::UnknownVariant("foo".into(), "bar".into()), "unknown variant: foo, expected bar"),
        (ErrorKind::UnknownField("foo".into(), "bar".into()), "unknown field: foo, expected bar"),
        (ErrorKind::MissingField("foo"), "missing field: foo"),
        (ErrorKind::DuplicateField("foo"), "duplicate field: foo"),
        (ErrorKind::Io(std::sync::Arc::new(std::io::Error::new(std::io::ErrorKind::NotFound, "foo"))), "IO error: foo"),
        (ErrorKind::Custom("foo".into()), "foo"),
    ];
    for (kind, expected) in cases {
        assert_eq!(kind.message(), expected);
    }
}

#[test]
fn error_kind_messages_of_numbers() {
    assert_eq!(
        ErrorKind::InvalidInteger(IntegerError::PosOverflow).message(),
        "invalid integer: number too large to fit in target type"
    );
    assert_eq!(
        ErrorKind::InvalidInteger(IntegerError::Empty).message(),
        "invalid integer: cannot parse integer from empty string"
    );
    assert_eq!(ErrorKind::InvalidLength(12345, "x".into()).message(), "invalid length: 12345, expected x");
    assert_eq!(ErrorKind::IllegalChar(0x7f).message(), "illegal character: '\\u{7f}'");
}

#[test]
fn error_kind_debug_strings() {
    assert_eq!(ErrorKind::InvalidEncoding.debug_string(), "InvalidEncoding");
    assert_eq!(ErrorKind::IllegalChar(b'a').debug_string(), "IllegalChar(97)");
    assert_eq!(ErrorKind::InvalidLength(3, "x".into()).debug_string(), r#"InvalidLength(3, "x")"#);
    assert_eq!(ErrorKind::MissingField("f").debug_string(), r#"MissingField("f")"#);
    assert_eq!(
        ErrorKind::InvalidInteger(IntegerError::InvalidDigit).debug_string(),
        "InvalidInteger(ParseIntError { kind: InvalidDigit })"
    );
    assert_eq!(ErrorKind::Custom("a\"b".into()).debug_string(), r#"Custom("a\"b")"#);
}

#[test]
fn expected_list_words() {
    assert_eq!(expected_list(&[], "none"), "none");
    assert_eq!(expected_list(&["a"], "none"), "a");
    assert_eq!(expected_list(&["a", "b"], "none"), "a or b");
    assert_eq!(expected_list(&["a", "b", "c", "d"], "none"), "a, b, c, or d");
}

#[test]
fn number_errors_show_like_the_standard_library_errors() {
    let int_err = "x".parse::<i32>().unwrap_err();
    assert_eq!(
        ErrorKind::InvalidInteger(IntegerError::InvalidDigit).debug_string(),
        format!("InvalidInteger({int_err:?})")
    );
    assert_eq!(
        ErrorKind::InvalidInteger(IntegerError::InvalidDigit).message(),
        format!("invalid integer: {int_err}")
    );
    for (text, kind) in [("", FloatError::Empty), ("1.2.3", FloatError::Invalid)] {
        let float_err = text.parse::<f64>().unwrap_err();
        assert_eq!(ErrorKind::InvalidFloat(kind).debug_string(), format!("InvalidFloat({float_err:?})"));
        assert_eq!(ErrorKind::InvalidFloat(kind).message(), format!("invalid float: {float_err}"));
    }
}

#[test]
fn io_errors_show_like_the_standard_library_error() {
    let io_err = || std::io::Error::new(std::io::ErrorKind::NotFound, "foo");
    let kind = ErrorKind::Io(std::sync::Arc::new(io_err()));
    assert_eq!(kind.debug_string(), format!("Io({:?})", io_err()));
    assert_eq!(kind.message(), "IO error: foo");
    let error = Error::from_kind(ErrorKind::Io(std::sync::Arc::new(io_err())));
    assert_eq!(error.debug_string(), format!("Error {{ type: Io({:?}), .. }}", io_err()));
}
