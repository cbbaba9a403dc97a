//! Deserialization error types

use vstd::prelude::*;
use vstd::string::StringExecFns;

use crate::ser::writer::{decimal_repr, Integer};
use crate::text::{char_debug, debug_char, debug_str, io_debug, io_display, str_debug};

verus! {

/// Why a string of digits does not denote an integer of the requested type.
#[derive(Debug, Clone, Copy, PartialEq, Eq)]
pub enum IntegerError {
    /// There are no digits
    Empty,
    /// A byte is not a digit of the radix
    InvalidDigit,
    /// The number is too large for the type
    PosOverflow,
    /// The number is too small for the type
    NegOverflow,
}

/// Why text does not denote a float.
#[derive(Debug, Clone, Copy, PartialEq, Eq)]
pub enum FloatError {
    /// There is no text
    Empty,
    /// The text is not a float literal
    Invalid,
}

/// The kind of a deserialization error.
#[derive(Debug, Clone)]
pub enum ErrorKind {
    // Parser errors
    /// File is not UTF-8 encoded
    InvalidEncoding,
    /// End of file
    UnexpectedEof,
    /// Illegal control character
    IllegalChar(u8),
    /// Unterminated string
    UnterminatedString,
    /// Invalid escape sequence
    InvalidEscape(String),
    /// Invalid number
    InvalidNumber(String),
    /// Invalid datetime
    InvalidDatetime,
    /// Unexpected token
    ExpectedToken(String),
    /// Duplicate key
    DuplicateKey(String, String),
    /// Invalid table header
    InvalidTableHeader(String),
    /// Invalid key path
    InvalidKeyPath(String, String),
    /// Invalid integer (the digits do not fit the requested type)
    InvalidInteger(IntegerError),
    /// Invalid float
    InvalidFloat(FloatError),

    // Serde errors
    /// Invalid type (unexpected, expected)
    InvalidType(String, String),
    /// Invalid value (unexpected, expected)
    InvalidValue(String, String),
    /// Invalid length (length, expected)
    InvalidLength(usize, String),
    /// Unknown variant (variant, expected)
    UnknownVariant(String, String),
    /// Unknown field (field, expected)
    UnknownField(String, String),
    /// Missing field (field)
    MissingField(&'static str),
    /// Duplicate field (field)
    DuplicateField(&'static str),

    // Misc
    /// IO Error
    Io(std::sync::Arc<std::io::Error>),
    /// Custom error message
    Custom(String),
}

/// The model of the errors that the parser reports.
pub enum SpecError {
    InvalidEncoding,
    IllegalChar(u8),
    UnterminatedString,
    InvalidEscape(Seq<char>),
    InvalidNumber(Seq<char>),
    ExpectedToken(Seq<char>),
    DuplicateKey(Seq<char>, Seq<char>),
    InvalidTableHeader(Seq<char>),
    InvalidKeyPath(Seq<char>, Seq<char>),
    Other,
}

impl ErrorKind {
    /// The model of this error, as far as the parser is concerned.
    pub open spec fn spec_error(&self) -> SpecError {
        match self {
            ErrorKind::InvalidEncoding => SpecError::InvalidEncoding,
            ErrorKind::IllegalChar(b) => SpecError::IllegalChar(*b),
            ErrorKind::UnterminatedString => SpecError::UnterminatedString,
            ErrorKind::InvalidEscape(s) => SpecError::InvalidEscape(s@),
            ErrorKind::InvalidNumber(s) => SpecError::InvalidNumber(s@),
            ErrorKind::ExpectedToken(s) => SpecError::ExpectedToken(s@),
            ErrorKind::DuplicateKey(k, t) => SpecError::DuplicateKey(k@, t@),
            ErrorKind::InvalidTableHeader(k) => SpecError::InvalidTableHeader(k@),
            ErrorKind::InvalidKeyPath(k, t) => SpecError::InvalidKeyPath(k@, t@),
            _ => SpecError::Other,
        }
    }
}

impl IntegerError {
    /// How the standard library describes this error.
    pub open spec fn spec_text(self) -> Seq<char> {
        match self {
            IntegerError::Empty => "cannot parse integer from empty string"@,
            IntegerError::InvalidDigit => "invalid digit found in string"@,
            IntegerError::PosOverflow => "number too large to fit in target type"@,
            IntegerError::NegOverflow => "number too small to fit in target type"@,
        }
    }

    /// The name of the variant.
    pub open spec fn spec_name(self) -> Seq<char> {
        match self {
            IntegerError::Empty => "ParseIntError { kind: Empty }"@,
            IntegerError::InvalidDigit => "ParseIntError { kind: InvalidDigit }"@,
            IntegerError::PosOverflow => "ParseIntError { kind: PosOverflow }"@,
            IntegerError::NegOverflow => "ParseIntError { kind: NegOverflow }"@,
        }
    }

    /// How the standard library describes this error.
    pub fn text(&self) -> (r: &'static str)
        ensures
            r@ == self.spec_text(),
    {
        match self {
            IntegerError::Empty => "cannot parse integer from empty string",
            IntegerError::InvalidDigit => "invalid digit found in string",
            IntegerError::PosOverflow => "number too large to fit in target type",
            IntegerError::NegOverflow => "number too small to fit in target type",
        }
    }

    /// The name of the variant.
    pub fn name(&self) -> (r: &'static str)
        ensures
            r@ == self.spec_name(),
    {
        match self {
            IntegerError::Empty => "ParseIntError { kind: Empty }",
            IntegerError::InvalidDigit => "ParseIntError { kind: InvalidDigit }",
            IntegerError::PosOverflow => "ParseIntError { kind: PosOverflow }",
            IntegerError::NegOverflow => "ParseIntError { kind: NegOverflow }",
        }
    }
}

impl FloatError {
    /// How the standard library describes this error.
    pub open spec fn spec_text(self) -> Seq<char> {
        match self {
            FloatError::Empty => "cannot parse float from empty string"@,
            FloatError::Invalid => "invalid float literal"@,
        }
    }

    /// How `{:?}` shows the standard library's error.
    pub open spec fn spec_name(self) -> Seq<char> {
        match self {
            FloatError::Empty => "ParseFloatError { kind: Empty }"@,
            FloatError::Invalid => "ParseFloatError { kind: Invalid }"@,
        }
    }

    /// How the standard library describes this error.
    pub fn text(&self) -> (r: &'static str)
        ensures
            r@ == self.spec_text(),
    {
        match self {
            FloatError::Empty => "cannot parse float from empty string",
            FloatError::Invalid => "invalid float literal",
        }
    }

    /// How `{:?}` shows the standard library's error.
    pub fn name(&self) -> (r: &'static str)
        ensures
            r@ == self.spec_name(),
    {
        match self {
            FloatError::Empty => "ParseFloatError { kind: Empty }",
            FloatError::Invalid => "ParseFloatError { kind: Invalid }",
        }
    }
}

/// `text` is `lead`, then anything, then `tail`.
pub open spec fn framed(text: Seq<char>, lead: Seq<char>, tail: Seq<char>) -> bool {
    &&& text.len() >= lead.len() + tail.len()
    &&& text.take(lead.len() as int) == lead
    &&& text.skip(text.len() - tail.len()) == tail
}

/// Text that starts with `lead` and ends with `tail` is framed by them.
pub proof fn lemma_framed(lead: Seq<char>, mid: Seq<char>, tail: Seq<char>)
    ensures
        framed(lead + mid + tail, lead, tail),
{
    let t = lead + mid + tail;
    assert(t.take(lead.len() as int) =~= lead);
    assert(t.skip(t.len() - tail.len()) =~= tail);
}

/// `name(a)`, as `{:?}` shows a variant with one field.
pub open spec fn debug_tuple1(name: Seq<char>, a: Seq<char>) -> Seq<char> {
    name + seq!['('] + a + seq![')']
}

/// `name(a, b)`, as `{:?}` shows a variant with two fields.
pub open spec fn debug_tuple2(name: Seq<char>, a: Seq<char>, b: Seq<char>) -> Seq<char> {
    name + seq!['('] + a + seq![',', ' '] + b + seq![')']
}

impl ErrorKind {
    /// The message of this error (for an I/O error, the words before the I/O error's own text,
    /// which std writes).
    pub open spec fn spec_message(&self) -> Seq<char> {
        match self {
            ErrorKind::InvalidEncoding => "file contains invalid UTF-8 bytes"@,
            ErrorKind::UnexpectedEof => "unexpected end of file"@,
            ErrorKind::IllegalChar(b) => "illegal character: "@ + char_debug(*b as char),
            ErrorKind::UnterminatedString => "unterminated string"@,
            ErrorKind::InvalidEscape(s) => "invalid escape sequence: "@ + s@,
            ErrorKind::InvalidNumber(s) => "invalid number: "@ + s@,
            ErrorKind::InvalidDatetime => "invalid datetime"@,
            ErrorKind::ExpectedToken(t) => "expected "@ + t@,
            ErrorKind::DuplicateKey(k, t) => "duplicate key: "@ + k@ + " in "@ + t@,
            ErrorKind::InvalidTableHeader(k) => "invalid table header: "@ + k@,
            ErrorKind::InvalidKeyPath(k, t) => "invalid key: "@ + k@ + " in "@ + t@,
            ErrorKind::InvalidInteger(e) => "invalid integer: "@ + e.spec_text(),
            ErrorKind::InvalidFloat(e) => "invalid float: "@ + e.spec_text(),
            ErrorKind::InvalidType(u, e) => "invalid type: "@ + u@ + ", expected "@ + e@,
            ErrorKind::InvalidValue(u, e) => "invalid value: "@ + u@ + ", expected "@ + e@,
            ErrorKind::InvalidLength(n, e) => "invalid length: "@ + decimal_repr(*n as int) + ", expected "@ + e@,
            ErrorKind::UnknownVariant(v, e) => "unknown variant: "@ + v@ + ", expected "@ + e@,
            ErrorKind::UnknownField(f, e) => "unknown field: "@ + f@ + ", expected "@ + e@,
            ErrorKind::MissingField(f) => "missing field: "@ + f@,
            ErrorKind::DuplicateField(f) => "duplicate field: "@ + f@,
            ErrorKind::Io(_) => "IO error: "@,
            ErrorKind::Custom(m) => m@,
        }
    }

    /// This error as `{:?}` shows it (for an I/O error, what comes before the I/O error as std
    /// shows it, which is followed by `)`).
    pub open spec fn spec_debug(&self) -> Seq<char> {
        match self {
            ErrorKind::InvalidEncoding => "InvalidEncoding"@,
            ErrorKind::UnexpectedEof => "UnexpectedEof"@,
            ErrorKind::IllegalChar(b) => debug_tuple1("IllegalChar"@, decimal_repr(*b as int)),
            ErrorKind::UnterminatedString => "UnterminatedString"@,
            ErrorKind::InvalidEscape(s) => debug_tuple1("InvalidEscape"@, str_debug(s@)),
            ErrorKind::InvalidNumber(s) => debug_tuple1("InvalidNumber"@, str_debug(s@)),
            ErrorKind::InvalidDatetime => "InvalidDatetime"@,
            ErrorKind::ExpectedToken(t) => debug_tuple1("ExpectedToken"@, str_debug(t@)),
            ErrorKind::DuplicateKey(k, t) => debug_tuple2("DuplicateKey"@, str_debug(k@), str_debug(t@)),
            ErrorKind::InvalidTableHeader(k) => debug_tuple1("InvalidTableHeader"@, str_debug(k@)),
            ErrorKind::InvalidKeyPath(k, t) => debug_tuple2("InvalidKeyPath"@, str_debug(k@), str_debug(t@)),
            ErrorKind::InvalidInteger(e) => debug_tuple1("InvalidInteger"@, e.spec_name()),
            ErrorKind::InvalidFloat(e) => debug_tuple1("InvalidFloat"@, e.spec_name()),
            ErrorKind::InvalidType(u, e) => debug_tuple2("InvalidType"@, str_debug(u@), str_debug(e@)),
            ErrorKind::InvalidValue(u, e) => debug_tuple2("InvalidValue"@, str_debug(u@), str_debug(e@)),
            ErrorKind::InvalidLength(n, e) => debug_tuple2("InvalidLength"@, decimal_repr(*n as int), str_debug(e@)),
            ErrorKind::UnknownVariant(v, e) => debug_tuple2("UnknownVariant"@, str_debug(v@), str_debug(e@)),
            ErrorKind::UnknownField(f, e) => debug_tuple2("UnknownField"@, str_debug(f@), str_debug(e@)),
            ErrorKind::MissingField(f) => debug_tuple1("MissingField"@, str_debug(f@)),
            ErrorKind::DuplicateField(f) => debug_tuple1("DuplicateField"@, str_debug(f@)),
            ErrorKind::Io(_) => "Io("@,
            ErrorKind::Custom(m) => debug_tuple1("Custom"@, str_debug(m@)),
        }
    }

    /// The message of this error (what `Display` shows).
    pub fn message(&self) -> (r: String)
        ensures
            !(self is Io) ==> r@ == self.spec_message(),
            self is Io ==> framed(r@, self.spec_message(), Seq::empty()),
    {
        let mut s = String::new();
        match self {
            ErrorKind::InvalidEncoding => s.append("file contains invalid UTF-8 bytes"),
            ErrorKind::UnexpectedEof => s.append("unexpected end of file"),
            ErrorKind::IllegalChar(b) => {
                s.append("illegal character: ");
                s.append(debug_char(*b as char).as_str());
            },
            ErrorKind::UnterminatedString => s.append("unterminated string"),
            ErrorKind::InvalidEscape(seq) => {
                s.append("invalid escape sequence: ");
                s.append(seq.as_str());
            },
            ErrorKind::InvalidNumber(e) => {
                s.append("invalid number: ");
                s.append(e.as_str());
            },
            ErrorKind::InvalidDatetime => s.append("invalid datetime"),
            ErrorKind::ExpectedToken(t) => {
                s.append("expected ");
                s.append(t.as_str());
            },
            ErrorKind::DuplicateKey(k, t) => {
                s.append("duplicate key: ");
                s.append(k.as_str());
                s.append(" in ");
                s.append(t.as_str());
            },
            ErrorKind::InvalidTableHeader(k) => {
                s.append("invalid table header: ");
                s.append(k.as_str());
            },
            ErrorKind::InvalidKeyPath(k, t) => {
                s.append("invalid key: ");
                s.append(k.as_str());
                s.append(" in ");
                s.append(t.as_str());
            },
            ErrorKind::InvalidInteger(e) => {
                s.append("invalid integer: ");
                s.append(e.text());
            },
            ErrorKind::InvalidFloat(e) => {
                s.append("invalid float: ");
                s.append(e.text());
            },
            ErrorKind::InvalidType(u, e) => {
                s.append("invalid type: ");
                s.append(u.as_str());
                s.append(", expected ");
                s.append(e.as_str());
            },
            ErrorKind::InvalidValue(u, e) => {
                s.append("invalid value: ");
                s.append(u.as_str());
                s.append(", expected ");
                s.append(e.as_str());
            },
            ErrorKind::InvalidLength(n, e) => {
                s.append("invalid length: ");
                n.fmt(&mut s);
                s.append(", expected ");
                s.append(e.as_str());
            },
            ErrorKind::UnknownVariant(v, e) => {
                s.append("unknown variant: ");
                s.append(v.as_str());
                s.append(", expected ");
                s.append(e.as_str());
            },
            ErrorKind::UnknownField(f, e) => {
                s.append("unknown field: ");
                s.append(f.as_str());
                s.append(", expected ");
                s.append(e.as_str());
            },
            ErrorKind::MissingField(f) => {
                s.append("missing field: ");
                s.append(f);
            },
            ErrorKind::DuplicateField(f) => {
                s.append("duplicate field: ");
                s.append(f);
            },
            ErrorKind::Io(e) => {
                s.append("IO error: ");
                let t = io_display(e);
                s.append(t.as_str());
                proof {
                    lemma_framed("IO error: "@, t@, Seq::empty());
                    assert(s@ =~= "IO error: "@ + t@ + Seq::empty());
                }
            },
            ErrorKind::Custom(m) => s.append(m.as_str()),
        }
        s
    }

    /// This error as `{:?}` shows it.
    pub fn debug_string(&self) -> (r: String)
        ensures
            !(self is Io) ==> r@ == self.spec_debug(),
            self is Io ==> framed(r@, self.spec_debug(), ")"@),
    {
        proof {
            reveal_strlit("(");
            reveal_strlit(")");
            reveal_strlit(", ");
        }
        let mut s = String::new();
        match self {
            ErrorKind::InvalidEncoding => s.append("InvalidEncoding"),
            ErrorKind::UnexpectedEof => s.append("UnexpectedEof"),
            ErrorKind::IllegalChar(b) => {
                s.append("IllegalChar");
                s.append("(");
                b.fmt(&mut s);
                s.append(")");
            },
            ErrorKind::UnterminatedString => s.append("UnterminatedString"),
            ErrorKind::InvalidEscape(seq) => debug_one(&mut s, "InvalidEscape", seq.as_str()),
            ErrorKind::InvalidNumber(e) => debug_one(&mut s, "InvalidNumber", e.as_str()),
            ErrorKind::InvalidDatetime => s.append("InvalidDatetime"),
            ErrorKind::ExpectedToken(t) => debug_one(&mut s, "ExpectedToken", t.as_str()),
            ErrorKind::DuplicateKey(k, t) => debug_two(&mut s, "DuplicateKey", k.as_str(), t.as_str()),
            ErrorKind::InvalidTableHeader(k) => debug_one(&mut s, "InvalidTableHeader", k.as_str()),
            ErrorKind::InvalidKeyPath(k, t) => debug_two(&mut s, "InvalidKeyPath", k.as_str(), t.as_str()),
            ErrorKind::InvalidInteger(e) => {
                s.append("InvalidInteger");
                s.append("(");
                s.append(e.name());
                s.append(")");
            },
            ErrorKind::InvalidFloat(e) => {
                s.append("InvalidFloat");
                s.append("(");
                s.append(e.name());
                s.append(")");
            },
            ErrorKind::InvalidType(u, e) => debug_two(&mut s, "InvalidType", u.as_str(), e.as_str()),
            ErrorKind::InvalidValue(u, e) => debug_two(&mut s, "InvalidValue", u.as_str(), e.as_str()),
            ErrorKind::InvalidLength(n, e) => {
                s.append("InvalidLength");
                s.append("(");
                n.fmt(&mut s);
                s.append(", ");
                s.append(debug_str(e.as_str()).as_str());
                s.append(")");
            },
            ErrorKind::UnknownVariant(v, e) => debug_two(&mut s, "UnknownVariant", v.as_str(), e.as_str()),
            ErrorKind::UnknownField(f, e) => debug_two(&mut s, "UnknownField", f.as_str(), e.as_str()),
            ErrorKind::MissingField(f) => debug_one(&mut s, "MissingField", f),
            ErrorKind::DuplicateField(f) => debug_one(&mut s, "DuplicateField", f),
            ErrorKind::Io(e) => {
                s.append("Io(");
                let t = io_debug(e);
                s.append(t.as_str());
                s.append(")");
                proof {
                    reveal_strlit("Io(");
                    lemma_framed("Io("@, t@, ")"@);
                    assert(s@ =~= "Io("@ + t@ + ")"@);
                }
                return s;
            },
            ErrorKind::Custom(m) => debug_one(&mut s, "Custom", m.as_str()),
        }
        assert(s@ =~= self.spec_debug());
        s
    }
}

/// Appends `name(a)` with `a` as `{:?}` shows it.
fn debug_one(s: &mut String, name: &str, a: &str)
    ensures
        final(s)@ == old(s)@ + debug_tuple1(name@, str_debug(a@)),
{
    s.append(name);
    s.append("(");
    s.append(debug_str(a).as_str());
    s.append(")");
    proof {
        reveal_strlit("(");
        reveal_strlit(")");
    }
    assert(s@ =~= old(s)@ + debug_tuple1(name@, str_debug(a@)));
}

/// Appends `name(a, b)` with `a` and `b` as `{:?}` shows them.
fn debug_two(s: &mut String, name: &str, a: &str, b: &str)
    ensures
        final(s)@ == old(s)@ + debug_tuple2(name@, str_debug(a@), str_debug(b@)),
{
    s.append(name);
    s.append("(");
    s.append(debug_str(a).as_str());
    s.append(", ");
    s.append(debug_str(b).as_str());
    s.append(")");
    proof {
        reveal_strlit("(");
        reveal_strlit(")");
        reveal_strlit(", ");
    }
    assert(s@ =~= old(s)@ + debug_tuple2(name@, str_debug(a@), str_debug(b@)));
}

/// A TOML Deserialization error
#[derive(Debug, Clone)]
pub struct Error {
    kind: ErrorKind,
}

impl Error {
    /// The kind of this error.
    pub closed spec fn spec_kind(&self) -> ErrorKind {
        self.kind
    }

    /// The model of this error, as far as the parser is concerned.
    pub open spec fn spec_error(&self) -> SpecError {
        self.spec_kind().spec_error()
    }

    /// Creates an error of the given kind.
    pub fn from_kind(kind: ErrorKind) -> (r: Error)
        ensures
            r.spec_kind() == kind,
    {
        Error { kind }
    }

    /// The kind of this error.
    pub fn kind(&self) -> (r: &ErrorKind)
        ensures
            *r == self.spec_kind(),
    {
        &self.kind
    }

    /// The message of this error (what `Display` shows).
    pub fn message(&self) -> (r: String)
        ensures
            !(self.spec_kind() is Io) ==> r@ == self.spec_kind().spec_message(),
            self.spec_kind() is Io ==> framed(r@, self.spec_kind().spec_message(), Seq::empty()),
    {
        self.kind.message()
    }

    /// This error as `{:?}` shows it: `Error { type: <kind>, .. }`.
    pub fn debug_string(&self) -> (r: String)
        ensures
            !(self.spec_kind() is Io) ==> r@ == "Error { type: "@ + self.spec_kind().spec_debug() + ", .. }"@,
            self.spec_kind() is Io ==> framed(r@, "Error { type: Io("@, "), .. }"@),
    {
        let mut s = String::new();
        s.append("Error { type: ");
        let k = self.kind.debug_string();
        s.append(k.as_str());
        s.append(", .. }");
        proof {
            reveal_strlit("Error { type: ");
            reveal_strlit(", .. }");
            reveal_strlit("Error { type: Io(");
            reveal_strlit("), .. }");
            reveal_strlit("Io(");
            if self.spec_kind() is Io {
                reveal_strlit(")");
                let m = k@.subrange(3, k@.len() - 1);
                assert(self.spec_kind().spec_debug() == "Io("@);
                assert("Io("@.len() == 3);
                assert(")"@.len() == 1);
                assert(k@.take(3) == "Io("@);
                assert(k@.skip(k@.len() - 1) == ")"@);
                assert(k@ =~= k@.take(3) + m + k@.skip(k@.len() - 1));
                assert(k@ =~= "Io("@ + m + ")"@);
                lemma_framed("Error { type: Io("@, m, "), .. }"@);
                assert(s@ =~= "Error { type: Io("@ + m + "), .. }"@);
            }
        }
        s
    }

    /// A custom error with the given message.
    pub fn custom(msg: String) -> (r: Error)
        ensures
            r.spec_kind() == ErrorKind::Custom(msg),
    {
        Error { kind: ErrorKind::Custom(msg) }
    }

    /// A value of an unexpected type (both descriptions as text).
    pub fn invalid_type(unexp: String, exp: String) -> (r: Error)
        ensures
            r.spec_kind() == ErrorKind::InvalidType(unexp, exp),
    {
        Error { kind: ErrorKind::InvalidType(unexp, exp) }
    }

    /// An unexpected value (both descriptions as text).
    pub fn invalid_value(unexp: String, exp: String) -> (r: Error)
        ensures
            r.spec_kind() == ErrorKind::InvalidValue(unexp, exp),
    {
        Error { kind: ErrorKind::InvalidValue(unexp, exp) }
    }

    /// A sequence or map of an unexpected length.
    pub fn invalid_length(len: usize, exp: String) -> (r: Error)
        ensures
            r.spec_kind() == ErrorKind::InvalidLength(len, exp),
    {
        Error { kind: ErrorKind::InvalidLength(len, exp) }
    }

    /// An enum variant that is not one of the expected ones.
    pub fn unknown_variant(variant: &str, expected: &[&str]) -> (r: Error)
        ensures
            r.spec_kind() matches ErrorKind::UnknownVariant(v, e) && v@ == variant@ && e@
                == expected_text(strs_view(expected@), "no variant"@),
    {
        Error { kind: ErrorKind::UnknownVariant(variant.to_owned(), expected_list(expected, "no variant")) }
    }

    /// A struct field that is not one of the expected ones.
    pub fn unknown_field(field: &str, expected: &[&str]) -> (r: Error)
        ensures
            r.spec_kind() matches ErrorKind::UnknownField(f, e) && f@ == field@ && e@
                == expected_text(strs_view(expected@), "no field"@),
    {
        Error { kind: ErrorKind::UnknownField(field.to_owned(), expected_list(expected, "no field")) }
    }

    /// A struct field that is missing.
    pub fn missing_field(field: &'static str) -> (r: Error)
        ensures
            r.spec_kind() == ErrorKind::MissingField(field),
    {
        Error { kind: ErrorKind::MissingField(field) }
    }

    /// A struct field that occurs twice.
    pub fn duplicate_field(field: &'static str) -> (r: Error)
        ensures
            r.spec_kind() == ErrorKind::DuplicateField(field),
    {
        Error { kind: ErrorKind::DuplicateField(field) }
    }
}

/// The model of a sequence of string slices.
pub open spec fn strs_view(s: Seq<&str>) -> Seq<Seq<char>> {
    s.map_values(|x: &str| x@)
}

/// The names joined by `, `.
pub open spec fn join_comma(s: Seq<Seq<char>>) -> Seq<char>
    decreases s.len(),
{
    if s.len() == 0 {
        Seq::empty()
    } else if s.len() == 1 {
        s[0]
    } else {
        join_comma(s.drop_last()) + seq![',', ' '] + s.last()
    }
}

/// The expected names in words: `none` if there are none, `a`, `a or b`, or `a, b, or c`.
pub open spec fn expected_text(s: Seq<Seq<char>>, none: Seq<char>) -> Seq<char> {
    if s.len() == 0 {
        none
    } else if s.len() == 1 {
        s[0]
    } else if s.len() == 2 {
        s[0] + " or "@ + s[1]
    } else {
        join_comma(s.drop_last()) + ", or "@ + s.last()
    }
}

/// Describes the expected names in words (see [`expected_text`]).
pub fn expected_list(expected: &[&str], none: &str) -> (r: String)
    ensures
        r@ == expected_text(strs_view(expected@), none@),
{
    let ghost v = strs_view(expected@);
    let n = expected.len();
    let mut s = String::new();
    if n == 0 {
        s.append(none);
    } else if n == 1 {
        s.append(expected[0]);
    } else if n == 2 {
        s.append(expected[0]);
        s.append(" or ");
        s.append(expected[1]);
    } else {
        s.append(expected[0]);
        assert(v.take(1) =~= seq![v[0]]);
        let mut i: usize = 1;
        while i < n - 1
            invariant
                1 <= i <= n - 1,
                n == expected@.len(),
                v == strs_view(expected@),
                s@ == join_comma(v.take(i as int)),
            decreases n - 1 - i,
        {
            s.append(", ");
            s.append(expected[i]);
            i = i + 1;
            proof {
                reveal_strlit(", ");
                assert(v.take(i as int).drop_last() =~= v.take(i - 1));
            }
            assert(s@ =~= join_comma(v.take(i as int)));
        }
        assert(v.take(i as int) =~= v.drop_last());
        s.append(", or ");
        s.append(expected[n - 1]);
    }
    assert(s@ =~= expected_text(v, none@));
    s
}

/// Type alias for [`std::result::Result`] using [`Error`] for its error type
pub type Result<T> = std::result::Result<T, Error>;

} // verus!
