//! Byte classes of the TOML grammar, and scanning over them.

use vstd::prelude::*;

verus! {

/// TOML whitespace: space or tab.
pub open spec fn toml_whitespace(b: u8) -> bool {
    b == 0x09 || b == 0x20
}

/// A byte of a bare key: ASCII alphanumeric, hyphen or underscore.
pub open spec fn toml_word(b: u8) -> bool {
    (0x41 <= b <= 0x5a) || (0x61 <= b <= 0x7a) || (0x30 <= b <= 0x39) || b == 0x5f || b == 0x2d
}

/// A byte that may occur in a date-time: digits, `+ - . :` and `T t Z z`.
pub open spec fn toml_datetime(b: u8) -> bool {
    (0x30 <= b <= 0x39) || b == 0x2b || b == 0x2d || b == 0x2e || b == 0x3a || b == 0x54
        || b == 0x74 || b == 0x5a || b == 0x7a
}

/// A byte allowed in a comment: every byte but the ASCII control characters other than tab.
pub open spec fn toml_comment(b: u8) -> bool {
    b == 0x09 || (0x20 <= b <= 0x7e) || b >= 0x80
}

/// A byte that may be copied verbatim into a basic string (so neither `"` nor `\`).
pub open spec fn toml_basic_str(b: u8) -> bool {
    b == 0x09 || b == 0x20 || b == 0x21 || (0x23 <= b <= 0x5b) || (0x5d <= b <= 0x7e) || b >= 0x80
}

/// A byte that may be copied verbatim into a multi-line basic string.
pub open spec fn toml_ml_basic_str(b: u8) -> bool {
    b == 0x0a || toml_basic_str(b)
}

/// A byte allowed in a literal string (anything but `'` and control characters).
pub open spec fn toml_literal_str(b: u8) -> bool {
    b == 0x09 || (0x20 <= b <= 0x26) || (0x28 <= b <= 0x7e) || b >= 0x80
}

/// A byte allowed in a multi-line literal string.
pub open spec fn toml_ml_literal_str(b: u8) -> bool {
    b == 0x0a || toml_literal_str(b)
}

/// A byte that may occur anywhere in a TOML document.
pub open spec fn toml_legal(b: u8) -> bool {
    b == 0x09 || b == 0x0a || b == 0x0d || (0x20 <= b <= 0x7e) || b >= 0x80
}

pub open spec fn ascii_digit(b: u8) -> bool {
    0x30 <= b <= 0x39
}

pub open spec fn hex_digit(b: u8) -> bool {
    (0x30 <= b <= 0x39) || (0x41 <= b <= 0x46) || (0x61 <= b <= 0x66)
}

pub open spec fn oct_digit(b: u8) -> bool {
    0x30 <= b <= 0x37
}

pub open spec fn bin_digit(b: u8) -> bool {
    b == 0x30 || b == 0x31
}

/// The classes of bytes that the lexer scans over.
#[derive(Clone, Copy, PartialEq, Eq, Debug)]
pub enum ByteClass {
    Whitespace,
    Word,
    Datetime,
    Comment,
    BasicStr,
    MultilineBasicStr,
    LiteralStr,
    MultilineLiteralStr,
    Legal,
    Digit,
    HexDigit,
    OctDigit,
    BinDigit,
    NotNewline,
    NotTimeSep,
    NotOffset,
}

pub open spec fn in_class(b: u8, c: ByteClass) -> bool {
    match c {
        ByteClass::Whitespace => toml_whitespace(b),
        ByteClass::Word => toml_word(b),
        ByteClass::Datetime => toml_datetime(b),
        ByteClass::Comment => toml_comment(b),
        ByteClass::BasicStr => toml_basic_str(b),
        ByteClass::MultilineBasicStr => toml_ml_basic_str(b),
        ByteClass::LiteralStr => toml_literal_str(b),
        ByteClass::MultilineLiteralStr => toml_ml_literal_str(b),
        ByteClass::Legal => toml_legal(b),
        ByteClass::Digit => ascii_digit(b),
        ByteClass::HexDigit => hex_digit(b),
        ByteClass::OctDigit => oct_digit(b),
        ByteClass::BinDigit => bin_digit(b),
        ByteClass::NotNewline => b != 0x0a,
        ByteClass::NotTimeSep => b != 0x54 && b != 0x74,
        ByteClass::NotOffset => !(b == 0x7a || b == 0x5a || b == 0x2b || b == 0x2d),
    }
}

/// The length of the longest prefix of `s` whose bytes all lie in class `c`.
pub open spec fn span(s: Seq<u8>, c: ByteClass) -> nat
    decreases s.len(),
{
    if s.len() > 0 && in_class(s[0], c) {
        1 + span(s.drop_first(), c)
    } else {
        0
    }
}

/// `span` is the index of the first byte outside the class, or the length.
pub proof fn lemma_span(s: Seq<u8>, c: ByteClass, i: int)
    requires
        0 <= i <= s.len(),
        forall|j: int| 0 <= j < i ==> in_class(#[trigger] s[j], c),
        i == s.len() || !in_class(s[i], c),
    ensures
        span(s, c) == i,
    decreases i,
{
    if i > 0 {
        let t = s.drop_first();
        assert forall|j: int| 0 <= j < i - 1 implies in_class(#[trigger] t[j], c) by {
            assert(t[j] == s[j + 1]);
        }
        assert(i - 1 == t.len() || t[i - 1] == s[i]);
        lemma_span(t, c, i - 1);
    }
}

/// Facts about every prefix position of a span.
pub proof fn lemma_span_props(s: Seq<u8>, c: ByteClass)
    ensures
        span(s, c) <= s.len(),
        forall|j: int| 0 <= j < span(s, c) ==> in_class(#[trigger] s[j], c),
        span(s, c) < s.len() ==> !in_class(s[span(s, c) as int], c),
    decreases s.len(),
{
    if s.len() > 0 && in_class(s[0], c) {
        let t = s.drop_first();
        lemma_span_props(t, c);
        assert forall|j: int| 0 <= j < span(s, c) implies in_class(#[trigger] s[j], c) by {
            if j > 0 {
                assert(s[j] == t[j - 1]);
            }
        }
        if span(s, c) < s.len() {
            assert(s[span(s, c) as int] == t[span(t, c) as int]);
        }
    }
}

/// Whether `b` lies in class `c`.
pub fn is_in_class(b: u8, c: ByteClass) -> (r: bool)
    ensures
        r == in_class(b, c),
{
    match c {
        ByteClass::Whitespace => b.is_toml_whitespace(),
        ByteClass::Word => b.is_toml_word(),
        ByteClass::Datetime => b.is_toml_datetime(),
        ByteClass::Comment => b.is_toml_comment(),
        ByteClass::BasicStr => b.is_toml_basic_str_sans_escapes(),
        ByteClass::MultilineBasicStr => b.is_toml_multiline_basic_str_sans_escapes(),
        ByteClass::LiteralStr => b.is_toml_literal_str(),
        ByteClass::MultilineLiteralStr => b.is_toml_multiline_literal_str(),
        ByteClass::Legal => b.is_toml_legal(),
        ByteClass::Digit => 0x30 <= b && b <= 0x39,
        ByteClass::HexDigit => (0x30 <= b && b <= 0x39) || (0x41 <= b && b <= 0x46) || (0x61 <= b
            && b <= 0x66),
        ByteClass::OctDigit => 0x30 <= b && b <= 0x37,
        ByteClass::BinDigit => b == 0x30 || b == 0x31,
        ByteClass::NotNewline => b != 0x0a,
        ByteClass::NotTimeSep => b != 0x54 && b != 0x74,
        ByteClass::NotOffset => !(b == 0x7a || b == 0x5a || b == 0x2b || b == 0x2d),
    }
}

/// Returns the number of leading bytes of `s` in class `c`: the index of the first byte outside
/// it, or the length of `s`.
pub fn scan(s: &[u8], c: ByteClass) -> (n: usize)
    ensures
        n == span(s@, c),
        n <= s@.len(),
        forall|j: int| 0 <= j < n ==> in_class(#[trigger] s@[j], c),
        n < s@.len() ==> !in_class(s@[n as int], c),
{
    let mut i: usize = 0;
    while i < s.len()
        invariant
            0 <= i <= s@.len(),
            forall|j: int| 0 <= j < i ==> in_class(#[trigger] s@[j], c),
        decreases s@.len() - i,
    {
        if !is_in_class(s[i], c) {
            proof { lemma_span(s@, c, i as int); }
            return i;
        }
        i = i + 1;
    }
    proof { lemma_span(s@, c, i as int); }
    i
}

/// Byte predicates of the TOML grammar.
pub trait TomlByte {
    /// If the byte is TOML whitespace (space or tab)
    fn is_toml_whitespace(&self) -> bool;

    /// If the byte is a TOML word (ASCII alphanumeric or hyphen or underscore)
    fn is_toml_word(&self) -> bool;

    /// If the byte is present in a datetime (ASCII numeric, plus, minus, period, colon, T, t, Z, z)
    fn is_toml_datetime(&self) -> bool;

    /// If the byte is valid in a TOML comment (disallows all ASCII control chars except for tab)
    fn is_toml_comment(&self) -> bool;

    /// If the byte is valid in a basic string, excluding the escape character '\'
    fn is_toml_basic_str_sans_escapes(&self) -> bool;

    /// If the byte is valid in a multiline basic string, excluding the escape character '\'
    fn is_toml_multiline_basic_str_sans_escapes(&self) -> bool;

    /// If the byte is valid in a literal string
    fn is_toml_literal_str(&self) -> bool;

    /// If the byte is valid in a multiline literal string
    fn is_toml_multiline_literal_str(&self) -> bool;

    /// If the byte is legal in a TOML document
    fn is_toml_legal(&self) -> bool;
}

impl TomlByte for u8 {
    fn is_toml_whitespace(&self) -> (r: bool)
        ensures
            r == toml_whitespace(*self),
    {
        *self == 0x09 || *self == 0x20
    }

    fn is_toml_word(&self) -> (r: bool)
        ensures
            r == toml_word(*self),
    {
        let b = *self;
        (0x41 <= b && b <= 0x5a) || (0x61 <= b && b <= 0x7a) || (0x30 <= b && b <= 0x39) || b
            == 0x5f || b == 0x2d
    }

    fn is_toml_datetime(&self) -> (r: bool)
        ensures
            r == toml_datetime(*self),
    {
        let b = *self;
        (0x30 <= b && b <= 0x39) || b == 0x2b || b == 0x2d || b == 0x2e || b == 0x3a || b == 0x54
            || b == 0x74 || b == 0x5a || b == 0x7a
    }

    fn is_toml_comment(&self) -> (r: bool)
        ensures
            r == toml_comment(*self),
    {
        let b = *self;
        b == 0x09 || (0x20 <= b && b <= 0x7e) || b >= 0x80
    }

    fn is_toml_basic_str_sans_escapes(&self) -> (r: bool)
        ensures
            r == toml_basic_str(*self),
    {
        let b = *self;
        b == 0x09 || b == 0x20 || b == 0x21 || (0x23 <= b && b <= 0x5b) || (0x5d <= b && b <= 0x7e)
            || b >= 0x80
    }

    fn is_toml_multiline_basic_str_sans_escapes(&self) -> (r: bool)
        ensures
            r == toml_ml_basic_str(*self),
    {
        *self == 0x0a || self.is_toml_basic_str_sans_escapes()
    }

    fn is_toml_literal_str(&self) -> (r: bool)
        ensures
            r == toml_literal_str(*self),
    {
        let b = *self;
        b == 0x09 || (0x20 <= b && b <= 0x26) || (0x28 <= b && b <= 0x7e) || b >= 0x80
    }

    fn is_toml_multiline_literal_str(&self) -> (r: bool)
        ensures
            r == toml_ml_literal_str(*self),
    {
        *self == 0x0a || self.is_toml_literal_str()
    }

    fn is_toml_legal(&self) -> (r: bool)
        ensures
            r == toml_legal(*self),
    {
        let b = *self;
        b == 0x09 || b == 0x0a || b == 0x0d || (0x20 <= b && b <= 0x7e) || b >= 0x80
    }
}

} // verus!
