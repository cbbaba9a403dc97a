//! The TOML parser: from the bytes of a document to a tree of [`Value`]s.

use vstd::prelude::*;
use vstd::slice::{slice_subrange, slice_to_vec};
use vstd::string::{StrSliceExecFns, StringExecFns};
use vstd::utf8::decode_utf8;
use vstd::string::StringSliceAdditionalSpecFns;

use super::bytes::{hex_digit, lemma_span_props, scan, span, ByteClass, TomlByte};
use super::error::{Error, ErrorKind, Result, SpecError};
use super::grammar::{spec_apply_line, root_key, spec_document, spec_header, spec_parse, spec_parse_line, SLine, lemma_cws_measure, spec_array, spec_cws, spec_inline_entries, spec_inline_table, spec_key_value, spec_value, key_text, lemma_key_rest, path_text, spec_dotted_key, spec_key, spec_more_keys, spec_string, SKey, closing_quotes, lemma_next_measure, lemma_skip_ws, measure, spec_ml_basic, spec_ml_basic_str, spec_ml_literal, spec_ml_literal_str, spec_ml_start, spec_skip_blank_lines, hex_value, lemma_hex_value_bound, lift, pow16, prepend, spec_bare_key, spec_basic_str, spec_escape, spec_exponent, spec_fraction, spec_hex_number, spec_literal_str, spec_number_decimal, spec_number_or_datetime, spec_unicode_escape, spec_digit_groups, spec_digits, spec_parse_special, skip_ws, spec_next, spec_parse_bool, spec_skip_comment, starts_with, with_line, PState};
use super::reader::{utf8_len, Reader};
use super::table::{get_dotted_subtable, get_subtable, keys_view, TableAction, TableError};
use super::value::{lemma_array_view, tview, values_view, SValue, SpecialFloat, Table, Value};
use crate::text::{char_from_u32, from_utf8, push_char};

verus! {

broadcast use vstd::slice::group_slice_axioms;

/// The outcome of a parsing step agrees with its model: the same value and state on success, the
/// same error on failure.
pub open spec fn agrees<T: View>(
    r: Result<T>,
    after: PState,
    s: std::result::Result<(T::V, PState), SpecError>,
) -> bool {
    match (r, s) {
        (Ok(v), Ok((sv, st))) => v@ == sv && after == st,
        (Err(e), Err(se)) => e.spec_error() == se,
        _ => false,
    }
}

pub(crate) fn error(kind: ErrorKind) -> (r: Error)
    ensures
        r.spec_kind() == kind,
{
    Error::from_kind(kind)
}

/// Appends the bytes of `s` to `buf`.
fn push_bytes(buf: &mut Vec<u8>, s: &[u8])
    ensures
        final(buf)@ == old(buf)@ + s@,
{
    let mut i: usize = 0;
    while i < s.len()
        invariant
            0 <= i <= s@.len(),
            buf@ == old(buf)@ + s@.take(i as int),
        decreases s@.len() - i,
    {
        buf.push(s[i]);
        i = i + 1;
        assert(s@.take(i as int) =~= s@.take(i - 1).push(s@[i - 1]));
    }
    assert(s@.take(s@.len() as int) =~= s@);
}

/// Whether `s` starts with the byte `a`.
fn prefix1(s: &[u8], a: u8) -> (r: bool)
    ensures
        r == starts_with(s@, seq![a]),
        r == (s@.len() >= 1 && s@[0] == a),
{
    if s.len() >= 1 && s[0] == a {
        assert(s@.take(1) =~= seq![a]);
        true
    } else {
        assert(s@.len() >= 1 ==> s@.take(1)[0] == s@[0]);
        false
    }
}

/// Whether `s` starts with the bytes `a b`.
fn prefix2(s: &[u8], a: u8, b: u8) -> (r: bool)
    ensures
        r == starts_with(s@, seq![a, b]),
        r == (s@.len() >= 2 && s@[0] == a && s@[1] == b),
{
    if s.len() >= 2 && s[0] == a && s[1] == b {
        assert(s@.take(2) =~= seq![a, b]);
        true
    } else {
        assert(s@.len() >= 2 ==> s@.take(2)[0] == s@[0] && s@.take(2)[1] == s@[1]);
        false
    }
}

/// Whether `s` starts with the bytes `a b c`.
fn prefix3(s: &[u8], a: u8, b: u8, c: u8) -> (r: bool)
    ensures
        r == starts_with(s@, seq![a, b, c]),
        r == (s@.len() >= 3 && s@[0] == a && s@[1] == b && s@[2] == c),
{
    if s.len() >= 3 && s[0] == a && s[1] == b && s[2] == c {
        assert(s@.take(3) =~= seq![a, b, c]);
        true
    } else {
        assert(s@.len() >= 3 ==> s@.take(3)[0] == s@[0] && s@.take(3)[1] == s@[1] && s@.take(3)[2]
            == s@[2]);
        false
    }
}

/// The rest of `s` after `n` bytes.
fn after(s: &[u8], n: usize) -> (r: &[u8])
    requires
        n <= s@.len(),
    ensures
        r@ == s@.skip(n as int),
{
    slice_subrange(s, n, s.len())
}

/// The first `n` bytes of `s`.
fn before(s: &[u8], n: usize) -> (r: &[u8])
    requires
        n <= s@.len(),
    ensures
        r@ == s@.take(n as int),
{
    slice_subrange(s, 0, n)
}

/// A dotted key as the parser reads it: the keys before the last `.`, and the last one.
#[derive(Debug)]
pub struct Key {
    pub path: Vec<String>,
    pub name: String,
}

impl View for Key {
    type V = SKey;

    open spec fn view(&self) -> SKey {
        SKey { path: keys_view(self.path@), name: self.name@ }
    }
}

impl Key {
    /// The key as it is shown in error messages: its keys joined by `.`.
    pub fn to_display_string(&self) -> (r: String)
        ensures
            r@ == key_text(self@),
    {
        let mut s = String::new();
        let mut i: usize = 0;
        while i < self.path.len()
            invariant
                0 <= i <= self.path@.len(),
                s@ == path_text(keys_view(self.path@).take(i as int)),
            decreases self.path@.len() - i,
        {
            let ghost p = keys_view(self.path@);
            s.append(self.path[i].as_str());
            push_char(&mut s, '.');
            i = i + 1;
            assert(p.take(i as int).drop_last() =~= p.take(i - 1));
        }
        assert(keys_view(self.path@).take(i as int) =~= keys_view(self.path@));
        s.append(self.name.as_str());
        s
    }
}

/// The kind of a table header.
#[derive(Debug, Clone, Copy, PartialEq, Eq)]
pub enum HeaderKind {
    /// `[table]`
    Table,
    /// `[[array]]`
    Array,
}

/// What a line of the document holds.
#[derive(Debug)]
pub enum Line {
    TableHeader { key: Key, kind: HeaderKind },
    KeyValuePair { key: Key, value: Value },
    /// Blank line or comment
    Empty,
}

impl View for Line {
    type V = SLine;

    open spec fn view(&self) -> SLine {
        match self {
            Line::TableHeader { key, kind } => SLine::Header(key@, *kind == HeaderKind::Array),
            Line::KeyValuePair { key, value } => SLine::Pair(key@, value@),
            Line::Empty => SLine::Empty,
        }
    }
}

/// Copies a sequence of keys.
fn clone_keys(p: &Vec<String>) -> (r: Vec<String>)
    ensures
        keys_view(r@) == keys_view(p@),
{
    let mut r: Vec<String> = Vec::new();
    let mut i: usize = 0;
    while i < p.len()
        invariant
            0 <= i <= p@.len(),
            r@.len() == i,
            forall|k: int| 0 <= k < i ==> (#[trigger] r@[k])@ == p@[k]@,
        decreases p@.len() - i,
    {
        r.push(p[i].clone());
        i = i + 1;
    }
    assert(keys_view(r@) =~= keys_view(p@));
    r
}

/// Carries out what a line says: defines a table, or a value in the current table.
fn apply_line(root: &mut Table, current: &mut Vec<String>, table_path: &mut Key, line: Line) -> (r: Result<()>)
    ensures
        match spec_apply_line(tview(*old(root)), keys_view(old(current)@), old(table_path)@, line@) {
            Ok((root2, current2, header2)) => r is Ok && tview(*final(root)) == root2
                && keys_view(final(current)@) == current2 && final(table_path)@ == header2,
            Err(e) => r matches Err(err) && err.spec_error() == e,
        },
{
    match line {
        Line::TableHeader { key, kind } => {
            let action = match kind {
                HeaderKind::Table => TableAction::Table(key.name.clone()),
                HeaderKind::Array => TableAction::ArrayOfTables(key.name.clone()),
            };
            if get_subtable(root, key.path.as_slice(), 0, action).is_err() {
                return Err(error(ErrorKind::InvalidTableHeader(key.to_display_string())));
            }
            let mut path = clone_keys(&key.path);
            let ghost before = keys_view(path@);
            path.push(key.name.clone());
            assert(keys_view(path@) =~= before.push(key.name@));
            *current = path;
            *table_path = key;
            Ok(())
        },
        Line::KeyValuePair { key, value } => {
            let Key { path, name } = key;
            let action = TableAction::Entry(clone_keys(&path), name.clone(), value);
            match get_subtable(root, current.as_slice(), 0, action) {
                Ok(()) => Ok(()),
                Err(TableError::InvalidPath) => {
                    let key = Key { path, name };
                    Err(error(ErrorKind::InvalidKeyPath(key.to_display_string(), table_path.to_display_string())))
                },
                Err(TableError::Duplicate) => {
                    let key = Key { path, name };
                    Err(error(ErrorKind::DuplicateKey(key.to_display_string(), table_path.to_display_string())))
                },
            }
        },
        Line::Empty => Ok(()),
    }
}

/// A parser for one TOML document.
#[derive(Debug)]
pub struct Parser<'de> {
    reader: Reader<'de>,
    line: &'de [u8],
}

impl<'de> Parser<'de> {
    /// The state of the parser.
    pub closed spec fn state(&self) -> PState {
        PState { line: self.line@, rest: self.reader.remaining(), line_no: self.reader.lines_read() }
    }

    /// Creates a parser for a string slice.
    pub fn from_str(str: &'de str) -> (r: Self)
        ensures
            r.state() == (PState { line: Seq::empty(), rest: str.spec_bytes(), line_no: 0 }),
    {
        let line = slice_subrange(str.as_bytes(), 0, 0);
        assert(line@ =~= Seq::<u8>::empty());
        Self { reader: Reader::from_str(str), line }
    }

    /// Creates a parser for a byte slice.
    pub fn from_slice(bytes: &'de [u8]) -> (r: Self)
        ensures
            r.state() == (PState { line: Seq::empty(), rest: bytes@, line_no: 0 }),
    {
        let line = slice_subrange(bytes, 0, 0);
        assert(line@ =~= Seq::<u8>::empty());
        Self { reader: Reader::from_slice(bytes), line }
    }

    /// The rest of the current line.
    pub fn line(&self) -> (r: &'de [u8])
        ensures
            r@ == self.state().line,
    {
        self.line
    }

    /// The reader of the lines after the current one.
    pub fn reader(&self) -> (r: &Reader<'de>)
        ensures
            r.remaining() == self.state().rest,
            r.lines_read() == self.state().line_no,
    {
        &self.reader
    }

    /// Moves to the next line. Returns `None` (and changes nothing) at the end of the source.
    pub fn next_line(&mut self) -> (r: Option<()>)
        ensures
            match spec_next(old(self).state()) {
                Some(st) => r is Some && final(self).state() == st,
                None => r is None && final(self).state() == old(self).state(),
            },
    {
        match self.reader.next_line() {
            Some(line) => {
                self.line = line;
                Some(())
            },
            None => None,
        }
    }

    /// Skips leading whitespace.
    pub fn skip_whitespace(&mut self)
        ensures
            final(self).state() == with_line(old(self).state(), skip_ws(old(self).state().line)),
    {
        let idx = scan(self.line, ByteClass::Whitespace);
        self.line = after(self.line, idx);
    }

    /// Skips a comment that starts the line, checking that it is valid UTF-8 and holds no control
    /// characters but tab.
    pub fn skip_comment(&mut self) -> (r: Result<()>)
        ensures
            match spec_skip_comment(old(self).state().line) {
                Ok(line) => r is Ok && final(self).state() == with_line(old(self).state(), line),
                Err(e) => r matches Err(err) && err.spec_error() == e,
            },
    {
        if prefix1(self.line, 0x23) {
            let rest = after(self.line, 1);
            assert(rest@ == self.line@.drop_first());
            if from_utf8(rest).is_none() {
                return Err(error(ErrorKind::InvalidEncoding));
            }
            let idx = scan(rest, ByteClass::Comment);
            if idx < rest.len() {
                return Err(error(ErrorKind::IllegalChar(rest[idx])));
            }
            self.line = after(self.line, self.line.len());
            assert(self.line@ =~= Seq::<u8>::empty());
        }
        Ok(())
    }

    /// Parses `true` or `false`.
    pub fn parse_bool(&mut self) -> (r: Result<bool>)
        ensures
            r is Ok ==> measure(final(self).state()) <= measure(old(self).state()),
            agrees(r, final(self).state(), lift(old(self).state(), spec_parse_bool(old(self).state().line))),
    {
        let l = self.line;
        if l.len() >= 4 && l[0] == 0x74 && l[1] == 0x72 && l[2] == 0x75 && l[3] == 0x65 {
            assert(l@.take(4) =~= seq![0x74u8, 0x72, 0x75, 0x65]);
            self.line = after(l, 4);
            Ok(true)
        } else if l.len() >= 5 && l[0] == 0x66 && l[1] == 0x61 && l[2] == 0x6c && l[3] == 0x73
            && l[4] == 0x65 {
            assert(l@.len() < 4 || l@.take(4) != seq![0x74u8, 0x72, 0x75, 0x65]) by {
                if l@.len() >= 4 { assert(l@.take(4)[0] == l@[0]); }
            }
            assert(l@.take(5) =~= seq![0x66u8, 0x61, 0x6c, 0x73, 0x65]);
            self.line = after(l, 5);
            Ok(false)
        } else {
            assert(l@.len() < 4 || l@.take(4) != seq![0x74u8, 0x72, 0x75, 0x65]) by {
                if l@.len() >= 4 && l@.take(4) == seq![0x74u8, 0x72, 0x75, 0x65] {
                    assert(l@.take(4)[0] == l@[0] && l@.take(4)[1] == l@[1] && l@.take(4)[2] == l@[2]
                        && l@.take(4)[3] == l@[3]);
                }
            }
            assert(l@.len() < 5 || l@.take(5) != seq![0x66u8, 0x61, 0x6c, 0x73, 0x65]) by {
                if l@.len() >= 5 && l@.take(5) == seq![0x66u8, 0x61, 0x6c, 0x73, 0x65] {
                    assert(l@.take(5)[0] == l@[0] && l@.take(5)[1] == l@[1] && l@.take(5)[2] == l@[2]
                        && l@.take(5)[3] == l@[3] && l@.take(5)[4] == l@[4]);
                }
            }
            Err(error(ErrorKind::ExpectedToken("true/false".to_owned())))
        }
    }

    /// Parses `inf` or `nan` after an optional sign.
    pub fn parse_number_special(&mut self) -> (r: Result<SpecialFloat>)
        ensures
            r is Ok ==> measure(final(self).state()) <= measure(old(self).state()),
            agrees(r, final(self).state(), lift(old(self).state(), spec_parse_special(old(self).state().line))),
    {
        let l = self.line;
        let (neg, rest) = if prefix1(l, 0x2d) {
            (true, after(l, 1))
        } else if prefix1(l, 0x2b) {
            (false, after(l, 1))
        } else {
            (false, l)
        };
        if prefix3(rest, 0x69, 0x6e, 0x66) {
            self.line = after(rest, 3);
            Ok(if neg { SpecialFloat::NegInfinity } else { SpecialFloat::Infinity })
        } else if prefix3(rest, 0x6e, 0x61, 0x6e) {
            self.line = after(rest, 3);
            Ok(if neg { SpecialFloat::NegNan } else { SpecialFloat::Nan })
        } else {
            Err(error(ErrorKind::ExpectedToken("inf/nan".to_owned())))
        }
    }

    /// Parses digits of the given class, possibly separated by single underscores, and appends
    /// them (without the underscores) to `buf`.
    pub fn parse_digits_into(&mut self, class: ByteClass, buf: &mut Vec<u8>) -> (r: Result<()>)
        ensures
            r is Ok ==> measure(final(self).state()) <= measure(old(self).state()),
            match spec_digits(old(self).state().line, class) {
                Ok((d, rest)) => r is Ok && final(buf)@ == old(buf)@ + d && final(self).state()
                    == with_line(old(self).state(), rest),
                Err(e) => r matches Err(err) && err.spec_error() == e,
            },
    {
        let ghost st0 = self.state();
        let l = self.line;
        let idx = scan(l, class);
        if idx == 0 {
            return Err(error(ErrorKind::InvalidNumber(
                if prefix1(l, 0x5f) { "leading underscore".to_owned() } else { "no digits".to_owned() },
            )));
        }
        push_bytes(buf, before(l, idx));
        self.line = after(l, idx);
        assert(buf@.skip(old(buf)@.len() as int) =~= l@.take(idx as int));
        assert(buf@.take(old(buf)@.len() as int) =~= old(buf)@);
        loop
            invariant_except_break
                spec_digits(st0.line, class) == (match spec_digit_groups(self.line@, class) {
                    Ok((d, rest)) => Ok((buf@.skip(old(buf)@.len() as int) + d, rest)),
                    Err(e) => Err(e),
                }),
                buf@.len() >= old(buf)@.len(),
                buf@.take(old(buf)@.len() as int) == old(buf)@,
                self.state() == with_line(st0, self.line@),
                st0 == old(self).state(),
                self.line@.len() <= st0.line.len(),
            ensures
                spec_digits(st0.line, class) == Ok::<(Seq<u8>, Seq<u8>), SpecError>((buf@.skip(old(buf)@.len() as int), self.line@)),
                buf@.len() >= old(buf)@.len(),
                buf@.take(old(buf)@.len() as int) == old(buf)@,
                self.state() == with_line(st0, self.line@),
                self.line@.len() <= st0.line.len(),
            decreases self.line@.len(),
        {
            let l = self.line;
            if !prefix1(l, 0x5f) {
                assert(spec_digit_groups(l@, class) == Ok::<(Seq<u8>, Seq<u8>), SpecError>((Seq::<u8>::empty(), l@)));
                assert(buf@.skip(old(buf)@.len() as int) + Seq::<u8>::empty() =~= buf@.skip(old(buf)@.len() as int));
                break;
            }
            let t = after(l, 1);
            assert(t@ == l@.drop_first());
            let m = scan(t, class);
            if m == 0 {
                let msg = if prefix1(t, 0x5f) { "double underscore".to_owned() } else { "trailing underscore".to_owned() };
                assert(spec_digit_groups(l@, class) == Err::<(Seq<u8>, Seq<u8>), SpecError>(SpecError::InvalidNumber(msg@)));
                return Err(error(ErrorKind::InvalidNumber(msg)));
            }
            let ghost old_buf = buf@;
            push_bytes(buf, before(t, m));
            self.line = after(t, m);
            proof {
                assert(buf@.skip(old(buf)@.len() as int) =~= old_buf.skip(old(buf)@.len() as int) + t@.take(m as int));
                assert(buf@.take(old(buf)@.len() as int) =~= old_buf.take(old(buf)@.len() as int));
                match spec_digit_groups(self.line@, class) {
                    Ok((d, rest)) => {
                        assert(buf@.skip(old(buf)@.len() as int) + d =~= old_buf.skip(old(buf)@.len() as int) + (t@.take(m as int) + d));
                    },
                    Err(e) => {},
                }
            }
        }
        proof {
            assert(buf@ =~= old(buf)@ + buf@.skip(old(buf)@.len() as int));
        }
        Ok(())
    }

    /// Parses digits of the given class into a new buffer.
    pub fn parse_digits(&mut self, class: ByteClass) -> (r: Result<Vec<u8>>)
        ensures
            r is Ok ==> measure(final(self).state()) <= measure(old(self).state()),
            agrees(r, final(self).state(), lift(old(self).state(), spec_digits(old(self).state().line, class))),
    {
        let mut buf = Vec::new();
        match self.parse_digits_into(class, &mut buf) {
            Ok(()) => {
                assert(buf@ =~= Seq::<u8>::empty() + buf@);
                Ok(buf)
            },
            Err(e) => Err(e),
        }
    }

    /// Parses the optional fraction of a decimal number into `buf`; returns whether there was one.
    fn parse_fraction_into(&mut self, buf: &mut Vec<u8>) -> (r: Result<bool>)
        ensures
            r is Ok ==> measure(final(self).state()) <= measure(old(self).state()),
            match spec_fraction(old(self).state().line) {
                Ok((frac, rest)) => r == Ok::<bool, Error>(frac.len() > 0) && final(buf)@ == old(buf)@ + frac
                    && final(self).state() == with_line(old(self).state(), rest),
                Err(e) => r matches Err(err) && err.spec_error() == e,
            },
    {
        if prefix1(self.line, 0x2e) {
            buf.push(0x2e);
            let ghost b1 = buf@;
            self.line = after(self.line, 1);
            match self.parse_digits_into(ByteClass::Digit, buf) {
                Ok(()) => {
                    assert(buf@ =~= old(buf)@ + (seq![0x2eu8] + buf@.skip(b1.len() as int)));
                    Ok(true)
                },
                Err(e) => Err(e),
            }
        } else {
            assert(buf@ =~= old(buf)@ + Seq::<u8>::empty());
            Ok(false)
        }
    }

    /// Parses the optional exponent of a decimal number into `buf`; returns whether there was one.
    fn parse_exponent_into(&mut self, buf: &mut Vec<u8>) -> (r: Result<bool>)
        ensures
            r is Ok ==> measure(final(self).state()) <= measure(old(self).state()),
            match spec_exponent(old(self).state().line) {
                Ok((exp, rest)) => r == Ok::<bool, Error>(exp.len() > 0) && final(buf)@ == old(buf)@ + exp
                    && final(self).state() == with_line(old(self).state(), rest),
                Err(e) => r matches Err(err) && err.spec_error() == e,
            },
    {
        let l = self.line;
        if l.len() > 0 && (l[0] == 0x65 || l[0] == 0x45) {
            buf.push(0x65);
            let t = after(l, 1);
            assert(t@ == l@.drop_first());
            if t.len() > 0 && (t[0] == 0x2b || t[0] == 0x2d) {
                buf.push(t[0]);
                self.line = after(t, 1);
            } else {
                self.line = t;
            }
            let ghost b1 = buf@;
            match self.parse_digits_into(ByteClass::Digit, buf) {
                Ok(()) => {
                    assert(buf@ =~= old(buf)@ + (b1.skip(old(buf)@.len() as int) + buf@.skip(b1.len() as int)));
                    Ok(true)
                },
                Err(e) => Err(e),
            }
        } else {
            assert(buf@ =~= old(buf)@ + Seq::<u8>::empty());
            Ok(false)
        }
    }

    /// Parses a decimal integer or float, with an optional sign, fraction and exponent.
    pub fn parse_number_decimal(&mut self) -> (r: Result<Value>)
        ensures
            r is Ok ==> measure(final(self).state()) <= measure(old(self).state()),
            agrees(r, final(self).state(), lift(old(self).state(), spec_number_decimal(old(self).state().line))),
    {
        let mut buf: Vec<u8> = Vec::new();
        let l = self.line;
        if l.len() > 0 && (l[0] == 0x2b || l[0] == 0x2d) {
            buf.push(l[0]);
            self.line = after(l, 1);
        }
        assert(buf@ == (if l@.len() > 0 && (l@[0] == 0x2b || l@[0] == 0x2d) { seq![l@[0]] } else { Seq::<u8>::empty() }));
        let l1 = self.line;
        if l1.len() >= 2 && l1[0] == 0x30 && ((0x30 <= l1[1] && l1[1] <= 0x39) || (l1[1] == 0x5f
            && l1.len() >= 3 && 0x30 <= l1[2] && l1[2] <= 0x39)) {
            return Err(error(ErrorKind::InvalidNumber("leading zero".to_owned())));
        }
        match self.parse_digits_into(ByteClass::Digit, &mut buf) {
            Ok(()) => {},
            Err(e) => return Err(e),
        }
        let has_fraction = match self.parse_fraction_into(&mut buf) {
            Ok(f) => f,
            Err(e) => return Err(e),
        };
        let has_exponent = match self.parse_exponent_into(&mut buf) {
            Ok(f) => f,
            Err(e) => return Err(e),
        };
        if has_fraction || has_exponent {
            Ok(Value::Float(buf))
        } else {
            Ok(Value::Integer(buf))
        }
    }

    /// Parses anything that starts with a digit: a prefixed integer, a date-time or a decimal
    /// number. Does not parse special floats or values with a sign.
    pub fn parse_number_or_datetime(&mut self) -> (r: Result<Value>)
        ensures
            r is Ok ==> measure(final(self).state()) <= measure(old(self).state()),
            agrees(r, final(self).state(), lift(old(self).state(), spec_number_or_datetime(old(self).state().line))),
    {
        let l = self.line;
        if prefix2(l, 0x30, 0x78) {
            self.line = after(l, 2);
            return match self.parse_digits(ByteClass::HexDigit) {
                Ok(d) => Ok(Value::HexInt(d)),
                Err(e) => Err(e),
            };
        }
        if prefix2(l, 0x30, 0x6f) {
            self.line = after(l, 2);
            return match self.parse_digits(ByteClass::OctDigit) {
                Ok(d) => Ok(Value::OctalInt(d)),
                Err(e) => Err(e),
            };
        }
        if prefix2(l, 0x30, 0x62) {
            self.line = after(l, 2);
            return match self.parse_digits(ByteClass::BinDigit) {
                Ok(d) => Ok(Value::BinaryInt(d)),
                Err(e) => Err(e),
            };
        }
        if l.len() >= 3 && l[2] == 0x3a {
            let idx = scan(l, ByteClass::Datetime);
            self.line = after(l, idx);
            return Ok(Value::LocalTime(slice_to_vec(before(l, idx))));
        }
        if l.len() >= 5 && 0x30 <= l[0] && l[0] <= 0x39 && 0x30 <= l[1] && l[1] <= 0x39 && 0x30
            <= l[2] && l[2] <= 0x39 && 0x30 <= l[3] && l[3] <= 0x39 && l[4] == 0x2d {
            let end = scan(l, ByteClass::Datetime);
            let t = scan(before(l, end), ByteClass::NotTimeSep);
            let (end, time) = if t < end {
                (end, t + 1)
            } else if l.len() - end >= 2 && l[end] == 0x20 && 0x30 <= l[end + 1] && l[end + 1] <= 0x39 {
                let idx = end + 1;
                (idx + scan(after(l, idx), ByteClass::Datetime), idx)
            } else {
                self.line = after(l, end);
                return Ok(Value::LocalDate(slice_to_vec(before(l, end))));
            };
            let time_part = slice_subrange(l, time, end);
            assert(time_part@ =~= l@.take(end as int).skip(time as int));
            let offset = scan(time_part, ByteClass::NotOffset) < time_part.len();
            let result = slice_to_vec(before(l, end));
            self.line = after(l, end);
            return if offset {
                Ok(Value::OffsetDatetime(result))
            } else {
                Ok(Value::LocalDatetime(result))
            };
        }
        self.parse_number_decimal()
    }

    /// Parses a bare key: one or more ASCII letters, digits, `_` or `-`.
    pub fn parse_bare_key(&mut self) -> (r: Result<String>)
        ensures
            r is Ok ==> measure(final(self).state()) <= measure(old(self).state()),
            agrees(r, final(self).state(), lift(old(self).state(), spec_bare_key(old(self).state().line))),
    {
        let l = self.line;
        let idx = scan(l, ByteClass::Word);
        if idx == 0 {
            return Err(error(ErrorKind::ExpectedToken("key".to_owned())));
        }
        match from_utf8(before(l, idx)) {
            None => Err(error(ErrorKind::InvalidEncoding)),
            Some(key) => {
                self.line = after(l, idx);
                Ok(key.to_owned())
            },
        }
    }

    /// Parses a literal string, after its opening quote.
    pub fn parse_literal_str(&mut self) -> (r: Result<String>)
        ensures
            r is Ok ==> measure(final(self).state()) <= measure(old(self).state()),
            agrees(r, final(self).state(), lift(old(self).state(), spec_literal_str(old(self).state().line))),
    {
        let orig = self.line;
        let idx = scan(orig, ByteClass::LiteralStr);
        if idx >= orig.len() {
            return Err(error(ErrorKind::UnterminatedString));
        }
        self.line = after(orig, idx + 1);
        let result = match from_utf8(before(orig, idx)) {
            None => return Err(error(ErrorKind::InvalidEncoding)),
            Some(s) => s,
        };
        if orig[idx] == 0x27 {
            Ok(result.to_owned())
        } else {
            Err(error(ErrorKind::IllegalChar(orig[idx])))
        }
    }

    /// Parses the code point of a `\u` or `\U` escape: `n` bytes after the letter.
    fn parse_unicode_escape(&mut self, n: usize, letter: char) -> (r: Result<char>)
        requires
            n == 4 || n == 8,
        ensures
            r is Ok ==> measure(final(self).state()) <= measure(old(self).state()),
            agrees(r, final(self).state(), lift(old(self).state(), spec_unicode_escape(old(self).state().line, n as nat, letter))),
    {
        let rest = self.line;
        if rest.len() < n {
            return Err(error(ErrorKind::UnterminatedString));
        }
        let bytes = before(rest, n);
        let text = match from_utf8(bytes) {
            None => return Err(error(ErrorKind::InvalidEncoding)),
            Some(s) => s,
        };
        let code = match parse_hex(bytes) {
            Some(v) => char_from_u32(v),
            None => None,
        };
        match code {
            Some(c) => {
                self.line = after(rest, n);
                proof {
                    vstd::utf8::char_u32_cast(c, c as u32);
                }
                Ok(c)
            },
            None => {
                let mut msg = String::new();
                push_char(&mut msg, '\\');
                push_char(&mut msg, letter);
                msg.append(text);
                assert(msg@ =~= seq!['\\', letter] + decode_utf8(bytes@));
                Err(error(ErrorKind::InvalidEscape(msg)))
            },
        }
    }

    /// Parses an escape sequence, after its backslash.
    pub fn parse_escape_seq(&mut self) -> (r: Result<char>)
        ensures
            r is Ok ==> measure(final(self).state()) <= measure(old(self).state()),
            agrees(r, final(self).state(), lift(old(self).state(), spec_escape(old(self).state().line))),
    {
        let orig = self.line;
        if orig.len() == 0 {
            return Err(error(ErrorKind::UnterminatedString));
        }
        let esc = orig[0];
        self.line = after(orig, 1);
        assert(self.line@ == orig@.drop_first());
        if esc == 0x62 {
            Ok('\x08')
        } else if esc == 0x74 {
            Ok('\t')
        } else if esc == 0x6e {
            Ok('\n')
        } else if esc == 0x66 {
            Ok('\x0c')
        } else if esc == 0x72 {
            Ok('\r')
        } else if esc == 0x22 {
            Ok('"')
        } else if esc == 0x5c {
            Ok('\\')
        } else if esc == 0x75 {
            self.parse_unicode_escape(4, 'u')
        } else if esc == 0x55 {
            self.parse_unicode_escape(8, 'U')
        } else {
            let len = match utf8_len(esc) {
                Some(len) => len,
                None => return Err(error(ErrorKind::InvalidEncoding)),
            };
            if len > orig.len() {
                return Err(error(ErrorKind::InvalidEncoding));
            }
            match from_utf8(before(orig, len)) {
                None => Err(error(ErrorKind::InvalidEncoding)),
                Some(s) => {
                    assert(s@.len() > 0);
                    let c = s.get_char(0);
                    let mut msg = String::new();
                    push_char(&mut msg, '\\');
                    push_char(&mut msg, c);
                    assert(msg@ =~= seq!['\\', c]);
                    Err(error(ErrorKind::InvalidEscape(msg)))
                },
            }
        }
    }

    /// Parses a basic string, after its opening quote. Escape sequences are replaced by the
    /// characters they denote.
    pub fn parse_basic_str(&mut self) -> (r: Result<String>)
        ensures
            r is Ok ==> measure(final(self).state()) <= measure(old(self).state()),
            agrees(r, final(self).state(), lift(old(self).state(), spec_basic_str(old(self).state().line))),
    {
        let ghost st0 = self.state();
        let mut str = String::new();
        assert(prepend(str@, spec_basic_str(self.line@)) == spec_basic_str(self.line@)) by {
            match spec_basic_str(self.line@) {
                Ok((s, r)) => { assert(str@ + s =~= s); },
                Err(e) => {},
            }
        }
        loop
            invariant
                st0 == old(self).state(),
                self.state() == with_line(st0, self.line@),
                self.line@.len() <= st0.line.len(),
                spec_basic_str(st0.line) == prepend(str@, spec_basic_str(self.line@)),
            decreases self.line@.len(),
        {
            let orig = self.line;
            let idx = scan(orig, ByteClass::BasicStr);
            if idx >= orig.len() {
                return Err(error(ErrorKind::UnterminatedString));
            }
            self.line = after(orig, idx + 1);
            let chunk = match from_utf8(before(orig, idx)) {
                None => return Err(error(ErrorKind::InvalidEncoding)),
                Some(c) => c,
            };
            let ghost str0 = str@;
            str.append(chunk);
            let b = orig[idx];
            if b == 0x5c {
                let c = match self.parse_escape_seq() {
                    Ok(c) => c,
                    Err(e) => return Err(e),
                };
                proof {
                    lemma_escape_consumes(orig@.skip(idx + 1int));
                }
                let ghost str1 = str@;
                push_char(&mut str, c);
                proof {
                    match spec_basic_str(self.line@) {
                        Ok((s, r)) => {
                            assert(str@ + s =~= str0 + (decode_utf8(orig@.take(idx as int)).push(c) + s));
                        },
                        Err(e) => {},
                    }
                }
            } else if b == 0x22 {
                assert(str@ =~= str0 + decode_utf8(orig@.take(idx as int)));
                return Ok(str);
            } else {
                return Err(error(ErrorKind::IllegalChar(b)));
            }
        }
    }

    /// After a backslash that ends a line of a multi-line basic string: skips lines until one is
    /// found that holds more than whitespace, and skips that whitespace.
    fn skip_blank_lines(&mut self) -> (r: Result<()>)
        ensures
            match spec_skip_blank_lines(old(self).state()) {
                Ok(st) => r is Ok && final(self).state() == st,
                Err(e) => r matches Err(err) && err.spec_error() == e,
            },
    {
        let ghost st0 = self.state();
        loop
            invariant
                st0 == old(self).state(),
                spec_skip_blank_lines(st0) == spec_skip_blank_lines(self.state()),
            decreases measure(self.state()),
        {
            let ghost st = self.state();
            proof {
                lemma_next_measure(st);
            }
            if self.next_line().is_none() {
                return Err(error(ErrorKind::UnterminatedString));
            }
            self.skip_whitespace();
            proof {
                lemma_skip_ws(spec_next(st)->0.line);
            }
            if self.line.len() > 0 {
                return Ok(());
            }
        }
    }

    /// One step of a multi-line basic string: copies what can be copied, then handles what
    /// follows it. Returns whether the string has ended.
    fn ml_basic_step(&mut self, str: &mut String) -> (r: Result<bool>)
        ensures
            match r {
                Ok(done) => {
                    &&& final(str)@.len() >= old(str)@.len()
                    &&& final(str)@.take(old(str)@.len() as int) == old(str)@
                    &&& spec_ml_basic(old(self).state()) == prepend(
                        final(str)@.skip(old(str)@.len() as int),
                        if done { Ok((Seq::empty(), final(self).state())) } else { spec_ml_basic(final(self).state()) },
                    )
                    &&& !done ==> measure(final(self).state()) < measure(old(self).state())
                    &&& measure(final(self).state()) <= measure(old(self).state())
                },
                Err(e) => spec_ml_basic(old(self).state()) matches Err(se) && e.spec_error() == se,
            },
    {
        let ghost st = self.state();
        let ghost s0 = str@;
        let idx = scan(self.line, ByteClass::MultilineBasicStr);
        let chunk = match from_utf8(before(self.line, idx)) {
            None => return Err(error(ErrorKind::InvalidEncoding)),
            Some(c) => c,
        };
        str.append(chunk);
        self.line = after(self.line, idx);
        let l = self.line;
        let ghost text = decode_utf8(st.line.take(idx as int));
        assert(str@ == s0 + text);
        if l.len() > 0 && l[0] == 0x5c && scan(after(l, 1), ByteClass::Whitespace) == l.len() - 1 {
            match self.skip_blank_lines() {
                Ok(()) => {},
                Err(e) => return Err(e),
            }
            proof {
                lemma_skip_blank_measure(with_line(st, l@));
                assert(str@.skip(s0.len() as int) =~= text);
                assert(str@.take(s0.len() as int) =~= s0);
            }
            Ok(false)
        } else if l.len() > 0 && l[0] == 0x5c {
            self.line = after(l, 1);
            assert(self.line@ == l@.drop_first());
            let c = match self.parse_escape_seq() {
                Ok(c) => c,
                Err(e) => return Err(e),
            };
            proof {
                lemma_escape_consumes(l@.drop_first());
            }
            push_char(str, c);
            proof {
                assert(str@.skip(s0.len() as int) =~= text.push(c));
                assert(str@.take(s0.len() as int) =~= s0);
            }
            Ok(false)
        } else if prefix3(l, 0x22, 0x22, 0x22) {
            let r = after(l, 3);
            if prefix1(r, 0x22) {
                push_char(str, '"');
                if prefix2(r, 0x22, 0x22) {
                    push_char(str, '"');
                    self.line = after(r, 2);
                } else {
                    self.line = after(r, 1);
                }
            } else {
                self.line = r;
            }
            proof {
                let (extra, rr) = closing_quotes(l@.skip(3), 0x22);
                assert(str@.skip(s0.len() as int) =~= text + extra);
                assert(str@.take(s0.len() as int) =~= s0);
                assert(text + extra + Seq::<char>::empty() =~= text + extra);
            }
            Ok(true)
        } else if l.len() > 0 && l[0] == 0x22 {
            self.line = after(l, 1);
            assert(self.line@ == l@.drop_first());
            push_char(str, '"');
            proof {
                assert(str@.skip(s0.len() as int) =~= text.push('"'));
                assert(str@.take(s0.len() as int) =~= s0);
            }
            Ok(false)
        } else if l.len() > 0 {
            Err(error(ErrorKind::IllegalChar(l[0])))
        } else {
            push_char(str, '\n');
            proof {
                lemma_next_measure(self.state());
            }
            if self.next_line().is_none() {
                return Err(error(ErrorKind::UnterminatedString));
            }
            proof {
                assert(str@.skip(s0.len() as int) =~= text.push('\n'));
                assert(str@.take(s0.len() as int) =~= s0);
            }
            Ok(false)
        }
    }

    /// One step of a multi-line literal string (see [`Self::ml_basic_step`]).
    fn ml_literal_step(&mut self, str: &mut String) -> (r: Result<bool>)
        ensures
            match r {
                Ok(done) => {
                    &&& final(str)@.len() >= old(str)@.len()
                    &&& final(str)@.take(old(str)@.len() as int) == old(str)@
                    &&& spec_ml_literal(old(self).state()) == prepend(
                        final(str)@.skip(old(str)@.len() as int),
                        if done { Ok((Seq::empty(), final(self).state())) } else { spec_ml_literal(final(self).state()) },
                    )
                    &&& !done ==> measure(final(self).state()) < measure(old(self).state())
                    &&& measure(final(self).state()) <= measure(old(self).state())
                },
                Err(e) => spec_ml_literal(old(self).state()) matches Err(se) && e.spec_error() == se,
            },
    {
        let ghost st = self.state();
        let ghost s0 = str@;
        let idx = scan(self.line, ByteClass::MultilineLiteralStr);
        let chunk = match from_utf8(before(self.line, idx)) {
            None => return Err(error(ErrorKind::InvalidEncoding)),
            Some(c) => c,
        };
        str.append(chunk);
        self.line = after(self.line, idx);
        let l = self.line;
        let ghost text = decode_utf8(st.line.take(idx as int));
        assert(str@ == s0 + text);
        if prefix3(l, 0x27, 0x27, 0x27) {
            let r = after(l, 3);
            if prefix1(r, 0x27) {
                push_char(str, '\'');
                if prefix2(r, 0x27, 0x27) {
                    push_char(str, '\'');
                    self.line = after(r, 2);
                } else {
                    self.line = after(r, 1);
                }
            } else {
                self.line = r;
            }
            proof {
                let (extra, rr) = closing_quotes(l@.skip(3), 0x27);
                assert(str@.skip(s0.len() as int) =~= text + extra);
                assert(str@.take(s0.len() as int) =~= s0);
                assert(text + extra + Seq::<char>::empty() =~= text + extra);
            }
            Ok(true)
        } else if l.len() > 0 && l[0] == 0x27 {
            self.line = after(l, 1);
            assert(self.line@ == l@.drop_first());
            push_char(str, '\'');
            proof {
                assert(str@.skip(s0.len() as int) =~= text.push('\''));
                assert(str@.take(s0.len() as int) =~= s0);
            }
            Ok(false)
        } else if l.len() > 0 {
            Err(error(ErrorKind::IllegalChar(l[0])))
        } else {
            push_char(str, '\n');
            proof {
                lemma_next_measure(self.state());
            }
            if self.next_line().is_none() {
                return Err(error(ErrorKind::UnterminatedString));
            }
            proof {
                assert(str@.skip(s0.len() as int) =~= text.push('\n'));
                assert(str@.take(s0.len() as int) =~= s0);
            }
            Ok(false)
        }
    }

    /// Parses the body of a multi-line basic string, after its opening quotes.
    pub fn parse_multiline_basic_str(&mut self) -> (r: Result<String>)
        ensures
            r is Ok ==> measure(final(self).state()) <= measure(old(self).state()),
            agrees(r, final(self).state(), spec_ml_basic_str(old(self).state())),
    {
        // Newlines right after the opening quotes are ignored, so an empty rest of the line
        // means that the string starts on the next one
        if self.line.len() == 0 {
            if self.next_line().is_none() {
                return Err(error(ErrorKind::UnterminatedString));
            }
        }
        let ghost st1 = self.state();
        let mut str = String::new();
        proof {
            lemma_prepend_empty(spec_ml_basic(st1));
        }
        loop
            invariant
                spec_ml_basic(st1) == prepend(str@, spec_ml_basic(self.state())),
                spec_ml_start(old(self).state()) == Some(st1),
                measure(self.state()) <= measure(old(self).state()),
            decreases measure(self.state()),
        {
            let ghost s0 = str@;
            let done = match self.ml_basic_step(&mut str) {
                Ok(done) => done,
                Err(e) => return Err(e),
            };
            proof {
                lemma_prepend_split(s0, str@, if done { Ok((Seq::empty(), self.state())) } else { spec_ml_basic(self.state()) });
            }
            if done {
                return Ok(str);
            }
        }
    }

    /// Parses the body of a multi-line literal string, after its opening quotes.
    pub fn parse_multiline_literal_str(&mut self) -> (r: Result<String>)
        ensures
            r is Ok ==> measure(final(self).state()) <= measure(old(self).state()),
            agrees(r, final(self).state(), spec_ml_literal_str(old(self).state())),
    {
        // Newlines right after the opening quotes are ignored, so an empty rest of the line
        // means that the string starts on the next one
        if self.line.len() == 0 {
            if self.next_line().is_none() {
                return Err(error(ErrorKind::UnterminatedString));
            }
        }
        let ghost st1 = self.state();
        let mut str = String::new();
        proof {
            lemma_prepend_empty(spec_ml_literal(st1));
        }
        loop
            invariant
                spec_ml_literal(st1) == prepend(str@, spec_ml_literal(self.state())),
                spec_ml_start(old(self).state()) == Some(st1),
                measure(self.state()) <= measure(old(self).state()),
            decreases measure(self.state()),
        {
            let ghost s0 = str@;
            let done = match self.ml_literal_step(&mut str) {
                Ok(done) => done,
                Err(e) => return Err(e),
            };
            proof {
                lemma_prepend_split(s0, str@, if done { Ok((Seq::empty(), self.state())) } else { spec_ml_literal(self.state()) });
            }
            if done {
                return Ok(str);
            }
        }
    }

    /// Parses a string of any of the four kinds, starting at its opening quote.
    pub fn parse_string(&mut self) -> (r: Result<String>)
        ensures
            r is Ok ==> measure(final(self).state()) <= measure(old(self).state()),
            agrees(r, final(self).state(), spec_string(old(self).state())),
    {
        let l = self.line;
        if prefix3(l, 0x22, 0x22, 0x22) {
            self.line = after(l, 3);
            self.parse_multiline_basic_str()
        } else if prefix1(l, 0x22) {
            self.line = after(l, 1);
            assert(l@.skip(1) =~= l@.drop_first());
            self.parse_basic_str()
        } else if prefix3(l, 0x27, 0x27, 0x27) {
            self.line = after(l, 3);
            self.parse_multiline_literal_str()
        } else if prefix1(l, 0x27) {
            self.line = after(l, 1);
            assert(l@.skip(1) =~= l@.drop_first());
            self.parse_literal_str()
        } else {
            Err(error(ErrorKind::ExpectedToken("string".to_owned())))
        }
    }

    /// Parses one key: a bare key, or a basic or literal string on one line.
    pub fn parse_key(&mut self) -> (r: Result<String>)
        ensures
            r is Ok ==> measure(final(self).state()) <= measure(old(self).state()),
            agrees(r, final(self).state(), lift(old(self).state(), spec_key(old(self).state().line))),
    {
        let l = self.line;
        if prefix3(l, 0x22, 0x22, 0x22) || prefix3(l, 0x27, 0x27, 0x27) {
            // multi-line strings are invalid as keys
            Err(error(ErrorKind::ExpectedToken("key".to_owned())))
        } else if prefix1(l, 0x22) {
            self.line = after(l, 1);
            assert(l@.skip(1) =~= l@.drop_first());
            self.parse_basic_str()
        } else if prefix1(l, 0x27) {
            self.line = after(l, 1);
            assert(l@.skip(1) =~= l@.drop_first());
            self.parse_literal_str()
        } else {
            self.parse_bare_key()
        }
    }

    /// Parses a dotted key, and the whitespace after it.
    pub fn parse_dotted_key(&mut self) -> (r: Result<Key>)
        ensures
            r is Ok ==> measure(final(self).state()) <= measure(old(self).state()),
            agrees(r, final(self).state(), lift(old(self).state(), spec_dotted_key(old(self).state().line))),
    {
        let ghost st0 = self.state();
        let first = match self.parse_key() {
            Ok(k) => k,
            Err(e) => return Err(e),
        };
        proof {
            lemma_key_rest(st0.line);
            lemma_skip_ws(self.state().line);
        }
        self.skip_whitespace();
        let ghost l0 = self.state().line;
        let mut path: Vec<String> = Vec::new();
        path.push(first);
        assert(keys_view(path@) =~= seq![first@]);
        while prefix1(self.line, 0x2e)
            invariant
                st0 == old(self).state(),
                path@.len() >= 1,
                keys_view(path@)[0] == (spec_key(st0.line)->Ok_0).0,
                spec_key(st0.line) is Ok,
                l0 == skip_ws((spec_key(st0.line)->Ok_0).1),
                self.state() == with_line(st0, self.state().line),
                self.state().line.len() <= st0.line.len(),
                spec_more_keys(l0) == (match spec_more_keys(self.state().line) {
                    Ok((ks, r2)) => Ok::<(Seq<Seq<char>>, Seq<u8>), SpecError>((keys_view(path@).drop_first() + ks, r2)),
                    Err(e) => Err(e),
                }),
            decreases self.state().line.len(),
        {
            let ghost cur = self.state().line;
            self.line = after(self.line, 1);
            assert(cur.skip(1) =~= cur.drop_first());
            self.skip_whitespace();
            let ghost kl = skip_ws(cur.drop_first());
            let k = match self.parse_key() {
                Ok(k) => k,
                Err(e) => {
                    assert(spec_more_keys(cur) == Err::<(Seq<Seq<char>>, Seq<u8>), SpecError>(e.spec_error()));
                    assert(spec_more_keys(l0) == Err::<(Seq<Seq<char>>, Seq<u8>), SpecError>(e.spec_error()));
                    assert(spec_dotted_key(st0.line) == Err::<(SKey, Seq<u8>), SpecError>(e.spec_error()));
                    return Err(e);
                },
            };
            let ghost after_key = self.state().line;
            proof {
                lemma_skip_ws(cur.drop_first());
                lemma_key_rest(kl);
                assert(spec_key(kl) == Ok::<(Seq<char>, Seq<u8>), SpecError>((k@, after_key)));
            }
            self.skip_whitespace();
            proof {
                lemma_skip_ws(after_key);
                assert(self.state().line == skip_ws(after_key));
                assert(skip_ws(after_key).len() < cur.len());
                assert(spec_more_keys(cur) == (match spec_more_keys(skip_ws(after_key)) {
                    Ok((ks, r2)) => Ok::<(Seq<Seq<char>>, Seq<u8>), SpecError>((seq![k@] + ks, r2)),
                    Err(e) => Err(e),
                }));
            }
            let ghost before_push = keys_view(path@);
            path.push(k);
            proof {
                assert(keys_view(path@) =~= before_push.push(k@));
                assert(keys_view(path@).drop_first() =~= before_push.drop_first() + seq![k@]);
                if let Ok((ks, r2)) = spec_more_keys(self.state().line) {
                    assert(before_push.drop_first() + (seq![k@] + ks) =~= keys_view(path@).drop_first() + ks);
                }
            }
        }
        let ghost full = keys_view(path@);
        let name = match path.pop() {
            Some(n) => n,
            None => return Err(error(ErrorKind::ExpectedToken("key".to_owned()))),
        };
        proof {
            assert(keys_view(path@) =~= full.drop_last());
            assert(full =~= seq![full[0]] + full.drop_first());
        }
        Ok(Key { path, name })
    }

    /// Skips whitespace, comments and ends of lines until a line has something else left (inside
    /// an array, values may span lines). Running out of lines is an unterminated array.
    pub fn skip_comments_and_whitespace(&mut self) -> (r: Result<()>)
        ensures
            match spec_cws(old(self).state()) {
                Ok(st) => r is Ok && final(self).state() == st,
                Err(e) => r matches Err(err) && err.spec_error() == e,
            },
    {
        loop
            invariant
                spec_cws(old(self).state()) == spec_cws(self.state()),
            decreases measure(self.state()),
        {
            let ghost st = self.state();
            proof {
                lemma_next_measure(st);
            }
            self.skip_whitespace();
            match self.skip_comment() {
                Ok(()) => {},
                Err(e) => return Err(e),
            }
            if self.line.len() > 0 {
                return Ok(());
            }
            if self.next_line().is_none() {
                return Err(error(ErrorKind::UnterminatedString));
            }
        }
    }

    /// Parses a value, starting at its first byte.
    pub fn parse_value(&mut self) -> (r: Result<Value>)
        ensures
            r is Ok ==> measure(final(self).state()) <= measure(old(self).state()),
            agrees(r, final(self).state(), spec_value(old(self).state())),
        decreases measure(old(self).state()), 0int,
    {
        let l = self.line;
        if l.len() == 0 {
            return Err(error(ErrorKind::ExpectedToken("a value".to_owned())));
        }
        let b = l[0];
        let signed = b == 0x2b || b == 0x2d;
        if b == 0x22 || b == 0x27 {
            match self.parse_string() {
                Ok(s) => Ok(Value::String(s)),
                Err(e) => Err(e),
            }
        } else if b == 0x74 || b == 0x66 {
            match self.parse_bool() {
                Ok(v) => Ok(Value::Boolean(v)),
                Err(e) => Err(e),
            }
        } else if 0x30 <= b && b <= 0x39 {
            self.parse_number_or_datetime()
        } else if signed && l.len() > 1 && 0x30 <= l[1] && l[1] <= 0x39 {
            self.parse_number_decimal()
        } else if (signed && l.len() > 1 && (l[1] == 0x69 || l[1] == 0x6e)) || b == 0x69 || b == 0x6e {
            match self.parse_number_special() {
                Ok(v) => Ok(Value::SpecialFloat(v)),
                Err(e) => Err(e),
            }
        } else if signed {
            Err(error(ErrorKind::InvalidNumber("missing digits".to_owned())))
        } else if b == 0x5b {
            // The opening delimiter is consumed here
            self.line = after(l, 1);
            assert(l@.skip(1) =~= l@.drop_first());
            match self.parse_array() {
                Ok(a) => {
                    proof {
                        lemma_array_view(a);
                    }
                    Ok(Value::Array(a))
                },
                Err(e) => Err(e),
            }
        } else if b == 0x7b {
            // The opening delimiter is consumed here
            self.line = after(l, 1);
            assert(l@.skip(1) =~= l@.drop_first());
            match self.parse_inline_table() {
                Ok(t) => Ok(Value::InlineTable(t)),
                Err(e) => Err(e),
            }
        } else if !b.is_toml_legal() {
            Err(error(ErrorKind::IllegalChar(b)))
        } else {
            Err(error(ErrorKind::ExpectedToken("a value".to_owned())))
        }
    }

    /// Parses the values of an array and its closing bracket, after its opening one.
    pub fn parse_array(&mut self) -> (r: Result<Vec<Value>>)
        ensures
            r is Ok ==> measure(final(self).state()) < measure(old(self).state()),
            match spec_array(old(self).state()) {
                Ok((vs, st)) => r matches Ok(a) && values_view(a@) == vs && final(self).state() == st,
                Err(e) => r matches Err(err) && err.spec_error() == e,
            },
        decreases measure(old(self).state()), 1int,
    {
        let ghost st0 = self.state();
        let mut result: Vec<Value> = Vec::new();
        proof {
            assert(values_view(result@) =~= Seq::<SValue>::empty());
            lemma_prefix_values_empty(spec_array(st0));
        }
        loop
            invariant
                st0 == old(self).state(),
                measure(self.state()) <= measure(st0),
                spec_array(st0) == prefix_values(values_view(result@), spec_array(self.state())),
            decreases measure(self.state()),
        {
            let ghost s = self.state();
            proof {
                lemma_cws_measure(s);
            }
            match self.skip_comments_and_whitespace() {
                Ok(()) => {},
                Err(e) => return Err(e),
            }
            let ghost s1 = self.state();
            if prefix1(self.line, 0x5d) {
                self.line = after(self.line, 1);
                assert(s1.line.skip(1) =~= s1.line.drop_first());
                assert(values_view(result@) + Seq::<SValue>::empty() =~= values_view(result@));
                return Ok(result);
            }
            let v = match self.parse_value() {
                Ok(v) => v,
                Err(e) => return Err(e),
            };
            let ghost s2 = self.state();
            proof {
                lemma_cws_measure(s2);
            }
            match self.skip_comments_and_whitespace() {
                Ok(()) => {},
                Err(e) => return Err(e),
            }
            let ghost s3 = self.state();
            let ghost acc = values_view(result@);
            if prefix1(self.line, 0x5d) {
                self.line = after(self.line, 1);
                assert(s3.line.skip(1) =~= s3.line.drop_first());
                result.push(v);
                assert(values_view(result@) =~= acc + seq![v@]);
                return Ok(result);
            }
            if prefix1(self.line, 0x2c) {
                self.line = after(self.line, 1);
                assert(s3.line.skip(1) =~= s3.line.drop_first());
                result.push(v);
                proof {
                    assert(values_view(result@) =~= acc.push(v@));
                    lemma_prefix_values_push(acc, v@, spec_array(self.state()));
                }
            } else {
                return Err(error(ErrorKind::ExpectedToken(", or ] after value in array".to_owned())));
            }
        }
    }

    /// Parses a key/value pair: a dotted key, `=`, and a value.
    pub fn parse_key_value_pair(&mut self) -> (r: Result<(Key, Value)>)
        ensures
            r is Ok ==> measure(final(self).state()) <= measure(old(self).state()),
            agrees(r, final(self).state(), spec_key_value(old(self).state())),
        decreases measure(old(self).state()), 1int,
    {
        let key = match self.parse_dotted_key() {
            Ok(k) => k,
            Err(e) => return Err(e),
        };
        // Whitespace has already been consumed by looking for another '.'
        let l = self.line;
        if prefix1(l, 0x3d) {
            self.line = after(l, 1);
            assert(l@.skip(1) =~= l@.drop_first());
        } else {
            return Err(error(ErrorKind::ExpectedToken("= after key".to_owned())));
        }
        proof {
            lemma_skip_ws(self.state().line);
        }
        self.skip_whitespace();
        let value = match self.parse_value() {
            Ok(v) => v,
            Err(e) => return Err(e),
        };
        Ok((key, value))
    }

    /// Parses the entries of an inline table and its closing brace, after its opening one.
    pub fn parse_inline_table(&mut self) -> (r: Result<Table>)
        ensures
            r is Ok ==> measure(final(self).state()) <= measure(old(self).state()),
            match spec_inline_table(old(self).state()) {
                Ok((t, st)) => r matches Ok(tb) && tview(tb) == t && final(self).state() == st,
                Err(e) => r matches Err(err) && err.spec_error() == e,
            },
        decreases measure(old(self).state()), 2int,
    {
        let ghost st0 = self.state();
        let mut result: Table = Vec::new();
        assert(tview(result) =~= Seq::<(Seq<char>, SValue)>::empty());
        proof {
            lemma_skip_ws(st0.line);
        }
        self.skip_whitespace();
        if prefix1(self.line, 0x7d) {
            let ghost l = self.line@;
            self.line = after(self.line, 1);
            assert(l.skip(1) =~= l.drop_first());
            return Ok(result);
        }
        let ghost st1 = self.state();
        loop
            invariant
                st0 == old(self).state(),
                measure(self.state()) <= measure(st0),
                spec_inline_table(st0) == spec_inline_entries(self.state(), tview(result)),
            decreases measure(self.state()),
        {
            let ghost s = self.state();
            let (key, value) = match self.parse_key_value_pair() {
                Ok(kv) => kv,
                Err(e) => return Err(e),
            };
            let ghost acc = tview(result);
            match get_dotted_subtable(&mut result, key.path.as_slice(), 0, false, key.name.clone(), value) {
                Ok(()) => {},
                Err(TableError::InvalidPath) => {
                    return Err(error(ErrorKind::InvalidKeyPath(key.to_display_string(), "inline table".to_owned())));
                },
                Err(TableError::Duplicate) => {
                    return Err(error(ErrorKind::DuplicateKey(key.to_display_string(), "inline table".to_owned())));
                },
            }
            let ghost s1 = self.state();
            proof {
                lemma_skip_ws(s1.line);
            }
            self.skip_whitespace();
            let l = self.line;
            if prefix1(l, 0x7d) {
                self.line = after(l, 1);
                assert(l@.skip(1) =~= l@.drop_first());
                return Ok(result);
            }
            if prefix1(l, 0x2c) {
                self.line = after(l, 1);
                assert(l@.skip(1) =~= l@.drop_first());
                proof {
                    lemma_skip_ws(self.state().line);
                }
                self.skip_whitespace();
            } else {
                return Err(error(ErrorKind::ExpectedToken(", or } after key/value pair in inline table".to_owned())));
            }
        }
    }

    /// Parses an array-of-tables header after its opening `[[`: a dotted key and `]]`.
    pub fn parse_array_header(&mut self) -> (r: Result<Key>)
        ensures
            r is Ok ==> measure(final(self).state()) <= measure(old(self).state()),
            agrees(r, final(self).state(), lift(old(self).state(), spec_header(old(self).state().line, true))),
    {
        proof {
            lemma_skip_ws(self.state().line);
        }
        self.skip_whitespace();
        let key = match self.parse_dotted_key() {
            Ok(k) => k,
            Err(e) => return Err(e),
        };
        proof {
            lemma_skip_ws(self.state().line);
        }
        self.skip_whitespace();
        if prefix2(self.line, 0x5d, 0x5d) {
            self.line = after(self.line, 2);
            Ok(key)
        } else {
            Err(error(ErrorKind::ExpectedToken("]] after dotted key".to_owned())))
        }
    }

    /// Parses a table header after its opening `[`: a dotted key and `]`.
    pub fn parse_table_header(&mut self) -> (r: Result<Key>)
        ensures
            r is Ok ==> measure(final(self).state()) <= measure(old(self).state()),
            agrees(r, final(self).state(), lift(old(self).state(), spec_header(old(self).state().line, false))),
    {
        proof {
            lemma_skip_ws(self.state().line);
        }
        self.skip_whitespace();
        let key = match self.parse_dotted_key() {
            Ok(k) => k,
            Err(e) => return Err(e),
        };
        proof {
            lemma_skip_ws(self.state().line);
        }
        self.skip_whitespace();
        let l = self.line;
        if prefix1(l, 0x5d) {
            self.line = after(l, 1);
            assert(l@.skip(1) =~= l@.drop_first());
            Ok(key)
        } else {
            Err(error(ErrorKind::ExpectedToken("] after dotted key".to_owned())))
        }
    }

    /// Parses the next line of the document (a value may continue onto further lines). Returns
    /// `None` at the end of the source.
    pub fn parse_line(&mut self) -> (r: Result<Option<Line>>)
        ensures
            match spec_parse_line(old(self).state()) {
                Ok(None) => r matches Ok(None) && final(self).state() == old(self).state(),
                Ok(Some((item, st))) => r matches Ok(Some(line)) && line@ == item && final(self).state() == st,
                Err(e) => r matches Err(err) && err.spec_error() == e,
            },
            r matches Ok(Some(_)) ==> measure(final(self).state()) < measure(old(self).state()),
    {
        let ghost st = self.state();
        proof {
            lemma_next_measure(st);
        }
        if self.next_line().is_none() {
            return Ok(None);
        }
        proof {
            lemma_skip_ws(self.state().line);
        }
        self.skip_whitespace();
        let l = self.line;
        let result = if prefix2(l, 0x5b, 0x5b) {
            self.line = after(l, 2);
            match self.parse_array_header() {
                Ok(key) => Line::TableHeader { key, kind: HeaderKind::Array },
                Err(e) => return Err(e),
            }
        } else if prefix1(l, 0x5b) {
            self.line = after(l, 1);
            assert(l@.skip(1) =~= l@.drop_first());
            match self.parse_table_header() {
                Ok(key) => Line::TableHeader { key, kind: HeaderKind::Table },
                Err(e) => return Err(e),
            }
        } else if l.len() > 0 && (l[0].is_toml_word() || l[0] == 0x22 || l[0] == 0x27) {
            match self.parse_key_value_pair() {
                Ok((key, value)) => Line::KeyValuePair { key, value },
                Err(e) => return Err(e),
            }
        } else {
            Line::Empty
        };
        // Only whitespace and a comment may follow
        proof {
            lemma_skip_ws(self.state().line);
        }
        self.skip_whitespace();
        match self.skip_comment() {
            Ok(()) => {},
            Err(e) => return Err(e),
        }
        if self.line.len() > 0 {
            let b = self.line[0];
            return Err(
                if b.is_toml_legal() {
                    error(ErrorKind::ExpectedToken("end of line".to_owned()))
                } else {
                    error(ErrorKind::IllegalChar(b))
                },
            );
        }
        Ok(Some(result))
    }

    /// Parses the whole document into its root table.
    pub fn parse(&mut self) -> (r: Result<Value>)
        ensures
            match spec_parse(old(self).state()) {
                Ok(t) => r matches Ok(v) && v@ == SValue::Table(t),
                Err(e) => r matches Err(err) && err.spec_error() == e,
            },
    {
        let ghost st0 = self.state();
        let mut root: Table = Vec::new();
        // The path of the table that the last header opened
        let mut current: Vec<String> = Vec::new();
        // The key of that header (used for error messages)
        let mut table_path = Key { path: Vec::new(), name: "root table".to_owned() };
        proof {
            assert(tview(root) =~= Seq::<(Seq<char>, SValue)>::empty());
            assert(keys_view(current@) =~= Seq::<Seq<char>>::empty());
            assert(table_path@ == root_key()) by {
                assert(keys_view(table_path.path@) =~= Seq::<Seq<char>>::empty());
            }
        }
        loop
            invariant
                st0 == old(self).state(),
                spec_parse(st0) == spec_document(self.state(), tview(root), keys_view(current@), table_path@),
            decreases measure(self.state()),
        {
            let ghost st = self.state();
            let line = match self.parse_line() {
                Err(e) => return Err(e),
                Ok(None) => return Ok(Value::Table(root)),
                Ok(Some(line)) => line,
            };
            match apply_line(&mut root, &mut current, &mut table_path, line) {
                Ok(()) => {},
                Err(e) => return Err(e),
            }
        }
    }
}

/// Parses hexadecimal digits with an optional leading `+` (at most eight bytes in all).
fn parse_hex(s: &[u8]) -> (r: Option<u32>)
    requires
        s@.len() <= 8,
    ensures
        match spec_hex_number(s@) {
            Some(v) => v <= u32::MAX && r == Some(v as u32),
            None => r is None,
        },
{
    let digits = if s.len() > 1 && s[0] == 0x2b {
        after(s, 1)
    } else {
        s
    };
    if digits.len() == 0 || scan(digits, ByteClass::HexDigit) < digits.len() {
        proof {
            if s@.len() > 1 && s@[0] == 0x2b {
                lemma_span_props(s@, ByteClass::HexDigit);
            }
        }
        return None;
    }
    let mut acc: u64 = 0;
    let mut i: usize = 0;
    while i < digits.len()
        invariant
            0 <= i <= digits@.len() <= 8,
            acc == hex_value(digits@.take(i as int)),
            acc < pow16(i as nat),
            forall|j: int| 0 <= j < digits@.len() ==> hex_digit(#[trigger] digits@[j]),
        decreases digits@.len() - i,
    {
        proof {
            reveal_with_fuel(pow16, 9);
        }
        let b = digits[i];
        let d: u64 = if 0x30 <= b && b <= 0x39 {
            (b - 0x30) as u64
        } else if 0x41 <= b && b <= 0x46 {
            (b - 0x41 + 10) as u64
        } else {
            (b - 0x61 + 10) as u64
        };
        assert(digits@.take(i + 1).drop_last() =~= digits@.take(i as int));
        acc = acc * 16 + d;
        i = i + 1;
    }
    proof {
        reveal_with_fuel(pow16, 9);
        assert(digits@.take(i as int) =~= digits@);
        lemma_hex_value_bound(digits@);
        if s@.len() > 1 && s@[0] == 0x2b {
            assert(digits@ == s@.drop_first());
        }
    }
    Some(acc as u32)
}

/// Putting nothing in front of a string result leaves it as it is.
proof fn lemma_prepend_empty<S>(r: std::result::Result<(Seq<char>, S), SpecError>)
    ensures
        prepend(Seq::empty(), r) == r,
{
    if let Ok((t, x)) = r {
        assert(Seq::<char>::empty() + t =~= t);
    }
}

/// Putting `a` in front, after the rest of `b` beyond `a`, is putting `b` in front.
proof fn lemma_prepend_split<S>(a: Seq<char>, b: Seq<char>, r: std::result::Result<(Seq<char>, S), SpecError>)
    requires
        b.len() >= a.len(),
        b.take(a.len() as int) == a,
    ensures
        prepend(a, prepend(b.skip(a.len() as int), r)) == prepend(b, r),
{
    assert(b =~= a + b.skip(a.len() as int));
    if let Ok((t, x)) = r {
        assert(a + (b.skip(a.len() as int) + t) =~= b + t);
    }
}

/// Skipping blank lines lowers the measure.
pub proof fn lemma_skip_blank_measure(st: PState)
    ensures
        spec_skip_blank_lines(st) matches Ok(st2) ==> measure(st2) < measure(st),
    decreases measure(st),
{
    lemma_next_measure(st);
    if let Some(st2) = spec_next(st) {
        let st3 = with_line(st2, skip_ws(st2.line));
        lemma_skip_ws(st2.line);
        if st3.line.len() == 0 && measure(st3) < measure(st) {
            lemma_skip_blank_measure(st3);
        }
    }
}

/// An escape sequence that parses consumes at least its first byte.
pub proof fn lemma_escape_consumes(s: Seq<u8>)
    ensures
        spec_escape(s) matches Ok((c, r)) ==> r.len() < s.len(),
{
}

/// An array result with values put in front.
pub open spec fn prefix_values(
    acc: Seq<SValue>,
    r: std::result::Result<(Seq<SValue>, PState), SpecError>,
) -> std::result::Result<(Seq<SValue>, PState), SpecError> {
    match r {
        Ok((vs, st)) => Ok((acc + vs, st)),
        Err(e) => Err(e),
    }
}


proof fn lemma_prefix_values_empty(r: std::result::Result<(Seq<SValue>, PState), SpecError>)
    ensures
        prefix_values(Seq::empty(), r) == r,
{
    if let Ok((vs, st)) = r {
        assert(Seq::<SValue>::empty() + vs =~= vs);
    }
}


proof fn lemma_prefix_values_push(acc: Seq<SValue>, v: SValue, r: std::result::Result<(Seq<SValue>, PState), SpecError>)
    ensures
        prefix_values(acc, prefix_values(seq![v], r)) == prefix_values(acc.push(v), r),
{
    if let Ok((vs, st)) = r {
        assert(acc + (seq![v] + vs) =~= acc.push(v) + vs);
    }
}

} // verus!
