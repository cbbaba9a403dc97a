//! The lexical grammar of TOML as the parser reads it: what each parsing step yields and what it
//! leaves of the input.

use vstd::prelude::*;
use vstd::utf8::{valid_utf8, decode_utf8};

use super::bytes::{ascii_digit, span, ByteClass};
use super::error::SpecError;
use super::reader::spec_next_line;
use super::table::{lemma_subtable_wf, spec_dotted, spec_subtable, wf_table, wf_value, SAction, TableError};
use super::value::{SValue, STable, SpecialFloat};

verus! {

/// The state of the parser: the rest of the current line, the source bytes after that line, and
/// the number of lines read.
pub struct PState {
    pub line: Seq<u8>,
    pub rest: Seq<u8>,
    pub line_no: nat,
}

/// The state with the rest of the current line replaced.
pub open spec fn with_line(st: PState, line: Seq<u8>) -> PState {
    PState { line, ..st }
}

/// The state after moving to the next line, if there is one.
pub open spec fn spec_next(st: PState) -> Option<PState> {
    match spec_next_line(st.rest) {
        Some((line, rest)) => Some(PState { line, rest, line_no: st.line_no + 1 }),
        None => None,
    }
}

/// A measure of the input left, which every step that consumes input lowers.
pub open spec fn measure(st: PState) -> nat {
    2 * (st.line.len() + st.rest.len()) + if st.rest.len() > 0 { 1nat } else { 0nat }
}

/// A result of a step that works within the current line, lifted to parser states.
pub open spec fn lift<T>(st: PState, r: Result<(T, Seq<u8>), SpecError>) -> Result<(T, PState), SpecError> {
    match r {
        Ok((v, line)) => Ok((v, with_line(st, line))),
        Err(e) => Err(e),
    }
}

pub open spec fn starts_with(s: Seq<u8>, p: Seq<u8>) -> bool {
    p.len() <= s.len() && s.take(p.len() as int) == p
}

/// All bytes of `s` lie in class `c`.
pub open spec fn all_in(s: Seq<u8>, c: ByteClass) -> bool {
    span(s, c) == s.len()
}

/// The line after leading whitespace.
pub open spec fn skip_ws(line: Seq<u8>) -> Seq<u8> {
    line.skip(span(line, ByteClass::Whitespace) as int)
}

/// A comment at the start of the line is consumed, after checking its encoding and bytes.
pub open spec fn spec_skip_comment(line: Seq<u8>) -> Result<Seq<u8>, SpecError> {
    if line.len() > 0 && line[0] == 0x23 {
        let rest = line.drop_first();
        if !valid_utf8(rest) {
            Err(SpecError::InvalidEncoding)
        } else if span(rest, ByteClass::Comment) < rest.len() {
            Err(SpecError::IllegalChar(rest[span(rest, ByteClass::Comment) as int]))
        } else {
            Ok(Seq::empty())
        }
    } else {
        Ok(line)
    }
}

pub open spec fn spec_parse_bool(line: Seq<u8>) -> Result<(bool, Seq<u8>), SpecError> {
    if starts_with(line, seq![0x74u8, 0x72, 0x75, 0x65]) {
        Ok((true, line.skip(4)))
    } else if starts_with(line, seq![0x66u8, 0x61, 0x6c, 0x73, 0x65]) {
        Ok((false, line.skip(5)))
    } else {
        Err(SpecError::ExpectedToken("true/false"@))
    }
}

/// `inf` or `nan`, after any sign.
pub open spec fn spec_inf_nan(s: Seq<u8>, neg: bool) -> Result<(SpecialFloat, Seq<u8>), SpecError> {
    if starts_with(s, seq![0x69u8, 0x6e, 0x66]) {
        Ok((if neg { SpecialFloat::NegInfinity } else { SpecialFloat::Infinity }, s.skip(3)))
    } else if starts_with(s, seq![0x6eu8, 0x61, 0x6e]) {
        Ok((if neg { SpecialFloat::NegNan } else { SpecialFloat::Nan }, s.skip(3)))
    } else {
        Err(SpecError::ExpectedToken("inf/nan"@))
    }
}

pub open spec fn spec_parse_special(line: Seq<u8>) -> Result<(SpecialFloat, Seq<u8>), SpecError> {
    if line.len() > 0 && line[0] == 0x2d {
        spec_inf_nan(line.drop_first(), true)
    } else if line.len() > 0 && line[0] == 0x2b {
        spec_inf_nan(line.drop_first(), false)
    } else {
        spec_inf_nan(line, false)
    }
}

/// Further groups of digits, each after a single `_`: the digits and what follows them.
pub open spec fn spec_digit_groups(s: Seq<u8>, c: ByteClass) -> Result<(Seq<u8>, Seq<u8>), SpecError>
    decreases s.len(),
{
    if s.len() > 0 && s[0] == 0x5f {
        let t = s.drop_first();
        let m = span(t, c);
        proof {
            super::bytes::lemma_span_props(t, c);
        }
        if m == 0 {
            Err(SpecError::InvalidNumber(
                if t.len() > 0 && t[0] == 0x5f { "double underscore"@ } else { "trailing underscore"@ },
            ))
        } else {
            match spec_digit_groups(t.skip(m as int), c) {
                Ok((d, r)) => Ok((t.take(m as int) + d, r)),
                Err(e) => Err(e),
            }
        }
    } else {
        Ok((Seq::empty(), s))
    }
}

/// Digits of class `c`, possibly separated by single underscores: the digits without the
/// underscores, and what follows them.
pub open spec fn spec_digits(line: Seq<u8>, c: ByteClass) -> Result<(Seq<u8>, Seq<u8>), SpecError> {
    let n = span(line, c);
    if n == 0 {
        Err(SpecError::InvalidNumber(
            if line.len() > 0 && line[0] == 0x5f { "leading underscore"@ } else { "no digits"@ },
        ))
    } else {
        match spec_digit_groups(line.skip(n as int), c) {
            Ok((d, r)) => Ok((line.take(n as int) + d, r)),
            Err(e) => Err(e),
        }
    }
}

/// A leading zero followed by more digits (possibly after an underscore), which is not allowed.
pub open spec fn has_leading_zero(s: Seq<u8>) -> bool {
    s.len() >= 2 && s[0] == 0x30 && (ascii_digit(s[1]) || (s[1] == 0x5f && s.len() >= 3
        && ascii_digit(s[2])))
}

/// The optional fraction of a decimal number: the bytes it adds and what follows.
pub open spec fn spec_fraction(s: Seq<u8>) -> Result<(Seq<u8>, Seq<u8>), SpecError> {
    if s.len() > 0 && s[0] == 0x2e {
        match spec_digits(s.drop_first(), ByteClass::Digit) {
            Ok((d, r)) => Ok((seq![0x2eu8] + d, r)),
            Err(e) => Err(e),
        }
    } else {
        Ok((Seq::empty(), s))
    }
}

/// The optional exponent of a decimal number: the bytes it adds (with `e` for `E`), and what
/// follows.
pub open spec fn spec_exponent(s: Seq<u8>) -> Result<(Seq<u8>, Seq<u8>), SpecError> {
    if s.len() > 0 && (s[0] == 0x65 || s[0] == 0x45) {
        let t = s.drop_first();
        let (sign, u) = if t.len() > 0 && (t[0] == 0x2b || t[0] == 0x2d) {
            (seq![t[0]], t.drop_first())
        } else {
            (Seq::<u8>::empty(), t)
        };
        match spec_digits(u, ByteClass::Digit) {
            Ok((d, r)) => Ok((seq![0x65u8] + sign + d, r)),
            Err(e) => Err(e),
        }
    } else {
        Ok((Seq::empty(), s))
    }
}

/// A decimal integer or float.
pub open spec fn spec_number_decimal(line: Seq<u8>) -> Result<(SValue, Seq<u8>), SpecError> {
    let (sign, l1) = if line.len() > 0 && (line[0] == 0x2b || line[0] == 0x2d) {
        (seq![line[0]], line.drop_first())
    } else {
        (Seq::<u8>::empty(), line)
    };
    if has_leading_zero(l1) {
        Err(SpecError::InvalidNumber("leading zero"@))
    } else {
        match spec_digits(l1, ByteClass::Digit) {
            Err(e) => Err(e),
            Ok((int_part, l2)) => match spec_fraction(l2) {
                Err(e) => Err(e),
                Ok((frac, l3)) => match spec_exponent(l3) {
                    Err(e) => Err(e),
                    Ok((exp, l4)) => {
                        let buf = sign + int_part + frac + exp;
                        if frac.len() > 0 || exp.len() > 0 {
                            Ok((SValue::Float(buf), l4))
                        } else {
                            Ok((SValue::Integer(buf), l4))
                        }
                    },
                },
            },
        }
    }
}

/// A date-time that starts with a four-digit year and a `-`.
pub open spec fn spec_date(line: Seq<u8>) -> (SValue, Seq<u8>) {
    let end = span(line, ByteClass::Datetime) as int;
    let t = span(line.take(end), ByteClass::NotTimeSep) as int;
    if t < end {
        spec_date_time(line, end, t + 1)
    } else if line.len() >= end + 2 && line[end] == 0x20 && ascii_digit(line[end + 1]) {
        let idx = end + 1;
        spec_date_time(line, idx + span(line.skip(idx), ByteClass::Datetime), idx)
    } else {
        (SValue::LocalDate(line.take(end)), line.skip(end))
    }
}

/// A date and time: `line[..end]`, whose time starts at `time`; it has an offset when the time
/// holds `Z`, `z`, `+` or `-`.
pub open spec fn spec_date_time(line: Seq<u8>, end: int, time: int) -> (SValue, Seq<u8>) {
    let result = line.take(end);
    if span(result.skip(time), ByteClass::NotOffset) < result.skip(time).len() {
        (SValue::OffsetDatetime(result), line.skip(end))
    } else {
        (SValue::LocalDatetime(result), line.skip(end))
    }
}

/// Anything that starts with a digit: a prefixed integer, a date-time or a decimal number.
pub open spec fn spec_number_or_datetime(line: Seq<u8>) -> Result<(SValue, Seq<u8>), SpecError> {
    if line.len() >= 2 && line[0] == 0x30 && line[1] == 0x78 {
        match spec_digits(line.skip(2), ByteClass::HexDigit) {
            Ok((d, r)) => Ok((SValue::HexInt(d), r)),
            Err(e) => Err(e),
        }
    } else if line.len() >= 2 && line[0] == 0x30 && line[1] == 0x6f {
        match spec_digits(line.skip(2), ByteClass::OctDigit) {
            Ok((d, r)) => Ok((SValue::OctalInt(d), r)),
            Err(e) => Err(e),
        }
    } else if line.len() >= 2 && line[0] == 0x30 && line[1] == 0x62 {
        match spec_digits(line.skip(2), ByteClass::BinDigit) {
            Ok((d, r)) => Ok((SValue::BinaryInt(d), r)),
            Err(e) => Err(e),
        }
    } else if line.len() >= 3 && line[2] == 0x3a {
        let idx = span(line, ByteClass::Datetime);
        Ok((SValue::LocalTime(line.take(idx as int)), line.skip(idx as int)))
    } else if line.len() >= 5 && ascii_digit(line[0]) && ascii_digit(line[1]) && ascii_digit(line[2])
        && ascii_digit(line[3]) && line[4] == 0x2d {
        Ok(spec_date(line))
    } else {
        spec_number_decimal(line)
    }
}

/// A bare key.
pub open spec fn spec_bare_key(line: Seq<u8>) -> Result<(Seq<char>, Seq<u8>), SpecError> {
    let n = span(line, ByteClass::Word);
    if n == 0 {
        Err(SpecError::ExpectedToken("key"@))
    } else if !valid_utf8(line.take(n as int)) {
        Err(SpecError::InvalidEncoding)
    } else {
        Ok((decode_utf8(line.take(n as int)), line.skip(n as int)))
    }
}

/// A literal string, after its opening quote.
pub open spec fn spec_literal_str(line: Seq<u8>) -> Result<(Seq<char>, Seq<u8>), SpecError> {
    let idx = span(line, ByteClass::LiteralStr);
    if idx == line.len() {
        Err(SpecError::UnterminatedString)
    } else if !valid_utf8(line.take(idx as int)) {
        Err(SpecError::InvalidEncoding)
    } else if line[idx as int] == 0x27 {
        Ok((decode_utf8(line.take(idx as int)), line.skip(idx + 1int)))
    } else {
        Err(SpecError::IllegalChar(line[idx as int]))
    }
}

/// The value of a hexadecimal digit.
pub open spec fn hex_val(b: u8) -> nat {
    if 0x30 <= b <= 0x39 {
        (b - 0x30) as nat
    } else if 0x41 <= b <= 0x46 {
        (b - 0x41 + 10) as nat
    } else {
        (b - 0x61 + 10) as nat
    }
}

/// The number that a string of hexadecimal digits denotes.
pub open spec fn hex_value(s: Seq<u8>) -> nat
    decreases s.len(),
{
    if s.len() == 0 {
        0
    } else {
        hex_value(s.drop_last()) * 16 + hex_val(s.last())
    }
}

/// Hexadecimal digits with an optional leading `+`, as `u32::from_str_radix(_, 16)` reads them.
pub open spec fn spec_hex_number(s: Seq<u8>) -> Option<nat> {
    if s.len() > 1 && s[0] == 0x2b && all_in(s.drop_first(), ByteClass::HexDigit) {
        Some(hex_value(s.drop_first()))
    } else if s.len() > 0 && all_in(s, ByteClass::HexDigit) {
        Some(hex_value(s))
    } else {
        None
    }
}

/// Sixteen to the power `n`.
pub open spec fn pow16(n: nat) -> nat
    decreases n,
{
    if n == 0 {
        1
    } else {
        16 * pow16((n - 1) as nat)
    }
}

/// `n` hexadecimal digits denote a number below `16^n`.
pub proof fn lemma_hex_value_bound(s: Seq<u8>)
    requires
        forall|j: int| 0 <= j < s.len() ==> super::bytes::hex_digit(#[trigger] s[j]),
    ensures
        hex_value(s) < pow16(s.len()),
    decreases s.len(),
{
    if s.len() > 0 {
        lemma_hex_value_bound(s.drop_last());
        assert(hex_val(s.last()) < 16);
    }
}

/// A Unicode scalar value.
pub open spec fn is_scalar(n: nat) -> bool {
    n <= 0x10ffff && !(0xd800 <= n <= 0xdfff)
}

/// A `\u` or `\U` escape: `n` bytes that spell the code point, after the letter.
pub open spec fn spec_unicode_escape(rest: Seq<u8>, n: nat, letter: char) -> Result<(char, Seq<u8>), SpecError> {
    if rest.len() < n {
        Err(SpecError::UnterminatedString)
    } else if !valid_utf8(rest.take(n as int)) {
        Err(SpecError::InvalidEncoding)
    } else {
        match spec_hex_number(rest.take(n as int)) {
            Some(v) if is_scalar(v) => Ok(((v as u32) as char, rest.skip(n as int))),
            _ => Err(SpecError::InvalidEscape(seq!['\\', letter] + decode_utf8(rest.take(n as int)))),
        }
    }
}

/// An escape sequence, after its backslash.
pub open spec fn spec_escape(line: Seq<u8>) -> Result<(char, Seq<u8>), SpecError> {
    if line.len() == 0 {
        Err(SpecError::UnterminatedString)
    } else {
        let esc = line[0];
        let rest = line.drop_first();
        if esc == 0x62 {
            Ok(('\x08', rest))
        } else if esc == 0x74 {
            Ok(('\t', rest))
        } else if esc == 0x6e {
            Ok(('\n', rest))
        } else if esc == 0x66 {
            Ok(('\x0c', rest))
        } else if esc == 0x72 {
            Ok(('\r', rest))
        } else if esc == 0x22 {
            Ok(('"', rest))
        } else if esc == 0x5c {
            Ok(('\\', rest))
        } else if esc == 0x75 {
            spec_unicode_escape(rest, 4, 'u')
        } else if esc == 0x55 {
            spec_unicode_escape(rest, 8, 'U')
        } else {
            match super::reader::spec_utf8_len(esc) {
                Some(len) if len <= line.len() && valid_utf8(line.take(len as int)) => Err(
                    SpecError::InvalidEscape(seq!['\\', decode_utf8(line.take(len as int))[0]]),
                ),
                _ => Err(SpecError::InvalidEncoding),
            }
        }
    }
}

/// A string result with text put in front.
pub open spec fn prepend<S>(acc: Seq<char>, r: Result<(Seq<char>, S), SpecError>) -> Result<(Seq<char>, S), SpecError> {
    match r {
        Ok((s, rest)) => Ok((acc + s, rest)),
        Err(e) => Err(e),
    }
}

/// A basic string, after its opening quote.
pub open spec fn spec_basic_str(line: Seq<u8>) -> Result<(Seq<char>, Seq<u8>), SpecError>
    decreases line.len(),
{
    let idx = span(line, ByteClass::BasicStr);
    if idx >= line.len() {
        Err(SpecError::UnterminatedString)
    } else {
        let chunk = line.take(idx as int);
        let after = line.skip(idx + 1int);
        if !valid_utf8(chunk) {
            Err(SpecError::InvalidEncoding)
        } else if line[idx as int] == 0x5c {
            match spec_escape(after) {
                Ok((c, r)) => if r.len() < line.len() {
                    prepend(decode_utf8(chunk).push(c), spec_basic_str(r))
                } else {
                    Err(SpecError::UnterminatedString)
                },
                Err(e) => Err(e),
            }
        } else if line[idx as int] == 0x22 {
            Ok((decode_utf8(chunk), after))
        } else {
            Err(SpecError::IllegalChar(line[idx as int]))
        }
    }
}

/// Moving to the next line lowers the measure.
pub proof fn lemma_next_measure(st: PState)
    ensures
        spec_next(st) matches Some(st2) ==> measure(st2) < measure(st),
        spec_next(st) is None <==> st.rest.len() == 0,
{
    super::reader::lemma_next_line(st.rest);
}

/// Skipping whitespace shortens the line, or leaves it as it is.
pub proof fn lemma_skip_ws(line: Seq<u8>)
    ensures
        skip_ws(line).len() <= line.len(),
        skip_ws(line).len() > 0 ==> !super::bytes::toml_whitespace(skip_ws(line)[0]),
        skip_ws(line) == line.skip(line.len() - skip_ws(line).len()),
{
    super::bytes::lemma_span_props(line, ByteClass::Whitespace);
}

/// After a backslash that ends a line of a multi-line basic string: skips lines until one is
/// left that holds something besides whitespace; that line is returned without its leading
/// whitespace.
pub open spec fn spec_skip_blank_lines(st: PState) -> Result<PState, SpecError>
    decreases measure(st),
{
    match spec_next(st) {
        None => Err(SpecError::UnterminatedString),
        Some(st2) => {
            let st3 = with_line(st2, skip_ws(st2.line));
            if st3.line.len() > 0 {
                Ok(st3)
            } else if measure(st3) < measure(st) {
                spec_skip_blank_lines(st3)
            } else {
                Err(SpecError::UnterminatedString)
            }
        },
    }
}

/// The text that ends a multi-line string: up to two more quotes right before the closing three
/// are part of the string.
pub open spec fn closing_quotes(r: Seq<u8>, q: u8) -> (Seq<char>, Seq<u8>) {
    if r.len() > 0 && r[0] == q {
        if r.len() > 1 && r[1] == q {
            (seq![q as char, q as char], r.skip(2))
        } else {
            (seq![q as char], r.skip(1))
        }
    } else {
        (Seq::empty(), r)
    }
}

/// The body of a multi-line basic string, from the current position to its closing `"""`.
pub open spec fn spec_ml_basic(st: PState) -> Result<(Seq<char>, PState), SpecError>
    decreases measure(st),
{
    let line = st.line;
    let idx = span(line, ByteClass::MultilineBasicStr) as int;
    let chunk = line.take(idx);
    if !valid_utf8(chunk) {
        Err(SpecError::InvalidEncoding)
    } else {
        let l = line.skip(idx);
        let text = decode_utf8(chunk);
        if l.len() > 0 && l[0] == 0x5c && all_in(l.drop_first(), ByteClass::Whitespace) {
            match spec_skip_blank_lines(with_line(st, l)) {
                Err(e) => Err(e),
                Ok(st2) => if measure(st2) < measure(st) {
                    prepend(text, spec_ml_basic(st2))
                } else {
                    Err(SpecError::UnterminatedString)
                },
            }
        } else if l.len() > 0 && l[0] == 0x5c {
            match spec_escape(l.drop_first()) {
                Err(e) => Err(e),
                Ok((c, r)) => if measure(with_line(st, r)) < measure(st) {
                    prepend(text.push(c), spec_ml_basic(with_line(st, r)))
                } else {
                    Err(SpecError::UnterminatedString)
                },
            }
        } else if starts_with(l, seq![0x22u8, 0x22, 0x22]) {
            let (extra, r) = closing_quotes(l.skip(3), 0x22);
            Ok((text + extra, with_line(st, r)))
        } else if l.len() > 0 && l[0] == 0x22 {
            if measure(with_line(st, l.drop_first())) < measure(st) {
                prepend(text.push('"'), spec_ml_basic(with_line(st, l.drop_first())))
            } else {
                Err(SpecError::UnterminatedString)
            }
        } else if l.len() > 0 {
            Err(SpecError::IllegalChar(l[0]))
        } else {
            match spec_next(st) {
                None => Err(SpecError::UnterminatedString),
                Some(st2) => if measure(st2) < measure(st) {
                    prepend(text.push('\n'), spec_ml_basic(st2))
                } else {
                    Err(SpecError::UnterminatedString)
                },
            }
        }
    }
}

/// A multi-line string starts on the next line when its opening quotes end the line.
pub open spec fn spec_ml_start(st: PState) -> Option<PState> {
    if st.line.len() == 0 {
        spec_next(st)
    } else {
        Some(st)
    }
}

/// A multi-line basic string, after its opening `"""`.
pub open spec fn spec_ml_basic_str(st: PState) -> Result<(Seq<char>, PState), SpecError> {
    match spec_ml_start(st) {
        None => Err(SpecError::UnterminatedString),
        Some(st2) => spec_ml_basic(st2),
    }
}

/// The body of a multi-line literal string, from the current position to its closing `'''`.
pub open spec fn spec_ml_literal(st: PState) -> Result<(Seq<char>, PState), SpecError>
    decreases measure(st),
{
    let line = st.line;
    let idx = span(line, ByteClass::MultilineLiteralStr) as int;
    let chunk = line.take(idx);
    if !valid_utf8(chunk) {
        Err(SpecError::InvalidEncoding)
    } else {
        let l = line.skip(idx);
        let text = decode_utf8(chunk);
        if starts_with(l, seq![0x27u8, 0x27, 0x27]) {
            let (extra, r) = closing_quotes(l.skip(3), 0x27);
            Ok((text + extra, with_line(st, r)))
        } else if l.len() > 0 && l[0] == 0x27 {
            if measure(with_line(st, l.drop_first())) < measure(st) {
                prepend(text.push('\''), spec_ml_literal(with_line(st, l.drop_first())))
            } else {
                Err(SpecError::UnterminatedString)
            }
        } else if l.len() > 0 {
            Err(SpecError::IllegalChar(l[0]))
        } else {
            match spec_next(st) {
                None => Err(SpecError::UnterminatedString),
                Some(st2) => if measure(st2) < measure(st) {
                    prepend(text.push('\n'), spec_ml_literal(st2))
                } else {
                    Err(SpecError::UnterminatedString)
                },
            }
        }
    }
}

/// A multi-line literal string, after its opening `'''`.
pub open spec fn spec_ml_literal_str(st: PState) -> Result<(Seq<char>, PState), SpecError> {
    match spec_ml_start(st) {
        None => Err(SpecError::UnterminatedString),
        Some(st2) => spec_ml_literal(st2),
    }
}

/// A string of any of the four kinds.
pub open spec fn spec_string(st: PState) -> Result<(Seq<char>, PState), SpecError> {
    let line = st.line;
    if starts_with(line, seq![0x22u8, 0x22, 0x22]) {
        spec_ml_basic_str(with_line(st, line.skip(3)))
    } else if line.len() > 0 && line[0] == 0x22 {
        lift(st, spec_basic_str(line.drop_first()))
    } else if starts_with(line, seq![0x27u8, 0x27, 0x27]) {
        spec_ml_literal_str(with_line(st, line.skip(3)))
    } else if line.len() > 0 && line[0] == 0x27 {
        lift(st, spec_literal_str(line.drop_first()))
    } else {
        Err(SpecError::ExpectedToken("string"@))
    }
}

/// A key: a bare key, or a basic or literal string on one line.
pub open spec fn spec_key(line: Seq<u8>) -> Result<(Seq<char>, Seq<u8>), SpecError> {
    if starts_with(line, seq![0x22u8, 0x22, 0x22]) || starts_with(line, seq![0x27u8, 0x27, 0x27]) {
        Err(SpecError::ExpectedToken("key"@))
    } else if line.len() > 0 && line[0] == 0x22 {
        spec_basic_str(line.drop_first())
    } else if line.len() > 0 && line[0] == 0x27 {
        spec_literal_str(line.drop_first())
    } else {
        spec_bare_key(line)
    }
}

/// The model of a dotted key: the keys before the last `.`, and the last one.
pub struct SKey {
    pub path: Seq<Seq<char>>,
    pub name: Seq<char>,
}

/// The keys after the first one of a dotted key, each after a `.` (with whitespace around it).
pub open spec fn spec_more_keys(l: Seq<u8>) -> Result<(Seq<Seq<char>>, Seq<u8>), SpecError>
    decreases l.len(),
{
    if l.len() > 0 && l[0] == 0x2e {
        match spec_key(skip_ws(l.drop_first())) {
            Err(e) => Err(e),
            Ok((k, r)) => if skip_ws(r).len() < l.len() {
                match spec_more_keys(skip_ws(r)) {
                    Ok((ks, r2)) => Ok((seq![k] + ks, r2)),
                    Err(e) => Err(e),
                }
            } else {
                Err(SpecError::ExpectedToken("key"@))
            },
        }
    } else {
        Ok((Seq::empty(), l))
    }
}

/// A dotted key, and what follows it (with the whitespace after it skipped).
pub open spec fn spec_dotted_key(line: Seq<u8>) -> Result<(SKey, Seq<u8>), SpecError> {
    match spec_key(line) {
        Err(e) => Err(e),
        Ok((k, r)) => match spec_more_keys(skip_ws(r)) {
            Err(e) => Err(e),
            Ok((ks, r2)) => {
                let all = seq![k] + ks;
                Ok((SKey { path: all.drop_last(), name: all.last() }, r2))
            },
        },
    }
}

/// The text of the path of a dotted key: each key followed by a `.`.
pub open spec fn path_text(p: Seq<Seq<char>>) -> Seq<char>
    decreases p.len(),
{
    if p.len() == 0 {
        Seq::empty()
    } else {
        path_text(p.drop_last()) + p.last() + seq!['.']
    }
}

/// How a dotted key is shown in error messages.
pub open spec fn key_text(k: SKey) -> Seq<char> {
    path_text(k.path) + k.name
}

/// A basic string that parses leaves less of the line than it was given.
pub proof fn lemma_basic_str_rest(line: Seq<u8>)
    ensures
        spec_basic_str(line) matches Ok((s, r)) ==> r.len() < line.len(),
    decreases line.len(),
{
    super::bytes::lemma_span_props(line, ByteClass::BasicStr);
    let idx = span(line, ByteClass::BasicStr);
    if idx < line.len() && line[idx as int] == 0x5c {
        if let Ok((c, r)) = spec_escape(line.skip(idx + 1int)) {
            if r.len() < line.len() {
                lemma_basic_str_rest(r);
            }
        }
    }
}

/// A key that parses leaves less of the line than it was given.
pub proof fn lemma_key_rest(line: Seq<u8>)
    ensures
        spec_key(line) matches Ok((k, r)) ==> r.len() < line.len(),
{
    super::bytes::lemma_span_props(line, ByteClass::Word);
    if line.len() > 0 {
        super::bytes::lemma_span_props(line.drop_first(), ByteClass::LiteralStr);
        lemma_basic_str_rest(line.drop_first());
    }
}

/// The keys after the first one of a dotted key leave no more of the line than they were given.
pub proof fn lemma_more_keys_rest(l: Seq<u8>)
    ensures
        spec_more_keys(l) matches Ok((ks, r)) ==> r.len() <= l.len(),
    decreases l.len(),
{
    if l.len() > 0 && l[0] == 0x2e {
        if let Ok((k, r)) = spec_key(skip_ws(l.drop_first())) {
            if skip_ws(r).len() < l.len() {
                lemma_more_keys_rest(skip_ws(r));
            }
        }
    }
}

/// A dotted key that parses leaves less of the line than it was given.
pub proof fn lemma_dotted_key_rest(line: Seq<u8>)
    ensures
        spec_dotted_key(line) matches Ok((k, r)) ==> r.len() < line.len(),
{
    lemma_key_rest(line);
    if let Ok((k, r)) = spec_key(line) {
        lemma_skip_ws(r);
        lemma_more_keys_rest(skip_ws(r));
    }
}

/// Whitespace, comments and ends of lines, skipped until a line has something else left (inside
/// an array, where values may span lines).
pub open spec fn spec_cws(st: PState) -> Result<PState, SpecError>
    decreases measure(st),
{
    match spec_skip_comment(skip_ws(st.line)) {
        Err(e) => Err(e),
        Ok(l) => if l.len() > 0 {
            Ok(with_line(st, l))
        } else {
            match spec_next(st) {
                None => Err(SpecError::UnterminatedString),
                Some(st2) => {
                    proof {
                        lemma_next_measure(st);
                    }
                    spec_cws(st2)
                },
            }
        },
    }
}

/// Skipping whitespace, comments and ends of lines never raises the measure.
pub proof fn lemma_cws_measure(st: PState)
    ensures
        spec_cws(st) matches Ok(st2) ==> measure(st2) <= measure(st),
    decreases measure(st),
{
    lemma_skip_ws(st.line);
    lemma_next_measure(st);
    if let Some(st2) = spec_next(st) {
        lemma_cws_measure(st2);
    }
}

/// A value, starting at its first byte.
pub open spec fn spec_value(st: PState) -> Result<(SValue, PState), SpecError>
    decreases measure(st), 0int,
{
    let l = st.line;
    if l.len() == 0 {
        Err(SpecError::ExpectedToken("a value"@))
    } else {
        let b = l[0];
        let signed = b == 0x2b || b == 0x2d;
        if b == 0x22 || b == 0x27 {
            match spec_string(st) {
                Ok((s, st2)) => Ok((SValue::String(s), st2)),
                Err(e) => Err(e),
            }
        } else if b == 0x74 || b == 0x66 {
            match spec_parse_bool(l) {
                Ok((v, r)) => Ok((SValue::Boolean(v), with_line(st, r))),
                Err(e) => Err(e),
            }
        } else if ascii_digit(b) {
            lift(st, spec_number_or_datetime(l))
        } else if signed && l.len() > 1 && ascii_digit(l[1]) {
            lift(st, spec_number_decimal(l))
        } else if (signed && l.len() > 1 && (l[1] == 0x69 || l[1] == 0x6e)) || b == 0x69 || b == 0x6e {
            match spec_parse_special(l) {
                Ok((v, r)) => Ok((SValue::SpecialFloat(v), with_line(st, r))),
                Err(e) => Err(e),
            }
        } else if signed {
            Err(SpecError::InvalidNumber("missing digits"@))
        } else if b == 0x5b {
            match spec_array(with_line(st, l.drop_first())) {
                Ok((a, st2)) => Ok((SValue::Array(a), st2)),
                Err(e) => Err(e),
            }
        } else if b == 0x7b {
            match spec_inline_table(with_line(st, l.drop_first())) {
                Ok((t, st2)) => Ok((SValue::InlineTable(t), st2)),
                Err(e) => Err(e),
            }
        } else if !super::bytes::toml_legal(b) {
            Err(SpecError::IllegalChar(b))
        } else {
            Err(SpecError::ExpectedToken("a value"@))
        }
    }
}

/// The values of an array and its closing bracket, after its opening one.
pub open spec fn spec_array(st: PState) -> Result<(Seq<SValue>, PState), SpecError>
    decreases measure(st), 1int,
{
    match spec_cws(st) {
        Err(e) => Err(e),
        Ok(s1) => {
            proof {
                lemma_cws_measure(st);
            }
            if s1.line.len() > 0 && s1.line[0] == 0x5d {
                Ok((Seq::empty(), with_line(s1, s1.line.drop_first())))
            } else {
                match spec_value(s1) {
                    Err(e) => Err(e),
                    Ok((v, s2)) => match spec_cws(s2) {
                        Err(e) => Err(e),
                        Ok(s3) => if s3.line.len() > 0 && s3.line[0] == 0x5d {
                            Ok((seq![v], with_line(s3, s3.line.drop_first())))
                        } else if s3.line.len() > 0 && s3.line[0] == 0x2c {
                            let s4 = with_line(s3, s3.line.drop_first());
                            if measure(s4) < measure(st) {
                                match spec_array(s4) {
                                    Ok((vs, s5)) => Ok((seq![v] + vs, s5)),
                                    Err(e) => Err(e),
                                }
                            } else {
                                Err(SpecError::UnterminatedString)
                            }
                        } else {
                            Err(SpecError::ExpectedToken(", or ] after value in array"@))
                        },
                    },
                }
            }
        },
    }
}

/// A key/value pair: a dotted key, `=`, and a value.
pub open spec fn spec_key_value(st: PState) -> Result<((SKey, SValue), PState), SpecError>
    decreases measure(st), 1int,
{
    match spec_dotted_key(st.line) {
        Err(e) => Err(e),
        Ok((k, r)) => if r.len() > 0 && r[0] == 0x3d {
            proof {
                lemma_dotted_key_rest(st.line);
                lemma_skip_ws(r.drop_first());
            }
            match spec_value(with_line(st, skip_ws(r.drop_first()))) {
                Ok((v, st2)) => Ok(((k, v), st2)),
                Err(e) => Err(e),
            }
        } else {
            Err(SpecError::ExpectedToken("= after key"@))
        },
    }
}

/// The entries of an inline table and its closing brace, given the entries before them.
pub open spec fn spec_inline_entries(st: PState, acc: STable) -> Result<(STable, PState), SpecError>
    decreases measure(st), 2int,
{
    match spec_key_value(st) {
        Err(e) => Err(e),
        Ok(((k, v), s1)) => match spec_dotted(acc, k.path, 0, false, k.name, v) {
            Err(TableError::InvalidPath) => Err(SpecError::InvalidKeyPath(key_text(k), "inline table"@)),
            Err(TableError::Duplicate) => Err(SpecError::DuplicateKey(key_text(k), "inline table"@)),
            Ok(acc2) => {
                let l = skip_ws(s1.line);
                if l.len() > 0 && l[0] == 0x7d {
                    Ok((acc2, with_line(s1, l.drop_first())))
                } else if l.len() > 0 && l[0] == 0x2c {
                    let s2 = with_line(s1, skip_ws(l.drop_first()));
                    if measure(s2) < measure(st) {
                        spec_inline_entries(s2, acc2)
                    } else {
                        Err(SpecError::UnterminatedString)
                    }
                } else {
                    Err(SpecError::ExpectedToken(", or } after key/value pair in inline table"@))
                }
            },
        },
    }
}

/// An inline table, after its opening brace.
pub open spec fn spec_inline_table(st: PState) -> Result<(STable, PState), SpecError>
    decreases measure(st), 3int,
{
    let l = skip_ws(st.line);
    if l.len() > 0 && l[0] == 0x7d {
        Ok((Seq::empty(), with_line(st, l.drop_first())))
    } else {
        proof {
            lemma_skip_ws(st.line);
        }
        spec_inline_entries(with_line(st, l), Seq::empty())
    }
}

/// The model of what a line holds.
pub enum SLine {
    /// A table header (`array` for an `[[array]]` header)
    Header(SKey, bool),
    /// A key/value pair
    Pair(SKey, SValue),
    /// Nothing but whitespace or a comment
    Empty,
}

/// A table header's dotted key and its closing bracket(s), after the opening one(s).
pub open spec fn spec_header(line: Seq<u8>, array: bool) -> Result<(SKey, Seq<u8>), SpecError> {
    match spec_dotted_key(skip_ws(line)) {
        Err(e) => Err(e),
        Ok((k, r)) => {
            let r2 = skip_ws(r);
            if array {
                if starts_with(r2, seq![0x5du8, 0x5d]) {
                    Ok((k, r2.skip(2)))
                } else {
                    Err(SpecError::ExpectedToken("]] after dotted key"@))
                }
            } else {
                if r2.len() > 0 && r2[0] == 0x5d {
                    Ok((k, r2.drop_first()))
                } else {
                    Err(SpecError::ExpectedToken("] after dotted key"@))
                }
            }
        },
    }
}

/// What a line holds, from its first byte that is not whitespace.
pub open spec fn spec_line_item(st: PState) -> Result<(SLine, PState), SpecError> {
    let l = st.line;
    if starts_with(l, seq![0x5bu8, 0x5b]) {
        match spec_header(l.skip(2), true) {
            Ok((k, r)) => Ok((SLine::Header(k, true), with_line(st, r))),
            Err(e) => Err(e),
        }
    } else if l.len() > 0 && l[0] == 0x5b {
        match spec_header(l.drop_first(), false) {
            Ok((k, r)) => Ok((SLine::Header(k, false), with_line(st, r))),
            Err(e) => Err(e),
        }
    } else if l.len() > 0 && (super::bytes::toml_word(l[0]) || l[0] == 0x22 || l[0] == 0x27) {
        match spec_key_value(st) {
            Ok(((k, v), st2)) => Ok((SLine::Pair(k, v), st2)),
            Err(e) => Err(e),
        }
    } else {
        Ok((SLine::Empty, st))
    }
}

/// The next line of the document (which a value may continue onto further lines): `None` at the
/// end of the source. Only whitespace and a comment may follow what the line holds.
pub open spec fn spec_parse_line(st: PState) -> Result<Option<(SLine, PState)>, SpecError> {
    match spec_next(st) {
        None => Ok(None),
        Some(st1) => match spec_line_item(with_line(st1, skip_ws(st1.line))) {
            Err(e) => Err(e),
            Ok((item, st2)) => match spec_skip_comment(skip_ws(st2.line)) {
                Err(e) => Err(e),
                Ok(l) => if l.len() > 0 {
                    if super::bytes::toml_legal(l[0]) {
                        Err(SpecError::ExpectedToken("end of line"@))
                    } else {
                        Err(SpecError::IllegalChar(l[0]))
                    }
                } else {
                    Ok(Some((item, with_line(st2, l))))
                },
            },
        },
    }
}

/// The name under which key/value pairs before the first table header are reported.
pub open spec fn root_key() -> SKey {
    SKey { path: Seq::empty(), name: "root table"@ }
}

/// What a line does to the document: the new root table, the path of the table that later
/// key/value pairs go into, and the key of the last header (for error messages).
pub open spec fn spec_apply_line(
    root: STable,
    current: Seq<Seq<char>>,
    header: SKey,
    item: SLine,
) -> Result<(STable, Seq<Seq<char>>, SKey), SpecError> {
    match item {
        SLine::Header(k, array) => {
            let action = if array { SAction::ArrayOfTables(k.name) } else { SAction::Table(k.name) };
            match spec_subtable(root, k.path, 0, action) {
                Err(_) => Err(SpecError::InvalidTableHeader(key_text(k))),
                Ok(root2) => Ok((root2, k.path.push(k.name), k)),
            }
        },
        SLine::Pair(k, v) => match spec_subtable(root, current, 0, SAction::Entry(k.path, k.name, v)) {
            Err(TableError::InvalidPath) => Err(SpecError::InvalidKeyPath(key_text(k), key_text(header))),
            Err(TableError::Duplicate) => Err(SpecError::DuplicateKey(key_text(k), key_text(header))),
            Ok(root2) => Ok((root2, current, header)),
        },
        SLine::Empty => Ok((root, current, header)),
    }
}

/// The rest of a document, given the root table built so far, the path of the table that the
/// last header opened, and the key of that header.
pub open spec fn spec_document(st: PState, root: STable, current: Seq<Seq<char>>, header: SKey) -> Result<STable, SpecError>
    decreases measure(st),
{
    match spec_parse_line(st) {
        Err(e) => Err(e),
        Ok(None) => Ok(root),
        Ok(Some((item, st2))) => if measure(st2) < measure(st) {
            match spec_apply_line(root, current, header, item) {
                Err(e) => Err(e),
                Ok((root2, current2, header2)) => spec_document(st2, root2, current2, header2),
            }
        } else {
            Err(SpecError::UnterminatedString)
        },
    }
}

/// A whole document, from the parser's starting state.
pub open spec fn spec_parse(st: PState) -> Result<STable, SpecError> {
    spec_document(st, Seq::empty(), Seq::empty(), root_key())
}

/// A value that the parser reads keeps the keys of its tables unique.
pub proof fn lemma_value_wf(st: PState)
    ensures
        spec_value(st) matches Ok((v, s2)) ==> wf_value(v),
    decreases measure(st), 0int,
{
    let l = st.line;
    if l.len() > 0 {
        let b = l[0];
        if b == 0x5b {
            lemma_array_wf(with_line(st, l.drop_first()));
            if let Ok((a, st2)) = spec_array(with_line(st, l.drop_first())) {
                assert(wf_value(SValue::Array(a)));
            }
        } else if b == 0x7b {
            lemma_inline_table_wf(with_line(st, l.drop_first()));
        } else {
            match spec_number_or_datetime(l) {
                Ok((v, r)) => {
                    if l.len() >= 5 && ascii_digit(l[0]) && ascii_digit(l[1]) && ascii_digit(l[2]) && ascii_digit(l[3])
                        && l[4] == 0x2d {
                        let end = span(l, ByteClass::Datetime) as int;
                        let t = span(l.take(end), ByteClass::NotTimeSep) as int;
                        let idx = end + 1;
                        assert(wf_value(spec_date_time(l, end, t + 1).0));
                        assert(wf_value(spec_date_time(l, idx + span(l.skip(idx), ByteClass::Datetime), idx).0));
                        assert(wf_value(spec_date(l).0));
                    }
                },
                Err(_) => {},
            }
        }
    }
}

/// The values of an array that the parser reads keep the keys of their tables unique.
pub proof fn lemma_array_wf(st: PState)
    ensures
        spec_array(st) matches Ok((a, s2)) ==> forall|i: int| 0 <= i < a.len() ==> wf_value(#[trigger] a[i]),
    decreases measure(st), 1int,
{
    if let Ok(s1) = spec_cws(st) {
        lemma_cws_measure(st);
        if !(s1.line.len() > 0 && s1.line[0] == 0x5d) {
            lemma_value_wf(s1);
            if let Ok((v, s2)) = spec_value(s1) {
                if let Ok(s3) = spec_cws(s2) {
                    if !(s3.line.len() > 0 && s3.line[0] == 0x5d) && s3.line.len() > 0 && s3.line[0] == 0x2c {
                        let s4 = with_line(s3, s3.line.drop_first());
                        if measure(s4) < measure(st) {
                            lemma_array_wf(s4);
                            if let Ok((vs, s5)) = spec_array(s4) {
                                let a = seq![v] + vs;
                                assert forall|i: int| 0 <= i < a.len() implies wf_value(#[trigger] a[i]) by {
                                    if i > 0 {
                                        assert(a[i] == vs[i - 1]);
                                    }
                                }
                            }
                        }
                    }
                }
            }
        }
    }
}

/// The value of a key/value pair that the parser reads keeps the keys of its tables unique.
pub proof fn lemma_key_value_wf(st: PState)
    ensures
        spec_key_value(st) matches Ok(((k, v), s2)) ==> wf_value(v),
    decreases measure(st), 1int,
{
    if let Ok((k, r)) = spec_dotted_key(st.line) {
        if r.len() > 0 && r[0] == 0x3d {
            lemma_dotted_key_rest(st.line);
            lemma_skip_ws(r.drop_first());
            lemma_value_wf(with_line(st, skip_ws(r.drop_first())));
        }
    }
}

/// The entries of an inline table keep keys unique, if those before them did.
pub proof fn lemma_inline_entries_wf(st: PState, acc: STable)
    requires
        wf_table(acc),
    ensures
        spec_inline_entries(st, acc) matches Ok((t, s2)) ==> wf_table(t),
    decreases measure(st), 2int,
{
    if let Ok(((k, v), s1)) = spec_key_value(st) {
        lemma_key_value_wf(st);
        super::table::lemma_dotted_wf(acc, k.path, 0, false, k.name, v);
        if let Ok(acc2) = spec_dotted(acc, k.path, 0, false, k.name, v) {
            let l = skip_ws(s1.line);
            if !(l.len() > 0 && l[0] == 0x7d) && l.len() > 0 && l[0] == 0x2c {
                let s2 = with_line(s1, skip_ws(l.drop_first()));
                if measure(s2) < measure(st) {
                    lemma_inline_entries_wf(s2, acc2);
                }
            }
        }
    }
}

/// An inline table that the parser reads keeps keys unique.
pub proof fn lemma_inline_table_wf(st: PState)
    ensures
        spec_inline_table(st) matches Ok((t, s2)) ==> wf_table(t),
    decreases measure(st), 3int,
{
    let l = skip_ws(st.line);
    if !(l.len() > 0 && l[0] == 0x7d) {
        lemma_skip_ws(st.line);
        super::table::lemma_empty_wf();
        lemma_inline_entries_wf(with_line(st, l), Seq::empty());
    }
}

/// The value of a key/value line is never a table of the document tree.
pub proof fn lemma_line_wf(st: PState)
    ensures
        spec_parse_line(st) matches Ok(Some((SLine::Pair(k, v), s2))) ==> wf_value(v),
{
    if let Some(st1) = spec_next(st) {
        let st2 = with_line(st1, skip_ws(st1.line));
        if let Ok((k, r)) = spec_dotted_key(st2.line) {
            if r.len() > 0 && r[0] == 0x3d {
                lemma_value_wf(with_line(st2, skip_ws(r.drop_first())));
            }
        }
    }
}

/// Carrying out what a line says keeps keys unique.
pub proof fn lemma_apply_line_wf(root: STable, current: Seq<Seq<char>>, header: SKey, item: SLine)
    requires
        wf_table(root),
        item matches SLine::Pair(k, v) ==> wf_value(v),
    ensures
        spec_apply_line(root, current, header, item) matches Ok((root2, c2, h2)) ==> wf_table(root2),
{
    match item {
        SLine::Header(k, array) => {
            let action = if array { SAction::ArrayOfTables(k.name) } else { SAction::Table(k.name) };
            lemma_subtable_wf(root, k.path, 0, action);
        },
        SLine::Pair(k, v) => {
            lemma_subtable_wf(root, current, 0, SAction::Entry(k.path, k.name, v));
        },
        SLine::Empty => {},
    }
}

/// The rest of a document keeps the keys of every table unique.
pub proof fn lemma_document_wf(st: PState, root: STable, current: Seq<Seq<char>>, header: SKey)
    requires
        wf_table(root),
    ensures
        spec_document(st, root, current, header) matches Ok(t) ==> wf_table(t),
    decreases measure(st),
{
    if let Ok(Some((item, st2))) = spec_parse_line(st) {
        if measure(st2) < measure(st) {
            lemma_line_wf(st);
            lemma_apply_line_wf(root, current, header, item);
            if let Ok((root2, current2, header2)) = spec_apply_line(root, current, header, item) {
                lemma_document_wf(st2, root2, current2, header2);
            }
        }
    }
}

/// No table of a parsed document holds a key twice, nested and inline tables included: a second
/// definition of a key is refused.
pub proof fn lemma_parse_unique_keys(st: PState)
    ensures
        spec_parse(st) matches Ok(t) ==> wf_table(t),
{
    lemma_document_wf(st, Seq::empty(), Seq::empty(), root_key());
}

} // verus!
