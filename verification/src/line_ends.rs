//! Line ends: a document whose lines end with `\r\n` reads as the same document with `\n`.

use vstd::prelude::*;

use crate::de::bytes::{lemma_span_props, span, ByteClass};
use crate::de::error::SpecError;
use crate::de::grammar::{
    closing_quotes, lemma_basic_str_rest, lemma_cws_measure, lemma_dotted_key_rest, lemma_next_measure,
    lemma_skip_ws, measure, skip_ws, spec_array, spec_cws, spec_digit_groups, spec_digits, spec_document,
    spec_exponent, spec_fraction, spec_header, spec_inline_entries, spec_inline_table, spec_key_value,
    spec_line_item, spec_literal_str, spec_ml_basic, spec_ml_literal,
    spec_ml_start, spec_next, spec_number_decimal, spec_number_or_datetime, spec_parse, spec_parse_line,
    spec_skip_blank_lines, spec_string, spec_value, with_line, PState, SLine,
};
use crate::de::reader::{spec_next_line, strip_cr};
use crate::de::value::STable;
use crate::multiline::no_cr;

verus! {

/// `b` with a carriage return put before each line break.
pub open spec fn crlf(b: Seq<u8>) -> Seq<u8>
    decreases b.len(),
{
    if b.len() == 0 {
        Seq::empty()
    } else {
        (if b[0] == 0x0a { seq![0x0du8, 0x0a] } else { seq![b[0]] }) + crlf(b.drop_first())
    }
}

/// Putting carriage returns before the line breaks of two pieces, one after the other.
proof fn lemma_crlf_concat(x: Seq<u8>, y: Seq<u8>)
    ensures
        crlf(x + y) == crlf(x) + crlf(y),
    decreases x.len(),
{
    if x.len() > 0 {
        assert((x + y).drop_first() =~= x.drop_first() + y);
        lemma_crlf_concat(x.drop_first(), y);
        assert(crlf(x + y) =~= crlf(x) + crlf(y));
    } else {
        assert(x + y =~= y);
    }
}

/// Bytes without a line break have none to put a carriage return before.
proof fn lemma_crlf_plain(x: Seq<u8>)
    requires
        forall|i: int| 0 <= i < x.len() ==> #[trigger] x[i] != 0x0a,
    ensures
        crlf(x) == x,
    decreases x.len(),
{
    if x.len() > 0 {
        lemma_crlf_plain(x.drop_first());
        assert(crlf(x) =~= x);
    }
}

/// The reader takes the same line from bytes without carriage returns as from the same bytes
/// with one before each line break, and leaves the rest, with one before each line break too.
pub proof fn lemma_next_line_crlf(a: Seq<u8>)
    requires
        no_cr(a),
    ensures
        spec_next_line(crlf(a)) == (match spec_next_line(a) {
            Some((line, rest)) => Some((line, crlf(rest))),
            None => None::<(Seq<u8>, Seq<u8>)>,
        }),
        spec_next_line(a) matches Some((line, rest)) ==> no_cr(rest),
{
    let n = span(a, ByteClass::NotNewline);
    lemma_span_props(a, ByteClass::NotNewline);
    if n < a.len() {
        let x = a.take(n as int);
        let r = a.skip(n + 1int);
        assert(a =~= x + (seq![0x0au8] + r));
        lemma_crlf_concat(x, seq![0x0au8] + r);
        lemma_crlf_plain(x);
        assert(crlf(seq![0x0au8] + r) =~= seq![0x0du8, 0x0a] + crlf(r)) by {
            assert((seq![0x0au8] + r).drop_first() =~= r);
        }
        let c = crlf(a);
        assert(c =~= (x + seq![0x0du8]) + (seq![0x0au8] + crlf(r)));
        crate::roundtrip::lemma_span_concat(x + seq![0x0du8], seq![0x0au8] + crlf(r), ByteClass::NotNewline);
        lemma_span_props(seq![0x0au8] + crlf(r), ByteClass::NotNewline);
        assert(span(seq![0x0au8] + crlf(r), ByteClass::NotNewline) == 0) by {
            if span(seq![0x0au8] + crlf(r), ByteClass::NotNewline) > 0 {
                assert(crate::de::bytes::in_class((seq![0x0au8] + crlf(r))[0], ByteClass::NotNewline));
            }
        }
        assert(c.take(n + 1int) =~= x + seq![0x0du8]);
        assert(strip_cr(x + seq![0x0du8]) =~= x);
        assert(strip_cr(x) == x) by {
            if x.len() > 0 {
                assert(x.last() == a[n - 1]);
            }
        }
        assert(c.skip(n + 2int) =~= crlf(r));
    } else {
        lemma_crlf_plain(a);
    }
}

/// The parser's state with a carriage return put before each line break of what it has not
/// read yet.
pub open spec fn cr_state(st: PState) -> PState {
    PState { rest: crlf(st.rest), ..st }
}

/// A result with that change made to the state that it leaves.
pub open spec fn cr_result<T>(r: Result<(T, PState), SpecError>) -> Result<(T, PState), SpecError> {
    match r {
        Ok((v, s)) => Ok((v, cr_state(s))),
        Err(e) => Err(e),
    }
}

/// A state that a step leaves, after the state it started in: on the same line with no more of
/// it left, or further on in both readings of the source.
pub open spec fn later(a: PState, b: PState) -> bool {
    ||| a.rest == b.rest && a.line.len() <= b.line.len()
    ||| measure(a) < measure(b) && measure(cr_state(a)) < measure(cr_state(b))
}

/// A step's result leaves the parser later on, with no carriage return ahead.
pub open spec fn moves_on<T>(r: Result<(T, PState), SpecError>, st: PState) -> bool {
    r matches Ok((v, s)) ==> later(s, st) && no_cr(s.rest)
}

/// The same, for a step that gives back only a state.
pub open spec fn moves_on_to(r: Result<PState, SpecError>, st: PState) -> bool {
    r matches Ok(s) ==> later(s, st) && no_cr(s.rest)
}

/// The same change, for a step that gives back only a state.
pub open spec fn cr_result_to(r: Result<PState, SpecError>) -> Result<PState, SpecError> {
    match r {
        Ok(s) => Ok(cr_state(s)),
        Err(e) => Err(e),
    }
}

/// Being later is transitive, and never raises the measure in either reading.
proof fn lemma_later(a: PState, b: PState, c: PState)
    requires
        later(a, b),
        later(b, c),
    ensures
        later(a, c),
        measure(a) <= measure(b),
        measure(cr_state(a)) <= measure(cr_state(b)),
{
}

/// A guard that the parser puts on a later state reads the same in both readings.
proof fn lemma_guard(a: PState, b: PState)
    requires
        later(a, b),
    ensures
        (measure(a) < measure(b)) == (measure(cr_state(a)) < measure(cr_state(b))),
{
}

/// A state is later than itself, and than any state with more of the same line.
proof fn lemma_later_line(st: PState, l: Seq<u8>)
    requires
        l.len() <= st.line.len(),
    ensures
        later(with_line(st, l), st),
        cr_state(with_line(st, l)) == with_line(cr_state(st), l),
{
}

/// Moving to the next line reads the same in both readings, and moves on.
proof fn lemma_next_cr(st: PState)
    requires
        no_cr(st.rest),
    ensures
        spec_next(cr_state(st)) == (match spec_next(st) {
            Some(s) => Some(cr_state(s)),
            None => None::<PState>,
        }),
        spec_next(st) matches Some(s) ==> later(s, st) && no_cr(s.rest),
{
    lemma_next_line_crlf(st.rest);
    lemma_next_measure(st);
    lemma_next_measure(cr_state(st));
}

/// A literal string that parses leaves less of the line than it was given.
proof fn lemma_literal_rest(line: Seq<u8>)
    ensures
        spec_literal_str(line) matches Ok((s, r)) ==> r.len() < line.len(),
{
    lemma_span_props(line, ByteClass::LiteralStr);
}

/// Further groups of digits leave no more of the line than they were given.
proof fn lemma_digit_groups_rest(l: Seq<u8>, c: ByteClass)
    ensures
        spec_digit_groups(l, c) matches Ok((d, r)) ==> r.len() <= l.len(),
    decreases l.len(),
{
    if l.len() > 0 && l[0] == 0x5f {
        let t = l.drop_first();
        lemma_span_props(t, c);
        lemma_digit_groups_rest(t.skip(span(t, c) as int), c);
    }
}

/// Digits leave no more of the line than they were given.
proof fn lemma_digits_rest(l: Seq<u8>, c: ByteClass)
    ensures
        spec_digits(l, c) matches Ok((d, r)) ==> r.len() <= l.len(),
{
    lemma_span_props(l, c);
    lemma_digit_groups_rest(l.skip(span(l, c) as int), c);
}

/// A number or a date-time leaves no more of the line than it was given.
proof fn lemma_number_rest(line: Seq<u8>)
    ensures
        spec_number_or_datetime(line) matches Ok((v, r)) ==> r.len() <= line.len(),
        spec_number_decimal(line) matches Ok((v, r)) ==> r.len() <= line.len(),
{
    if line.len() >= 2 {
        lemma_digits_rest(line.skip(2), ByteClass::HexDigit);
        lemma_digits_rest(line.skip(2), ByteClass::OctDigit);
        lemma_digits_rest(line.skip(2), ByteClass::BinDigit);
    }
    lemma_span_props(line, ByteClass::Datetime);
    let end = span(line, ByteClass::Datetime) as int;
    if line.len() >= end + 2 {
        lemma_span_props(line.skip(end + 1), ByteClass::Datetime);
    }
    let l1 = if line.len() > 0 && (line[0] == 0x2b || line[0] == 0x2d) { line.drop_first() } else { line };
    lemma_digits_rest(l1, ByteClass::Digit);
    if let Ok((ip, l2)) = spec_digits(l1, ByteClass::Digit) {
        if l2.len() > 0 {
            lemma_digits_rest(l2.drop_first(), ByteClass::Digit);
        }
        if let Ok((fr, l3)) = spec_fraction(l2) {
            if l3.len() > 0 {
                let t = l3.drop_first();
                lemma_digits_rest(t, ByteClass::Digit);
                if t.len() > 0 {
                    lemma_digits_rest(t.drop_first(), ByteClass::Digit);
                }
            }
            assert(spec_exponent(l3) matches Ok((e, l4)) ==> l4.len() <= l3.len());
        }
    }
}

/// A table header leaves no more of the line than it was given.
proof fn lemma_header_rest(line: Seq<u8>, array: bool)
    ensures
        spec_header(line, array) matches Ok((k, r)) ==> r.len() <= line.len(),
{
    lemma_skip_ws(line);
    lemma_dotted_key_rest(skip_ws(line));
    if let Ok((k, r)) = crate::de::grammar::spec_dotted_key(skip_ws(line)) {
        lemma_skip_ws(r);
    }
}

/// Skipping blank lines in a multi-line string reads the same in both readings.
proof fn lemma_blank_lines_cr(st: PState)
    requires
        no_cr(st.rest),
    ensures
        spec_skip_blank_lines(cr_state(st)) == cr_result_to(spec_skip_blank_lines(st)),
        moves_on_to(spec_skip_blank_lines(st), st),
    decreases measure(st),
{
    lemma_next_cr(st);
    if let Some(st2) = spec_next(st) {
        lemma_skip_ws(st2.line);
        let st3 = with_line(st2, skip_ws(st2.line));
        lemma_later_line(st2, skip_ws(st2.line));
        lemma_later(st3, st2, st);
        lemma_guard(st3, st);
        if st3.line.len() == 0 && measure(st3) < measure(st) {
            lemma_blank_lines_cr(st3);
            if let Ok(s4) = spec_skip_blank_lines(st3) {
                lemma_later(s4, st3, st);
            }
        }
    }
}

/// The body of a multi-line basic string reads the same in both readings.
proof fn lemma_ml_basic_cr(st: PState)
    requires
        no_cr(st.rest),
    ensures
        spec_ml_basic(cr_state(st)) == cr_result(spec_ml_basic(st)),
        moves_on(spec_ml_basic(st), st),
    decreases measure(st),
{
    let line = st.line;
    let idx = span(line, ByteClass::MultilineBasicStr) as int;
    lemma_span_props(line, ByteClass::MultilineBasicStr);
    let l = line.skip(idx);
    lemma_later_line(st, l);
    let sl = with_line(st, l);
    if l.len() > 0 && l[0] == 0x5c && crate::de::grammar::all_in(l.drop_first(), ByteClass::Whitespace) {
        lemma_blank_lines_cr(sl);
        if let Ok(st2) = spec_skip_blank_lines(sl) {
            lemma_later(st2, sl, st);
            lemma_guard(st2, st);
            if measure(st2) < measure(st) {
                lemma_ml_basic_cr(st2);
                if let Ok((t, s3)) = spec_ml_basic(st2) {
                    lemma_later(s3, st2, st);
                }
            }
        }
    } else if l.len() > 0 && l[0] == 0x5c {
        if let Ok((c, r)) = crate::de::grammar::spec_escape(l.drop_first()) {
            let sr = with_line(st, r);
            if measure(sr) < measure(st) {
                lemma_later_line(st, r);
                lemma_ml_basic_cr(sr);
                if let Ok((t, s3)) = spec_ml_basic(sr) {
                    lemma_later(s3, sr, st);
                }
            }
        }
    } else if crate::de::grammar::starts_with(l, seq![0x22u8, 0x22, 0x22]) {
        let (extra, r) = closing_quotes(l.skip(3), 0x22);
        lemma_later_line(st, r);
    } else if l.len() > 0 && l[0] == 0x22 {
        let sr = with_line(st, l.drop_first());
        lemma_later_line(st, l.drop_first());
        if measure(sr) < measure(st) {
            lemma_ml_basic_cr(sr);
            if let Ok((t, s3)) = spec_ml_basic(sr) {
                lemma_later(s3, sr, st);
            }
        }
    } else if l.len() == 0 {
        lemma_next_cr(st);
        if let Some(st2) = spec_next(st) {
            lemma_guard(st2, st);
            if measure(st2) < measure(st) {
                lemma_ml_basic_cr(st2);
                if let Ok((t, s3)) = spec_ml_basic(st2) {
                    lemma_later(s3, st2, st);
                }
            }
        }
    }
}

/// The body of a multi-line literal string reads the same in both readings.
proof fn lemma_ml_literal_cr(st: PState)
    requires
        no_cr(st.rest),
    ensures
        spec_ml_literal(cr_state(st)) == cr_result(spec_ml_literal(st)),
        moves_on(spec_ml_literal(st), st),
    decreases measure(st),
{
    let line = st.line;
    let idx = span(line, ByteClass::MultilineLiteralStr) as int;
    lemma_span_props(line, ByteClass::MultilineLiteralStr);
    let l = line.skip(idx);
    lemma_later_line(st, l);
    if crate::de::grammar::starts_with(l, seq![0x27u8, 0x27, 0x27]) {
        let (extra, r) = closing_quotes(l.skip(3), 0x27);
        lemma_later_line(st, r);
    } else if l.len() > 0 && l[0] == 0x27 {
        let sr = with_line(st, l.drop_first());
        lemma_later_line(st, l.drop_first());
        if measure(sr) < measure(st) {
            lemma_ml_literal_cr(sr);
            if let Ok((t, s3)) = spec_ml_literal(sr) {
                lemma_later(s3, sr, st);
            }
        }
    } else if l.len() == 0 {
        lemma_next_cr(st);
        if let Some(st2) = spec_next(st) {
            lemma_guard(st2, st);
            if measure(st2) < measure(st) {
                lemma_ml_literal_cr(st2);
                if let Ok((t, s3)) = spec_ml_literal(st2) {
                    lemma_later(s3, st2, st);
                }
            }
        }
    }
}

/// Where a multi-line string starts reads the same in both readings.
proof fn lemma_ml_start_cr(st: PState)
    requires
        no_cr(st.rest),
    ensures
        spec_ml_start(cr_state(st)) == (match spec_ml_start(st) {
            Some(s) => Some(cr_state(s)),
            None => None::<PState>,
        }),
        spec_ml_start(st) matches Some(s) ==> later(s, st) && no_cr(s.rest),
{
    lemma_next_cr(st);
    lemma_later_line(st, st.line);
}

/// A string of any kind reads the same in both readings.
proof fn lemma_string_cr(st: PState)
    requires
        no_cr(st.rest),
    ensures
        spec_string(cr_state(st)) == cr_result(spec_string(st)),
        moves_on(spec_string(st), st),
{
    let line = st.line;
    if crate::de::grammar::starts_with(line, seq![0x22u8, 0x22, 0x22]) || crate::de::grammar::starts_with(
        line,
        seq![0x27u8, 0x27, 0x27],
    ) {
        let s1 = with_line(st, line.skip(3));
        lemma_later_line(st, line.skip(3));
        lemma_ml_start_cr(s1);
        if let Some(s2) = spec_ml_start(s1) {
            lemma_later(s2, s1, st);
            lemma_ml_basic_cr(s2);
            lemma_ml_literal_cr(s2);
            if let Ok((t, s3)) = spec_ml_basic(s2) {
                lemma_later(s3, s2, st);
            }
            if let Ok((t, s3)) = spec_ml_literal(s2) {
                lemma_later(s3, s2, st);
            }
        }
    } else if line.len() > 0 {
        lemma_basic_str_rest(line.drop_first());
        lemma_literal_rest(line.drop_first());
        if let Ok((t, r)) = crate::de::grammar::spec_basic_str(line.drop_first()) {
            lemma_later_line(st, r);
        }
        if let Ok((t, r)) = spec_literal_str(line.drop_first()) {
            lemma_later_line(st, r);
        }
    }
}

/// Skipping whitespace, comments and line ends inside an array reads the same in both readings.
proof fn lemma_cws_cr(st: PState)
    requires
        no_cr(st.rest),
    ensures
        spec_cws(cr_state(st)) == cr_result_to(spec_cws(st)),
        moves_on_to(spec_cws(st), st),
    decreases measure(st),
{
    lemma_skip_ws(st.line);
    let w = skip_ws(st.line);
    if let Ok(l) = crate::de::grammar::spec_skip_comment(w) {
        if l.len() > 0 {
            lemma_later_line(st, l);
        } else {
            lemma_next_cr(st);
            if let Some(st2) = spec_next(st) {
                lemma_cws_cr(st2);
                if let Ok(s3) = spec_cws(st2) {
                    lemma_later(s3, st2, st);
                }
            }
        }
    }
}

/// A value reads the same in both readings.
proof fn lemma_value_cr(st: PState)
    requires
        no_cr(st.rest),
    ensures
        spec_value(cr_state(st)) == cr_result(spec_value(st)),
        moves_on(spec_value(st), st),
    decreases measure(st), 0int,
{
    let l = st.line;
    if l.len() > 0 {
        let b = l[0];
        lemma_number_rest(l);
        if b == 0x22 || b == 0x27 {
            lemma_string_cr(st);
        } else if b == 0x5b {
            let s1 = with_line(st, l.drop_first());
            lemma_later_line(st, l.drop_first());
            lemma_array_cr(s1);
            if let Ok((a, s2)) = spec_array(s1) {
                lemma_later(s2, s1, st);
            }
        } else if b == 0x7b {
            let s1 = with_line(st, l.drop_first());
            lemma_later_line(st, l.drop_first());
            lemma_inline_table_cr(s1);
            if let Ok((t, s2)) = spec_inline_table(s1) {
                lemma_later(s2, s1, st);
            }
        } else {
            if let Ok((v, r)) = crate::de::grammar::spec_parse_bool(l) {
                lemma_later_line(st, r);
            }
            if let Ok((v, r)) = spec_number_or_datetime(l) {
                lemma_later_line(st, r);
            }
            if let Ok((v, r)) = spec_number_decimal(l) {
                lemma_later_line(st, r);
            }
            let l1 = if b == 0x2b || b == 0x2d { l.drop_first() } else { l };
            if let Ok((v, r)) = crate::de::grammar::spec_inf_nan(l1, b == 0x2d) {
                lemma_later_line(st, r);
            }
        }
    }
}

/// The values of an array read the same in both readings.
proof fn lemma_array_cr(st: PState)
    requires
        no_cr(st.rest),
    ensures
        spec_array(cr_state(st)) == cr_result(spec_array(st)),
        moves_on(spec_array(st), st),
    decreases measure(st), 1int,
{
    lemma_cws_cr(st);
    lemma_cws_measure(st);
    if let Ok(s1) = spec_cws(st) {
        if s1.line.len() > 0 && s1.line[0] == 0x5d {
            lemma_later_line(s1, s1.line.drop_first());
            lemma_later(with_line(s1, s1.line.drop_first()), s1, st);
        } else {
            lemma_value_cr(s1);
            if let Ok((v, s2)) = spec_value(s1) {
                lemma_later(s2, s1, st);
                lemma_cws_cr(s2);
                if let Ok(s3) = spec_cws(s2) {
                    lemma_later(s3, s2, st);
                    let s4 = with_line(s3, s3.line.drop_first());
                    if s3.line.len() > 0 {
                        lemma_later_line(s3, s3.line.drop_first());
                        lemma_later(s4, s3, st);
                        lemma_guard(s4, st);
                        if s3.line[0] == 0x2c && measure(s4) < measure(st) {
                            lemma_array_cr(s4);
                            if let Ok((vs, s5)) = spec_array(s4) {
                                lemma_later(s5, s4, st);
                            }
                        }
                    }
                }
            }
        }
    }
}

/// A key/value pair reads the same in both readings.
proof fn lemma_key_value_cr(st: PState)
    requires
        no_cr(st.rest),
    ensures
        spec_key_value(cr_state(st)) == cr_result(spec_key_value(st)),
        moves_on(spec_key_value(st), st),
    decreases measure(st), 1int,
{
    lemma_dotted_key_rest(st.line);
    if let Ok((k, r)) = crate::de::grammar::spec_dotted_key(st.line) {
        if r.len() > 0 && r[0] == 0x3d {
            lemma_skip_ws(r.drop_first());
            let s1 = with_line(st, skip_ws(r.drop_first()));
            lemma_later_line(st, skip_ws(r.drop_first()));
            lemma_value_cr(s1);
            if let Ok((v, s2)) = spec_value(s1) {
                lemma_later(s2, s1, st);
            }
        }
    }
}

/// The entries of an inline table read the same in both readings.
proof fn lemma_inline_entries_cr(st: PState, acc: STable)
    requires
        no_cr(st.rest),
    ensures
        spec_inline_entries(cr_state(st), acc) == cr_result(spec_inline_entries(st, acc)),
        moves_on(spec_inline_entries(st, acc), st),
    decreases measure(st), 2int,
{
    lemma_key_value_cr(st);
    if let Ok(((k, v), s1)) = spec_key_value(st) {
        lemma_skip_ws(s1.line);
        let l = skip_ws(s1.line);
        lemma_later_line(s1, l);
        if l.len() > 0 {
            lemma_later_line(s1, l.drop_first());
            lemma_later(with_line(s1, l.drop_first()), s1, st);
            lemma_skip_ws(l.drop_first());
            let s2 = with_line(s1, skip_ws(l.drop_first()));
            lemma_later_line(s1, skip_ws(l.drop_first()));
            lemma_later(s2, s1, st);
            lemma_guard(s2, st);
            if let Ok(acc2) = crate::de::table::spec_dotted(acc, k.path, 0, false, k.name, v) {
                if l[0] == 0x2c && measure(s2) < measure(st) {
                    lemma_inline_entries_cr(s2, acc2);
                    if let Ok((t, s3)) = spec_inline_entries(s2, acc2) {
                        lemma_later(s3, s2, st);
                    }
                }
            }
        }
    }
}

/// An inline table reads the same in both readings.
proof fn lemma_inline_table_cr(st: PState)
    requires
        no_cr(st.rest),
    ensures
        spec_inline_table(cr_state(st)) == cr_result(spec_inline_table(st)),
        moves_on(spec_inline_table(st), st),
    decreases measure(st), 3int,
{
    lemma_skip_ws(st.line);
    let l = skip_ws(st.line);
    let s1 = with_line(st, l);
    lemma_later_line(st, l);
    if l.len() > 0 && l[0] == 0x7d {
        lemma_later_line(st, l.drop_first());
    } else {
        lemma_inline_entries_cr(s1, Seq::empty());
        if let Ok((t, s2)) = spec_inline_entries(s1, Seq::empty()) {
            lemma_later(s2, s1, st);
        }
    }
}

/// What a line holds reads the same in both readings.
#[verifier::spinoff_prover]
proof fn lemma_line_item_cr(st: PState)
    requires
        no_cr(st.rest),
    ensures
        spec_line_item(cr_state(st)) == cr_result(spec_line_item(st)),
        moves_on(spec_line_item(st), st),
{
    let l = st.line;
    lemma_later_line(st, l);
    if crate::de::grammar::starts_with(l, seq![0x5bu8, 0x5b]) {
        lemma_header_rest(l.skip(2), true);
        if let Ok((k, r)) = spec_header(l.skip(2), true) {
            lemma_later_line(st, r);
        }
    } else if l.len() > 0 && l[0] == 0x5b {
        lemma_header_rest(l.drop_first(), false);
        if let Ok((k, r)) = spec_header(l.drop_first(), false) {
            lemma_later_line(st, r);
        }
    } else if l.len() > 0 && (crate::de::bytes::toml_word(l[0]) || l[0] == 0x22 || l[0] == 0x27) {
        lemma_key_value_cr(st);
    }
}

/// The next line of a document reads the same in both readings.
proof fn lemma_parse_line_cr(st: PState)
    requires
        no_cr(st.rest),
    ensures
        spec_parse_line(cr_state(st)) == (match spec_parse_line(st) {
            Ok(Some((item, s))) => Ok(Some((item, cr_state(s)))),
            Ok(None) => Ok(None::<(SLine, PState)>),
            Err(e) => Err(e),
        }),
        spec_parse_line(st) matches Ok(Some((item, s))) ==> later(s, st) && no_cr(s.rest),
{
    lemma_next_cr(st);
    if let Some(st1) = spec_next(st) {
        lemma_skip_ws(st1.line);
        let s1 = with_line(st1, skip_ws(st1.line));
        lemma_later_line(st1, skip_ws(st1.line));
        lemma_later(s1, st1, st);
        lemma_line_item_cr(s1);
        if let Ok((item, s2)) = spec_line_item(s1) {
            lemma_later(s2, s1, st);
            lemma_skip_ws(s2.line);
            if let Ok(l) = crate::de::grammar::spec_skip_comment(skip_ws(s2.line)) {
                lemma_later_line(s2, l);
                lemma_later(with_line(s2, l), s2, st);
            }
        }
    }
}

/// The rest of a document reads the same in both readings.
proof fn lemma_document_cr(st: PState, root: STable, current: Seq<Seq<char>>, header: crate::de::grammar::SKey)
    requires
        no_cr(st.rest),
    ensures
        spec_document(cr_state(st), root, current, header) == spec_document(st, root, current, header),
    decreases measure(st),
{
    lemma_parse_line_cr(st);
    if let Ok(Some((item, st2))) = spec_parse_line(st) {
        lemma_guard(st2, st);
        if measure(st2) < measure(st) {
            if let Ok((root2, current2, header2)) = crate::de::grammar::spec_apply_line(root, current, header, item) {
                lemma_document_cr(st2, root2, current2, header2);
            }
        }
    }
}

/// A document whose lines end with `\r\n` reads as the same document with `\n` line ends: for
/// a source without carriage returns, putting one before each line break changes neither the
/// table that the parser gives back nor the error that it reports.
pub proof fn lemma_crlf_parse(bytes: Seq<u8>)
    requires
        no_cr(bytes),
    ensures
        spec_parse(PState { line: Seq::empty(), rest: crlf(bytes), line_no: 0 })
            == spec_parse(PState { line: Seq::empty(), rest: bytes, line_no: 0 }),
{
    lemma_document_cr(PState { line: Seq::empty(), rest: bytes, line_no: 0 }, Seq::empty(), Seq::empty(), crate::de::grammar::root_key());
}

} // verus!
