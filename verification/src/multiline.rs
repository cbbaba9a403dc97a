//! What the reader gives back of a multi-line string that the writer wrote.

use vstd::prelude::*;
use vstd::utf8::*;

use crate::de::bytes::{in_class, span, toml_ml_basic_str, ByteClass};
use crate::de::reader::strip_cr;
use crate::de::error::SpecError;
use crate::de::grammar::{
    all_in, closing_quotes, lemma_next_measure, measure, prepend, spec_escape, spec_ml_basic, spec_ml_basic_str,
    spec_ml_start, spec_next, spec_string, spec_value, starts_with, with_line, PState, SKey, spec_key_value,
};
use crate::de::value::SValue;
use crate::roundtrip::{
    lemma_pair_bytes, lemma_pair_key, lemma_pair_unfold, lemma_value_after_eq,
    ascii_chars, lemma_encode_ascii, lemma_encode_concat, lemma_encode_one, lemma_escape_front, lemma_escape_reads,
    lemma_first_char, lemma_plain_bytes, lemma_span_concat, plain_char,
};
use crate::ser::writer::{
    bare_key_char, basic_string_repr, escape_char, escape_chars, is_bare_key, key_repr, ml_string_repr, string_repr,
};

verus! {

/// A character that a multi-line basic string holds as it is: not a line break, quote,
/// backslash, or control character other than a tab.
pub open spec fn ml_plain_char(c: char) -> bool {
    let n = c as u32;
    (n >= 0x20 || n == 0x09) && n != 0x22 && n != 0x5c && n != 0x7f
}

/// The bytes that encode such a character may all be copied into a multi-line basic string.
proof fn lemma_ml_plain_bytes(c: char)
    requires
        ml_plain_char(c),
    ensures
        encode_utf8(seq![c]).len() > 0,
        forall|i: int| 0 <= i < encode_utf8(seq![c]).len() ==> toml_ml_basic_str(#[trigger] encode_utf8(seq![c])[i]),
{
    lemma_encode_one(c);
    if c as u32 == 0x09 {
        lemma_encode_ascii(seq![c]);
        assert(encode_utf8(seq![c]) =~= seq![0x09u8]);
    } else {
        lemma_plain_bytes(c);
    }
}

/// A character that a multi-line basic string holds as it is, in front of the rest of a line,
/// is read as itself.
proof fn lemma_ml_step_plain(c: char, x: Seq<u8>, st: PState)
    requires
        ml_plain_char(c),
    ensures
        spec_ml_basic(with_line(st, encode_utf8(seq![c]) + x)) == prepend(seq![c], spec_ml_basic(with_line(st, x))),
{
    let b = encode_utf8(seq![c]);
    let y = b + x;
    let sy = with_line(st, y);
    let sx = with_line(st, x);
    lemma_ml_plain_bytes(c);
    lemma_span_concat(b, x, ByteClass::MultilineBasicStr);
    crate::de::bytes::lemma_span_props(x, ByteClass::MultilineBasicStr);
    let ix = span(x, ByteClass::MultilineBasicStr) as int;
    let iy = span(y, ByteClass::MultilineBasicStr) as int;
    assert(iy == b.len() + ix);
    let cx = x.take(ix);
    let l = x.skip(ix);
    assert(y.take(iy) =~= b + cx);
    assert(y.skip(iy) =~= l);
    lemma_first_char(c, cx);
    assert(measure(sx) < measure(sy));
    lemma_next_measure(sx);
    crate::de::parser::lemma_skip_blank_measure(with_line(st, l));
    assert(measure(with_line(st, l)) <= measure(sx));
    if l.len() > 0 {
        crate::de::parser::lemma_escape_consumes(l.drop_first());
    }
    if valid_utf8(cx) {
        let tx = decode_utf8(cx);
        assert(decode_utf8(y.take(iy)) == seq![c] + tx);
        lemma_ml_branch_prepend(c, tx, l, st);
    }
}

/// Text put in front in two parts is text put in front at once.
proof fn lemma_prepend_assoc<S>(a: Seq<char>, b: Seq<char>, r: Result<(Seq<char>, S), SpecError>)
    ensures
        prepend(a + b, r) == prepend(a, prepend(b, r)),
{
    if let Ok((v, _)) = r {
        assert(a + b + v =~= a + (b + v));
    }
}

/// Whatever the rest of the line `l` after a chunk of text leads to, a character in front of
/// the chunk is put in front of the result.
proof fn lemma_ml_branch_prepend(c: char, tx: Seq<char>, l: Seq<u8>, st: PState)
    ensures
        ({
            let step = |t: Seq<char>| if l.len() > 0 && l[0] == 0x5c && all_in(l.drop_first(), ByteClass::Whitespace) {
                match crate::de::grammar::spec_skip_blank_lines(with_line(st, l)) {
                    Err(e) => Err(e),
                    Ok(st2) => prepend(t, spec_ml_basic(st2)),
                }
            } else if l.len() > 0 && l[0] == 0x5c {
                match spec_escape(l.drop_first()) {
                    Err(e) => Err(e),
                    Ok((e, r)) => prepend(t.push(e), spec_ml_basic(with_line(st, r))),
                }
            } else if starts_with(l, seq![0x22u8, 0x22, 0x22]) {
                let (extra, r) = closing_quotes(l.skip(3), 0x22);
                Ok((t + extra, with_line(st, r)))
            } else if l.len() > 0 && l[0] == 0x22 {
                prepend(t.push('"'), spec_ml_basic(with_line(st, l.drop_first())))
            } else if l.len() > 0 {
                Err(SpecError::IllegalChar(l[0]))
            } else {
                match spec_next(st) {
                    None => Err(SpecError::UnterminatedString),
                    Some(st2) => prepend(t.push('\n'), spec_ml_basic(st2)),
                }
            };
            step(seq![c] + tx) == prepend(seq![c], step(tx))
        }),
{
    let ct = seq![c] + tx;
    if l.len() > 0 && l[0] == 0x5c && all_in(l.drop_first(), ByteClass::Whitespace) {
        match crate::de::grammar::spec_skip_blank_lines(with_line(st, l)) {
            Err(_) => {},
            Ok(st2) => lemma_prepend_assoc(seq![c], tx, spec_ml_basic(st2)),
        }
    } else if l.len() > 0 && l[0] == 0x5c {
        match spec_escape(l.drop_first()) {
            Err(_) => {},
            Ok((e, r)) => {
                assert(ct.push(e) =~= seq![c] + tx.push(e));
                lemma_prepend_assoc(seq![c], tx.push(e), spec_ml_basic(with_line(st, r)));
            },
        }
    } else if starts_with(l, seq![0x22u8, 0x22, 0x22]) {
        let (extra, r) = closing_quotes(l.skip(3), 0x22);
        assert(ct + extra =~= seq![c] + (tx + extra));
    } else if l.len() > 0 && l[0] == 0x22 {
        assert(ct.push('"') =~= seq![c] + tx.push('"'));
        lemma_prepend_assoc(seq![c], tx.push('"'), spec_ml_basic(with_line(st, l.drop_first())));
    } else if l.len() > 0 {
    } else {
        match spec_next(st) {
            None => {},
            Some(st2) => {
                assert(ct.push('\n') =~= seq![c] + tx.push('\n'));
                lemma_prepend_assoc(seq![c], tx.push('\n'), spec_ml_basic(st2));
            },
        }
    }
}



/// A character that a multi-line basic string holds escaped, in front of the rest of a line,
/// is read as itself.
proof fn lemma_ml_step_escape(c: char, x: Seq<u8>, st: PState)
    requires
        !ml_plain_char(c),
        c as u32 != 0x0a,
    ensures
        spec_ml_basic(with_line(st, encode_utf8(escape_char(c, true)) + x)) == prepend(seq![c], spec_ml_basic(with_line(st, x))),
{
    assert(escape_char(c, true) == escape_char(c, false));
    assert(!plain_char(c));
    lemma_escape_reads(c, x);
    let y = encode_utf8(escape_char(c, false)) + x;
    assert(span(y, ByteClass::MultilineBasicStr) == 0);
    assert(y.take(0) =~= Seq::<u8>::empty());
    assert(decode_utf8(Seq::<u8>::empty()) =~= Seq::<char>::empty());
    assert(y.skip(0) =~= y);
    assert(y.skip(1) =~= y.drop_first());
    assert(span(y.drop_first(), ByteClass::Whitespace) == 0);
    assert(!all_in(y.drop_first(), ByteClass::Whitespace));
    assert(measure(with_line(st, x)) < measure(with_line(st, y)));
    assert(Seq::<char>::empty().push(c) =~= seq![c]);
}


/// What the writer writes of a multi-line string after its opening quotes and line break: the
/// escaped characters, then the closing quotes.
pub open spec fn ml_body(s: Seq<char>) -> Seq<u8> {
    encode_utf8(escape_chars(s, true) + seq!['"', '"', '"'])
}

/// The state stands at the start of the bytes `w`: its line is the first line of `w`, and what
/// follows that line's break is the rest.
pub open spec fn presents(st: PState, w: Seq<u8>) -> bool {
    let n = span(w, ByteClass::NotNewline);
    if n < w.len() {
        st.line == w.take(n as int) && st.rest == w.skip(n + 1int)
    } else {
        st.line == w && st.rest.len() == 0
    }
}

/// No byte is a line break or a carriage return.
pub open spec fn no_breaks(b: Seq<u8>) -> bool {
    forall|i: int| 0 <= i < b.len() ==> #[trigger] b[i] != 0x0a && b[i] != 0x0d
}

/// No byte is a carriage return.
pub open spec fn no_cr(b: Seq<u8>) -> bool {
    forall|i: int| 0 <= i < b.len() ==> #[trigger] b[i] != 0x0d
}

/// A character other than a line break is written without line breaks or carriage returns.
proof fn lemma_escape_no_breaks(c: char)
    requires
        c as u32 != 0x0a,
    ensures
        no_breaks(encode_utf8(escape_char(c, true))),
        encode_utf8(escape_char(c, true)).len() > 0,
{
    let n = c as u32;
    let e = escape_char(c, true);
    lemma_encode_one(c);
    if ml_plain_char(c) {
        assert(e == seq![c]);
        lemma_ml_plain_bytes(c);
        if n == 0x09 {
            lemma_encode_ascii(e);
            assert(encode_utf8(e) =~= seq![0x09u8]);
        } else {
            lemma_plain_bytes(c);
        }
    } else {
        assert(ascii_chars(e)) by {
            if n < 0x20 || n == 0x7f {
                assert(n / 16 < 8);
            }
            assert forall|i: int| 0 <= i < e.len() implies (#[trigger] e[i] as u32) < 0x80 by {}
        }
        lemma_encode_ascii(e);
        assert forall|i: int| 0 <= i < e.len() implies (#[trigger] e[i] as u32) != 0x0a && (e[i] as u32) != 0x0d by {
            if n < 0x20 || n == 0x7f {
                assert(n / 16 < 8);
            }
        }
    }
}

/// The text of a multi-line string has no carriage returns, and only the line breaks of the
/// string.
pub proof fn lemma_body_no_cr(s: Seq<char>)
    ensures
        forall|i: int| 0 <= i < ml_body(s).len() ==> #[trigger] ml_body(s)[i] != 0x0d,
        ml_body(s).len() >= 3,
    decreases s.len(),
{
    let q = seq!['"', '"', '"'];
    lemma_encode_ascii(q);
    if s.len() == 0 {
        assert(escape_chars(s, true) + q =~= q);
    } else {
        let c = s[0];
        let t = s.drop_first();
        lemma_body_no_cr(t);
        lemma_escape_front(s, true);
        assert(escape_chars(s, true) + q =~= escape_char(c, true) + (escape_chars(t, true) + q));
        lemma_encode_concat(escape_char(c, true), escape_chars(t, true) + q);
        if c as u32 == 0x0a {
            assert(escape_char(c, true) == seq![c]);
            lemma_encode_ascii(seq![c]);
            assert(encode_utf8(seq![c]) =~= seq![0x0au8]);
        } else {
            lemma_escape_no_breaks(c);
        }
        let a = encode_utf8(escape_char(c, true));
        let b = ml_body(t);
        assert forall|i: int| 0 <= i < ml_body(s).len() implies #[trigger] ml_body(s)[i] != 0x0d by {
            if i >= a.len() {
                assert(ml_body(s)[i] == b[i - a.len()]);
            } else {
                assert(ml_body(s)[i] == a[i]);
            }
        }
    }
}

/// Bytes with no line break in front of others: the first line is longer by them.
pub proof fn lemma_presents_prefix(st: PState, a: Seq<u8>, w: Seq<u8>)
    requires
        no_breaks(a),
        presents(st, a + w),
    ensures
        ({
            let n = span(w, ByteClass::NotNewline);
            let x = if n < w.len() { w.take(n as int) } else { w };
            &&& st.line == a + x
            &&& presents(with_line(st, x), w)
        }),
{
    assert forall|i: int| 0 <= i < a.len() implies in_class(#[trigger] a[i], ByteClass::NotNewline) by {}
    lemma_span_concat(a, w, ByteClass::NotNewline);
    let n = span(w, ByteClass::NotNewline);
    crate::de::bytes::lemma_span_props(w, ByteClass::NotNewline);
    if n < w.len() {
        assert((a + w).take(a.len() + n as int) =~= a + w.take(n as int));
        assert((a + w).skip(a.len() + n + 1int) =~= w.skip(n + 1int));
    }
}

/// At a line break, the line is empty and the rest follows it; moving on presents the rest, if
/// its first line does not end in a carriage return.
proof fn lemma_presents_break(st: PState, w: Seq<u8>)
    requires
        presents(st, seq![0x0au8] + w),
        w.len() > 0,
        forall|i: int| 0 <= i < span(w, ByteClass::NotNewline) ==> #[trigger] w[i] != 0x0d,
    ensures
        st.line.len() == 0,
        spec_next(st) matches Some(st2) && presents(st2, w),
{
    let y = seq![0x0au8] + w;
    assert(y[0] == 0x0a);
    assert(span(y, ByteClass::NotNewline) == 0);
    assert(y.take(0) =~= Seq::<u8>::empty());
    assert(y.skip(1) =~= w);
    let n = span(w, ByteClass::NotNewline);
    crate::de::bytes::lemma_span_props(w, ByteClass::NotNewline);
    if n < w.len() {
        if n > 0 {
            assert(w.take(n as int).last() == w[n - 1]);
        }
        assert(strip_cr(w.take(n as int)) == w.take(n as int));
    }
}


/// The number of line breaks in a string.
pub open spec fn line_breaks(s: Seq<char>) -> nat
    decreases s.len(),
{
    if s.len() == 0 {
        0
    } else {
        (if s[0] == '\n' { 1nat } else { 0nat }) + line_breaks(s.drop_first())
    }
}

/// The first line of bytes: up to their first line break, or all of them.
pub open spec fn first_line(w: Seq<u8>) -> Seq<u8> {
    let n = span(w, ByteClass::NotNewline);
    if n < w.len() {
        w.take(n as int)
    } else {
        w
    }
}

/// What follows the first line break of bytes (nothing if they hold none).
pub open spec fn after_first(w: Seq<u8>) -> Seq<u8> {
    let n = span(w, ByteClass::NotNewline);
    if n < w.len() {
        w.skip(n + 1int)
    } else {
        Seq::empty()
    }
}

/// What may follow the closing quotes of a multi-line string: no quote right after them, and no
/// carriage return on their line.
pub open spec fn tail_ok(suffix: Seq<u8>) -> bool {
    &&& suffix.len() == 0 || suffix[0] != 0x22
    &&& forall|i: int| 0 <= i < span(suffix, ByteClass::NotNewline) ==> #[trigger] suffix[i] != 0x0d
}

/// A state that presents bytes stands at their first line, with what follows its break.
pub proof fn lemma_presents_parts(st: PState, w: Seq<u8>)
    requires
        presents(st, w),
    ensures
        st.line == first_line(w),
        st.rest == after_first(w),
{
    if span(w, ByteClass::NotNewline) >= w.len() {
        assert(st.rest =~= Seq::<u8>::empty());
    }
}

/// The first line of the bytes that follow a line break in the text of a multi-line string has
/// no carriage return.
proof fn lemma_first_line_no_cr(t: Seq<char>, suffix: Seq<u8>)
    requires
        tail_ok(suffix),
    ensures
        forall|i: int| 0 <= i < span(ml_body(t) + suffix, ByteClass::NotNewline)
            ==> #[trigger] (ml_body(t) + suffix)[i] != 0x0d,
{
    let b = ml_body(t);
    let w = b + suffix;
    lemma_body_no_cr(t);
    crate::de::bytes::lemma_span_props(w, ByteClass::NotNewline);
    assert forall|i: int| 0 <= i < span(w, ByteClass::NotNewline) implies #[trigger] w[i] != 0x0d by {
        if i >= b.len() {
            assert forall|j: int| 0 <= j < b.len() implies in_class(#[trigger] b[j], ByteClass::NotNewline) by {
                assert(w[j] == b[j]);
            }
            lemma_span_concat(b, suffix, ByteClass::NotNewline);
            assert(w[i] == suffix[i - b.len()]);
        } else {
            assert(w[i] == b[i]);
        }
    }
}

/// The closing quotes of a multi-line string, then what is left of the line, which does not
/// start with a quote.
proof fn lemma_ml_step_end(st: PState, x: Seq<u8>)
    requires
        st.line == seq![0x22u8, 0x22, 0x22] + x,
        x.len() == 0 || x[0] != 0x22,
    ensures
        spec_ml_basic(st) == Ok::<(Seq<char>, PState), SpecError>((Seq::empty(), with_line(st, x))),
{
    let line = st.line;
    assert(span(line, ByteClass::MultilineBasicStr) == 0);
    assert(line.take(0) =~= Seq::<u8>::empty());
    assert(decode_utf8(Seq::<u8>::empty()) =~= Seq::<char>::empty());
    assert(line.skip(0) =~= line);
    assert(line.skip(3) =~= x);
    assert(line.take(3) =~= seq![0x22u8, 0x22, 0x22]);
    assert(starts_with(line, seq![0x22u8, 0x22, 0x22]));
    assert(Seq::<char>::empty() + Seq::<char>::empty() =~= Seq::<char>::empty());
}

/// The end of a line inside a multi-line string is read as a line break, then the next line.
proof fn lemma_ml_step_break(st: PState, st2: PState)
    requires
        st.line.len() == 0,
        spec_next(st) == Some(st2),
    ensures
        spec_ml_basic(st) == prepend(seq!['\n'], spec_ml_basic(st2)),
{
    let line = st.line;
    lemma_next_measure(st);
    assert(span(line, ByteClass::MultilineBasicStr) == 0);
    assert(line.take(0) =~= Seq::<u8>::empty());
    assert(decode_utf8(Seq::<u8>::empty()) =~= Seq::<char>::empty());
    assert(line.skip(0) =~= line);
    assert(Seq::<char>::empty().push('\n') =~= seq!['\n']);
}

/// The state reached at the end of the text of a multi-line string.
pub open spec fn ml_end(s: Seq<char>, suffix: Seq<u8>, st: PState) -> PState {
    PState { line: first_line(suffix), rest: after_first(suffix), line_no: st.line_no + line_breaks(s) }
}

/// Only the closing quotes are left of the string.
proof fn lemma_ml_body_end(suffix: Seq<u8>, st: PState)
    requires
        tail_ok(suffix),
        presents(st, ml_body(Seq::empty()) + suffix),
    ensures
        spec_ml_basic(st) == Ok::<(Seq<char>, PState), SpecError>((Seq::empty(), ml_end(Seq::empty(), suffix, st))),
{
    let q = seq!['"', '"', '"'];
    lemma_encode_ascii(q);
    let qb = seq![0x22u8, 0x22, 0x22];
    assert(encode_utf8(q) =~= qb);
    assert(escape_chars(Seq::<char>::empty(), true) + q =~= q);
    assert(no_breaks(qb));
    lemma_presents_prefix(st, qb, suffix);
    let x = first_line(suffix);
    lemma_presents_parts(with_line(st, x), suffix);
    if suffix.len() > 0 && x.len() > 0 {
        assert(x[0] == suffix[0]);
    }
    lemma_ml_step_end(st, x);
    assert(with_line(st, x) == ml_end(Seq::empty(), suffix, st));
}

/// The bytes of the first character of a string in front of the text of the rest of it.
proof fn lemma_ml_body_front(s: Seq<char>, suffix: Seq<u8>)
    requires
        s.len() > 0,
    ensures
        ml_body(s) + suffix == encode_utf8(escape_char(s[0], true)) + (ml_body(s.drop_first()) + suffix),
{
    let q = seq!['"', '"', '"'];
    let c = s[0];
    let t = s.drop_first();
    lemma_escape_front(s, true);
    assert(escape_chars(s, true) + q =~= escape_char(c, true) + (escape_chars(t, true) + q));
    lemma_encode_concat(escape_char(c, true), escape_chars(t, true) + q);
    assert(ml_body(s) + suffix =~= encode_utf8(escape_char(c, true)) + (ml_body(t) + suffix));
}

/// A line break is the first character: it ends the line.
proof fn lemma_ml_body_break(s: Seq<char>, suffix: Seq<u8>, st: PState) -> (st2: PState)
    requires
        s.len() > 0,
        s[0] as u32 == 0x0a,
        tail_ok(suffix),
        presents(st, ml_body(s) + suffix),
    ensures
        spec_next(st) == Some(st2),
        st.line.len() == 0,
        presents(st2, ml_body(s.drop_first()) + suffix),
        ml_end(s.drop_first(), suffix, st2) == ml_end(s, suffix, st),
{
    let c = s[0];
    let t = s.drop_first();
    lemma_ml_body_front(s, suffix);
    char_u32_cast(c, 0x0a);
    assert(escape_char(c, true) == seq![c]);
    lemma_encode_ascii(seq![c]);
    assert(encode_utf8(seq![c]) =~= seq![0x0au8]);
    lemma_first_line_no_cr(t, suffix);
    lemma_body_no_cr(t);
    lemma_presents_break(st, ml_body(t) + suffix);
    let st2 = spec_next(st)->Some_0;
    assert(line_breaks(s) == 1 + line_breaks(t));
    st2
}

/// Another character is the first: the line starts with its bytes.
proof fn lemma_ml_body_char(s: Seq<char>, suffix: Seq<u8>, st: PState) -> (sx: PState)
    requires
        s.len() > 0,
        s[0] as u32 != 0x0a,
        presents(st, ml_body(s) + suffix),
    ensures
        st == with_line(sx, encode_utf8(escape_char(s[0], true)) + sx.line),
        presents(sx, ml_body(s.drop_first()) + suffix),
        ml_end(s.drop_first(), suffix, sx) == ml_end(s, suffix, st),
{
    let c = s[0];
    let t = s.drop_first();
    lemma_ml_body_front(s, suffix);
    let a = encode_utf8(escape_char(c, true));
    let w = ml_body(t) + suffix;
    lemma_escape_no_breaks(c);
    lemma_presents_prefix(st, a, w);
    let n = span(w, ByteClass::NotNewline);
    let x = if n < w.len() { w.take(n as int) } else { w };
    let sx = with_line(st, x);
    assert(line_breaks(s) == line_breaks(t)) by {
        if c == '\n' {
            char_u32_cast(c, 0x0a);
        }
    }
    sx
}

/// The text of a multi-line string that the writer wrote, from the line after its opening
/// quotes up to the end of its line, reads back as the string.
proof fn lemma_ml_body(s: Seq<char>, suffix: Seq<u8>, st: PState)
    requires
        tail_ok(suffix),
        presents(st, ml_body(s) + suffix),
    ensures
        spec_ml_basic(st) == Ok::<(Seq<char>, PState), SpecError>((s, ml_end(s, suffix, st))),
    decreases s.len(),
{
    if s.len() == 0 {
        lemma_ml_body_end(suffix, st);
        assert(s =~= Seq::<char>::empty());
    } else {
        let c = s[0];
        let t = s.drop_first();
        if c as u32 == 0x0a {
            let st2 = lemma_ml_body_break(s, suffix, st);
            lemma_ml_body(t, suffix, st2);
            lemma_ml_step_break(st, st2);
            char_u32_cast(c, 0x0a);
            assert(seq!['\n'] + t =~= s);
        } else {
            let sx = lemma_ml_body_char(s, suffix, st);
            lemma_ml_body(t, suffix, sx);
            if ml_plain_char(c) {
                assert(escape_char(c, true) == seq![c]);
                lemma_ml_step_plain(c, sx.line, sx);
            } else {
                lemma_ml_step_escape(c, sx.line, sx);
            }
            assert(with_line(sx, sx.line) == sx);
            assert(seq![c] + t =~= s);
        }
    }
}


/// What the writer writes of a multi-line string: its opening quotes and a line break, then
/// the text that follows.
pub proof fn lemma_ml_repr_bytes(s: Seq<char>)
    ensures
        encode_utf8(ml_string_repr(s)) == seq![0x22u8, 0x22, 0x22] + (seq![0x0au8] + ml_body(s)),
{
    let open = seq!['"', '"', '"', '\n'];
    let q = seq!['"', '"', '"'];
    assert(ml_string_repr(s) =~= open + (escape_chars(s, true) + q));
    lemma_encode_concat(open, escape_chars(s, true) + q);
    lemma_encode_ascii(open);
    assert(encode_utf8(open) =~= seq![0x22u8, 0x22, 0x22, 0x0a]);
    assert(encode_utf8(ml_string_repr(s)) =~= seq![0x22u8, 0x22, 0x22] + (seq![0x0au8] + ml_body(s)));
}

/// A multi-line string that the writer wrote, then what follows it (`suffix`: no quote right
/// after the closing quotes, no carriage return on their line), reads back as the string; the
/// reader then stands right after the closing quotes.
pub proof fn lemma_multiline_string_roundtrip(s: Seq<char>, suffix: Seq<u8>, st: PState)
    requires
        tail_ok(suffix),
        presents(st, encode_utf8(ml_string_repr(s)) + suffix),
    ensures
        spec_string(st) == Ok::<(Seq<char>, PState), SpecError>(
            (
                s,
                PState { line: first_line(suffix), rest: after_first(suffix), line_no: st.line_no + 1 + line_breaks(s) },
            ),
        ),
{
    let qb = seq![0x22u8, 0x22, 0x22];
    let w = ml_body(s) + suffix;
    lemma_ml_repr_bytes(s);
    assert(encode_utf8(ml_string_repr(s)) + suffix =~= qb + (seq![0x0au8] + w));
    assert(no_breaks(qb));
    lemma_presents_prefix(st, qb, seq![0x0au8] + w);
    assert((seq![0x0au8] + w)[0] == 0x0a);
    assert(span(seq![0x0au8] + w, ByteClass::NotNewline) == 0);
    assert((seq![0x0au8] + w).take(0) =~= Seq::<u8>::empty());
    assert(st.line =~= qb);
    let s0 = with_line(st, Seq::empty());
    lemma_first_line_no_cr(s, suffix);
    lemma_body_no_cr(s);
    lemma_presents_break(s0, w);
    let st2 = spec_next(s0)->Some_0;
    lemma_ml_body(s, suffix, st2);
    assert(st.line.skip(3) =~= Seq::<u8>::empty());
    assert(st.line.take(3) =~= qb);
    assert(starts_with(st.line, qb));
    assert(spec_ml_start(s0) == Some(st2));
    assert(spec_ml_basic_str(s0) == spec_ml_basic(st2));
}


/// The characters of a string written inside a basic string hold no line break or carriage
/// return.
pub proof fn lemma_escaped_no_breaks(s: Seq<char>)
    ensures
        no_breaks(encode_utf8(escape_chars(s, false))),
    decreases s.len(),
{
    if s.len() > 0 {
        let c = s.last();
        let n = c as u32;
        let e = escape_char(c, false);
        lemma_escaped_no_breaks(s.drop_last());
        lemma_encode_concat(escape_chars(s.drop_last(), false), e);
        if plain_char(c) {
            assert(e == seq![c]);
            lemma_plain_bytes(c);
            lemma_encode_one(c);
        } else {
            assert(ascii_chars(e)) by {
                if n < 0x20 || n == 0x7f {
                    assert(n / 16 < 8);
                }
                assert forall|i: int| 0 <= i < e.len() implies (#[trigger] e[i] as u32) < 0x80 by {}
            }
            lemma_encode_ascii(e);
            assert forall|i: int| 0 <= i < e.len() implies (#[trigger] e[i] as u32) != 0x0a && (e[i] as u32) != 0x0d by {
                if n < 0x20 || n == 0x7f {
                    assert(n / 16 < 8);
                }
            }
        }
        let a = encode_utf8(escape_chars(s.drop_last(), false));
        let b = encode_utf8(e);
        assert forall|i: int| 0 <= i < a.len() + b.len() implies #[trigger] (a + b)[i] != 0x0a && (a + b)[i] != 0x0d by {
            if i >= a.len() {
                assert((a + b)[i] == b[i - a.len()]);
            } else {
                assert((a + b)[i] == a[i]);
            }
        }
    } else {
        assert(encode_utf8(escape_chars(s, false)) =~= Seq::<u8>::empty());
    }
}

/// A key as the writer writes it holds no line break or carriage return.
pub proof fn lemma_key_no_breaks(k: Seq<char>)
    ensures
        no_breaks(encode_utf8(key_repr(k))),
{
    if is_bare_key(k) {
        assert(ascii_chars(k)) by {
            assert forall|i: int| 0 <= i < k.len() implies (#[trigger] k[i] as u32) < 0x80 by {
                assert(bare_key_char(k[i]));
            }
        }
        lemma_encode_ascii(k);
        assert forall|i: int| 0 <= i < k.len() implies (#[trigger] k[i] as u32) != 0x0a && (k[i] as u32) != 0x0d by {
            assert(bare_key_char(k[i]));
        }
    } else {
        let q = seq!['"'];
        let inner = escape_chars(k, false);
        assert(basic_string_repr(k) =~= q + inner + q);
        lemma_encode_concat(q + inner, q);
        lemma_encode_concat(q, inner);
        lemma_encode_ascii(q);
        lemma_escaped_no_breaks(k);
        let qb = encode_utf8(q);
        let ib = encode_utf8(inner);
        assert(qb =~= seq![0x22u8]);
        let all = qb + ib + qb;
        assert forall|i: int| 0 <= i < all.len() implies #[trigger] all[i] != 0x0a && all[i] != 0x0d by {
            if i == 0 {
            } else if i <= ib.len() {
                assert(all[i] == ib[i - 1]);
            } else {
                assert(all[i] == qb[0]);
            }
        }
    }
}

/// A value that starts with a quote is read as a string.
#[verifier::spinoff_prover]
proof fn lemma_quoted_value(st: PState, s: Seq<char>, st2: PState)
    requires
        st.line.len() > 0,
        st.line[0] == 0x22,
        spec_string(st) == Ok::<(Seq<char>, PState), SpecError>((s, st2)),
    ensures
        spec_value(st) == Ok::<(SValue, PState), SpecError>((SValue::String(s), st2)),
{
}

/// The first line of a key/value pair that the writer writes for a multi-line string: the key,
/// ` = `, and the opening quotes; the string's text follows.
proof fn lemma_ml_pair_line(k: Seq<char>, s: Seq<char>, suffix: Seq<u8>, st: PState)
    requires
        s.contains('\n'),
        presents(st, encode_utf8(key_repr(k) + seq![' ', '=', ' '] + string_repr(s)) + suffix),
    ensures
        st.line == encode_utf8(key_repr(k)) + (seq![0x20u8, 0x3d, 0x20] + seq![0x22u8, 0x22, 0x22]),
        presents(with_line(st, seq![0x22u8, 0x22, 0x22]), encode_utf8(ml_string_repr(s)) + suffix),
{
    let kb = encode_utf8(key_repr(k));
    let mid = seq![0x20u8, 0x3d, 0x20];
    let qb = seq![0x22u8, 0x22, 0x22];
    let vb = encode_utf8(ml_string_repr(s));
    let w = vb + suffix;
    lemma_pair_bytes(k, ml_string_repr(s));
    assert(encode_utf8(key_repr(k) + seq![' ', '=', ' '] + string_repr(s)) + suffix =~= (kb + mid) + w);
    lemma_key_no_breaks(k);
    assert(no_breaks(kb + mid)) by {
        assert forall|i: int| 0 <= i < (kb + mid).len() implies #[trigger] (kb + mid)[i] != 0x0a && (kb + mid)[i] != 0x0d by {
            if i >= kb.len() {
                assert((kb + mid)[i] == mid[i - kb.len()]);
            } else {
                assert((kb + mid)[i] == kb[i]);
            }
        }
    }
    lemma_presents_prefix(st, kb + mid, w);
    lemma_ml_repr_bytes(s);
    let tail = seq![0x0au8] + ml_body(s) + suffix;
    assert(w =~= qb + tail);
    assert(no_breaks(qb));
    assert(tail[0] == 0x0a);
    assert(span(tail, ByteClass::NotNewline) == 0);
    lemma_span_concat(qb, tail, ByteClass::NotNewline);
    assert(w.take(3) =~= qb);
    assert(st.line =~= kb + (mid + qb));
}

/// A key/value pair that the writer writes for a string with a line break (a multi-line string;
/// `suffix` holds what follows it: no quote right after the closing quotes, no carriage return
/// on their line) reads back as that key (with no dotted path) and that string.
#[verifier::spinoff_prover]
#[verifier::rlimit(30)]
pub proof fn lemma_multiline_pair_roundtrip(k: Seq<char>, s: Seq<char>, suffix: Seq<u8>, st: PState)
    requires
        s.contains('\n'),
        tail_ok(suffix),
        presents(st, encode_utf8(key_repr(k) + seq![' ', '=', ' '] + string_repr(s)) + suffix),
    ensures
        spec_key_value(st) == Ok::<((SKey, SValue), PState), SpecError>(
            (
                (SKey { path: Seq::empty(), name: k }, SValue::String(s)),
                PState { line: first_line(suffix), rest: after_first(suffix), line_no: st.line_no + 1 + line_breaks(s) },
            ),
        ),
{
    let qb = seq![0x22u8, 0x22, 0x22];
    let end = PState { line: first_line(suffix), rest: after_first(suffix), line_no: st.line_no + 1 + line_breaks(s) };
    lemma_ml_pair_line(k, s, suffix, st);
    let sx = with_line(st, qb);
    lemma_pair_key(k, qb);
    lemma_value_after_eq(qb);
    lemma_multiline_string_roundtrip(s, suffix, sx);
    lemma_quoted_value(sx, s, end);
    lemma_pair_unfold(st, k, seq![0x3du8, 0x20] + qb, SValue::String(s), end);
}

} // verus!
