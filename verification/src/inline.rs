//! What the reader gives back of a value that the writer wrote inline: a string, an integer, a
//! boolean, an array of such values, or an inline table of them.

use vstd::prelude::*;
use vstd::utf8::*;

use crate::de::bytes::{in_class, span, ByteClass};
use crate::de::error::SpecError;
use crate::de::grammar::{
    has_leading_zero, measure, skip_ws, spec_array, spec_basic_str, spec_cws, spec_skip_comment, spec_digit_groups, spec_digits, spec_exponent, spec_fraction,
    spec_key_value, spec_number_decimal, spec_number_or_datetime, spec_string, spec_value, starts_with, with_line,
    PState, SKey,
};
use crate::de::value::{STable, SValue};
use crate::roundtrip::{
    lemma_basic_string_roundtrip, lemma_bool_bytes, lemma_digit_bytes, lemma_encode_ascii,
    ascii_chars, lemma_decimal_first, lemma_digits_ascii, lemma_encode_concat, lemma_pair_bytes, lemma_pair_key,
    lemma_pair_unfold, lemma_value_after_eq, lemma_quoted_bytes, lemma_quoted_not_triple, lemma_span_concat,
};
use crate::ser::writer::{basic_string_repr, bool_repr, decimal_repr, digits_repr, escape_chars, key_repr, string_repr};
use crate::multiline::{
    after_first, first_line, lemma_body_no_cr, lemma_escaped_no_breaks, lemma_ml_repr_bytes,
    lemma_multiline_string_roundtrip, lemma_presents_parts, lemma_presents_prefix, line_breaks, ml_body, no_breaks,
    no_cr, presents, tail_ok,
};
use crate::ser::tree::{inline_entries_repr, inline_tables_repr, inline_value_repr, inline_values_repr, Table, Value};
use crate::ser::value::byte_list_repr;

verus! {

/// A value that the writer writes inline.
pub enum InlineValue {
    Str(Seq<char>),
    Int(int),
    Bool(bool),
    Arr(Seq<InlineValue>),
    Tab(Seq<(Seq<char>, InlineValue)>),
}

/// The text that the writer writes for a value.
pub open spec fn value_text(v: InlineValue) -> Seq<char>
    decreases v,
{
    match v {
        InlineValue::Str(s) => string_repr(s),
        InlineValue::Int(n) => decimal_repr(n),
        InlineValue::Bool(b) => bool_repr(b),
        InlineValue::Arr(vs) => seq!['['] + items_text(vs) + seq![']'],
        InlineValue::Tab(es) => seq!['{', ' '] + fields_text(es) + seq![' ', '}'],
    }
}

/// The `key = value` pairs of an inline table, separated by `, `.
pub open spec fn fields_text(es: Seq<(Seq<char>, InlineValue)>) -> Seq<char>
    decreases es,
{
    if es.len() == 0 {
        Seq::empty()
    } else if es.len() == 1 {
        key_repr(es[0].0) + seq![' ', '=', ' '] + value_text(es[0].1)
    } else {
        key_repr(es[0].0) + seq![' ', '=', ' '] + value_text(es[0].1) + seq![',', ' '] + fields_text(
            es.subrange(1, es.len() as int),
        )
    }
}

/// The texts of the values of an array, separated by `, `.
pub open spec fn items_text(vs: Seq<InlineValue>) -> Seq<char>
    decreases vs,
{
    if vs.len() == 0 {
        Seq::empty()
    } else if vs.len() == 1 {
        value_text(vs[0])
    } else {
        value_text(vs[0]) + seq![',', ' '] + items_text(vs.subrange(1, vs.len() as int))
    }
}

/// The value that the reader gives back for it.
pub open spec fn value_of(v: InlineValue) -> SValue
    decreases v,
{
    match v {
        InlineValue::Str(s) => SValue::String(s),
        InlineValue::Int(n) => SValue::Integer(encode_utf8(decimal_repr(n))),
        InlineValue::Bool(b) => SValue::Boolean(b),
        InlineValue::Arr(vs) => SValue::Array(items_value(vs)),
        InlineValue::Tab(es) => SValue::InlineTable(fields_value(es)),
    }
}

/// The entries that the reader gives back for the pairs of an inline table.
pub open spec fn fields_value(es: Seq<(Seq<char>, InlineValue)>) -> STable
    decreases es,
{
    if es.len() == 0 {
        Seq::empty()
    } else {
        seq![(es[0].0, value_of(es[0].1))] + fields_value(es.subrange(1, es.len() as int))
    }
}

/// The values that the reader gives back for the values of an array.
pub open spec fn items_value(vs: Seq<InlineValue>) -> Seq<SValue>
    decreases vs,
{
    if vs.len() == 0 {
        Seq::empty()
    } else {
        seq![value_of(vs[0])] + items_value(vs.subrange(1, vs.len() as int))
    }
}

/// The value reads back as written: the keys of each inline table in it are distinct.
pub open spec fn value_ok(v: InlineValue) -> bool
    decreases v,
{
    match v {
        InlineValue::Arr(vs) => items_ok(vs),
        InlineValue::Tab(es) => field_keys_distinct(es) && fields_ok(es),
        _ => true,
    }
}

/// All values of an array read back as written.
pub open spec fn items_ok(vs: Seq<InlineValue>) -> bool
    decreases vs,
{
    vs.len() > 0 ==> value_ok(vs[0]) && items_ok(vs.subrange(1, vs.len() as int))
}

/// All values of the pairs of an inline table read back as written.
pub open spec fn fields_ok(es: Seq<(Seq<char>, InlineValue)>) -> bool
    decreases es,
{
    es.len() > 0 ==> value_ok(es[0].1) && fields_ok(es.subrange(1, es.len() as int))
}

/// No two pairs of an inline table have the same key.
pub open spec fn field_keys_distinct(es: Seq<(Seq<char>, InlineValue)>) -> bool {
    forall|i: int, j: int| 0 <= i < j < es.len() ==> es[i].0 != es[j].0
}

/// What may follow a value inside an array or an inline table: nothing, or a `,`, `]` or space
/// that no `:` follows.
pub open spec fn value_end(r: Seq<u8>) -> bool {
    r.len() == 0 || ((r[0] == 0x2c || r[0] == 0x5d || r[0] == 0x20) && (r.len() < 2 || r[1] != 0x3a))
}

/// A string written on one line, then what may follow a value, reads back as the string.
proof fn lemma_string_read(s: Seq<char>, rest: Seq<u8>, st: PState)
    requires
        !s.contains('\n'),
        value_end(rest),
        st.line == encode_utf8(string_repr(s)) + rest,
    ensures
        spec_value(st) == Ok::<(SValue, PState), SpecError>((SValue::String(s), with_line(st, rest))),
{
    lemma_quoted_bytes(s, rest);
    lemma_quoted_not_triple(s, rest);
    lemma_basic_string_roundtrip(s, rest);
    let line = st.line;
    assert(line[0] == 0x22);
    assert(spec_basic_str(line.drop_first()) == Ok::<(Seq<char>, Seq<u8>), SpecError>((s, rest)));
    assert(spec_string(st) == Ok::<(Seq<char>, PState), SpecError>((s, with_line(st, rest))));
}

/// Decimal digits (after an optional sign), then what may follow a value, read as an integer.
proof fn lemma_decimal_rest(sign: Seq<u8>, m: nat, rest: Seq<u8>)
    requires
        sign == Seq::<u8>::empty() || sign == seq![0x2du8],
        value_end(rest),
    ensures
        spec_number_decimal(sign + encode_utf8(digits_repr(m)) + rest)
            == Ok::<(SValue, Seq<u8>), SpecError>((SValue::Integer(sign + encode_utf8(digits_repr(m))), rest)),
{
    let d = encode_utf8(digits_repr(m));
    let line = sign + d + rest;
    let l1 = d + rest;
    lemma_digit_bytes(m);
    if sign.len() > 0 {
        assert(line[0] == 0x2d);
        assert(line.drop_first() =~= l1);
    } else {
        assert(line =~= l1);
    }
    lemma_span_concat(d, rest, ByteClass::Digit);
    assert(span(rest, ByteClass::Digit) == 0);
    assert(l1.skip(d.len() as int) =~= rest);
    assert(l1.take(d.len() as int) =~= d);
    assert(spec_digit_groups(rest, ByteClass::Digit) == Ok::<(Seq<u8>, Seq<u8>), SpecError>((Seq::empty(), rest)));
    assert(d + Seq::<u8>::empty() =~= d);
    assert(spec_digits(l1, ByteClass::Digit) == Ok::<(Seq<u8>, Seq<u8>), SpecError>((d, rest)));
    assert(!has_leading_zero(l1)) by {
        if d.len() == 1 && l1.len() >= 2 {
            assert(l1[1] == rest[0]);
        } else if d.len() > 1 {
            assert(l1[0] == d[0]);
        }
    }
    assert(spec_fraction(rest) == Ok::<(Seq<u8>, Seq<u8>), SpecError>((Seq::empty(), rest)));
    assert(spec_exponent(rest) == Ok::<(Seq<u8>, Seq<u8>), SpecError>((Seq::empty(), rest)));
    assert(sign + d + Seq::<u8>::empty() + Seq::<u8>::empty() =~= sign + d);
}

/// An integer written in decimal, then what may follow a value, reads back as its digits.
proof fn lemma_int_read(n: int, rest: Seq<u8>, st: PState)
    requires
        value_end(rest),
        st.line == encode_utf8(decimal_repr(n)) + rest,
    ensures
        spec_value(st) == Ok::<(SValue, PState), SpecError>(
            (SValue::Integer(encode_utf8(decimal_repr(n))), with_line(st, rest)),
        ),
{
    let line = st.line;
    if n >= 0 {
        let m = n as nat;
        let d = encode_utf8(digits_repr(m));
        lemma_digit_bytes(m);
        lemma_decimal_rest(Seq::empty(), m, rest);
        assert(Seq::<u8>::empty() + d =~= d);
        assert(Seq::<u8>::empty() + d + rest =~= line);
        assert(line[0] == d[0]);
        if line.len() >= 2 && line[0] == 0x30 {
            assert(d.len() == 1);
            assert(line[1] == rest[0]);
        }
        if line.len() >= 3 {
            if d.len() >= 3 {
                assert(line[2] == d[2]);
            } else if d.len() == 2 {
                assert(line[2] == rest[0]);
            } else {
                assert(line[2] == rest[1]);
            }
        }
        if line.len() >= 5 {
            if d.len() >= 5 {
                assert(line[4] == d[4]);
            } else {
                assert(line[d.len() as int] == rest[0]);
            }
        }
        assert(spec_number_or_datetime(line) == spec_number_decimal(line));
    } else {
        let m = (-n) as nat;
        let d = encode_utf8(digits_repr(m));
        lemma_digit_bytes(m);
        lemma_decimal_rest(seq![0x2du8], m, rest);
        lemma_encode_concat(seq!['-'], digits_repr(m));
        lemma_encode_ascii(seq!['-']);
        assert(encode_utf8(seq!['-']) =~= seq![0x2du8]);
        assert(seq![0x2du8] + d + rest =~= line);
        assert(line[1] == d[0]);
    }
}

/// A boolean written as `true` or `false`, then anything, reads back as the boolean.
proof fn lemma_bool_read(b: bool, rest: Seq<u8>, st: PState)
    requires
        st.line == encode_utf8(bool_repr(b)) + rest,
    ensures
        spec_value(st) == Ok::<(SValue, PState), SpecError>((SValue::Boolean(b), with_line(st, rest))),
{
    let vb = encode_utf8(bool_repr(b));
    let line = st.line;
    lemma_bool_bytes(b);
    if b {
        assert(line.take(4) =~= seq![0x74u8, 0x72, 0x75, 0x65]);
        assert(line.skip(4) =~= rest);
    } else {
        assert(!starts_with(line, seq![0x74u8, 0x72, 0x75, 0x65])) by {
            assert(line.take(4)[0] == 0x66);
        }
        assert(line.take(5) =~= seq![0x66u8, 0x61, 0x6c, 0x73, 0x65]);
        assert(line.skip(5) =~= rest);
    }
}

/// A byte that may start a value: no whitespace, no comment, no closing bracket, no line break.
pub open spec fn value_start(b: u8) -> bool {
    !in_class(b, ByteClass::Whitespace) && b != 0x23 && b != 0x5d && b != 0x0a
}

/// The text of a value is not empty and starts with a byte that may start a value.
proof fn lemma_text_first(v: InlineValue)
    ensures
        encode_utf8(value_text(v)).len() > 0,
        value_start(encode_utf8(value_text(v))[0]),
{
    match v {
        InlineValue::Str(s) => {
            if s.contains('\n') {
                lemma_ml_repr_bytes(s);
            } else {
                lemma_quoted_bytes(s, Seq::empty());
                assert(encode_utf8(string_repr(s)) + Seq::<u8>::empty() =~= encode_utf8(string_repr(s)));
            }
        },
        InlineValue::Int(n) => lemma_decimal_first(n),
        InlineValue::Bool(b) => lemma_bool_bytes(b),
        InlineValue::Arr(vs) => lemma_arr_bytes(vs),
        InlineValue::Tab(es) => lemma_tab_bytes(es),
    }
}

/// The bytes of an inline table: `{ `, the bytes of its pairs, ` }`.
proof fn lemma_tab_bytes(es: Seq<(Seq<char>, InlineValue)>)
    ensures
        encode_utf8(value_text(InlineValue::Tab(es))) == seq![0x7bu8, 0x20] + (encode_utf8(fields_text(es)) + seq![
            0x20u8,
            0x7d,
        ]),
{
    let o = seq!['{', ' '];
    let c = seq![' ', '}'];
    let f = fields_text(es);
    lemma_encode_concat(o + f, c);
    lemma_encode_concat(o, f);
    lemma_encode_ascii(o);
    lemma_encode_ascii(c);
    assert(encode_utf8(o) =~= seq![0x7bu8, 0x20]);
    assert(encode_utf8(c) =~= seq![0x20u8, 0x7d]);
    assert(seq![0x7bu8, 0x20] + encode_utf8(f) + seq![0x20u8, 0x7d] =~= seq![0x7bu8, 0x20] + (encode_utf8(f) + seq![
        0x20u8,
        0x7d,
    ]));
}

/// The text of a pair of an inline table.
pub open spec fn field_text(k: Seq<char>, v: InlineValue) -> Seq<char> {
    key_repr(k) + seq![' ', '=', ' '] + value_text(v)
}

/// The bytes of the pairs of an inline table: the first pair's, then `, ` and the others', if
/// any.
proof fn lemma_fields_bytes(es: Seq<(Seq<char>, InlineValue)>)
    requires
        es.len() > 0,
    ensures
        es.len() == 1 ==> encode_utf8(fields_text(es)) == encode_utf8(field_text(es[0].0, es[0].1)),
        es.len() > 1 ==> encode_utf8(fields_text(es)) == encode_utf8(field_text(es[0].0, es[0].1)) + (seq![
            0x2cu8,
            0x20,
        ] + encode_utf8(fields_text(es.subrange(1, es.len() as int)))),
{
    let a = field_text(es[0].0, es[0].1);
    if es.len() == 1 {
        assert(fields_text(es) == a);
    } else {
        let sep = seq![',', ' '];
        let b = fields_text(es.subrange(1, es.len() as int));
        assert(fields_text(es) == a + sep + b);
        lemma_encode_concat(a + sep, b);
        lemma_encode_concat(a, sep);
        lemma_encode_ascii(sep);
        assert(encode_utf8(sep) =~= seq![0x2cu8, 0x20]);
        assert(encode_utf8(a) + seq![0x2cu8, 0x20] + encode_utf8(b)
            =~= encode_utf8(a) + (seq![0x2cu8, 0x20] + encode_utf8(b)));
    }
}

/// The bytes of an array: `[`, the bytes of its values, `]`.
proof fn lemma_arr_bytes(vs: Seq<InlineValue>)
    ensures
        encode_utf8(value_text(InlineValue::Arr(vs))) == seq![0x5bu8] + (encode_utf8(items_text(vs)) + seq![0x5du8]),
{
    let o = seq!['['];
    let c = seq![']'];
    let it = items_text(vs);
    lemma_encode_concat(o + it, c);
    lemma_encode_concat(o, it);
    lemma_encode_ascii(o);
    lemma_encode_ascii(c);
    assert(encode_utf8(o) =~= seq![0x5bu8]);
    assert(encode_utf8(c) =~= seq![0x5du8]);
    assert(seq![0x5bu8] + encode_utf8(it) + seq![0x5du8] =~= seq![0x5bu8] + (encode_utf8(it) + seq![0x5du8]));
}

/// The bytes of the values of an array: the first value's, then `, ` and the others', if any.
proof fn lemma_items_bytes(vs: Seq<InlineValue>)
    requires
        vs.len() > 0,
    ensures
        vs.len() == 1 ==> encode_utf8(items_text(vs)) == encode_utf8(value_text(vs[0])),
        vs.len() > 1 ==> encode_utf8(items_text(vs)) == encode_utf8(value_text(vs[0])) + (seq![0x2cu8, 0x20]
            + encode_utf8(items_text(vs.subrange(1, vs.len() as int)))),
{
    if vs.len() > 1 {
        let a = value_text(vs[0]);
        let sep = seq![',', ' '];
        let b = items_text(vs.subrange(1, vs.len() as int));
        lemma_encode_concat(a + sep, b);
        lemma_encode_concat(a, sep);
        lemma_encode_ascii(sep);
        assert(encode_utf8(sep) =~= seq![0x2cu8, 0x20]);
        assert(encode_utf8(a) + seq![0x2cu8, 0x20] + encode_utf8(b)
            =~= encode_utf8(a) + (seq![0x2cu8, 0x20] + encode_utf8(b)));
    }
}

/// Whitespace, comments and line ends are skipped up to the first byte that may start a value,
/// on the same line.
proof fn lemma_cws_value(st: PState, x: Seq<u8>)
    requires
        skip_ws(st.line) == x,
        x.len() > 0,
        value_start(x[0]) || x[0] == 0x5d || x[0] == 0x2c,
    ensures
        spec_cws(st) == Ok::<PState, SpecError>(with_line(st, x)),
{
    assert(spec_skip_comment(x) == Ok::<Seq<u8>, SpecError>(x));
}

/// One space, then bytes that do not start with whitespace: skipping whitespace leaves those
/// bytes.
proof fn lemma_skip_space(y: Seq<u8>)
    requires
        y.len() > 0,
        !in_class(y[0], ByteClass::Whitespace),
    ensures
        skip_ws(seq![0x20u8] + y) == y,
{
    lemma_span_concat(seq![0x20u8], y, ByteClass::Whitespace);
    assert(span(y, ByteClass::Whitespace) == 0);
    assert((seq![0x20u8] + y).skip(1) =~= y);
}

/// What may follow a value: nothing, a line break, or a `,`, `]` or space that no `:` follows;
/// and no carriage return before the next line break.
pub open spec fn end_ok(r: Seq<u8>) -> bool {
    &&& r.len() == 0 || r[0] == 0x0a || ((r[0] == 0x2c || r[0] == 0x5d || r[0] == 0x20) && (r.len() < 2
        || r[1] != 0x3a))
    &&& forall|i: int| 0 <= i < span(r, ByteClass::NotNewline) ==> #[trigger] r[i] != 0x0d
}

/// What may follow a value may follow it on its line, and after the closing quotes of a
/// multi-line string.
proof fn lemma_end_ok(r: Seq<u8>)
    requires
        end_ok(r),
    ensures
        value_end(first_line(r)),
        tail_ok(r),
{
    crate::de::bytes::lemma_span_props(r, ByteClass::NotNewline);
    let x = first_line(r);
    if x.len() > 0 {
        assert(x[0] == r[0]);
        if x.len() > 1 {
            assert(x[1] == r[1]);
        }
    }
}

/// Bytes without line breaks, after bytes without line breaks, have none.
proof fn lemma_no_breaks_concat(a: Seq<u8>, b: Seq<u8>)
    requires
        no_breaks(a),
        no_breaks(b),
    ensures
        no_breaks(a + b),
{
    assert forall|i: int| 0 <= i < (a + b).len() implies #[trigger] (a + b)[i] != 0x0a && (a + b)[i] != 0x0d by {
        if i < a.len() {
            assert((a + b)[i] == a[i]);
        } else {
            assert((a + b)[i] == b[i - a.len()]);
        }
    }
}

/// Bytes without carriage returns, after bytes without carriage returns, have none.
proof fn lemma_no_cr_concat(a: Seq<u8>, b: Seq<u8>)
    requires
        no_cr(a),
        no_cr(b),
    ensures
        no_cr(a + b),
{
    assert forall|i: int| 0 <= i < (a + b).len() implies #[trigger] (a + b)[i] != 0x0d by {
        if i < a.len() {
            assert((a + b)[i] == a[i]);
        } else {
            assert((a + b)[i] == b[i - a.len()]);
        }
    }
}

/// A string written as a basic string holds no line break or carriage return.
pub proof fn lemma_basic_no_breaks(s: Seq<char>)
    ensures
        no_breaks(encode_utf8(basic_string_repr(s))),
{
    let q = seq!['"'];
    let inner = escape_chars(s, false);
    assert(basic_string_repr(s) =~= q + inner + q);
    lemma_encode_concat(q + inner, q);
    lemma_encode_concat(q, inner);
    lemma_encode_ascii(q);
    lemma_escaped_no_breaks(s);
    let qb = encode_utf8(q);
    assert(qb =~= seq![0x22u8]);
    lemma_no_breaks_concat(qb, encode_utf8(inner));
    lemma_no_breaks_concat(qb + encode_utf8(inner), qb);
}

/// An integer written in decimal holds no line break or carriage return.
proof fn lemma_decimal_no_breaks(n: int)
    ensures
        no_breaks(encode_utf8(decimal_repr(n))),
{
    let m: nat = if n < 0 { (-n) as nat } else { n as nat };
    lemma_digits_ascii(m);
    let d = decimal_repr(n);
    assert(ascii_chars(d)) by {
        assert forall|i: int| 0 <= i < d.len() implies (#[trigger] d[i] as u32) < 0x80 by {
            if n < 0 && i > 0 {
                assert(d[i] == digits_repr(m)[i - 1]);
            }
        }
    }
    lemma_encode_ascii(d);
    assert forall|i: int| 0 <= i < d.len() implies (#[trigger] d[i] as u32) != 0x0a && (d[i] as u32) != 0x0d by {
        if n < 0 && i > 0 {
            assert(d[i] == digits_repr(m)[i - 1]);
        }
    }
}

/// A string, an integer or a boolean that the writer writes on one line holds no line break or
/// carriage return.
proof fn lemma_scalar_no_breaks(v: InlineValue)
    requires
        v is Int || v is Bool || (v matches InlineValue::Str(s) && !s.contains('\n')),
    ensures
        no_breaks(encode_utf8(value_text(v))),
{
    match v {
        InlineValue::Str(s) => lemma_basic_no_breaks(s),
        InlineValue::Int(n) => lemma_decimal_no_breaks(n),
        InlineValue::Bool(b) => {
            lemma_bool_bytes(b);
        },
        _ => {},
    }
}

/// The text of a value holds no carriage return.
pub proof fn lemma_text_no_cr(v: InlineValue)
    ensures
        no_cr(encode_utf8(value_text(v))),
    decreases v, 0int,
{
    match v {
        InlineValue::Str(s) => {
            if s.contains('\n') {
                lemma_ml_repr_bytes(s);
                lemma_body_no_cr(s);
                let b = encode_utf8(string_repr(s));
                assert forall|i: int| 0 <= i < b.len() implies #[trigger] b[i] != 0x0d by {
                    if i >= 4 {
                        assert(b[i] == ml_body(s)[i - 4]);
                    }
                }
            } else {
                lemma_scalar_no_breaks(v);
            }
        },
        InlineValue::Arr(vs) => {
            lemma_arr_bytes(vs);
            lemma_items_no_cr(vs);
            lemma_no_cr_concat(encode_utf8(items_text(vs)), seq![0x5du8]);
            lemma_no_cr_concat(seq![0x5bu8], encode_utf8(items_text(vs)) + seq![0x5du8]);
        },
        InlineValue::Tab(es) => {
            lemma_tab_bytes(es);
            lemma_fields_no_cr(es);
            lemma_no_cr_concat(encode_utf8(fields_text(es)), seq![0x20u8, 0x7d]);
            lemma_no_cr_concat(seq![0x7bu8, 0x20], encode_utf8(fields_text(es)) + seq![0x20u8, 0x7d]);
        },
        _ => lemma_scalar_no_breaks(v),
    }
}

/// The texts of the values of an array hold no carriage return.
proof fn lemma_items_no_cr(vs: Seq<InlineValue>)
    ensures
        no_cr(encode_utf8(items_text(vs))),
    decreases vs, 0int,
{
    if vs.len() == 0 {
        assert(encode_utf8(items_text(vs)) =~= Seq::<u8>::empty());
    } else {
        let tail = vs.subrange(1, vs.len() as int);
        lemma_items_bytes(vs);
        lemma_text_no_cr(vs[0]);
        if vs.len() > 1 {
            lemma_items_no_cr(tail);
            lemma_no_cr_concat(seq![0x2cu8, 0x20], encode_utf8(items_text(tail)));
            lemma_no_cr_concat(encode_utf8(value_text(vs[0])), seq![0x2cu8, 0x20] + encode_utf8(items_text(tail)));
        }
    }
}

/// The text of a pair of an inline table holds no carriage return.
pub proof fn lemma_field_no_cr(k: Seq<char>, v: InlineValue)
    ensures
        no_cr(encode_utf8(field_text(k, v))),
        encode_utf8(field_text(k, v)) == encode_utf8(key_repr(k)) + (seq![0x20u8, 0x3d, 0x20] + encode_utf8(
            value_text(v),
        )),
    decreases v, 1int,
{
    lemma_text_no_cr(v);
    lemma_pair_bytes(k, value_text(v));
    crate::multiline::lemma_key_no_breaks(k);
    let kb = encode_utf8(key_repr(k));
    let vb = encode_utf8(value_text(v));
    assert(no_cr(kb));
    lemma_no_cr_concat(seq![0x20u8, 0x3d, 0x20], vb);
    lemma_no_cr_concat(kb, seq![0x20u8, 0x3d, 0x20] + vb);
}

/// The pairs of an inline table hold no carriage return.
proof fn lemma_fields_no_cr(es: Seq<(Seq<char>, InlineValue)>)
    ensures
        no_cr(encode_utf8(fields_text(es))),
    decreases es, 0int,
{
    if es.len() == 0 {
        assert(encode_utf8(fields_text(es)) =~= Seq::<u8>::empty());
    } else {
        let tail = es.subrange(1, es.len() as int);
        lemma_fields_bytes(es);
        lemma_field_no_cr(es[0].0, es[0].1);
        if es.len() > 1 {
            lemma_fields_no_cr(tail);
            lemma_no_cr_concat(seq![0x2cu8, 0x20], encode_utf8(fields_text(tail)));
            lemma_no_cr_concat(encode_utf8(field_text(es[0].0, es[0].1)), seq![0x2cu8, 0x20] + encode_utf8(
                fields_text(tail),
            ));
        }
    }
}

/// Bytes without carriage returns in front of bytes whose first line has none: the first line
/// has none.
pub proof fn lemma_first_line_cr(x: Seq<u8>, r: Seq<u8>)
    requires
        no_cr(x),
        forall|i: int| 0 <= i < span(r, ByteClass::NotNewline) ==> #[trigger] r[i] != 0x0d,
    ensures
        forall|i: int| 0 <= i < span(x + r, ByteClass::NotNewline) ==> #[trigger] (x + r)[i] != 0x0d,
{
    let w = x + r;
    crate::de::bytes::lemma_span_props(w, ByteClass::NotNewline);
    assert forall|i: int| 0 <= i < span(w, ByteClass::NotNewline) implies #[trigger] w[i] != 0x0d by {
        if i < x.len() {
            assert(w[i] == x[i]);
        } else {
            assert forall|j: int| 0 <= j < x.len() implies in_class(#[trigger] x[j], ByteClass::NotNewline) by {
                assert(w[j] == x[j]);
            }
            lemma_span_concat(x, r, ByteClass::NotNewline);
            assert(w[i] == r[i - x.len()]);
        }
    }
}

/// A state that presents a byte other than a line break, then more: its line starts with that
/// byte, and after it the state presents the rest.
proof fn lemma_presents_drop(st: PState, c: u8, w: Seq<u8>)
    requires
        presents(st, seq![c] + w),
        c != 0x0a,
        c != 0x0d,
    ensures
        st.line.len() > 0,
        st.line[0] == c,
        presents(with_line(st, st.line.drop_first()), w),
{
    lemma_presents_prefix(st, seq![c], w);
    let n = span(w, ByteClass::NotNewline);
    let x = if n < w.len() { w.take(n as int) } else { w };
    assert(st.line.drop_first() =~= x);
}

/// The state that stands at the first line of bytes presents them.
proof fn lemma_presents_state(w: Seq<u8>, n: nat)
    ensures
        presents(PState { line: first_line(w), rest: after_first(w), line_no: n }, w),
{
}

/// What a state that presents bytes holds: all of them but the first line break.
proof fn lemma_presents_size(st: PState, w: Seq<u8>)
    requires
        presents(st, w),
    ensures
        span(w, ByteClass::NotNewline) < w.len() ==> st.line.len() + st.rest.len() + 1 == w.len(),
        span(w, ByteClass::NotNewline) >= w.len() ==> st.line.len() == w.len() && st.rest.len() == 0,
{
    crate::de::bytes::lemma_span_props(w, ByteClass::NotNewline);
}

/// Of two states that present bytes, the one that presents fewer of them (the end of the other's)
/// has a lower measure.
proof fn lemma_measure_less(a: PState, b: PState, p: Seq<u8>, w: Seq<u8>)
    requires
        presents(a, p + w),
        presents(b, w),
        p.len() > 0,
        w.len() > 0,
    ensures
        measure(b) < measure(a),
{
    let all = p + w;
    lemma_presents_size(a, all);
    lemma_presents_size(b, w);
    crate::de::bytes::lemma_span_props(all, ByteClass::NotNewline);
    if forall|j: int| 0 <= j < p.len() ==> in_class(#[trigger] p[j], ByteClass::NotNewline) {
        lemma_span_concat(p, w, ByteClass::NotNewline);
        if span(w, ByteClass::NotNewline) < w.len() {
            assert(a.rest == all.skip(p.len() + span(w, ByteClass::NotNewline) + 1int));
            assert(a.rest =~= w.skip(span(w, ByteClass::NotNewline) + 1int));
        }
    } else {
        let j = choose|j: int| 0 <= j < p.len() && !in_class(#[trigger] p[j], ByteClass::NotNewline);
        assert(all[j] == p[j]);
        assert(span(all, ByteClass::NotNewline) <= j) by {
            if span(all, ByteClass::NotNewline) > j {
                assert(in_class(all[j], ByteClass::NotNewline));
            }
        }
        assert(a.rest.len() > 0);
    }
}

/// A value that the writer wrote, then what may follow a value, reads back as that value; the
/// reader then presents what follows it.
#[verifier::rlimit(60)]
#[verifier::spinoff_prover]
pub proof fn lemma_value_read(v: InlineValue, r: Seq<u8>, st: PState) -> (end: PState)
    requires
        value_ok(v),
        end_ok(r),
        presents(st, encode_utf8(value_text(v)) + r),
    ensures
        presents(end, r),
        spec_value(st) == Ok::<(SValue, PState), SpecError>((value_of(v), end)),
    decreases v, 0int,
{
    lemma_end_ok(r);
    let b = encode_utf8(value_text(v));
    match v {
        InlineValue::Arr(vs) => {
            lemma_arr_bytes(vs);
            let w = encode_utf8(items_text(vs)) + (seq![0x5du8] + r);
            assert(b + r =~= seq![0x5bu8] + w);
            lemma_presents_drop(st, 0x5b, w);
            let s1 = with_line(st, st.line.drop_first());
            if vs.len() > 0 {
                lemma_items_bytes(vs);
                lemma_text_first(vs[0]);
                assert(w[0] == encode_utf8(value_text(vs[0]))[0]);
            } else {
                assert(encode_utf8(items_text(vs)) =~= Seq::<u8>::empty());
                assert(w[0] == 0x5d);
            }
            lemma_presents_first(s1, w);
            assert(span(s1.line, ByteClass::Whitespace) == 0);
            assert(s1.line.skip(0) =~= s1.line);
            assert(with_line(s1, s1.line) == s1);
            lemma_items_read(vs, r, s1)
        },
        InlineValue::Tab(es) => lemma_tab_read(es, r, st),
        InlineValue::Str(s) => {
            if s.contains('\n') {
                lemma_ml_repr_bytes(s);
                lemma_multiline_string_roundtrip(s, r, st);
                let end = PState { line: first_line(r), rest: after_first(r), line_no: st.line_no + 1 + line_breaks(s) };
                lemma_presents_state(r, end.line_no);
                let qb = seq![0x22u8, 0x22, 0x22];
                assert(b + r =~= qb + (seq![0x0au8] + ml_body(s) + r));
                assert(no_breaks(qb));
                lemma_presents_prefix(st, qb, seq![0x0au8] + ml_body(s) + r);
                assert((seq![0x0au8] + ml_body(s) + r)[0] == 0x0a);
                assert(span(seq![0x0au8] + ml_body(s) + r, ByteClass::NotNewline) == 0);
                assert(st.line =~= qb);
                assert(spec_string(st) == Ok::<(Seq<char>, PState), SpecError>((s, end)));
                end
            } else {
                lemma_scalar_no_breaks(v);
                lemma_presents_prefix(st, b, r);
                let x = first_line(r);
                lemma_string_read(s, x, st);
                with_line(st, x)
            }
        },
        InlineValue::Int(n) => {
            lemma_scalar_no_breaks(v);
            lemma_presents_prefix(st, b, r);
            let x = first_line(r);
            lemma_int_read(n, x, st);
            with_line(st, x)
        },
        InlineValue::Bool(bv) => {
            lemma_scalar_no_breaks(v);
            lemma_presents_prefix(st, b, r);
            let x = first_line(r);
            lemma_bool_read(bv, x, st);
            with_line(st, x)
        },
    }
}

/// A state that presents bytes that start with another byte than a line break: its line is not
/// empty and starts with that byte.
proof fn lemma_presents_first(st: PState, w: Seq<u8>)
    requires
        presents(st, w),
        w.len() > 0,
        w[0] != 0x0a,
    ensures
        st.line.len() > 0,
        st.line[0] == w[0],
        st.line == first_line(w),
{
    crate::de::bytes::lemma_span_props(w, ByteClass::NotNewline);
    lemma_presents_parts(st, w);
}

/// The values of an array that the writer wrote, its closing bracket, then what may follow a
/// value, read back as those values, after any whitespace; the reader then presents what
/// follows the array.
#[verifier::rlimit(60)]
#[verifier::spinoff_prover]
pub proof fn lemma_items_read(vs: Seq<InlineValue>, r: Seq<u8>, st: PState) -> (end: PState)
    requires
        items_ok(vs),
        end_ok(r),
        presents(with_line(st, skip_ws(st.line)), encode_utf8(items_text(vs)) + (seq![0x5du8] + r)),
        st.line.len() >= skip_ws(st.line).len(),
    ensures
        presents(end, r),
        spec_array(st) == Ok::<(Seq<SValue>, PState), SpecError>((items_value(vs), end)),
    decreases vs, 0int,
{
    let w = encode_utf8(items_text(vs)) + (seq![0x5du8] + r);
    let x = skip_ws(st.line);
    let s1 = with_line(st, x);
    if vs.len() == 0 {
        assert(encode_utf8(items_text(vs)) =~= Seq::<u8>::empty());
        assert(w =~= seq![0x5du8] + r);
        lemma_presents_drop(s1, 0x5d, r);
        lemma_cws_value(st, x);
        assert(items_value(vs) =~= Seq::<SValue>::empty());
        with_line(s1, x.drop_first())
    } else {
        let v0 = vs[0];
        let tail = vs.subrange(1, vs.len() as int);
        lemma_items_bytes(vs);
        lemma_text_first(v0);
        assert(value_ok(v0) && items_ok(tail));
        let t0 = encode_utf8(value_text(v0));
        let y = encode_utf8(items_text(tail)) + (seq![0x5du8] + r);
        let after = if vs.len() == 1 { seq![0x5du8] + r } else { seq![0x2cu8, 0x20] + y };
        assert(w =~= t0 + after);
        assert(w[0] == t0[0]);
        lemma_presents_first(s1, w);
        lemma_cws_value(st, x);
        // What follows the first value may follow a value
        lemma_items_no_cr(tail);
        if vs.len() == 1 {
            assert(no_cr(seq![0x5du8]));
            lemma_first_line_cr(seq![0x5du8], r);
        } else {
            let mid = seq![0x2cu8, 0x20] + encode_utf8(items_text(tail)) + seq![0x5du8];
            lemma_no_cr_concat(seq![0x2cu8, 0x20], encode_utf8(items_text(tail)));
            lemma_no_cr_concat(seq![0x2cu8, 0x20] + encode_utf8(items_text(tail)), seq![0x5du8]);
            assert(after =~= mid + r);
            lemma_first_line_cr(mid, r);
        }
        assert(end_ok(after));
        let s2 = lemma_value_read(v0, after, s1);
        lemma_presents_first(s2, after);
        assert(span(s2.line, ByteClass::Whitespace) == 0);
        assert(s2.line.skip(0) =~= s2.line);
        lemma_cws_value(s2, s2.line);
        assert(with_line(s2, s2.line) == s2);
        if vs.len() == 1 {
            lemma_presents_drop(s2, 0x5d, r);
            assert(items_value(tail) =~= Seq::<SValue>::empty());
            assert(items_value(vs) =~= seq![value_of(v0)]);
            with_line(s2, s2.line.drop_first())
        } else {
            assert(after =~= seq![0x2cu8] + (seq![0x20u8] + y));
            lemma_presents_drop(s2, 0x2c, seq![0x20u8] + y);
            let s4 = with_line(s2, s2.line.drop_first());
            assert(w =~= (t0 + seq![0x2cu8]) + (seq![0x20u8] + y));
            lemma_measure_less(s1, s4, t0 + seq![0x2cu8], seq![0x20u8] + y);
            assert(measure(s1) <= measure(st));
            lemma_items_bytes(tail);
            assert(items_ok(tail));
            lemma_text_first(tail[0]);
            assert(y[0] == encode_utf8(value_text(tail[0]))[0]);
            lemma_presents_prefix(s4, seq![0x20u8], y);
            let fy = first_line(y);
            lemma_presents_first(with_line(s4, fy), y);
            lemma_skip_space(fy);
            assert(s4.line == seq![0x20u8] + fy);
            let end = lemma_items_read(tail, r, s4);
            end
        }
    }
}

/// An inline table that the writer wrote, then what may follow a value: the reader gives back
/// its pairs, and then presents what follows it.
#[verifier::spinoff_prover]
proof fn lemma_tab_read(es: Seq<(Seq<char>, InlineValue)>, r: Seq<u8>, st: PState) -> (end: PState)
    requires
        field_keys_distinct(es),
        fields_ok(es),
        end_ok(r),
        presents(st, encode_utf8(value_text(InlineValue::Tab(es))) + r),
    ensures
        presents(end, r),
        spec_value(st) == Ok::<(SValue, PState), SpecError>((value_of(InlineValue::Tab(es)), end)),
    decreases es, 1int,
{
    lemma_tab_bytes(es);
    let fb = encode_utf8(fields_text(es));
    let z = fb + (seq![0x20u8, 0x7d] + r);
    assert(encode_utf8(value_text(InlineValue::Tab(es))) + r =~= seq![0x7bu8] + (seq![0x20u8] + z));
    lemma_presents_drop(st, 0x7b, seq![0x20u8] + z);
    let s1 = with_line(st, st.line.drop_first());
    if es.len() == 0 {
        assert(fb =~= Seq::<u8>::empty());
        let q = seq![0x20u8, 0x20, 0x7d];
        assert(seq![0x20u8] + z =~= q + r);
        assert(no_breaks(q));
        lemma_presents_prefix(s1, q, r);
        let x = first_line(r);
        let l = seq![0x7du8] + x;
        assert(s1.line =~= q + x);
        assert(span(s1.line, ByteClass::Whitespace) == 2) by {
            assert(s1.line[0] == 0x20 && s1.line[1] == 0x20 && s1.line[2] == 0x7d);
            crate::de::bytes::lemma_span(s1.line, ByteClass::Whitespace, 2);
        }
        assert(s1.line.skip(2) =~= l);
        assert(l.drop_first() =~= x);
        assert(fields_value(es) =~= Seq::<(Seq<char>, SValue)>::empty());
        with_line(s1, x)
    } else {
        lemma_fields_first(es, seq![0x20u8, 0x7d] + r);
        assert(z[0] != 0x0a);
        lemma_presents_prefix(s1, seq![0x20u8], z);
        let fz = first_line(z);
        let s2 = with_line(s1, fz);
        lemma_presents_first(s2, z);
        lemma_skip_space(fz);
        assert(s1.line == seq![0x20u8] + fz);
        let end = lemma_fields_read(es, Seq::empty(), r, s2);
        assert(Seq::<(Seq<char>, SValue)>::empty() + fields_value(es) =~= fields_value(es));
        end
    }
}

/// After the value of the last pair of an inline table: ` }`, then what follows the table.
proof fn lemma_close_brace(x: Seq<u8>)
    ensures
        skip_ws(seq![0x20u8, 0x7d] + x) == seq![0x7du8] + x,
        (seq![0x7du8] + x).drop_first() == x,
{
    let l = seq![0x7du8] + x;
    lemma_span_concat(seq![0x20u8], l, ByteClass::Whitespace);
    assert(span(l, ByteClass::Whitespace) == 0);
    assert(seq![0x20u8, 0x7d] + x =~= seq![0x20u8] + l);
    assert((seq![0x20u8] + l).skip(1) =~= l);
    assert(l.drop_first() =~= x);
}

/// After the value of a pair that another follows: `, `, then the next pair.
proof fn lemma_comma_next(y: Seq<u8>)
    requires
        y.len() > 0,
        !in_class(y[0], ByteClass::Whitespace),
    ensures
        skip_ws(seq![0x2cu8, 0x20] + y) == seq![0x2cu8, 0x20] + y,
        skip_ws((seq![0x2cu8, 0x20] + y).drop_first()) == y,
{
    let after = seq![0x2cu8, 0x20] + y;
    assert(span(after, ByteClass::Whitespace) == 0);
    assert(after.skip(0) =~= after);
    assert(after.drop_first() =~= seq![0x20u8] + y);
    lemma_span_concat(seq![0x20u8], y, ByteClass::Whitespace);
    assert(span(y, ByteClass::Whitespace) == 0);
    assert((seq![0x20u8] + y).skip(1) =~= y);
}

/// The pairs of an inline table start with the first key's first byte.
proof fn lemma_fields_first(es: Seq<(Seq<char>, InlineValue)>, x: Seq<u8>)
    requires
        es.len() > 0,
    ensures
        (encode_utf8(fields_text(es)) + x).len() > 0,
        !in_class((encode_utf8(fields_text(es)) + x)[0], ByteClass::Whitespace),
        (encode_utf8(fields_text(es)) + x)[0] != 0x0a,
        (encode_utf8(fields_text(es)) + x)[0] != 0x7d,
{
    lemma_fields_bytes(es);
    crate::document::lemma_key_first(es[0].0);
    lemma_pair_bytes(es[0].0, value_text(es[0].1));
    assert((encode_utf8(fields_text(es)) + x)[0] == encode_utf8(key_repr(es[0].0))[0]);
}

/// The pairs of an inline table that the writer wrote, its closing ` }`, then what may follow a
/// value: the reader adds them after the entries before them, whose keys they do not repeat,
/// and then presents what follows the table.
#[verifier::rlimit(60)]
#[verifier::spinoff_prover]
proof fn lemma_fields_read(es: Seq<(Seq<char>, InlineValue)>, acc: STable, r: Seq<u8>, st: PState) -> (end: PState)
    requires
        es.len() > 0,
        field_keys_distinct(es),
        fields_ok(es),
        forall|i: int, j: int| 0 <= i < es.len() && 0 <= j < acc.len() ==> es[i].0 != acc[j].0,
        end_ok(r),
        presents(st, encode_utf8(fields_text(es)) + (seq![0x20u8, 0x7d] + r)),
    ensures
        presents(end, r),
        crate::de::grammar::spec_inline_entries(st, acc) == Ok::<(STable, PState), SpecError>(
            (acc + fields_value(es), end),
        ),
    decreases es, 0int,
{
    let (k, v) = es[0];
    let tail = es.subrange(1, es.len() as int);
    lemma_fields_bytes(es);
    assert(value_ok(v) && fields_ok(tail));
    let fk = encode_utf8(field_text(k, v));
    let y = encode_utf8(fields_text(tail)) + (seq![0x20u8, 0x7d] + r);
    let after = if es.len() == 1 { seq![0x20u8, 0x7d] + r } else { seq![0x2cu8, 0x20] + y };
    assert(encode_utf8(fields_text(es)) + (seq![0x20u8, 0x7d] + r) =~= fk + after);
    lemma_fields_no_cr(tail);
    if es.len() == 1 {
        lemma_first_line_cr(seq![0x20u8, 0x7d], r);
    } else {
        let mid = seq![0x2cu8, 0x20] + encode_utf8(fields_text(tail)) + seq![0x20u8, 0x7d];
        lemma_no_cr_concat(seq![0x2cu8, 0x20], encode_utf8(fields_text(tail)));
        lemma_no_cr_concat(seq![0x2cu8, 0x20] + encode_utf8(fields_text(tail)), seq![0x20u8, 0x7d]);
        assert(after =~= mid + r);
        lemma_first_line_cr(mid, r);
    }
    assert(end_ok(after));
    let s1 = lemma_pair_read(k, v, after, st);
    let val = value_of(v);
    crate::de::table::lemma_key_index(acc, k, 0);
    assert forall|j: int| 0 <= j < acc.len() implies acc[j].0 != k by {
        assert(es[0].0 == k);
    }
    assert(crate::de::table::spec_dotted(acc, Seq::empty(), 0, false, k, val) == Ok::<STable, crate::de::table::TableError>(
        acc.push((k, val)),
    ));
    let acc2 = acc.push((k, val));
    if es.len() == 1 {
        assert(no_breaks(seq![0x20u8, 0x7d]));
        lemma_presents_prefix(s1, seq![0x20u8, 0x7d], r);
        let x = first_line(r);
        lemma_close_brace(x);
        assert(fields_value(tail) =~= Seq::<(Seq<char>, SValue)>::empty());
        assert(acc2 =~= acc + fields_value(es));
        with_line(s1, x)
    } else {
        lemma_fields_first(tail, seq![0x20u8, 0x7d] + r);
        assert(no_breaks(seq![0x2cu8, 0x20]));
        lemma_presents_prefix(s1, seq![0x2cu8, 0x20], y);
        let fy = first_line(y);
        let s2 = with_line(s1, fy);
        lemma_presents_first(s2, y);
        lemma_comma_next(fy);
        assert(encode_utf8(fields_text(es)) + (seq![0x20u8, 0x7d] + r) =~= (fk + seq![0x2cu8, 0x20]) + y);
        lemma_measure_less(st, s2, fk + seq![0x2cu8, 0x20], y);
        assert forall|i: int, j: int| 0 <= i < j < tail.len() implies tail[i].0 != tail[j].0 by {
            assert(tail[i] == es[i + 1] && tail[j] == es[j + 1]);
        }
        assert forall|i: int, j: int| 0 <= i < tail.len() && 0 <= j < acc2.len() implies tail[i].0 != acc2[j].0 by {
            assert(tail[i] == es[i + 1]);
        }
        let end = lemma_fields_read(tail, acc2, r, s2);
        assert(acc2 + fields_value(tail) =~= acc + fields_value(es));
        end
    }
}

/// A key, ` = ` and a value that the writer wrote, then what may follow a value, read back as
/// that key (with no dotted path) and that value; the reader then presents what follows.
#[verifier::spinoff_prover]
pub proof fn lemma_pair_read(k: Seq<char>, v: InlineValue, r: Seq<u8>, st: PState) -> (end: PState)
    requires
        value_ok(v),
        end_ok(r),
        presents(st, encode_utf8(field_text(k, v)) + r),
    ensures
        presents(end, r),
        spec_key_value(st) == Ok::<((SKey, SValue), PState), SpecError>(
            ((SKey { path: Seq::empty(), name: k }, value_of(v)), end),
        ),
    decreases v, 1int,
{
    let kb = encode_utf8(key_repr(k));
    let vb = encode_utf8(value_text(v));
    let mid = seq![0x20u8, 0x3d, 0x20];
    lemma_field_no_cr(k, v);
    crate::multiline::lemma_key_no_breaks(k);
    assert(no_breaks(mid));
    lemma_no_breaks_concat(kb, mid);
    assert(encode_utf8(field_text(k, v)) + r =~= (kb + mid) + (vb + r));
    lemma_presents_prefix(st, kb + mid, vb + r);
    let x = first_line(vb + r);
    lemma_text_first(v);
    assert((vb + r)[0] == vb[0]);
    let s1 = with_line(st, x);
    lemma_presents_first(s1, vb + r);
    assert(st.line =~= kb + (mid + x));
    lemma_pair_key(k, x);
    lemma_value_after_eq(x);
    let end = lemma_value_read(v, r, s1);
    lemma_pair_unfold(st, k, seq![0x3du8, 0x20] + x, value_of(v), end);
    end
}

/// The texts of the values of an array, from the last one: those of the others, `, `, then the
/// last one's.
proof fn lemma_items_back(vs: Seq<InlineValue>)
    requires
        vs.len() > 1,
    ensures
        items_text(vs) == items_text(vs.drop_last()) + seq![',', ' '] + value_text(vs.last()),
    decreases vs.len(),
{
    let tail = vs.subrange(1, vs.len() as int);
    let front = vs.drop_last();
    if vs.len() == 2 {
        assert(front.len() == 1 && front[0] == vs[0]);
        assert(tail.len() == 1 && tail[0] == vs.last());
        assert(items_text(front) == value_text(vs[0]));
        assert(items_text(tail) == value_text(vs.last()));
    } else {
        lemma_items_back(tail);
        assert(front.subrange(1, front.len() as int) =~= tail.drop_last());
        assert(front[0] == vs[0]);
        assert(tail.last() == vs.last());
        assert(items_text(vs) =~= items_text(front) + seq![',', ' '] + value_text(vs.last()));
    }
}

/// A value of the tree is written inline as the text of the value: it is that text already, a
/// table of the tree whose pairs are those of an inline table, or an array of tables of the tree
/// whose tables are those of an array of inline tables.
pub open spec fn tree_inline(v: Value, x: InlineValue) -> bool
    decreases x,
{
    ||| v matches Value::Inline(text) && text@ == value_text(x)
    ||| match x {
        InlineValue::Tab(es) => v matches Value::Table(Table::Table(e)) && tree_fields(e@, es),
        InlineValue::Arr(vs) => v matches Value::Table(Table::Array(a)) && tree_tables(a@, vs),
        _ => false,
    }
}

/// The entries of a table of the tree are the pairs of an inline table, in order.
pub open spec fn tree_fields(e: Seq<(String, Value)>, es: Seq<(Seq<char>, InlineValue)>) -> bool
    decreases es,
{
    &&& e.len() == es.len()
    &&& es.len() == 0 || {
        &&& tree_fields(e.subrange(0, e.len() - 1), es.subrange(0, es.len() - 1))
        &&& e[e.len() - 1].0@ == es[es.len() - 1].0
        &&& tree_inline(e[e.len() - 1].1, es[es.len() - 1].1)
    }
}

/// The tables of an array of tables of the tree are the inline tables of an array, in order.
pub open spec fn tree_tables(a: Seq<Vec<(String, Value)>>, vs: Seq<InlineValue>) -> bool
    decreases vs,
{
    &&& a.len() == vs.len()
    &&& vs.len() == 0 || {
        &&& tree_tables(a.subrange(0, a.len() - 1), vs.subrange(0, vs.len() - 1))
        &&& vs[vs.len() - 1] matches InlineValue::Tab(es) && tree_fields(a[a.len() - 1]@, es)
    }
}

/// The pairs of an inline table, from the last one: those of the others, `, `, then the last
/// one's.
proof fn lemma_fields_back(es: Seq<(Seq<char>, InlineValue)>)
    requires
        es.len() > 1,
    ensures
        fields_text(es) == fields_text(es.drop_last()) + seq![',', ' '] + field_text(es.last().0, es.last().1),
    decreases es.len(),
{
    let tail = es.subrange(1, es.len() as int);
    let front = es.drop_last();
    if es.len() == 2 {
        assert(front.len() == 1 && front[0] == es[0]);
        assert(tail.len() == 1 && tail[0] == es.last());
        assert(fields_text(front) == field_text(es[0].0, es[0].1));
        assert(fields_text(tail) == field_text(es.last().0, es.last().1));
        assert(fields_text(es) =~= fields_text(front) + seq![',', ' '] + field_text(es.last().0, es.last().1));
    } else {
        lemma_fields_back(tail);
        assert(front.subrange(1, front.len() as int) =~= tail.drop_last());
        assert(front[0] == es[0]);
        assert(tail.last() == es.last());
        assert(fields_text(es) =~= fields_text(front) + seq![',', ' '] + field_text(es.last().0, es.last().1));
    }
}

/// A value of the tree that is written inline as the text of a value is written as that text.
pub proof fn lemma_tree_inline(v: Value, x: InlineValue)
    requires
        tree_inline(v, x),
    ensures
        inline_value_repr(v) == value_text(x),
    decreases x,
{
    if !(v matches Value::Inline(text) && text@ == value_text(x)) {
        match x {
            InlineValue::Tab(es) => {
                let e = v->Table_0->Table_0;
                lemma_tree_fields(e@, es);
            },
            InlineValue::Arr(vs) => {
                let a = v->Table_0->Array_0;
                lemma_tree_tables(a@, vs);
            },
            _ => {},
        }
    }
}

/// The entries of a table of the tree that are the pairs of an inline table are written as
/// those pairs.
proof fn lemma_tree_fields(e: Seq<(String, Value)>, es: Seq<(Seq<char>, InlineValue)>)
    requires
        tree_fields(e, es),
    ensures
        inline_entries_repr(e) == fields_text(es),
    decreases es,
{
    if es.len() > 0 {
        let n = es.len() - 1;
        let e1 = e.subrange(0, e.len() - 1);
        let es1 = es.subrange(0, es.len() - 1);
        assert(e.drop_last() == e1 && es.drop_last() == es1);
        assert(e.last() == e[n] && es.last() == es[n]);
        lemma_tree_inline(e[n].1, es[n].1);
        assert(key_repr(e.last().0@) + seq![' ', '=', ' '] + inline_value_repr(e.last().1) == field_text(
            es[n].0,
            es[n].1,
        ));
        if es.len() == 1 {
            assert(fields_text(es) == field_text(es[0].0, es[0].1));
        } else {
            lemma_tree_fields(e1, es1);
            lemma_fields_back(es);
        }
    } else {
        assert(fields_text(es) =~= Seq::<char>::empty());
    }
}

/// The tables of an array of tables of the tree that are the inline tables of an array are
/// written as those inline tables.
proof fn lemma_tree_tables(a: Seq<Vec<(String, Value)>>, vs: Seq<InlineValue>)
    requires
        tree_tables(a, vs),
    ensures
        inline_tables_repr(a) == items_text(vs),
    decreases vs,
{
    if vs.len() > 0 {
        let n = vs.len() - 1;
        let a1 = a.subrange(0, a.len() - 1);
        let v1 = vs.subrange(0, vs.len() - 1);
        assert(a.drop_last() == a1 && vs.drop_last() == v1);
        assert(a.last() == a[n] && vs.last() == vs[n]);
        let es = vs[n]->Tab_0;
        lemma_tree_fields(a[n]@, es);
        assert(seq!['{', ' '] + inline_entries_repr(a.last()@) + seq![' ', '}'] == value_text(vs[n]));
        if vs.len() == 1 {
            assert(items_text(vs) == value_text(vs[0]));
        } else {
            lemma_tree_tables(a1, v1);
            lemma_items_back(vs);
        }
    } else {
        assert(items_text(vs) =~= Seq::<char>::empty());
    }
}

/// Values of the tree written inline as the texts of the given values, separated by `, `, give
/// the texts of the values of an array of them.
proof fn lemma_tree_items(a: Seq<Value>, vs: Seq<InlineValue>)
    requires
        a.len() == vs.len(),
        forall|i: int| 0 <= i < a.len() ==> tree_inline(#[trigger] a[i], vs[i]),
    ensures
        inline_values_repr(a) == items_text(vs),
    decreases a.len(),
{
    if a.len() == 1 {
        lemma_tree_inline(a[0], vs[0]);
    } else if a.len() > 1 {
        let a1 = a.drop_last();
        let v1 = vs.drop_last();
        assert forall|i: int| 0 <= i < a1.len() implies tree_inline(#[trigger] a1[i], v1[i]) by {
            assert(a1[i] == a[i] && v1[i] == vs[i]);
        }
        lemma_tree_items(a1, v1);
        lemma_items_back(vs);
        lemma_tree_inline(a[a.len() - 1], vs[a.len() - 1]);
    }
}

/// The text of the inline array that the tree writer makes of values written inline as the
/// texts of the given values is the text of the array of the given values.
pub proof fn lemma_tree_array_text(a: Seq<Value>, vs: Seq<InlineValue>)
    requires
        a.len() == vs.len(),
        forall|i: int| 0 <= i < a.len() ==> tree_inline(#[trigger] a[i], vs[i]),
    ensures
        seq!['['] + inline_values_repr(a) + seq![']'] == value_text(InlineValue::Arr(vs)),
{
    lemma_tree_items(a, vs);
}

/// The values of bytes, as integers.
pub open spec fn byte_values(b: Seq<u8>) -> Seq<InlineValue> {
    Seq::new(b.len(), |i: int| InlineValue::Int(b[i] as int))
}

/// The opening bracket and the values of bytes, as the writer writes them.
proof fn lemma_byte_items(b: Seq<u8>)
    ensures
        byte_list_repr(b) == seq!['['] + items_text(byte_values(b)),
    decreases b.len(),
{
    let vs = byte_values(b);
    if b.len() == 0 {
        assert(items_text(vs) =~= Seq::<char>::empty());
        assert(byte_list_repr(b) =~= seq!['['] + items_text(vs));
    } else if b.len() == 1 {
        assert(items_text(vs) == value_text(vs[0]));
    } else {
        lemma_byte_items(b.drop_last());
        lemma_items_back(vs);
        assert(vs.drop_last() =~= byte_values(b.drop_last()));
        assert(vs.last() == InlineValue::Int(b.last() as int));
        assert(byte_list_repr(b) =~= seq!['['] + items_text(vs));
    }
}

/// Bytes are written as the inline array of their values.
pub proof fn lemma_bytes_text(b: Seq<u8>)
    ensures
        byte_list_repr(b) + seq![']'] == value_text(InlineValue::Arr(byte_values(b))),
        value_ok(InlineValue::Arr(byte_values(b))),
{
    lemma_byte_items(b);
    lemma_ints_ok(byte_values(b));
}

/// Integers read back as written.
proof fn lemma_ints_ok(vs: Seq<InlineValue>)
    requires
        forall|i: int| 0 <= i < vs.len() ==> (#[trigger] vs[i]) is Int,
    ensures
        items_ok(vs),
    decreases vs.len(),
{
    if vs.len() > 0 {
        let tail = vs.subrange(1, vs.len() as int);
        assert forall|i: int| 0 <= i < tail.len() implies (#[trigger] tail[i]) is Int by {
            assert(tail[i] == vs[i + 1]);
        }
        lemma_ints_ok(tail);
        assert(vs[0] is Int);
        assert(value_ok(vs[0]));
    }
}

} // verus!
