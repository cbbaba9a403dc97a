//! What the reader gives back of the key/value lines that the writer writes for a table of
//! strings, integers, booleans, and arrays and inline tables of them.

use vstd::prelude::*;
use vstd::utf8::*;

use crate::de::bytes::{in_class, span, toml_word, ByteClass};
use crate::de::error::SpecError;
use crate::de::grammar::{
    skip_ws, spec_key_value, spec_line_item, spec_next, spec_parse_line, spec_skip_comment, starts_with, with_line,
    PState, SKey, SLine,
};
use crate::de::reader::strip_cr;
use crate::de::value::{STable, SValue};
use crate::multiline::{lemma_presents_prefix, no_breaks, no_cr, presents};
use crate::roundtrip::{ascii_chars, lemma_encode_ascii, lemma_encode_concat};
use crate::inline::{
    field_text, lemma_field_no_cr, lemma_first_line_cr, lemma_pair_read, value_of, value_ok, value_text, InlineValue,
};
use crate::ser::writer::{
    bare_key_char, basic_string_repr, escape_chars, inline_repr, inlines_repr, is_bare_key,
    key_repr,
};

verus! {

/// The bytes of a key/value line without its line break.
pub open spec fn pair_bytes(k: Seq<char>, v: InlineValue) -> Seq<u8> {
    encode_utf8(key_repr(k) + seq![' ', '=', ' '] + value_text(v))
}

/// Moving to the next line of bytes that the state has ahead of it presents them, if their
/// first line does not end with a carriage return.
pub proof fn lemma_next_presents(st: PState, w: Seq<u8>)
    requires
        st.rest == w,
        w.len() > 0,
        forall|i: int| 0 <= i < span(w, ByteClass::NotNewline) ==> #[trigger] w[i] != 0x0d,
    ensures
        spec_next(st) matches Some(st1) && presents(st1, w) && st1.line_no == st.line_no + 1,
{
    let n = span(w, ByteClass::NotNewline);
    crate::de::bytes::lemma_span_props(w, ByteClass::NotNewline);
    if n < w.len() {
        if n > 0 {
            assert(w.take(n as int).last() == w[n - 1]);
        }
        assert(strip_cr(w.take(n as int)) == w.take(n as int));
    }
}

/// The bytes of a key as the writer writes it start with a bare-key byte or a quote.
pub proof fn lemma_key_first(k: Seq<char>)
    ensures
        encode_utf8(key_repr(k)).len() > 0,
        toml_word(encode_utf8(key_repr(k))[0]) || encode_utf8(key_repr(k))[0] == 0x22,
{
    let kb = encode_utf8(key_repr(k));
    if is_bare_key(k) {
        assert(ascii_chars(k)) by {
            assert forall|i: int| 0 <= i < k.len() implies (#[trigger] k[i] as u32) < 0x80 by {
                assert(bare_key_char(k[i]));
            }
        }
        lemma_encode_ascii(k);
        assert(bare_key_char(k[0]));
    } else {
        let q = seq!['"'];
        assert(basic_string_repr(k) =~= q + (escape_chars(k, false) + q));
        lemma_encode_concat(q, escape_chars(k, false) + q);
        lemma_encode_ascii(q);
        assert(kb[0] == 0x22);
    }
}

/// The bytes of a key/value line: they start with the key's first byte (a bare-key byte or a
/// quote) and hold no carriage return.
pub proof fn lemma_pair_bytes_shape(k: Seq<char>, v: InlineValue)
    ensures
        pair_bytes(k, v).len() > 0,
        toml_word(pair_bytes(k, v)[0]) || pair_bytes(k, v)[0] == 0x22,
        no_cr(pair_bytes(k, v)),
{
    lemma_field_no_cr(k, v);
    lemma_key_first(k);
    let kb = encode_utf8(key_repr(k));
    assert(pair_bytes(k, v) == encode_utf8(field_text(k, v)));
    assert(pair_bytes(k, v)[0] == kb[0]);
}


/// A line that holds a key/value pair and nothing after it.
#[verifier::spinoff_prover]
#[verifier::rlimit(30)]
proof fn lemma_parse_line_pair(st: PState, st1: PState, key: SKey, val: SValue, st2: PState)
    requires
        spec_next(st) == Some(st1),
        st1.line.len() > 0,
        toml_word(st1.line[0]) || st1.line[0] == 0x22,
        skip_ws(st1.line) == st1.line,
        spec_key_value(st1) == Ok::<((SKey, SValue), PState), SpecError>(((key, val), st2)),
        st2.line.len() == 0,
    ensures
        spec_parse_line(st) == Ok::<Option<(SLine, PState)>, SpecError>(Some((SLine::Pair(key, val), st2))),
{
    assert(with_line(st1, st1.line) == st1);
    assert(!starts_with(st1.line, seq![0x5bu8, 0x5b])) by {
        if starts_with(st1.line, seq![0x5bu8, 0x5b]) {
            assert(st1.line.take(2)[0] == st1.line[0]);
        }
    }
    assert(spec_line_item(st1) == Ok::<(SLine, PState), SpecError>((SLine::Pair(key, val), st2)));
    assert(skip_ws(st2.line) =~= Seq::<u8>::empty());
    assert(spec_skip_comment(Seq::<u8>::empty()) == Ok::<Seq<u8>, SpecError>(Seq::empty()));
    assert(st2.line =~= Seq::<u8>::empty());
    assert(with_line(st2, Seq::empty()) == st2);
}

/// A key/value line that the writer wrote, at the start of what is left to read, is read as
/// that pair; the reader then stands at the start of the next line.
pub proof fn lemma_read_pair(k: Seq<char>, v: InlineValue, rest: Seq<u8>, st: PState) -> (st2: PState)
    requires
        value_ok(v),
        st.line.len() == 0,
        st.rest == pair_bytes(k, v) + (seq![0x0au8] + rest),
    ensures
        spec_parse_line(st) == Ok::<Option<(SLine, PState)>, SpecError>(
            Some((SLine::Pair(SKey { path: Seq::empty(), name: k }, value_of(v)), st2)),
        ),
        st2.line.len() == 0,
        st2.rest == rest,
{
    let eb = pair_bytes(k, v);
    let suffix = seq![0x0au8] + rest;
    let w = eb + suffix;
    lemma_pair_bytes_shape(k, v);
    assert(span(suffix, ByteClass::NotNewline) == 0);
    lemma_first_line_cr(eb, suffix);
    lemma_next_presents(st, w);
    let st1 = spec_next(st)->Some_0;
    assert(eb == encode_utf8(field_text(k, v)));
    let st2 = lemma_pair_read(k, v, suffix, st1);
    assert(suffix.take(0) =~= Seq::<u8>::empty());
    assert(suffix.skip(1) =~= rest);
    lemma_first_byte_presents(st1, eb, suffix);
    lemma_parse_line_pair(st, st1, SKey { path: Seq::empty(), name: k }, value_of(v), st2);
    st2
}

/// A whole line with no break in it, then a line break: the state's line is that line.
pub proof fn lemma_presents_line(st: PState, eb: Seq<u8>, rest: Seq<u8>)
    requires
        no_breaks(eb),
        eb.len() > 0,
        !in_class(eb[0], ByteClass::Whitespace),
        presents(st, eb + (seq![0x0au8] + rest)),
    ensures
        st.line == eb,
        st.rest == rest,
        skip_ws(st.line) == st.line,
{
    let suffix = seq![0x0au8] + rest;
    lemma_presents_prefix(st, eb, suffix);
    assert(suffix[0] == 0x0a);
    assert(span(suffix, ByteClass::NotNewline) == 0);
    assert(suffix.take(0) =~= Seq::<u8>::empty());
    assert(st.line =~= eb);
    assert(suffix.skip(1) =~= rest);
    assert(span(eb, ByteClass::Whitespace) == 0);
    assert(eb.skip(0) =~= eb);
}

/// The line of a state that presents bytes starts with their first byte, if that is no line
/// break.
proof fn lemma_first_byte_presents(st: PState, eb: Seq<u8>, suffix: Seq<u8>)
    requires
        eb.len() > 0,
        eb[0] != 0x0a,
        !in_class(eb[0], ByteClass::Whitespace),
        presents(st, eb + suffix),
    ensures
        st.line.len() > 0,
        st.line[0] == eb[0],
        skip_ws(st.line) == st.line,
{
    let w = eb + suffix;
    assert(w[0] == eb[0]);
    assert(span(w, ByteClass::NotNewline) > 0);
    assert(span(st.line, ByteClass::Whitespace) == 0);
    assert(st.line.skip(0) =~= st.line);
}


/// The key and the text of the value of each pair, as the writer writes them.
pub open spec fn pair_texts(p: Seq<(Seq<char>, InlineValue)>) -> Seq<(Seq<char>, Seq<char>)> {
    p.map_values(|e: (Seq<char>, InlineValue)| (e.0, value_text(e.1)))
}

/// The table that the reader gives back for the pairs.
pub open spec fn values_table(p: Seq<(Seq<char>, InlineValue)>) -> STable {
    p.map_values(|e: (Seq<char>, InlineValue)| (e.0, value_of(e.1)))
}

/// No key occurs twice.
pub open spec fn distinct_keys(p: Seq<(Seq<char>, InlineValue)>) -> bool {
    forall|i: int, j: int| 0 <= i < j < p.len() ==> p[i].0 != p[j].0
}

/// Every value reads back as written.
pub open spec fn entries_fit(p: Seq<(Seq<char>, InlineValue)>) -> bool {
    forall|i: int| 0 <= i < p.len() ==> value_ok(#[trigger] p[i].1)
}

/// The lines of key/value pairs, from the first one.
proof fn lemma_inlines_front(s: Seq<(Seq<char>, Seq<char>)>)
    requires
        s.len() > 0,
    ensures
        inlines_repr(s) == inline_repr(s[0].0, s[0].1) + inlines_repr(s.drop_first()),
    decreases s.len(),
{
    if s.len() == 1 {
        assert(s.drop_last() =~= Seq::<(Seq<char>, Seq<char>)>::empty());
        assert(s.drop_first() =~= Seq::<(Seq<char>, Seq<char>)>::empty());
        assert(inlines_repr(s) =~= inline_repr(s[0].0, s[0].1) + inlines_repr(s.drop_first()));
    } else {
        lemma_inlines_front(s.drop_last());
        assert(s.drop_last().drop_first() =~= s.drop_first().drop_last());
        assert(s.drop_first().last() == s.last());
        assert(inlines_repr(s) =~= inline_repr(s[0].0, s[0].1) + inlines_repr(s.drop_first()));
    }
}

/// The bytes of the first line of pairs, and of the lines after it.
pub proof fn lemma_pairs_bytes(p: Seq<(Seq<char>, InlineValue)>)
    requires
        p.len() > 0,
    ensures
        encode_utf8(inlines_repr(pair_texts(p)))
            == pair_bytes(p[0].0, p[0].1) + (seq![0x0au8] + encode_utf8(inlines_repr(pair_texts(p.drop_first())))),
{
    let tx = pair_texts(p);
    lemma_inlines_front(tx);
    assert(tx.drop_first() =~= pair_texts(p.drop_first()));
    let (k, v) = p[0];
    let line = key_repr(k) + seq![' ', '=', ' '] + value_text(v);
    assert(inline_repr(k, value_text(v)) =~= line + seq!['\n']);
    let later = inlines_repr(pair_texts(p.drop_first()));
    lemma_encode_concat(line + seq!['\n'], later);
    lemma_encode_concat(line, seq!['\n']);
    lemma_encode_ascii(seq!['\n']);
    assert(encode_utf8(seq!['\n']) =~= seq![0x0au8]);
    assert(encode_utf8(line) + seq![0x0au8] + encode_utf8(later)
        =~= pair_bytes(k, v) + (seq![0x0au8] + encode_utf8(later)));
}

} // verus!
