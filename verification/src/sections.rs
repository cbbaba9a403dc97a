//! How the reader goes through the lines of a document that the writer wrote: one line at a
//! time, blank lines, the header lines of sections (`[a.b]` and `[[a.b]]`), and the end.

use vstd::prelude::*;
use vstd::utf8::*;

use crate::de::error::SpecError;
use crate::de::bytes::{in_class, span, toml_word, ByteClass};
use crate::de::grammar::{
    measure, skip_ws, spec_apply_line, spec_document, spec_dotted_key, spec_header, spec_key, spec_line_item,
    spec_more_keys, spec_next, spec_parse_line, spec_skip_comment, starts_with, with_line, PState, SKey, SLine,
};
use crate::de::reader::strip_cr;
use crate::multiline::{lemma_key_no_breaks, no_breaks};
use crate::roundtrip::{lemma_encode_ascii, lemma_encode_concat, lemma_key_roundtrip};
use crate::document::{lemma_key_first, lemma_next_presents, lemma_presents_line};
use crate::ser::writer::{header_repr, key_repr, keys_repr};
use crate::de::value::{STable, SValue};

verus! {

/// The value that a header puts under a new name: an empty table, or an array of tables with one
/// empty table.
pub open spec fn new_section(array: bool) -> SValue {
    if array {
        SValue::ArrayOfTables(seq![Seq::empty()])
    } else {
        SValue::Table(Seq::empty())
    }
}

/// What the rest of a document reads as, from a state, given the root table built so far, the
/// path of the table that the last header opened and the key of that header. Proofs that chain
/// lines see only the steps that [`lemma_document_step`] states.
#[verifier::opaque]
pub open spec fn reads_as(st: PState, root: STable, cur: Seq<Seq<char>>, header: SKey) -> Result<STable, SpecError> {
    spec_document(st, root, cur, header)
}

/// What the next line of a document reads as, from a state (hidden from proofs that only chain
/// lines).
#[verifier::opaque]
pub open spec fn next_item(st: PState) -> Result<Option<(SLine, PState)>, SpecError> {
    spec_parse_line(st)
}

/// A line read by [`spec_parse_line`] is the next item.
pub proof fn lemma_next_item(st: PState)
    ensures
        next_item(st) == spec_parse_line(st),
{
    reveal(next_item);
}

/// One line of a document, which a state can go on from: what the document reads as from
/// there, with the line applied.
pub proof fn lemma_document_step(st: PState, root: STable, cur: Seq<Seq<char>>, header: SKey, item: SLine, st2: PState)
    requires
        next_item(st) == Ok::<Option<(SLine, PState)>, SpecError>(Some((item, st2))),
        measure(st2) < measure(st),
        spec_apply_line(root, cur, header, item) is Ok,
    ensures
        ({
            let (root2, cur2, header2) = spec_apply_line(root, cur, header, item)->Ok_0;
            reads_as(st, root, cur, header) == reads_as(st2, root2, cur2, header2)
        }),
{
    reveal(reads_as);
    reveal(next_item);
}

/// A blank line is read as such and changes nothing.
pub proof fn lemma_read_blank(root: STable, cur: Seq<Seq<char>>, header: SKey, later: Seq<u8>, st: PState) -> (st2: PState)
    requires
        st.line.len() == 0,
        st.rest == seq![0x0au8] + later,
    ensures
        st2.line.len() == 0,
        st2.rest == later,
        reads_as(st, root, cur, header) == reads_as(st2, root, cur, header),
{
    let w = st.rest;
    assert(span(w, ByteClass::NotNewline) == 0);
    assert(w.take(0) =~= Seq::<u8>::empty());
    assert(strip_cr(Seq::<u8>::empty()) =~= Seq::<u8>::empty());
    assert(w.skip(1) =~= later);
    let st1 = spec_next(st)->Some_0;
    assert(st1.line =~= Seq::<u8>::empty());
    assert(span(Seq::<u8>::empty(), ByteClass::Whitespace) == 0);
    assert(skip_ws(Seq::<u8>::empty()) =~= Seq::<u8>::empty());
    assert(with_line(st1, Seq::empty()) == st1);
    assert(spec_line_item(st1) == Ok::<(SLine, PState), SpecError>((SLine::Empty, st1)));
    assert(spec_parse_line(st) == Ok::<Option<(SLine, PState)>, SpecError>(Some((SLine::Empty, st1))));
    lemma_next_item(st);
    lemma_document_step(st, root, cur, header, SLine::Empty, st1);
    st1
}

/// The brackets that open a header: `[[` for a table of an array of tables, else `[`.
pub open spec fn open_brackets(array: bool) -> Seq<char> {
    if array {
        seq!['[', '[']
    } else {
        seq!['[']
    }
}

/// The brackets that close a header.
pub open spec fn close_brackets(array: bool) -> Seq<char> {
    if array {
        seq![']', ']']
    } else {
        seq![']']
    }
}

/// Bytes without a line break, then a line break: the next line is those bytes.
proof fn lemma_next_line_is(st: PState, hb: Seq<u8>, later: Seq<u8>)
    requires
        st.rest == hb + (seq![0x0au8] + later),
        no_breaks(hb),
        hb.len() > 0,
        !in_class(hb[0], ByteClass::Whitespace),
    ensures
        spec_next(st) matches Some(st1) && st1.line == hb && st1.rest == later && skip_ws(hb) == hb,
{
    let w = st.rest;
    crate::de::bytes::lemma_span_props(w, ByteClass::NotNewline);
    assert(w[hb.len() as int] == 0x0a);
    assert forall|i: int| 0 <= i < span(w, ByteClass::NotNewline) implies #[trigger] w[i] != 0x0d by {
        if i >= hb.len() {
            assert(in_class(w[hb.len() as int], ByteClass::NotNewline));
        } else {
            assert(w[i] == hb[i]);
        }
    }
    lemma_next_presents(st, w);
    let st1 = spec_next(st)->Some_0;
    lemma_presents_line(st1, hb, later);
}

/// With nothing left to read, the document reads as the root table built so far.
pub proof fn lemma_read_end(st: PState, root: STable, cur: Seq<Seq<char>>, header: SKey)
    requires
        st.rest.len() == 0,
    ensures
        reads_as(st, root, cur, header) == Ok::<STable, SpecError>(root),
{
    reveal(reads_as);
    crate::de::reader::lemma_next_line(st.rest);
}

/// The keys of a path after its first, each after a `.`, as the writer writes them.
pub open spec fn dots_repr(q: Seq<Seq<char>>) -> Seq<char>
    decreases q.len(),
{
    if q.len() == 0 {
        Seq::empty()
    } else {
        seq!['.'] + key_repr(q[0]) + dots_repr(q.drop_first())
    }
}

/// The keys after the first, from the last one.
proof fn lemma_dots_back(q: Seq<Seq<char>>)
    requires
        q.len() > 0,
    ensures
        dots_repr(q) == dots_repr(q.drop_last()) + seq!['.'] + key_repr(q.last()),
    decreases q.len(),
{
    if q.len() == 1 {
        assert(dots_repr(q.drop_first()) =~= Seq::<char>::empty());
        assert(dots_repr(q.drop_last()) =~= Seq::<char>::empty());
        assert(q.last() == q[0]);
        assert(dots_repr(q) =~= dots_repr(q.drop_last()) + seq!['.'] + key_repr(q.last()));
    } else {
        lemma_dots_back(q.drop_first());
        assert(q.drop_first().drop_last() =~= q.drop_last().drop_first());
        assert(q.drop_first().last() == q.last());
        assert(q.drop_last()[0] == q[0]);
        assert(dots_repr(q.drop_last()) == seq!['.'] + key_repr(q[0]) + dots_repr(q.drop_first().drop_last()));
        assert(dots_repr(q) =~= dots_repr(q.drop_last()) + seq!['.'] + key_repr(q.last()));
    }
}

/// The keys of a path as the writer writes them: the first key, then the others after dots.
proof fn lemma_keys_front(p: Seq<Seq<char>>)
    requires
        p.len() > 0,
    ensures
        keys_repr(p) == key_repr(p[0]) + dots_repr(p.drop_first()),
    decreases p.len(),
{
    if p.len() == 1 {
        assert(p.drop_first().len() == 0);
        assert(dots_repr(p.drop_first()) =~= Seq::<char>::empty());
        assert(keys_repr(p) =~= key_repr(p[0]) + dots_repr(p.drop_first()));
    } else {
        lemma_keys_front(p.drop_last());
        lemma_dots_back(p.drop_first());
        assert(p.drop_last().drop_first() =~= p.drop_first().drop_last());
        assert(p.drop_first().last() == p.last());
        assert(p.drop_last()[0] == p[0]);
        assert(keys_repr(p) =~= key_repr(p[0]) + dots_repr(p.drop_first()));
    }
}

/// The bytes of the keys after the first: each a dot, then the key's bytes; none a line break.
proof fn lemma_dots_bytes(q: Seq<Seq<char>>)
    ensures
        q.len() > 0 ==> encode_utf8(dots_repr(q)) == seq![0x2eu8] + (encode_utf8(key_repr(q[0])) + encode_utf8(
            dots_repr(q.drop_first()),
        )),
        no_breaks(encode_utf8(dots_repr(q))),
    decreases q.len(),
{
    if q.len() == 0 {
        assert(encode_utf8(Seq::<char>::empty()) =~= Seq::<u8>::empty());
    } else {
        let d = seq!['.'];
        let k = key_repr(q[0]);
        let r = dots_repr(q.drop_first());
        lemma_encode_concat(d + k, r);
        lemma_encode_concat(d, k);
        lemma_encode_ascii(d);
        assert(encode_utf8(d) =~= seq![0x2eu8]);
        let kb = encode_utf8(k);
        let rb = encode_utf8(r);
        assert(encode_utf8(dots_repr(q)) =~= seq![0x2eu8] + (kb + rb));
        lemma_dots_bytes(q.drop_first());
        lemma_key_no_breaks(q[0]);
        let all = seq![0x2eu8] + (kb + rb);
        assert forall|i: int| 0 <= i < all.len() implies #[trigger] all[i] != 0x0a && all[i] != 0x0d by {
            if 1 <= i < 1 + kb.len() {
                assert(all[i] == kb[i - 1]);
            } else if i >= 1 + kb.len() {
                assert(all[i] == rb[i - 1 - kb.len()]);
            }
        }
    }
}

/// The keys after the first, then `]`: they read back as those keys, and the `]` is left.
#[verifier::spinoff_prover]
proof fn lemma_more_keys(q: Seq<Seq<char>>, rest: Seq<u8>)
    requires
        rest.len() > 0,
        rest[0] == 0x5d,
    ensures
        spec_more_keys(encode_utf8(dots_repr(q)) + rest) == Ok::<(Seq<Seq<char>>, Seq<u8>), SpecError>((q, rest)),
    decreases q.len(),
{
    lemma_dots_bytes(q);
    let l = encode_utf8(dots_repr(q)) + rest;
    if q.len() == 0 {
        assert(encode_utf8(Seq::<char>::empty()) =~= Seq::<u8>::empty());
        assert(l =~= rest);
        assert(q =~= Seq::<Seq<char>>::empty());
    } else {
        let kb = encode_utf8(key_repr(q[0]));
        let x = encode_utf8(dots_repr(q.drop_first())) + rest;
        assert(l =~= seq![0x2eu8] + (kb + x));
        assert(l[0] == 0x2e);
        assert(l.drop_first() =~= kb + x);
        lemma_key_first(q[0]);
        assert((kb + x)[0] == kb[0]);
        assert(span(kb + x, ByteClass::Whitespace) == 0);
        assert((kb + x).skip(0) =~= kb + x);
        lemma_dots_bytes(q.drop_first());
        if q.len() > 1 {
            assert(x[0] == 0x2e);
        } else {
            assert(encode_utf8(dots_repr(q.drop_first())) =~= Seq::<u8>::empty());
            assert(x[0] == 0x5d);
        }
        lemma_key_roundtrip(q[0], x);
        assert(span(x, ByteClass::Whitespace) == 0);
        assert(x.skip(0) =~= x);
        assert(spec_key(skip_ws(l.drop_first())) == Ok::<(Seq<char>, Seq<u8>), SpecError>((q[0], x)));
        assert(skip_ws(x).len() < l.len());
        lemma_more_keys(q.drop_first(), rest);
        assert(seq![q[0]] + q.drop_first() =~= q);
    }
}

/// The keys of a path that the writer wrote, then `]`: the dotted key is that path, and the `]`
/// is left.
pub proof fn lemma_path_key(p: Seq<Seq<char>>, rest: Seq<u8>)
    requires
        p.len() > 0,
        rest.len() > 0,
        rest[0] == 0x5d,
    ensures
        spec_dotted_key(encode_utf8(keys_repr(p)) + rest) == Ok::<(SKey, Seq<u8>), SpecError>(
            (SKey { path: p.drop_last(), name: p.last() }, rest),
        ),
{
    lemma_keys_front(p);
    let k0 = key_repr(p[0]);
    let d = dots_repr(p.drop_first());
    lemma_encode_concat(k0, d);
    lemma_dots_bytes(p.drop_first());
    let x = encode_utf8(d) + rest;
    assert(encode_utf8(keys_repr(p)) + rest =~= encode_utf8(k0) + x);
    if p.len() > 1 {
        assert(x[0] == 0x2e);
    } else {
        assert(encode_utf8(d) =~= Seq::<u8>::empty());
        assert(x[0] == 0x5d);
    }
    lemma_key_roundtrip(p[0], x);
    assert(span(x, ByteClass::Whitespace) == 0);
    assert(x.skip(0) =~= x);
    lemma_more_keys(p.drop_first(), rest);
    assert(seq![p[0]] + p.drop_first() =~= p);
}

/// The bytes of the keys of a path as the writer writes them: not empty, no line break, and
/// starting with the first key's first byte.
proof fn lemma_keys_bytes(p: Seq<Seq<char>>)
    requires
        p.len() > 0,
    ensures
        encode_utf8(keys_repr(p)).len() > 0,
        no_breaks(encode_utf8(keys_repr(p))),
        encode_utf8(keys_repr(p))[0] == encode_utf8(key_repr(p[0]))[0],
{
    lemma_keys_front(p);
    let kb = encode_utf8(key_repr(p[0]));
    let db = encode_utf8(dots_repr(p.drop_first()));
    lemma_encode_concat(key_repr(p[0]), dots_repr(p.drop_first()));
    lemma_key_first(p[0]);
    lemma_key_no_breaks(p[0]);
    lemma_dots_bytes(p.drop_first());
    let all = kb + db;
    assert forall|i: int| 0 <= i < all.len() implies #[trigger] all[i] != 0x0a && all[i] != 0x0d by {
        if i < kb.len() {
            assert(all[i] == kb[i]);
        } else {
            assert(all[i] == db[i - kb.len()]);
        }
    }
    assert(all[0] == kb[0]);
}

/// The bytes of a header line for a path, without the line break: the brackets around the
/// bytes of the path's keys.
proof fn lemma_path_header_bytes(p: Seq<Seq<char>>, array: bool)
    requires
        p.len() > 0,
    ensures
        encode_utf8(header_repr(p, open_brackets(array), close_brackets(array)))
            == encode_utf8(open_brackets(array)) + encode_utf8(keys_repr(p)) + encode_utf8(close_brackets(array))
            + seq![0x0au8],
        encode_utf8(open_brackets(array)) == (if array { seq![0x5bu8, 0x5b] } else { seq![0x5bu8] }),
        encode_utf8(close_brackets(array)) == (if array { seq![0x5du8, 0x5d] } else { seq![0x5du8] }),
{
    let o = open_brackets(array);
    let c = close_brackets(array);
    let k = keys_repr(p);
    let nl = seq!['\n'];
    assert(header_repr(p, o, c) == o + k + c + nl);
    lemma_encode_concat(o + k + c, nl);
    lemma_encode_concat(o + k, c);
    lemma_encode_concat(o, k);
    lemma_encode_ascii(o);
    lemma_encode_ascii(c);
    lemma_encode_ascii(nl);
    assert(encode_utf8(nl) =~= seq![0x0au8]);
    if array {
        assert(encode_utf8(o) =~= seq![0x5bu8, 0x5b]);
        assert(encode_utf8(c) =~= seq![0x5du8, 0x5d]);
    } else {
        assert(encode_utf8(o) =~= seq![0x5bu8]);
        assert(encode_utf8(c) =~= seq![0x5du8]);
    }
}

/// The keys of a path that the writer wrote, then closing brackets: the header's key is that
/// path, and nothing is left.
proof fn lemma_path_header_key(p: Seq<Seq<char>>, array: bool)
    requires
        p.len() > 0,
    ensures
        spec_header(encode_utf8(keys_repr(p)) + encode_utf8(close_brackets(array)), array)
            == Ok::<(SKey, Seq<u8>), SpecError>((SKey { path: p.drop_last(), name: p.last() }, Seq::empty())),
{
    lemma_path_header_bytes(p, array);
    let kb = encode_utf8(keys_repr(p));
    let cb = encode_utf8(close_brackets(array));
    let l = kb + cb;
    lemma_keys_bytes(p);
    lemma_key_first(p[0]);
    assert(l[0] == kb[0]);
    assert(span(l, ByteClass::Whitespace) == 0);
    assert(l.skip(0) =~= l);
    lemma_path_key(p, cb);
    assert(span(cb, ByteClass::Whitespace) == 0);
    assert(cb.skip(0) =~= cb);
    if array {
        assert(cb.take(2) =~= seq![0x5du8, 0x5d]);
        assert(cb.skip(2) =~= Seq::<u8>::empty());
    } else {
        assert(cb.drop_first() =~= Seq::<u8>::empty());
    }
}

/// The bytes that open a header.
pub open spec fn open_bytes(array: bool) -> Seq<u8> {
    if array {
        seq![0x5bu8, 0x5b]
    } else {
        seq![0x5bu8]
    }
}

/// The bytes that close a header.
pub open spec fn close_bytes(array: bool) -> Seq<u8> {
    if array {
        seq![0x5du8, 0x5d]
    } else {
        seq![0x5du8]
    }
}

/// Brackets around bytes with no line break that start with a bare-key byte or a quote: no line
/// break, and the opening brackets are told apart.
proof fn lemma_bracketed(kb: Seq<u8>, array: bool)
    requires
        kb.len() > 0,
        no_breaks(kb),
        toml_word(kb[0]) || kb[0] == 0x22,
    ensures
        ({
            let hb = open_bytes(array) + kb + close_bytes(array);
            &&& no_breaks(hb)
            &&& hb.len() > 0
            &&& hb[0] == 0x5b
            &&& array ==> starts_with(hb, seq![0x5bu8, 0x5b]) && hb.skip(2) == kb + close_bytes(array)
            &&& !array ==> !starts_with(hb, seq![0x5bu8, 0x5b]) && hb.drop_first() == kb + close_bytes(array)
        }),
{
    let ob = open_bytes(array);
    let cb = close_bytes(array);
    let hb = ob + kb + cb;
    assert forall|i: int| 0 <= i < hb.len() implies #[trigger] hb[i] != 0x0a && hb[i] != 0x0d by {
        if i < ob.len() {
            assert(hb[i] == ob[i]);
        } else if i < ob.len() + kb.len() {
            assert(hb[i] == kb[i - ob.len()]);
        } else {
            assert(hb[i] == cb[i - ob.len() - kb.len()]);
        }
    }
    assert(hb[0] == 0x5b);
    if array {
        assert(hb.take(2) =~= seq![0x5bu8, 0x5b]);
        assert(hb.skip(2) =~= kb + cb);
    } else {
        assert(hb[1] == kb[0]);
        assert(!starts_with(hb, seq![0x5bu8, 0x5b])) by {
            if starts_with(hb, seq![0x5bu8, 0x5b]) {
                assert(hb.take(2)[1] == hb[1]);
            }
        }
        assert(hb.drop_first() =~= kb + cb);
    }
}

/// A line of brackets around the bytes of a dotted key, which read as a header's key with
/// nothing left: it is read as that header.
#[verifier::spinoff_prover]
proof fn lemma_read_header_line(kb: Seq<u8>, key: SKey, array: bool, later: Seq<u8>, st: PState) -> (st2: PState)
    requires
        st.line.len() == 0,
        kb.len() > 0,
        no_breaks(kb),
        toml_word(kb[0]) || kb[0] == 0x22,
        spec_header(kb + close_bytes(array), array) == Ok::<(SKey, Seq<u8>), SpecError>((key, Seq::empty())),
        st.rest == open_bytes(array) + kb + close_bytes(array) + (seq![0x0au8] + later),
    ensures
        next_item(st) == Ok::<Option<(SLine, PState)>, SpecError>(Some((SLine::Header(key, array), st2))),
        st2.line.len() == 0,
        st2.rest == later,
        measure(st2) < measure(st),
{
    let hb = open_bytes(array) + kb + close_bytes(array);
    lemma_bracketed(kb, array);
    lemma_next_line_is(st, hb, later);
    let st1 = spec_next(st)->Some_0;
    assert(with_line(st1, hb) == st1);
    let st2 = with_line(st1, Seq::empty());
    assert(spec_line_item(st1) == Ok::<(SLine, PState), SpecError>((SLine::Header(key, array), st2)));
    assert(skip_ws(Seq::<u8>::empty()) =~= Seq::<u8>::empty());
    assert(spec_skip_comment(Seq::<u8>::empty()) == Ok::<Seq<u8>, SpecError>(Seq::empty()));
    assert(with_line(st2, Seq::empty()) == st2);
    lemma_next_item(st);
    st2
}

/// The bytes of a header line that the writer writes for a path: brackets around the bytes of
/// its keys, which read back as the path.
#[verifier::spinoff_prover]
proof fn lemma_path_header_facts(p: Seq<Seq<char>>, array: bool)
    requires
        p.len() > 0,
    ensures
        ({
            let kb = encode_utf8(keys_repr(p));
            &&& kb.len() > 0
            &&& no_breaks(kb)
            &&& toml_word(kb[0]) || kb[0] == 0x22
            &&& spec_header(kb + close_bytes(array), array) == Ok::<(SKey, Seq<u8>), SpecError>(
                (SKey { path: p.drop_last(), name: p.last() }, Seq::empty()),
            )
            &&& encode_utf8(header_repr(p, open_brackets(array), close_brackets(array))) == open_bytes(array) + kb
                + close_bytes(array) + seq![0x0au8]
        }),
{
    lemma_path_header_bytes(p, array);
    lemma_path_header_key(p, array);
    lemma_keys_bytes(p);
    lemma_key_first(p[0]);
}

/// A header line that the writer wrote for a path is read as that header.
pub proof fn lemma_read_path_header(p: Seq<Seq<char>>, array: bool, later: Seq<u8>, st: PState) -> (st2: PState)
    requires
        p.len() > 0,
        st.line.len() == 0,
        st.rest == encode_utf8(header_repr(p, open_brackets(array), close_brackets(array))) + later,
    ensures
        next_item(st) == Ok::<Option<(SLine, PState)>, SpecError>(
            Some((SLine::Header(SKey { path: p.drop_last(), name: p.last() }, array), st2)),
        ),
        st2.line.len() == 0,
        st2.rest == later,
        measure(st2) < measure(st),
{
    lemma_path_header_facts(p, array);
    let kb = encode_utf8(keys_repr(p));
    let ob = open_bytes(array);
    let cb = close_bytes(array);
    assert(ob + kb + cb + seq![0x0au8] + later =~= ob + kb + cb + (seq![0x0au8] + later));
    lemma_read_header_line(kb, SKey { path: p.drop_last(), name: p.last() }, array, later, st)
}

} // verus!
