//! What the reader gives back of a whole document that the writer wrote: tables inside tables
//! and arrays of tables, to any depth.

use vstd::prelude::*;
use vstd::utf8::*;

use crate::de::error::SpecError;
use crate::de::grammar::{measure, root_key, spec_apply_line, spec_parse, PState, SKey, SLine};
use crate::de::table::{find, lemma_key_index, SAction};
use crate::de::value::{STable, SValue};
use crate::document::{
    distinct_keys, entries_fit, lemma_pair_bytes_shape, lemma_pairs_bytes, lemma_read_pair, pair_bytes,
    pair_texts, values_table,
};
use crate::inline::{value_of, value_ok, value_text, InlineValue};
use crate::ser::tree::{Table, Value};
use crate::nesting::{
    inner, lemma_found_ok, lemma_nav_upd, lemma_one_found, lemma_one_new, lemma_path_push, lemma_subtable_at,
    lemma_upd_same, lemma_upd_upd, nav, passable, path_found, path_ok, upd, with_inner,
};
use crate::sections::{
    close_brackets, lemma_document_step, lemma_next_item, lemma_read_blank, lemma_read_end, lemma_read_path_header, new_section,
    open_brackets, reads_as,
};
use crate::ser::writer::{
    array_element_repr, array_of_tables_repr, header_repr, inlines_repr, spec_inlines, spec_subtables, subtable_repr,
    subtables_repr, table_repr,
};
use crate::roundtrip::{lemma_encode_ascii, lemma_encode_concat};

verus! {

/// A key/value pair whose key is new in the table that the last header opened goes at its end.
pub proof fn lemma_apply_pair_in(root: STable, cur: Seq<Seq<char>>, header: SKey, k: Seq<char>, val: SValue)
    requires
        path_found(root, cur, 0),
        forall|j: int| 0 <= j < nav(root, cur, 0).len() ==> #[trigger] nav(root, cur, 0)[j].0 != k,
    ensures
        spec_apply_line(root, cur, header, SLine::Pair(SKey { path: Seq::empty(), name: k }, val))
            == Ok::<(STable, Seq<Seq<char>>, SKey), SpecError>(
            (upd(root, cur, 0, nav(root, cur, 0).push((k, val))), cur, header),
        ),
{
    let f = nav(root, cur, 0);
    lemma_key_index(f, k, 0);
    lemma_found_ok(root, cur, 0);
    lemma_subtable_at(root, cur, 0, SAction::Entry(Seq::empty(), k, val));
}

/// A header for a name that the table it is under does not hold adds a new section at the end of
/// that table, which later key/value lines go into.
pub proof fn lemma_apply_header_in(
    root: STable,
    cur: Seq<Seq<char>>,
    header: SKey,
    path: Seq<Seq<char>>,
    k: Seq<char>,
    array: bool,
)
    requires
        path_ok(root, path, 0),
        forall|j: int| 0 <= j < nav(root, path, 0).len() ==> #[trigger] nav(root, path, 0)[j].0 != k,
    ensures
        spec_apply_line(root, cur, header, SLine::Header(SKey { path, name: k }, array))
            == Ok::<(STable, Seq<Seq<char>>, SKey), SpecError>(
            (upd(root, path, 0, nav(root, path, 0).push((k, new_section(array)))), path.push(k), SKey { path, name: k }),
        ),
{
    let f = nav(root, path, 0);
    lemma_key_index(f, k, 0);
    let action = if array { SAction::ArrayOfTables(k) } else { SAction::Table(k) };
    lemma_subtable_at(root, path, 0, action);
}

/// A `[[...]]` header after the last table of the array of tables at the end of the table it is
/// under, named by a key that nothing before it there has, appends an empty table to that array.
pub proof fn lemma_apply_header_more_in(
    root: STable,
    cur: Seq<Seq<char>>,
    header: SKey,
    path: Seq<Seq<char>>,
    k: Seq<char>,
    a: Seq<STable>,
)
    requires
        path_ok(root, path, 0),
        nav(root, path, 0).len() > 0,
        nav(root, path, 0).last() == (k, SValue::ArrayOfTables(a)),
        forall|j: int| 0 <= j < nav(root, path, 0).len() - 1 ==> #[trigger] nav(root, path, 0)[j].0 != k,
    ensures
        spec_apply_line(root, cur, header, SLine::Header(SKey { path, name: k }, true))
            == Ok::<(STable, Seq<Seq<char>>, SKey), SpecError>(
            (
                upd(
                    root,
                    path,
                    0,
                    nav(root, path, 0).update(
                        nav(root, path, 0).len() - 1,
                        (k, SValue::ArrayOfTables(a.push(Seq::empty()))),
                    ),
                ),
                path.push(k),
                SKey { path, name: k },
            ),
        ),
{
    let f = nav(root, path, 0);
    lemma_key_index(f, k, 0);
    assert(find(f, k) == f.len() - 1);
    lemma_subtable_at(root, path, 0, SAction::ArrayOfTables(k));
}

/// The first of key/value lines that the writer wrote, with a key that the table that the last
/// header opened does not hold, is read into that table.
#[verifier::spinoff_prover]
proof fn lemma_read_first_pair_in(
    k: Seq<char>,
    v: InlineValue,
    root: STable,
    cur: Seq<Seq<char>>,
    header: SKey,
    tail: Seq<u8>,
    st: PState,
) -> (st1: PState)
    requires
        value_ok(v),
        path_found(root, cur, 0),
        forall|j: int| 0 <= j < nav(root, cur, 0).len() ==> #[trigger] nav(root, cur, 0)[j].0 != k,
        st.line.len() == 0,
        st.rest == pair_bytes(k, v) + (seq![0x0au8] + tail),
    ensures
        st1.line.len() == 0,
        st1.rest == tail,
        reads_as(st, root, cur, header)
            == reads_as(st1, upd(root, cur, 0, nav(root, cur, 0).push((k, value_of(v)))), cur, header),
{
    let st1 = lemma_read_pair(k, v, tail, st);
    lemma_next_item(st);
    lemma_pair_bytes_shape(k, v);
    assert(measure(st1) < measure(st));
    let val = value_of(v);
    lemma_apply_pair_in(root, cur, header, k, val);
    lemma_document_step(st, root, cur, header, SLine::Pair(SKey { path: Seq::empty(), name: k }, val), st1);
    st1
}

/// Key/value lines that the writer wrote, with keys that occur nowhere else in the table that
/// the last header opened, are read into that table after what it holds.
#[verifier::spinoff_prover]
pub proof fn lemma_read_pairs_in(
    p: Seq<(Seq<char>, InlineValue)>,
    root: STable,
    cur: Seq<Seq<char>>,
    header: SKey,
    later: Seq<u8>,
    st: PState,
) -> (st2: PState)
    requires
        distinct_keys(p),
        entries_fit(p),
        path_found(root, cur, 0),
        forall|i: int, j: int| 0 <= i < p.len() && 0 <= j < nav(root, cur, 0).len() ==> p[i].0 != nav(root, cur, 0)[j].0,
        st.line.len() == 0,
        st.rest == encode_utf8(inlines_repr(pair_texts(p))) + later,
    ensures
        st2.line.len() == 0,
        st2.rest == later,
        reads_as(st, root, cur, header) == reads_as(st2, upd(root, cur, 0, nav(root, cur, 0) + values_table(p)), cur, header),
    decreases p.len(),
{
    let f = nav(root, cur, 0);
    if p.len() == 0 {
        assert(pair_texts(p) =~= Seq::<(Seq<char>, Seq<char>)>::empty());
        assert(encode_utf8(Seq::<char>::empty()) =~= Seq::<u8>::empty());
        assert(st.rest =~= later);
        assert(f + values_table(p) =~= f);
        lemma_upd_same(root, cur, 0);
        st
    } else {
        let (k, v) = p[0];
        let q = p.drop_first();
        assert(value_ok(p[0].1));
        let tail = encode_utf8(inlines_repr(pair_texts(q))) + later;
        lemma_pairs_bytes(p);
        assert(st.rest =~= pair_bytes(k, v) + (seq![0x0au8] + tail));
        assert forall|j: int| 0 <= j < f.len() implies #[trigger] f[j].0 != k by {
            assert(p[0].0 == k);
        }
        let st1 = lemma_read_first_pair_in(k, v, root, cur, header, tail, st);
        let f2 = f.push((k, value_of(v)));
        let root2 = upd(root, cur, 0, f2);
        lemma_found_ok(root, cur, 0);
        lemma_nav_upd(root, cur, 0, f2);
        lemma_upd_upd(root, cur, 0, f2, f2 + values_table(q));
        assert forall|i: int, j: int| 0 <= i < q.len() && 0 <= j < f2.len() implies q[i].0 != f2[j].0 by {
            assert(q[i] == p[i + 1]);
            if j == f.len() {
                assert(p[0].0 != p[i + 1].0);
            }
        }
        assert forall|i: int, j: int| 0 <= i < j < q.len() implies q[i].0 != q[j].0 by {
            assert(q[i] == p[i + 1] && q[j] == p[j + 1]);
        }
        assert forall|i: int| 0 <= i < q.len() implies value_ok(#[trigger] q[i].1) by {
            assert(q[i] == p[i + 1]);
        }
        let st2 = lemma_read_pairs_in(q, root2, cur, header, later, st1);
        assert(f2 + values_table(q) =~= f + values_table(p));
        st2
    }
}

/// A value of a table that the writer writes as a document: a value written inline, a table, or
/// an array of tables.
pub enum Node {
    Val(InlineValue),
    Tab(Seq<(Seq<char>, Node)>),
    Arr(Seq<Seq<(Seq<char>, Node)>>),
}

/// The entries that are values written inline, in order.
pub open spec fn vals(es: Seq<(Seq<char>, Node)>) -> Seq<(Seq<char>, InlineValue)>
    decreases es.len(),
{
    if es.len() == 0 {
        Seq::empty()
    } else {
        match es.last().1 {
            Node::Val(v) => vals(es.drop_last()).push((es.last().0, v)),
            _ => vals(es.drop_last()),
        }
    }
}

/// Some entry is a table or an array of tables.
pub open spec fn has_subs(es: Seq<(Seq<char>, Node)>) -> bool {
    exists|i: int| 0 <= i < es.len() && !(#[trigger] es[i].1 is Val)
}

/// No two entries have the same key.
pub open spec fn distinct_names(es: Seq<(Seq<char>, Node)>) -> bool {
    forall|i: int, j: int| 0 <= i < j < es.len() ==> es[i].0 != es[j].0
}

/// The value that the reader gives back for a value of the table: a table that holds no value
/// but subtables was written without a header, and reads back as a table created by the headers
/// of its subtables.
pub open spec fn read_node(n: Node) -> SValue
    decreases n,
{
    match n {
        Node::Val(v) => value_of(v),
        Node::Tab(es) => if vals(es).len() == 0 && has_subs(es) {
            SValue::UndefinedTable(values_table(vals(es)) + read_subs(es))
        } else {
            SValue::Table(values_table(vals(es)) + read_subs(es))
        },
        Node::Arr(ts) => SValue::ArrayOfTables(read_tables(ts)),
    }
}

/// The entries that the reader gives back for the entries that are tables or arrays of tables,
/// in order.
pub open spec fn read_subs(es: Seq<(Seq<char>, Node)>) -> STable
    decreases es,
{
    if es.len() == 0 {
        Seq::empty()
    } else {
        let rest = read_subs(es.subrange(0, es.len() - 1));
        match es[es.len() - 1].1 {
            Node::Val(_) => rest,
            _ => rest.push((es[es.len() - 1].0, read_node(es[es.len() - 1].1))),
        }
    }
}

/// The tables that the reader gives back for the tables of an array of tables.
pub open spec fn read_tables(ts: Seq<Seq<(Seq<char>, Node)>>) -> Seq<STable>
    decreases ts,
{
    if ts.len() == 0 {
        Seq::empty()
    } else {
        let t = ts[ts.len() - 1];
        read_tables(ts.subrange(0, ts.len() - 1)).push(values_table(vals(t)) + read_subs(t))
    }
}

/// The table that the reader gives back for entries: their values first, then their tables and
/// arrays of tables.
pub open spec fn read_entries(es: Seq<(Seq<char>, Node)>) -> STable {
    values_table(vals(es)) + read_subs(es)
}

/// The value can be read back: a value that fits an entry, a table whose entries can, or an
/// array of one table or more that can.
pub open spec fn node_ok(n: Node) -> bool
    decreases n,
{
    match n {
        Node::Val(v) => value_ok(v),
        Node::Tab(es) => distinct_names(es) && all_ok(es),
        Node::Arr(ts) => ts.len() > 0 && tables_ok(ts),
    }
}

/// Every value of the entries can be read back.
pub open spec fn all_ok(es: Seq<(Seq<char>, Node)>) -> bool
    decreases es,
{
    es.len() == 0 || (all_ok(es.subrange(0, es.len() - 1)) && node_ok(es[es.len() - 1].1))
}

/// Every table of an array of tables can be read back.
pub open spec fn tables_ok(ts: Seq<Seq<(Seq<char>, Node)>>) -> bool
    decreases ts,
{
    ts.len() == 0 || (tables_ok(ts.subrange(0, ts.len() - 1)) && distinct_names(ts[ts.len() - 1]) && all_ok(
        ts[ts.len() - 1],
    ))
}

/// The entries of a table of the tree hold the entries, in order.
pub open spec fn entries_written(t: Seq<(String, Value)>, es: Seq<(Seq<char>, Node)>) -> bool
    decreases es,
{
    &&& t.len() == es.len()
    &&& es.len() == 0 || {
        &&& entries_written(t.subrange(0, t.len() - 1), es.subrange(0, es.len() - 1))
        &&& t[t.len() - 1].0@ == es[es.len() - 1].0
        &&& node_written(t[t.len() - 1].1, es[es.len() - 1].1)
    }
}

/// A value of the tree holds the value: its text, a table, or an array of tables.
pub open spec fn node_written(v: Value, n: Node) -> bool
    decreases n,
{
    match n {
        Node::Val(x) => v matches Value::Inline(text) && text@ == value_text(x),
        Node::Tab(es) => v matches Value::Table(Table::Table(e)) && entries_written(e@, es),
        Node::Arr(ts) => v matches Value::Table(Table::Array(a)) && tables_written(a@, ts),
    }
}

/// The tables of an array of tables of the tree hold the tables, in order.
pub open spec fn tables_written(a: Seq<Vec<(String, Value)>>, ts: Seq<Seq<(Seq<char>, Node)>>) -> bool
    decreases ts,
{
    &&& a.len() == ts.len()
    &&& ts.len() == 0 || {
        &&& tables_written(a.subrange(0, a.len() - 1), ts.subrange(0, ts.len() - 1))
        &&& entries_written(a[a.len() - 1]@, ts[ts.len() - 1])
    }
}

/// Every value of entries that can be read back can be.
pub proof fn lemma_all_ok(es: Seq<(Seq<char>, Node)>)
    requires
        all_ok(es),
    ensures
        forall|j: int| 0 <= j < es.len() ==> node_ok(#[trigger] es[j].1),
    decreases es.len(),
{
    if es.len() > 0 {
        let e1 = es.subrange(0, es.len() - 1);
        lemma_all_ok(e1);
        assert forall|j: int| 0 <= j < es.len() implies node_ok(#[trigger] es[j].1) by {
            if j < es.len() - 1 {
                assert(es[j] == e1[j]);
            }
        }
    }
}

/// Every table of an array of tables that can be read back can be.
pub proof fn lemma_tables_ok(ts: Seq<Seq<(Seq<char>, Node)>>)
    requires
        tables_ok(ts),
    ensures
        forall|j: int| 0 <= j < ts.len() ==> distinct_names(#[trigger] ts[j]) && all_ok(ts[j]),
    decreases ts.len(),
{
    if ts.len() > 0 {
        let t1 = ts.subrange(0, ts.len() - 1);
        lemma_tables_ok(t1);
        assert forall|j: int| 0 <= j < ts.len() implies distinct_names(#[trigger] ts[j]) && all_ok(ts[j]) by {
            if j < ts.len() - 1 {
                assert(ts[j] == t1[j]);
            }
        }
    }
}

/// Each value of the entries comes from an entry that is that value under that key; each entry
/// that the reader gives back for a table or array of tables comes from an entry that is one,
/// under that key.
pub proof fn lemma_filter_keys(es: Seq<(Seq<char>, Node)>)
    ensures
        forall|m: int| 0 <= m < vals(es).len() ==> exists|j: int| 0 <= j < es.len() && es[j].0 == (#[trigger] vals(es)[m]).0
            && es[j].1 == Node::Val(vals(es)[m].1),
        forall|m: int| 0 <= m < read_subs(es).len() ==> exists|j: int| 0 <= j < es.len() && es[j].0 == (
            #[trigger] read_subs(es)[m]).0 && !(es[j].1 is Val),
    decreases es.len(),
{
    if es.len() > 0 {
        let e1 = es.subrange(0, es.len() - 1);
        let n = es.len() - 1;
        lemma_filter_keys(e1);
        assert(es.drop_last() == e1);
        assert(es.last() == es[n]);
        assert forall|m: int| 0 <= m < vals(es).len() implies exists|j: int| 0 <= j < es.len() && es[j].0 == (
            #[trigger] vals(es)[m]).0 && es[j].1 == Node::Val(vals(es)[m].1) by {
            if m < vals(e1).len() {
                assert(vals(es)[m] == vals(e1)[m]);
                let j = choose|j: int| 0 <= j < e1.len() && e1[j].0 == vals(e1)[m].0 && e1[j].1 == Node::Val(vals(e1)[m].1);
                assert(es[j] == e1[j]);
            } else {
                assert(es[n].0 == vals(es)[m].0);
            }
        }
        assert forall|m: int| 0 <= m < read_subs(es).len() implies exists|j: int| 0 <= j < es.len() && es[j].0 == (
            #[trigger] read_subs(es)[m]).0 && !(es[j].1 is Val) by {
            if m < read_subs(e1).len() {
                assert(read_subs(es)[m] == read_subs(e1)[m]);
                let j = choose|j: int| 0 <= j < e1.len() && e1[j].0 == read_subs(e1)[m].0 && !(e1[j].1 is Val);
                assert(es[j] == e1[j]);
            } else {
                assert(es[n].0 == read_subs(es)[m].0);
            }
        }
    }
}

/// The values of entries with distinct keys that can be read back have distinct keys and fit an
/// entry.
pub proof fn lemma_vals_ok(es: Seq<(Seq<char>, Node)>)
    requires
        distinct_names(es),
        all_ok(es),
    ensures
        distinct_keys(vals(es)),
        entries_fit(vals(es)),
{
    lemma_filter_keys(es);
    lemma_all_ok(es);
    let v = vals(es);
    assert forall|i: int| 0 <= i < v.len() implies value_ok(#[trigger] v[i].1) by {
        let j = choose|j: int| 0 <= j < es.len() && es[j].0 == v[i].0 && es[j].1 == Node::Val(v[i].1);
        assert(node_ok(es[j].1));
    }
    assert forall|a: int, b: int| 0 <= a < b < v.len() implies v[a].0 != v[b].0 by {
        lemma_vals_order(es, a, b);
    }
}

/// Two values of entries come from two different entries.
proof fn lemma_vals_order(es: Seq<(Seq<char>, Node)>, a: int, b: int)
    requires
        0 <= a < b < vals(es).len(),
        distinct_names(es),
    ensures
        vals(es)[a].0 != vals(es)[b].0,
    decreases es.len(),
{
    let e1 = es.subrange(0, es.len() - 1);
    let n = es.len() - 1;
    assert(es.drop_last() == e1);
    assert(es.last() == es[n]);
    assert forall|i: int, j: int| 0 <= i < j < e1.len() implies e1[i].0 != e1[j].0 by {
        assert(e1[i] == es[i] && e1[j] == es[j]);
    }
    if b < vals(e1).len() {
        assert(vals(es)[a] == vals(e1)[a] && vals(es)[b] == vals(e1)[b]);
        lemma_vals_order(e1, a, b);
    } else {
        lemma_filter_keys(e1);
        assert(vals(es)[a] == vals(e1)[a]);
        let j = choose|j: int| 0 <= j < e1.len() && e1[j].0 == vals(e1)[a].0 && e1[j].1 == Node::Val(vals(e1)[a].1);
        assert(es[j] == e1[j]);
        assert(vals(es)[b].0 == es[n].0);
    }
}

/// The key/value lines of a table of the tree are those of its values, and it has subtables
/// exactly when the entries have tables or arrays of tables (else the reader gives back none).
pub proof fn lemma_tree_entries(t: Seq<(String, Value)>, es: Seq<(Seq<char>, Node)>)
    requires
        entries_written(t, es),
    ensures
        spec_inlines(t) == pair_texts(vals(es)),
        spec_subtables(t).len() > 0 <==> has_subs(es),
        !has_subs(es) ==> read_subs(es) == Seq::<(Seq<char>, SValue)>::empty(),
    decreases es.len(),
{
    if es.len() == 0 {
        assert(pair_texts(vals(es)) =~= Seq::<(Seq<char>, Seq<char>)>::empty());
    } else {
        let t1 = t.subrange(0, t.len() - 1);
        let e1 = es.subrange(0, es.len() - 1);
        let n = es.len() - 1;
        lemma_tree_entries(t1, e1);
        assert(t.drop_last() == t1 && es.drop_last() == e1);
        assert(t.last() == t[n] && es.last() == es[n]);
        assert(t[n].0@ == es[n].0 && node_written(t[n].1, es[n].1));
        if has_subs(e1) {
            let i = choose|i: int| 0 <= i < e1.len() && !(#[trigger] e1[i].1 is Val);
            assert(es[i] == e1[i]);
        }
        match es[n].1 {
            Node::Val(v) => {
                if has_subs(es) {
                    let i = choose|i: int| 0 <= i < es.len() && !(#[trigger] es[i].1 is Val);
                    assert(e1[i] == es[i]);
                }
                let text = t[n].1->Inline_0;
                assert(spec_inlines(t) == spec_inlines(t1).push((t[n].0@, text@)));
                assert(spec_subtables(t) == spec_subtables(t1));
                assert(pair_texts(vals(es)) =~= pair_texts(vals(e1)).push((es[n].0, value_text(v))));
            },
            _ => {
                assert(has_subs(es));
                let tb = t[n].1->Table_0;
                assert(spec_inlines(t) == spec_inlines(t1));
                assert(spec_subtables(t) == spec_subtables(t1).push((t[n].0@, tb)));
            },
        }
    }
}

/// After the table that a path leads to is replaced by one that holds `(k, v)` at index `i` (and
/// `k` nowhere before), the path one key longer exists, leads inside `v`, and replacing what it
/// leads to replaces what is inside `v`.
pub proof fn lemma_compose_at(root: STable, path: Seq<Seq<char>>, k: Seq<char>, m: STable, i: int, v: SValue, x: STable)
    requires
        path_ok(root, path, 0),
        0 <= i < m.len(),
        m[i] == (k, v),
        forall|j: int| 0 <= j < i ==> #[trigger] m[j].0 != k,
        passable(v),
    ensures
        path_found(upd(root, path, 0, m), path.push(k), 0),
        nav(upd(root, path, 0, m), path.push(k), 0) == inner(v),
        upd(upd(root, path, 0, m), path.push(k), 0, x) == upd(root, path, 0, m.update(i, (k, with_inner(v, x)))),
{
    let root1 = upd(root, path, 0, m);
    lemma_nav_upd(root, path, 0, m);
    lemma_found_ok(root1, path, 0);
    lemma_one_found(m, k, i, x);
    lemma_path_push(root1, path, 0, k, x);
    lemma_upd_upd(root, path, 0, m, m.update(i, (k, with_inner(v, x))));
}

/// Under a key that the table that a path leads to does not hold, the path one key longer can be
/// followed, leads to nothing yet, and replacing what it leads to adds a table that only holds
/// subtables.
pub proof fn lemma_compose_new(root: STable, path: Seq<Seq<char>>, k: Seq<char>, x: STable)
    requires
        path_ok(root, path, 0),
        forall|j: int| 0 <= j < nav(root, path, 0).len() ==> #[trigger] nav(root, path, 0)[j].0 != k,
    ensures
        path_ok(root, path.push(k), 0),
        nav(root, path.push(k), 0) == Seq::<(Seq<char>, SValue)>::empty(),
        upd(root, path.push(k), 0, x) == upd(root, path, 0, nav(root, path, 0).push((k, SValue::UndefinedTable(x)))),
{
    lemma_one_new(nav(root, path, 0), k, x);
    lemma_path_push(root, path, 0, k, x);
}

/// What the writer writes for a table under a path after its header: its key/value lines, a
/// blank line if subtables follow them, then its subtables.
pub open spec fn body_repr(e: Seq<(String, Value)>, path: Seq<Seq<char>>) -> Seq<char> {
    let inl = spec_inlines(e);
    let subs = spec_subtables(e);
    inlines_repr(inl) + (if inl.len() > 0 && subs.len() > 0 { seq!['\n'] } else { Seq::empty() }) + subtables_repr(
        subs,
        path,
    )
}

/// A table under a path is written as its header (unless it holds no key/value pair but
/// subtables), then its body; a table of an array of tables always with its header.
proof fn lemma_table_text(e: Seq<(String, Value)>, path: Seq<Seq<char>>)
    ensures
        table_repr(e, path) == (if spec_inlines(e).len() > 0 || spec_subtables(e).len() == 0 {
            header_repr(path, open_brackets(false), close_brackets(false))
        } else {
            Seq::empty()
        }) + body_repr(e, path),
        array_element_repr(e, path) == header_repr(path, open_brackets(true), close_brackets(true)) + body_repr(e, path),
{
    let inl = spec_inlines(e);
    let subs = spec_subtables(e);
    let sep = if inl.len() > 0 && subs.len() > 0 { seq!['\n'] } else { Seq::<char>::empty() };
    let h = if inl.len() > 0 || subs.len() == 0 {
        header_repr(path, open_brackets(false), close_brackets(false))
    } else {
        Seq::empty()
    };
    crate::ser::writer::lemma_subtables_size(e);
    assert(table_repr(e, path) =~= h + body_repr(e, path));
    assert(array_element_repr(e, path) =~= header_repr(path, open_brackets(true), close_brackets(true)) + body_repr(e, path));
}

/// The body of a table that the writer wrote under a path, right after its header (or at the
/// start of the document, for the root table): the reader puts its entries into the table that
/// the path leads to, which was empty.
#[verifier::spinoff_prover]
pub proof fn lemma_read_body(
    e: Seq<(String, Value)>,
    es: Seq<(Seq<char>, Node)>,
    path: Seq<Seq<char>>,
    root: STable,
    header: SKey,
    later: Seq<u8>,
    st: PState,
) -> (r: (PState, Seq<Seq<char>>, SKey))
    requires
        entries_written(e, es),
        distinct_names(es),
        all_ok(es),
        path_found(root, path, 0),
        nav(root, path, 0) == Seq::<(Seq<char>, SValue)>::empty(),
        st.line.len() == 0,
        st.rest == encode_utf8(body_repr(e, path)) + later,
    ensures
        r.0.line.len() == 0,
        r.0.rest == later,
        reads_as(st, root, path, header) == reads_as(r.0, upd(root, path, 0, read_entries(es)), r.1, r.2),
    decreases es, 1int,
{
    lemma_tree_entries(e, es);
    lemma_vals_ok(es);
    let inl = inlines_repr(pair_texts(vals(es)));
    let subs = spec_subtables(e);
    let sep = if vals(es).len() > 0 && subs.len() > 0 { seq!['\n'] } else { Seq::<char>::empty() };
    let rest = subtables_repr(subs, path);
    assert(body_repr(e, path) == inl + sep + rest);
    lemma_encode_concat(inl + sep, rest);
    lemma_encode_concat(inl, sep);
    let after = encode_utf8(sep) + (encode_utf8(rest) + later);
    assert(st.rest =~= encode_utf8(inl) + after);
    let vt = values_table(vals(es));
    let st1 = lemma_read_pairs_in(vals(es), root, path, header, after, st);
    let empty = Seq::<(Seq<char>, SValue)>::empty();
    assert(empty + vt =~= vt);
    let root1 = upd(root, path, 0, vt);
    lemma_found_ok(root, path, 0);
    if !has_subs(es) {
        assert(sep =~= Seq::<char>::empty());
        assert(rest =~= Seq::<char>::empty());
        assert(encode_utf8(Seq::<char>::empty()) =~= Seq::<u8>::empty());
        assert(after =~= later);
        assert(read_entries(es) =~= vt);
        (st1, path, header)
    } else {
        let st2 = if vals(es).len() > 0 {
            lemma_encode_ascii(seq!['\n']);
            assert(encode_utf8(seq!['\n']) =~= seq![0x0au8]);
            lemma_read_blank(root1, path, header, encode_utf8(rest) + later, st1)
        } else {
            assert(encode_utf8(Seq::<char>::empty()) =~= Seq::<u8>::empty());
            assert(after =~= encode_utf8(rest) + later);
            st1
        };
        lemma_nav_upd(root, path, 0, vt);
        lemma_found_ok(root1, path, 0);
        lemma_filter_keys(es);
        assert forall|i: int, j: int|
            0 <= i < es.len() && !(es[i].1 is Val) && 0 <= j < nav(root1, path, 0).len() implies es[i].0 != nav(
            root1,
            path,
            0,
        )[j].0 by {
            assert(nav(root1, path, 0)[j].0 == vals(es)[j].0);
            let m = choose|m: int| 0 <= m < es.len() && es[m].0 == vals(es)[j].0 && es[m].1 == Node::Val(vals(es)[j].1);
            assert(m != i);
        }
        let r = lemma_read_subs(e, es, path, root1, path, header, later, st2);
        lemma_upd_upd(root, path, 0, vt, vt + read_subs(es));
        r
    }
}

/// The subtables of a table that the writer wrote under a path, whose names the table that the
/// path leads to does not hold: the reader adds them at its end.
#[verifier::spinoff_prover]
pub proof fn lemma_read_subs(
    t: Seq<(String, Value)>,
    es: Seq<(Seq<char>, Node)>,
    path: Seq<Seq<char>>,
    root: STable,
    cur: Seq<Seq<char>>,
    header: SKey,
    later: Seq<u8>,
    st: PState,
) -> (r: (PState, Seq<Seq<char>>, SKey))
    requires
        entries_written(t, es),
        distinct_names(es),
        all_ok(es),
        path_ok(root, path, 0),
        forall|i: int, j: int|
            0 <= i < es.len() && !(es[i].1 is Val) && 0 <= j < nav(root, path, 0).len() ==> es[i].0 != nav(root, path, 0)[j].0,
        spec_subtables(t).len() > 0,
        st.line.len() == 0,
        st.rest == encode_utf8(subtables_repr(spec_subtables(t), path)) + later,
    ensures
        r.0.line.len() == 0,
        r.0.rest == later,
        reads_as(st, root, cur, header) == reads_as(r.0, upd(root, path, 0, nav(root, path, 0) + read_subs(es)), r.1, r.2),
    decreases es, 0int,
{
    let n = es.len() - 1;
    let t1 = t.subrange(0, t.len() - 1);
    let e1 = es.subrange(0, es.len() - 1);
    assert(t.drop_last() == t1 && es.drop_last() == e1);
    assert(t.last() == t[n] && es.last() == es[n]);
    assert(entries_written(t1, e1) && t[n].0@ == es[n].0 && node_written(t[n].1, es[n].1));
    lemma_all_ok(es);
    assert(all_ok(e1) && node_ok(es[n].1));
    assert forall|i: int, j: int| 0 <= i < j < e1.len() implies e1[i].0 != e1[j].0 by {
        assert(e1[i] == es[i] && e1[j] == es[j]);
    }
    let nv = nav(root, path, 0);
    assert forall|i: int, j: int|
        0 <= i < e1.len() && !(e1[i].1 is Val) && 0 <= j < nv.len() implies e1[i].0 != nv[j].0 by {
        assert(e1[i] == es[i]);
    }
    let k = es[n].0;
    match es[n].1 {
        Node::Val(_) => {
            assert(spec_subtables(t) == spec_subtables(t1));
            assert(read_subs(es) == read_subs(e1));
            lemma_read_subs(t1, e1, path, root, cur, header, later, st)
        },
        _ => {
            let tb = t[n].1->Table_0;
            let s1 = spec_subtables(t1);
            assert(spec_subtables(t) == s1.push((k, tb)));
            let rn = read_node(es[n].1);
            assert(read_subs(es) == read_subs(e1).push((k, rn)));
            assert forall|j: int| 0 <= j < nv.len() implies #[trigger] nv[j].0 != k by {}
            if s1.len() == 0 {
                lemma_tree_entries(t1, e1);
                assert(subtables_repr(spec_subtables(t), path) == subtable_repr(k, tb, path));
                let r = lemma_read_node(k, es[n].1, tb, path, root, cur, header, later, st);
                assert(nv + read_subs(es) =~= nv.push((k, rn)));
                r
            } else {
                let front = subtables_repr(s1, path);
                let nl = seq!['\n'];
                let last = subtable_repr(k, tb, path);
                let sall = spec_subtables(t);
                assert(sall.drop_last() =~= s1);
                assert(sall.last() == (k, tb));
                assert(subtables_repr(sall, path) == front + nl + last);
                lemma_encode_concat(front + nl, last);
                lemma_encode_concat(front, nl);
                lemma_encode_ascii(nl);
                assert(encode_utf8(nl) =~= seq![0x0au8]);
                let mid = seq![0x0au8] + (encode_utf8(last) + later);
                assert(st.rest =~= encode_utf8(front) + mid);
                let (st1, cur1, header1) = lemma_read_subs(t1, e1, path, root, cur, header, mid, st);
                let m1 = nv + read_subs(e1);
                let root1 = upd(root, path, 0, m1);
                let st2 = lemma_read_blank(root1, cur1, header1, encode_utf8(last) + later, st1);
                lemma_nav_upd(root, path, 0, m1);
                lemma_found_ok(root1, path, 0);
                lemma_filter_keys(e1);
                assert forall|j: int| 0 <= j < m1.len() implies #[trigger] m1[j].0 != k by {
                    if j >= nv.len() {
                        let m = j - nv.len();
                        assert(m1[j] == read_subs(e1)[m]);
                        let x = choose|x: int| 0 <= x < e1.len() && e1[x].0 == (#[trigger] read_subs(e1)[m]).0 && !(e1[x].1 is Val);
                        assert(e1[x] == es[x]);
                    }
                }
                let r = lemma_read_node(k, es[n].1, tb, path, root1, cur1, header1, later, st2);
                lemma_upd_upd(root, path, 0, m1, m1.push((k, rn)));
                assert(m1.push((k, rn)) =~= nv + read_subs(es));
                r
            }
        },
    }
}

/// A table or an array of tables that the writer wrote under a path and a name that the table
/// that the path leads to does not hold: the reader adds it at its end.
#[verifier::spinoff_prover]
pub proof fn lemma_read_node(
    k: Seq<char>,
    n: Node,
    tb: Table,
    path: Seq<Seq<char>>,
    root: STable,
    cur: Seq<Seq<char>>,
    header: SKey,
    later: Seq<u8>,
    st: PState,
) -> (r: (PState, Seq<Seq<char>>, SKey))
    requires
        node_written(Value::Table(tb), n),
        node_ok(n),
        !(n is Val),
        path_ok(root, path, 0),
        forall|j: int| 0 <= j < nav(root, path, 0).len() ==> #[trigger] nav(root, path, 0)[j].0 != k,
        st.line.len() == 0,
        st.rest == encode_utf8(subtable_repr(k, tb, path)) + later,
    ensures
        r.0.line.len() == 0,
        r.0.rest == later,
        reads_as(st, root, cur, header)
            == reads_as(r.0, upd(root, path, 0, nav(root, path, 0).push((k, read_node(n)))), r.1, r.2),
    decreases n, 0int,
{
    let p2 = path.push(k);
    let nv = nav(root, path, 0);
    match n {
        Node::Tab(es) => {
            let e = tb->Table_0;
            assert(subtable_repr(k, tb, path) == table_repr(e@, p2));
            lemma_tree_entries(e@, es);
            lemma_table_text(e@, p2);
            if vals(es).len() > 0 || !has_subs(es) {
                let h = header_repr(p2, open_brackets(false), close_brackets(false));
                lemma_encode_concat(h, body_repr(e@, p2));
                let after = encode_utf8(body_repr(e@, p2)) + later;
                assert(st.rest =~= encode_utf8(h) + after);
                let st1 = lemma_read_path_header(p2, false, after, st);
                assert(p2.drop_last() =~= path);
                let key = SKey { path, name: k };
                lemma_apply_header_in(root, cur, header, path, k, false);
                lemma_document_step(st, root, cur, header, SLine::Header(key, false), st1);
                let m = nv.push((k, SValue::Table(Seq::empty())));
                let x = read_entries(es);
                lemma_compose_at(root, path, k, m, nv.len() as int, SValue::Table(Seq::empty()), x);
                let root1 = upd(root, path, 0, m);
                let r = lemma_read_body(e@, es, p2, root1, key, later, st1);
                assert(m.update(nv.len() as int, (k, SValue::Table(x))) =~= nv.push((k, read_node(n))));
                r
            } else {
                assert(table_repr(e@, p2) == body_repr(e@, p2));
                assert(spec_inlines(e@).len() == 0);
                assert(inlines_repr(spec_inlines(e@)) =~= Seq::<char>::empty());
                assert(body_repr(e@, p2) =~= subtables_repr(spec_subtables(e@), p2));
                let x = read_subs(es);
                lemma_compose_new(root, path, k, x);
                let r = lemma_read_subs(e@, es, p2, root, cur, header, later, st);
                assert(Seq::<(Seq<char>, SValue)>::empty() + x =~= x);
                assert(values_table(vals(es)) =~= Seq::<(Seq<char>, SValue)>::empty());
                assert(values_table(vals(es)) + read_subs(es) =~= x);
                r
            }
        },
        Node::Arr(ts) => {
            let a = tb->Array_0;
            assert(subtable_repr(k, tb, path) == array_of_tables_repr(a@, p2));
            lemma_read_tables(a@, ts, k, path, root, cur, header, later, st)
        },
        Node::Val(_) => (st, cur, header),
    }
}

/// An array of tables that the writer wrote under a path and a name that the table that the path
/// leads to does not hold: the reader adds the array of their tables at its end.
#[verifier::spinoff_prover]
pub proof fn lemma_read_tables(
    a: Seq<Vec<(String, Value)>>,
    ts: Seq<Seq<(Seq<char>, Node)>>,
    k: Seq<char>,
    path: Seq<Seq<char>>,
    root: STable,
    cur: Seq<Seq<char>>,
    header: SKey,
    later: Seq<u8>,
    st: PState,
) -> (r: (PState, Seq<Seq<char>>, SKey))
    requires
        tables_written(a, ts),
        ts.len() > 0,
        tables_ok(ts),
        path_ok(root, path, 0),
        forall|j: int| 0 <= j < nav(root, path, 0).len() ==> #[trigger] nav(root, path, 0)[j].0 != k,
        st.line.len() == 0,
        st.rest == encode_utf8(array_of_tables_repr(a, path.push(k))) + later,
    ensures
        r.0.line.len() == 0,
        r.0.rest == later,
        reads_as(st, root, cur, header) == reads_as(
            r.0,
            upd(root, path, 0, nav(root, path, 0).push((k, SValue::ArrayOfTables(read_tables(ts))))),
            r.1,
            r.2,
        ),
    decreases ts, 0int,
{
    let p2 = path.push(k);
    let nv = nav(root, path, 0);
    let n = ts.len() - 1;
    let a1 = a.subrange(0, a.len() - 1);
    let t1 = ts.subrange(0, ts.len() - 1);
    assert(a.drop_last() == a1 && ts.drop_last() == t1);
    assert(a.last() == a[n] && ts.last() == ts[n]);
    assert(tables_written(a1, t1) && entries_written(a[n]@, ts[n]));
    lemma_tables_ok(ts);
    assert(distinct_names(ts[n]) && all_ok(ts[n]));
    let e = a[n]@;
    lemma_table_text(e, p2);
    let h = header_repr(p2, open_brackets(true), close_brackets(true));
    let x = read_entries(ts[n]);
    let key = SKey { path, name: k };
    assert(p2.drop_last() =~= path);
    lemma_encode_concat(h, body_repr(e, p2));
    let after = encode_utf8(body_repr(e, p2)) + later;
    let rt = read_tables(ts);
    if n == 0 {
        assert(array_of_tables_repr(a, p2) == array_element_repr(e, p2));
        assert(st.rest =~= encode_utf8(h) + after);
        let st1 = lemma_read_path_header(p2, true, after, st);
        lemma_apply_header_in(root, cur, header, path, k, true);
        lemma_document_step(st, root, cur, header, SLine::Header(key, true), st1);
        let v0 = SValue::ArrayOfTables(seq![Seq::<(Seq<char>, SValue)>::empty()]);
        let m = nv.push((k, v0));
        lemma_compose_at(root, path, k, m, nv.len() as int, v0, x);
        let root1 = upd(root, path, 0, m);
        let r = lemma_read_body(e, ts[n], p2, root1, key, later, st1);
        assert(read_tables(t1) =~= Seq::<STable>::empty());
        assert(rt =~= seq![x]);
        assert(seq![Seq::<(Seq<char>, SValue)>::empty()].update(0, x) =~= rt);
        assert(m.update(nv.len() as int, (k, with_inner(v0, x))) =~= nv.push((k, SValue::ArrayOfTables(rt))));
        r
    } else {
        assert(tables_ok(t1));
        let front = array_of_tables_repr(a1, p2);
        let nl = seq!['\n'];
        let last = array_element_repr(e, p2);
        assert(array_of_tables_repr(a, p2) == front + nl + last);
        lemma_encode_concat(front + nl, last);
        lemma_encode_concat(front, nl);
        lemma_encode_ascii(nl);
        assert(encode_utf8(nl) =~= seq![0x0au8]);
        let mid = seq![0x0au8] + (encode_utf8(last) + later);
        assert(st.rest =~= encode_utf8(front) + mid);
        let (st1, cur1, header1) = lemma_read_tables(a1, t1, k, path, root, cur, header, mid, st);
        let rt1 = read_tables(t1);
        let m1 = nv.push((k, SValue::ArrayOfTables(rt1)));
        let root1 = upd(root, path, 0, m1);
        let st2 = lemma_read_blank(root1, cur1, header1, encode_utf8(last) + later, st1);
        assert(encode_utf8(last) + later =~= encode_utf8(h) + after);
        let st3 = lemma_read_path_header(p2, true, after, st2);
        lemma_nav_upd(root, path, 0, m1);
        lemma_found_ok(root1, path, 0);
        lemma_apply_header_more_in(root1, cur1, header1, path, k, rt1);
        lemma_document_step(st2, root1, cur1, header1, SLine::Header(key, true), st3);
        let v1 = SValue::ArrayOfTables(rt1.push(Seq::empty()));
        let m2 = nv.push((k, v1));
        assert(m1.update(m1.len() - 1, (k, v1)) =~= m2);
        lemma_upd_upd(root, path, 0, m1, m2);
        lemma_compose_at(root, path, k, m2, nv.len() as int, v1, x);
        let root2 = upd(root, path, 0, m2);
        let r = lemma_read_body(e, ts[n], p2, root2, key, later, st3);
        assert(rt == rt1.push(x));
        assert(rt1.push(Seq::empty()).update(rt1.len() as int, x) =~= rt);
        assert(m2.update(nv.len() as int, (k, with_inner(v1, x))) =~= nv.push((k, SValue::ArrayOfTables(rt))));
        r
    }
}

/// A document that the writer writes for a table reads back as that table, to any depth: the
/// same keys, each table's values first and in order, then its tables and arrays of tables in
/// order; strings, integers (as their digits), booleans, and arrays and inline tables of them as
/// they were; a table that holds no value but subtables as a table that its subtables' headers
/// created. The keys of each table (inline tables too) are distinct, and each array of tables
/// holds a table.
pub proof fn lemma_document_readback(t: Seq<(String, Value)>, es: Seq<(Seq<char>, Node)>)
    requires
        entries_written(t, es),
        distinct_names(es),
        all_ok(es),
    ensures
        spec_parse(PState { line: Seq::empty(), rest: encode_utf8(table_repr(t, Seq::empty())), line_no: 0 })
            == Ok::<STable, SpecError>(read_entries(es)),
{
    let path = Seq::<Seq<char>>::empty();
    let root = Seq::<(Seq<char>, SValue)>::empty();
    lemma_table_text(t, path);
    assert(table_repr(t, path) =~= body_repr(t, path));
    let st0 = PState { line: Seq::empty(), rest: encode_utf8(table_repr(t, path)), line_no: 0 };
    assert(spec_parse(st0) == reads_as(st0, root, path, root_key())) by {
        reveal(reads_as);
    }
    assert(st0.rest =~= encode_utf8(body_repr(t, path)) + Seq::<u8>::empty());
    let (st1, cur1, header1) = lemma_read_body(t, es, path, root, root_key(), Seq::empty(), st0);
    lemma_read_end(st1, read_entries(es), cur1, header1);
}

} // verus!
