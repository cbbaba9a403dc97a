//! Tables inside tables: the table that a path of keys leads to in the root table that the
//! reader builds, what replacing it does, and how the reader's steps act on it.

use vstd::prelude::*;

use crate::de::table::{
    find, key_index, lemma_key_index, spec_append_array, spec_dotted, spec_insert_table, spec_subtable, SAction,
    TableError,
};
use crate::de::value::{STable, SValue};

verus! {

/// The table inside a value that a path goes on through: a table's entries, or the last table of
/// an array of tables.
pub open spec fn inner(v: SValue) -> STable {
    match v {
        SValue::Table(s) => s,
        SValue::UndefinedTable(s) => s,
        SValue::DottedKeyTable(s) => s,
        SValue::ArrayOfTables(a) => a.last(),
        _ => Seq::empty(),
    }
}

/// The value with the table inside it replaced.
pub open spec fn with_inner(v: SValue, x: STable) -> SValue {
    match v {
        SValue::Table(_) => SValue::Table(x),
        SValue::UndefinedTable(_) => SValue::UndefinedTable(x),
        SValue::DottedKeyTable(_) => SValue::DottedKeyTable(x),
        SValue::ArrayOfTables(a) => SValue::ArrayOfTables(a.update(a.len() - 1, x)),
        _ => v,
    }
}

/// A path can go on through the value: a table, or an array of tables that holds one.
pub open spec fn passable(v: SValue) -> bool {
    ||| v is Table
    ||| v is UndefinedTable
    ||| v is DottedKeyTable
    ||| (v matches SValue::ArrayOfTables(a) && a.len() > 0)
}

/// The table with an entry for the key: as it is, or with a new table that so far only holds
/// subtables at its end (where `find` points when the key is missing).
pub open spec fn with_slot(t: STable, k: Seq<char>) -> STable {
    if find(t, k) < t.len() {
        t
    } else {
        t.push((k, SValue::UndefinedTable(Seq::empty())))
    }
}

/// The table that the path `path[j..]` leads to (empty where it does not exist yet).
pub open spec fn nav(t: STable, path: Seq<Seq<char>>, j: int) -> STable
    decreases path.len() - j,
{
    if j < 0 || j >= path.len() {
        t
    } else {
        nav(inner(with_slot(t, path[j])[find(t, path[j])].1), path, j + 1)
    }
}

/// The table with the table that the path `path[j..]` leads to replaced by `x` (the tables
/// missing on the way created as tables that only hold subtables).
pub open spec fn upd(t: STable, path: Seq<Seq<char>>, j: int, x: STable) -> STable
    decreases path.len() - j,
{
    if j < 0 || j >= path.len() {
        x
    } else {
        let k = path[j];
        let i = find(t, k);
        let t1 = with_slot(t, k);
        t1.update(i, (k, with_inner(t1[i].1, upd(inner(t1[i].1), path, j + 1, x))))
    }
}

/// The path `path[j..]` can be followed: each entry on it that exists is a table or an array of
/// tables that holds one.
pub open spec fn path_ok(t: STable, path: Seq<Seq<char>>, j: int) -> bool
    decreases path.len() - j,
{
    j < 0 || j >= path.len() || {
        let v = with_slot(t, path[j])[find(t, path[j])].1;
        passable(v) && path_ok(inner(v), path, j + 1)
    }
}

/// The path `path[j..]` exists: each entry on it is there, a table or an array of tables that
/// holds one.
pub open spec fn path_found(t: STable, path: Seq<Seq<char>>, j: int) -> bool
    decreases path.len() - j,
{
    j < 0 || j >= path.len() || {
        &&& find(t, path[j]) < t.len()
        &&& passable(t[find(t, path[j])].1)
        &&& path_found(inner(t[find(t, path[j])].1), path, j + 1)
    }
}

/// What an action of the reader does to the table that it is carried out in.
pub open spec fn act(s: STable, a: SAction) -> Result<STable, TableError> {
    match a {
        SAction::Table(name) => match spec_insert_table(s, name) {
            Some(s2) => Ok(s2),
            None => Err(TableError::InvalidPath),
        },
        SAction::ArrayOfTables(name) => match spec_append_array(s, name) {
            Some(s2) => Ok(s2),
            None => Err(TableError::InvalidPath),
        },
        SAction::Entry(kpath, name, v) => spec_dotted(s, kpath, 0, true, name, v),
    }
}

/// Tables with the same keys in the same places find a key at the same place.
pub proof fn lemma_same_keys(t: STable, t2: STable, k: Seq<char>, i: int)
    requires
        t.len() == t2.len(),
        forall|j: int| 0 <= j < t.len() ==> (#[trigger] t[j]).0 == t2[j].0,
    ensures
        key_index(t, k, i) == key_index(t2, k, i),
    decreases t.len() - i,
{
    if 0 <= i < t.len() {
        assert(t[i].0 == t2[i].0);
        lemma_same_keys(t, t2, k, i + 1);
    }
}

/// The slot for a key: where `find` points, holding the key.
pub proof fn lemma_slot(t: STable, k: Seq<char>)
    ensures
        0 <= find(t, k) < with_slot(t, k).len(),
        find(t, k) <= t.len(),
        with_slot(t, k)[find(t, k)].0 == k,
        find(with_slot(t, k), k) == find(t, k),
        forall|j: int| 0 <= j < t.len() ==> #[trigger] with_slot(t, k)[j] == t[j],
{
    lemma_key_index(t, k, 0);
    let t1 = with_slot(t, k);
    lemma_key_index(t1, k, 0);
    if find(t, k) >= t.len() {
        assert(t1[t.len() as int].0 == k);
        if find(t1, k) < t.len() {
            assert(t1[find(t1, k)] == t[find(t1, k)]);
        }
    }
}

/// Replacing the entry at the slot of a key, under the same key, keeps `find` pointing there.
pub proof fn lemma_slot_update(t: STable, k: Seq<char>, v: SValue)
    ensures
        find(with_slot(t, k).update(find(t, k), (k, v)), k) == find(t, k),
{
    lemma_slot(t, k);
    let t1 = with_slot(t, k);
    let u = t1.update(find(t, k), (k, v));
    assert forall|j: int| 0 <= j < t1.len() implies (#[trigger] t1[j]).0 == u[j].0 by {}
    lemma_same_keys(t1, u, k, 0);
}

/// Replacing the table inside a value that a path can go on through: the path still can, and
/// finds the new table there; replacing twice keeps the second; putting back what is inside
/// changes nothing.
pub proof fn lemma_with_inner(v: SValue, x: STable, y: STable)
    requires
        passable(v),
    ensures
        passable(with_inner(v, x)),
        inner(with_inner(v, x)) == x,
        with_inner(with_inner(v, x), y) == with_inner(v, y),
        with_inner(v, inner(v)) == v,
{
    if let SValue::ArrayOfTables(a) = v {
        assert(a.update(a.len() - 1, x).update(a.len() - 1, y) =~= a.update(a.len() - 1, y));
        assert(a.update(a.len() - 1, a.last()) =~= a);
    }
}

/// A path that exists can be followed.
pub proof fn lemma_found_ok(t: STable, path: Seq<Seq<char>>, j: int)
    requires
        path_found(t, path, j),
    ensures
        path_ok(t, path, j),
    decreases path.len() - j,
{
    if 0 <= j < path.len() {
        lemma_found_ok(inner(t[find(t, path[j])].1), path, j + 1);
    }
}

/// Following a path that can be followed, the reader's step is the action carried out in the
/// table that the path leads to, which then replaces that table.
pub proof fn lemma_subtable_at(t: STable, path: Seq<Seq<char>>, j: int, a: SAction)
    requires
        path_ok(t, path, j),
    ensures
        spec_subtable(t, path, j, a) == (match act(nav(t, path, j), a) {
            Ok(x) => Ok::<STable, TableError>(upd(t, path, j, x)),
            Err(e) => Err(e),
        }),
    decreases path.len() - j,
{
    if 0 <= j < path.len() {
        let k = path[j];
        let i = find(t, k);
        let t1 = with_slot(t, k);
        lemma_slot(t, k);
        lemma_subtable_at(inner(t1[i].1), path, j + 1, a);
    }
}

/// After the table that a path leads to is replaced, the path exists and leads to the new table.
pub proof fn lemma_nav_upd(t: STable, path: Seq<Seq<char>>, j: int, x: STable)
    requires
        path_ok(t, path, j),
    ensures
        path_found(upd(t, path, j, x), path, j),
        nav(upd(t, path, j, x), path, j) == x,
    decreases path.len() - j,
{
    if 0 <= j < path.len() {
        let k = path[j];
        let i = find(t, k);
        let t1 = with_slot(t, k);
        let v = t1[i].1;
        let w = upd(inner(v), path, j + 1, x);
        lemma_slot(t, k);
        lemma_slot_update(t, k, with_inner(v, w));
        lemma_with_inner(v, w, w);
        lemma_nav_upd(inner(v), path, j + 1, x);
        let u = upd(t, path, j, x);
        assert(u[i] == (k, with_inner(v, w)));
        assert(find(u, k) == i);
        assert(with_slot(u, k) == u);
    }
}

/// Replacing the table that a path leads to twice keeps the second replacement.
pub proof fn lemma_upd_upd(t: STable, path: Seq<Seq<char>>, j: int, x: STable, y: STable)
    requires
        path_ok(t, path, j),
    ensures
        upd(upd(t, path, j, x), path, j, y) == upd(t, path, j, y),
    decreases path.len() - j,
{
    if 0 <= j < path.len() {
        let k = path[j];
        let i = find(t, k);
        let t1 = with_slot(t, k);
        let v = t1[i].1;
        let wx = upd(inner(v), path, j + 1, x);
        let wy = upd(inner(v), path, j + 1, y);
        lemma_slot(t, k);
        lemma_slot_update(t, k, with_inner(v, wx));
        lemma_with_inner(v, wx, wy);
        lemma_upd_upd(inner(v), path, j + 1, x, y);
        let u = upd(t, path, j, x);
        assert(find(u, k) == i);
        assert(with_slot(u, k) == u);
        assert(u.update(i, (k, with_inner(with_inner(v, wx), wy))) =~= t1.update(i, (k, with_inner(v, wy))));
    }
}

/// Putting back the table that an existing path leads to changes nothing.
pub proof fn lemma_upd_same(t: STable, path: Seq<Seq<char>>, j: int)
    requires
        path_found(t, path, j),
    ensures
        upd(t, path, j, nav(t, path, j)) == t,
    decreases path.len() - j,
{
    if 0 <= j < path.len() {
        let k = path[j];
        let i = find(t, k);
        lemma_key_index(t, k, 0);
        let v = t[i].1;
        lemma_upd_same(inner(v), path, j + 1);
        lemma_with_inner(v, inner(v), inner(v));
        assert(t.update(i, (k, v)) =~= t);
    }
}

/// A path one key longer: it leads, and replaces, through the table that the shorter path leads
/// to.
pub proof fn lemma_path_push(t: STable, path: Seq<Seq<char>>, j: int, k2: Seq<char>, y: STable)
    requires
        0 <= j <= path.len(),
    ensures
        nav(t, path.push(k2), j) == nav(nav(t, path, j), seq![k2], 0),
        path_ok(t, path, j) ==> (path_ok(t, path.push(k2), j) == path_ok(nav(t, path, j), seq![k2], 0)),
        path_ok(t, path, j) ==> upd(t, path.push(k2), j, y) == upd(t, path, j, upd(nav(t, path, j), seq![k2], 0, y)),
        path_found(t, path, j) && path_found(nav(t, path, j), seq![k2], 0) ==> path_found(t, path.push(k2), j),
    decreases path.len() - j,
{
    let p2 = path.push(k2);
    if j == path.len() {
        assert(p2[j] == k2);
        assert(seq![k2][0] == k2);
        lemma_slot(t, k2);
        let w = inner(with_slot(t, k2)[find(t, k2)].1);
        assert(nav(w, p2, j + 1) == w);
        assert(nav(w, seq![k2], 1) == w);
        assert(path_ok(w, p2, j + 1));
        assert(path_ok(w, seq![k2], 1));
        assert(upd(w, p2, j + 1, y) == y);
        assert(upd(w, seq![k2], 1, y) == y);
        if find(t, k2) < t.len() {
            let w2 = inner(t[find(t, k2)].1);
            assert(path_found(w2, p2, j + 1));
            assert(path_found(w2, seq![k2], 1));
        }
    } else {
        assert(p2[j] == path[j]);
        let k = path[j];
        let i = find(t, k);
        let t1 = with_slot(t, k);
        lemma_slot(t, k);
        let v = t1[i].1;
        lemma_path_push(inner(v), path, j + 1, k2, y);
        if path_found(t, path, j) {
            lemma_key_index(t, k, 0);
            assert(t1 == t);
        }
    }
}

/// Under a key that a table does not hold, a path of that one key leads to nothing yet, can be
/// followed, and replacing what it leads to adds a table that only holds subtables at the end.
pub proof fn lemma_one_new(s: STable, k: Seq<char>, y: STable)
    requires
        forall|j: int| 0 <= j < s.len() ==> #[trigger] s[j].0 != k,
    ensures
        path_ok(s, seq![k], 0),
        nav(s, seq![k], 0) == Seq::<(Seq<char>, SValue)>::empty(),
        upd(s, seq![k], 0, y) == s.push((k, SValue::UndefinedTable(y))),
{
    lemma_key_index(s, k, 0);
    lemma_slot(s, k);
    assert(find(s, k) == s.len());
    let w = Seq::<(Seq<char>, SValue)>::empty();
    assert(nav(w, seq![k], 1) == w);
    assert(path_ok(w, seq![k], 1));
    assert(upd(w, seq![k], 1, y) == y);
}

/// Under a key at index `i` of a table, whose value a path can go on through, a path of that one
/// key leads to what is inside the value, exists, and replacing what it leads to replaces what
/// is inside.
pub proof fn lemma_one_found(s: STable, k: Seq<char>, i: int, y: STable)
    requires
        0 <= i < s.len(),
        s[i].0 == k,
        forall|j: int| 0 <= j < i ==> #[trigger] s[j].0 != k,
        passable(s[i].1),
    ensures
        path_found(s, seq![k], 0),
        nav(s, seq![k], 0) == inner(s[i].1),
        upd(s, seq![k], 0, y) == s.update(i, (k, with_inner(s[i].1, y))),
{
    lemma_key_index(s, k, 0);
    assert(find(s, k) == i);
    let w = inner(s[i].1);
    assert(nav(w, seq![k], 1) == w);
    assert(path_found(w, seq![k], 1));
    assert(upd(w, seq![k], 1, y) == y);
}

} // verus!
