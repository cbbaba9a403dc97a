//! Building the tables of a document: table headers, arrays of tables and dotted keys.

use vstd::prelude::*;

use super::value::{atview, tview, STable, SValue, Table, Value};

verus! {

/// Why a key could not be placed in a table.
#[derive(Debug, Clone, Copy, PartialEq, Eq)]
pub enum TableError {
    /// A key on the path names something other than a table that may be extended
    InvalidPath,
    /// The key is already defined
    Duplicate,
}

/// What to do at the end of a table header's path.
pub enum TableAction {
    /// Define the table with this name (a `[table]` header)
    Table(String),
    /// Append a table to the array of tables with this name (an `[[array]]` header)
    ArrayOfTables(String),
    /// Define the value under the dotted key (path, name) in the table (a key/value pair)
    Entry(Vec<String>, String, Value),
}

/// The model of a [`TableAction`].
pub enum SAction {
    Table(Seq<char>),
    ArrayOfTables(Seq<char>),
    Entry(Seq<Seq<char>>, Seq<char>, SValue),
}

/// The model of a sequence of keys.
pub open spec fn keys_view(p: Seq<String>) -> Seq<Seq<char>> {
    p.map_values(|s: String| s@)
}

impl View for TableAction {
    type V = SAction;

    open spec fn view(&self) -> SAction {
        match self {
            TableAction::Table(n) => SAction::Table(n@),
            TableAction::ArrayOfTables(n) => SAction::ArrayOfTables(n@),
            TableAction::Entry(p, n, v) => SAction::Entry(keys_view(p@), n@, v@),
        }
    }
}

/// The index of the first entry at or after `i` whose key is `k`, or the length of the table.
pub open spec fn key_index(t: STable, k: Seq<char>, i: int) -> int
    decreases t.len() - i,
{
    if i < 0 || i >= t.len() {
        t.len() as int
    } else if t[i].0 == k {
        i
    } else {
        key_index(t, k, i + 1)
    }
}

/// The index of the entry with key `k`, or the length of the table if there is none.
pub open spec fn find(t: STable, k: Seq<char>) -> int {
    key_index(t, k, 0)
}


pub proof fn lemma_key_index(t: STable, k: Seq<char>, i: int)
    requires
        0 <= i <= t.len(),
    ensures
        i <= key_index(t, k, i) <= t.len(),
        key_index(t, k, i) < t.len() ==> t[key_index(t, k, i)].0 == k,
        forall|j: int| i <= j < key_index(t, k, i) ==> t[j].0 != k,
    decreases t.len() - i,
{
    if i < t.len() && t[i].0 != k {
        lemma_key_index(t, k, i + 1);
    }
}

/// Defining a table with a header: a new table, or one that so far only held subtables.
pub open spec fn spec_insert_table(t: STable, name: Seq<char>) -> Option<STable> {
    let i = find(t, name);
    if i >= t.len() {
        Some(t.push((name, SValue::Table(Seq::empty()))))
    } else {
        match t[i].1 {
            SValue::UndefinedTable(sub) => Some(t.update(i, (name, SValue::Table(sub)))),
            _ => None,
        }
    }
}

/// Appending a new, empty table to an array of tables, which is created if needed.
pub open spec fn spec_append_array(t: STable, name: Seq<char>) -> Option<STable> {
    let i = find(t, name);
    if i >= t.len() {
        Some(t.push((name, SValue::ArrayOfTables(seq![Seq::empty()]))))
    } else {
        match t[i].1 {
            SValue::ArrayOfTables(a) => Some(t.update(i, (name, SValue::ArrayOfTables(a.push(Seq::empty()))))),
            _ => None,
        }
    }
}

/// Defining `name = v` under the dotted path `path[j..]`: missing tables on the path are created
/// as dotted-key tables; with `allow_undefined`, tables that so far only held subtables become
/// dotted-key tables too.
pub open spec fn spec_dotted(
    t: STable,
    path: Seq<Seq<char>>,
    j: int,
    allow_undefined: bool,
    name: Seq<char>,
    v: SValue,
) -> Result<STable, TableError>
    decreases path.len() - j,
{
    if j < 0 || j >= path.len() {
        if find(t, name) < t.len() {
            Err(TableError::Duplicate)
        } else {
            Ok(t.push((name, v)))
        }
    } else {
        let k = path[j];
        let i = find(t, k);
        let t1 = if i >= t.len() { t.push((k, SValue::DottedKeyTable(Seq::empty()))) } else { t };
        let e = match t1[i].1 {
            SValue::UndefinedTable(sub) => if allow_undefined { SValue::DottedKeyTable(sub) } else { t1[i].1 },
            other => other,
        };
        match e {
            SValue::DottedKeyTable(sub) => match spec_dotted(sub, path, j + 1, allow_undefined, name, v) {
                Ok(sub2) => Ok(t1.update(i, (k, SValue::DottedKeyTable(sub2)))),
                Err(err) => Err(err),
            },
            _ => Err(TableError::InvalidPath),
        }
    }
}

/// Following the path `path[j..]` of a table header (missing tables are created as tables that
/// so far only hold subtables; an array of tables stands for its last table), then carrying out
/// the action there.
pub open spec fn spec_subtable(t: STable, path: Seq<Seq<char>>, j: int, action: SAction) -> Result<STable, TableError>
    decreases path.len() - j,
{
    if j < 0 || j >= path.len() {
        match action {
            SAction::Table(name) => match spec_insert_table(t, name) {
                Some(t2) => Ok(t2),
                None => Err(TableError::InvalidPath),
            },
            SAction::ArrayOfTables(name) => match spec_append_array(t, name) {
                Some(t2) => Ok(t2),
                None => Err(TableError::InvalidPath),
            },
            SAction::Entry(kpath, name, v) => spec_dotted(t, kpath, 0, true, name, v),
        }
    } else {
        let k = path[j];
        let i = find(t, k);
        let t1 = if i >= t.len() { t.push((k, SValue::UndefinedTable(Seq::empty()))) } else { t };
        match t1[i].1 {
            SValue::Table(sub) => match spec_subtable(sub, path, j + 1, action) {
                Ok(s2) => Ok(t1.update(i, (k, SValue::Table(s2)))),
                Err(e) => Err(e),
            },
            SValue::UndefinedTable(sub) => match spec_subtable(sub, path, j + 1, action) {
                Ok(s2) => Ok(t1.update(i, (k, SValue::UndefinedTable(s2)))),
                Err(e) => Err(e),
            },
            SValue::DottedKeyTable(sub) => match spec_subtable(sub, path, j + 1, action) {
                Ok(s2) => Ok(t1.update(i, (k, SValue::DottedKeyTable(s2)))),
                Err(e) => Err(e),
            },
            SValue::ArrayOfTables(a) => if a.len() > 0 {
                match spec_subtable(a.last(), path, j + 1, action) {
                    Ok(s2) => Ok(t1.update(i, (k, SValue::ArrayOfTables(a.update(a.len() - 1, s2))))),
                    Err(e) => Err(e),
                }
            } else {
                Err(TableError::InvalidPath)
            },
            _ => Err(TableError::InvalidPath),
        }
    }
}

/// Tables, and arrays of tables, with no entries are modelled as empty.
pub proof fn lemma_empty_view(v: Value)
    ensures
        v matches Value::Table(t) && t@.len() == 0 ==> v@ == SValue::Table(Seq::empty()),
        v matches Value::UndefinedTable(t) && t@.len() == 0 ==> v@ == SValue::UndefinedTable(Seq::empty()),
        v matches Value::DottedKeyTable(t) && t@.len() == 0 ==> v@ == SValue::DottedKeyTable(Seq::empty()),
        v matches Value::InlineTable(t) && t@.len() == 0 ==> v@ == SValue::InlineTable(Seq::empty()),
{
    match v {
        Value::Table(t) => if t@.len() == 0 { assert(tview(t) =~= Seq::empty()); },
        Value::UndefinedTable(t) => if t@.len() == 0 { assert(tview(t) =~= Seq::empty()); },
        Value::DottedKeyTable(t) => if t@.len() == 0 { assert(tview(t) =~= Seq::empty()); },
        Value::InlineTable(t) => if t@.len() == 0 { assert(tview(t) =~= Seq::empty()); },
        _ => {},
    }
}

/// Returns the index of the entry with key `k`, or the length of the table if there is none.
pub fn find_key(t: &Table, k: &String) -> (r: usize)
    ensures
        r == find(tview(*t), k@),
        r <= t@.len(),
{
    let ghost tv = tview(*t);
    let mut i: usize = 0;
    while i < t.len()
        invariant
            0 <= i <= t@.len(),
            tv == tview(*t),
            key_index(tv, k@, 0) == key_index(tv, k@, i as int),
        decreases t@.len() - i,
    {
        if t[i].0 == *k {
            return i;
        }
        i = i + 1;
    }
    i
}

/// Defines a table with a header in `table`. Returns `false` (and leaves `table` as it was)
/// if the name is already defined as something other than a table that so far only held
/// subtables.
pub fn insert_table(table: &mut Table, name: String) -> (r: bool)
    ensures
        match spec_insert_table(tview(*old(table)), name@) {
            Some(t2) => r && tview(*final(table)) == t2,
            None => !r,
        },
        !r ==> tview(*final(table)) == tview(*old(table)),
{
    let i = find_key(table, &name);
    if i == table.len() {
        let v = Value::Table(Vec::new());
        proof { lemma_empty_view(v); }
        table.push((name, v));
        assert(tview(*table) =~= tview(*old(table)).push((name@, SValue::Table(Seq::empty()))));
        return true;
    }
    let ghost tv = tview(*table);
    let entry = &mut table[i];
    let mut sub: Table = Vec::new();
    let found = match &mut entry.1 {
        Value::UndefinedTable(t) => {
            std::mem::swap(&mut sub, t);
            true
        },
        _ => false,
    };
    if found {
        entry.1 = Value::Table(sub);
    }
    proof {
        lemma_key_index(tv, name@, 0);
    }
    if found {
        assert(tview(*table) =~= tv.update(i as int, (name@, SValue::Table(tview(sub)))));
    }
    found
}

/// Appends a new, empty table to the array of tables `name` in `table`, creating the array if
/// needed. Returns `false` (and leaves `table` as it was) if the name is defined as something
/// other than an array of tables.
pub fn append_array_of_tables(table: &mut Table, name: String) -> (r: bool)
    ensures
        match spec_append_array(tview(*old(table)), name@) {
            Some(t2) => r && tview(*final(table)) == t2,
            None => !r,
        },
        !r ==> tview(*final(table)) == tview(*old(table)),
{
    let i = find_key(table, &name);
    if i == table.len() {
        let first: Table = Vec::new();
        let mut arr: Vec<Table> = Vec::new();
        arr.push(first);
        let v = Value::ArrayOfTables(arr);
        proof {
            assert(tview(first) =~= Seq::empty());
            assert(atview(arr) =~= seq![Seq::<(Seq<char>, SValue)>::empty()]);
        }
        table.push((name, v));
        assert(tview(*table) =~= tview(*old(table)).push((name@, SValue::ArrayOfTables(seq![Seq::empty()]))));
        return true;
    }
    let ghost tv = tview(*table);
    proof {
        lemma_key_index(tv, name@, 0);
    }
    let entry = &mut table[i];
    match &mut entry.1 {
        Value::ArrayOfTables(a) => {
            let ghost old_a = *a;
            assert(tv[i as int].1 == SValue::ArrayOfTables(atview(old_a)));
            let empty: Table = Vec::new();
            proof {
                assert(tview(empty) =~= Seq::empty());
            }
            a.push(empty);
            proof {
                if let SValue::ArrayOfTables(oa) = tv[i as int].1 {
                    assert(atview(*a) =~= oa.push(Seq::empty()));
                }
            }
            assert(tview(*table) =~= tv.update(i as int, (name@, SValue::ArrayOfTables(
                match tv[i as int].1 { SValue::ArrayOfTables(oa) => oa.push(Seq::empty()), _ => Seq::empty() }))));
            true
        },
        _ => false,
    }
}

/// Defines `name = value` under the dotted path `path[j..]` in `table` (see [`spec_dotted`]).
pub fn get_dotted_subtable(
    table: &mut Table,
    path: &[String],
    j: usize,
    allow_undefined: bool,
    name: String,
    value: Value,
) -> (r: Result<(), TableError>)
    requires
        j <= path@.len(),
    ensures
        match spec_dotted(tview(*old(table)), keys_view(path@), j as int, allow_undefined, name@, value@) {
            Ok(t2) => r is Ok && tview(*final(table)) == t2,
            Err(e) => r == Err::<(), TableError>(e),
        },
    decreases path@.len() - j,
{
    if j == path.len() {
        let i = find_key(table, &name);
        if i < table.len() {
            return Err(TableError::Duplicate);
        }
        table.push((name, value));
        assert(tview(*table) =~= tview(*old(table)).push((name@, value@)));
        return Ok(());
    }
    let k = &path[j];
    assert(keys_view(path@)[j as int] == k@);
    let i = find_key(table, k);
    if i == table.len() {
        let v = Value::DottedKeyTable(Vec::new());
        proof { lemma_empty_view(v); }
        table.push((k.clone(), v));
        assert(tview(*table) =~= tview(*old(table)).push((k@, SValue::DottedKeyTable(Seq::empty()))));
    }
    let ghost tv = tview(*table);
    proof {
        lemma_key_index(tview(*old(table)), k@, 0);
    }
    assert(tv[i as int].0 == k@);
    let entry = &mut table[i];
    if allow_undefined {
        let mut sub: Table = Vec::new();
        let undefined = match &mut entry.1 {
            Value::UndefinedTable(t) => {
                std::mem::swap(&mut sub, t);
                true
            },
            _ => false,
        };
        if undefined {
            entry.1 = Value::DottedKeyTable(sub);
        }
    }
    match &mut entry.1 {
        Value::DottedKeyTable(sub) => {
            let res = get_dotted_subtable(sub, path, j + 1, allow_undefined, name, value);
            proof {
                if res is Ok {
                    assert(tview(*table) =~= tv.update(i as int, (k@, SValue::DottedKeyTable(tview(*sub)))));
                }
            }
            res
        },
        _ => Err(TableError::InvalidPath),
    }
}

/// Follows the path `path[j..]` of a table header in `table`, then carries out `action` there
/// (see [`spec_subtable`]).
pub fn get_subtable(table: &mut Table, path: &[String], j: usize, action: TableAction) -> (r: Result<(), TableError>)
    requires
        j <= path@.len(),
    ensures
        match spec_subtable(tview(*old(table)), keys_view(path@), j as int, action@) {
            Ok(t2) => r is Ok && tview(*final(table)) == t2,
            Err(e) => r == Err::<(), TableError>(e),
        },
    decreases path@.len() - j,
{
    if j == path.len() {
        return match action {
            TableAction::Table(name) => if insert_table(table, name) {
                Ok(())
            } else {
                Err(TableError::InvalidPath)
            },
            TableAction::ArrayOfTables(name) => if append_array_of_tables(table, name) {
                Ok(())
            } else {
                Err(TableError::InvalidPath)
            },
            TableAction::Entry(kpath, name, value) => get_dotted_subtable(table, kpath.as_slice(), 0, true, name, value),
        };
    }
    let k = &path[j];
    assert(keys_view(path@)[j as int] == k@);
    let i = find_key(table, k);
    if i == table.len() {
        let v = Value::UndefinedTable(Vec::new());
        proof { lemma_empty_view(v); }
        table.push((k.clone(), v));
        assert(tview(*table) =~= tview(*old(table)).push((k@, SValue::UndefinedTable(Seq::empty()))));
    }
    let ghost tv = tview(*table);
    proof {
        lemma_key_index(tview(*old(table)), k@, 0);
    }
    assert(tv[i as int].0 == k@);
    let entry = &mut table[i];
    match &mut entry.1 {
        Value::Table(sub) => {
            let res = get_subtable(sub, path, j + 1, action);
            proof {
                if res is Ok {
                    assert(tview(*table) =~= tv.update(i as int, (k@, SValue::Table(tview(*sub)))));
                }
            }
            res
        },
        Value::UndefinedTable(sub) => {
            let res = get_subtable(sub, path, j + 1, action);
            proof {
                if res is Ok {
                    assert(tview(*table) =~= tv.update(i as int, (k@, SValue::UndefinedTable(tview(*sub)))));
                }
            }
            res
        },
        Value::DottedKeyTable(sub) => {
            let res = get_subtable(sub, path, j + 1, action);
            proof {
                if res is Ok {
                    assert(tview(*table) =~= tv.update(i as int, (k@, SValue::DottedKeyTable(tview(*sub)))));
                }
            }
            res
        },
        Value::ArrayOfTables(a) => {
            let ghost old_a = *a;
            assert(tv[i as int].1 == SValue::ArrayOfTables(atview(old_a)));
            let n = a.len();
            if n == 0 {
                return Err(TableError::InvalidPath);
            }
            let last = &mut a[n - 1];
            let res = get_subtable(last, path, j + 1, action);
            proof {
                if res is Ok {
                    if let SValue::ArrayOfTables(oa) = tv[i as int].1 {
                        assert(atview(*a) =~= oa.update(oa.len() - 1, tview(a@[n - 1])));
                        assert(tview(*table) =~= tv.update(i as int, (k@, SValue::ArrayOfTables(atview(*a)))));
                    }
                }
            }
            res
        },
        _ => Err(TableError::InvalidPath),
    }
}

/// No two entries of the table have the same key.
pub open spec fn unique_keys(t: STable) -> bool {
    forall|i: int, j: int| 0 <= i < t.len() && 0 <= j < t.len() && i != j ==> #[trigger] t[i].0 != #[trigger] t[j].0
}

/// No table holds a key twice: the table itself, and every table nested in it (tables, inline
/// tables, arrays of tables, and the tables inside arrays).
pub open spec fn wf_table(t: STable) -> bool
    decreases t,
{
    &&& unique_keys(t)
    &&& forall|i: int| 0 <= i < t.len() ==> wf_value(#[trigger] t[i].1)
}

/// A value whose tables (if it is one, or holds them) keep each key once.
pub open spec fn wf_value(v: SValue) -> bool
    decreases v,
{
    match v {
        SValue::Table(t) => wf_table(t),
        SValue::UndefinedTable(t) => wf_table(t),
        SValue::DottedKeyTable(t) => wf_table(t),
        SValue::InlineTable(t) => wf_table(t),
        SValue::ArrayOfTables(a) => forall|i: int| 0 <= i < a.len() ==> wf_table(#[trigger] a[i]),
        SValue::Array(a) => forall|i: int| 0 <= i < a.len() ==> wf_value(#[trigger] a[i]),
        _ => true,
    }
}

/// Adding an entry under a new key keeps keys unique.
pub proof fn lemma_push_new(t: STable, k: Seq<char>, v: SValue)
    requires
        wf_table(t),
        find(t, k) >= t.len(),
        wf_value(v),
    ensures
        wf_table(t.push((k, v))),
{
    lemma_key_index(t, k, 0);
    let t2 = t.push((k, v));
    assert forall|i: int, j: int| 0 <= i < t2.len() && 0 <= j < t2.len() && i != j implies #[trigger] t2[i].0
        != #[trigger] t2[j].0 by {
        if i < t.len() && j < t.len() {
            assert(t2[i] == t[i] && t2[j] == t[j]);
        } else if i < t.len() {
            assert(t[i].0 != k);
        } else {
            assert(t[j].0 != k);
        }
    }
    assert forall|i: int| 0 <= i < t2.len() implies wf_value(#[trigger] t2[i].1) by {
        if i < t.len() {
            assert(t2[i] == t[i]);
        }
    }
}

/// Replacing the value of an entry keeps keys unique.
pub proof fn lemma_update_same(t: STable, i: int, v: SValue)
    requires
        wf_table(t),
        0 <= i < t.len(),
        wf_value(v),
    ensures
        wf_table(t.update(i, (t[i].0, v))),
{
    let t2 = t.update(i, (t[i].0, v));
    assert forall|a: int, b: int| 0 <= a < t2.len() && 0 <= b < t2.len() && a != b implies #[trigger] t2[a].0
        != #[trigger] t2[b].0 by {
        assert(t2[a].0 == t[a].0 && t2[b].0 == t[b].0);
    }
    assert forall|a: int| 0 <= a < t2.len() implies wf_value(#[trigger] t2[a].1) by {
        if a != i {
            assert(t2[a] == t[a]);
        }
    }
}

/// The empty table keeps keys unique.
pub proof fn lemma_empty_wf()
    ensures
        wf_table(Seq::empty()),
{
}

/// Defining a table with a header keeps keys unique.
pub proof fn lemma_insert_table_wf(t: STable, name: Seq<char>)
    requires
        wf_table(t),
    ensures
        spec_insert_table(t, name) matches Some(t2) ==> wf_table(t2),
{
    lemma_key_index(t, name, 0);
    let i = find(t, name);
    lemma_empty_wf();
    if i >= t.len() {
        lemma_push_new(t, name, SValue::Table(Seq::empty()));
    } else if let SValue::UndefinedTable(sub) = t[i].1 {
        assert(wf_value(t[i].1));
        lemma_update_same(t, i, SValue::Table(sub));
    }
}

/// Appending a table to an array of tables keeps keys unique.
pub proof fn lemma_append_array_wf(t: STable, name: Seq<char>)
    requires
        wf_table(t),
    ensures
        spec_append_array(t, name) matches Some(t2) ==> wf_table(t2),
{
    lemma_key_index(t, name, 0);
    let i = find(t, name);
    lemma_empty_wf();
    if i >= t.len() {
        let v = SValue::ArrayOfTables(seq![Seq::empty()]);
        assert(wf_value(v));
        lemma_push_new(t, name, v);
    } else if let SValue::ArrayOfTables(a) = t[i].1 {
        assert(wf_value(t[i].1));
        let v = SValue::ArrayOfTables(a.push(Seq::empty()));
        assert(wf_value(v)) by {
            assert forall|j: int| 0 <= j < a.push(Seq::empty()).len() implies wf_table(
                #[trigger] a.push(Seq::empty())[j],
            ) by {
                if j < a.len() {
                    assert(a.push(Seq::empty())[j] == a[j]);
                }
            }
        }
        lemma_update_same(t, i, v);
    }
}

/// Defining a value under a dotted key keeps keys unique.
pub proof fn lemma_dotted_wf(t: STable, path: Seq<Seq<char>>, j: int, allow_undefined: bool, name: Seq<char>, v: SValue)
    requires
        wf_table(t),
        wf_value(v),
    ensures
        spec_dotted(t, path, j, allow_undefined, name, v) matches Ok(t2) ==> wf_table(t2),
    decreases path.len() - j,
{
    if j < 0 || j >= path.len() {
        lemma_key_index(t, name, 0);
        if find(t, name) >= t.len() {
            lemma_push_new(t, name, v);
        }
    } else {
        let k = path[j];
        lemma_key_index(t, k, 0);
        let i = find(t, k);
        lemma_empty_wf();
        let t1 = if i >= t.len() { t.push((k, SValue::DottedKeyTable(Seq::empty()))) } else { t };
        if i >= t.len() {
            lemma_push_new(t, k, SValue::DottedKeyTable(Seq::empty()));
        }
        assert(wf_table(t1));
        assert(wf_value(t1[i].1));
        let e = match t1[i].1 {
            SValue::UndefinedTable(sub) => if allow_undefined { SValue::DottedKeyTable(sub) } else { t1[i].1 },
            other => other,
        };
        if let SValue::DottedKeyTable(sub) = e {
            assert(wf_table(sub));
            lemma_dotted_wf(sub, path, j + 1, allow_undefined, name, v);
            if let Ok(sub2) = spec_dotted(sub, path, j + 1, allow_undefined, name, v) {
                assert(t1[i].0 == k);
                lemma_update_same(t1, i, SValue::DottedKeyTable(sub2));
            }
        }
    }
}

/// An action whose value (if any) keeps keys unique.
pub open spec fn wf_action(a: SAction) -> bool {
    match a {
        SAction::Entry(_, _, v) => wf_value(v),
        _ => true,
    }
}

/// Following a header's path and carrying out an action keeps keys unique.
pub proof fn lemma_subtable_wf(t: STable, path: Seq<Seq<char>>, j: int, action: SAction)
    requires
        wf_table(t),
        wf_action(action),
    ensures
        spec_subtable(t, path, j, action) matches Ok(t2) ==> wf_table(t2),
    decreases path.len() - j,
{
    if j < 0 || j >= path.len() {
        match action {
            SAction::Table(name) => lemma_insert_table_wf(t, name),
            SAction::ArrayOfTables(name) => lemma_append_array_wf(t, name),
            SAction::Entry(kpath, name, v) => lemma_dotted_wf(t, kpath, 0, true, name, v),
        }
    } else {
        let k = path[j];
        lemma_key_index(t, k, 0);
        let i = find(t, k);
        lemma_empty_wf();
        let t1 = if i >= t.len() { t.push((k, SValue::UndefinedTable(Seq::empty()))) } else { t };
        if i >= t.len() {
            lemma_push_new(t, k, SValue::UndefinedTable(Seq::empty()));
        }
        assert(wf_table(t1));
        assert(wf_value(t1[i].1));
        assert(t1[i].0 == k);
        match t1[i].1 {
            SValue::Table(sub) => {
                lemma_subtable_wf(sub, path, j + 1, action);
                if let Ok(s2) = spec_subtable(sub, path, j + 1, action) {
                    lemma_update_same(t1, i, SValue::Table(s2));
                }
            },
            SValue::UndefinedTable(sub) => {
                lemma_subtable_wf(sub, path, j + 1, action);
                if let Ok(s2) = spec_subtable(sub, path, j + 1, action) {
                    lemma_update_same(t1, i, SValue::UndefinedTable(s2));
                }
            },
            SValue::DottedKeyTable(sub) => {
                lemma_subtable_wf(sub, path, j + 1, action);
                if let Ok(s2) = spec_subtable(sub, path, j + 1, action) {
                    lemma_update_same(t1, i, SValue::DottedKeyTable(s2));
                }
            },
            SValue::ArrayOfTables(a) => {
                if a.len() > 0 {
                    assert(wf_table(a[a.len() - 1]));
                    lemma_subtable_wf(a.last(), path, j + 1, action);
                    if let Ok(s2) = spec_subtable(a.last(), path, j + 1, action) {
                        let a2 = a.update(a.len() - 1, s2);
                        assert(wf_value(SValue::ArrayOfTables(a2))) by {
                            assert forall|m: int| 0 <= m < a2.len() implies wf_table(#[trigger] a2[m]) by {
                                if m != a.len() - 1 {
                                    assert(a2[m] == a[m]);
                                }
                            }
                        }
                        lemma_update_same(t1, i, SValue::ArrayOfTables(a2));
                    }
                }
            },
            _ => {},
        }
    }
}

} // verus!
