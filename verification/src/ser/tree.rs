//! The intermediate tree that values are serialized into before a document is written: every
//! value that can be written inline is already text, tables and arrays of tables are kept apart.

use vstd::prelude::*;
use vstd::string::StringExecFns;

use super::error::{Error, ErrorKind, Result};
use super::value::byte_list_repr;
use super::writer::{bool_repr, decimal_repr, key_repr, lemma_tables_size_elem, string_repr, Formatter, Integer};
use crate::text::push_char;

verus! {

/// A serialized value.
#[derive(Debug, PartialEq, Eq)]
pub enum Value {
    /// Simple value (int, float, string, etc) or inline array/table/etc
    Inline(String),
    /// Table or array of tables
    Table(Table),
}

/// A table, or an array of tables.
#[derive(Debug, PartialEq, Eq)]
pub enum Table {
    /// A regular table
    Table(Vec<(String, Value)>),
    /// An array of tables
    Array(Vec<Vec<(String, Value)>>),
}

/// A serialized array.
#[derive(Debug)]
pub enum Array {
    /// An inline array
    Inline(String),
    /// An array of tables
    Table(Vec<Vec<(String, Value)>>),
}

/// The number of entries and tables in a sequence of entries, nested ones included.
pub open spec fn entries_size(e: Seq<(String, Value)>) -> nat
    decreases e,
{
    if e.len() == 0 {
        0
    } else {
        entries_size(e.drop_last()) + 1 + value_size(e[e.len() - 1].1)
    }
}

/// The number of entries and tables in a value, nested ones included.
pub open spec fn value_size(v: Value) -> nat
    decreases v,
{
    match v {
        Value::Inline(_) => 0,
        Value::Table(t) => table_size(t),
    }
}

/// The number of entries and tables in a table, nested ones included.
pub open spec fn table_size(t: Table) -> nat
    decreases t,
{
    match t {
        Table::Table(e) => 1 + entries_size(e@),
        Table::Array(a) => 1 + tables_size(a@),
    }
}

/// The number of entries and tables in a sequence of tables, nested ones included.
pub open spec fn tables_size(a: Seq<Vec<(String, Value)>>) -> nat
    decreases a,
{
    if a.len() == 0 {
        0
    } else {
        tables_size(a.drop_last()) + 1 + entries_size(a[a.len() - 1]@)
    }
}

/// A value as it is written inline (after `=`, or inside an inline array or table).
pub open spec fn inline_value_repr(v: Value) -> Seq<char>
    decreases value_size(v), 3int,
{
    match v {
        Value::Inline(s) => s@,
        Value::Table(t) => inline_table_repr(t),
    }
}

/// A table written inline as `{ key = value, ... }`, or an array of tables as `[{ ... }, ...]`.
pub open spec fn inline_table_repr(t: Table) -> Seq<char>
    decreases table_size(t), 2int,
{
    match t {
        Table::Table(e) => seq!['{', ' '] + inline_entries_repr(e@) + seq![' ', '}'],
        Table::Array(a) => seq!['['] + inline_tables_repr(a@) + seq![']'],
    }
}

/// The `key = value` pairs of an inline table, separated by `, `.
pub open spec fn inline_entries_repr(e: Seq<(String, Value)>) -> Seq<char>
    decreases entries_size(e), 1int,
{
    if e.len() == 0 {
        Seq::empty()
    } else {
        let last = key_repr(e.last().0@) + seq![' ', '=', ' '] + inline_value_repr(e.last().1);
        if e.len() == 1 {
            last
        } else {
            inline_entries_repr(e.drop_last()) + seq![',', ' '] + last
        }
    }
}

/// Tables written inline, separated by `, `.
pub open spec fn inline_tables_repr(a: Seq<Vec<(String, Value)>>) -> Seq<char>
    decreases tables_size(a), 1int,
{
    if a.len() == 0 {
        Seq::empty()
    } else {
        let last = seq!['{', ' '] + inline_entries_repr(a.last()@) + seq![' ', '}'];
        if a.len() == 1 {
            last
        } else {
            inline_tables_repr(a.drop_last()) + seq![',', ' '] + last
        }
    }
}

/// Values written inline, separated by `, `.
pub open spec fn inline_values_repr(a: Seq<Value>) -> Seq<char>
    decreases a.len(),
{
    if a.len() == 0 {
        Seq::empty()
    } else if a.len() == 1 {
        inline_value_repr(a[0])
    } else {
        inline_values_repr(a.drop_last()) + seq![',', ' '] + inline_value_repr(a.last())
    }
}

/// All values of the array are tables (not arrays of tables).
pub open spec fn all_tables(a: Seq<Value>) -> bool {
    forall|i: int| 0 <= i < a.len() ==> (#[trigger] a[i] matches Value::Table(Table::Table(_)))
}

/// The tables of an array that holds only tables.
pub open spec fn tables_of(a: Seq<Value>) -> Seq<Vec<(String, Value)>> {
    Seq::new(a.len(), |i: int| a[i]->Table_0->Table_0)
}

/// Each entry's value is smaller than the entries.
pub proof fn lemma_entries_size_elem(e: Seq<(String, Value)>, i: int)
    requires
        0 <= i < e.len(),
    ensures
        value_size(e[i].1) < entries_size(e),
    decreases e.len(),
{
    if i < e.len() - 1 {
        lemma_entries_size_elem(e.drop_last(), i);
    }
}

/// Writes a value inline.
pub fn write_inline_value(v: &Value, buf: &mut String)
    ensures
        final(buf)@ == old(buf)@ + inline_value_repr(*v),
    decreases value_size(*v), 3int,
{
    match v {
        Value::Inline(s) => buf.append(s.as_str()),
        Value::Table(t) => write_inline_table(t, buf),
    }
}

/// Writes a table, or an array of tables, inline.
pub fn write_inline_table(t: &Table, buf: &mut String)
    ensures
        final(buf)@ == old(buf)@ + inline_table_repr(*t),
    decreases table_size(*t), 2int,
{
    match t {
        Table::Table(e) => {
            push_char(buf, '{');
            push_char(buf, ' ');
            write_inline_entries(e.as_slice(), buf);
            push_char(buf, ' ');
            push_char(buf, '}');
        },
        Table::Array(a) => {
            push_char(buf, '[');
            write_inline_tables(a.as_slice(), buf);
            push_char(buf, ']');
        },
    }
    assert(buf@ =~= old(buf)@ + inline_table_repr(*t));
}

/// Writes the `key = value` pairs of an inline table, separated by `, `.
pub fn write_inline_entries(e: &[(String, Value)], buf: &mut String)
    ensures
        final(buf)@ == old(buf)@ + inline_entries_repr(e@),
    decreases entries_size(e@), 1int,
{
    let mut i: usize = 0;
    while i < e.len()
        invariant
            0 <= i <= e@.len(),
            buf@ == old(buf)@ + inline_entries_repr(e@.take(i as int)),
        decreases e@.len() - i,
    {
        let ghost b0 = buf@;
        if i > 0 {
            push_char(buf, ',');
            push_char(buf, ' ');
        }
        Formatter::write_key(e[i].0.as_str(), buf);
        push_char(buf, ' ');
        push_char(buf, '=');
        push_char(buf, ' ');
        proof {
            lemma_entries_size_elem(e@, i as int);
        }
        write_inline_value(&e[i].1, buf);
        i = i + 1;
        assert(e@.take(i as int).drop_last() =~= e@.take(i - 1));
        assert(buf@ =~= old(buf)@ + inline_entries_repr(e@.take(i as int)));
    }
    assert(e@.take(i as int) =~= e@);
}

/// Writes tables inline, separated by `, `.
pub fn write_inline_tables(a: &[Vec<(String, Value)>], buf: &mut String)
    ensures
        final(buf)@ == old(buf)@ + inline_tables_repr(a@),
    decreases tables_size(a@), 1int,
{
    let mut i: usize = 0;
    while i < a.len()
        invariant
            0 <= i <= a@.len(),
            buf@ == old(buf)@ + inline_tables_repr(a@.take(i as int)),
        decreases a@.len() - i,
    {
        if i > 0 {
            push_char(buf, ',');
            push_char(buf, ' ');
        }
        push_char(buf, '{');
        push_char(buf, ' ');
        proof {
            lemma_tables_size_elem(a@, i as int);
        }
        write_inline_entries(a[i].as_slice(), buf);
        push_char(buf, ' ');
        push_char(buf, '}');
        i = i + 1;
        assert(a@.take(i as int).drop_last() =~= a@.take(i - 1));
        assert(buf@ =~= old(buf)@ + inline_tables_repr(a@.take(i as int)));
    }
    assert(a@.take(i as int) =~= a@);
}

/// `v` is what an array of these values becomes: an array of tables if all of them are tables
/// (and there is at least one), else the text of an inline array.
pub open spec fn array_value(a: Seq<Value>, v: Value) -> bool {
    if a.len() > 0 && all_tables(a) {
        v matches Value::Table(Table::Array(t)) && t@ == tables_of(a)
    } else {
        v matches Value::Inline(s) && s@ == seq!['['] + inline_values_repr(a) + seq![']']
    }
}

/// Serializes values into the tree.
#[derive(Debug)]
pub struct Serializer;

impl Serializer {
    /// `true` or `false`.
    pub fn serialize_bool(self, value: bool) -> (r: Result<Value>)
        ensures
            r matches Ok(Value::Inline(s)) && s@ == bool_repr(value),
    {
        Ok(Value::Inline((if value { "true" } else { "false" }).to_owned()))
    }

    /// An integer in decimal.
    pub fn serialize_integer<I: Integer>(self, value: &I) -> (r: Result<Value>)
        ensures
            r matches Ok(Value::Inline(s)) && s@ == decimal_repr(value.int_value()),
    {
        let mut buf = String::new();
        Formatter::write_integer(value, &mut buf);
        assert(buf@ =~= decimal_repr(value.int_value()));
        Ok(Value::Inline(buf))
    }

    /// A character, as a string.
    pub fn serialize_char(self, value: char) -> (r: Result<Value>)
        ensures
            r matches Ok(Value::Inline(s)) && s@ == string_repr(seq![value]),
    {
        let mut s = String::new();
        push_char(&mut s, value);
        assert(s@ =~= seq![value]);
        self.serialize_str(s.as_str())
    }

    /// A string: multi-line if it holds a newline.
    pub fn serialize_str(self, value: &str) -> (r: Result<Value>)
        ensures
            r matches Ok(Value::Inline(s)) && s@ == string_repr(value@),
    {
        let mut buf = String::new();
        Formatter::write_string(value, &mut buf);
        assert(buf@ =~= string_repr(value@));
        Ok(Value::Inline(buf))
    }

    /// Bytes, as an inline array of their values.
    pub fn serialize_bytes(self, value: &[u8]) -> (r: Result<Value>)
        ensures
            r matches Ok(Value::Inline(s)) && s@ == byte_list_repr(value@) + seq![']'],
    {
        let mut buf = String::new();
        let _ = super::value::Serializer::new(&mut buf).serialize_bytes(value);
        assert(buf@ =~= byte_list_repr(value@) + seq![']']);
        Ok(Value::Inline(buf))
    }

    /// `None` cannot be written: TOML has no null.
    pub fn serialize_none(self) -> (r: Result<Value>)
        ensures
            r matches Err(e) && e.spec_kind() == ErrorKind::UnsupportedValue("None"),
    {
        Err(Error::from_kind(ErrorKind::UnsupportedValue("None")))
    }

    /// `()` cannot be written.
    pub fn serialize_unit(self) -> (r: Result<Value>)
        ensures
            r matches Err(e) && e.spec_kind() == ErrorKind::UnsupportedType("()"),
    {
        Err(Error::from_kind(ErrorKind::UnsupportedType("()")))
    }

    /// A unit variant, as the string of its name.
    pub fn serialize_unit_variant(self, _name: &'static str, _variant_index: u32, variant: &'static str) -> (r: Result<Value>)
        ensures
            r matches Ok(Value::Inline(s)) && s@ == string_repr(variant@),
    {
        self.serialize_str(variant)
    }
}

/// Collects the values of an array.
#[derive(Debug)]
pub struct ArraySerializer {
    pub arr: Vec<Value>,
}

impl ArraySerializer {
    /// An array with no values yet (with room for `len` of them, if given).
    pub fn start(len: Option<usize>) -> (r: Self)
        ensures
            r.arr@.len() == 0,
    {
        let arr = match len {
            Some(n) => Vec::with_capacity(n),
            None => Vec::new(),
        };
        Self { arr }
    }

    /// Adds a value.
    pub fn push(&mut self, value: Value)
        ensures
            final(self).arr@ == old(self).arr@.push(value),
    {
        self.arr.push(value);
    }

    /// An array of tables if all values are tables (and there is at least one), else the text of
    /// an inline array.
    pub fn end_inner(self) -> (r: Result<Array>)
        ensures
            self.arr@.len() > 0 && all_tables(self.arr@) ==> (r matches Ok(Array::Table(t)) && t@ == tables_of(self.arr@)),
            !(self.arr@.len() > 0 && all_tables(self.arr@)) ==> (r matches Ok(Array::Inline(s))
                && s@ == seq!['['] + inline_values_repr(self.arr@) + seq![']']),
    {
        let n = self.arr.len();
        let mut all = n > 0;
        let mut i: usize = 0;
        while i < n
            invariant
                n == self.arr@.len(),
                0 <= i <= n,
                all == (n > 0 && forall|j: int| 0 <= j < i ==> (#[trigger] self.arr@[j] matches Value::Table(Table::Table(_)))),
            decreases n - i,
        {
            match &self.arr[i] {
                Value::Table(Table::Table(_)) => {},
                _ => {
                    all = false;
                },
            }
            i = i + 1;
        }
        if all {
            let ghost a = self.arr@;
            // Reverse the values, so that popping gives them in order
            let mut arr = self.arr;
            let mut rev: Vec<Value> = Vec::new();
            while arr.len() > 0
                invariant
                    n == a.len(),
                    arr@.len() + rev@.len() == n,
                    forall|j: int| 0 <= j < arr@.len() ==> #[trigger] arr@[j] == a[j],
                    forall|j: int| 0 <= j < rev@.len() ==> #[trigger] rev@[j] == a[n - 1 - j],
                decreases arr@.len(),
            {
                let v = arr.pop().unwrap();
                rev.push(v);
            }
            let mut tables: Vec<Vec<(String, Value)>> = Vec::new();
            while rev.len() > 0
                invariant
                    n == a.len(),
                    all_tables(a),
                    rev@.len() + tables@.len() == n,
                    forall|j: int| 0 <= j < rev@.len() ==> #[trigger] rev@[j] == a[n - 1 - j],
                    forall|j: int| 0 <= j < tables@.len() ==> #[trigger] tables@[j] == tables_of(a)[j],
                decreases rev@.len(),
            {
                let k = tables.len();
                let v = rev.pop().unwrap();
                assert(v == a[k as int]);
                match v {
                    Value::Table(Table::Table(t)) => {
                        tables.push(t);
                    },
                    _ => {
                        assert(a[k as int] matches Value::Table(Table::Table(_)));
                        return Err(Error::from_kind(ErrorKind::UnsupportedValue("array")));
                    },
                }
            }
            assert(tables@ =~= tables_of(a));
            Ok(Array::Table(tables))
        } else {
            let mut buf = String::new();
            push_char(&mut buf, '[');
            let mut j: usize = 0;
            while j < n
                invariant
                    n == self.arr@.len(),
                    0 <= j <= n,
                    buf@ == seq!['['] + inline_values_repr(self.arr@.take(j as int)),
                decreases n - j,
            {
                if j > 0 {
                    push_char(&mut buf, ',');
                    push_char(&mut buf, ' ');
                }
                write_inline_value(&self.arr[j], &mut buf);
                j = j + 1;
                assert(self.arr@.take(j as int).drop_last() =~= self.arr@.take(j - 1));
                assert(buf@ =~= seq!['['] + inline_values_repr(self.arr@.take(j as int)));
            }
            assert(self.arr@.take(j as int) =~= self.arr@);
            push_char(&mut buf, ']');
            Ok(Array::Inline(buf))
        }
    }

    /// The array as a value: an array of tables, or an inline array.
    pub fn end(self) -> (r: Result<Value>)
        ensures
            r matches Ok(v) && array_value(self.arr@, v),
    {
        match self.end_inner() {
            Ok(Array::Table(arr)) => Ok(Value::Table(Table::Array(arr))),
            Ok(Array::Inline(arr)) => Ok(Value::Inline(arr)),
            Err(e) => Err(e),
        }
    }
}

/// Collects the entries of a table.
#[derive(Debug)]
pub struct TableSerializer {
    pub table: Vec<(String, Value)>,
    pub key: Option<String>,
}

impl TableSerializer {
    /// A table with no entries yet (with room for `len` of them, if given).
    pub fn start(len: Option<usize>) -> (r: Self)
        ensures
            r.table@.len() == 0,
            r.key is None,
    {
        let table = match len {
            Some(n) => Vec::with_capacity(n),
            None => Vec::new(),
        };
        Self { table, key: None }
    }

    /// Sets the key of the next entry (as the key serializer wrote it).
    pub fn serialize_key(&mut self, key: String)
        ensures
            final(self).table == old(self).table,
            final(self).key == Some(key),
    {
        self.key = Some(key);
    }

    /// Adds an entry under the key set last.
    pub fn serialize_value(&mut self, value: Value)
        requires
            old(self).key is Some,
        ensures
            final(self).table@ == old(self).table@.push((old(self).key->Some_0, value)),
            final(self).key is None,
    {
        let key = self.key.take().unwrap();
        self.table.push((key, value));
    }

    /// Adds an entry.
    pub fn serialize_entry(&mut self, key: String, value: Value)
        ensures
            final(self).table@ == old(self).table@.push((key, value)),
            final(self).key == old(self).key,
    {
        self.table.push((key, value));
    }

    /// The entries, in order.
    pub fn end_inner(self) -> (r: Vec<(String, Value)>)
        ensures
            r == self.table,
    {
        self.table
    }

    /// The table as a value.
    pub fn end(self) -> (r: Value)
        ensures
            r == Value::Table(Table::Table(self.table)),
    {
        Value::Table(Table::Table(self.end_inner()))
    }
}

/// Collects the fields of a tuple variant, written as a table with the variant as its only key.
#[derive(Debug)]
pub struct WrappedArraySerializer {
    pub key: &'static str,
    pub arr: ArraySerializer,
}

impl WrappedArraySerializer {
    /// No fields yet.
    pub fn start(key: &'static str, len: usize) -> (r: Self)
        ensures
            r.key == key,
            r.arr.arr@.len() == 0,
    {
        Self { key, arr: ArraySerializer::start(Some(len)) }
    }

    /// The variant's name and its fields as an array.
    pub fn end_inner(self) -> (r: Result<(String, Value)>)
        ensures
            r matches Ok((k, v)) && k@ == self.key@ && array_value(self.arr.arr@, v),
    {
        let key = self.key.to_owned();
        match self.arr.end() {
            Ok(v) => Ok((key, v)),
            Err(e) => Err(e),
        }
    }
}

/// Collects the fields of a struct variant, written as a table with the variant as its only key.
#[derive(Debug)]
pub struct WrappedTableSerializer {
    pub key: &'static str,
    pub table: TableSerializer,
}

impl WrappedTableSerializer {
    /// No fields yet.
    pub fn start(key: &'static str, len: usize) -> (r: Self)
        ensures
            r.key == key,
            r.table.table@.len() == 0,
            r.table.key is None,
    {
        Self { key, table: TableSerializer::start(Some(len)) }
    }

    /// A table that holds the struct's fields as a table under the variant's name.
    pub fn end(self) -> (r: Value)
        ensures
            r matches Value::Table(Table::Table(t)) && t@.len() == 1 && t@[0].0@ == self.key@
                && t@[0].1 == Value::Table(Table::Table(self.table.table)),
    {
        let mut t: Vec<(String, Value)> = Vec::new();
        t.push((self.key.to_owned(), self.table.end()));
        Value::Table(Table::Table(t))
    }
}

/// Writes values inline, as the serializer of the tree has already turned inline values into
/// text.
#[derive(Debug)]
pub struct InlineSerializer<'a> {
    pub buf: &'a mut String,
}

impl<'a> InlineSerializer<'a> {
    /// Creates a serializer that writes to the buffer.
    pub fn new(buf: &'a mut String) -> (r: Self)
        ensures
            *r.buf == *old(buf),
            *final(r.buf) == *final(buf),
    {
        Self { buf }
    }

    /// Writes text that is already an inline value.
    pub fn serialize_str(self, value: &str) -> (r: Result<()>)
        ensures
            r is Ok,
            (*final(self.buf))@ == (*old(self.buf))@ + value@,
    {
        self.buf.append(value);
        Ok(())
    }

    /// Writes a value of the tree inline.
    pub fn serialize_value(self, value: &Value) -> (r: Result<()>)
        ensures
            r is Ok,
            (*final(self.buf))@ == (*old(self.buf))@ + inline_value_repr(*value),
    {
        write_inline_value(value, self.buf);
        Ok(())
    }

    /// Starts an inline array.
    pub fn serialize_seq(self) -> (r: Result<InlineArraySerializer<'a>>)
        ensures
            r matches Ok(a) && (*a.buf)@ == (*old(self.buf))@ + seq!['['] && a.first
                && *final(a.buf) == *final(self.buf),
    {
        Ok(InlineArraySerializer::start(self.buf))
    }

    /// Starts an inline table.
    pub fn serialize_map(self) -> (r: Result<InlineTableSerializer<'a>>)
        ensures
            r matches Ok(t) && (*t.buf)@ == (*old(self.buf))@ + seq!['{', ' '] && t.first
                && *final(t.buf) == *final(self.buf),
    {
        Ok(InlineTableSerializer::start(self.buf))
    }
}

/// Writes an inline array: `[`, the elements separated by `, `, then `]`.
#[derive(Debug)]
pub struct InlineArraySerializer<'a> {
    pub buf: &'a mut String,
    pub first: bool,
}

impl<'a> InlineArraySerializer<'a> {
    /// Writes the opening bracket.
    pub fn start(buf: &'a mut String) -> (r: Self)
        ensures
            (*r.buf)@ == (*old(buf))@ + seq!['['],
            r.first,
            *final(r.buf) == *final(buf),
    {
        push_char(buf, '[');
        Self { buf, first: true }
    }

    /// Writes the separator before an element (none before the first), and hands out the buffer
    /// for the element.
    pub fn element(&mut self) -> (r: &mut String)
        ensures
            (*r)@ == (*old(self).buf)@ + (if old(self).first { Seq::empty() } else { seq![',', ' '] }),
            *final(final(self).buf) == *final(old(self).buf),
            *final(self).buf == *final(r),
            !final(self).first,
    {
        if !self.first {
            push_char(self.buf, ',');
            push_char(self.buf, ' ');
        }
        self.first = false;
        &mut *self.buf
    }

    /// Writes the closing bracket.
    pub fn end(self) -> (r: Result<()>)
        ensures
            r is Ok,
            (*final(self.buf))@ == (*old(self.buf))@ + seq![']'],
    {
        push_char(self.buf, ']');
        Ok(())
    }
}

/// Writes an inline table: `{ `, the `key = value` pairs separated by `, `, then ` }`.
#[derive(Debug)]
pub struct InlineTableSerializer<'a> {
    pub buf: &'a mut String,
    pub first: bool,
}

impl<'a> InlineTableSerializer<'a> {
    /// Writes `{ `.
    pub fn start(buf: &'a mut String) -> (r: Self)
        ensures
            (*r.buf)@ == (*old(buf))@ + seq!['{', ' '],
            r.first,
            *final(r.buf) == *final(buf),
    {
        push_char(buf, '{');
        push_char(buf, ' ');
        Self { buf, first: true }
    }

    /// Writes the separator before a key (none before the first), and hands out the buffer for
    /// the key.
    pub fn key(&mut self) -> (r: &mut String)
        ensures
            (*r)@ == (*old(self).buf)@ + (if old(self).first { Seq::empty() } else { seq![',', ' '] }),
            *final(final(self).buf) == *final(old(self).buf),
            *final(self).buf == *final(r),
            !final(self).first,
    {
        if !self.first {
            push_char(self.buf, ',');
            push_char(self.buf, ' ');
        }
        self.first = false;
        &mut *self.buf
    }

    /// Writes ` = ` after a key, and hands out the buffer for the value.
    pub fn value(&mut self) -> (r: &mut String)
        ensures
            (*r)@ == (*old(self).buf)@ + seq![' ', '=', ' '],
            *final(final(self).buf) == *final(old(self).buf),
            *final(self).buf == *final(r),
            final(self).first == old(self).first,
    {
        push_char(self.buf, ' ');
        push_char(self.buf, '=');
        push_char(self.buf, ' ');
        &mut *self.buf
    }

    /// Writes ` }`.
    pub fn end(self) -> (r: Result<()>)
        ensures
            r is Ok,
            (*final(self.buf))@ == (*old(self.buf))@ + seq![' ', '}'],
    {
        push_char(self.buf, ' ');
        push_char(self.buf, '}');
        Ok(())
    }
}

} // verus!
