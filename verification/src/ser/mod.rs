//! TOML serialization: a document is a table whose entries are serialized into a tree, then
//! written out table by table.

pub mod datetime;
pub mod error;
pub mod tree;
pub mod utils;
pub mod value;
pub mod writer;

use vstd::prelude::*;

use self::error::Result;
use self::tree::{all_tables, inline_values_repr, tables_of};
use self::writer::{array_of_tables_repr, inline_repr, path_view, table_repr, Formatter};

verus! {

/// A serializer for a TOML document.
#[derive(Debug)]
pub struct Serializer<'a> {
    pub writer: &'a mut String,
}

impl<'a> Serializer<'a> {
    /// Creates a new TOML serializer that serializes to the given buffer.
    pub fn new(buf: &'a mut String) -> (r: Self)
        ensures
            *r.writer == *old(buf),
            *final(r.writer) == *final(buf),
    {
        Self::from_fmt_writer(buf)
    }

    /// Creates a new TOML serializer that serializes to the given writer.
    pub fn from_fmt_writer(writer: &'a mut String) -> (r: Self)
        ensures
            *r.writer == *old(writer),
            *final(r.writer) == *final(writer),
    {
        Self { writer }
    }

    /// Starts the document's root table, from a map.
    pub fn serialize_map(self, len: Option<usize>) -> (r: Result<TableSerializer<'a>>)
        ensures
            r matches Ok(t) && *t.writer == *old(self.writer) && *final(t.writer) == *final(self.writer)
                && t.table.table@.len() == 0 && t.table.key is None,
    {
        Ok(TableSerializer::start(self.writer, len))
    }

    /// Starts the document's root table, from a struct.
    pub fn serialize_struct(self, _name: &'static str, len: usize) -> (r: Result<TableSerializer<'a>>)
        ensures
            r matches Ok(t) && *t.writer == *old(self.writer) && *final(t.writer) == *final(self.writer)
                && t.table.table@.len() == 0 && t.table.key is None,
    {
        Ok(TableSerializer::start(self.writer, Some(len)))
    }

    /// Starts a document that holds a tuple variant: its name as the only key.
    pub fn serialize_tuple_variant(self, _name: &'static str, _variant_index: u32, variant: &'static str, len: usize) -> (r: Result<WrappedArraySerializer<'a>>)
        ensures
            r matches Ok(a) && *a.writer == *old(self.writer) && *final(a.writer) == *final(self.writer)
                && a.key == variant && a.arr.arr@.len() == 0,
    {
        Ok(WrappedArraySerializer::start(self.writer, variant, len))
    }

    /// Starts a document that holds a struct variant: its name as the only key.
    pub fn serialize_struct_variant(self, _name: &'static str, _variant_index: u32, variant: &'static str, len: usize) -> (r: Result<WrappedTableSerializer<'a>>)
        ensures
            r matches Ok(t) && *t.writer == *old(self.writer) && *final(t.writer) == *final(self.writer)
                && t.key == variant && t.table.table@.len() == 0 && t.table.key is None,
    {
        Ok(WrappedTableSerializer::start(self.writer, variant, len))
    }
}

/// Serializes a tuple variant as the whole document: `variant = [...]`, or an array of tables
/// named after the variant.
#[derive(Debug)]
pub struct WrappedArraySerializer<'a> {
    pub writer: &'a mut String,
    pub key: &'static str,
    pub arr: tree::ArraySerializer,
}

impl<'a> WrappedArraySerializer<'a> {
    fn start(writer: &'a mut String, key: &'static str, len: usize) -> (r: Self)
        ensures
            *r.writer == *old(writer),
            *final(r.writer) == *final(writer),
            r.key == key,
            r.arr.arr@.len() == 0,
    {
        Self { writer, key, arr: tree::ArraySerializer::start(Some(len)) }
    }

    /// Writes the variant: as an array of tables if all fields are tables (and there is at least
    /// one), else as a key/value pair with an inline array.
    pub fn end(self) -> (r: Result<()>)
        ensures
            r is Ok,
            self.arr.arr@.len() > 0 && all_tables(self.arr.arr@) ==> (*final(self.writer))@ == (*old(self.writer))@
                + array_of_tables_repr(tables_of(self.arr.arr@), seq![self.key@]),
            !(self.arr.arr@.len() > 0 && all_tables(self.arr.arr@)) ==> (*final(self.writer))@ == (*old(self.writer))@
                + inline_repr(self.key@, seq!['['] + inline_values_repr(self.arr.arr@) + seq![']']),
    {
        let ghost a = self.arr.arr@;
        let w = self.writer;
        match self.arr.end_inner() {
            Ok(tree::Array::Inline(value)) => {
                Formatter::write_inline(self.key, value.as_str(), w);
            },
            Ok(tree::Array::Table(array)) => {
                let key = self.key.to_owned();
                let mut path: Vec<&String> = Vec::new();
                path.push(&key);
                assert(path_view(path@) =~= seq![self.key@]);
                Formatter::write_array_of_tables(array.as_slice(), path.as_slice(), w);
            },
            Err(e) => {
                return Err(e);
            },
        }
        Ok(())
    }
}

/// Serializes the document's root table.
#[derive(Debug)]
pub struct TableSerializer<'a> {
    pub writer: &'a mut String,
    pub table: tree::TableSerializer,
}

impl<'a> TableSerializer<'a> {
    fn start(writer: &'a mut String, len: Option<usize>) -> (r: Self)
        ensures
            *r.writer == *old(writer),
            *final(r.writer) == *final(writer),
            r.table.table@.len() == 0,
            r.table.key is None,
    {
        Self { writer, table: tree::TableSerializer::start(len) }
    }

    /// Writes the root table.
    pub fn end(self) -> (r: Result<()>)
        ensures
            r is Ok,
            (*final(self.writer))@ == (*old(self.writer))@ + table_repr(self.table.table@, Seq::empty()),
    {
        let w = self.writer;
        let table = self.table.end_inner();
        let path: Vec<&String> = Vec::new();
        assert(path_view(path@) =~= Seq::<Seq<char>>::empty());
        Formatter::write_table(table.as_slice(), path.as_slice(), w);
        Ok(())
    }
}

/// Serializes a struct variant as the whole document: a table named after the variant.
#[derive(Debug)]
pub struct WrappedTableSerializer<'a> {
    pub writer: &'a mut String,
    pub key: &'static str,
    pub table: tree::TableSerializer,
}

impl<'a> WrappedTableSerializer<'a> {
    fn start(writer: &'a mut String, key: &'static str, len: usize) -> (r: Self)
        ensures
            *r.writer == *old(writer),
            *final(r.writer) == *final(writer),
            r.key == key,
            r.table.table@.len() == 0,
            r.table.key is None,
    {
        Self { writer, key, table: tree::TableSerializer::start(Some(len)) }
    }

    /// Writes the table of the variant's fields under the variant's name.
    pub fn end(self) -> (r: Result<()>)
        ensures
            r is Ok,
            (*final(self.writer))@ == (*old(self.writer))@ + table_repr(self.table.table@, seq![self.key@]),
    {
        let w = self.writer;
        let table = self.table.end_inner();
        let key = self.key.to_owned();
        let mut path: Vec<&String> = Vec::new();
        path.push(&key);
        assert(path_view(path@) =~= seq![self.key@]);
        Formatter::write_table(table.as_slice(), path.as_slice(), w);
        Ok(())
    }
}

} // verus!
