//! A serializer that writes one value inline, as it stands after `=` or inside an inline array
//! or table.

use vstd::prelude::*;
use vstd::string::StringExecFns;

use super::error::{Error, ErrorKind, Result};
use super::writer::{bool_repr, decimal_repr, key_repr, string_repr, Formatter, Integer};
use crate::text::push_char;

verus! {

/// A serializer for TOML values.
#[derive(Debug)]
pub struct Serializer<'a> {
    pub writer: &'a mut String,
}

/// The text of a list of numbers in an inline array: `[1, 2, 3]`.
pub open spec fn byte_list_repr(b: Seq<u8>) -> Seq<char>
    decreases b.len(),
{
    if b.len() == 0 {
        seq!['[']
    } else if b.len() == 1 {
        seq!['['] + decimal_repr(b[0] as int)
    } else {
        byte_list_repr(b.drop_last()) + seq![',', ' '] + decimal_repr(b.last() as int)
    }
}

impl<'a> Serializer<'a> {
    /// Creates a new serializer that writes to the given writer.
    pub fn new(writer: &'a mut String) -> (r: Self)
        ensures
            *r.writer == *old(writer),
            *final(r.writer) == *final(writer),
    {
        Self { writer }
    }

    /// Writes `true` or `false`.
    pub fn serialize_bool(self, value: bool) -> (r: Result<()>)
        ensures
            r is Ok,
            (*final(self.writer))@ == (*old(self.writer))@ + bool_repr(value),
    {
        self.writer.append(if value { "true" } else { "false" });
        Ok(())
    }

    /// Writes an integer in decimal.
    pub fn serialize_integer<I: Integer>(self, value: &I) -> (r: Result<()>)
        ensures
            r is Ok,
            (*final(self.writer))@ == (*old(self.writer))@ + decimal_repr(value.int_value()),
    {
        Formatter::write_integer(value, self.writer);
        Ok(())
    }

    /// Writes an `i8` in decimal.
    pub fn serialize_i8(self, value: i8) -> (r: Result<()>)
        ensures
            r is Ok,
            (*final(self.writer))@ == (*old(self.writer))@ + decimal_repr(value as int),
    {
        self.serialize_integer(&value)
    }

    /// Writes an `i16` in decimal.
    pub fn serialize_i16(self, value: i16) -> (r: Result<()>)
        ensures
            r is Ok,
            (*final(self.writer))@ == (*old(self.writer))@ + decimal_repr(value as int),
    {
        self.serialize_integer(&value)
    }

    /// Writes an `i32` in decimal.
    pub fn serialize_i32(self, value: i32) -> (r: Result<()>)
        ensures
            r is Ok,
            (*final(self.writer))@ == (*old(self.writer))@ + decimal_repr(value as int),
    {
        self.serialize_integer(&value)
    }

    /// Writes an `i64` in decimal.
    pub fn serialize_i64(self, value: i64) -> (r: Result<()>)
        ensures
            r is Ok,
            (*final(self.writer))@ == (*old(self.writer))@ + decimal_repr(value as int),
    {
        self.serialize_integer(&value)
    }

    /// Writes an `i128` in decimal.
    pub fn serialize_i128(self, value: i128) -> (r: Result<()>)
        ensures
            r is Ok,
            (*final(self.writer))@ == (*old(self.writer))@ + decimal_repr(value as int),
    {
        self.serialize_integer(&value)
    }

    /// Writes a `u8` in decimal.
    pub fn serialize_u8(self, value: u8) -> (r: Result<()>)
        ensures
            r is Ok,
            (*final(self.writer))@ == (*old(self.writer))@ + decimal_repr(value as int),
    {
        self.serialize_integer(&value)
    }

    /// Writes a `u16` in decimal.
    pub fn serialize_u16(self, value: u16) -> (r: Result<()>)
        ensures
            r is Ok,
            (*final(self.writer))@ == (*old(self.writer))@ + decimal_repr(value as int),
    {
        self.serialize_integer(&value)
    }

    /// Writes a `u32` in decimal.
    pub fn serialize_u32(self, value: u32) -> (r: Result<()>)
        ensures
            r is Ok,
            (*final(self.writer))@ == (*old(self.writer))@ + decimal_repr(value as int),
    {
        self.serialize_integer(&value)
    }

    /// Writes a `u64` in decimal.
    pub fn serialize_u64(self, value: u64) -> (r: Result<()>)
        ensures
            r is Ok,
            (*final(self.writer))@ == (*old(self.writer))@ + decimal_repr(value as int),
    {
        self.serialize_integer(&value)
    }

    /// Writes a `u128` in decimal.
    pub fn serialize_u128(self, value: u128) -> (r: Result<()>)
        ensures
            r is Ok,
            (*final(self.writer))@ == (*old(self.writer))@ + decimal_repr(value as int),
    {
        self.serialize_integer(&value)
    }

    /// Writes a character as a string.
    pub fn serialize_char(self, value: char) -> (r: Result<()>)
        ensures
            r is Ok,
            (*final(self.writer))@ == (*old(self.writer))@ + string_repr(seq![value]),
    {
        let mut s = String::new();
        push_char(&mut s, value);
        self.serialize_str(s.as_str())
    }

    /// Writes a string: as a multi-line basic string if it holds a newline, else as a basic one.
    pub fn serialize_str(self, value: &str) -> (r: Result<()>)
        ensures
            r is Ok,
            (*final(self.writer))@ == (*old(self.writer))@ + string_repr(value@),
    {
        Formatter::write_string(value, self.writer);
        Ok(())
    }

    /// Writes bytes as an inline array of their values.
    pub fn serialize_bytes(self, value: &[u8]) -> (r: Result<()>)
        ensures
            r is Ok,
            (*final(self.writer))@ == (*old(self.writer))@ + byte_list_repr(value@) + seq![']'],
    {
        let w = self.writer;
        let ghost w0 = (*w)@;
        push_char(w, '[');
        let mut i: usize = 0;
        while i < value.len()
            invariant
                0 <= i <= value@.len(),
                (*w)@ == w0 + byte_list_repr(value@.take(i as int)),
            decreases value@.len() - i,
        {
            if i > 0 {
                push_char(w, ',');
                push_char(w, ' ');
            }
            value[i].fmt(w);
            i = i + 1;
            assert(value@.take(i as int).drop_last() =~= value@.take(i - 1));
            assert((*w)@ =~= w0 + byte_list_repr(value@.take(i as int)));
        }
        assert(value@.take(i as int) =~= value@);
        push_char(w, ']');
        Ok(())
    }

    /// `None` cannot be written: TOML has no null.
    pub fn serialize_none(self) -> (r: Result<()>)
        ensures
            r matches Err(e) && e.spec_kind() == ErrorKind::UnsupportedValue("None"),
    {
        Err(Error::from_kind(ErrorKind::UnsupportedValue("None")))
    }

    /// `()` cannot be written.
    pub fn serialize_unit(self) -> (r: Result<()>)
        ensures
            r matches Err(e) && e.spec_kind() == ErrorKind::UnsupportedType("()"),
    {
        Err(Error::from_kind(ErrorKind::UnsupportedType("()")))
    }

    /// A unit struct cannot be written, as `()`.
    pub fn serialize_unit_struct(self, _name: &'static str) -> (r: Result<()>)
        ensures
            r matches Err(e) && e.spec_kind() == ErrorKind::UnsupportedType("()"),
    {
        self.serialize_unit()
    }

    /// Writes a unit variant as the string of its name.
    pub fn serialize_unit_variant(self, _name: &'static str, _variant_index: u32, variant: &'static str) -> (r: Result<()>)
        ensures
            r is Ok,
            (*final(self.writer))@ == (*old(self.writer))@ + string_repr(variant@),
    {
        self.serialize_str(variant)
    }

    /// Starts an inline array.
    pub fn serialize_seq(self) -> (r: Result<ArraySerializer<'a>>)
        ensures
            r matches Ok(a) && (*a.writer)@ == (*old(self.writer))@ + seq!['['] && a.first
                && *final(a.writer) == *final(self.writer),
    {
        ArraySerializer::start(self.writer)
    }

    /// Starts an inline table.
    pub fn serialize_map(self) -> (r: Result<TableSerializer<'a>>)
        ensures
            r matches Ok(t) && (*t.writer)@ == (*old(self.writer))@ + seq!['{', ' '] && t.first
                && *final(t.writer) == *final(self.writer),
    {
        TableSerializer::start(self.writer)
    }

    /// Starts a tuple variant: an inline table with the variant's name as its key, and an
    /// inline array as its value.
    pub fn serialize_tuple_variant(self, variant: &'static str) -> (r: Result<WrappedArraySerializer<'a>>)
        ensures
            r matches Ok(a) && (*a.writer)@ == (*old(self.writer))@ + seq!['{', ' '] + key_repr(variant@)
                + seq![' ', '=', ' ', '['] && a.first && *final(a.writer) == *final(self.writer),
    {
        WrappedArraySerializer::start(variant, self.writer)
    }

    /// Starts a struct variant: an inline table with the variant's name as its key, and an
    /// inline table as its value.
    pub fn serialize_struct_variant(self, variant: &'static str) -> (r: Result<WrappedTableSerializer<'a>>)
        ensures
            r matches Ok(t) && (*t.writer)@ == (*old(self.writer))@ + seq!['{', ' '] + key_repr(variant@)
                + seq![' ', '=', ' ', '{', ' '] && t.first && *final(t.writer) == *final(self.writer),
    {
        WrappedTableSerializer::start(variant, self.writer)
    }
}

/// Writes an inline array: `[`, the elements separated by `, `, then `]`.
#[derive(Debug)]
pub struct ArraySerializer<'a> {
    pub writer: &'a mut String,
    pub first: bool,
}

impl<'a> ArraySerializer<'a> {
    /// Writes the opening bracket.
    pub fn start(writer: &'a mut String) -> (r: Result<Self>)
        ensures
            r matches Ok(a) && (*a.writer)@ == (*old(writer))@ + seq!['['] && a.first
                && *final(a.writer) == *final(writer),
    {
        push_char(writer, '[');
        Ok(Self { writer, first: true })
    }

    /// Writes the separator before an element (none before the first), and hands out the writer
    /// for the element.
    pub fn element(&mut self) -> (r: &mut String)
        ensures
            (*r)@ == (*old(self).writer)@ + (if old(self).first { Seq::empty() } else { seq![',', ' '] }),
            *final(final(self).writer) == *final(old(self).writer),
            *final(self).writer == *final(r),
            !final(self).first,
    {
        if !self.first {
            push_char(self.writer, ',');
            push_char(self.writer, ' ');
        }
        self.first = false;
        &mut *self.writer
    }

    /// Writes the closing bracket.
    pub fn end(self) -> (r: Result<()>)
        ensures
            r is Ok,
            (*final(self.writer))@ == (*old(self.writer))@ + seq![']'],
    {
        push_char(self.writer, ']');
        Ok(())
    }
}

/// Writes a tuple variant as `{ variant = [elements] }`.
#[derive(Debug)]
pub struct WrappedArraySerializer<'a> {
    pub writer: &'a mut String,
    pub first: bool,
}

impl<'a> WrappedArraySerializer<'a> {
    /// Writes `{ `, the key, then ` = [`.
    pub fn start(key: &'static str, writer: &'a mut String) -> (r: Result<Self>)
        ensures
            r matches Ok(a) && (*a.writer)@ == (*old(writer))@ + seq!['{', ' '] + key_repr(key@)
                + seq![' ', '=', ' ', '['] && a.first && *final(a.writer) == *final(writer),
    {
        push_char(writer, '{');
        push_char(writer, ' ');
        Formatter::write_key(key, writer);
        push_char(writer, ' ');
        push_char(writer, '=');
        push_char(writer, ' ');
        push_char(writer, '[');
        assert((*writer)@ =~= (*old(writer))@ + seq!['{', ' '] + key_repr(key@) + seq![' ', '=', ' ', '[']);
        Ok(Self { writer, first: true })
    }

    /// Writes the separator before a field (none before the first), and hands out the writer
    /// for the field.
    pub fn field(&mut self) -> (r: &mut String)
        ensures
            (*r)@ == (*old(self).writer)@ + (if old(self).first { Seq::empty() } else { seq![',', ' '] }),
            *final(final(self).writer) == *final(old(self).writer),
            *final(self).writer == *final(r),
            !final(self).first,
    {
        if !self.first {
            push_char(self.writer, ',');
            push_char(self.writer, ' ');
        }
        self.first = false;
        &mut *self.writer
    }

    /// Writes `] }`.
    pub fn end(self) -> (r: Result<()>)
        ensures
            r is Ok,
            (*final(self.writer))@ == (*old(self.writer))@ + seq![']', ' ', '}'],
    {
        push_char(self.writer, ']');
        push_char(self.writer, ' ');
        push_char(self.writer, '}');
        Ok(())
    }
}

/// Writes an inline table: `{ `, the `key = value` pairs separated by `, `, then ` }`.
#[derive(Debug)]
pub struct TableSerializer<'a> {
    pub writer: &'a mut String,
    pub first: bool,
}

impl<'a> TableSerializer<'a> {
    /// Writes `{ `.
    pub fn start(writer: &'a mut String) -> (r: Result<Self>)
        ensures
            r matches Ok(t) && (*t.writer)@ == (*old(writer))@ + seq!['{', ' '] && t.first
                && *final(t.writer) == *final(writer),
    {
        push_char(writer, '{');
        push_char(writer, ' ');
        Ok(Self { writer, first: true })
    }

    /// Writes the separator before a key (none before the first), and hands out the writer for
    /// the key.
    pub fn key(&mut self) -> (r: &mut String)
        ensures
            (*r)@ == (*old(self).writer)@ + (if old(self).first { Seq::empty() } else { seq![',', ' '] }),
            *final(final(self).writer) == *final(old(self).writer),
            *final(self).writer == *final(r),
            !final(self).first,
    {
        if !self.first {
            push_char(self.writer, ',');
            push_char(self.writer, ' ');
        }
        self.first = false;
        &mut *self.writer
    }

    /// Writes ` = ` after a key, and hands out the writer for the value.
    pub fn value(&mut self) -> (r: &mut String)
        ensures
            (*r)@ == (*old(self).writer)@ + seq![' ', '=', ' '],
            *final(final(self).writer) == *final(old(self).writer),
            *final(self).writer == *final(r),
            final(self).first == old(self).first,
    {
        push_char(self.writer, ' ');
        push_char(self.writer, '=');
        push_char(self.writer, ' ');
        &mut *self.writer
    }

    /// Writes ` }`.
    pub fn end(self) -> (r: Result<()>)
        ensures
            r is Ok,
            (*final(self.writer))@ == (*old(self.writer))@ + seq![' ', '}'],
    {
        push_char(self.writer, ' ');
        push_char(self.writer, '}');
        Ok(())
    }
}

/// Writes a struct variant as `{ variant = { field = value, ... } }`.
#[derive(Debug)]
pub struct WrappedTableSerializer<'a> {
    pub writer: &'a mut String,
    pub first: bool,
}

impl<'a> WrappedTableSerializer<'a> {
    /// Writes `{ `, the key, then ` = { `.
    pub fn start(key: &'static str, writer: &'a mut String) -> (r: Result<Self>)
        ensures
            r matches Ok(t) && (*t.writer)@ == (*old(writer))@ + seq!['{', ' '] + key_repr(key@)
                + seq![' ', '=', ' ', '{', ' '] && t.first && *final(t.writer) == *final(writer),
    {
        push_char(writer, '{');
        push_char(writer, ' ');
        Formatter::write_key(key, writer);
        push_char(writer, ' ');
        push_char(writer, '=');
        push_char(writer, ' ');
        push_char(writer, '{');
        push_char(writer, ' ');
        assert((*writer)@ =~= (*old(writer))@ + seq!['{', ' '] + key_repr(key@) + seq![' ', '=', ' ', '{', ' ']);
        Ok(Self { writer, first: true })
    }

    /// Writes the separator (none before the first field), the field's key and ` = `, and hands
    /// out the writer for the field's value.
    pub fn field(&mut self, key: &'static str) -> (r: &mut String)
        ensures
            (*r)@ == (*old(self).writer)@ + (if old(self).first { Seq::empty() } else { seq![',', ' '] })
                + key_repr(key@) + seq![' ', '=', ' '],
            *final(final(self).writer) == *final(old(self).writer),
            *final(self).writer == *final(r),
            !final(self).first,
    {
        let ghost w0 = (*self.writer)@;
        if !self.first {
            push_char(self.writer, ',');
            push_char(self.writer, ' ');
        }
        self.first = false;
        Formatter::write_key(key, self.writer);
        push_char(self.writer, ' ');
        push_char(self.writer, '=');
        push_char(self.writer, ' ');
        assert((*self.writer)@ =~= w0 + (if old(self).first { Seq::empty() } else { seq![',', ' '] }) + key_repr(key@)
            + seq![' ', '=', ' ']);
        &mut *self.writer
    }

    /// Writes ` } }`.
    pub fn end(self) -> (r: Result<()>)
        ensures
            r is Ok,
            (*final(self.writer))@ == (*old(self.writer))@ + seq![' ', '}', ' ', '}'],
    {
        push_char(self.writer, ' ');
        push_char(self.writer, '}');
        push_char(self.writer, ' ');
        push_char(self.writer, '}');
        Ok(())
    }
}

} // verus!
