//! Serializers for keys and for raw strings.

use vstd::prelude::*;
use vstd::string::StringExecFns;

use super::error::{Error, ErrorKind, Result};
use super::writer::{decimal_repr, key_repr, Formatter, Integer};
use crate::text::from_utf8;
use vstd::utf8::{decode_utf8, valid_utf8};

verus! {

/// Serializes something to a TOML key.
pub struct KeySerializer<'a> {
    pub writer: &'a mut String,
}

impl<'a> KeySerializer<'a> {
    /// Creates a new `KeySerializer` with the given writer.
    pub fn new(writer: &'a mut String) -> (r: Self)
        ensures
            *r.writer == *old(writer),
            *final(r.writer) == *final(writer),
    {
        Self { writer }
    }

    /// Writes an integer key in decimal (digits and `-` are all valid in a bare key).
    pub fn serialize_integer<I: Integer>(self, value: &I) -> (r: Result<()>)
        ensures
            r is Ok,
            (*final(self.writer))@ == (*old(self.writer))@ + decimal_repr(value.int_value()),
    {
        value.fmt(self.writer);
        Ok(())
    }

    /// Writes a string key: bare if it can be, else as a basic string.
    pub fn serialize_str(self, value: &str) -> (r: Result<()>)
        ensures
            r is Ok,
            (*final(self.writer))@ == (*old(self.writer))@ + key_repr(value@),
    {
        Formatter::write_key(value, self.writer);
        Ok(())
    }
}

/// Serializes a string to itself.
pub struct RawStringSerializer<'a> {
    pub writer: &'a mut String,
}

impl<'a> RawStringSerializer<'a> {
    /// Writes the string as it is.
    pub fn serialize_str(self, value: &str) -> (r: Result<()>)
        ensures
            r is Ok,
            (*final(self.writer))@ == (*old(self.writer))@ + value@,
    {
        self.writer.append(value);
        Ok(())
    }

    /// Writes bytes that are UTF-8 as the string they encode; other bytes are refused.
    pub fn serialize_bytes(self, value: &[u8]) -> (r: Result<()>)
        ensures
            valid_utf8(value@) ==> r is Ok && (*final(self.writer))@ == (*old(self.writer))@ + decode_utf8(value@),
            !valid_utf8(value@) ==> (r matches Err(e) && e.spec_kind() == ErrorKind::UnsupportedValue("invalid encoded bytes")),
            !valid_utf8(value@) ==> *final(self.writer) == *old(self.writer),
    {
        match from_utf8(value) {
            Some(s) => {
                self.writer.append(s);
                Ok(())
            },
            None => Err(Error::from_kind(ErrorKind::UnsupportedValue("invalid encoded bytes"))),
        }
    }
}

} // verus!
