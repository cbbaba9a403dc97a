//! TOML deserialization: the parser builds a tree of values, which serde's traits (implemented
//! around this library) then walk.

pub mod bytes;
pub mod reader;
pub mod value;
pub mod error;
pub mod grammar;
pub mod number;
pub mod parser;
pub mod table;

use vstd::prelude::*;
use vstd::string::StringSliceAdditionalSpecFns;

use self::error::{Error, ErrorKind, Result};
use self::grammar::{spec_parse, PState};
use self::number::{int_value, parse_binary, parse_hexadecimal, parse_integer, parse_octal, Integer};
use self::parser::Parser;
use self::value::{spec_type, SValue, Table, Value};

verus! {

/// A deserializer for a TOML document.
#[derive(Debug)]
pub struct Deserializer<'de> {
    pub parser: Parser<'de>,
}

impl<'de> Deserializer<'de> {
    /// Create a new deserializer from a string slice.
    pub fn from_str(str: &'de str) -> (r: Self)
        ensures
            r.parser.state() == (PState { line: Seq::empty(), rest: str.spec_bytes(), line_no: 0 }),
    {
        Self { parser: Parser::from_str(str) }
    }

    /// Create a new deserializer from a byte slice.
    pub fn from_slice(bytes: &'de [u8]) -> (r: Self)
        ensures
            r.parser.state() == (PState { line: Seq::empty(), rest: bytes@, line_no: 0 }),
    {
        Self { parser: Parser::from_slice(bytes) }
    }

    /// Parses the document into its root table, which is then handed to serde.
    pub fn parse(&mut self) -> (r: Result<Value>)
        ensures
            match spec_parse(old(self).parser.state()) {
                Ok(t) => r matches Ok(v) && v@ == SValue::Table(t),
                Err(e) => r matches Err(err) && err.spec_error() == e,
            },
    {
        self.parser.parse()
    }
}

/// A deserializer for one parsed value.
#[derive(Debug)]
pub struct ValueDeserializer {
    pub value: Value,
}

impl ValueDeserializer {
    /// Wraps a parsed value.
    pub fn new(value: Value) -> (r: Self)
        ensures
            r.value == value,
    {
        Self { value }
    }
}

/// `res` is what reading `src` in the radix gives for the integer type `T`.
pub open spec fn integer_result<T: Integer>(src: Seq<u8>, radix: nat, res: Result<T>) -> bool {
    match int_value(src, radix, T::signed(), T::min_value(), T::max_value()) {
        Ok(n) => res matches Ok(v) && v.value_of() == n,
        Err(e) => res matches Err(err) && err.spec_kind() == ErrorKind::InvalidInteger(e),
    }
}

/// Reads an integer value as the integer type `T` (in its radix); `None` if the value is not an
/// integer.
pub fn integer_value<T: Integer>(value: &Value) -> (r: Option<Result<T>>)
    ensures
        match value {
            Value::Integer(b) => r matches Some(res) && integer_result(b@, 10, res),
            Value::BinaryInt(b) => r matches Some(res) && integer_result(b@, 2, res),
            Value::OctalInt(b) => r matches Some(res) && integer_result(b@, 8, res),
            Value::HexInt(b) => r matches Some(res) && integer_result(b@, 16, res),
            _ => r is None,
        },
{
    match value {
        Value::Integer(bytes) => Some(parse_integer(bytes.as_slice())),
        Value::BinaryInt(bytes) => Some(parse_binary(bytes.as_slice())),
        Value::OctalInt(bytes) => Some(parse_octal(bytes.as_slice())),
        Value::HexInt(bytes) => Some(parse_hexadecimal(bytes.as_slice())),
        _ => None,
    }
}

/// Reverses a vector.
fn reversed<T>(v: Vec<T>) -> (r: Vec<T>)
    ensures
        r@ == v@.reverse(),
{
    let ghost s = v@;
    let mut v = v;
    let mut r: Vec<T> = Vec::new();
    while v.len() > 0
        invariant
            v@.len() + r@.len() == s.len(),
            forall|j: int| 0 <= j < v@.len() ==> #[trigger] v@[j] == s[j],
            forall|j: int| 0 <= j < r@.len() ==> #[trigger] r@[j] == s[s.len() - 1 - j],
        decreases v@.len(),
    {
        let x = v.pop().unwrap();
        r.push(x);
    }
    assert(r@ =~= s.reverse());
    r
}

/// Hands out the values of an array, in order.
#[derive(Debug)]
pub struct SeqAccess<T> {
    values: Vec<T>,
}

impl<T> SeqAccess<T> {
    /// The values not handed out yet, in order.
    pub closed spec fn remaining(&self) -> Seq<T> {
        self.values@.reverse()
    }

    /// Starts with all values of the array.
    pub fn new(array: Vec<T>) -> (r: Self)
        ensures
            r.remaining() == array@,
    {
        let values = reversed(array);
        let r = Self { values };
        assert(r.remaining() =~= array@);
        r
    }

    /// The next value, if any.
    pub fn next(&mut self) -> (r: Option<T>)
        ensures
            old(self).remaining().len() == 0 ==> r is None && final(self).remaining() == old(self).remaining(),
            old(self).remaining().len() > 0 ==> r == Some(old(self).remaining()[0])
                && final(self).remaining() == old(self).remaining().drop_first(),
    {
        let r = self.values.pop();
        if r.is_some() {
            assert(self.remaining() =~= old(self).remaining().drop_first());
        }
        r
    }

    /// How many values are left.
    pub fn size_hint(&self) -> (r: Option<usize>)
        ensures
            r == Some(self.remaining().len() as usize),
    {
        Some(self.values.len())
    }
}

/// Hands out the entries of a table, in order: a key, then its value.
#[derive(Debug)]
pub struct MapAccess {
    kv_pairs: Vec<(String, Value)>,
    next_value: Option<Value>,
}

impl MapAccess {
    /// The entries not handed out yet, in order.
    pub closed spec fn remaining(&self) -> Seq<(String, Value)> {
        self.kv_pairs@.reverse()
    }

    /// The value of the entry whose key was handed out last, if it was not taken yet.
    pub closed spec fn pending(&self) -> Option<Value> {
        self.next_value
    }

    /// Starts with all entries of the table.
    pub fn new(table: Table) -> (r: Self)
        ensures
            r.remaining() == table@,
            r.pending() is None,
    {
        let kv_pairs = reversed(table);
        let r = Self { kv_pairs, next_value: None };
        assert(r.remaining() =~= table@);
        r
    }

    /// The key of the next entry, if any; its value is kept for [`Self::next_value`].
    pub fn next_key(&mut self) -> (r: Option<String>)
        ensures
            old(self).remaining().len() == 0 ==> r is None && final(self).remaining() == old(self).remaining()
                && final(self).pending() == old(self).pending(),
            old(self).remaining().len() > 0 ==> r == Some(old(self).remaining()[0].0)
                && final(self).pending() == Some(old(self).remaining()[0].1)
                && final(self).remaining() == old(self).remaining().drop_first(),
    {
        match self.kv_pairs.pop() {
            Some((key, value)) => {
                self.next_value = Some(value);
                assert(self.remaining() =~= old(self).remaining().drop_first());
                Some(key)
            },
            None => None,
        }
    }

    /// Whether a key was handed out whose value was not taken yet.
    pub fn has_pending_value(&self) -> (r: bool)
        ensures
            r == self.pending() is Some,
    {
        self.next_value.is_some()
    }

    /// The value of the entry whose key was handed out last.
    pub fn next_value(&mut self) -> (r: Value)
        requires
            old(self).pending() is Some,
        ensures
            r == old(self).pending()->Some_0,
            final(self).pending() is None,
            final(self).remaining() == old(self).remaining(),
    {
        self.next_value.take().unwrap()
    }

    /// The next entry, if any.
    pub fn next_entry(&mut self) -> (r: Option<(String, Value)>)
        ensures
            old(self).remaining().len() == 0 ==> r is None && final(self).remaining() == old(self).remaining(),
            old(self).remaining().len() > 0 ==> r == Some(old(self).remaining()[0])
                && final(self).remaining() == old(self).remaining().drop_first(),
            final(self).pending() == old(self).pending(),
    {
        let r = self.kv_pairs.pop();
        if r.is_some() {
            assert(self.remaining() =~= old(self).remaining().drop_first());
        }
        r
    }

    /// How many entries are left.
    pub fn size_hint(&self) -> (r: Option<usize>)
        ensures
            r == Some(self.remaining().len() as usize),
    {
        Some(self.kv_pairs.len())
    }
}

/// An enum given as a table with exactly one entry: the variant's name, and its content.
#[derive(Debug)]
pub struct EnumAccess {
    pub variant: String,
    pub value: Value,
}

impl EnumAccess {
    /// Takes the only entry of the table; a table with no entry or with several is refused.
    pub fn new(table: Table) -> (r: Result<Self>)
        ensures
            table@.len() == 1 ==> (r matches Ok(a) && a.variant == table@[0].0 && a.value == table@[0].1),
            table@.len() == 0 ==> (r matches Err(e) && e.spec_kind() matches ErrorKind::InvalidValue(u, x)
                && u@ == "empty table"@ && x@ == "exactly one key/value pair"@),
            table@.len() > 1 ==> (r matches Err(e) && e.spec_kind() matches ErrorKind::InvalidValue(u, x)
                && u@ == "multiple entries in table"@ && x@ == "exactly one key/value pair"@),
    {
        let mut table = table;
        if table.len() == 0 {
            return Err(Error::invalid_value("empty table".to_owned(), "exactly one key/value pair".to_owned()));
        }
        if table.len() > 1 {
            return Err(
                Error::invalid_value("multiple entries in table".to_owned(), "exactly one key/value pair".to_owned()),
            );
        }
        let (variant, value) = table.pop().unwrap();
        Ok(Self { variant, value })
    }

    /// A unit variant: its content must be an empty table (the variant may also be given as a
    /// bare string, which does not come here).
    pub fn unit_variant(self) -> (r: Result<()>)
        ensures
            (self.value matches Value::Table(t) && t@.len() == 0) ==> r is Ok,
            !(self.value matches Value::Table(t) && t@.len() == 0) ==> (r matches Err(e)
                && e.spec_kind() matches ErrorKind::InvalidType(u, x) && u@ == spec_type(self.value@).spec_name()
                && x@ == "empty table"@),
    {
        match &self.value {
            Value::Table(table) => {
                if table.len() == 0 {
                    return Ok(());
                }
            },
            _ => {},
        }
        Err(Error::invalid_type(self.value.typ().to_str().to_owned(), "empty table".to_owned()))
    }
}

} // verus!
