//! Splitting a TOML source into lines.

use vstd::prelude::*;

use super::bytes::{scan, span, lemma_span_props, ByteClass};
use vstd::string::StringSliceAdditionalSpecFns;

verus! {

broadcast use vstd::slice::group_slice_axioms;

/// Removes one trailing carriage return, if there is one.
pub open spec fn strip_cr(line: Seq<u8>) -> Seq<u8> {
    if line.len() > 0 && line.last() == 0x0d {
        line.drop_last()
    } else {
        line
    }
}

/// The next line of `bytes` (without its line ending) and what follows it, or `None` when
/// nothing is left. A line ends at `\n`; a `\r` right before the `\n` is dropped too.
pub open spec fn spec_next_line(bytes: Seq<u8>) -> Option<(Seq<u8>, Seq<u8>)> {
    let n = span(bytes, ByteClass::NotNewline);
    if n < bytes.len() {
        Some((strip_cr(bytes.take(n as int)), bytes.skip(n + 1int)))
    } else if bytes.len() == 0 {
        None
    } else {
        Some((bytes, Seq::<u8>::empty()))
    }
}

/// Whenever there is a next line, it holds no `\n` and strictly less remains afterwards.
pub proof fn lemma_next_line(bytes: Seq<u8>)
    ensures
        bytes.len() == 0 <==> spec_next_line(bytes) is None,
        spec_next_line(bytes) matches Some((line, rest)) ==> {
            &&& rest.len() < bytes.len()
            &&& line.len() + rest.len() < bytes.len() || (rest.len() == 0 && line == bytes)
            &&& forall|i: int| 0 <= i < line.len() ==> line[i] != 0x0a
        },
{
    lemma_span_props(bytes, ByteClass::NotNewline);
}

/// What is left to read, and how many lines were read, after one more call of `next_line`.
pub open spec fn read_step(rem: Seq<u8>, n: nat) -> (Seq<u8>, nat) {
    match spec_next_line(rem) {
        Some((_, rest)) => (rest, n + 1),
        None => (rem, n),
    }
}

/// What is left to read, and how many lines were read, after `k` calls of `next_line` on a
/// reader of `bytes`.
pub open spec fn after_calls(bytes: Seq<u8>, k: nat) -> (Seq<u8>, nat)
    decreases k,
{
    if k == 0 {
        (bytes, 0)
    } else {
        let (rem, n) = after_calls(bytes, (k - 1) as nat);
        read_step(rem, n)
    }
}

/// How many of the first `k` calls of `next_line` on a reader of `bytes` return a line.
pub open spec fn lines_returned(bytes: Seq<u8>, k: nat) -> nat
    decreases k,
{
    if k == 0 {
        0
    } else {
        let k1 = (k - 1) as nat;
        lines_returned(bytes, k1) + if spec_next_line(after_calls(bytes, k1).0) is Some { 1nat } else { 0nat }
    }
}

/// The number of lines of `bytes`: how many calls of `next_line` return one.
pub open spec fn line_count(bytes: Seq<u8>) -> nat
    decreases bytes.len(),
{
    match spec_next_line(bytes) {
        Some((_, rest)) => {
            proof {
                lemma_next_line(bytes);
            }
            1 + line_count(rest)
        },
        None => 0,
    }
}

/// After any number of calls of `next_line` on a reader of `bytes`, the number of lines read
/// (what `line_no` returns) is the number of those calls that returned a line: one for each
/// call until the last line has been returned, and none after that.
pub proof fn lemma_line_no_counts_lines(bytes: Seq<u8>, k: nat)
    ensures
        after_calls(bytes, k).1 == lines_returned(bytes, k),
        lines_returned(bytes, k) == if k < line_count(bytes) { k } else { line_count(bytes) },
        after_calls(bytes, k).1 + line_count(after_calls(bytes, k).0) == line_count(bytes),
    decreases k,
{
    if k > 0 {
        let k1 = (k - 1) as nat;
        lemma_line_no_counts_lines(bytes, k1);
        let (rem, n) = after_calls(bytes, k1);
        lemma_next_line(rem);
        if spec_next_line(rem) is None {
            assert(line_count(rem) == 0);
        }
    }
}

/// Reads a TOML source line by line.
#[derive(Debug)]
pub struct Reader<'a> {
    bytes: &'a [u8],
    line_no: usize,
}

impl<'a> Reader<'a> {
    #[verifier::type_invariant]
    closed spec fn inv(&self) -> bool {
        self.line_no + self.bytes@.len() <= usize::MAX
    }

    /// The bytes that have not been read yet.
    pub closed spec fn remaining(&self) -> Seq<u8> {
        self.bytes@
    }

    /// The number of lines read so far.
    pub closed spec fn lines_read(&self) -> nat {
        self.line_no as nat
    }

    /// Create a TOML reader from a string slice.
    pub fn from_str(str: &'a str) -> (r: Self)
        ensures
            r.remaining() == str.spec_bytes(),
            r.lines_read() == 0,
    {
        Self::from_slice(str.as_bytes())
    }

    /// Create a TOML reader from a byte slice.
    pub fn from_slice(bytes: &'a [u8]) -> (r: Self)
        ensures
            r.remaining() == bytes@,
            r.lines_read() == 0,
    {
        let _len = bytes.len();
        Self { bytes, line_no: 0 }
    }

    /// The bytes that have not been read yet.
    pub fn bytes(&self) -> (r: &'a [u8])
        ensures
            r@ == self.remaining(),
    {
        self.bytes
    }

    /// Gets the next line from the source. Returns `None` if the end of the source is reached.
    pub fn next_line(&mut self) -> (r: Option<&'a [u8]>)
        ensures
            (final(self).remaining(), final(self).lines_read()) == read_step(old(self).remaining(), old(self).lines_read()),
            match spec_next_line(old(self).remaining()) {
                Some((line, rest)) => {
                    &&& r matches Some(l) && l@ == line
                    &&& final(self).remaining() == rest
                    &&& final(self).lines_read() == old(self).lines_read() + 1
                },
                None => {
                    &&& r is None
                    &&& final(self).remaining() == old(self).remaining()
                    &&& final(self).lines_read() == old(self).lines_read()
                },
            },
    {
        proof {
            use_type_invariant(&*self);
        }
        let bytes = self.bytes;
        let offset = scan(bytes, ByteClass::NotNewline);
        proof {
            lemma_span_props(bytes@, ByteClass::NotNewline);
        }
        if offset < bytes.len() {
            let line = vstd::slice::slice_subrange(bytes, 0, offset);
            let line = if offset > 0 && line[offset - 1] == 0x0d {
                vstd::slice::slice_subrange(line, 0, offset - 1)
            } else {
                line
            };
            self.bytes = vstd::slice::slice_subrange(bytes, offset + 1, bytes.len());
            self.line_no = self.line_no + 1;
            assert(line@ == strip_cr(bytes@.take(offset as int)));
            Some(line)
        } else if bytes.len() == 0 {
            None
        } else {
            self.bytes = vstd::slice::slice_subrange(bytes, bytes.len(), bytes.len());
            self.line_no = self.line_no + 1;
            assert(self.bytes@ =~= Seq::<u8>::empty());
            assert(bytes@ =~= bytes@.subrange(0, bytes@.len() as int));
            Some(bytes)
        }
    }

    /// Gets the line number of the line returned by the previous call to [`Self::next_line`].
    pub fn line_no(&self) -> (r: usize)
        ensures
            r == self.lines_read(),
    {
        self.line_no
    }
}

impl<'a> Clone for Reader<'a> {
    fn clone(&self) -> (r: Self)
        ensures
            r.remaining() == self.remaining(),
            r.lines_read() == self.lines_read(),
    {
        proof {
            use_type_invariant(self);
        }
        Reader { bytes: self.bytes, line_no: self.line_no }
    }
}

/// Returns the length in bytes of the UTF-8 sequence that `byte` starts, or `None` if `byte`
/// cannot start one.
pub fn utf8_len(byte: u8) -> (r: Option<usize>)
    ensures
        r == spec_utf8_len(byte),
{
    if byte <= 0x7f {
        Some(1)
    } else if 0xc0 <= byte && byte <= 0xdf {
        Some(2)
    } else if 0xe0 <= byte && byte <= 0xef {
        Some(3)
    } else if 0xf0 <= byte && byte <= 0xf7 {
        Some(4)
    } else {
        None
    }
}

pub open spec fn spec_utf8_len(byte: u8) -> Option<usize> {
    if byte <= 0x7f {
        Some(1usize)
    } else if 0xc0 <= byte <= 0xdf {
        Some(2usize)
    } else if 0xe0 <= byte <= 0xef {
        Some(3usize)
    } else if 0xf0 <= byte <= 0xf7 {
        Some(4usize)
    } else {
        None
    }
}

} // verus!
