//! Text helpers from the standard library, with the contracts that its documentation gives them.

use vstd::prelude::*;
use vstd::utf8::{valid_utf8, decode_utf8};

verus! {

/// Calls `std::str::from_utf8`. Per its documentation, the bytes are accepted exactly when they
/// are valid UTF-8, and the string they then decode to is returned.
#[verifier::external_body]
pub fn from_utf8(bytes: &[u8]) -> (r: Option<&str>)
    ensures
        r is Some <==> valid_utf8(bytes@),
        r matches Some(s) ==> s@ == decode_utf8(bytes@),
{
    std::str::from_utf8(bytes).ok()
}

/// Calls `String::push`, which appends one character.
#[verifier::external_body]
pub fn push_char(s: &mut String, c: char)
    ensures
        final(s)@ == old(s)@.push(c),
{
    s.push(c);
}

/// Calls `char::from_u32`, which returns the character with the given code point, or `None` when
/// the number is a surrogate (`0xD800..=0xDFFF`) or larger than `0x10FFFF`.
#[verifier::external_body]
pub fn char_from_u32(u: u32) -> (r: Option<char>)
    ensures
        r is Some <==> (u <= 0x10ffff && !(0xd800 <= u <= 0xdfff)),
        r matches Some(c) ==> c as u32 == u,
{
    char::from_u32(u)
}

/// How `{:?}` shows a string slice: quoted, with the characters that need it escaped.
pub uninterp spec fn str_debug(s: Seq<char>) -> Seq<char>;

/// How `{:?}` shows a character: quoted, escaped if it needs it.
pub uninterp spec fn char_debug(c: char) -> Seq<char>;

/// Calls `<str as Debug>::fmt` through `format!("{:?}")`. What it gives depends on the
/// characters of the string alone, so the result is named, not stated.
#[verifier::external_body]
pub fn debug_str(s: &str) -> (r: String)
    ensures
        r@ == str_debug(s@),
{
    format!("{s:?}")
}

/// Calls `<char as Debug>::fmt` through `format!("{:?}")`. What it gives depends on the
/// character alone, so the result is named, not stated.
#[verifier::external_body]
pub fn debug_char(c: char) -> (r: String)
    ensures
        r@ == char_debug(c),
{
    format!("{c:?}")
}

/// The standard library's I/O error, carried through as it is.
#[verifier::external_type_specification]
#[verifier::external_body]
pub struct ExIoError(std::io::Error);

/// Calls `<std::io::Error as Display>::fmt` through `format!("{}")`. What it shows depends on
/// where the error came from (for an error of the operating system, on the system's own
/// message), so nothing is promised of the text.
#[verifier::external_body]
pub fn io_display(e: &std::sync::Arc<std::io::Error>) -> String {
    format!("{e}")
}

/// Calls `<std::io::Error as Debug>::fmt` through `format!("{:?}")`. What it shows depends on
/// where the error came from (for an error of the operating system, on the system's own
/// message), so nothing is promised of the text.
#[verifier::external_body]
pub fn io_debug(e: &std::sync::Arc<std::io::Error>) -> String {
    format!("{e:?}")
}

} // verus!
