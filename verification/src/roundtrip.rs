//! What the reader gives back of what the writer wrote.

use vstd::prelude::*;
use vstd::utf8::*;

use crate::de::bytes::{in_class, span, toml_basic_str, toml_word, ByteClass};
use crate::de::error::{IntegerError, SpecError};
use crate::de::grammar::{
    hex_val, hex_value, prepend, skip_ws, spec_basic_str, spec_dotted_key, spec_escape, spec_hex_number,
    spec_key, spec_key_value, spec_more_keys, spec_unicode_escape, spec_value, starts_with, with_line, PState,
    SKey, spec_digits, spec_digit_groups, spec_number_decimal, spec_number_or_datetime, spec_fraction, spec_exponent,
    has_leading_zero,
};
use crate::de::value::SValue;
use crate::de::number::{digit_of, digits_value, int_value};
use crate::ser::writer::{basic_string_repr, bool_repr, bare_key_char, decimal_repr, digit_char, digits_repr, escape_char, escape_chars, hex_char, is_bare_key, key_repr, unicode_escape};

verus! {

/// All characters are ASCII.
pub open spec fn ascii_chars(s: Seq<char>) -> bool {
    forall|i: int| 0 <= i < s.len() ==> (#[trigger] s[i] as u32) < 0x80
}

/// The UTF-8 encoding of ASCII characters is their codes, one byte each.
pub proof fn lemma_encode_ascii(s: Seq<char>)
    requires
        ascii_chars(s),
    ensures
        encode_utf8(s) == s.map_values(|c: char| (c as u32) as u8),
    decreases s.len(),
{
    if s.len() > 0 {
        lemma_encode_ascii(s.drop_first());
        let v = s[0] as u32;
        assert(v < 0x80);
        assert((v & 0x7f) == v) by (bit_vector)
            requires
                v < 0x80,
        ;
        assert(leading_byte_width_1(v) == v as u8);
        assert(encode_utf8(s) =~= s.map_values(|c: char| (c as u32) as u8));
    }
}

/// The decimal digits of a number are ASCII.
pub proof fn lemma_digits_ascii(n: nat)
    ensures
        ascii_chars(digits_repr(n)),
        digits_repr(n).len() > 0,
        forall|i: int| 0 <= i < digits_repr(n).len() ==> 0x30 <= (#[trigger] digits_repr(n)[i] as u32) <= 0x39,
    decreases n,
{
    if n >= 10 {
        lemma_digits_ascii(n / 10);
    }
}

/// Reading back the decimal digits of a number gives the number, if it is within the limit.
pub proof fn lemma_digits_value(n: nat, limit: nat, over: IntegerError)
    requires
        n <= limit,
    ensures
        digits_value(digits_repr(n).map_values(|c: char| (c as u32) as u8), 10, limit, over) == Ok::<nat, IntegerError>(n),
    decreases n,
{
    let b = digits_repr(n).map_values(|c: char| (c as u32) as u8);
    let r = n % 10;
    let q = n / 10;
    assert(digit_char(r) as u32 == 0x30 + r);
    assert(b.last() == (0x30 + r) as u8);
    assert(digit_of(b.last(), 10) == Some(r));
    if n < 10 {
        assert(b.drop_last() =~= Seq::<u8>::empty());
        assert(digits_value(b.drop_last(), 10, limit, over) == Ok::<nat, IntegerError>(0));
        assert(q == 0);
    } else {
        assert(q * 10 + r == n);
        lemma_digits_value(q, limit, over);
        assert(b.drop_last() =~= digits_repr(q).map_values(|c: char| (c as u32) as u8));
    }
    assert(q * 10 + r == n);
}

/// Writing an integer in decimal and reading the text back gives the integer, for every value in
/// the range of an integer type (only signed types have negative values).
pub proof fn lemma_integer_roundtrip(n: int, signed: bool, min: int, max: int)
    requires
        min <= n <= max,
        signed || n >= 0,
    ensures
        int_value(encode_utf8(decimal_repr(n)), 10, signed, min, max) == Ok::<int, IntegerError>(n),
{
    if n >= 0 {
        let d = digits_repr(n as nat);
        lemma_digits_ascii(n as nat);
        lemma_encode_ascii(d);
        lemma_digits_value(n as nat, max as nat, IntegerError::PosOverflow);
        let b = encode_utf8(decimal_repr(n));
        assert(0x30 <= d[0] as u32 <= 0x39);
        assert(b[0] == (d[0] as u32) as u8);
    } else {
        let d = digits_repr((-n) as nat);
        lemma_digits_ascii((-n) as nat);
        let full = decimal_repr(n);
        assert(ascii_chars(full)) by {
            assert forall|i: int| 0 <= i < full.len() implies (#[trigger] full[i] as u32) < 0x80 by {
                if i > 0 {
                    assert(full[i] == d[i - 1]);
                }
            }
        }
        lemma_encode_ascii(full);
        lemma_digits_value((-n) as nat, (-min) as nat, IntegerError::NegOverflow);
        let b = encode_utf8(full);
        assert(b.drop_first() =~= d.map_values(|c: char| (c as u32) as u8));
    }
}

/// The encoding of a concatenation is the concatenation of the encodings.
pub proof fn lemma_encode_concat(a: Seq<char>, b: Seq<char>)
    ensures
        encode_utf8(a + b) == encode_utf8(a) + encode_utf8(b),
    decreases a.len(),
{
    if a.len() > 0 {
        lemma_encode_concat(a.drop_first(), b);
        assert((a + b).drop_first() =~= a.drop_first() + b);
        assert((a + b)[0] == a[0]);
        assert(encode_utf8(a + b) =~= encode_utf8(a) + encode_utf8(b));
    } else {
        assert(a + b =~= b);
        assert(encode_utf8(a) + encode_utf8(b) =~= encode_utf8(b));
    }
}

/// Escaping a string is escaping its first character, then the rest.
pub proof fn lemma_escape_front(s: Seq<char>, multiline: bool)
    requires
        s.len() > 0,
    ensures
        escape_chars(s, multiline) == escape_char(s[0], multiline) + escape_chars(s.drop_first(), multiline),
    decreases s.len(),
{
    if s.len() == 1 {
        assert(s.drop_last() =~= Seq::<char>::empty());
        assert(s.drop_first() =~= Seq::<char>::empty());
        assert(escape_chars(s, multiline) =~= escape_char(s[0], multiline) + escape_chars(s.drop_first(), multiline));
    } else {
        lemma_escape_front(s.drop_last(), multiline);
        assert(s.drop_last().drop_first() =~= s.drop_first().drop_last());
        assert(s.drop_first().last() == s.last());
        assert(escape_chars(s, multiline) =~= escape_char(s[0], multiline) + escape_chars(s.drop_first(), multiline));
    }
}

/// `span` over bytes that all lie in the class, then more bytes.
pub proof fn lemma_span_concat(x: Seq<u8>, y: Seq<u8>, c: ByteClass)
    requires
        forall|i: int| 0 <= i < x.len() ==> in_class(#[trigger] x[i], c),
    ensures
        span(x + y, c) == x.len() + span(y, c),
    decreases x.len(),
{
    if x.len() == 0 {
        assert(x + y =~= y);
    } else {
        assert((x + y)[0] == x[0]);
        assert((x + y).drop_first() =~= x.drop_first() + y);
        lemma_span_concat(x.drop_first(), y, c);
    }
}

/// The encoding of one character is the encoding of its scalar value.
pub proof fn lemma_encode_one(c: char)
    ensures
        encode_utf8(seq![c]) == encode_scalar(c as u32),
{
    let s = seq![c];
    assert(s.drop_first() =~= Seq::<char>::empty());
    assert(encode_utf8(Seq::<char>::empty()) =~= Seq::<u8>::empty());
    assert(s[0] == c);
    assert(encode_utf8(s) =~= encode_scalar(c as u32) + encode_utf8(s.drop_first()));
    assert(encode_utf8(s) =~= encode_scalar(c as u32));
}

/// The encoding of one character, followed by any bytes, starts with that character.
pub proof fn lemma_first_char(c: char, z: Seq<u8>)
    ensures
        valid_first_scalar(encode_utf8(seq![c]) + z),
        length_of_first_scalar(encode_utf8(seq![c]) + z) == encode_utf8(seq![c]).len(),
        decode_first_scalar(encode_utf8(seq![c]) + z) == c as u32,
        pop_first_scalar(encode_utf8(seq![c]) + z) == z,
        valid_utf8(encode_utf8(seq![c]) + z) == valid_utf8(z),
        valid_utf8(z) ==> decode_utf8(encode_utf8(seq![c]) + z) == seq![c] + decode_utf8(z),
{
    let b = encode_utf8(seq![c]);
    encode_utf8_first_scalar(seq![c]);
    lemma_encode_one(c);
    let y = b + z;
    assert(forall|i: int| 0 <= i < b.len() ==> y[i] == b[i]);
    assert(valid_first_scalar(y));
    assert(pop_first_scalar(y) =~= z);
    char_u32_cast(c, decode_first_scalar(y));
}

/// A character that a basic string holds as it is: not a control character, `"` or `\`.
pub open spec fn plain_char(c: char) -> bool {
    let n = c as u32;
    n >= 0x20 && n != 0x22 && n != 0x5c && n != 0x7f
}

/// The bytes that encode a plain character may all be copied into a basic string.
pub proof fn lemma_plain_bytes(c: char)
    requires
        plain_char(c),
    ensures
        forall|i: int| 0 <= i < encode_utf8(seq![c]).len() ==> toml_basic_str(#[trigger] encode_utf8(seq![c])[i]),
        (c as u32) >= 0x80 ==> forall|i: int| 0 <= i < encode_utf8(seq![c]).len() ==> #[trigger] encode_utf8(seq![c])[i] >= 0x80,
{
    let v = c as u32;
    let b = encode_utf8(seq![c]);
    lemma_encode_one(c);
    if v < 0x80 {
        assert((v & 0x7f) == v) by (bit_vector)
            requires
                v < 0x80,
        ;
    } else {
        let s1 = v >> 6;
        let s2 = v >> 12;
        let s3 = v >> 18;
        assert((0xC0u8 | (s1 & 0x1F) as u8) >= 0x80) by (bit_vector);
        assert((0xE0u8 | (s2 & 0x0F) as u8) >= 0x80) by (bit_vector);
        assert((0xF0u8 | (s3 & 0x7) as u8) >= 0x80) by (bit_vector);
        assert((0x80u8 | (v & 0x3F) as u8) >= 0x80) by (bit_vector);
        assert((0x80u8 | (s1 & 0x3F) as u8) >= 0x80) by (bit_vector);
        assert((0x80u8 | (s2 & 0x3F) as u8) >= 0x80) by (bit_vector);
    }
}

/// A plain character in front of the bytes of a basic string is read as itself.
proof fn lemma_step_plain(c: char, x: Seq<u8>)
    requires
        plain_char(c),
    ensures
        spec_basic_str(encode_utf8(seq![c]) + x) == prepend(seq![c], spec_basic_str(x)),
{
    let b = encode_utf8(seq![c]);
    let y = b + x;
    lemma_plain_bytes(c);
    lemma_span_concat(b, x, ByteClass::BasicStr);
    crate::de::bytes::lemma_span_props(x, ByteClass::BasicStr);
    let ix = span(x, ByteClass::BasicStr) as int;
    let iy = span(y, ByteClass::BasicStr) as int;
    assert(iy == b.len() + ix);
    if ix < x.len() {
        let cx = x.take(ix);
        assert(y.take(iy) =~= b + cx);
        assert(y.skip(iy + 1) =~= x.skip(ix + 1));
        assert(y[iy] == x[ix]);
        lemma_first_char(c, cx);
        let after = x.skip(ix + 1);
        crate::de::parser::lemma_escape_consumes(after);
        if valid_utf8(cx) {
            let dx = decode_utf8(cx);
            assert(decode_utf8(y.take(iy)) == seq![c] + dx);
            if x[ix] == 0x5c {
                if let Ok((e, r)) = spec_escape(after) {
                    assert(r.len() < x.len());
                    match spec_basic_str(r) {
                        Ok((t, r2)) => {
                            assert((seq![c] + dx).push(e) + t =~= seq![c] + (dx.push(e) + t));
                        },
                        Err(_) => {},
                    }
                }
            }
        }
    }
}

/// The bytes of the hexadecimal digits of a `\u` escape of a control character.
pub proof fn lemma_unicode_escape(c: char, x: Seq<u8>)
    requires
        (c as u32) < 0x20 || c as u32 == 0x7f,
    ensures
        spec_unicode_escape(encode_utf8(unicode_escape(c)).skip(2) + x, 4, 'u') == Ok::<(char, Seq<u8>), SpecError>((c, x)),
{
    let n = c as u32;
    let u = unicode_escape(c);
    assert(ascii_chars(u)) by {
        assert(n / 16 < 8);
        assert forall|i: int| 0 <= i < u.len() implies (#[trigger] u[i] as u32) < 0x80 by {}
    }
    lemma_encode_ascii(u);
    let e = encode_utf8(u);
    let hi = (n / 16) as nat;
    let lo = (n % 16) as nat;
    let t4 = e.skip(2);
    assert(t4 =~= seq![0x30u8, 0x30u8, (hex_char(hi) as u32) as u8, (hex_char(lo) as u32) as u8]);
    let rest = t4 + x;
    assert(rest.take(4) =~= t4);
    assert(rest.skip(4) =~= x);
    // The digits are ASCII, so they are valid UTF-8
    let digits = seq!['0', '0', hex_char(hi), hex_char(lo)];
    assert(digits =~= u.skip(2));
    lemma_encode_ascii(digits);
    assert(encode_utf8(digits) =~= t4);
    encode_utf8_valid_utf8(digits);
    // The digits are hexadecimal digits, with the value of the character
    assert(forall|i: int| 0 <= i < t4.len() ==> in_class(#[trigger] t4[i], ByteClass::HexDigit));
    lemma_span_concat(t4, Seq::empty(), ByteClass::HexDigit);
    assert(t4 + Seq::<u8>::empty() =~= t4);
    let h = (hex_char(hi) as u32) as u8;
    let l = (hex_char(lo) as u32) as u8;
    let s0 = Seq::<u8>::empty();
    let s1 = seq![0x30u8];
    let s2 = seq![0x30u8, 0x30u8];
    let s3 = seq![0x30u8, 0x30u8, h];
    assert(s1.drop_last() =~= s0);
    assert(s2.drop_last() =~= s1);
    assert(s3.drop_last() =~= s2);
    assert(t4.drop_last() =~= s3);
    assert(hex_value(s0) == 0);
    assert(hex_value(s1) == 0);
    assert(hex_value(s2) == 0);
    assert(hex_val(h) == hi);
    assert(hex_val(l) == lo);
    assert(hex_value(s3) == hi);
    assert(hex_value(t4) == hi * 16 + lo);
    assert(hi * 16 + lo == n);
    assert(spec_hex_number(t4) == Some(n as nat));
    char_u32_cast(c, n);
}

/// The escape sequence that the writer writes for a character that a basic string cannot hold
/// as it is: a backslash, then what the reader turns back into the character.
pub proof fn lemma_escape_reads(c: char, x: Seq<u8>)
    requires
        !plain_char(c),
    ensures
        ({
            let y = encode_utf8(escape_char(c, false)) + x;
            &&& y.len() > 1
            &&& y[0] == 0x5c
            &&& y[1] != 0x20 && y[1] != 0x09
            &&& spec_escape(y.skip(1)) == Ok::<(char, Seq<u8>), SpecError>((c, x))
        }),
{
    let n = c as u32;
    let e = escape_char(c, false);
    assert(ascii_chars(e)) by {
        if n < 0x20 || n == 0x7f {
            assert(n / 16 < 8);
        }
        assert forall|i: int| 0 <= i < e.len() implies (#[trigger] e[i] as u32) < 0x80 by {}
    }
    lemma_encode_ascii(e);
    let b = encode_utf8(e);
    let y = b + x;
    assert(y[0] == 0x5c);
    let after = y.skip(1);
    char_u32_cast(c, n);
    if n == 0x08 || n == 0x09 || n == 0x0a || n == 0x0c || n == 0x0d || n == 0x22 || n == 0x5c {
        assert(after =~= seq![b[1]] + x);
        assert(after.drop_first() =~= x);
        assert(spec_escape(after) == Ok::<(char, Seq<u8>), SpecError>((c, x)));
    } else {
        assert(after =~= seq![0x75u8] + (b.skip(2) + x));
        assert(after.drop_first() =~= b.skip(2) + x);
        lemma_unicode_escape(c, x);
        assert(spec_escape(after) == Ok::<(char, Seq<u8>), SpecError>((c, x)));
    }
}

/// A character that a basic string holds escaped, in front of the bytes of a basic string, is
/// read as itself.
proof fn lemma_step_escape(c: char, x: Seq<u8>)
    requires
        !plain_char(c),
    ensures
        spec_basic_str(encode_utf8(escape_char(c, false)) + x) == prepend(seq![c], spec_basic_str(x)),
{
    let y = encode_utf8(escape_char(c, false)) + x;
    lemma_escape_reads(c, x);
    assert(span(y, ByteClass::BasicStr) == 0);
    assert(y.take(0) =~= Seq::<u8>::empty());
    assert(decode_utf8(Seq::<u8>::empty()) =~= Seq::<char>::empty());
    assert(Seq::<char>::empty().push(c) =~= seq![c]);
}

/// The closing quote of a basic string, in front of what follows it.
proof fn lemma_closing_quote(rest: Seq<u8>)
    ensures
        spec_basic_str(encode_utf8(seq!['"']) + rest) == Ok::<(Seq<char>, Seq<u8>), SpecError>((Seq::empty(), rest)),
{
    lemma_encode_ascii(seq!['"']);
    let line = encode_utf8(seq!['"']) + rest;
    assert(line[0] == 0x22);
    assert(span(line, ByteClass::BasicStr) == 0);
    assert(line.take(0) =~= Seq::<u8>::empty());
    assert(decode_utf8(Seq::<u8>::empty()) =~= Seq::<char>::empty());
    assert(line.skip(1) =~= rest);
}

/// The first character of an escaped string, in front of the rest of it.
proof fn lemma_escaped_step(s: Seq<char>, rest: Seq<u8>)
    requires
        s.len() > 0,
        spec_basic_str(encode_utf8(escape_chars(s.drop_first(), false) + seq!['"']) + rest)
            == Ok::<(Seq<char>, Seq<u8>), SpecError>((s.drop_first(), rest)),
    ensures
        spec_basic_str(encode_utf8(escape_chars(s, false) + seq!['"']) + rest) == Ok::<(Seq<char>, Seq<u8>), SpecError>((s, rest)),
{
    let t = s.drop_first();
    let e0 = escape_char(s[0], false);
    lemma_escape_front(s, false);
    lemma_encode_concat(e0, escape_chars(t, false) + seq!['"']);
    assert(escape_chars(s, false) + seq!['"'] =~= e0 + (escape_chars(t, false) + seq!['"']));
    let x = encode_utf8(escape_chars(t, false) + seq!['"']) + rest;
    assert(encode_utf8(escape_chars(s, false) + seq!['"']) + rest =~= encode_utf8(e0) + x);
    if plain_char(s[0]) {
        assert(e0 == seq![s[0]]);
        lemma_step_plain(s[0], x);
    } else {
        lemma_step_escape(s[0], x);
    }
    assert(seq![s[0]] + t =~= s);
}

/// A basic string that the writer escaped reads back as the string, with what follows it.
proof fn lemma_escaped_roundtrip(s: Seq<char>, rest: Seq<u8>)
    ensures
        spec_basic_str(encode_utf8(escape_chars(s, false) + seq!['"']) + rest) == Ok::<(Seq<char>, Seq<u8>), SpecError>((s, rest)),
    decreases s.len(),
{
    if s.len() == 0 {
        assert(s =~= Seq::<char>::empty());
        assert(escape_chars(s, false) + seq!['"'] =~= seq!['"']);
        lemma_closing_quote(rest);
    } else {
        lemma_escaped_roundtrip(s.drop_first(), rest);
        lemma_escaped_step(s, rest);
    }
}

/// Reading back a string that was written as a basic string gives the string, and leaves what
/// follows its closing quote.
pub proof fn lemma_basic_string_roundtrip(s: Seq<char>, rest: Seq<u8>)
    ensures
        spec_basic_str(encode_utf8(basic_string_repr(s)).drop_first() + rest) == Ok::<(Seq<char>, Seq<u8>), SpecError>((s, rest)),
{
    let inner = escape_chars(s, false) + seq!['"'];
    assert(basic_string_repr(s) =~= seq!['"'] + inner);
    lemma_encode_concat(seq!['"'], inner);
    lemma_encode_ascii(seq!['"']);
    assert(encode_utf8(basic_string_repr(s)).drop_first() =~= encode_utf8(inner));
    lemma_escaped_roundtrip(s, rest);
}

/// The bytes of an escaped non-empty string do not start with a quote.
proof fn lemma_escaped_first_byte(s: Seq<char>)
    requires
        s.len() > 0,
    ensures
        encode_utf8(escape_chars(s, false) + seq!['"']).len() > 0,
        encode_utf8(escape_chars(s, false) + seq!['"'])[0] != 0x22,
{
    let e0 = escape_char(s[0], false);
    let t = s.drop_first();
    lemma_escape_front(s, false);
    assert(escape_chars(s, false) + seq!['"'] =~= e0 + (escape_chars(t, false) + seq!['"']));
    lemma_encode_concat(e0, escape_chars(t, false) + seq!['"']);
    let v = s[0] as u32;
    if plain_char(s[0]) {
        assert(e0 == seq![s[0]]);
        lemma_encode_one(s[0]);
        if v < 0x80 {
            assert((v & 0x7f) == v) by (bit_vector)
                requires
                    v < 0x80,
            ;
        } else {
            lemma_plain_bytes(s[0]);
            assert(encode_utf8(seq![s[0]])[0] >= 0x80);
        }
    } else {
        assert(ascii_chars(e0)) by {
            if v < 0x20 || v == 0x7f {
                assert(v / 16 < 8);
            }
            assert forall|i: int| 0 <= i < e0.len() implies (#[trigger] e0[i] as u32) < 0x80 by {}
        }
        lemma_encode_ascii(e0);
    }
}

/// Reading back a key that is written bare.
#[verifier::spinoff_prover]
proof fn lemma_bare_key_roundtrip(k: Seq<char>, rest: Seq<u8>)
    requires
        is_bare_key(k),
        rest.len() > 0 ==> !toml_word(rest[0]) && rest[0] != 0x22,
    ensures
        spec_key(encode_utf8(key_repr(k)) + rest) == Ok::<(Seq<char>, Seq<u8>), SpecError>((k, rest)),
{
    assert(ascii_chars(k)) by {
        assert forall|i: int| 0 <= i < k.len() implies (#[trigger] k[i] as u32) < 0x80 by {
            assert(bare_key_char(k[i]));
        }
    }
    lemma_encode_ascii(k);
    let b = encode_utf8(k);
    let line = b + rest;
    assert forall|i: int| 0 <= i < b.len() implies in_class(#[trigger] b[i], ByteClass::Word) by {
        assert(bare_key_char(k[i]));
    }
    lemma_span_concat(b, rest, ByteClass::Word);
    assert(span(rest, ByteClass::Word) == 0);
    assert(line.take(b.len() as int) =~= b);
    assert(line.skip(b.len() as int) =~= rest);
    encode_utf8_valid_utf8(k);
    encode_utf8_decode_utf8(k);
    assert(bare_key_char(k[0]));
    assert(!starts_with(line, seq![0x22u8, 0x22, 0x22])) by {
        if starts_with(line, seq![0x22u8, 0x22, 0x22]) {
            assert(line.take(3)[0] == line[0]);
        }
    }
    assert(!starts_with(line, seq![0x27u8, 0x27, 0x27])) by {
        if starts_with(line, seq![0x27u8, 0x27, 0x27]) {
            assert(line.take(3)[0] == line[0]);
        }
    }
}

/// The bytes of a string written as a basic string: a quote, then the escaped characters and
/// the closing quote.
pub proof fn lemma_quoted_bytes(k: Seq<char>, rest: Seq<u8>)
    ensures
        ({
            let line = encode_utf8(basic_string_repr(k)) + rest;
            let inner = encode_utf8(escape_chars(k, false) + seq!['"']);
            &&& line.len() > 0
            &&& line[0] == 0x22
            &&& line.drop_first() == inner + rest
            &&& encode_utf8(basic_string_repr(k)).drop_first() == inner
            &&& inner.len() > 0
        }),
{
    let inner = escape_chars(k, false) + seq!['"'];
    assert(basic_string_repr(k) =~= seq!['"'] + inner);
    lemma_encode_concat(seq!['"'], inner);
    lemma_encode_ascii(seq!['"']);
    let line = encode_utf8(basic_string_repr(k)) + rest;
    assert(line =~= seq![0x22u8] + (encode_utf8(inner) + rest));
    assert(line.drop_first() =~= encode_utf8(inner) + rest);
    assert(encode_utf8(basic_string_repr(k)).drop_first() =~= encode_utf8(inner));
    lemma_encode_concat(escape_chars(k, false), seq!['"']);
}

/// A key written as a basic string does not start with three quotes: its second or third byte
/// is no quote.
pub proof fn lemma_quoted_not_triple(k: Seq<char>, rest: Seq<u8>)
    requires
        rest.len() > 0 ==> rest[0] != 0x22,
    ensures
        !starts_with(encode_utf8(basic_string_repr(k)) + rest, seq![0x22u8, 0x22, 0x22]),
{
    let line = encode_utf8(basic_string_repr(k)) + rest;
    let inner = escape_chars(k, false) + seq!['"'];
    lemma_quoted_bytes(k, rest);
    if starts_with(line, seq![0x22u8, 0x22, 0x22]) {
        assert(line.take(3)[1] == line[1] && line.take(3)[2] == line[2]);
        if k.len() > 0 {
            lemma_escaped_first_byte(k);
            assert(line[1] == encode_utf8(inner)[0]);
        } else {
            assert(inner =~= seq!['"']);
            lemma_encode_ascii(inner);
            assert(encode_utf8(inner).len() == 1);
            assert(line[2] == rest[0]);
        }
    }
}

/// Reading back a key that is written as a basic string.
proof fn lemma_quoted_key_roundtrip(k: Seq<char>, rest: Seq<u8>)
    requires
        !is_bare_key(k),
        rest.len() > 0 ==> !toml_word(rest[0]) && rest[0] != 0x22,
    ensures
        spec_key(encode_utf8(key_repr(k)) + rest) == Ok::<(Seq<char>, Seq<u8>), SpecError>((k, rest)),
{
    let line = encode_utf8(basic_string_repr(k)) + rest;
    lemma_quoted_bytes(k, rest);
    lemma_basic_string_roundtrip(k, rest);
    lemma_quoted_not_triple(k, rest);
    assert(!starts_with(line, seq![0x27u8, 0x27, 0x27])) by {
        if starts_with(line, seq![0x27u8, 0x27, 0x27]) {
            assert(line.take(3)[0] == line[0]);
        }
    }
}

/// Reading back a key that the writer wrote gives the key, and leaves what follows it, if that
/// does not start with a byte that would continue a bare key, or with a quote.
pub proof fn lemma_key_roundtrip(k: Seq<char>, rest: Seq<u8>)
    requires
        rest.len() > 0 ==> !toml_word(rest[0]) && rest[0] != 0x22,
    ensures
        spec_key(encode_utf8(key_repr(k)) + rest) == Ok::<(Seq<char>, Seq<u8>), SpecError>((k, rest)),
{
    if is_bare_key(k) {
        lemma_bare_key_roundtrip(k, rest);
    } else {
        lemma_quoted_key_roundtrip(k, rest);
    }
}



/// A key that the writer wrote, then ` = `: the dotted key is that one key, and `= ` is left.
#[verifier::spinoff_prover]
pub proof fn lemma_pair_key(k: Seq<char>, tail: Seq<u8>)
    ensures
        spec_dotted_key(encode_utf8(key_repr(k)) + (seq![0x20u8, 0x3d, 0x20] + tail))
            == Ok::<(SKey, Seq<u8>), SpecError>((SKey { path: Seq::empty(), name: k }, seq![0x3du8, 0x20] + tail)),
{
    let mid = seq![0x20u8, 0x3d, 0x20];
    lemma_key_roundtrip(k, mid + tail);
    let after_eq = seq![0x3du8, 0x20] + tail;
    assert(mid + tail =~= seq![0x20u8] + after_eq);
    lemma_span_concat(seq![0x20u8], after_eq, ByteClass::Whitespace);
    assert(span(after_eq, ByteClass::Whitespace) == 0);
    assert(skip_ws(mid + tail) =~= after_eq);
    assert(spec_more_keys(after_eq) == Ok::<(Seq<Seq<char>>, Seq<u8>), SpecError>((Seq::empty(), after_eq)));
    assert(seq![k] + Seq::<Seq<char>>::empty() =~= seq![k]);
    assert(seq![k].drop_last() =~= Seq::<Seq<char>>::empty());
}

/// The bytes of a key, ` = `, and a value.
pub proof fn lemma_pair_bytes(k: Seq<char>, v: Seq<char>)
    ensures
        encode_utf8(key_repr(k) + seq![' ', '=', ' '] + v)
            == encode_utf8(key_repr(k)) + (seq![0x20u8, 0x3d, 0x20] + encode_utf8(v)),
{
    let eq = seq![' ', '=', ' '];
    lemma_encode_concat(key_repr(k) + eq, v);
    lemma_encode_concat(key_repr(k), eq);
    lemma_encode_ascii(eq);
    assert(encode_utf8(eq) =~= seq![0x20u8, 0x3d, 0x20]);
    assert(encode_utf8(key_repr(k)) + encode_utf8(eq) + encode_utf8(v)
        =~= encode_utf8(key_repr(k)) + (seq![0x20u8, 0x3d, 0x20] + encode_utf8(v)));
}

/// After `=` and a space, the value starts, if its first byte is no whitespace.
pub proof fn lemma_value_after_eq(vb: Seq<u8>)
    requires
        vb.len() > 0,
        !in_class(vb[0], ByteClass::Whitespace),
    ensures
        (seq![0x3du8, 0x20] + vb).drop_first().len() > 0,
        skip_ws((seq![0x3du8, 0x20] + vb).drop_first()) == vb,
{
    let after_eq = seq![0x3du8, 0x20] + vb;
    assert(after_eq.drop_first() =~= seq![0x20u8] + vb);
    lemma_span_concat(seq![0x20u8], vb, ByteClass::Whitespace);
    assert(span(vb, ByteClass::Whitespace) == 0);
    assert(skip_ws(after_eq.drop_first()) =~= vb);
}

/// A key/value pair whose dotted key is one key followed by `=`, and whose value reads as `v`.
#[verifier::spinoff_prover]
pub proof fn lemma_pair_unfold(st: PState, k: Seq<char>, after_eq: Seq<u8>, v: SValue, st2: PState)
    requires
        spec_dotted_key(st.line) == Ok::<(SKey, Seq<u8>), SpecError>((SKey { path: Seq::empty(), name: k }, after_eq)),
        after_eq.len() > 0,
        after_eq[0] == 0x3d,
        spec_value(with_line(st, skip_ws(after_eq.drop_first()))) == Ok::<(SValue, PState), SpecError>((v, st2)),
    ensures
        spec_key_value(st) == Ok::<((SKey, SValue), PState), SpecError>(((SKey { path: Seq::empty(), name: k }, v), st2)),
{
}

/// The first decimal digit of a number is `0` only for zero itself.
proof fn lemma_digits_lead(n: nat)
    ensures
        n > 0 ==> digits_repr(n)[0] as u32 != 0x30,
    decreases n,
{
    if n < 10 {
        assert(digit_char(n) as u32 == 0x30 + n);
    } else {
        lemma_digits_lead(n / 10);
        lemma_digits_ascii(n / 10);
        assert(digits_repr(n)[0] == digits_repr(n / 10)[0]);
    }
}

/// The bytes of the decimal digits of a number: all digits, with no leading zero, read as one
/// group of digits with nothing left.
pub proof fn lemma_digit_bytes(m: nat)
    ensures
        ({
            let d = encode_utf8(digits_repr(m));
            &&& d.len() > 0
            &&& forall|i: int| 0 <= i < d.len() ==> 0x30 <= #[trigger] d[i] <= 0x39
            &&& d.len() > 1 ==> d[0] != 0x30
            &&& !has_leading_zero(d)
            &&& spec_digits(d, ByteClass::Digit) == Ok::<(Seq<u8>, Seq<u8>), SpecError>((d, Seq::empty()))
        }),
{
    let c = digits_repr(m);
    lemma_digits_ascii(m);
    lemma_digits_lead(m);
    lemma_encode_ascii(c);
    let d = encode_utf8(c);
    assert forall|i: int| 0 <= i < d.len() implies 0x30 <= #[trigger] d[i] <= 0x39 by {
        assert(d[i] == (c[i] as u32) as u8);
    }
    if c.len() > 1 {
        assert(m >= 10) by {
            if m < 10 {
                assert(c.len() == 1);
            }
        }
        assert(c[0] as u32 != 0x30);
        assert(d[0] == (c[0] as u32) as u8);
        assert(d[0] != 0x30);
    }
    assert(d.len() == c.len());
    lemma_span_concat(d, Seq::empty(), ByteClass::Digit);
    assert(d + Seq::<u8>::empty() =~= d);
    assert(d.skip(d.len() as int) =~= Seq::<u8>::empty());
    assert(d.take(d.len() as int) =~= d);
    assert(spec_digit_groups(Seq::empty(), ByteClass::Digit) == Ok::<(Seq<u8>, Seq<u8>), SpecError>((Seq::empty(), Seq::empty())));
    assert(span(d, ByteClass::Digit) == d.len());
    assert(d.len() > 0);
    assert(!has_leading_zero(d));
    assert(spec_digits(d, ByteClass::Digit) == Ok::<(Seq<u8>, Seq<u8>), SpecError>((d, Seq::empty())));
}

/// Decimal digits (after an optional sign) read as an integer with nothing left.
proof fn lemma_decimal_number(sign: Seq<u8>, m: nat)
    requires
        sign == Seq::<u8>::empty() || sign == seq![0x2du8],
    ensures
        spec_number_decimal(sign + encode_utf8(digits_repr(m)))
            == Ok::<(SValue, Seq<u8>), SpecError>((SValue::Integer(sign + encode_utf8(digits_repr(m))), Seq::empty())),
{
    let d = encode_utf8(digits_repr(m));
    let line = sign + d;
    lemma_digit_bytes(m);
    if sign.len() > 0 {
        assert(line.drop_first() =~= d);
    } else {
        assert(line =~= d);
    }
    assert(spec_fraction(Seq::empty()) == Ok::<(Seq<u8>, Seq<u8>), SpecError>((Seq::empty(), Seq::empty())));
    assert(spec_exponent(Seq::empty()) == Ok::<(Seq<u8>, Seq<u8>), SpecError>((Seq::empty(), Seq::empty())));
    assert(sign + d + Seq::<u8>::empty() + Seq::<u8>::empty() =~= line);
}

/// A value that the writer wrote as an integer in decimal reads back as an integer with the same
/// digits (whose value [`lemma_integer_roundtrip`] gives), and nothing of the line is left.
pub proof fn lemma_integer_value_roundtrip(n: int, st: PState)
    requires
        st.line == encode_utf8(decimal_repr(n)),
    ensures
        spec_value(st) == Ok::<(SValue, PState), SpecError>((SValue::Integer(st.line), with_line(st, Seq::empty()))),
{
    if n >= 0 {
        let m = n as nat;
        let d = encode_utf8(digits_repr(m));
        lemma_digit_bytes(m);
        lemma_decimal_number(Seq::empty(), m);
        assert(Seq::<u8>::empty() + d =~= d);
        assert(st.line == d);
        if d.len() >= 2 {
            assert(d[0] != 0x30);
        }
        if d.len() >= 3 {
            assert(0x30 <= d[2] <= 0x39);
        }
        if d.len() >= 5 {
            assert(0x30 <= d[4] <= 0x39);
        }
        assert(spec_number_or_datetime(d) == spec_number_decimal(d));
    } else {
        let m = (-n) as nat;
        let d = encode_utf8(digits_repr(m));
        lemma_digit_bytes(m);
        lemma_decimal_number(seq![0x2du8], m);
        lemma_encode_concat(seq!['-'], digits_repr(m));
        lemma_encode_ascii(seq!['-']);
        assert(encode_utf8(seq!['-']) =~= seq![0x2du8]);
        let line = seq![0x2du8] + d;
        assert(st.line == line);
        assert(line[1] == d[0]);
        assert(0x30 <= d[0] <= 0x39);
    }
}


/// An integer written in decimal starts with a digit or a minus sign.
pub proof fn lemma_decimal_first(n: int)
    ensures
        encode_utf8(decimal_repr(n)).len() > 0,
        0x30 <= encode_utf8(decimal_repr(n))[0] <= 0x39 || encode_utf8(decimal_repr(n))[0] == 0x2d,
{
    if n >= 0 {
        lemma_digit_bytes(n as nat);
    } else {
        lemma_digit_bytes((-n) as nat);
        lemma_encode_concat(seq!['-'], digits_repr((-n) as nat));
        lemma_encode_ascii(seq!['-']);
        assert(encode_utf8(seq!['-']) =~= seq![0x2du8]);
    }
}

/// A key/value line that the writer writes for an integer reads back as that key (with no
/// dotted path) and the integer's digits, and nothing of the line is left; read as an integer
/// type whose range holds the integer, the digits give it back.
#[verifier::spinoff_prover]
pub proof fn lemma_integer_pair_roundtrip(k: Seq<char>, n: int, st: PState, signed: bool, min: int, max: int)
    requires
        st.line == encode_utf8(key_repr(k) + seq![' ', '=', ' '] + decimal_repr(n)),
        min <= n <= max,
        signed || n >= 0,
    ensures
        spec_key_value(st) == Ok::<((SKey, SValue), PState), SpecError>(
            (
                (SKey { path: Seq::empty(), name: k }, SValue::Integer(encode_utf8(decimal_repr(n)))),
                with_line(st, Seq::empty()),
            ),
        ),
        int_value(encode_utf8(decimal_repr(n)), 10, signed, min, max) == Ok::<int, IntegerError>(n),
{
    let vb = encode_utf8(decimal_repr(n));
    let after_eq = seq![0x3du8, 0x20] + vb;
    lemma_pair_bytes(k, decimal_repr(n));
    lemma_pair_key(k, vb);
    lemma_decimal_first(n);
    lemma_value_after_eq(vb);
    lemma_integer_value_roundtrip(n, with_line(st, vb));
    assert(with_line(with_line(st, vb), Seq::empty()) == with_line(st, Seq::empty()));
    lemma_pair_unfold(st, k, after_eq, SValue::Integer(vb), with_line(st, Seq::empty()));
    lemma_integer_roundtrip(n, signed, min, max);
}


/// The bytes of the text of a boolean.
pub proof fn lemma_bool_bytes(b: bool)
    ensures
        encode_utf8(bool_repr(b)) == (if b {
            seq![0x74u8, 0x72, 0x75, 0x65]
        } else {
            seq![0x66u8, 0x61, 0x6c, 0x73, 0x65]
        }),
{
    reveal_strlit("true");
    reveal_strlit("false");
    let t = bool_repr(b);
    assert(ascii_chars(t));
    lemma_encode_ascii(t);
    if b {
        assert(t.map_values(|c: char| (c as u32) as u8) =~= seq![0x74u8, 0x72, 0x75, 0x65]);
    } else {
        assert(t.map_values(|c: char| (c as u32) as u8) =~= seq![0x66u8, 0x61, 0x6c, 0x73, 0x65]);
    }
}

} // verus!
