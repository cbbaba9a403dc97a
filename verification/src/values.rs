//! What the reader makes of the text of a value: the code point of a Unicode escape, the
//! exponent of a float, the text of a date-time, and the integer of a decimal number.

use vstd::prelude::*;
use vstd::utf8::*;

use crate::de::bytes::{in_class, lemma_span, lemma_span_props, span, ByteClass};
use crate::de::error::{IntegerError, SpecError};
use crate::de::grammar::{
    hex_val, hex_value, is_scalar, spec_date, spec_digit_groups, spec_digits, spec_escape, spec_exponent,
    spec_number_or_datetime,
};
use crate::de::number::{digit_of, digits_value, int_value, Integer};
use crate::de::value::SValue;
use crate::roundtrip::{ascii_chars, lemma_digits_ascii, lemma_digits_value, lemma_encode_ascii, lemma_integer_roundtrip};
use crate::ser::writer::{decimal_repr, digit_char, digits_repr};

verus! {

/// The character that stands for the hexadecimal digit `k` (below 16): `0`-`9`, then `a`-`f`,
/// or `A`-`F` in upper case.
pub open spec fn hex_digit_char(k: nat, upper: bool) -> char {
    if k < 10 {
        (0x30 + k) as char
    } else if upper {
        (0x41 + k - 10) as char
    } else {
        (0x61 + k - 10) as char
    }
}

/// The number that digits of base 16 denote, the most significant first.
pub open spec fn base16(ds: Seq<nat>) -> nat
    decreases ds.len(),
{
    if ds.len() == 0 {
        0
    } else {
        base16(ds.drop_last()) * 16 + ds.last()
    }
}

/// The characters of the digits, each in the case given for it.
pub open spec fn hex_chars(ds: Seq<nat>, upper: Seq<bool>) -> Seq<char> {
    Seq::new(ds.len(), |i: int| hex_digit_char(ds[i], upper[i]))
}

/// Bytes whose digit values are the given ones denote their number in base 16.
proof fn lemma_hex_base16(b: Seq<u8>, ds: Seq<nat>)
    requires
        b.len() == ds.len(),
        forall|i: int| 0 <= i < b.len() ==> hex_val(#[trigger] b[i]) == ds[i],
    ensures
        hex_value(b) == base16(ds),
    decreases b.len(),
{
    if b.len() > 0 {
        lemma_hex_base16(b.drop_last(), ds.drop_last());
        assert(hex_val(b.last()) == ds.last());
    }
}

/// A `\u` escape (four digits) or a `\U` escape (eight digits) stands for the character whose
/// code point the digits denote in base 16, upper-case digits counting as much as lower-case
/// ones (`\u00E9` and `\u00e9` are both `é`), whatever follows.
pub proof fn lemma_unicode_escape_value(ds: Seq<nat>, upper: Seq<bool>, long: bool, rest: Seq<u8>)
    requires
        ds.len() == (if long { 8nat } else { 4nat }),
        upper.len() == ds.len(),
        forall|i: int| 0 <= i < ds.len() ==> #[trigger] ds[i] < 16,
        is_scalar(base16(ds)),
    ensures
        spec_escape(seq![if long { 0x55u8 } else { 0x75u8 }] + encode_utf8(hex_chars(ds, upper)) + rest)
            == Ok::<(char, Seq<u8>), SpecError>(((base16(ds) as u32) as char, rest)),
{
    let cs = hex_chars(ds, upper);
    assert(ascii_chars(cs)) by {
        assert forall|i: int| 0 <= i < cs.len() implies (#[trigger] cs[i] as u32) < 0x80 by {
            assert(ds[i] < 16);
        }
    }
    lemma_encode_ascii(cs);
    encode_utf8_valid_utf8(cs);
    let b = encode_utf8(cs);
    assert forall|i: int| 0 <= i < b.len() implies hex_val(#[trigger] b[i]) == ds[i] && in_class(
        b[i],
        ByteClass::HexDigit,
    ) by {
        assert(ds[i] < 16);
        assert(b[i] == (cs[i] as u32) as u8);
    }
    lemma_hex_base16(b, ds);
    lemma_span(b, ByteClass::HexDigit, b.len() as int);
    let letter = if long { 0x55u8 } else { 0x75u8 };
    let line = seq![letter] + b + rest;
    assert(line.drop_first() =~= b + rest);
    assert((b + rest).take(b.len() as int) =~= b);
    assert((b + rest).skip(b.len() as int) =~= rest);
    assert(b[0] != 0x2b) by {
        assert(ds[0] < 16);
    }
}

/// Decimal digits, then bytes that do not go on with a digit or an underscore: the digits are
/// read as they are, and the bytes are left.
proof fn lemma_plain_digits(ds: Seq<u8>, r: Seq<u8>)
    requires
        ds.len() > 0,
        forall|i: int| 0 <= i < ds.len() ==> 0x30 <= #[trigger] ds[i] <= 0x39,
        r.len() == 0 || (r[0] != 0x5f && !(0x30 <= r[0] <= 0x39)),
    ensures
        spec_digits(ds + r, ByteClass::Digit) == Ok::<(Seq<u8>, Seq<u8>), SpecError>((ds, r)),
{
    let l = ds + r;
    assert forall|j: int| 0 <= j < ds.len() implies in_class(#[trigger] l[j], ByteClass::Digit) by {
        assert(l[j] == ds[j]);
    }
    if r.len() > 0 {
        assert(l[ds.len() as int] == r[0]);
    }
    lemma_span(l, ByteClass::Digit, ds.len() as int);
    assert(l.take(ds.len() as int) =~= ds);
    assert(l.skip(ds.len() as int) =~= r);
    assert(spec_digit_groups(r, ByteClass::Digit) == Ok::<(Seq<u8>, Seq<u8>), SpecError>((Seq::empty(), r)));
    assert(ds + Seq::<u8>::empty() =~= ds);
}

/// The exponent of a float may be written with `E` as well as `e`: both read the same, for
/// whatever follows the letter; and `E`, an optional sign and digits read as the exponent
/// `e`, that sign and those digits.
pub proof fn lemma_upper_exponent(sign: Seq<u8>, ds: Seq<u8>, r: Seq<u8>)
    requires
        sign.len() == 0 || sign == seq![0x2bu8] || sign == seq![0x2du8],
        ds.len() > 0,
        forall|i: int| 0 <= i < ds.len() ==> 0x30 <= #[trigger] ds[i] <= 0x39,
        r.len() == 0 || (r[0] != 0x5f && !(0x30 <= r[0] <= 0x39)),
    ensures
        forall|s: Seq<u8>| spec_exponent(#[trigger] (seq![0x45u8] + s)) == spec_exponent(seq![0x65u8] + s),
        spec_exponent(seq![0x45u8] + sign + ds + r) == Ok::<(Seq<u8>, Seq<u8>), SpecError>(
            (seq![0x65u8] + sign + ds, r),
        ),
{
    assert forall|s: Seq<u8>| spec_exponent(#[trigger] (seq![0x45u8] + s)) == spec_exponent(seq![0x65u8] + s) by {
        assert((seq![0x45u8] + s).drop_first() =~= s);
        assert((seq![0x65u8] + s).drop_first() =~= s);
    }
    let line = seq![0x45u8] + sign + ds + r;
    let t = line.drop_first();
    assert(t =~= sign + (ds + r));
    lemma_plain_digits(ds, r);
    if sign.len() > 0 {
        assert(t.drop_first() =~= ds + r);
        assert(seq![t[0]] =~= sign);
    } else {
        assert(t =~= ds + r);
        assert(t[0] == ds[0]);
    }
    assert(seq![0x65u8] + sign + ds =~= seq![0x65u8] + sign + ds);
}

/// The text of a date-time value, if the value is one.
pub open spec fn datetime_text(v: SValue) -> Option<Seq<u8>> {
    match v {
        SValue::OffsetDatetime(t) => Some(t),
        SValue::LocalDatetime(t) => Some(t),
        SValue::LocalDate(t) => Some(t),
        SValue::LocalTime(t) => Some(t),
        _ => None,
    }
}

/// The text of a date-time that the reader reads is all that it reads of the line: its text,
/// then what is left, give back the line (so a date-time whose time follows a space keeps its
/// time and offset). It reads on as long as the bytes can belong to a date-time, and a date
/// is not left with a time after a space behind it.
pub proof fn lemma_datetime_text(line: Seq<u8>)
    ensures
        spec_number_or_datetime(line) matches Ok((v, rest)) ==> (datetime_text(v) matches Some(t) ==> {
            &&& t + rest == line
            &&& rest.len() == 0 || !in_class(rest[0], ByteClass::Datetime)
            &&& v is LocalDate ==> !(rest.len() >= 2 && rest[0] == 0x20 && 0x30 <= rest[1] <= 0x39)
        }),
{
    lemma_span_props(line, ByteClass::Datetime);
    let end = span(line, ByteClass::Datetime) as int;
    if line.len() >= end + 2 {
        lemma_span_props(line.skip(end + 1), ByteClass::Datetime);
    }
    if let Ok((v, rest)) = spec_number_or_datetime(line) {
        if let Some(t) = datetime_text(v) {
            if line.len() >= 3 && line[2] == 0x3a && !(line.len() >= 2 && line[0] == 0x30 && (line[1] == 0x78
                || line[1] == 0x6f || line[1] == 0x62)) {
                assert(t + rest =~= line);
            } else {
                let (dv, dr) = spec_date(line);
                if datetime_text(dv) is Some && line.len() >= 5 {
                    let k = (datetime_text(dv)->Some_0).len();
                    assert(datetime_text(dv)->Some_0 + dr =~= line);
                }
                assert(t + rest =~= line);
            }
        }
    }
}

/// The decimal text of every value of an integer type reads back as that value: negative
/// values of the signed types too.
pub proof fn lemma_decimal_integers_read_back(n: int)
    ensures
        i8::MIN <= n <= i8::MAX ==> int_value(encode_utf8(decimal_repr(n)), 10, <i8 as Integer>::signed(),
            <i8 as Integer>::min_value(), <i8 as Integer>::max_value()) == Ok::<int, IntegerError>(n),
        i16::MIN <= n <= i16::MAX ==> int_value(encode_utf8(decimal_repr(n)), 10, <i16 as Integer>::signed(),
            <i16 as Integer>::min_value(), <i16 as Integer>::max_value()) == Ok::<int, IntegerError>(n),
        i32::MIN <= n <= i32::MAX ==> int_value(encode_utf8(decimal_repr(n)), 10, <i32 as Integer>::signed(),
            <i32 as Integer>::min_value(), <i32 as Integer>::max_value()) == Ok::<int, IntegerError>(n),
        i64::MIN <= n <= i64::MAX ==> int_value(encode_utf8(decimal_repr(n)), 10, <i64 as Integer>::signed(),
            <i64 as Integer>::min_value(), <i64 as Integer>::max_value()) == Ok::<int, IntegerError>(n),
        i128::MIN <= n <= i128::MAX ==> int_value(encode_utf8(decimal_repr(n)), 10, <i128 as Integer>::signed(),
            <i128 as Integer>::min_value(), <i128 as Integer>::max_value()) == Ok::<int, IntegerError>(n),
        isize::MIN <= n <= isize::MAX ==> int_value(encode_utf8(decimal_repr(n)), 10, <isize as Integer>::signed(),
            <isize as Integer>::min_value(), <isize as Integer>::max_value()) == Ok::<int, IntegerError>(n),
        0 <= n <= u8::MAX ==> int_value(encode_utf8(decimal_repr(n)), 10, <u8 as Integer>::signed(),
            <u8 as Integer>::min_value(), <u8 as Integer>::max_value()) == Ok::<int, IntegerError>(n),
        0 <= n <= u16::MAX ==> int_value(encode_utf8(decimal_repr(n)), 10, <u16 as Integer>::signed(),
            <u16 as Integer>::min_value(), <u16 as Integer>::max_value()) == Ok::<int, IntegerError>(n),
        0 <= n <= u32::MAX ==> int_value(encode_utf8(decimal_repr(n)), 10, <u32 as Integer>::signed(),
            <u32 as Integer>::min_value(), <u32 as Integer>::max_value()) == Ok::<int, IntegerError>(n),
        0 <= n <= u64::MAX ==> int_value(encode_utf8(decimal_repr(n)), 10, <u64 as Integer>::signed(),
            <u64 as Integer>::min_value(), <u64 as Integer>::max_value()) == Ok::<int, IntegerError>(n),
        0 <= n <= u128::MAX ==> int_value(encode_utf8(decimal_repr(n)), 10, <u128 as Integer>::signed(),
            <u128 as Integer>::min_value(), <u128 as Integer>::max_value()) == Ok::<int, IntegerError>(n),
        0 <= n <= usize::MAX ==> int_value(encode_utf8(decimal_repr(n)), 10, <usize as Integer>::signed(),
            <usize as Integer>::min_value(), <usize as Integer>::max_value()) == Ok::<int, IntegerError>(n),
{
    if i8::MIN <= n <= i8::MAX {
        lemma_integer_roundtrip(n, <i8 as Integer>::signed(), <i8 as Integer>::min_value(), <i8 as Integer>::max_value());
    }
    if i16::MIN <= n <= i16::MAX {
        lemma_integer_roundtrip(n, <i16 as Integer>::signed(), <i16 as Integer>::min_value(), <i16 as Integer>::max_value());
    }
    if i32::MIN <= n <= i32::MAX {
        lemma_integer_roundtrip(n, <i32 as Integer>::signed(), <i32 as Integer>::min_value(), <i32 as Integer>::max_value());
    }
    if i64::MIN <= n <= i64::MAX {
        lemma_integer_roundtrip(n, <i64 as Integer>::signed(), <i64 as Integer>::min_value(), <i64 as Integer>::max_value());
    }
    if i128::MIN <= n <= i128::MAX {
        lemma_integer_roundtrip(n, <i128 as Integer>::signed(), <i128 as Integer>::min_value(), <i128 as Integer>::max_value());
    }
    if isize::MIN <= n <= isize::MAX {
        lemma_integer_roundtrip(n, <isize as Integer>::signed(), <isize as Integer>::min_value(), <isize as Integer>::max_value());
    }
    if 0 <= n <= u8::MAX {
        lemma_integer_roundtrip(n, <u8 as Integer>::signed(), <u8 as Integer>::min_value(), <u8 as Integer>::max_value());
    }
    if 0 <= n <= u16::MAX {
        lemma_integer_roundtrip(n, <u16 as Integer>::signed(), <u16 as Integer>::min_value(), <u16 as Integer>::max_value());
    }
    if 0 <= n <= u32::MAX {
        lemma_integer_roundtrip(n, <u32 as Integer>::signed(), <u32 as Integer>::min_value(), <u32 as Integer>::max_value());
    }
    if 0 <= n <= u64::MAX {
        lemma_integer_roundtrip(n, <u64 as Integer>::signed(), <u64 as Integer>::min_value(), <u64 as Integer>::max_value());
    }
    if 0 <= n <= u128::MAX {
        lemma_integer_roundtrip(n, <u128 as Integer>::signed(), <u128 as Integer>::min_value(), <u128 as Integer>::max_value());
    }
    if 0 <= n <= usize::MAX {
        lemma_integer_roundtrip(n, <usize as Integer>::signed(), <usize as Integer>::min_value(), <usize as Integer>::max_value());
    }
}

/// The decimal digits of a number above the limit are refused with the overflow error.
proof fn lemma_digits_over(m: nat, limit: nat, over: IntegerError)
    requires
        m > limit,
    ensures
        digits_value(digits_repr(m).map_values(|c: char| (c as u32) as u8), 10, limit, over) == Err::<nat, IntegerError>(over),
    decreases m,
{
    let b = digits_repr(m).map_values(|c: char| (c as u32) as u8);
    let r = m % 10;
    let q = m / 10;
    assert(digit_char(r) as u32 == 0x30 + r);
    assert(b.last() == (0x30 + r) as u8);
    assert(digit_of(b.last(), 10) == Some(r));
    if m < 10 {
        assert(b.drop_last() =~= Seq::<u8>::empty());
        assert(digits_value(b.drop_last(), 10, limit, over) == Ok::<nat, IntegerError>(0));
    } else {
        assert(b.drop_last() =~= digits_repr(q).map_values(|c: char| (c as u32) as u8));
        if q > limit {
            lemma_digits_over(q, limit, over);
        } else {
            lemma_digits_value(q, limit, over);
            assert(q * 10 + r == m);
        }
    }
}

/// Bytes that start with a byte that is no digit of the radix are refused as an invalid digit.
proof fn lemma_first_not_digit(d: Seq<u8>, radix: nat, limit: nat, over: IntegerError)
    requires
        d.len() > 0,
        digit_of(d[0], radix) is None,
    ensures
        digits_value(d, radix, limit, over) == Err::<nat, IntegerError>(IntegerError::InvalidDigit),
    decreases d.len(),
{
    if d.len() == 1 {
        assert(d.drop_last() =~= Seq::<u8>::empty());
    } else {
        assert(d.drop_last()[0] == d[0]);
        lemma_first_not_digit(d.drop_last(), radix, limit, over);
    }
}

/// The decimal text of an integer outside the range of a type: too large, it is refused as a
/// positive overflow; too small, as a negative overflow for a signed type, and for a type
/// without negative values its `-` is an invalid digit.
pub proof fn lemma_integer_out_of_range(n: int, signed: bool, min: int, max: int)
    requires
        min <= 0 <= max,
        n > max || n < min,
    ensures
        int_value(encode_utf8(decimal_repr(n)), 10, signed, min, max) == Err::<int, IntegerError>(
            if n > max {
                IntegerError::PosOverflow
            } else if signed {
                IntegerError::NegOverflow
            } else {
                IntegerError::InvalidDigit
            },
        ),
{
    if n >= 0 {
        let d = digits_repr(n as nat);
        lemma_digits_ascii(n as nat);
        lemma_encode_ascii(d);
        lemma_digits_over(n as nat, max as nat, IntegerError::PosOverflow);
        let b = encode_utf8(decimal_repr(n));
        assert(b[0] == (d[0] as u32) as u8);
    } else {
        let d = digits_repr((-n) as nat);
        lemma_digits_ascii((-n) as nat);
        let full = decimal_repr(n);
        assert(ascii_chars(full)) by {
            assert forall|i: int| 0 <= i < full.len() implies (#[trigger] full[i] as u32) < 0x80 by {
                if i > 0 {
                    assert(full[i] == d[i - 1]);
                }
            }
        }
        lemma_encode_ascii(full);
        let b = encode_utf8(full);
        assert(b.drop_first() =~= d.map_values(|c: char| (c as u32) as u8));
        assert(b[0] == 0x2d);
        if signed {
            lemma_digits_over((-n) as nat, (-min) as nat, IntegerError::NegOverflow);
        } else {
            lemma_first_not_digit(b, 10, max as nat, IntegerError::PosOverflow);
        }
    }
}

/// The decimal text of an integer just outside the range of each integer type is refused: one
/// above the largest value as a positive overflow, one below the smallest as a negative
/// overflow (for a type without negative values, `-1` as an invalid digit).
pub proof fn lemma_decimal_integers_out_of_range()
    ensures
        int_value(encode_utf8(decimal_repr(i8::MAX + 1)), 10, <i8 as Integer>::signed(), <i8 as Integer>::min_value(), <i8 as Integer>::max_value()) == Err::<int, IntegerError>(IntegerError::PosOverflow),
        int_value(encode_utf8(decimal_repr(i8::MIN - 1)), 10, <i8 as Integer>::signed(), <i8 as Integer>::min_value(), <i8 as Integer>::max_value()) == Err::<int, IntegerError>(IntegerError::NegOverflow),
        int_value(encode_utf8(decimal_repr(i16::MAX + 1)), 10, <i16 as Integer>::signed(), <i16 as Integer>::min_value(), <i16 as Integer>::max_value()) == Err::<int, IntegerError>(IntegerError::PosOverflow),
        int_value(encode_utf8(decimal_repr(i16::MIN - 1)), 10, <i16 as Integer>::signed(), <i16 as Integer>::min_value(), <i16 as Integer>::max_value()) == Err::<int, IntegerError>(IntegerError::NegOverflow),
        int_value(encode_utf8(decimal_repr(i32::MAX + 1)), 10, <i32 as Integer>::signed(), <i32 as Integer>::min_value(), <i32 as Integer>::max_value()) == Err::<int, IntegerError>(IntegerError::PosOverflow),
        int_value(encode_utf8(decimal_repr(i32::MIN - 1)), 10, <i32 as Integer>::signed(), <i32 as Integer>::min_value(), <i32 as Integer>::max_value()) == Err::<int, IntegerError>(IntegerError::NegOverflow),
        int_value(encode_utf8(decimal_repr(i64::MAX + 1)), 10, <i64 as Integer>::signed(), <i64 as Integer>::min_value(), <i64 as Integer>::max_value()) == Err::<int, IntegerError>(IntegerError::PosOverflow),
        int_value(encode_utf8(decimal_repr(i64::MIN - 1)), 10, <i64 as Integer>::signed(), <i64 as Integer>::min_value(), <i64 as Integer>::max_value()) == Err::<int, IntegerError>(IntegerError::NegOverflow),
        int_value(encode_utf8(decimal_repr(i128::MAX + 1)), 10, <i128 as Integer>::signed(), <i128 as Integer>::min_value(), <i128 as Integer>::max_value()) == Err::<int, IntegerError>(IntegerError::PosOverflow),
        int_value(encode_utf8(decimal_repr(i128::MIN - 1)), 10, <i128 as Integer>::signed(), <i128 as Integer>::min_value(), <i128 as Integer>::max_value()) == Err::<int, IntegerError>(IntegerError::NegOverflow),
        int_value(encode_utf8(decimal_repr(isize::MAX + 1)), 10, <isize as Integer>::signed(), <isize as Integer>::min_value(), <isize as Integer>::max_value()) == Err::<int, IntegerError>(IntegerError::PosOverflow),
        int_value(encode_utf8(decimal_repr(isize::MIN - 1)), 10, <isize as Integer>::signed(), <isize as Integer>::min_value(), <isize as Integer>::max_value()) == Err::<int, IntegerError>(IntegerError::NegOverflow),
        int_value(encode_utf8(decimal_repr(u8::MAX + 1)), 10, <u8 as Integer>::signed(), <u8 as Integer>::min_value(), <u8 as Integer>::max_value()) == Err::<int, IntegerError>(IntegerError::PosOverflow),
        int_value(encode_utf8(decimal_repr(-1)), 10, <u8 as Integer>::signed(), <u8 as Integer>::min_value(), <u8 as Integer>::max_value()) == Err::<int, IntegerError>(IntegerError::InvalidDigit),
        int_value(encode_utf8(decimal_repr(u16::MAX + 1)), 10, <u16 as Integer>::signed(), <u16 as Integer>::min_value(), <u16 as Integer>::max_value()) == Err::<int, IntegerError>(IntegerError::PosOverflow),
        int_value(encode_utf8(decimal_repr(-1)), 10, <u16 as Integer>::signed(), <u16 as Integer>::min_value(), <u16 as Integer>::max_value()) == Err::<int, IntegerError>(IntegerError::InvalidDigit),
        int_value(encode_utf8(decimal_repr(u32::MAX + 1)), 10, <u32 as Integer>::signed(), <u32 as Integer>::min_value(), <u32 as Integer>::max_value()) == Err::<int, IntegerError>(IntegerError::PosOverflow),
        int_value(encode_utf8(decimal_repr(-1)), 10, <u32 as Integer>::signed(), <u32 as Integer>::min_value(), <u32 as Integer>::max_value()) == Err::<int, IntegerError>(IntegerError::InvalidDigit),
        int_value(encode_utf8(decimal_repr(u64::MAX + 1)), 10, <u64 as Integer>::signed(), <u64 as Integer>::min_value(), <u64 as Integer>::max_value()) == Err::<int, IntegerError>(IntegerError::PosOverflow),
        int_value(encode_utf8(decimal_repr(-1)), 10, <u64 as Integer>::signed(), <u64 as Integer>::min_value(), <u64 as Integer>::max_value()) == Err::<int, IntegerError>(IntegerError::InvalidDigit),
        int_value(encode_utf8(decimal_repr(u128::MAX + 1)), 10, <u128 as Integer>::signed(), <u128 as Integer>::min_value(), <u128 as Integer>::max_value()) == Err::<int, IntegerError>(IntegerError::PosOverflow),
        int_value(encode_utf8(decimal_repr(-1)), 10, <u128 as Integer>::signed(), <u128 as Integer>::min_value(), <u128 as Integer>::max_value()) == Err::<int, IntegerError>(IntegerError::InvalidDigit),
        int_value(encode_utf8(decimal_repr(usize::MAX + 1)), 10, <usize as Integer>::signed(), <usize as Integer>::min_value(), <usize as Integer>::max_value()) == Err::<int, IntegerError>(IntegerError::PosOverflow),
        int_value(encode_utf8(decimal_repr(-1)), 10, <usize as Integer>::signed(), <usize as Integer>::min_value(), <usize as Integer>::max_value()) == Err::<int, IntegerError>(IntegerError::InvalidDigit),
{
    lemma_integer_out_of_range(i8::MAX + 1, true, -0x80, 0x7f);
    lemma_integer_out_of_range(i8::MIN - 1, true, -0x80, 0x7f);
    lemma_integer_out_of_range(i16::MAX + 1, true, i16::MIN as int, i16::MAX as int);
    lemma_integer_out_of_range(i16::MIN - 1, true, i16::MIN as int, i16::MAX as int);
    lemma_integer_out_of_range(i32::MAX + 1, true, i32::MIN as int, i32::MAX as int);
    lemma_integer_out_of_range(i32::MIN - 1, true, i32::MIN as int, i32::MAX as int);
    lemma_integer_out_of_range(i64::MAX + 1, true, i64::MIN as int, i64::MAX as int);
    lemma_integer_out_of_range(i64::MIN - 1, true, i64::MIN as int, i64::MAX as int);
    lemma_integer_out_of_range(i128::MAX + 1, true, i128::MIN as int, i128::MAX as int);
    lemma_integer_out_of_range(i128::MIN - 1, true, i128::MIN as int, i128::MAX as int);
    lemma_integer_out_of_range(isize::MAX + 1, true, isize::MIN as int, isize::MAX as int);
    lemma_integer_out_of_range(isize::MIN - 1, true, isize::MIN as int, isize::MAX as int);
    lemma_integer_out_of_range(u8::MAX + 1, false, 0, u8::MAX as int);
    lemma_integer_out_of_range(-1, false, 0, u8::MAX as int);
    lemma_integer_out_of_range(u16::MAX + 1, false, 0, u16::MAX as int);
    lemma_integer_out_of_range(-1, false, 0, u16::MAX as int);
    lemma_integer_out_of_range(u32::MAX + 1, false, 0, u32::MAX as int);
    lemma_integer_out_of_range(-1, false, 0, u32::MAX as int);
    lemma_integer_out_of_range(u64::MAX + 1, false, 0, u64::MAX as int);
    lemma_integer_out_of_range(-1, false, 0, u64::MAX as int);
    lemma_integer_out_of_range(u128::MAX + 1, false, 0, u128::MAX as int);
    lemma_integer_out_of_range(-1, false, 0, u128::MAX as int);
    lemma_integer_out_of_range(usize::MAX + 1, false, 0, usize::MAX as int);
    lemma_integer_out_of_range(-1, false, 0, usize::MAX as int);
}

} // verus!
