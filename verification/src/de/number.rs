//! Reading integers from the digits that the parser kept, as `from_str_radix` reads them.

use vstd::prelude::*;

use super::error::{Error, ErrorKind, IntegerError, Result};

verus! {

/// The value of a digit in the given radix (letters count from ten), if it is one.
pub open spec fn digit_of(b: u8, radix: nat) -> Option<nat> {
    let d: int = if 0x30 <= b <= 0x39 {
        b - 0x30
    } else if 0x61 <= b <= 0x7a {
        b - 0x61 + 10
    } else if 0x41 <= b <= 0x5a {
        b - 0x41 + 10
    } else {
        99
    };
    if d < radix {
        Some(d as nat)
    } else {
        None
    }
}

/// The number that the digits denote, read from the left: the first byte that is not a digit
/// is an `InvalidDigit` error, the first digit after which the number exceeds `limit` is the
/// `over` error.
pub open spec fn digits_value(d: Seq<u8>, radix: nat, limit: nat, over: IntegerError) -> std::result::Result<nat, IntegerError>
    decreases d.len(),
{
    if d.len() == 0 {
        Ok(0)
    } else {
        match digits_value(d.drop_last(), radix, limit, over) {
            Err(e) => Err(e),
            Ok(v) => match digit_of(d.last(), radix) {
                None => Err(IntegerError::InvalidDigit),
                Some(x) => if v * radix + x > limit {
                    Err(over)
                } else {
                    Ok(v * radix + x)
                },
            },
        }
    }
}

/// The integer that `src` denotes in the radix, for a type with the given range: an optional
/// `+` (or `-`, for a signed type) and digits.
pub open spec fn int_value(src: Seq<u8>, radix: nat, signed: bool, min: int, max: int) -> std::result::Result<int, IntegerError> {
    if src.len() == 0 {
        Err(IntegerError::Empty)
    } else if (src[0] == 0x2b || src[0] == 0x2d) && src.len() == 1 {
        Err(IntegerError::InvalidDigit)
    } else if src[0] == 0x2b {
        match digits_value(src.drop_first(), radix, max as nat, IntegerError::PosOverflow) {
            Ok(v) => Ok(v as int),
            Err(e) => Err(e),
        }
    } else if src[0] == 0x2d && signed {
        match digits_value(src.drop_first(), radix, (-min) as nat, IntegerError::NegOverflow) {
            Ok(v) => Ok(-v),
            Err(e) => Err(e),
        }
    } else {
        match digits_value(src, radix, max as nat, IntegerError::PosOverflow) {
            Ok(v) => Ok(v as int),
            Err(e) => Err(e),
        }
    }
}

/// Once a prefix of the digits is refused, so are the digits, for the same reason.
proof fn lemma_digits_err(d: Seq<u8>, k: int, radix: nat, limit: nat, over: IntegerError)
    requires
        0 <= k <= d.len(),
        digits_value(d.take(k), radix, limit, over) is Err,
    ensures
        digits_value(d, radix, limit, over) == digits_value(d.take(k), radix, limit, over),
    decreases d.len(),
{
    if k == d.len() {
        assert(d.take(k) =~= d);
    } else {
        assert(d.drop_last().take(k) =~= d.take(k));
        lemma_digits_err(d.drop_last(), k, radix, limit, over);
    }
}

/// The value of a byte as a digit of the radix.
fn digit(b: u8, radix: u32) -> (r: Option<u32>)
    requires
        2 <= radix <= 36,
    ensures
        match digit_of(b, radix as nat) {
            Some(d) => r == Some(d as u32),
            None => r is None,
        },
{
    let d: u32 = if 0x30 <= b && b <= 0x39 {
        (b - 0x30) as u32
    } else if 0x61 <= b && b <= 0x7a {
        (b - 0x61 + 10) as u32
    } else if 0x41 <= b && b <= 0x5a {
        (b - 0x41 + 10) as u32
    } else {
        99
    };
    if d < radix {
        Some(d)
    } else {
        None
    }
}

/// Reads digits (see [`digits_value`]).
fn parse_digits(d: &[u8], radix: u32, limit: u128, over: IntegerError) -> (r: std::result::Result<u128, IntegerError>)
    requires
        2 <= radix <= 36,
    ensures
        match digits_value(d@, radix as nat, limit as nat, over) {
            Ok(n) => r == Ok::<u128, IntegerError>(n as u128),
            Err(e) => r == Err::<u128, IntegerError>(e),
        },
{
    let mut acc: u128 = 0;
    let mut i: usize = 0;
    while i < d.len()
        invariant
            2 <= radix <= 36,
            0 <= i <= d@.len(),
            digits_value(d@.take(i as int), radix as nat, limit as nat, over) == Ok::<nat, IntegerError>(acc as nat),
            acc <= limit,
        decreases d@.len() - i,
    {
        let ghost t = d@.take(i + 1);
        assert(t.drop_last() =~= d@.take(i as int));
        let x = match digit(d[i], radix) {
            Some(x) => x,
            None => {
                proof {
                    lemma_digits_err(d@, i + 1, radix as nat, limit as nat, over);
                }
                return Err(IntegerError::InvalidDigit);
            },
        };
        let next = match acc.checked_mul(radix as u128) {
            Some(m) => m.checked_add(x as u128),
            None => None,
        };
        match next {
            Some(n) if n <= limit => {
                acc = n;
            },
            _ => {
                proof {
                    lemma_digits_err(d@, i + 1, radix as nat, limit as nat, over);
                }
                return Err(over);
            },
        }
        i = i + 1;
    }
    assert(d@.take(i as int) =~= d@);
    Ok(acc)
}

/// Reads an integer (see [`int_value`]) as its sign and magnitude, for a type whose range is
/// `-neg_limit..=pos_limit`.
fn parse_int(src: &[u8], radix: u32, signed: bool, neg_limit: u128, pos_limit: u128) -> (r: std::result::Result<(bool, u128), IntegerError>)
    requires
        2 <= radix <= 36,
    ensures
        match int_value(src@, radix as nat, signed, -(neg_limit as int), pos_limit as int) {
            Ok(n) => r matches Ok((neg, m)) && (if neg { -(m as int) } else { m as int }) == n
                && (neg ==> m <= neg_limit) && (!neg ==> m <= pos_limit),
            Err(e) => r == Err::<(bool, u128), IntegerError>(e),
        },
{
    if src.len() == 0 {
        return Err(IntegerError::Empty);
    }
    let first = src[0];
    if (first == 0x2b || first == 0x2d) && src.len() == 1 {
        return Err(IntegerError::InvalidDigit);
    }
    let rest = vstd::slice::slice_subrange(src, 1, src.len());
    assert(rest@ =~= src@.drop_first());
    if first == 0x2b {
        match parse_digits(rest, radix, pos_limit, IntegerError::PosOverflow) {
            Ok(m) => Ok((false, m)),
            Err(e) => Err(e),
        }
    } else if first == 0x2d && signed {
        match parse_digits(rest, radix, neg_limit, IntegerError::NegOverflow) {
            Ok(m) => Ok((true, m)),
            Err(e) => Err(e),
        }
    } else {
        match parse_digits(src, radix, pos_limit, IntegerError::PosOverflow) {
            Ok(m) => Ok((false, m)),
            Err(e) => Err(e),
        }
    }
}

/// The error for digits that do not denote an integer of the type.
fn integer_error(e: IntegerError) -> (r: Error)
    ensures
        r.spec_kind() == ErrorKind::InvalidInteger(e),
{
    Error::from_kind(ErrorKind::InvalidInteger(e))
}

/// The value of a sign and a magnitude that fits an `i128`.
fn signed_value(neg: bool, m: u128) -> (r: i128)
    requires
        neg ==> m <= 0x8000_0000_0000_0000_0000_0000_0000_0000,
        !neg ==> m <= 0x7fff_ffff_ffff_ffff_ffff_ffff_ffff_ffff,
    ensures
        r as int == (if neg { -(m as int) } else { m as int }),
{
    if neg {
        if m == 0 {
            0
        } else {
            -((m - 1) as i128) - 1
        }
    } else {
        m as i128
    }
}

/// An integer type that can be read from digits.
pub trait Integer: Sized {
    /// The smallest value of the type.
    spec fn min_value() -> int;

    /// The largest value of the type.
    spec fn max_value() -> int;

    /// Whether the type has negative values.
    spec fn signed() -> bool;

    /// The value of an integer.
    spec fn value_of(self) -> int;

    /// Reads the integer from digits in the radix (with an optional sign).
    fn from_str_radix(src: &[u8], radix: u32) -> (r: Result<Self>)
        requires
            2 <= radix <= 36,
        ensures
            match int_value(src@, radix as nat, Self::signed(), Self::min_value(), Self::max_value()) {
                Ok(n) => r matches Ok(v) && v.value_of() == n,
                Err(e) => r matches Err(err) && err.spec_kind() == ErrorKind::InvalidInteger(e),
            },
    ;

    /// Reads the integer from decimal digits (with an optional sign).
    fn from_str(src: &[u8]) -> (r: Result<Self>)
        ensures
            match int_value(src@, 10, Self::signed(), Self::min_value(), Self::max_value()) {
                Ok(n) => r matches Ok(v) && v.value_of() == n,
                Err(e) => r matches Err(err) && err.spec_kind() == ErrorKind::InvalidInteger(e),
            },
    ;
}

impl Integer for i8 {
    open spec fn min_value() -> int {
        -0x80
    }

    open spec fn max_value() -> int {
        0x7f
    }

    open spec fn signed() -> bool {
        true
    }

    open spec fn value_of(self) -> int {
        self as int
    }

    fn from_str_radix(src: &[u8], radix: u32) -> (r: Result<Self>) {
        match parse_int(src, radix, true, 0x80, 0x7f) {
            Ok((neg, m)) => Ok(signed_value(neg, m) as i8),
            Err(e) => Err(integer_error(e)),
        }
    }

    fn from_str(src: &[u8]) -> (r: Result<Self>) {
        <Self as Integer>::from_str_radix(src, 10)
    }
}

impl Integer for i16 {
    open spec fn min_value() -> int {
        -0x8000
    }

    open spec fn max_value() -> int {
        0x7fff
    }

    open spec fn signed() -> bool {
        true
    }

    open spec fn value_of(self) -> int {
        self as int
    }

    fn from_str_radix(src: &[u8], radix: u32) -> (r: Result<Self>) {
        match parse_int(src, radix, true, 0x8000, 0x7fff) {
            Ok((neg, m)) => Ok(signed_value(neg, m) as i16),
            Err(e) => Err(integer_error(e)),
        }
    }

    fn from_str(src: &[u8]) -> (r: Result<Self>) {
        <Self as Integer>::from_str_radix(src, 10)
    }
}

impl Integer for i32 {
    open spec fn min_value() -> int {
        -0x8000_0000
    }

    open spec fn max_value() -> int {
        0x7fff_ffff
    }

    open spec fn signed() -> bool {
        true
    }

    open spec fn value_of(self) -> int {
        self as int
    }

    fn from_str_radix(src: &[u8], radix: u32) -> (r: Result<Self>) {
        match parse_int(src, radix, true, 0x8000_0000, 0x7fff_ffff) {
            Ok((neg, m)) => Ok(signed_value(neg, m) as i32),
            Err(e) => Err(integer_error(e)),
        }
    }

    fn from_str(src: &[u8]) -> (r: Result<Self>) {
        <Self as Integer>::from_str_radix(src, 10)
    }
}

impl Integer for i64 {
    open spec fn min_value() -> int {
        -0x8000_0000_0000_0000
    }

    open spec fn max_value() -> int {
        0x7fff_ffff_ffff_ffff
    }

    open spec fn signed() -> bool {
        true
    }

    open spec fn value_of(self) -> int {
        self as int
    }

    fn from_str_radix(src: &[u8], radix: u32) -> (r: Result<Self>) {
        match parse_int(src, radix, true, 0x8000_0000_0000_0000, 0x7fff_ffff_ffff_ffff) {
            Ok((neg, m)) => Ok(signed_value(neg, m) as i64),
            Err(e) => Err(integer_error(e)),
        }
    }

    fn from_str(src: &[u8]) -> (r: Result<Self>) {
        <Self as Integer>::from_str_radix(src, 10)
    }
}

impl Integer for i128 {
    open spec fn min_value() -> int {
        -0x8000_0000_0000_0000_0000_0000_0000_0000
    }

    open spec fn max_value() -> int {
        0x7fff_ffff_ffff_ffff_ffff_ffff_ffff_ffff
    }

    open spec fn signed() -> bool {
        true
    }

    open spec fn value_of(self) -> int {
        self as int
    }

    fn from_str_radix(src: &[u8], radix: u32) -> (r: Result<Self>) {
        match parse_int(src, radix, true, 0x8000_0000_0000_0000_0000_0000_0000_0000, 0x7fff_ffff_ffff_ffff_ffff_ffff_ffff_ffff) {
            Ok((neg, m)) => Ok(signed_value(neg, m) as i128),
            Err(e) => Err(integer_error(e)),
        }
    }

    fn from_str(src: &[u8]) -> (r: Result<Self>) {
        <Self as Integer>::from_str_radix(src, 10)
    }
}

impl Integer for isize {
    open spec fn min_value() -> int {
        isize::MIN as int
    }

    open spec fn max_value() -> int {
        isize::MAX as int
    }

    open spec fn signed() -> bool {
        true
    }

    open spec fn value_of(self) -> int {
        self as int
    }

    fn from_str_radix(src: &[u8], radix: u32) -> (r: Result<Self>) {
        match parse_int(src, radix, true, (isize::MAX as u128) + 1, isize::MAX as u128) {
            Ok((neg, m)) => Ok(signed_value(neg, m) as isize),
            Err(e) => Err(integer_error(e)),
        }
    }

    fn from_str(src: &[u8]) -> (r: Result<Self>) {
        <Self as Integer>::from_str_radix(src, 10)
    }
}

impl Integer for u8 {
    open spec fn min_value() -> int {
        0
    }

    open spec fn max_value() -> int {
        0xff
    }

    open spec fn signed() -> bool {
        false
    }

    open spec fn value_of(self) -> int {
        self as int
    }

    fn from_str_radix(src: &[u8], radix: u32) -> (r: Result<Self>) {
        match parse_int(src, radix, false, 0, 0xff) {
            Ok((neg, m)) => Ok(m as u8),
            Err(e) => Err(integer_error(e)),
        }
    }

    fn from_str(src: &[u8]) -> (r: Result<Self>) {
        <Self as Integer>::from_str_radix(src, 10)
    }
}

impl Integer for u16 {
    open spec fn min_value() -> int {
        0
    }

    open spec fn max_value() -> int {
        0xffff
    }

    open spec fn signed() -> bool {
        false
    }

    open spec fn value_of(self) -> int {
        self as int
    }

    fn from_str_radix(src: &[u8], radix: u32) -> (r: Result<Self>) {
        match parse_int(src, radix, false, 0, 0xffff) {
            Ok((neg, m)) => Ok(m as u16),
            Err(e) => Err(integer_error(e)),
        }
    }

    fn from_str(src: &[u8]) -> (r: Result<Self>) {
        <Self as Integer>::from_str_radix(src, 10)
    }
}

impl Integer for u32 {
    open spec fn min_value() -> int {
        0
    }

    open spec fn max_value() -> int {
        0xffff_ffff
    }

    open spec fn signed() -> bool {
        false
    }

    open spec fn value_of(self) -> int {
        self as int
    }

    fn from_str_radix(src: &[u8], radix: u32) -> (r: Result<Self>) {
        match parse_int(src, radix, false, 0, 0xffff_ffff) {
            Ok((neg, m)) => Ok(m as u32),
            Err(e) => Err(integer_error(e)),
        }
    }

    fn from_str(src: &[u8]) -> (r: Result<Self>) {
        <Self as Integer>::from_str_radix(src, 10)
    }
}

impl Integer for u64 {
    open spec fn min_value() -> int {
        0
    }

    open spec fn max_value() -> int {
        0xffff_ffff_ffff_ffff
    }

    open spec fn signed() -> bool {
        false
    }

    open spec fn value_of(self) -> int {
        self as int
    }

    fn from_str_radix(src: &[u8], radix: u32) -> (r: Result<Self>) {
        match parse_int(src, radix, false, 0, 0xffff_ffff_ffff_ffff) {
            Ok((neg, m)) => Ok(m as u64),
            Err(e) => Err(integer_error(e)),
        }
    }

    fn from_str(src: &[u8]) -> (r: Result<Self>) {
        <Self as Integer>::from_str_radix(src, 10)
    }
}

impl Integer for u128 {
    open spec fn min_value() -> int {
        0
    }

    open spec fn max_value() -> int {
        0xffff_ffff_ffff_ffff_ffff_ffff_ffff_ffff
    }

    open spec fn signed() -> bool {
        false
    }

    open spec fn value_of(self) -> int {
        self as int
    }

    fn from_str_radix(src: &[u8], radix: u32) -> (r: Result<Self>) {
        match parse_int(src, radix, false, 0, 0xffff_ffff_ffff_ffff_ffff_ffff_ffff_ffff) {
            Ok((neg, m)) => Ok(m as u128),
            Err(e) => Err(integer_error(e)),
        }
    }

    fn from_str(src: &[u8]) -> (r: Result<Self>) {
        <Self as Integer>::from_str_radix(src, 10)
    }
}

impl Integer for usize {
    open spec fn min_value() -> int {
        0
    }

    open spec fn max_value() -> int {
        usize::MAX as int
    }

    open spec fn signed() -> bool {
        false
    }

    open spec fn value_of(self) -> int {
        self as int
    }

    fn from_str_radix(src: &[u8], radix: u32) -> (r: Result<Self>) {
        match parse_int(src, radix, false, 0, usize::MAX as u128) {
            Ok((neg, m)) => Ok(m as usize),
            Err(e) => Err(integer_error(e)),
        }
    }

    fn from_str(src: &[u8]) -> (r: Result<Self>) {
        <Self as Integer>::from_str_radix(src, 10)
    }
}

/// Reads a decimal integer (the parser has already checked its form and dropped underscores).
pub fn parse_integer<T: Integer>(bytes: &[u8]) -> (r: Result<T>)
    ensures
        match int_value(bytes@, 10, T::signed(), T::min_value(), T::max_value()) {
            Ok(n) => r matches Ok(v) && v.value_of() == n,
            Err(e) => r matches Err(err) && err.spec_kind() == ErrorKind::InvalidInteger(e),
        },
{
    T::from_str(bytes)
}

/// Reads a binary integer (without its `0b`).
pub fn parse_binary<T: Integer>(bytes: &[u8]) -> (r: Result<T>)
    ensures
        match int_value(bytes@, 2, T::signed(), T::min_value(), T::max_value()) {
            Ok(n) => r matches Ok(v) && v.value_of() == n,
            Err(e) => r matches Err(err) && err.spec_kind() == ErrorKind::InvalidInteger(e),
        },
{
    T::from_str_radix(bytes, 2)
}

/// Reads an octal integer (without its `0o`).
pub fn parse_octal<T: Integer>(bytes: &[u8]) -> (r: Result<T>)
    ensures
        match int_value(bytes@, 8, T::signed(), T::min_value(), T::max_value()) {
            Ok(n) => r matches Ok(v) && v.value_of() == n,
            Err(e) => r matches Err(err) && err.spec_kind() == ErrorKind::InvalidInteger(e),
        },
{
    T::from_str_radix(bytes, 8)
}

/// Reads a hexadecimal integer (without its `0x`).
pub fn parse_hexadecimal<T: Integer>(bytes: &[u8]) -> (r: Result<T>)
    ensures
        match int_value(bytes@, 16, T::signed(), T::min_value(), T::max_value()) {
            Ok(n) => r matches Ok(v) && v.value_of() == n,
            Err(e) => r matches Err(err) && err.spec_kind() == ErrorKind::InvalidInteger(e),
        },
{
    T::from_str_radix(bytes, 16)
}

} // verus!
