use vstd::prelude::*;

verus! {

pub open spec fn is_digit(c: char) -> bool {
    '0' <= c && c <= '9'
}

/// Whether `d` is a non-empty run of decimal digits.
pub open spec fn all_digits(d: Seq<char>) -> bool {
    d.len() > 0 && forall|i: int| 0 <= i < d.len() ==> is_digit(#[trigger] d[i])
}

/// The value of a run of decimal digits, most significant first.
pub open spec fn digits_value(d: Seq<char>) -> int
    decreases d.len(),
{
    if d.len() == 0 {
        0
    } else {
        digits_value(d.drop_last()) * 10 + (d.last() as int - '0' as int)
    }
}

/// The value of decimal text with an optional leading `+`.
pub open spec fn unsigned_text_value(t: Seq<char>) -> Option<int> {
    let d = if t.len() > 0 && t[0] == '+' {
        t.drop_first()
    } else {
        t
    };
    if all_digits(d) {
        Some(digits_value(d))
    } else {
        None
    }
}

/// The value of decimal text with an optional leading `+` or `-`.
pub open spec fn signed_text_value(t: Seq<char>) -> Option<int> {
    if t.len() > 0 && t[0] == '-' {
        if all_digits(t.drop_first()) {
            Some(-digits_value(t.drop_first()))
        } else {
            None
        }
    } else {
        unsigned_text_value(t)
    }
}

pub open spec fn u32_of_text(t: Seq<char>) -> Option<u32> {
    match unsigned_text_value(t) {
        Some(n) => if n <= u32::MAX {
            Some(n as u32)
        } else {
            None
        },
        None => None,
    }
}

pub open spec fn u64_of_text(t: Seq<char>) -> Option<u64> {
    match unsigned_text_value(t) {
        Some(n) => if n <= u64::MAX {
            Some(n as u64)
        } else {
            None
        },
        None => None,
    }
}

pub open spec fn usize_of_text(t: Seq<char>) -> Option<usize> {
    match unsigned_text_value(t) {
        Some(n) => if n <= usize::MAX {
            Some(n as usize)
        } else {
            None
        },
        None => None,
    }
}

pub open spec fn i32_of_text(t: Seq<char>) -> Option<i32> {
    match signed_text_value(t) {
        Some(n) => if i32::MIN <= n <= i32::MAX {
            Some(n as i32)
        } else {
            None
        },
        None => None,
    }
}

pub open spec fn i64_of_text(t: Seq<char>) -> Option<i64> {
    match signed_text_value(t) {
        Some(n) => if i64::MIN <= n <= i64::MAX {
            Some(n as i64)
        } else {
            None
        },
        None => None,
    }
}

pub open spec fn u8_of_text(t: Seq<char>) -> Option<u8> {
    match unsigned_text_value(t) {
        Some(n) => if n <= u8::MAX {
            Some(n as u8)
        } else {
            None
        },
        None => None,
    }
}

pub open spec fn u16_of_text(t: Seq<char>) -> Option<u16> {
    match unsigned_text_value(t) {
        Some(n) => if n <= u16::MAX {
            Some(n as u16)
        } else {
            None
        },
        None => None,
    }
}

pub open spec fn u128_of_text(t: Seq<char>) -> Option<u128> {
    match unsigned_text_value(t) {
        Some(n) => if n <= u128::MAX {
            Some(n as u128)
        } else {
            None
        },
        None => None,
    }
}

pub open spec fn i8_of_text(t: Seq<char>) -> Option<i8> {
    match signed_text_value(t) {
        Some(n) => if i8::MIN <= n <= i8::MAX {
            Some(n as i8)
        } else {
            None
        },
        None => None,
    }
}

pub open spec fn i16_of_text(t: Seq<char>) -> Option<i16> {
    match signed_text_value(t) {
        Some(n) => if i16::MIN <= n <= i16::MAX {
            Some(n as i16)
        } else {
            None
        },
        None => None,
    }
}

pub open spec fn i128_of_text(t: Seq<char>) -> Option<i128> {
    match signed_text_value(t) {
        Some(n) => if i128::MIN <= n <= i128::MAX {
            Some(n as i128)
        } else {
            None
        },
        None => None,
    }
}

pub open spec fn isize_of_text(t: Seq<char>) -> Option<isize> {
    match signed_text_value(t) {
        Some(n) => if isize::MIN <= n <= isize::MAX {
            Some(n as isize)
        } else {
            None
        },
        None => None,
    }
}

/// A text of exactly one character.
pub open spec fn char_of_text(t: Seq<char>) -> Option<char> {
    if t.len() == 1 {
        Some(t[0])
    } else {
        None
    }
}

/// Relies on `char`'s `FromStr`: it accepts a text of exactly one character.
#[verifier::external_body]
pub(crate) fn parse_char(t: &str) -> (r: Option<char>)
    ensures
        r == char_of_text(t@),
{
    t.parse::<char>().ok()
}

/// Relies on `u32`'s `FromStr`: decimal digits with an optional `+`, whose
/// value fits.
#[verifier::external_body]
pub(crate) fn parse_u32(t: &str) -> (r: Option<u32>)
    ensures
        r == u32_of_text(t@),
{
    t.parse::<u32>().ok()
}

/// Relies on `u64`'s `FromStr`: decimal digits with an optional `+`, whose
/// value fits.
#[verifier::external_body]
pub(crate) fn parse_u64(t: &str) -> (r: Option<u64>)
    ensures
        r == u64_of_text(t@),
{
    t.parse::<u64>().ok()
}

/// Relies on `usize`'s `FromStr`: decimal digits with an optional `+`, whose
/// value fits.
#[verifier::external_body]
pub(crate) fn parse_usize(t: &str) -> (r: Option<usize>)
    ensures
        r == usize_of_text(t@),
{
    t.parse::<usize>().ok()
}

/// Relies on `i32`'s `FromStr`: decimal digits with an optional `+` or `-`,
/// whose value fits.
#[verifier::external_body]
pub(crate) fn parse_i32(t: &str) -> (r: Option<i32>)
    ensures
        r == i32_of_text(t@),
{
    t.parse::<i32>().ok()
}

/// Relies on `i64`'s `FromStr`: decimal digits with an optional `+` or `-`,
/// whose value fits.
#[verifier::external_body]
pub(crate) fn parse_i64(t: &str) -> (r: Option<i64>)
    ensures
        r == i64_of_text(t@),
{
    t.parse::<i64>().ok()
}

/// Relies on `u8`'s `FromStr`: decimal digits with an optional `+`, whose
/// value fits.
#[verifier::external_body]
pub(crate) fn parse_u8(t: &str) -> (r: Option<u8>)
    ensures
        r == u8_of_text(t@),
{
    t.parse::<u8>().ok()
}

/// Relies on `u16`'s `FromStr`: decimal digits with an optional `+`, whose
/// value fits.
#[verifier::external_body]
pub(crate) fn parse_u16(t: &str) -> (r: Option<u16>)
    ensures
        r == u16_of_text(t@),
{
    t.parse::<u16>().ok()
}

/// Relies on `u128`'s `FromStr`: decimal digits with an optional `+`, whose
/// value fits.
#[verifier::external_body]
pub(crate) fn parse_u128(t: &str) -> (r: Option<u128>)
    ensures
        r == u128_of_text(t@),
{
    t.parse::<u128>().ok()
}

/// Relies on `i8`'s `FromStr`: decimal digits with an optional `+` or `-`, whose
/// value fits.
#[verifier::external_body]
pub(crate) fn parse_i8(t: &str) -> (r: Option<i8>)
    ensures
        r == i8_of_text(t@),
{
    t.parse::<i8>().ok()
}

/// Relies on `i16`'s `FromStr`: decimal digits with an optional `+` or `-`, whose
/// value fits.
#[verifier::external_body]
pub(crate) fn parse_i16(t: &str) -> (r: Option<i16>)
    ensures
        r == i16_of_text(t@),
{
    t.parse::<i16>().ok()
}

/// Relies on `i128`'s `FromStr`: decimal digits with an optional `+` or `-`, whose
/// value fits.
#[verifier::external_body]
pub(crate) fn parse_i128(t: &str) -> (r: Option<i128>)
    ensures
        r == i128_of_text(t@),
{
    t.parse::<i128>().ok()
}

/// Relies on `isize`'s `FromStr`: decimal digits with an optional `+` or `-`, whose
/// value fits.
#[verifier::external_body]
pub(crate) fn parse_isize(t: &str) -> (r: Option<isize>)
    ensures
        r == isize_of_text(t@),
{
    t.parse::<isize>().ok()
}

} // verus!
