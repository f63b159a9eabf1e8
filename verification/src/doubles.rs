//! IEEE-754 binary64 arithmetic, performed on bit patterns (`u64`).
//!
//! The language's numbers are binary64 values. Verified code carries them as
//! their bit patterns; the four arithmetic operations and decimal-to-double
//! conversion are done by the `rustc_apfloat` software implementation of
//! IEEE-754, behind the trusted wrappers of this module. Each operation is a
//! pure function of its operands' bits, so each is given an uninterpreted
//! name that the wrappers' contracts and their callers share.

use vstd::prelude::*;

use rustc_apfloat::Float;
use rustc_apfloat::ieee::Double;

verus! {

/// The bits of the binary64 sum of two binary64 values (round to nearest,
/// ties to even).
pub uninterp spec fn add_bits(a: u64, b: u64) -> u64;

/// The bits of the binary64 difference of two binary64 values.
pub uninterp spec fn sub_bits(a: u64, b: u64) -> u64;

/// The bits of the binary64 product of two binary64 values.
pub uninterp spec fn mul_bits(a: u64, b: u64) -> u64;

/// The bits of the binary64 quotient of two binary64 values (division by
/// zero yields an infinity or NaN, as IEEE-754 prescribes).
pub uninterp spec fn div_bits(a: u64, b: u64) -> u64;

/// The bits of the binary64 value that a decimal literal denotes, rounded to
/// nearest, ties to even.
pub uninterp spec fn double_of_decimal(s: Seq<char>) -> u64;

/// A decimal digit.
pub open spec fn is_digit_char(c: char) -> bool {
    '0' <= c && c <= '9'
}

/// The text of a decimal token past its optional leading minus sign.
pub open spec fn digits_part(s: Seq<char>) -> Seq<char> {
    if s.len() > 0 && s[0] == '-' {
        s.drop_first()
    } else {
        s
    }
}

/// Text that denotes a decimal number: an optional leading minus sign, then
/// digits and at most one dot, with at least one digit.
pub open spec fn decimal_token(s: Seq<char>) -> bool {
    &&& digits_part(s).len() > 0
    &&& forall|i: int| 0 <= i < digits_part(s).len() ==> is_digit_char(digits_part(s)[i])
        || digits_part(s)[i] == '.'
    &&& exists|i: int| 0 <= i < digits_part(s).len() && is_digit_char(digits_part(s)[i])
    &&& forall|i: int, j: int| 0 <= i < j < digits_part(s).len() && digits_part(s)[i] == '.'
        ==> digits_part(s)[j] != '.'
}

/// Relies on `rustc_apfloat`'s `Add` for `ieee::Double`: binary64 addition,
/// round to nearest, ties to even, a function of the operand bits alone.
#[verifier::external_body]
pub(crate) fn double_add(a: u64, b: u64) -> (r: u64)
    ensures
        r == add_bits(a, b),
{
    let x = Double::from_bits(a as u128);
    let y = Double::from_bits(b as u128);
    (x + y).value.to_bits() as u64
}

/// Relies on `rustc_apfloat`'s `Sub` for `ieee::Double`: binary64
/// subtraction, round to nearest, ties to even, a function of the operand
/// bits alone.
#[verifier::external_body]
pub(crate) fn double_sub(a: u64, b: u64) -> (r: u64)
    ensures
        r == sub_bits(a, b),
{
    let x = Double::from_bits(a as u128);
    let y = Double::from_bits(b as u128);
    (x - y).value.to_bits() as u64
}

/// Relies on `rustc_apfloat`'s `Mul` for `ieee::Double`: binary64
/// multiplication, round to nearest, ties to even, a function of the operand
/// bits alone.
#[verifier::external_body]
pub(crate) fn double_mul(a: u64, b: u64) -> (r: u64)
    ensures
        r == mul_bits(a, b),
{
    let x = Double::from_bits(a as u128);
    let y = Double::from_bits(b as u128);
    (x * y).value.to_bits() as u64
}

/// Relies on `rustc_apfloat`'s `Div` for `ieee::Double`: binary64 division,
/// round to nearest, ties to even, a function of the operand bits alone;
/// division by zero gives an infinity or NaN per IEEE-754, it does not fail.
#[verifier::external_body]
pub(crate) fn double_div(a: u64, b: u64) -> (r: u64)
    ensures
        r == div_bits(a, b),
{
    let x = Double::from_bits(a as u128);
    let y = Double::from_bits(b as u128);
    (x / y).value.to_bits() as u64
}

/// Relies on `rustc_apfloat`'s `FromStr` for `ieee::Double`: conversion of a
/// decimal literal to the nearest binary64 value (ties to even), a function
/// of the text alone. Its decimal reader accepts every text that
/// `decimal_token` admits, so the fallback arm is never taken.
#[verifier::external_body]
pub(crate) fn parse_double(s: &str) -> (r: u64)
    requires
        decimal_token(s@),
    ensures
        r == double_of_decimal(s@),
{
    match s.parse::<Double>() {
        Ok(d) => d.to_bits() as u64,
        Err(_) => 0,
    }
}



} // verus!
