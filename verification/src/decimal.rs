//! Trusted boundary around `rust_decimal::Decimal`.
//!
//! The conversion expressions compute on `Decimal` values. The arithmetic
//! itself is done by the `rust_decimal` crate; each operation the library
//! relies on is named by an uninterpreted spec function, so contracts can
//! speak of the results without restating decimal arithmetic.

use core::str::FromStr;
use rust_decimal::Decimal;
use vstd::prelude::*;

verus! {

#[verifier::external_type_specification]
#[verifier::external_body]
pub struct ExDecimal(Decimal);

/// The saturating sum of two decimals (`Decimal::saturating_add`).
pub uninterp spec fn dec_add(a: Decimal, b: Decimal) -> Decimal;

/// The saturating difference of two decimals (`Decimal::saturating_sub`).
pub uninterp spec fn dec_sub(a: Decimal, b: Decimal) -> Decimal;

/// The saturating product of two decimals (`Decimal::saturating_mul`).
pub uninterp spec fn dec_mul(a: Decimal, b: Decimal) -> Decimal;

/// The checked quotient of two decimals (`Decimal::checked_div`): `None` on
/// division by zero or overflow.
pub uninterp spec fn dec_div(a: Decimal, b: Decimal) -> Option<Decimal>;

/// Whether a decimal is exactly zero (`Decimal::is_zero`).
pub uninterp spec fn dec_is_zero(d: Decimal) -> bool;

/// The decimal denoted by a string of characters, if any
/// (`Decimal::from_str`, with failures collapsed to `None`).
pub uninterp spec fn dec_parse(s: Seq<char>) -> Option<Decimal>;

/// The decimal with trailing zeros stripped and `-0` replaced by `0`
/// (`Decimal::normalize`).
pub uninterp spec fn dec_normalize(d: Decimal) -> Decimal;

/// The canonical textual rendering of a decimal (`Decimal::fmt` via
/// `ToString`); it depends on the decimal value alone.
pub uninterp spec fn dec_str(d: Decimal) -> Seq<char>;

/// Relies on `Decimal::saturating_add`: the sum, clamped at the decimal
/// range's boundary on overflow; it never panics.
#[verifier::external_body]
pub(crate) fn sat_add(a: Decimal, b: Decimal) -> (r: Decimal)
    ensures
        r == dec_add(a, b),
{
    a.saturating_add(b)
}

/// Relies on `Decimal::saturating_sub`: the difference, clamped at the
/// decimal range's boundary on overflow; it never panics.
#[verifier::external_body]
pub(crate) fn sat_sub(a: Decimal, b: Decimal) -> (r: Decimal)
    ensures
        r == dec_sub(a, b),
{
    a.saturating_sub(b)
}

/// Relies on `Decimal::saturating_mul`: the product, clamped at the decimal
/// range's boundary on overflow; it never panics.
#[verifier::external_body]
pub(crate) fn sat_mul(a: Decimal, b: Decimal) -> (r: Decimal)
    ensures
        r == dec_mul(a, b),
{
    a.saturating_mul(b)
}

/// Relies on `Decimal::checked_div`: `Some` quotient, or `None` when the
/// divisor is zero or the quotient overflows; it never panics.
#[verifier::external_body]
pub(crate) fn checked_div(a: Decimal, b: Decimal) -> (r: Option<Decimal>)
    ensures
        r == dec_div(a, b),
{
    a.checked_div(b)
}

/// Relies on `Decimal::is_zero`: true exactly when the value is zero.
#[verifier::external_body]
pub(crate) fn is_zero(d: &Decimal) -> (r: bool)
    ensures
        r == dec_is_zero(*d),
{
    d.is_zero()
}

/// Relies on `Decimal::from_str`: parses a numeric literal, `Err` collapsed
/// to `None`; the result depends on the characters alone.
#[verifier::external_body]
pub(crate) fn parse_decimal(chars: &[char]) -> (r: Option<Decimal>)
    ensures
        r == dec_parse(chars@),
{
    let s: String = chars.iter().collect();
    Decimal::from_str(&s).ok()
}

/// Relies on `Decimal::normalize`: strips trailing zeros and turns `-0`
/// into `0` without changing the numeric value.
#[verifier::external_body]
pub(crate) fn normalize(d: &Decimal) -> (r: Decimal)
    ensures
        r == dec_normalize(*d),
{
    d.normalize()
}

/// Relies on `Decimal::fmt` (through `ToString`): the plain decimal
/// rendering, a function of the value alone.
#[verifier::external_body]
pub(crate) fn to_text(d: &Decimal) -> (s: String)
    ensures
        s@ == dec_str(*d),
{
    d.to_string()
}

} // verus!
