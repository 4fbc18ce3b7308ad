//! Real numbers as IEEE-754 binary64 bit patterns.
//!
//! The arithmetic itself is done by rustc_apfloat's software implementation
//! of IEEE-754 `Double`; each operation is named here by a spec function of
//! its operands.
use rustc_apfloat::ieee::Double;
use rustc_apfloat::{Float, Round};
use vstd::prelude::*;

verus! {

/// The bit pattern of `+0.0`.
pub const ZERO_BITS: u64 = 0;

/// The IEEE-754 sum of two doubles, rounded to nearest, ties to even.
pub uninterp spec fn ieee_add(a: u64, b: u64) -> u64;

/// The IEEE-754 difference of two doubles, rounded to nearest, ties to even.
pub uninterp spec fn ieee_sub(a: u64, b: u64) -> u64;

/// The IEEE-754 product of two doubles, rounded to nearest, ties to even.
pub uninterp spec fn ieee_mul(a: u64, b: u64) -> u64;

/// The IEEE-754 quotient of two doubles, rounded to nearest, ties to even.
pub uninterp spec fn ieee_div(a: u64, b: u64) -> u64;

/// The double nearest to an integer, ties to even.
pub uninterp spec fn ieee_from_int(i: i128) -> u64;

/// A double rounded to an integral value, halfway cases away from zero.
pub uninterp spec fn ieee_round(a: u64) -> u64;

/// A double truncated towards zero to an integer; out-of-range values give
/// the nearest bound and NaN gives zero.
pub uninterp spec fn ieee_to_int(a: u64) -> i128;

/// Whether one double is less than another; false whenever either is NaN.
pub uninterp spec fn ieee_lt(a: u64, b: u64) -> bool;

/// The absolute value of a double: its sign bit cleared.
pub open spec fn abs_bits(a: u64) -> u64 {
    a & 0x7fff_ffff_ffff_ffff
}

/// Relies on rustc_apfloat's `Add` for `Double` (ties to even).
#[verifier::external_body]
pub(crate) fn real_add(a: u64, b: u64) -> (r: u64)
    ensures
        r == ieee_add(a, b),
{
    (Double::from_bits(a as u128) + Double::from_bits(b as u128)).value.to_bits() as u64
}

/// Relies on rustc_apfloat's `Sub` for `Double` (ties to even).
#[verifier::external_body]
pub(crate) fn real_sub(a: u64, b: u64) -> (r: u64)
    ensures
        r == ieee_sub(a, b),
{
    (Double::from_bits(a as u128) - Double::from_bits(b as u128)).value.to_bits() as u64
}

/// Relies on rustc_apfloat's `Mul` for `Double` (ties to even).
#[verifier::external_body]
pub(crate) fn real_mul(a: u64, b: u64) -> (r: u64)
    ensures
        r == ieee_mul(a, b),
{
    (Double::from_bits(a as u128) * Double::from_bits(b as u128)).value.to_bits() as u64
}

/// Relies on rustc_apfloat's `Div` for `Double` (ties to even).
#[verifier::external_body]
pub(crate) fn real_div(a: u64, b: u64) -> (r: u64)
    ensures
        r == ieee_div(a, b),
{
    (Double::from_bits(a as u128) / Double::from_bits(b as u128)).value.to_bits() as u64
}

/// Relies on rustc_apfloat's `Float::from_i128` for `Double` (ties to even).
#[verifier::external_body]
pub(crate) fn real_from_int(i: i128) -> (r: u64)
    ensures
        r == ieee_from_int(i),
{
    Double::from_i128(i).value.to_bits() as u64
}

/// Relies on rustc_apfloat's `Float::round_to_integral` for `Double`, with
/// `Round::NearestTiesToAway`.
#[verifier::external_body]
pub(crate) fn real_round(a: u64) -> (r: u64)
    ensures
        r == ieee_round(a),
{
    Double::from_bits(a as u128).round_to_integral(Round::NearestTiesToAway).value.to_bits() as u64
}

/// Relies on rustc_apfloat's `Float::to_i128` for `Double` at width 128:
/// truncation towards zero, saturating, zero for NaN.
#[verifier::external_body]
pub(crate) fn real_to_int(a: u64) -> (r: i128)
    ensures
        r == ieee_to_int(a),
{
    Double::from_bits(a as u128).to_i128(128).value
}

/// Relies on rustc_apfloat's `PartialOrd` for `Double`: `<` is false when
/// either side is NaN.
#[verifier::external_body]
pub(crate) fn real_lt(a: u64, b: u64) -> (r: bool)
    ensures
        r == ieee_lt(a, b),
{
    Double::from_bits(a as u128) < Double::from_bits(b as u128)
}

/// The absolute value of a double, by clearing its sign bit.
pub fn real_abs(a: u64) -> (r: u64)
    ensures
        r == abs_bits(a),
{
    a & 0x7fff_ffff_ffff_ffff
}

} // verus!
