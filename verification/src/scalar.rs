//! Scalar arithmetic on IEEE-754 double-precision bit patterns.
//!
//! The verifier keeps floating-point values out of verified code, so every
//! scalar in this crate is the raw `u64` bit pattern of a double. Each
//! arithmetic primitive is a trusted wrapper around an outside crate that
//! works on such bit patterns, and the value it returns is given a name by
//! an uninterpreted spec function: the same operand bits always yield the
//! same result bits, which is all the rest of the crate relies on.

use rustc_apfloat::Float;
use vstd::prelude::*;

verus! {

/// Bit pattern of positive zero.
pub const ZERO_BITS: u64 = 0;

/// Bit pattern of one.
pub const ONE_BITS: u64 = 0x3FF0_0000_0000_0000;

/// Bit pattern of two.
pub const TWO_BITS: u64 = 0x4000_0000_0000_0000;

/// Bit pattern of Euler's number, rounded to the nearest double.
pub const E_BITS: u64 = 0x4005_BF0A_8B14_5769;

/// The bit pattern of the sum of two doubles given by their bit patterns.
pub uninterp spec fn sum_bits(a: u64, b: u64) -> u64;

/// The bit pattern of the difference of two doubles given by their bit patterns.
pub uninterp spec fn diff_bits(a: u64, b: u64) -> u64;

/// The bit pattern of the product of two doubles given by their bit patterns.
pub uninterp spec fn prod_bits(a: u64, b: u64) -> u64;

/// The bit pattern of the quotient of two doubles given by their bit patterns.
pub uninterp spec fn quot_bits(a: u64, b: u64) -> u64;

/// The bit pattern of the first double raised to the second.
pub uninterp spec fn pow_bits(a: u64, b: u64) -> u64;

/// Relies on `rustc_apfloat::ieee::Double`'s addition: software IEEE-754
/// double-precision addition on raw bit patterns, round to nearest even.
/// The result depends on the operand bits alone.
#[verifier::external_body]
pub(crate) fn bits_add(a: u64, b: u64) -> (r: u64)
    ensures
        r == sum_bits(a, b),
{
    let x = rustc_apfloat::ieee::Double::from_bits(a as u128);
    let y = rustc_apfloat::ieee::Double::from_bits(b as u128);
    (x + y).value.to_bits() as u64
}

/// Relies on `rustc_apfloat::ieee::Double`'s subtraction: software IEEE-754
/// double-precision subtraction on raw bit patterns, round to nearest even.
/// The result depends on the operand bits alone.
#[verifier::external_body]
pub(crate) fn bits_sub(a: u64, b: u64) -> (r: u64)
    ensures
        r == diff_bits(a, b),
{
    let x = rustc_apfloat::ieee::Double::from_bits(a as u128);
    let y = rustc_apfloat::ieee::Double::from_bits(b as u128);
    (x - y).value.to_bits() as u64
}

/// Relies on `rustc_apfloat::ieee::Double`'s multiplication: software
/// IEEE-754 double-precision multiplication on raw bit patterns, round to
/// nearest even. The result depends on the operand bits alone.
#[verifier::external_body]
pub(crate) fn bits_mul(a: u64, b: u64) -> (r: u64)
    ensures
        r == prod_bits(a, b),
{
    let x = rustc_apfloat::ieee::Double::from_bits(a as u128);
    let y = rustc_apfloat::ieee::Double::from_bits(b as u128);
    (x * y).value.to_bits() as u64
}

/// Relies on `rustc_apfloat::ieee::Double`'s division: software IEEE-754
/// double-precision division on raw bit patterns, round to nearest even.
/// The result depends on the operand bits alone.
#[verifier::external_body]
pub(crate) fn bits_div(a: u64, b: u64) -> (r: u64)
    ensures
        r == quot_bits(a, b),
{
    let x = rustc_apfloat::ieee::Double::from_bits(a as u128);
    let y = rustc_apfloat::ieee::Double::from_bits(b as u128);
    (x / y).value.to_bits() as u64
}

/// Relies on `libm::pow`: real-valued exponentiation of doubles, a pure
/// function of the two argument bit patterns (`bytemuck::cast` only
/// reinterprets the bits on the way in and out).
#[verifier::external_body]
pub(crate) fn bits_pow(a: u64, b: u64) -> (r: u64)
    ensures
        r == pow_bits(a, b),
{
    let r: u64 = bytemuck::cast(libm::pow(bytemuck::cast(a), bytemuck::cast(b)));
    r
}

} // verus!
