//! The arithmetic boundary of the crate.
//!
//! Every scalar in this library is the bit pattern of an IEEE-754
//! double-precision value, carried in a `u64`. The verified code never
//! interprets those bits numerically: each arithmetic operation crosses into
//! an outside crate through a trusted wrapper, and the wrapper's result is
//! named by an uninterpreted spec function of the operands' bit patterns.
//! All the operations used here are deterministic functions of their
//! operands' bits alone, on every machine: `rustc_apfloat` is a pure software
//! implementation of IEEE-754 binary64 arithmetic (round to nearest, ties to
//! even, as hardware doubles round), and `libm` is a pure-Rust libm port.
use vstd::prelude::*;

use rustc_apfloat::Float;
use rustc_apfloat::ieee::Double;

verus! {

/// Bit pattern of 1.0 in IEEE-754 binary64.
pub const ONE_BITS: u64 = 0x3FF0_0000_0000_0000;

/// Bit pattern of -1.0 in IEEE-754 binary64.
pub const NEG_ONE_BITS: u64 = 0xBFF0_0000_0000_0000;

/// Bit pattern of 0.5 in IEEE-754 binary64.
pub const HALF_BITS: u64 = 0x3FE0_0000_0000_0000;

/// Bit pattern of 0.0 in IEEE-754 binary64.
pub const ZERO_BITS: u64 = 0;

/// The sign bit of an IEEE-754 binary64 value.
pub const SIGN_MASK: u64 = 0x8000_0000_0000_0000;

/// A bit pattern of a positive finite binary64 value: a clear sign bit, not
/// zero, and an exponent below the infinity/NaN range.
pub open spec fn is_pos_finite(x: u64) -> bool {
    0 < x < 0x7FF0_0000_0000_0000
}

/// Bit pattern of the binary64 sum of the values with bit patterns `a`, `b`.
pub uninterp spec fn add_bits_of(a: u64, b: u64) -> u64;

/// Bit pattern of the binary64 difference of the values with bit patterns
/// `a`, `b`.
pub uninterp spec fn sub_bits_of(a: u64, b: u64) -> u64;

/// Bit pattern of the binary64 product of the values with bit patterns
/// `a`, `b`.
pub uninterp spec fn mul_bits_of(a: u64, b: u64) -> u64;

/// Bit pattern of the binary64 quotient of the values with bit patterns
/// `a`, `b`.
pub uninterp spec fn div_bits_of(a: u64, b: u64) -> u64;

/// Bit pattern of the binary64 value nearest to the integer `x` (round to
/// nearest, ties to even), as `x as f64` converts.
pub uninterp spec fn u64_to_double_bits_of(x: u64) -> u64;

/// Bit pattern of e raised to the value with bit pattern `x`.
pub uninterp spec fn exp_bits_of(x: u64) -> u64;

/// Relies on `rustc_apfloat::ieee::Double`'s `Add` impl: IEEE-754 binary64
/// addition, rounding to nearest with ties to even, a function of the two
/// operands' bit patterns alone. IEEE-754 addition is exact when one operand
/// is +0.0: the sum of +0.0 with itself is +0.0, and the sum of +0.0 with a
/// nonzero finite value is that value, bit for bit.
#[verifier::external_body]
pub(crate) fn add_bits(a: u64, b: u64) -> (r: u64)
    ensures
        r == add_bits_of(a, b),
        a == ZERO_BITS && b == ZERO_BITS ==> r == ZERO_BITS,
        a == ZERO_BITS && is_pos_finite(b) ==> r == b,
        is_pos_finite(a) && b == ZERO_BITS ==> r == a,
{
    (Double::from_bits(a as u128) + Double::from_bits(b as u128)).value.to_bits() as u64
}

/// Relies on `rustc_apfloat::ieee::Double`'s `Sub` impl: IEEE-754 binary64
/// subtraction, rounding to nearest with ties to even.
#[verifier::external_body]
pub(crate) fn sub_bits(a: u64, b: u64) -> (r: u64)
    ensures
        r == sub_bits_of(a, b),
{
    (Double::from_bits(a as u128) - Double::from_bits(b as u128)).value.to_bits() as u64
}

/// Relies on `rustc_apfloat::ieee::Double`'s `Mul` impl: IEEE-754 binary64
/// multiplication, rounding to nearest with ties to even. Multiplication of
/// a positive finite value is exact by exactly 1.0, and yields +0.0 by
/// exactly +0.0.
#[verifier::external_body]
pub(crate) fn mul_bits(a: u64, b: u64) -> (r: u64)
    ensures
        r == mul_bits_of(a, b),
        is_pos_finite(a) && b == ONE_BITS ==> r == a,
        is_pos_finite(a) && b == ZERO_BITS ==> r == ZERO_BITS,
{
    (Double::from_bits(a as u128) * Double::from_bits(b as u128)).value.to_bits() as u64
}

/// Relies on `rustc_apfloat::ieee::Double`'s `Div` impl: IEEE-754 binary64
/// division, rounding to nearest with ties to even.
#[verifier::external_body]
pub(crate) fn div_bits(a: u64, b: u64) -> (r: u64)
    ensures
        r == div_bits_of(a, b),
{
    (Double::from_bits(a as u128) / Double::from_bits(b as u128)).value.to_bits() as u64
}

/// Relies on `rustc_apfloat::Float::from_u128`: conversion of an unsigned
/// integer to the nearest binary64 value, rounding ties to even, exactly as
/// an `as` cast of the integer to a double converts.
#[verifier::external_body]
pub(crate) fn u64_to_double_bits(x: u64) -> (r: u64)
    ensures
        r == u64_to_double_bits_of(x),
{
    Double::from_u128(x as u128).value.to_bits() as u64
}

/// Relies on `libm::exp`: the binary64 exponential function, a pure-Rust
/// port of musl's libm, a function of the operand's bit pattern alone.
/// `bytemuck::cast` converts between the bit pattern and the double it
/// patterns, one for one, in both directions.
#[verifier::external_body]
pub(crate) fn exp_bits(x: u64) -> (r: u64)
    ensures
        r == exp_bits_of(x),
{
    bytemuck::cast(libm::exp(bytemuck::cast(x)))
}

/// Bit pattern of the negation of the value with bit pattern `x`. IEEE-754
/// negation flips the sign bit and leaves every other bit unchanged.
pub open spec fn neg_bits_of(x: u64) -> u64 {
    x ^ SIGN_MASK
}

pub fn neg_bits(x: u64) -> (r: u64)
    ensures
        r == neg_bits_of(x),
{
    x ^ SIGN_MASK
}

/// Bit pattern of the logistic function 1 / (1 + e^(-x)) of the value with
/// bit pattern `x`, evaluated in binary64 exactly in that operation order.
pub open spec fn logistic_bits_of(x: u64) -> u64 {
    div_bits_of(ONE_BITS, add_bits_of(ONE_BITS, exp_bits_of(neg_bits_of(x))))
}

/// Bit pattern of the logistic derivative logistic(x) * (1 - logistic(x)) of
/// the value with bit pattern `x`, evaluated in binary64 in that order.
pub open spec fn logistic_deriv_bits_of(x: u64) -> u64 {
    mul_bits_of(logistic_bits_of(x), sub_bits_of(ONE_BITS, logistic_bits_of(x)))
}

} // verus!
