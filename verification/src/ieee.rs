//! Exact IEEE-754 single-precision comparisons on raw bit patterns.
//!
//! A finite or infinite `f32` is ordered by its sign and magnitude bits: with
//! the sign bit set the value is minus the magnitude, otherwise the magnitude
//! itself, where the magnitude bits of non-negative values grow with the value.
//! Both zeros get rank 0, so they compare equal, and a NaN compares with nothing.

use vstd::prelude::*;

verus! {

/// Bit pattern of `f32::MAX`.
pub const F32_MAX_BITS: u32 = 0x7f7f_ffff;

/// Bit pattern of `f32::MIN` (that is, `-f32::MAX`).
pub const F32_MIN_BITS: u32 = 0xff7f_ffff;

/// Bit pattern of positive infinity.
pub const F32_INFINITY_BITS: u32 = 0x7f80_0000;

/// The sign bit.
pub const SIGN_BIT: u32 = 0x8000_0000;

/// The magnitude bits (all but the sign).
pub open spec fn magnitude(b: u32) -> int {
    if b >= SIGN_BIT { b - SIGN_BIT } else { b as int }
}

/// Whether the pattern is a NaN: all exponent bits set and a non-zero fraction.
pub open spec fn spec_is_nan(b: u32) -> bool {
    magnitude(b) > F32_INFINITY_BITS
}

/// The integer by which non-NaN patterns are ordered as floats.
pub open spec fn rank(b: u32) -> int {
    if b >= SIGN_BIT { -magnitude(b) } else { magnitude(b) }
}

/// `a < b` on the floats the patterns stand for.
pub open spec fn flt_lt(a: u32, b: u32) -> bool {
    !spec_is_nan(a) && !spec_is_nan(b) && rank(a) < rank(b)
}

/// `a == b` on the floats the patterns stand for.
pub open spec fn flt_eq(a: u32, b: u32) -> bool {
    !spec_is_nan(a) && !spec_is_nan(b) && rank(a) == rank(b)
}

/// The pattern of `-x`: the same magnitude with the other sign.
pub open spec fn spec_negate(b: u32) -> u32 {
    if b >= SIGN_BIT { (b - SIGN_BIT) as u32 } else { (b + SIGN_BIT) as u32 }
}

/// Whether a pattern stands for a NaN.
pub fn is_nan(b: u32) -> (r: bool)
    ensures
        r == spec_is_nan(b),
{
    let m: u32 = if b >= SIGN_BIT { b - SIGN_BIT } else { b };
    m > F32_INFINITY_BITS
}

/// The order rank of a pattern, as `rank` defines it.
pub fn order_rank(b: u32) -> (r: i64)
    ensures
        r == rank(b),
{
    if b >= SIGN_BIT {
        -((b - SIGN_BIT) as i64)
    } else {
        b as i64
    }
}

/// `a < b` on floats.
pub fn lt(a: u32, b: u32) -> (r: bool)
    ensures
        r == flt_lt(a, b),
{
    !is_nan(a) && !is_nan(b) && order_rank(a) < order_rank(b)
}

/// `a > b` on floats.
pub fn gt(a: u32, b: u32) -> (r: bool)
    ensures
        r == flt_lt(b, a),
{
    lt(b, a)
}

/// `a == b` on floats.
pub fn eq(a: u32, b: u32) -> (r: bool)
    ensures
        r == flt_eq(a, b),
{
    !is_nan(a) && !is_nan(b) && order_rank(a) == order_rank(b)
}

/// `-x`: flips the sign bit, which is exactly IEEE negation (NaNs included).
pub fn negate(b: u32) -> (r: u32)
    ensures
        r == spec_negate(b),
{
    if b >= SIGN_BIT { b - SIGN_BIT } else { b + SIGN_BIT }
}

/// Negation is undone by negating again.
pub proof fn lemma_negate_involutive(b: u32)
    ensures
        spec_negate(spec_negate(b)) == b,
{
}

/// Negation keeps NaN-ness and reverses the order: `-a < -b` exactly when `b < a`.
pub proof fn lemma_negate_reverses_order(a: u32, b: u32)
    ensures
        spec_is_nan(spec_negate(a)) == spec_is_nan(a),
        flt_lt(spec_negate(a), spec_negate(b)) == flt_lt(b, a),
        !spec_is_nan(a) ==> rank(spec_negate(a)) == -rank(a),
{
}

/// `<` on non-NaN floats is a strict total order up to `==`.
pub proof fn lemma_order_total(a: u32, b: u32, c: u32)
    ensures
        !flt_lt(a, a),
        flt_lt(a, b) ==> !flt_lt(b, a),
        flt_lt(a, b) && flt_lt(b, c) ==> flt_lt(a, c),
        !spec_is_nan(a) && !spec_is_nan(b) ==> (flt_lt(a, b) || flt_lt(b, a) || flt_eq(a, b)),
        flt_eq(a, b) ==> flt_eq(b, a) && !flt_lt(a, b),
{
}

} // verus!
