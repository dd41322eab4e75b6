//! Distances are single-precision IEEE-754 values carried as their bit
//! patterns (`f32::to_bits`), so that the distance limit can be reasoned about with
//! integers alone.
use vstd::prelude::*;

verus! {

/// Bit that holds the sign of an `f32`.
pub const SIGN_BIT: u32 = 0x8000_0000;

/// Bit pattern of positive infinity; any larger magnitude is a NaN.
pub const INFINITY_BITS: u32 = 0x7f80_0000;

/// The pattern with its sign cleared: the absolute value's bits.
pub open spec fn magnitude(b: u32) -> u32 {
    b % SIGN_BIT
}

/// The sign bit is set.
pub open spec fn is_negative(b: u32) -> bool {
    b >= SIGN_BIT
}

/// The pattern encodes a NaN: all exponent bits set and a non-zero mantissa.
pub open spec fn is_nan_spec(b: u32) -> bool {
    magnitude(b) > INFINITY_BITS
}

/// IEEE-754 `<=` on two `f32` values given by their bit patterns.
/// Comparisons with a NaN are false, and `-0.0` equals `+0.0`; otherwise
/// the order is sign first, then the magnitude (reversed for negatives).
pub open spec fn le_spec(a: u32, b: u32) -> bool {
    &&& !is_nan_spec(a)
    &&& !is_nan_spec(b)
    &&& {
        ||| magnitude(a) == 0 && magnitude(b) == 0
        ||| is_negative(a) && !is_negative(b)
        ||| !is_negative(a) && !is_negative(b) && magnitude(a) <= magnitude(b)
        ||| is_negative(a) && is_negative(b) && magnitude(a) >= magnitude(b)
    }
}

/// Whether the `f32` with bit pattern `b` is a NaN.
pub fn is_nan_bits(b: u32) -> (r: bool)
    ensures
        r == is_nan_spec(b),
{
    b % SIGN_BIT > INFINITY_BITS
}

/// `a <= b` for the `f32` values with bit patterns `a` and `b`.
pub fn f32_bits_le(a: u32, b: u32) -> (r: bool)
    ensures
        r == le_spec(a, b),
{
    if is_nan_bits(a) || is_nan_bits(b) {
        return false;
    }
    let ma = a % SIGN_BIT;
    let mb = b % SIGN_BIT;
    let na = a >= SIGN_BIT;
    let nb = b >= SIGN_BIT;
    if ma == 0 && mb == 0 {
        true
    } else if na != nb {
        na
    } else if na {
        ma >= mb
    } else {
        ma <= mb
    }
}

} // verus!
