use vstd::prelude::*;

verus! {

/// Bits of the `f32` closest to -π/2 (`-std::f32::consts::FRAC_PI_2`).
pub const NEG_HALF_PI_BITS: u32 = 0xBFC9_0FDB;

/// Bits of the `f32` closest to π/2 (`std::f32::consts::FRAC_PI_2`).
pub const HALF_PI_BITS: u32 = 0x3FC9_0FDB;

/// Magnitude part (exponent and fraction) of a single-precision pattern.
pub open spec fn magnitude(b: u32) -> int {
    (b as int) % 0x8000_0000
}

/// A pattern with all exponent bits set and a nonzero fraction.
pub open spec fn is_nan(b: u32) -> bool {
    magnitude(b) > 0x7F80_0000
}

/// Position of a non-NaN pattern on the real line: the sign applied to the
/// magnitude, so that both zeros sit at 0.
pub open spec fn ordinal(b: u32) -> int {
    if b >= 0x8000_0000 {
        -magnitude(b)
    } else {
        magnitude(b)
    }
}

/// `a < b` as `f32`: false whenever either side is NaN.
pub open spec fn angle_lt(a: u32, b: u32) -> bool {
    !is_nan(a) && !is_nan(b) && ordinal(a) < ordinal(b)
}

/// `a <= b` as `f32`: false whenever either side is NaN.
pub open spec fn angle_le(a: u32, b: u32) -> bool {
    !is_nan(a) && !is_nan(b) && ordinal(a) <= ordinal(b)
}

/// Larger of a running maximum and a new sample, kept when the sample is
/// not greater (a NaN sample is never greater).
pub open spec fn running_max(m: u32, a: u32) -> u32 {
    if angle_lt(m, a) {
        a
    } else {
        m
    }
}

/// Signed position of a pattern; see [`ordinal`].
pub fn angle_ordinal(b: u32) -> (r: i64)
    ensures
        r == ordinal(b),
{
    let m: u32 = b % 0x8000_0000;
    if b >= 0x8000_0000 {
        -(m as i64)
    } else {
        m as i64
    }
}

/// Whether a pattern is a NaN.
pub fn angle_is_nan(b: u32) -> (r: bool)
    ensures
        r == is_nan(b),
{
    b % 0x8000_0000 > 0x7F80_0000
}

/// `a > b` on the two `f32` values.
pub fn angle_gt(a: u32, b: u32) -> (r: bool)
    ensures
        r == angle_lt(b, a),
{
    !angle_is_nan(a) && !angle_is_nan(b) && angle_ordinal(a) > angle_ordinal(b)
}

/// `a >= b` on the two `f32` values.
pub fn angle_ge(a: u32, b: u32) -> (r: bool)
    ensures
        r == angle_le(b, a),
{
    !angle_is_nan(a) && !angle_is_nan(b) && angle_ordinal(a) >= angle_ordinal(b)
}

} // verus!
