use vstd::prelude::*;

verus! {

/// A signal or weight value, held as the bit pattern of an IEEE-754
/// double-precision number (`sign | exponent | fraction`, most significant
/// bit first).  The library never computes with these values — products,
/// sums, square roots and means are supplied by the caller — but it does
/// decide on them: the comparisons below implement the IEEE-754 ordering
/// directly on the bit patterns, which agrees with the floating-point
/// comparison on every pattern (comparisons involving a NaN are false).
pub type Value = u64;

/// An arc weight: the same encoding as `Value`.
pub type Weight = Value;

/// Mask of the sign bit of an IEEE-754 double.
pub const SIGN_MASK: u64 = 0x8000_0000_0000_0000;

/// Mask of the exponent and fraction bits: `x & MAGNITUDE_MASK` is the
/// bit pattern of the absolute value of `x`.
pub const MAGNITUDE_MASK: u64 = 0x7FFF_FFFF_FFFF_FFFF;

/// The magnitude of positive infinity.  Magnitudes above it are NaNs;
/// finite and infinite magnitudes order as unsigned integers.
pub const INFINITY_MAGNITUDE: u64 = 0x7FF0_0000_0000_0000;

/// The bit pattern of the absolute value of `x`.
pub open spec fn magnitude(x: Value) -> u64 {
    x & MAGNITUDE_MASK
}

/// Whether `x` encodes a NaN: a magnitude above that of infinity.
pub open spec fn is_nan(x: Value) -> bool {
    magnitude(x) > INFINITY_MAGNITUDE
}

/// Whether the sign bit of `x` is set (negative numbers, negative zero,
/// negative NaNs).
pub open spec fn sign_bit(x: Value) -> bool {
    x & SIGN_MASK != 0
}

/// Whether `x` encodes a number strictly greater than zero (positive
/// and neither a zero nor a NaN; positive infinity qualifies).
pub open spec fn is_positive(x: Value) -> bool {
    &&& !sign_bit(x)
    &&& 0 < magnitude(x) <= INFINITY_MAGNITUDE
}

/// Whether `x` encodes a number that is zero or greater (not a NaN and,
/// unless it is a zero, carrying a clear sign bit).  Thresholds are
/// required to satisfy this.
pub open spec fn is_non_negative(x: Value) -> bool {
    &&& !is_nan(x)
    &&& (magnitude(x) == 0 || !sign_bit(x))
}

/// The position of a non-NaN `x` on the real line, as an integer key:
/// non-negative patterns keep their magnitude, negative ones are mirrored
/// below zero.  Two patterns compare as doubles exactly as their keys
/// compare (so the two zeros share the key 0).
pub open spec fn order_key(x: Value) -> int {
    if sign_bit(x) {
        -(magnitude(x) as int)
    } else {
        magnitude(x) as int
    }
}

/// The double comparison `x <= y`: false whenever either side is a NaN.
pub open spec fn spec_le(x: Value, y: Value) -> bool {
    &&& !is_nan(x)
    &&& !is_nan(y)
    &&& order_key(x) <= order_key(y)
}

/// The double comparison `x < y`: false whenever either side is a NaN.
pub open spec fn spec_lt(x: Value, y: Value) -> bool {
    &&& !is_nan(x)
    &&& !is_nan(y)
    &&& order_key(x) < order_key(y)
}

/// The double comparison `|x| > t` for a threshold `t` that is zero or
/// greater: false whenever `x` is a NaN.
pub open spec fn spec_exceeds(x: Value, t: Value) -> bool {
    &&& !is_nan(x)
    &&& magnitude(x) > magnitude(t)
}

/// The double comparison `x <= y` on bit patterns.
pub fn value_le(x: Value, y: Value) -> (r: bool)
    ensures
        r == spec_le(x, y),
{
    let mx = x & MAGNITUDE_MASK;
    let my = y & MAGNITUDE_MASK;
    if mx > INFINITY_MAGNITUDE || my > INFINITY_MAGNITUDE {
        false
    } else {
        let nx = x & SIGN_MASK != 0;
        let ny = y & SIGN_MASK != 0;
        if nx && ny {
            my <= mx
        } else if nx {
            true
        } else if ny {
            mx == 0 && my == 0
        } else {
            mx <= my
        }
    }
}

/// The double comparison `x < y` on bit patterns.
pub fn value_lt(x: Value, y: Value) -> (r: bool)
    ensures
        r == spec_lt(x, y),
{
    let mx = x & MAGNITUDE_MASK;
    let my = y & MAGNITUDE_MASK;
    if mx > INFINITY_MAGNITUDE || my > INFINITY_MAGNITUDE {
        false
    } else {
        let nx = x & SIGN_MASK != 0;
        let ny = y & SIGN_MASK != 0;
        if nx && ny {
            my < mx
        } else if nx {
            my != 0 || mx != 0
        } else if ny {
            false
        } else {
            mx < my
        }
    }
}

/// The double comparison `x > y` on bit patterns.
pub fn value_gt(x: Value, y: Value) -> (r: bool)
    ensures
        r == spec_lt(y, x),
{
    value_lt(y, x)
}

/// The double comparison `|x| > t`, for a threshold `t` that is zero or
/// greater.
pub fn exceeds(x: Value, t: Value) -> (r: bool)
    requires
        is_non_negative(t),
    ensures
        r == spec_exceeds(x, t),
{
    let mx = x & MAGNITUDE_MASK;
    mx <= INFINITY_MAGNITUDE && mx > t & MAGNITUDE_MASK
}

/// Whether `x` encodes a number strictly greater than zero.
pub fn positive(x: Value) -> (r: bool)
    ensures
        r == is_positive(x),
{
    let mx = x & MAGNITUDE_MASK;
    x & SIGN_MASK == 0 && 0 < mx && mx <= INFINITY_MAGNITUDE
}

/// The ordering on non-NaN values is total: any two compare.
pub proof fn lemma_le_total(x: Value, y: Value)
    requires
        !is_nan(x),
        !is_nan(y),
    ensures
        spec_le(x, y) || spec_le(y, x),
{
}

/// The ordering on non-NaN values is transitive.
pub proof fn lemma_le_transitive(x: Value, y: Value, z: Value)
    requires
        spec_le(x, y),
        spec_le(y, z),
    ensures
        spec_le(x, z),
{
}

/// An identity tag for a network node.  Equality and ordering are by tag.
#[derive(Clone, Copy, Debug, PartialEq, Eq, Hash, PartialOrd, Ord, Structural)]
pub struct Node(pub usize);

} // verus!
