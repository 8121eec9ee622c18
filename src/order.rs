//! Total order on IEEE-754 double bit patterns, mapped onto `u64`.
use vstd::prelude::*;

verus! {

/// The sign bit of a binary64 value.
pub const SIGN_BIT: u64 = 0x8000_0000_0000_0000;

/// Bit pattern of positive infinity; magnitudes above it are NaN.
pub const INFINITY_BITS: u64 = 0x7ff0_0000_0000_0000;

pub open spec fn is_negative(bits: u64) -> bool {
    bits >= SIGN_BIT
}

/// The value's bits without the sign.
pub open spec fn magnitude(bits: u64) -> int {
    if is_negative(bits) {
        bits - SIGN_BIT
    } else {
        bits as int
    }
}

pub open spec fn is_nan(bits: u64) -> bool {
    magnitude(bits) > INFINITY_BITS
}

/// Both values are zero, of either sign, or the bit patterns agree.
pub open spec fn double_eq(a: u64, b: u64) -> bool {
    !is_nan(a) && !is_nan(b) && (a == b || (magnitude(a) == 0 && magnitude(b) == 0))
}

/// `a < b` when both bit patterns are read as binary64 numbers.
pub open spec fn double_lt(a: u64, b: u64) -> bool {
    &&& !is_nan(a)
    &&& !is_nan(b)
    &&& if is_negative(a) && is_negative(b) {
        magnitude(a) > magnitude(b)
    } else if !is_negative(a) && !is_negative(b) {
        magnitude(a) < magnitude(b)
    } else if is_negative(a) {
        magnitude(a) != 0 || magnitude(b) != 0
    } else {
        false
    }
}

pub open spec fn order_key_spec(bits: u64) -> int {
    if is_negative(bits) {
        SIGN_BIT - magnitude(bits)
    } else {
        SIGN_BIT + magnitude(bits)
    }
}

/// Whether a bit pattern is a NaN.
pub fn bits_are_nan(bits: u64) -> (r: bool)
    ensures
        r == is_nan(bits),
{
    if bits >= SIGN_BIT {
        bits - SIGN_BIT > INFINITY_BITS
    } else {
        bits > INFINITY_BITS
    }
}

/// Maps the bit pattern of a double to an unsigned key whose order is the
/// numeric order of the doubles; both zeros share one key.
pub fn order_key(bits: u64) -> (r: u64)
    ensures
        r == order_key_spec(bits),
{
    if bits >= SIGN_BIT {
        SIGN_BIT - (bits - SIGN_BIT)
    } else {
        SIGN_BIT + bits
    }
}

/// Keys compare as the doubles they come from: `<` as `<`, and equal keys
/// for equal numbers, for every pair of values that are not NaN.
pub proof fn lemma_order_key_matches_double_order(a: u64, b: u64)
    requires
        !is_nan(a),
        !is_nan(b),
    ensures
        double_lt(a, b) <==> order_key_spec(a) < order_key_spec(b),
        double_eq(a, b) <==> order_key_spec(a) == order_key_spec(b),
{
}

} // verus!
