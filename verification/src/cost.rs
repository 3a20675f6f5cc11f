//! Travel costs as IEEE-754 bit patterns.
//!
//! Distances and durations are `f64` values. The library carries each one as
//! its raw bit pattern (`f64::to_bits`), which keeps the value exactly, and
//! orders costs by an integer key computed from the bits. On two costs that
//! are not NaN, the key comparison `<` agrees with the `<` of `f64`: negative
//! values sit below `-0.0 == +0.0`, which sit below positive values, with the
//! infinities at the two ends. Every NaN maps to the largest key, so a NaN is
//! never below another cost and never below `+inf`, as in `f64`.
use vstd::prelude::*;

verus! {

/// The sign bit of a bit pattern.
pub const SIGN_BIT: u64 = 0x8000_0000_0000_0000;

/// Bit pattern of `+0.0`.
pub const ZERO_COST: u64 = 0;

/// Bit pattern of `+inf`; every magnitude above it is a NaN.
pub const INFINITE_COST: u64 = 0x7FF0_0000_0000_0000;

/// Magnitude of a bit pattern: the pattern without its sign bit.
pub open spec fn magnitude(bits: u64) -> int {
    if bits >= SIGN_BIT { bits - SIGN_BIT } else { bits as int }
}

/// Whether a bit pattern encodes a NaN.
pub open spec fn is_nan_bits(bits: u64) -> bool {
    magnitude(bits) > INFINITE_COST
}

/// The order key of a cost: NaNs map to `u64::MAX`, a value with magnitude
/// `m` maps to `2^63 + m` when positive and to `2^63 - m` when negative.
pub open spec fn cost_key(bits: u64) -> u64 {
    if is_nan_bits(bits) {
        u64::MAX
    } else if bits >= SIGN_BIT {
        (SIGN_BIT - magnitude(bits)) as u64
    } else {
        (SIGN_BIT + magnitude(bits)) as u64
    }
}

/// Computes the order key of a cost given by its bit pattern.
pub fn order_key(bits: u64) -> (key: u64)
    ensures
        key == cost_key(bits),
{
    let magnitude: u64 = if bits >= SIGN_BIT { bits - SIGN_BIT } else { bits };
    if magnitude > INFINITE_COST {
        u64::MAX
    } else if bits >= SIGN_BIT {
        SIGN_BIT - magnitude
    } else {
        SIGN_BIT + magnitude
    }
}

/// The key of `+inf`: a cost is finite and not NaN exactly when its key is
/// below this one.
pub open spec fn infinite_key() -> u64 {
    cost_key(INFINITE_COST)
}

/// Positive and negative zero share one key, as `-0.0 == 0.0` in `f64`.
pub proof fn lemma_zeros_share_key()
    ensures
        cost_key(ZERO_COST) == cost_key(SIGN_BIT),
{
}

/// Among non-NaN costs of one sign the key follows the magnitude: it grows
/// with the magnitude of positive costs and falls with that of negative ones.
pub proof fn lemma_key_follows_magnitude(a: u64, b: u64)
    requires
        !is_nan_bits(a),
        !is_nan_bits(b),
        magnitude(a) < magnitude(b),
    ensures
        (a < SIGN_BIT && b < SIGN_BIT) ==> cost_key(a) < cost_key(b),
        (a >= SIGN_BIT && b >= SIGN_BIT) ==> cost_key(b) < cost_key(a),
        (a >= SIGN_BIT && b < SIGN_BIT) ==> cost_key(a) <= cost_key(b),
{
}

/// A NaN is never below another cost, and no non-NaN cost is above `+inf`.
pub proof fn lemma_key_extremes(a: u64, b: u64)
    requires
        is_nan_bits(a),
    ensures
        !(cost_key(a) < cost_key(b)),
        !is_nan_bits(b) ==> cost_key(b) <= infinite_key(),
{
}

} // verus!
