//! Ordered keys of IEEE-754 double bit patterns.
//!
//! A double's bit pattern is sign-magnitude; flipping every bit of a negative
//! pattern and setting the sign bit of a non-negative one yields an unsigned
//! integer whose order is the order of the doubles (with -0 just below +0,
//! and NaNs beyond the infinities).
use vstd::prelude::*;

verus! {

/// The sign bit of a double, as an integer.
pub const SIGN_BIT: u64 = 0x8000_0000_0000_0000;

/// Key of a bit pattern: negative patterns are reflected below the sign
/// bit, non-negative ones lifted above it.
pub open spec fn key_of(bits: u64) -> u64 {
    if bits >= SIGN_BIT {
        (u64::MAX - bits) as u64
    } else {
        (bits + SIGN_BIT) as u64
    }
}

/// Bit pattern of a key: the inverse of `key_of`.
pub open spec fn bits_of(key: u64) -> u64 {
    if key >= SIGN_BIT {
        (key - SIGN_BIT) as u64
    } else {
        (u64::MAX - key) as u64
    }
}

/// The ordered key of the double whose bit pattern is `bits`.
pub fn order_key(bits: u64) -> (k: u64)
    ensures
        k == key_of(bits),
{
    if bits >= SIGN_BIT {
        u64::MAX - bits
    } else {
        bits + SIGN_BIT
    }
}

/// The bit pattern of the double whose ordered key is `key`.
pub fn key_bits(key: u64) -> (b: u64)
    ensures
        b == bits_of(key),
{
    if key >= SIGN_BIT {
        key - SIGN_BIT
    } else {
        u64::MAX - key
    }
}

/// Decoding a key gives back the bit pattern it was made from.
pub proof fn lemma_bits_of_key_of(bits: u64)
    ensures
        bits_of(key_of(bits)) == bits,
{
}

/// Encoding a decoded key gives back the key.
pub proof fn lemma_key_of_bits_of(key: u64)
    ensures
        key_of(bits_of(key)) == key,
{
}

/// Negative patterns (sign bit set) key strictly below non-negative ones.
pub proof fn lemma_sign_orders_keys(neg: u64, pos: u64)
    requires
        neg >= SIGN_BIT,
        pos < SIGN_BIT,
    ensures
        key_of(neg) < key_of(pos),
{
}

/// Among non-negative patterns the key keeps the order of the patterns;
/// among negative ones it reverses it.
pub proof fn lemma_key_magnitude_order(a: u64, b: u64)
    requires
        a <= b,
    ensures
        b < SIGN_BIT ==> key_of(a) <= key_of(b),
        a >= SIGN_BIT ==> key_of(b) <= key_of(a),
{
}

} // verus!
