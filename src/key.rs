//! Order keys for coordinates.
//!
//! The library never does arithmetic on coordinates or ray distances: it only
//! compares them. Each such value is carried as an order key, an `i32` whose
//! integer order is the order of the real values. For IEEE-754 binary32 values
//! the key is read off the bit pattern: binary32 values other than NaN are
//! ordered by sign and magnitude of their bits, and the key turns that order
//! into the order of two's complement integers.
use vstd::prelude::*;

verus! {

/// The key of positive infinity: no other value has a larger key.
pub const KEY_INFINITY: i32 = 2139095040;

/// The key of negative infinity: no other value has a smaller key.
pub const KEY_NEG_INFINITY: i32 = -2139095041;

/// The key of positive zero.
pub const KEY_ZERO: i32 = 0;

/// The key of negative zero. A value is at least zero exactly when its key is
/// at least this one, and below zero exactly when its key is below it.
pub const KEY_NEG_ZERO: i32 = -1;

/// A key of a value that is not NaN.
pub open spec fn is_key(k: int) -> bool {
    KEY_NEG_INFINITY <= k <= KEY_INFINITY
}

/// The value that the bits of a binary32 stand for, up to scale, by sign and magnitude.
pub open spec fn signed_magnitude(bits: u32) -> int {
    if bits < 0x8000_0000 {
        bits as int
    } else {
        -(bits - 0x8000_0000)
    }
}

/// The key of the binary32 value with these bits.
pub open spec fn key_of_bits(bits: u32) -> int {
    if bits < 0x8000_0000 {
        bits as int
    } else {
        0x7fff_ffff - bits
    }
}

/// The order key of the binary32 value whose bits are given.
pub fn key_from_bits(bits: u32) -> (k: i32)
    ensures
        k == key_of_bits(bits),
{
    if bits < 0x8000_0000 {
        bits as i32
    } else {
        (0x7fff_ffffi64 - bits as i64) as i32
    }
}

/// The bits of the binary32 value that has the given order key.
pub fn bits_from_key(k: i32) -> (bits: u32)
    ensures
        key_of_bits(bits) == k,
{
    if k >= 0 {
        k as u32
    } else {
        (0x7fff_ffffi64 - k as i64) as u32
    }
}

/// Keys order values as their sign and magnitude do, and tell apart all bit
/// patterns: only the two zeros, which are equal as values, get two keys.
pub proof fn lemma_key_order(a: u32, b: u32)
    ensures
        signed_magnitude(a) < signed_magnitude(b) ==> key_of_bits(a) < key_of_bits(b),
        key_of_bits(a) < key_of_bits(b) ==> signed_magnitude(a) <= signed_magnitude(b),
        key_of_bits(a) == key_of_bits(b) ==> a == b,
{
}

} // verus!
