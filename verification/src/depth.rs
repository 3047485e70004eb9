//! Depth keys.
//!
//! A depth is held as a signed integer key; a smaller key is nearer to the
//! viewer. The keys are those of single-precision numbers read as sign and
//! magnitude: the magnitude bits taken as an integer, negated where the sign
//! bit is set. Under this reading the order of the keys is the order of the
//! numbers, both zeros have key 0, the two infinities have the keys
//! `DEPTH_FAR` and `-DEPTH_FAR`, and whatever is not a number lies beyond
//! them and compares with nothing.

use vstd::prelude::*;

verus! {

/// The key of the farthest depth; a cleared depth cell holds it.
pub const DEPTH_FAR: i32 = 0x7f80_0000;

/// Whether `key` stands for a number, so that it can be compared.
pub open spec fn depth_is_ordered(key: int) -> bool {
    -DEPTH_FAR <= key <= DEPTH_FAR
}

/// Whether `key` stands for a number other than the two infinities.
pub open spec fn depth_is_finite(key: int) -> bool {
    -DEPTH_FAR < key < DEPTH_FAR
}

/// The depth test: `key` is a number and strictly nearer than `stored`.
pub open spec fn depth_is_nearer(key: int, stored: int) -> bool {
    depth_is_ordered(key) && depth_is_ordered(stored) && key < stored
}

/// The key of the 32-bit pattern `bits`: the low 31 bits as magnitude, the
/// top bit as sign.
pub open spec fn key_of_bits(bits: int) -> int {
    if bits < 0x8000_0000 {
        bits
    } else {
        0x8000_0000 - bits
    }
}

/// Computes the key of a single-precision bit pattern.
pub fn depth_key(bits: u32) -> (key: i32)
    ensures
        key == key_of_bits(bits as int),
{
    if bits < 0x8000_0000 {
        bits as i32
    } else {
        let magnitude: u32 = bits - 0x8000_0000;
        -(magnitude as i32)
    }
}

/// Tells whether `key` can be compared with other keys.
pub fn is_ordered(key: i32) -> (r: bool)
    ensures
        r == depth_is_ordered(key as int),
{
    -DEPTH_FAR <= key && key <= DEPTH_FAR
}

/// Tells whether `key` is a number strictly between the two infinities.
pub fn is_finite(key: i32) -> (r: bool)
    ensures
        r == depth_is_finite(key as int),
{
    -DEPTH_FAR < key && key < DEPTH_FAR
}

/// Runs the depth test of `key` against the key `stored` in a cell.
pub fn is_nearer(key: i32, stored: i32) -> (r: bool)
    ensures
        r == depth_is_nearer(key as int, stored as int),
{
    is_ordered(key) && is_ordered(stored) && key < stored
}

/// Patterns with a clear sign bit keep their order as keys, patterns with a
/// set sign bit reverse it, and every pattern with a set sign bit and a
/// nonzero magnitude is nearer than every pattern with a clear one.
pub proof fn lemma_key_order(a: u32, b: u32)
    ensures
        a < b < 0x8000_0000 ==> key_of_bits(a as int) < key_of_bits(b as int),
        0x8000_0000 <= a < b ==> key_of_bits(b as int) < key_of_bits(a as int),
        a < 0x8000_0000 < b ==> key_of_bits(b as int) < key_of_bits(a as int),
        key_of_bits(0x8000_0000) == key_of_bits(0) == 0,
{
}

} // verus!
