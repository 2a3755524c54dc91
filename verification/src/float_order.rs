//! Integers that are ordered as floating-point numbers are.
use vstd::prelude::*;

verus! {

/// The place of a floating-point number, given by its bits, in the total order of all of them:
/// negative numbers before positive ones, and `-0.0` before `0.0`.
pub open spec fn total_key(bits: u32) -> int {
    if bits < 0x8000_0000 {
        bits as int
    } else {
        0x7fff_ffff - bits
    }
}

/// An integer that is ordered as the floating-point number with these bits is.
pub fn order_key(bits: u32) -> (key: i64)
    ensures
        key == total_key(bits),
        -0x8000_0000 <= key < 0x8000_0000,
{
    if bits < 0x8000_0000 {
        bits as i64
    } else {
        0x7fff_ffff - bits as i64
    }
}

/// The bits of the floating-point number that `order_key` takes to `key`.
pub fn bits_of_key(key: i64) -> (bits: u32)
    requires
        -0x8000_0000 <= key < 0x8000_0000,
    ensures
        total_key(bits) == key,
{
    if key >= 0 {
        key as u32
    } else {
        (0x7fff_ffff - key) as u32
    }
}

/// Different numbers have different places in the order.
pub proof fn law_keys_are_distinct(a: u32, b: u32)
    requires
        total_key(a) == total_key(b),
    ensures
        a == b,
{
}

/// The keys are ordered by sign and magnitude: those of negative numbers (the highest bit is set) are
/// smaller than all others; among numbers of one sign, a larger magnitude (the other bits) makes the
/// key larger for a positive one and smaller for a negative one.
pub proof fn law_keys_follow_sign_and_magnitude(a: u32, b: u32)
    ensures
        a >= 0x8000_0000 && b < 0x8000_0000 ==> total_key(a) < total_key(b),
        a < b < 0x8000_0000 ==> total_key(a) < total_key(b),
        0x8000_0000 <= a < b ==> total_key(a) > total_key(b),
{
}

} // verus!
