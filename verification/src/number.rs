//! Number literals, as the bits of double precision numbers.

use vstd::prelude::*;

verus! {

/// The bits of the smallest double above 1, less 1.
pub const EPSILON: u64 = 0x3cb0_0000_0000_0000;

/// The sign bit.
pub const SIGN: u64 = 0x8000_0000_0000_0000;

/// The bits of 1.
pub const ONE: u64 = 0x3ff0_0000_0000_0000;

/// The bits without the sign. Of two finite numbers the one with the smaller magnitude has the
/// smaller number here.
pub open spec fn magnitude(bits: u64) -> int {
    if bits >= SIGN {
        bits - SIGN
    } else {
        bits as int
    }
}

/// Whether a number is less than an epsilon away from 0.
pub open spec fn is_near_zero(bits: u64) -> bool {
    magnitude(bits) < EPSILON
}

/// Whether a number is less than an epsilon away from 1: below 1 there is one such number, the
/// one before it, and above 1 there is none.
pub open spec fn is_near_one(bits: u64) -> bool {
    bits == ONE || bits + 1 == ONE
}

/// Whether a number literal is read as 0.
pub fn number_is_zero(bits: u64) -> (r: bool)
    ensures
        r == is_near_zero(bits),
{
    if bits >= SIGN {
        bits - SIGN < EPSILON
    } else {
        bits < EPSILON
    }
}

/// Whether a number literal is read as 1.
pub fn number_is_one(bits: u64) -> (r: bool)
    ensures
        r == is_near_one(bits),
{
    bits == ONE || bits == ONE - 1
}

/// Whether a number is near 0 depends on its magnitude alone. It is so of 0, of every number below
/// one that is near 0, and of the numbers below an epsilon and no others.
pub proof fn law_near_zero(bits: u64, other: u64)
    ensures
        is_near_zero(0),
        !is_near_zero(0x3cb0_0000_0000_0000),
        is_near_zero(0x3caf_ffff_ffff_ffff),
        bits < SIGN ==> is_near_zero(bits) == is_near_zero((bits + SIGN) as u64),
        is_near_zero(bits) && magnitude(other) <= magnitude(bits) ==> is_near_zero(other),
        is_near_zero(bits) <==> magnitude(bits) < 0x3cb0_0000_0000_0000,
{
}

/// Two numbers are near 1, 1 itself and the one before it, and neither is near 0.
pub proof fn law_near_one(bits: u64)
    ensures
        is_near_one(bits) <==> bits == 0x3ff0_0000_0000_0000 || bits == 0x3fef_ffff_ffff_ffff,
        is_near_one(bits) ==> !is_near_zero(bits),
{
}

} // verus!
