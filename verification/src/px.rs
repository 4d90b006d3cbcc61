//! Whole-pixel lengths and the saturating arithmetic the layout engine uses.

use vstd::prelude::*;

verus! {

/// A length in whole signed pixels.
pub type Px = i64;

/// Clamps a mathematical integer into the representable pixel range.
pub open spec fn sat(x: int) -> int {
    if x > i64::MAX {
        i64::MAX as int
    } else if x < i64::MIN {
        i64::MIN as int
    } else {
        x
    }
}

/// Saturating sum of two pixel lengths.
pub open spec fn sat_add(a: int, b: int) -> int {
    sat(a + b)
}

/// Saturating difference of two pixel lengths.
pub open spec fn sat_sub(a: int, b: int) -> int {
    sat(a - b)
}

/// Half of a pixel length, rounded toward zero.
pub open spec fn half(a: int) -> int {
    if a >= 0 {
        a / 2
    } else {
        -((-a) / 2)
    }
}

/// Adds two pixel lengths, saturating at the ends of the range.
pub fn px_add(a: Px, b: Px) -> (r: Px)
    ensures
        r as int == sat_add(a as int, b as int),
{
    if b >= 0 {
        if a > i64::MAX - b {
            i64::MAX
        } else {
            a + b
        }
    } else {
        if a < i64::MIN - b {
            i64::MIN
        } else {
            a + b
        }
    }
}

/// Subtracts two pixel lengths, saturating at the ends of the range.
pub fn px_sub(a: Px, b: Px) -> (r: Px)
    ensures
        r as int == sat_sub(a as int, b as int),
{
    if b >= 0 {
        if a < i64::MIN + b {
            i64::MIN
        } else {
            a - b
        }
    } else {
        if a > i64::MAX + b {
            i64::MAX
        } else {
            a - b
        }
    }
}

/// Halves a pixel length, rounding toward zero.
pub fn px_half(a: Px) -> (r: Px)
    ensures
        r as int == half(a as int),
{
    a / 2
}

} // verus!
