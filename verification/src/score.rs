//! Score ordinals: integers that stand for finite reals, so that the order
//! and the sign of the reals are the order and the sign of the integers.
use vstd::prelude::*;

verus! {

/// The ordinal of the largest finite value.
pub const MAX_ORDINAL: i64 = 0x7fef_ffff_ffff_ffff;

/// The ordinal of zero.
pub const ZERO: i64 = 0;

/// The ordinal of one.
pub const ONE: i64 = 0x3ff0_0000_0000_0000;

/// The ordinal stands for a finite value.
pub open spec fn is_finite(x: i64) -> bool {
    -MAX_ORDINAL <= x <= MAX_ORDINAL
}

/// Whether the ordinal stands for a finite value.
pub fn finite(x: i64) -> (b: bool)
    ensures
        b == is_finite(x),
{
    -MAX_ORDINAL <= x && x <= MAX_ORDINAL
}

/// The ordinal of the negated value.
pub fn negate(x: i64) -> (r: i64)
    requires
        is_finite(x),
    ensures
        r == -x,
        is_finite(r),
{
    -x
}

/// The outcome of a metric: its value where it is finite, nothing otherwise.
pub open spec fn defined(outcome: Option<i64>) -> Option<i64> {
    match outcome {
        Some(v) => if is_finite(v) {
            Some(v)
        } else {
            None
        },
        None => None,
    }
}

/// Drops an outcome that is not finite.
pub fn settle(outcome: Option<i64>) -> (r: Option<i64>)
    ensures
        r == defined(outcome),
{
    match outcome {
        Some(v) => if finite(v) {
            Some(v)
        } else {
            None
        },
        None => None,
    }
}

/// Whether `score` lies in the closed range from `lo` to `hi`.
pub fn in_range(lo: i64, hi: i64, score: i64) -> (b: bool)
    ensures
        b == (lo <= score <= hi),
{
    lo <= score && score <= hi
}

} // verus!
