//! Saturating integer arithmetic used by the scheduler's round-robin state.

use vstd::prelude::*;

verus! {

/// Mathematical value of `a + b` clamped to the `i64` range.
pub open spec fn spec_sat_add_i64(a: i64, b: i64) -> i64 {
    if a + b > i64::MAX {
        i64::MAX
    } else if a + b < i64::MIN {
        i64::MIN
    } else {
        (a + b) as i64
    }
}

/// Mathematical value of `a - b` clamped to the `i64` range.
pub open spec fn spec_sat_sub_i64(a: i64, b: i64) -> i64 {
    if a - b > i64::MAX {
        i64::MAX
    } else if a - b < i64::MIN {
        i64::MIN
    } else {
        (a - b) as i64
    }
}

/// Addition that clamps at the ends of the `i64` range instead of wrapping.
pub fn sat_add_i64(a: i64, b: i64) -> (r: i64)
    ensures
        r == spec_sat_add_i64(a, b),
{
    if b >= 0 {
        if a > i64::MAX - b {
            i64::MAX
        } else {
            a + b
        }
    } else {
        if a < i64::MIN - b {
            i64::MIN
        } else {
            a + b
        }
    }
}

/// Subtraction that clamps at the ends of the `i64` range instead of wrapping.
pub fn sat_sub_i64(a: i64, b: i64) -> (r: i64)
    ensures
        r == spec_sat_sub_i64(a, b),
{
    if b <= 0 {
        if a > i64::MAX + b {
            i64::MAX
        } else {
            a - b
        }
    } else {
        if a < i64::MIN + b {
            i64::MIN
        } else {
            a - b
        }
    }
}

} // verus!
