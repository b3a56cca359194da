//! Small numeric helpers shared by the color pipeline.

use vstd::prelude::*;

verus! {

/// What `clamp` returns: `x` pulled into the interval `[min, max]`.
pub open spec fn clamp_val(x: int, min: int, max: int) -> int {
    if x < min {
        min
    } else if x > max {
        max
    } else {
        x
    }
}

/// Restrict a scalar to a closed interval.  An inverted interval is a
/// programmer error, so it is ruled out up front rather than tolerated.
pub fn clamp(x: i64, min: i64, max: i64) -> (r: i64)
    requires
        min <= max,
    ensures
        r as int == clamp_val(x as int, min as int, max as int),
        min <= r <= max,
{
    if x < min {
        return min;
    }
    if x > max {
        return max;
    }
    x
}

} // verus!
