//! Small scalar utilities shared by the rasterizers.

use vstd::prelude::*;

verus! {

/// Clamp `this` into the closed interval `[min, max]`.
///
/// The interval must be proper (`min < max`); handing an empty or reversed
/// interval is a caller error, not a recoverable condition.
pub fn constrain(this: i64, min: i64, max: i64) -> (r: i64)
    requires
        min < max,
    ensures
        r == if this < min {
            min
        } else if this > max {
            max
        } else {
            this
        },
{
    if this < min {
        return min;
    } else if this > max {
        return max;
    }
    this
}

} // verus!
