//! Points in time.
//!
//! A time is a whole number of nanoseconds from the start of a recording. Both a hundredth of a
//! second, in which transcripts are timed, and the length of a sample at 16 kHz are a whole
//! number of nanoseconds.

use vstd::prelude::*;

verus! {

/// The nanoseconds in a second.
pub const SECOND_NS: i64 = 1_000_000_000;

/// `x`, or the end of the range of times that is nearest to it.
pub open spec fn clamped(x: int) -> i64 {
    if x < i64::MIN {
        i64::MIN
    } else if x > i64::MAX {
        i64::MAX
    } else {
        x as i64
    }
}

/// `x`, or the end of the range of times that is nearest to it.
pub fn clamp_time(x: i128) -> (r: i64)
    ensures
        r == clamped(x as int),
{
    if x < i64::MIN as i128 {
        i64::MIN
    } else if x > i64::MAX as i128 {
        i64::MAX
    } else {
        x as i64
    }
}

/// The sum of two times.
pub fn add_times(a: i64, b: i64) -> (r: i64)
    ensures
        r == clamped(a + b),
{
    clamp_time(a as i128 + b as i128)
}

/// The time of a number of hundredths of a second.
pub fn centiseconds(n: i64) -> (r: i64)
    ensures
        r == clamped(n * 10_000_000),
{
    clamp_time(n as i128 * 10_000_000)
}

/// The sample, at 16 kHz, that a time falls on: the first where the time is negative, and the
/// largest index where it is beyond all.
pub open spec fn sample_of(ns: i64) -> usize {
    let n = ns * 16 / 1_000_000;
    if n < 0 {
        0
    } else if n > usize::MAX {
        usize::MAX
    } else {
        n as usize
    }
}

/// The sample, at 16 kHz, that a time falls on.
pub fn sample_at(ns: i64) -> (r: usize)
    ensures
        r == sample_of(ns),
{
    if ns < 0 {
        return 0;
    }
    let n: i128 = ns as i128 * 16 / 1_000_000;
    if n > usize::MAX as i128 {
        usize::MAX
    } else {
        n as usize
    }
}

/// A time within the range of times is kept as it is, and no other goes beyond the range.
pub proof fn law_times_in_range_are_kept(x: int)
    ensures
        i64::MIN <= x <= i64::MAX ==> clamped(x) == x,
        x > i64::MAX ==> clamped(x) == i64::MAX,
        x < i64::MIN ==> clamped(x) == i64::MIN,
{
}

/// A sample at 16 kHz lasts 62 500 nanoseconds, and a time falls on the sample during which it
/// is.
pub proof fn law_a_time_falls_on_its_sample(ns: i64)
    ensures
        ns < 0 ==> sample_of(ns) == 0,
        0 <= ns && ns < usize::MAX * 62_500 ==> sample_of(ns) * 62_500 <= ns < (sample_of(ns) + 1)
            * 62_500,
{
}

} // verus!
