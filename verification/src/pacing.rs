//! The pace of the tick loop: thirty ticks to the second.

use vstd::prelude::*;

verus! {

/// The time, in whole milliseconds since the start, at which the tick
/// `ticks` has run its course: `ticks` thirtieths of a second, rounded down.
pub open spec fn due(ticks: int) -> int {
    ticks * 100 / 3
}

/// How long, in milliseconds, the loop sleeps after the tick `ticks`,
/// `elapsed` milliseconds after the start: until the tick has run its
/// course, and not at all if it is behind.
pub open spec fn sleep_for(ticks: u32, elapsed: u64) -> u64 {
    if elapsed < due(ticks as int) {
        (due(ticks as int) - elapsed) as u64
    } else {
        0
    }
}

/// How long, in milliseconds, the loop sleeps after the tick `ticks_passed`,
/// `elapsed` milliseconds after the start.
pub fn sleep_time(ticks_passed: u32, elapsed: u64) -> (millis: u64)
    ensures
        millis == sleep_for(ticks_passed, elapsed),
        millis == (if elapsed < due(ticks_passed as int) {
            due(ticks_passed as int) - elapsed
        } else {
            0
        }),
{
    let target: u64 = ticks_passed as u64 * 100 / 3;
    if elapsed < target {
        target - elapsed
    } else {
        0
    }
}

/// Pacing: a loop that is not behind wakes up when the tick has run its
/// course, and one tick takes at least a thirtieth of a second, less the
/// fraction of a millisecond that the clock cannot show: 33 milliseconds.
pub proof fn lemma_pace(ticks: int, elapsed: int)
    requires
        0 <= ticks,
        0 <= elapsed <= due(ticks),
    ensures
        elapsed + (due(ticks) - elapsed) == due(ticks),
        33 <= due(ticks + 1) - due(ticks) <= 34,
        due(ticks + 30) == due(ticks) + 1000,
{
}

} // verus!
