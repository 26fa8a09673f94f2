//! When the timed test loops pause, go on, or stop.

use vstd::prelude::*;

verus! {

/// The pause after a latency sample: the pause between samples, or what is
/// left of the test if that is shorter; none (no more samples) once the
/// test time is up.  Times are in nanoseconds.
pub fn pause_after(remaining_nanos: Option<u64>, intertest_nanos: u64) -> (r: Option<u64>)
    ensures
        r == match remaining_nanos {
            None => None,
            Some(t) => Some(if t >= intertest_nanos { intertest_nanos } else { t }),
        },
{
    match remaining_nanos {
        None => None,
        Some(t) => Some(if t >= intertest_nanos { intertest_nanos } else { t }),
    }
}

/// Whether a transfer test starts another request: only with at least a
/// millisecond of its time left.  Times are in nanoseconds.
pub fn transfer_continues(remaining_nanos: Option<u64>) -> (r: bool)
    ensures
        r == match remaining_nanos {
            None => false,
            Some(t) => t >= 1_000_000,
        },
{
    match remaining_nanos {
        None => false,
        Some(t) => t >= 1_000_000,
    }
}

} // verus!
