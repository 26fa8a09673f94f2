//! Figures reported while a transfer test runs and when it ends.

use vstd::prelude::*;

verus! {

/// How far a transfer test has come, in percent of its duration; both are
/// milliseconds as the clock gives them, cut to 32 bits.
pub fn progress_percent(elapsed_ms: u32, duration_ms: u32) -> (r: u32)
    requires
        duration_ms > 0,
        elapsed_ms * 100 <= u32::MAX,
    ensures
        r == (elapsed_ms * 100) / (duration_ms as int),
{
    elapsed_ms * 100 / duration_ms
}

/// The rate of `bytes` moved in `ms` milliseconds, in bits per millisecond
/// (kilobits per second), rounded down.
pub fn kilobits_per_ms(bytes: u64, ms: u64) -> (r: u64)
    requires
        ms > 0,
        bytes * 8 <= u64::MAX,
    ensures
        r == (bytes * 8) / (ms as int),
{
    bytes * 8 / ms
}

} // verus!
