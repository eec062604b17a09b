//! Timed-repetition harness: runs an operation N times under a monotonic
//! clock and reduces the elapsed-nanosecond samples to a confidence
//! interval.

use vstd::prelude::*;
use crate::stats::{interval_ok, reduce_samples};

verus! {

/// Declares std::time::Instant, an opaque monotonic clock reading carried
/// between the two clock calls.
#[verifier::external_type_specification]
#[verifier::external_body]
pub struct ExInstant(std::time::Instant);

/// Relies on std::time::Instant::now: a reading of the monotonic clock.
#[verifier::external_body]
fn monotonic_now() -> (t: std::time::Instant) {
    std::time::Instant::now()
}

/// Relies on std::time::Instant::elapsed: the time since the reading, here
/// converted to nanoseconds and clamped into u64. Nothing can be promised
/// of a clock value.
#[verifier::external_body]
fn elapsed_nanos(start: &std::time::Instant) -> (d: u64) {
    u64::try_from(start.elapsed().as_nanos()).unwrap_or(u64::MAX)
}

/// Executes `f` exactly `n` times sequentially, recording the elapsed time
/// of each repetition, and reduces the samples to the 95% confidence
/// interval `(low, high)` around the mean. Returns `None` exactly when a
/// sample is beyond the range the reducer can represent (a margin that
/// large must fail loudly rather than wrap); `reduce_samples` carries that
/// decision's contract, since clock values themselves promise nothing.
pub fn benchmark<F: Fn()>(n: usize, f: &F) -> (r: Option<(u64, u64)>)
    requires
        2 <= n <= 0xFFFF_FFFF,
        f.requires(()),
    ensures
        r matches Some(interval) ==> exists|samples: Seq<u64>|
            samples.len() == n && interval_ok(samples, interval.0 as int, interval.1 as int),
{
    let mut samples: Vec<u64> = Vec::new();
    let mut i: usize = 0;
    while i < n
        invariant
            i <= n,
            samples@.len() == i,
            f.requires(()),
        decreases n - i,
    {
        let start = monotonic_now();
        f();
        let taken = elapsed_nanos(&start);
        samples.push(taken);
        i = i + 1;
    }

    let r = reduce_samples(&samples);
    proof {
        if let Some(interval) = r {
            assert(samples@.len() == n && interval_ok(
                samples@,
                interval.0 as int,
                interval.1 as int,
            ));
        }
    }
    r
}

} // verus!
