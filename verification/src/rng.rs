//! Trusted access to the pseudorandom number generator.

use vstd::prelude::*;
use rand::Rng;

verus! {

/// Relies on rand::Rng::gen_range over `0..n`: returns a value below `n`
/// (the call panics on an empty range, so `n` must be positive).
#[verifier::external_body]
pub(crate) fn rand_below(n: usize) -> (r: usize)
    requires
        n > 0,
    ensures
        r < n,
{
    rand::thread_rng().gen_range(0..n)
}

/// Relies on rand::Rng::gen::<u64>: a full-width unsigned 64-bit value, of
/// which nothing is promised.
#[verifier::external_body]
pub(crate) fn rand_u64() -> u64 {
    rand::thread_rng().gen()
}

} // verus!
