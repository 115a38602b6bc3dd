//! Draws of chance and of the clock, behind trusted wrappers.

use vstd::prelude::*;

verus! {

/// Relies on rand's `thread_rng` and `Rng::gen_range`: a draw from the
/// half-open range `0..n`. `gen_range` panics only on an empty range, which
/// `n >= 1` rules out.
#[verifier::external_body]
pub(crate) fn rand_below(n: u64) -> (r: u64)
    requires
        n >= 1,
    ensures
        r < n,
{
    rand::Rng::gen_range(&mut rand::thread_rng(), 0..n)
}

/// Relies on chrono's `Local::now` and `DateTime::timestamp`: the wall clock
/// as whole seconds. Nothing is promised of the value.
#[verifier::external_body]
pub(crate) fn now_timestamp() -> u64 {
    chrono::Local::now().timestamp() as u64
}

} // verus!
