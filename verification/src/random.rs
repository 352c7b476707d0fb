//! The source of random positions.

use vstd::prelude::*;

verus! {

/// A position below `bound`, drawn at random.
///
/// Calls `rand::Rng::gen_range` with the range `0..bound` on the generator
/// that `rand::thread_rng` hands out, which the system seeds. `gen_range`
/// panics on an empty range, so `bound` must be positive. It samples the
/// range uniformly; of the outcome the contract says only what holds of
/// every draw: it lies in `0..bound`.
#[verifier::external_body]
pub(crate) fn random_below(bound: usize) -> (index: usize)
    requires
        bound > 0,
    ensures
        index < bound,
{
    rand::Rng::gen_range(&mut rand::thread_rng(), 0..bound)
}

} // verus!
