//! Random draws.

use rand::Rng;
use rand::rngs::ThreadRng;
use vstd::prelude::*;

verus! {

/// rand's `ThreadRng`, a handle to the random numbers of the thread.
#[verifier::external_type_specification]
#[verifier::external_body]
pub struct ExThreadRng(ThreadRng);

/// `rand::rng`: a handle to the random numbers of the thread. Nothing is claimed of what
/// it will draw.
#[verifier::external_body]
pub(crate) fn thread_rng() -> (r: ThreadRng) {
    rand::rng()
}

/// `Rng::random_range` over whole numbers: the number drawn is one of `lo..hi`. An empty
/// range would panic. Which of them it is, is left to chance.
#[verifier::external_body]
pub(crate) fn draw(rng: &mut ThreadRng, lo: usize, hi: usize) -> (r: usize)
    requires
        lo < hi,
    ensures
        lo <= r < hi,
{
    rng.random_range(lo..hi)
}

} // verus!
