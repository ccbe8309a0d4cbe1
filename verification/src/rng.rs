//! The random source the game draws from.

use rand::rngs::StdRng;
use rand::Rng;
use vstd::prelude::*;

verus! {

/// `rand::rngs::StdRng`, the seedable generator that callers hand to the
/// game. Nothing is known about its inner state.
#[verifier::external_type_specification]
#[verifier::external_body]
pub struct ExStdRng(StdRng);

/// Draws a number below `bound` with `rand::Rng::gen_range` on `0..bound`.
///
/// `gen_range` panics on an empty range, hence the precondition. Of the
/// number drawn only the range is claimed.
#[verifier::external_body]
pub(crate) fn random_below(rng: &mut StdRng, bound: usize) -> (drawn: usize)
    requires
        bound > 0,
    ensures
        drawn < bound,
{
    rng.gen_range(0..bound)
}

} // verus!
