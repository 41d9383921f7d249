//! The random draws of the game.
use rand::Rng;
use vstd::prelude::*;

verus! {

/// A number drawn from `0..bound` by `rand::thread_rng().gen_range`, which
/// panics on an empty range; the draw depends on the generator's state, so
/// nothing is claimed of it but the range.
#[verifier::external_body]
pub(crate) fn random_index(bound: usize) -> (r: usize)
    requires
        bound > 0,
    ensures
        r < bound,
{
    rand::thread_rng().gen_range(0..bound)
}

} // verus!
