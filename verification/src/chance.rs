use vstd::prelude::*;

use rand::rngs::ThreadRng;
use rand::seq::SliceRandom;
use rand::Rng;

use crate::solver::search::Direction;

verus! {

/// rand's thread-local generator, carried opaquely through verified code.
#[verifier::external_type_specification]
#[verifier::external_body]
pub struct ExThreadRng(ThreadRng);

/// Calls `rand::rng`, which hands out a handle to the thread-local generator.
/// Nothing is stated of the handle.
#[verifier::external_body]
pub(crate) fn thread_rng() -> ThreadRng {
    rand::rng()
}

/// Calls `Rng::random_range` on the inclusive range `low..=high`. The
/// contract claims only that the value lies in that range: which value comes
/// out is chance. rand panics on an empty range, which `requires` excludes.
#[verifier::external_body]
pub(crate) fn random_inclusive(rng: &mut ThreadRng, low: usize, high: usize) -> (value: usize)
    requires
        low <= high,
    ensures
        low <= value <= high,
{
    rng.random_range(low..=high)
}

/// Calls `SliceRandom::shuffle`, which permutes the entries in place by
/// swaps. The contract claims that the result is a permutation of the input;
/// which permutation is chance.
#[verifier::external_body]
pub(crate) fn shuffle_directions(directions: &mut [Direction; 4], rng: &mut ThreadRng)
    ensures
        final(directions)@.to_multiset() == old(directions)@.to_multiset(),
{
    directions.shuffle(rng)
}

} // verus!
