//! The random generator of the search and the calls made on it.
//!
//! What a generator returns depends on its state, so nothing here names a
//! result; each call states only what holds of every outcome.

use rand::rngs::StdRng;
use rand::seq::SliceRandom;
use rand::Rng;
use vstd::prelude::*;

verus! {

/// rand's standard seeded generator, carried through the search unopened.
#[verifier::external_type_specification]
#[verifier::external_body]
pub struct ExStdRng(StdRng);

/// Calls rand's `SliceRandom::shuffle` on a vector of indices.
///
/// In rand 0.7.3 it runs a Fisher-Yates pass of in-place swaps, so the vector
/// keeps the same elements, each as often as before. Which order comes out
/// depends on the generator and is not stated.
#[verifier::external_body]
pub(crate) fn shuffle_indices(v: &mut Vec<usize>, rng: &mut StdRng)
    ensures
        final(v)@.to_multiset() == old(v)@.to_multiset(),
{
    v.shuffle(rng);
}

/// Calls rand's `Rng::gen_range(low, high)` for `usize`.
///
/// In rand 0.7.3 it panics unless `low < high` and otherwise returns a value
/// in `low..high`; which one depends on the generator and is not stated.
#[verifier::external_body]
pub(crate) fn random_index(rng: &mut StdRng, low: usize, high: usize) -> (r: usize)
    requires
        low < high,
    ensures
        low <= r < high,
{
    rng.gen_range(low, high)
}

} // verus!
