//! The random source used to draw slot coordinates.
use vstd::prelude::*;

verus! {

#[verifier::external_type_specification]
#[verifier::external_body]
pub struct ExStdRng(rand::rngs::StdRng);

/// Relies on rand::Rng::gen_range (rand 0.7): for `low < high` it returns a
/// value in `[low, high)`; it panics when `low >= high`, hence `bound > 0`.
#[verifier::external_body]
pub(crate) fn random_below(rng: &mut rand::rngs::StdRng, bound: usize) -> (r: usize)
    requires
        bound > 0,
    ensures
        r < bound,
{
    rand::Rng::gen_range(rng, 0, bound)
}

/// Relies on rand::seq::SliceRandom::shuffle (rand 0.7): it only swaps
/// elements of the slice, so the result is a permutation of the input.
#[verifier::external_body]
pub(crate) fn shuffle_names(rng: &mut rand::rngs::StdRng, names: &mut Vec<String>)
    ensures
        final(names)@.to_multiset() == old(names)@.to_multiset(),
{
    rand::seq::SliceRandom::shuffle(names.as_mut_slice(), rng)
}

} // verus!
