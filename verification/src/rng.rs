use vstd::prelude::*;

verus! {

/// The standard random generator of the rand crate, used by the random
/// topology mutations.  The type is opaque here: nothing is assumed of
/// the values it produces beyond the ranges the wrappers state.
#[verifier::external_type_specification]
#[verifier::external_body]
pub struct ExStdRng(rand::rngs::StdRng);

/// Relies on rand's `RngExt::random_range`: a draw from the half-open
/// range `0..n`, which panics only when the range is empty.
#[verifier::external_body]
pub(crate) fn rand_below(rng: &mut rand::rngs::StdRng, n: usize) -> (r: usize)
    requires
        n > 0,
    ensures
        r < n,
{
    rand::RngExt::random_range(rng, 0..n)
}

/// Relies on rand's `SliceRandom::shuffle`: permutes the slice in place,
/// so the multiset of its elements is unchanged.
#[verifier::external_body]
pub(crate) fn shuffle_indices(rng: &mut rand::rngs::StdRng, v: &mut Vec<usize>)
    ensures
        final(v)@.to_multiset() == old(v)@.to_multiset(),
{
    rand::seq::SliceRandom::shuffle(v.as_mut_slice(), rng)
}

} // verus!
