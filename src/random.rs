//! The random source behind the reshuffling of the rotation: rand's seeded
//! standard generator.
use vstd::prelude::*;
use rand::rngs::StdRng;

verus! {

#[verifier::external_type_specification]
#[verifier::external_body]
pub struct ExStdRng(rand::rngs::StdRng);

/// Relies on rand's `SeedableRng::seed_from_u64`: a generator whose draws are
/// fixed by the seed.
#[verifier::external_body]
pub(crate) fn seeded_rng(seed: u64) -> StdRng {
    rand::SeedableRng::seed_from_u64(seed)
}

/// Relies on rand's `SliceRandom::shuffle`, which only swaps items.
#[verifier::external_body]
pub(crate) fn shuffle_indices(v: &mut Vec<usize>, rng: &mut StdRng)
    ensures
        final(v)@.to_multiset() == old(v)@.to_multiset(),
{
    rand::seq::SliceRandom::shuffle(v.as_mut_slice(), rng)
}

/// Relies on rand's `Rng::gen` for `bool`: a coin toss.
#[verifier::external_body]
pub(crate) fn flip_coin(rng: &mut StdRng) -> bool {
    rand::Rng::gen::<bool>(rng)
}

} // verus!
