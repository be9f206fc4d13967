//! Trusted boundary around the `rand` crate: the seeded generator that
//! drives construction attempts and the shuffle that orders displacement
//! candidates.

use vstd::prelude::*;

verus! {

#[verifier::external_type_specification]
#[verifier::external_body]
pub struct ExStdRng(rand::rngs::StdRng);

/// Relies on rand's `SeedableRng::seed_from_u64`: builds a deterministic
/// generator from a 64-bit seed.
#[verifier::external_body]
pub(crate) fn rng_from_seed(seed: u64) -> rand::rngs::StdRng {
    <rand::rngs::StdRng as rand::SeedableRng>::seed_from_u64(seed)
}

/// Relies on rand's `Rng::gen`: draws the generator's next 64-bit value.
/// Nothing is promised of the value drawn.
#[verifier::external_body]
pub(crate) fn next_u64(rng: &mut rand::rngs::StdRng) -> u64 {
    rand::Rng::gen(rng)
}

/// Relies on rand's `SliceRandom::shuffle`: a Fisher-Yates pass of swaps, so
/// the slice is permuted in place and nothing else about the order is
/// promised.
#[verifier::external_body]
pub(crate) fn shuffle(v: &mut Vec<u32>, rng: &mut rand::rngs::StdRng)
    ensures
        final(v)@.len() == old(v)@.len(),
        final(v)@.to_multiset() == old(v)@.to_multiset(),
{
    rand::seq::SliceRandom::shuffle(v.as_mut_slice(), rng)
}

} // verus!
