//! The seeded random-number generator from `rand`, as the library sees it.
//!
//! `StdRng` is opaque to the verifier: the wrappers below only state what
//! holds of every outcome (a shuffle is a permutation, a sampled value lies
//! in its range). Which outcome a given seed produces is not stated.

use vstd::prelude::*;

use rand::rngs::StdRng;

use crate::cards::card::Card;

verus! {

#[verifier::external_type_specification]
#[verifier::external_body]
pub struct ExStdRng(StdRng);

/// Calls `rand::SeedableRng::seed_from_u64` for `StdRng`. Nothing is claimed
/// of the generator's state.
#[verifier::external_body]
pub(crate) fn rng_from_seed(seed: u64) -> StdRng {
    <StdRng as rand::SeedableRng>::seed_from_u64(seed)
}

/// Calls `rand::seq::SliceRandom::shuffle` on the cards. Claimed: the result
/// holds the same cards as before, each as often as before (a permutation).
#[verifier::external_body]
pub(crate) fn shuffle_cards(deck: &mut Vec<Card>, rng: &mut StdRng)
    ensures
        final(deck)@.len() == old(deck)@.len(),
        final(deck)@.to_multiset() == old(deck)@.to_multiset(),
{
    rand::seq::SliceRandom::shuffle(deck.as_mut_slice(), rng)
}

/// Calls `rand::Rng::gen_range(lo..hi)` at type `u8`. Claimed: the sample
/// lies in `lo..hi`. The call panics on an empty range, which `requires`
/// excludes.
#[verifier::external_body]
pub(crate) fn gen_range_u8(rng: &mut StdRng, lo: u8, hi: u8) -> (r: u8)
    requires
        lo < hi,
    ensures
        lo <= r < hi,
{
    rand::Rng::gen_range(rng, lo..hi)
}

/// Calls `rand::Rng::gen_range(lo..hi)` at type `usize`. Claimed: the sample
/// lies in `lo..hi`. The call panics on an empty range, which `requires`
/// excludes.
#[verifier::external_body]
pub(crate) fn gen_range_usize(rng: &mut StdRng, lo: usize, hi: usize) -> (r: usize)
    requires
        lo < hi,
    ensures
        lo <= r < hi,
{
    rand::Rng::gen_range(rng, lo..hi)
}

/// Calls `rand::Rng::gen_range(lo..=hi)` at type `u32`. Claimed: the sample
/// lies in `lo..=hi`. The call panics on an empty range, which `requires`
/// excludes.
#[verifier::external_body]
pub(crate) fn gen_range_inclusive_u32(rng: &mut StdRng, lo: u32, hi: u32) -> (r: u32)
    requires
        lo <= hi,
    ensures
        lo <= r <= hi,
{
    rand::Rng::gen_range(rng, lo..=hi)
}

/// Calls `rand::Rng::gen_range(lo..=hi)` at type `usize`. Claimed: the sample
/// lies in `lo..=hi`. The call panics on an empty range, which `requires`
/// excludes.
#[verifier::external_body]
pub(crate) fn gen_range_inclusive_usize(rng: &mut StdRng, lo: usize, hi: usize) -> (r: usize)
    requires
        lo <= hi,
    ensures
        lo <= r <= hi,
{
    rand::Rng::gen_range(rng, lo..=hi)
}

} // verus!
