//! Random choices made by the maze generator and the item placement.
//!
//! Every item here calls the `rand` crate; what is stated of a result is only
//! what holds of every outcome.

use vstd::prelude::*;
use rand::Rng;
use rand::seq::SliceRandom;
use rand::rngs::StdRng;

verus! {

/// The seedable generator that drives every random choice.
#[verifier::external_type_specification]
#[verifier::external_body]
pub struct ExStdRng(StdRng);

/// `Rng::gen_range` over the inclusive range `lo..=hi`.
/// Claimed: the result lies in `lo..=hi` (rand panics on an empty range,
/// which `requires` excludes). Which value comes out depends on the generator.
#[verifier::external_body]
pub fn gen_range_inclusive(rng: &mut StdRng, lo: usize, hi: usize) -> (r: usize)
    requires
        lo <= hi,
    ensures
        lo <= r <= hi,
{
    rng.gen_range(lo..=hi)
}

/// `Rng::gen_ratio`: `true` with probability `numerator / denominator`.
/// Claimed: a zero numerator always gives `false` and a numerator equal to
/// the denominator always gives `true` (rand panics when the denominator is
/// zero or smaller than the numerator, which `requires` excludes).
#[verifier::external_body]
pub fn gen_ratio(rng: &mut StdRng, numerator: u32, denominator: u32) -> (r: bool)
    requires
        0 < denominator,
        numerator <= denominator,
    ensures
        numerator == 0 ==> !r,
        numerator == denominator ==> r,
{
    rng.gen_ratio(numerator, denominator)
}

/// `SliceRandom::shuffle` on the whole vector.
/// Claimed: the result is a permutation of the input (same elements, each
/// as often as before). Which permutation depends on the generator.
#[verifier::external_body]
pub fn shuffle<T>(v: &mut Vec<T>, rng: &mut StdRng)
    ensures
        final(v)@.to_multiset() == old(v)@.to_multiset(),
        final(v)@.len() == old(v)@.len(),
{
    v.shuffle(rng)
}

} // verus!
