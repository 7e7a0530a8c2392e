//! The solver's source of randomness: a pseudo-random generator of the
//! `rand` crate, reached only through the trusted items below.

use vstd::prelude::*;
use crate::model::sum_u32;

verus! {

#[verifier::external_type_specification]
#[verifier::external_body]
pub struct ExStdRng(rand::rngs::StdRng);

/// Relies on rand::SeedableRng::seed_from_u64 for rand::rngs::StdRng:
/// builds a generator from an explicit seed, for reproducible solves.
#[verifier::external_body]
pub(crate) fn rng_from_seed(seed: u64) -> rand::rngs::StdRng {
    <rand::rngs::StdRng as rand::SeedableRng>::seed_from_u64(seed)
}

/// Relies on rand::SeedableRng::from_entropy for rand::rngs::StdRng:
/// builds a freshly seeded generator. It aborts if the machine's entropy
/// source fails, which no argument of ours can rule out.
#[verifier::external_body]
pub(crate) fn rng_from_entropy() -> rand::rngs::StdRng {
    <rand::rngs::StdRng as rand::SeedableRng>::from_entropy()
}

/// Relies on rand::Rng::gen_range: returns a value drawn from the
/// half-open range `0..n`, which is below `n`; the range is non-empty, so
/// the call cannot panic.
#[verifier::external_body]
pub(crate) fn random_below(rng: &mut rand::rngs::StdRng, n: usize) -> (r: usize)
    requires
        0 < n,
    ensures
        r < n,
{
    rand::Rng::gen_range(rng, 0..n)
}

/// Relies on rand::distributions::WeightedIndex over `u32` weights: `new`
/// succeeds because the weights are non-empty, all positive and their
/// total fits in a `u32`, and `sample` returns the index of one weight,
/// drawn with probability proportional to it.
#[verifier::external_body]
pub(crate) fn weighted_index(rng: &mut rand::rngs::StdRng, weights: &Vec<u32>) -> (r: usize)
    requires
        1 <= weights@.len(),
        forall|k: int| 0 <= k < weights@.len() ==> 1 <= weights@[k],
        sum_u32(weights@) <= u32::MAX,
    ensures
        r < weights@.len(),
{
    let dist = rand::distributions::WeightedIndex::new(weights.iter()).unwrap();
    rand::distributions::Distribution::sample(&dist, rng)
}

} // verus!
