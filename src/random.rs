//! The random source of the optimisers and the calls into `rand` and
//! `rand_distr` that draw from it.

use vstd::prelude::*;
use rand::rngs::StdRng;
use rand::seq::SliceRandom;
use rand::Rng;
use rand_distr::{Distribution, WeightedAliasIndex, WeightedError};

verus! {

#[verifier::external_type_specification]
#[verifier::external_body]
pub struct ExStdRng(StdRng);

/// An alias table over `u64` weights, from which indices are drawn with
/// probability proportional to their weight.
#[verifier::external_body]
pub struct AliasTable {
    table: WeightedAliasIndex<u64>,
}

#[verifier::external_type_specification]
#[verifier::external_body]
pub struct ExWeightedError(WeightedError);

/// The weights that an alias table was built from.
pub uninterp spec fn alias_weights(table: AliasTable) -> Seq<u64>;

/// Relies on `Rng::gen_range`: a value of the half-open range `0..n`; it
/// panics only on an empty range.
#[verifier::external_body]
pub(crate) fn below(rng: &mut StdRng, n: usize) -> (r: usize)
    requires
        n > 0,
    ensures
        r < n,
{
    rng.gen_range(0..n)
}

/// Relies on `Rng::gen_ratio`: `true` with probability `numerator / denominator`;
/// always `false` for a zero numerator and always `true` when both are equal.
/// It panics when the denominator is zero or below the numerator.
#[verifier::external_body]
pub(crate) fn chance(rng: &mut StdRng, numerator: u32, denominator: u32) -> (r: bool)
    requires
        0 < denominator,
        numerator <= denominator,
    ensures
        numerator == 0 ==> !r,
        numerator == denominator ==> r,
{
    rng.gen_ratio(numerator, denominator)
}

/// Relies on `SliceRandom::shuffle`: the slice is permuted in place by swaps.
#[verifier::external_body]
pub(crate) fn shuffle(v: &mut Vec<usize>, rng: &mut StdRng)
    ensures
        final(v)@.len() == old(v)@.len(),
        final(v)@.to_multiset() == old(v)@.to_multiset(),
{
    v.shuffle(rng)
}

/// Relies on `WeightedAliasIndex::new`: it fails exactly on an empty list, on
/// more than `u32::MAX` weights, on a weight above `u64::MAX / n`, and on a
/// list whose weights are all zero.
#[verifier::external_body]
pub(crate) fn alias_table(weights: Vec<u64>) -> (r: Result<AliasTable, WeightedError>)
    ensures
        r is Ok <==> (0 < weights@.len() <= u32::MAX && (forall|i: int|
            0 <= i < weights@.len() ==> weights@[i] <= u64::MAX / (weights@.len() as u64))
            && exists|i: int| 0 <= i < weights@.len() && weights@[i] > 0),
        r is Ok ==> alias_weights(r->Ok_0) == weights@,
{
    WeightedAliasIndex::new(weights).map(|table| AliasTable { table })
}

/// Relies on `Distribution::sample` for `WeightedAliasIndex`: an index of
/// the weights the table was built from.
#[verifier::external_body]
pub(crate) fn alias_sample(table: &AliasTable, rng: &mut StdRng) -> (r: usize)
    ensures
        r < alias_weights(*table).len(),
{
    table.table.sample(rng)
}

} // verus!
