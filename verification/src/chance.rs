//! The random choices of a game: an index, an index by weight, an order.
//! They come from the crate `rand` and its thread-local generator; their
//! contracts state what holds of every outcome and are not proved here.

use vstd::prelude::*;
use rand::distributions::{Distribution, WeightedError, WeightedIndex};
use rand::seq::SliceRandom;
use rand::Rng;
use crate::event::{result_views, EventResult};

verus! {

/// Why a choice by weight cannot be made.
#[derive(Debug, PartialEq, Eq, Clone, Copy, Structural)]
pub enum WeightError {
    /// There are no weights.
    NoItem,
    /// A weight is negative, or the weights add up to more than an `i32`
    /// holds.
    InvalidWeight,
    /// Every weight is zero.
    AllWeightsZero,
    /// There are too many weights.
    TooMany,
}

/// The sum of some weights.
pub open spec fn total_weight(weights: Seq<i32>) -> int
    decreases weights.len(),
{
    if weights.len() == 0 {
        0
    } else {
        total_weight(weights.drop_last()) + weights.last()
    }
}

/// `Rng::gen_range` of `rand`, on the range from 0 up to and without `n`,
/// with the generator of `rand::thread_rng`: some index below `n`. The range
/// must not be empty.
#[verifier::external_body]
pub(crate) fn random_below(n: usize) -> (r: usize)
    requires
        n > 0,
    ensures
        r < n,
{
    rand::thread_rng().gen_range(0..n)
}

/// A choice of an index by weight: a `WeightedIndex` of `rand`.
#[verifier::external_body]
pub struct WeightedChoice {
    index: WeightedIndex<i32>,
}

/// The weights that a choice by weight was made of.
pub uninterp spec fn index_weights(choice: WeightedChoice) -> Seq<i32>;

/// `WeightedIndex::new` of `rand` on the weights. Of weights that are not
/// negative and whose sum an `i32` holds: without weights it fails with
/// `NoItem`, with a sum of zero with `AllWeightsZero`; else it gives the
/// choice among these weights.
#[verifier::external_body]
pub(crate) fn weighted_index(weights: &Vec<i32>) -> (r: Result<WeightedChoice, WeightError>)
    requires
        forall|i: int| 0 <= i < weights.len() ==> weights[i] >= 0,
        total_weight(weights@) <= i32::MAX,
    ensures
        r.is_ok() == (total_weight(weights@) > 0),
        r matches Ok(choice) ==> index_weights(choice) == weights@,
        r matches Err(e) ==> e == if weights.len() == 0 {
            WeightError::NoItem
        } else {
            WeightError::AllWeightsZero
        },
{
    match WeightedIndex::new(weights) {
        Ok(index) => Ok(WeightedChoice { index }),
        Err(WeightedError::NoItem) => Err(WeightError::NoItem),
        Err(WeightedError::InvalidWeight) => Err(WeightError::InvalidWeight),
        Err(WeightedError::AllWeightsZero) => Err(WeightError::AllWeightsZero),
        Err(WeightedError::TooMany) => Err(WeightError::TooMany),
    }
}

/// `Distribution::sample` of `rand` on a choice by weight, with the
/// generator of `rand::thread_rng`: an index of one of the weights, and of
/// one above zero.
#[verifier::external_body]
pub(crate) fn sample_index(choice: &WeightedChoice) -> (r: usize)
    ensures
        r < index_weights(*choice).len(),
        index_weights(*choice)[r as int] > 0,
{
    choice.index.sample(&mut rand::thread_rng())
}

/// `SliceRandom::shuffle` of `rand` on the results: it swaps them among
/// themselves, so that the same results stand in some order.
#[verifier::external_body]
pub(crate) fn shuffle_results(results: &mut Vec<EventResult>)
    ensures
        result_views(final(results)@).to_multiset() == result_views(old(results)@).to_multiset(),
{
    results.shuffle(&mut rand::thread_rng());
}

} // verus!
