//! Random draws from the thread's generator.

use rand::distr::weighted::WeightedIndex;
use rand::distr::Distribution;
use rand::seq::SliceRandom;
use rand::Rng;
use vstd::prelude::*;

verus! {

/// Draws one index of `weights`, each with a chance proportional to its
/// weight, from the thread's generator: `rand::rng`, then
/// `WeightedIndex::new` and its `Distribution::sample`.
///
/// Not proved: that an index that is drawn lies within `weights` and that its
/// weight is not zero. Nothing is claimed of which index comes, nor of when
/// the weights are refused (none, all zero, or a sum beyond `usize`).
#[verifier::external_body]
pub(crate) fn draw_weighted(weights: &Vec<usize>) -> (index: Option<usize>)
    ensures
        index matches Some(i) ==> i < weights@.len() && weights@[i as int] > 0,
{
    let table = WeightedIndex::new(weights).ok()?;
    Some(table.sample(&mut rand::rng()))
}

/// Puts `items` into a random order, in place: `SliceRandom::shuffle` with
/// `rand::rng`.
///
/// Not proved: that the items afterwards are those before, each as often.
/// Nothing is claimed of their order.
#[verifier::external_body]
pub(crate) fn shuffle<T>(items: &mut Vec<T>)
    ensures
        final(items)@.to_multiset() == old(items)@.to_multiset(),
{
    items.shuffle(&mut rand::rng());
}

/// Tosses a fair coin: `Rng::random_ratio(1, 2)` on `rand::rng`. Nothing is
/// claimed of the outcome.
#[verifier::external_body]
pub(crate) fn toss() -> bool {
    rand::rng().random_ratio(1, 2)
}

} // verus!
