//! The calls into `rand`: everything that depends on chance.
use vstd::prelude::*;
use rand::seq::SliceRandom;
use crate::card::Card;

verus! {

/// Shuffles the cards in place with `rand`'s `SliceRandom::shuffle`, driven
/// by the thread-local generator that `rand::rng()` returns.
/// The shuffle only swaps elements, so what is claimed is that the result is
/// a permutation of the input: the same cards, each as often as before.
/// Which permutation comes out is left open, as it rests on chance.
#[verifier::external_body]
pub(crate) fn shuffle_cards(cards: &mut Vec<Card>)
    ensures
        final(cards)@.to_multiset() == old(cards)@.to_multiset(),
        final(cards)@.len() == old(cards)@.len(),
{
    cards.shuffle(&mut rand::rng());
}

/// A random index below `upper`, drawn by `rand::random_range(0..upper)`.
/// `random_range` panics on an empty range, hence `upper > 0`; what is
/// claimed is only that the result lies in the range.
#[verifier::external_body]
pub(crate) fn random_index(upper: usize) -> (r: usize)
    requires
        upper > 0,
    ensures
        r < upper,
{
    rand::random_range(0..upper)
}

} // verus!
