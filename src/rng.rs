use rand::rngs::StdRng;
use vstd::prelude::*;

use crate::cards::Card;

verus! {

/// The seeded random number generator that shuffles real decks.
#[verifier::external_type_specification]
#[verifier::external_body]
pub struct ExStdRng(StdRng);

/// Relies on rand's `SliceRandom::shuffle`: the slice is reordered in place, so the result
/// holds the same cards.
#[verifier::external_body]
pub(crate) fn shuffle_cards(cards: &mut Vec<Card>, rng: &mut StdRng)
    ensures
        final(cards)@.to_multiset() == old(cards)@.to_multiset(),
        final(cards)@.len() == old(cards)@.len(),
{
    rand::seq::SliceRandom::shuffle(cards.as_mut_slice(), rng);
}

} // verus!
