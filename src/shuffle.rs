//! Random choices: shuffling a pile and picking a position, through rand.

use vstd::prelude::*;
use rand::rngs::StdRng;
use rand::Rng;
use rand::SeedableRng;
use rand::seq::SliceRandom;
use crate::card::Card;
use crate::pile::Cards;

verus! {

/// rand's standard generator, carried through opaque: nothing is read from it.
#[verifier::external_type_specification]
#[verifier::external_body]
pub struct ExStdRng(rand::rngs::StdRng);

/// Relies on rand's `SeedableRng::from_entropy`: a generator seeded from the
/// operating system. Nothing is promised of its state. It panics only when
/// the operating system cannot supply entropy, which no input decides.
#[verifier::external_body]
pub(crate) fn entropy_rng() -> StdRng {
    StdRng::from_entropy()
}

/// Relies on rand's `SliceRandom::shuffle`: it only swaps items of the
/// slice, so the result holds the same items, each as often as before.
#[verifier::external_body]
pub(crate) fn shuffle_cards(cards: &mut Vec<Card>, rng: &mut StdRng)
    ensures
        final(cards)@.to_multiset() == old(cards)@.to_multiset(),
        final(cards)@.len() == old(cards)@.len(),
{
    cards.as_mut_slice().shuffle(rng)
}

/// Relies on rand's `Rng::gen_range`: a value in `[low, high)`; it panics
/// when the range is empty, which `requires` leaves out.
#[verifier::external_body]
pub(crate) fn random_below(rng: &mut StdRng, high: usize) -> (r: usize)
    requires
        0 < high,
    ensures
        r < high,
{
    rng.gen_range(0, high)
}

/// A pile of cards whose order can be drawn at random.
pub trait Shuffle: Cards + Sized {
    /// Puts the cards in an order drawn from `rng`.
    fn shuffle_with(&mut self, rng: &mut StdRng)
        ensures
            final(self).card_seq().to_multiset() == old(self).card_seq().to_multiset(),
            final(self).card_seq().len() == old(self).card_seq().len(),
    ;

    /// Puts the cards in an order drawn from a freshly seeded generator.
    fn shuffle(&mut self)
        ensures
            final(self).card_seq().to_multiset() == old(self).card_seq().to_multiset(),
            final(self).card_seq().len() == old(self).card_seq().len(),
    {
        let mut rng = entropy_rng();
        self.shuffle_with(&mut rng);
    }

    fn shuffled(self) -> (r: Self)
        ensures
            r.card_seq().to_multiset() == self.card_seq().to_multiset(),
            r.card_seq().len() == self.card_seq().len(),
    {
        let mut s = self;
        s.shuffle();
        s
    }
}

} // verus!
