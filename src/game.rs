//! A deck and the hands dealt from it.

use vstd::prelude::*;
use crate::card::Card;
use crate::deal::{Deal, DealError};
use crate::pile::{Deck, Hand, standard_deck};

verus! {

/// A table: the undealt deck and the players' hands.
#[derive(Debug)]
pub struct Game {
    pub deck: Deck,
    pub hands: Vec<Hand>,
}

/// The cards of the hands, one hand after another.
pub open spec fn hands_cards(hands: Seq<Hand>) -> Seq<Card>
    decreases hands.len(),
{
    if hands.len() == 0 {
        Seq::empty()
    } else {
        hands_cards(hands.drop_last()) + hands.last()@
    }
}

/// Facts on the start of the `i`-th run of `h` cards among `n` runs.
proof fn lemma_run_start(i: int, h: int, n: int)
    requires
        0 <= i < n,
        0 <= h,
    ensures
        0 <= i * h,
        i * h + h == (i + 1) * h,
        (i + 1) * h <= n * h,
{
    assert(i * h + h == (i + 1) * h) by (nonlinear_arith);
    assert((i + 1) * h <= n * h) by (nonlinear_arith)
        requires
            i + 1 <= n,
            0 <= h,
    ;
    assert(0 <= i * h) by (nonlinear_arith)
        requires
            0 <= i,
            0 <= h,
    ;
}

/// Hand `k` of `hands` holds the `k`-th run of `h` cards of `d`, and `rest`
/// is what follows the last run.
pub open spec fn dealt_from(d: Seq<Card>, hands: Seq<Hand>, rest: Seq<Card>, n: int, h: int) -> bool {
    &&& hands.len() == n
    &&& n * h <= d.len()
    &&& forall|k: int| 0 <= k < n ==> (#[trigger] hands[k])@ == d.subrange(k * h, k * h + h)
    &&& rest == d.skip(n * h)
}

/// The runs dealt to the hands, one after another, are the top of the deck.
proof fn lemma_hands_prefix(d: Seq<Card>, hands: Seq<Hand>, n: int, h: int)
    requires
        hands.len() == n,
        0 <= h,
        n * h <= d.len(),
        forall|k: int| 0 <= k < n ==> (#[trigger] hands[k])@ == d.subrange(k * h, k * h + h),
    ensures
        hands_cards(hands) == d.take(n * h),
        0 <= n * h,
    decreases n,
{
    if n == 0 {
        assert(hands_cards(hands) =~= d.take(0));
    } else {
        lemma_run_start(n - 1, h, n);
        let hs = hands.drop_last();
        assert forall|k: int| 0 <= k < n - 1 implies (#[trigger] hs[k])@ == d.subrange(k * h, k * h + h) by {
            assert(hs[k] == hands[k]);
        }
        lemma_hands_prefix(d, hs, n - 1, h);
        assert(hands_cards(hands) =~= d.take(n * h));
    }
}

/// Dealing moves cards without making or losing any: the hands and the rest
/// of the deck together are the deck as it was.
proof fn lemma_dealt_cards(d: Seq<Card>, hands: Seq<Hand>, rest: Seq<Card>, n: int, h: int)
    requires
        dealt_from(d, hands, rest, n, h),
        0 <= h,
    ensures
        hands_cards(hands) + rest == d,
        forall|k: int| 0 <= k < n ==> (#[trigger] hands[k])@.len() == h,
        rest.len() == d.len() - n * h,
{
    lemma_hands_prefix(d, hands, n, h);
    assert(hands_cards(hands) + rest =~= d);
    assert forall|k: int| 0 <= k < n implies (#[trigger] hands[k])@.len() == h by {
        lemma_run_start(k, h, n);
    }
}

impl Game {
    /// Shuffles a full deck and deals `hand_size` cards from its top to each
    /// of `n_hands` hands in turn. Fails when the deck runs out.
    pub fn new(n_hands: usize, hand_size: usize) -> (r: Result<Game, DealError>)
        ensures
            r is Ok <==> n_hands * hand_size <= 52,
            r is Err ==> r->Err_0 == DealError::NothingToGive,
            r is Ok ==> {
                let g = r->Ok_0;
                &&& g.hands@.len() == n_hands
                &&& forall|i: int| 0 <= i < n_hands ==> (#[trigger] g.hands@[i])@.len() == hand_size
                &&& g.deck@.len() == 52 - n_hands * hand_size
                &&& (hands_cards(g.hands@) + g.deck@).to_multiset() == standard_deck().to_multiset()
            },
    {
        let deck = Deck::new();
        let r = Game::from_deck(deck, n_hands, hand_size);
        proof {
            if r is Ok {
                let g = r->Ok_0;
                lemma_dealt_cards(deck@, g.hands@, g.deck@, n_hands as int, hand_size as int);
                assert(hands_cards(g.hands@) + g.deck@ == deck@);
            }
        }
        r
    }

    /// Deals `hand_size` cards from the top of `deck` to each of `n_hands`
    /// hands in turn: hand `i` gets the `i`-th run of `hand_size` cards.
    /// Fails when the deck runs out.
    pub fn from_deck(deck: Deck, n_hands: usize, hand_size: usize) -> (r: Result<Game, DealError>)
        ensures
            r is Ok <==> n_hands * hand_size <= deck@.len(),
            r is Err ==> r->Err_0 == DealError::NothingToGive,
            r is Ok ==> dealt_from(deck@, r->Ok_0.hands@, r->Ok_0.deck@, n_hands as int, hand_size as int),
    {
        let ghost d0 = deck@;
        let ghost h = hand_size as int;
        let mut stock = deck;
        let mut hands: Vec<Hand> = Vec::new();
        let mut i: usize = 0;
        while i < n_hands
            invariant
                d0 == deck@,
                h == hand_size,
                i <= n_hands,
                hands@.len() == i,
                i * h <= d0.len(),
                stock@ == d0.skip(i * h),
                forall|k: int| 0 <= k < i ==> (#[trigger] hands@[k])@ == d0.subrange(k * h, k * h + h),
            decreases n_hands - i,
        {
            proof {
                lemma_run_start(i as int, h, n_hands as int);
            }
            let mut hand = Hand::new();
            let mut j: usize = 0;
            while j < hand_size
                invariant
                    d0 == deck@,
                    h == hand_size,
                    i < n_hands,
                    j <= hand_size,
                    0 <= i * h,
                    i * h + h <= n_hands * h,
                    i * h + j <= d0.len(),
                    stock@ == d0.skip(i * h + j),
                    hand@ == d0.subrange(i * h, i * h + j),
                decreases hand_size - j,
            {
                match stock.deal(0, &mut hand) {
                    Ok(()) => {},
                    Err(e) => {
                        proof {
                            assert(stock@.len() == 0);
                            assert(i * h + j == d0.len());
                            assert(n_hands * h == n_hands * hand_size);
                        }
                        return Err(e);
                    },
                }
                j = j + 1;
                proof {
                    assert(stock@ =~= d0.skip(i * h + j));
                    assert(hand@ =~= d0.subrange(i * h, i * h + j));
                }
            }
            proof {
                lemma_run_start(i as int, h, n_hands as int);
            }
            hands.push(hand);
            i = i + 1;
            proof {
                assert forall|k: int| 0 <= k < i implies (#[trigger] hands@[k])@ == d0.subrange(k * h, k * h + h) by {
                    if k == i - 1 {
                        assert(k * h == (i - 1) * h);
                    }
                }
            }
        }
        Ok(Game { deck: stock, hands })
    }

    /// Whether some hand holds no card.
    pub fn has_empty_hand(&self) -> (r: bool)
        ensures
            r == exists|i: int| 0 <= i < self.hands@.len() && (#[trigger] self.hands@[i])@.len() == 0,
    {
        let mut i: usize = 0;
        while i < self.hands.len()
            invariant
                i <= self.hands@.len(),
                forall|k: int| 0 <= k < i ==> (#[trigger] self.hands@[k])@.len() != 0,
            decreases self.hands@.len() - i,
        {
            if self.hands[i].is_empty() {
                return true;
            }
            i = i + 1;
        }
        false
    }

    pub fn get_hand(&mut self, index: usize) -> (r: &mut Hand)
        requires
            index < old(self).hands@.len(),
        ensures
            *r == old(self).hands@[index as int],
            final(self).hands@ == old(self).hands@.update(index as int, *final(r)),
            final(self).deck == old(self).deck,
    {
        &mut self.hands[index]
    }
}

} // verus!
