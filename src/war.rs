//! The game of War between two hands.

use vstd::prelude::*;
use vstd::multiset::Multiset;
use crate::card::{Card, rank};
use crate::deal::{Give, Take};
use crate::game::{Game, hands_cards};
use crate::pile::standard_deck;
use crate::pile::Hand;

verus! {

broadcast use vstd::seq_lib::group_to_multiset_ensures, vstd::multiset::group_multiset_axioms;

/// Whether two cards tie on rank.
pub open spec fn ties(a: Card, b: Card) -> bool {
    rank(a.value) == rank(b.value)
}

/// Whether `a` outranks `b`.
pub open spec fn beats(a: Card, b: Card) -> bool {
    rank(a.value) > rank(b.value)
}

/// The hands after a war fought over the cards of `pile`.
/// A side with fewer than four cards concedes the pile (the first hand is
/// looked at first). Otherwise each side lays four cards, the last of each
/// four are compared, and the higher takes the whole pile in the order it
/// was laid; a tie starts another war over the grown pile.
pub open spec fn war_outcome(h0: Seq<Card>, h1: Seq<Card>, pile: Seq<Card>) -> (Seq<Card>, Seq<Card>)
    decreases h0.len(),
{
    if h0.len() < 4 {
        (h0, h1 + pile)
    } else if h1.len() < 4 {
        (h0 + pile, h1)
    } else {
        let grown = pile + h0.take(4) + h1.take(4);
        if ties(h0[3], h1[3]) {
            war_outcome(h0.skip(4), h1.skip(4), grown)
        } else if beats(h0[3], h1[3]) {
            (h0.skip(4) + grown, h1.skip(4))
        } else {
            (h0.skip(4), h1.skip(4) + grown)
        }
    }
}

/// The hands after one round: each side shows its top card, the higher takes
/// both (its own first), and a tie starts a war over the two.
pub open spec fn round_outcome(h0: Seq<Card>, h1: Seq<Card>) -> (Seq<Card>, Seq<Card>)
    recommends
        h0.len() > 0,
        h1.len() > 0,
{
    let c0 = h0[0];
    let c1 = h1[0];
    if ties(c0, c1) {
        war_outcome(h0.skip(1), h1.skip(1), seq![c0, c1])
    } else if beats(c0, c1) {
        (h0.skip(1).push(c0).push(c1), h1.skip(1))
    } else {
        (h0.skip(1), h1.skip(1).push(c1).push(c0))
    }
}

/// The two hands and the number of wars after `n` rounds; play stops once a
/// hand is empty.
pub open spec fn after_rounds(h0: Seq<Card>, h1: Seq<Card>, n: nat) -> (Seq<Card>, Seq<Card>, nat)
    decreases n,
{
    if n == 0 {
        (h0, h1, 0)
    } else {
        let prev = after_rounds(h0, h1, (n - 1) as nat);
        if prev.0.len() == 0 || prev.1.len() == 0 {
            prev
        } else {
            let next = round_outcome(prev.0, prev.1);
            let w: nat = if ties(prev.0[0], prev.1[0]) {
                1
            } else {
                0
            };
            (next.0, next.1, prev.2 + w)
        }
    }
}

/// All cards of two hands, counted with repetition.
pub open spec fn cards_of(h0: Seq<Card>, h1: Seq<Card>) -> Multiset<Card> {
    h0.to_multiset().add(h1.to_multiset())
}

/// A war hands out exactly the cards of the two hands and the pile.
pub proof fn lemma_war_keeps_cards(h0: Seq<Card>, h1: Seq<Card>, pile: Seq<Card>)
    ensures
        cards_of(war_outcome(h0, h1, pile).0, war_outcome(h0, h1, pile).1) =~= cards_of(h0, h1).add(
            pile.to_multiset(),
        ),
    decreases h0.len(),
{
    broadcast use vstd::seq_lib::lemma_multiset_commutative;

    if h0.len() >= 4 && h1.len() >= 4 {
        let grown = pile + h0.take(4) + h1.take(4);
        assert(h0 =~= h0.take(4) + h0.skip(4));
        assert(h1 =~= h1.take(4) + h1.skip(4));
        lemma_war_keeps_cards(h0.skip(4), h1.skip(4), grown);
    }
}

/// A round of War moves cards between the two hands without making or
/// losing any: the two hands hold the same cards, counted with repetition,
/// before and after.
pub proof fn lemma_round_keeps_cards(h0: Seq<Card>, h1: Seq<Card>)
    requires
        h0.len() > 0,
        h1.len() > 0,
    ensures
        cards_of(round_outcome(h0, h1).0, round_outcome(h0, h1).1) =~= cards_of(h0, h1),
{
    broadcast use vstd::seq_lib::lemma_multiset_commutative;

    let c0 = h0[0];
    let c1 = h1[0];
    assert(h0 =~= seq![c0] + h0.skip(1));
    assert(h1 =~= seq![c1] + h1.skip(1));
    assert(seq![c0, c1] =~= seq![c0] + seq![c1]);
    lemma_war_keeps_cards(h0.skip(1), h1.skip(1), seq![c0, c1]);
}

/// Two hands whose cards, together, have no duplicates.
pub open spec fn distinct_cards(h0: Seq<Card>, h1: Seq<Card>) -> bool {
    (h0 + h1).no_duplicates()
}

/// Two hands that hold the same cards as a pair with no card twice hold no
/// card twice either.
proof fn lemma_same_cards_distinct(a0: Seq<Card>, a1: Seq<Card>, b0: Seq<Card>, b1: Seq<Card>)
    requires
        cards_of(a0, a1) == cards_of(b0, b1),
        distinct_cards(a0, a1),
    ensures
        distinct_cards(b0, b1),
{
    broadcast use vstd::seq_lib::lemma_multiset_commutative;

    (a0 + a1).lemma_multiset_has_no_duplicates();
    assert((a0 + a1).to_multiset() == (b0 + b1).to_multiset());
    (b0 + b1).lemma_multiset_has_no_duplicates_conv();
}

/// No round of War puts a card into both hands or twice into one: if the
/// hands held no card twice before the round, they hold none twice after it.
pub proof fn lemma_round_keeps_distinct(h0: Seq<Card>, h1: Seq<Card>)
    requires
        h0.len() > 0,
        h1.len() > 0,
        distinct_cards(h0, h1),
    ensures
        distinct_cards(round_outcome(h0, h1).0, round_outcome(h0, h1).1),
{
    lemma_round_keeps_cards(h0, h1);
    lemma_same_cards_distinct(h0, h1, round_outcome(h0, h1).0, round_outcome(h0, h1).1);
}

/// The top card of a hand, taken from it.
fn take_top(hand: &mut Hand) -> (c: Card)
    requires
        old(hand)@.len() > 0,
    ensures
        c == old(hand)@[0],
        final(hand)@ == old(hand)@.skip(1),
{
    let r = hand.give(0);
    proof {
        assert(old(hand)@.remove(0) =~= old(hand)@.skip(1));
    }
    match r {
        Ok(c) => c,
        Err(_) => Card::default(),
    }
}

/// Appends the cards of `cards`, in order, to `hand`.
fn take_all(hand: &mut Hand, cards: &Vec<Card>)
    ensures
        final(hand)@ == old(hand)@ + cards@,
{
    let mut i: usize = 0;
    while i < cards.len()
        invariant
            i <= cards@.len(),
            hand@ == old(hand)@ + cards@.take(i as int),
        decreases cards@.len() - i,
    {
        hand.take(cards[i]);
        i = i + 1;
        proof {
            assert(hand@ =~= old(hand)@ + cards@.take(i as int));
        }
    }
    proof {
        assert(cards@.take(cards@.len() as int) =~= cards@);
    }
}

/// Fights the war over `war_cards` until a side wins the pile or concedes it.
fn war(game: &mut Game, war_cards: &mut Vec<Card>)
    requires
        old(game).hands@.len() == 2,
    ensures
        final(game).hands@.len() == 2,
        final(game).deck == old(game).deck,
        (final(game).hands@[0]@, final(game).hands@[1]@) == war_outcome(
            old(game).hands@[0]@,
            old(game).hands@[1]@,
            old(war_cards)@,
        ),
        cards_of(final(game).hands@[0]@, final(game).hands@[1]@) == cards_of(
            old(game).hands@[0]@,
            old(game).hands@[1]@,
        ).add(old(war_cards)@.to_multiset()),
{
    proof {
        lemma_war_keeps_cards(game.hands@[0]@, game.hands@[1]@, war_cards@);
    }
    let ghost goal = war_outcome(game.hands@[0]@, game.hands@[1]@, war_cards@);
    loop
        invariant
            game.hands@.len() == 2,
            game.deck == old(game).deck,
            war_outcome(game.hands@[0]@, game.hands@[1]@, war_cards@) == goal,
            goal == war_outcome(old(game).hands@[0]@, old(game).hands@[1]@, old(war_cards)@),
            cards_of(goal.0, goal.1) == cards_of(old(game).hands@[0]@, old(game).hands@[1]@).add(
                old(war_cards)@.to_multiset(),
            ),
        ensures
            game.hands@.len() == 2,
            game.deck == old(game).deck,
            (game.hands@[0]@, game.hands@[1]@) == goal,
        decreases game.hands@[0]@.len(),
    {
        let len0 = game.hands[0].len();
        let len1 = game.hands[1].len();
        if len0 < 4 {
            take_all(&mut game.hands[1], war_cards);
            return;
        } else if len1 < 4 {
            take_all(&mut game.hands[0], war_cards);
            return;
        }
        let ghost h0 = game.hands@[0]@;
        let ghost h1 = game.hands@[1]@;
        let ghost pile = war_cards@;
        let mut k: usize = 0;
        while k < 4
            invariant
                k <= 4,
                game.hands@.len() == 2,
                game.deck == old(game).deck,
                game.hands@[0]@ == h0.skip(k as int),
                game.hands@[1]@ == h1,
                h0.len() >= 4,
                war_cards@ == pile + h0.take(k as int),
            decreases 4 - k,
        {
            let c = take_top(&mut game.hands[0]);
            war_cards.push(c);
            k = k + 1;
            proof {
                assert(game.hands@[0]@ =~= h0.skip(k as int));
                assert(war_cards@ =~= pile + h0.take(k as int));
            }
        }
        k = 0;
        while k < 4
            invariant
                k <= 4,
                game.hands@.len() == 2,
                game.deck == old(game).deck,
                game.hands@[0]@ == h0.skip(4),
                game.hands@[1]@ == h1.skip(k as int),
                h1.len() >= 4,
                war_cards@ == pile + h0.take(4) + h1.take(k as int),
            decreases 4 - k,
        {
            let c = take_top(&mut game.hands[1]);
            war_cards.push(c);
            k = k + 1;
            proof {
                assert(game.hands@[1]@ =~= h1.skip(k as int));
                assert(war_cards@ =~= pile + h0.take(4) + h1.take(k as int));
            }
        }
        let n = war_cards.len();
        let a = war_cards[n - 5];
        let b = war_cards[n - 1];
        proof {
            assert(a == h0[3]);
            assert(b == h1[3]);
        }
        if a.cmp_value() == b.cmp_value() {
            // another war over the grown pile
        } else if a.cmp_value() > b.cmp_value() {
            take_all(&mut game.hands[0], war_cards);
            return;
        } else {
            take_all(&mut game.hands[1], war_cards);
            return;
        }
    }
}

/// Plays one round: both sides show their top card and the higher takes
/// both, or a war settles a tie. `war_count` counts the ties.
pub fn round(game: &mut Game, war_count: &mut usize)
    requires
        old(game).hands@.len() == 2,
        old(game).hands@[0]@.len() > 0,
        old(game).hands@[1]@.len() > 0,
        *old(war_count) < usize::MAX,
    ensures
        final(game).hands@.len() == 2,
        final(game).deck == old(game).deck,
        (final(game).hands@[0]@, final(game).hands@[1]@) == round_outcome(
            old(game).hands@[0]@,
            old(game).hands@[1]@,
        ),
        *final(war_count) == *old(war_count) + if ties(
            old(game).hands@[0]@[0],
            old(game).hands@[1]@[0],
        ) {
            1int
        } else {
            0int
        },
        cards_of(final(game).hands@[0]@, final(game).hands@[1]@) == cards_of(
            old(game).hands@[0]@,
            old(game).hands@[1]@,
        ),
        distinct_cards(old(game).hands@[0]@, old(game).hands@[1]@) ==> distinct_cards(
            final(game).hands@[0]@,
            final(game).hands@[1]@,
        ),
{
    let ghost h0 = game.hands@[0]@;
    let ghost h1 = game.hands@[1]@;
    proof {
        lemma_round_keeps_cards(h0, h1);
        if distinct_cards(h0, h1) {
            lemma_round_keeps_distinct(h0, h1);
        }
    }
    let card0 = take_top(&mut game.hands[0]);
    let card1 = take_top(&mut game.hands[1]);
    if card0.cmp_value() == card1.cmp_value() {
        *war_count = *war_count + 1;
        let mut pile: Vec<Card> = Vec::new();
        pile.push(card0);
        pile.push(card1);
        proof {
            assert(pile@ =~= seq![card0, card1]);
        }
        war(game, &mut pile);
    } else if card0 > card1 {
        game.hands[0].take(card0);
        game.hands[0].take(card1);
    } else {
        game.hands[1].take(card1);
        game.hands[1].take(card0);
    }
}

/// The side that wins a finished game: the one with more cards, the second
/// on a tie.
pub open spec fn winner_of(h0: Seq<Card>, h1: Seq<Card>) -> int {
    if h0.len() > h1.len() {
        0
    } else {
        1
    }
}

/// Plays rounds until a hand is empty, or until the round count reaches
/// `usize::MAX`. Returns the winning side, the size of its hand, the rounds
/// played and the wars fought.
pub fn play(game: &mut Game) -> (r: (usize, usize, usize, usize))
    requires
        old(game).hands@.len() == 2,
    ensures
        final(game).hands@.len() == 2,
        final(game).deck == old(game).deck,
        ({
            let (h0, h1, wars) = after_rounds(old(game).hands@[0]@, old(game).hands@[1]@, r.2 as nat);
            &&& final(game).hands@[0]@ == h0
            &&& final(game).hands@[1]@ == h1
            &&& r.3 == wars
        }),
        forall|k: nat|
            k < r.2 ==> (#[trigger] after_rounds(old(game).hands@[0]@, old(game).hands@[1]@, k)).0.len()
                > 0 && after_rounds(old(game).hands@[0]@, old(game).hands@[1]@, k).1.len() > 0,
        r.2 < usize::MAX ==> final(game).hands@[0]@.len() == 0 || final(game).hands@[1]@.len() == 0,
        r.3 <= r.2,
        r.0 == winner_of(final(game).hands@[0]@, final(game).hands@[1]@),
        r.1 == final(game).hands@[r.0 as int]@.len(),
        cards_of(final(game).hands@[0]@, final(game).hands@[1]@) == cards_of(
            old(game).hands@[0]@,
            old(game).hands@[1]@,
        ),
        distinct_cards(old(game).hands@[0]@, old(game).hands@[1]@) ==> distinct_cards(
            final(game).hands@[0]@,
            final(game).hands@[1]@,
        ),
{
    let ghost h0 = game.hands@[0]@;
    let ghost h1 = game.hands@[1]@;
    let mut rounds: usize = 0;
    let mut war_count: usize = 0;
    while rounds < usize::MAX && !game.has_empty_hand()
        invariant
            game.hands@.len() == 2,
            game.deck == old(game).deck,
            h0 == old(game).hands@[0]@,
            h1 == old(game).hands@[1]@,
            war_count <= rounds,
            after_rounds(h0, h1, rounds as nat) == (game.hands@[0]@, game.hands@[1]@, war_count as nat),
            forall|k: nat|
                k < rounds ==> (#[trigger] after_rounds(h0, h1, k)).0.len() > 0 && after_rounds(
                    h0,
                    h1,
                    k,
                ).1.len() > 0,
            cards_of(game.hands@[0]@, game.hands@[1]@) == cards_of(h0, h1),
            distinct_cards(h0, h1) ==> distinct_cards(game.hands@[0]@, game.hands@[1]@),
        decreases usize::MAX - rounds,
    {
        let ghost a = game.hands@[0]@;
        let ghost b = game.hands@[1]@;
        proof {
            assert(a.len() > 0 && b.len() > 0) by {
                if a.len() == 0 {
                    assert(game.hands@[0]@.len() == 0);
                }
                if b.len() == 0 {
                    assert(game.hands@[1]@.len() == 0);
                }
            }
            lemma_round_keeps_cards(a, b);
            if distinct_cards(h0, h1) {
                lemma_round_keeps_distinct(a, b);
            }
        }
        round(game, &mut war_count);
        rounds = rounds + 1;
        proof {
            assert(after_rounds(h0, h1, (rounds - 1) as nat) == (a, b, (war_count - (if ties(a[0], b[0]) { 1int } else { 0int })) as nat));
        }
    }
    let len0 = game.hands[0].len();
    let len1 = game.hands[1].len();
    if len0 > len1 {
        (0, len0, rounds, war_count)
    } else {
        (1, len1, rounds, war_count)
    }
}

/// Whether `r` is what `play` reports on two hands dealt `h0` and `h1`.
pub open spec fn played_from(h0: Seq<Card>, h1: Seq<Card>, r: (usize, usize, usize, usize)) -> bool {
    let (f0, f1, wars) = after_rounds(h0, h1, r.2 as nat);
    &&& r.3 == wars
    &&& r.0 == winner_of(f0, f1)
    &&& r.1 == if r.0 == 0 {
        f0.len()
    } else {
        f1.len()
    }
    &&& (r.2 < usize::MAX ==> f0.len() == 0 || f1.len() == 0)
    &&& forall|k: nat|
        k < r.2 ==> (#[trigger] after_rounds(h0, h1, k)).0.len() > 0 && after_rounds(h0, h1, k).1.len()
            > 0
}

/// Deals a shuffled deck into two hands of 26 cards and plays War to the
/// end. Returns the winning side, the size of its hand, the rounds played
/// and the wars fought; a game that ends before `usize::MAX` rounds leaves
/// the winner with all 52 cards.
pub fn play_game() -> (r: (usize, usize, usize, usize))
    ensures
        exists|h0: Seq<Card>, h1: Seq<Card>|
            h0.len() == 26 && h1.len() == 26 && (h0 + h1).to_multiset() == standard_deck().to_multiset()
                && #[trigger] played_from(h0, h1, r),
        r.0 < 2,
        0 < r.2,
        r.3 <= r.2,
        26 <= r.1 <= 52,
        r.2 < usize::MAX ==> r.1 == 52,
{
    match Game::new(2, 26) {
        Ok(mut game) => {
            let ghost hs = game.hands@;
            proof {
                let first = hs.drop_last();
                assert(first.drop_last() =~= Seq::<Hand>::empty());
                assert(first.last() == hs[0]);
                assert(hands_cards(first.drop_last()) =~= Seq::<Card>::empty());
                assert(hands_cards(first) =~= hs[0]@);
                assert(hands_cards(hs) == hands_cards(first) + hs[1]@);
                assert(game.deck@.len() == 0);
                assert(hands_cards(hs) + game.deck@ =~= hs[0]@ + hs[1]@);
                lemma_multiset_len_facts(hs[0]@, hs[1]@);
            }
            let r = play(&mut game);
            proof {
                if r.2 == 0 {
                    assert(after_rounds(hs[0]@, hs[1]@, 0) == (hs[0]@, hs[1]@, 0nat));
                }
                lemma_multiset_len_facts(game.hands@[0]@, game.hands@[1]@);
                assert(played_from(hs[0]@, hs[1]@, r));
                assert(hs[0]@.len() == 26 && hs[1]@.len() == 26);
            }
            r
        },
        Err(_) => (0, 0, usize::MAX, 0),
    }
}

/// The number of cards of two hands, counted with repetition.
proof fn lemma_multiset_len_facts(h0: Seq<Card>, h1: Seq<Card>)
    ensures
        cards_of(h0, h1).len() == h0.len() + h1.len(),
        (h0 + h1).to_multiset() == cards_of(h0, h1),
{
    broadcast use vstd::seq_lib::lemma_multiset_commutative;

}

} // verus!
