//! The game of Go Fish: the river to draw from, the players, and the moves
//! of a turn.

use vstd::prelude::*;
use vstd::multiset::Multiset;
use rand::rngs::StdRng;
use crate::card::{Card, Value};
use crate::deal::{Deal, DealError, DealResult, Give, Take};
use crate::pile::{Cards, Deck, Hand, list_text, standard_deck};
use crate::player::{
    Player,
    PlayerType,
    decimal,
    decimal_string,
    discarded,
    holds_value,
    count_value,
    lemma_discard_keeps_cards,
    lemma_unpaired_count,
    matches_upto,
    numbered_name,
    unpaired,
};
use crate::shuffle::random_below;

verus! {

broadcast use vstd::seq_lib::group_to_multiset_ensures, vstd::multiset::group_multiset_axioms,
    vstd::seq_lib::lemma_multiset_commutative;

/// Whose turn it is (`current`) and whom they ask (`next`), among `count`
/// players seated in a circle.
pub struct PlayerIndex {
    pub current: usize,
    pub next: usize,
    pub count: usize,
}

impl PlayerIndex {
    /// The first player asks the second.
    pub fn new(count: usize) -> (r: PlayerIndex)
        ensures
            r.current == 0,
            r.next == 1,
            r.count == count,
    {
        PlayerIndex { current: 0, next: 1, count }
    }

    /// Passes the turn to the player who was asked.
    pub fn increment(&mut self)
        requires
            old(self).count > 0,
            old(self).next < usize::MAX,
        ensures
            final(self).current == old(self).next,
            final(self).next == (old(self).next + 1) % (old(self).count as int),
            final(self).count == old(self).count,
    {
        self.current = self.next;
        self.next = (self.next + 1) % self.count;
    }
}

/// How many players a game for `n_players` seats: never fewer than one, as
/// the human always plays.
pub open spec fn seat_count(n_players: int) -> int {
    if n_players == 0 {
        1
    } else {
        n_players
    }
}

/// The name of the player in seat `i`.
pub open spec fn seat_name(i: int) -> Seq<char> {
    if i == 0 {
        "Human0"@
    } else {
        "Computer"@ + decimal(i as nat)
    }
}

/// Who plays in seat `i`.
pub open spec fn seat_type(i: int) -> PlayerType {
    if i == 0 {
        PlayerType::Human
    } else {
        PlayerType::Computer
    }
}

/// The player in seat `i` after the first deal from a river holding `river`:
/// five cards from the river's top, dealt seat after seat, with their pairs
/// discarded.
pub open spec fn dealt_player(p: Player, river: Seq<Card>, i: int) -> bool {
    let five = river.subrange(5 * i, 5 * i + 5);
    &&& p.name@ == seat_name(i)
    &&& p.player_type == seat_type(i)
    &&& p.hand@ == unpaired(five)
    &&& p.paired@ == discarded(five)
}

/// A player fresh from the first deal, as seen without the river: seated at
/// `i` with that seat's name and kind, holding five cards between hand and
/// paired pile, and no value twice in hand.
pub open spec fn fresh_player(p: Player, i: int) -> bool {
    &&& p.name@ == seat_name(i)
    &&& p.player_type == seat_type(i)
    &&& p.hand@.len() + p.paired@.len() == 5
    &&& forall|v: Value| #[trigger] count_value(p.hand@, v) <= 1
}

/// A player dealt five cards from the river is a fresh player.
proof fn lemma_dealt_fresh(p: Player, river: Seq<Card>, i: int)
    requires
        0 <= i,
        5 * i + 5 <= river.len(),
        dealt_player(p, river, i),
    ensures
        fresh_player(p, i),
{
    let five = river.subrange(5 * i, 5 * i + 5);
    lemma_discard_keeps_cards(five);
    assert(unpaired(five).to_multiset().add(discarded(five).to_multiset()).len() == 5);
    assert forall|v: Value| #[trigger] count_value(p.hand@, v) <= 1 by {
        lemma_unpaired_count(five, v);
    }
}

/// Whether position `i` holds the first card of value `v` in `s`.
pub open spec fn first_with_value(s: Seq<Card>, v: Value, i: int) -> bool {
    &&& 0 <= i < s.len()
    &&& s[i].value == v
    &&& forall|j: int| 0 <= j < i ==> (#[trigger] s[j]).value != v
}

/// The position of the first card of value `v` in `s`, when there is one.
pub open spec fn lowest_match(s: Seq<Card>, v: Value) -> int {
    choose|i: int| first_with_value(s, v, i)
}

/// A player who takes `card` into the hand and then discards pairs.
pub open spec fn after_catch(before: Player, card: Card, after: Player) -> bool {
    &&& after.name == before.name
    &&& after.player_type == before.player_type
    &&& after.hand@ == unpaired(before.hand@.push(card))
    &&& after.paired@ == before.paired@ + discarded(before.hand@.push(card))
}

/// The cards a player holds, in hand and in the paired pile.
pub open spec fn player_cards(p: Player) -> Multiset<Card> {
    p.hand@.to_multiset().add(p.paired@.to_multiset())
}

/// All cards on the table: the river's and every player's.
pub open spec fn table_cards(river: Seq<Card>, ps: Seq<Player>) -> Multiset<Card>
    decreases ps.len(),
{
    if ps.len() == 0 {
        river.to_multiset()
    } else {
        table_cards(river, ps.drop_last()).add(player_cards(ps.last()))
    }
}

/// Replacing one player changes the table by that player's cards.
proof fn lemma_table_update(river: Seq<Card>, ps: Seq<Player>, i: int, p: Player)
    requires
        0 <= i < ps.len(),
    ensures
        table_cards(river, ps.update(i, p)).add(player_cards(ps[i])) =~= table_cards(river, ps).add(
            player_cards(p),
        ),
    decreases ps.len(),
{
    let qs = ps.update(i, p);
    assert(table_cards(river, qs) == table_cards(river, qs.drop_last()).add(player_cards(qs.last())));
    assert(table_cards(river, ps) == table_cards(river, ps.drop_last()).add(player_cards(ps.last())));
    if i == ps.len() - 1 {
        assert(qs.drop_last() =~= ps.drop_last());
        assert(qs.last() == p);
    } else {
        let ds = ps.drop_last();
        assert(qs.drop_last() =~= ds.update(i, p));
        assert(qs.last() == ps.last());
        lemma_table_update(river, ds, i, p);
        let a = table_cards(river, ds.update(i, p));
        let b = table_cards(river, ds);
        assert forall|c: Card| #[trigger] a.count(c) + player_cards(ps[i]).count(c) == b.count(c)
            + player_cards(p).count(c) by {
            assert(a.add(player_cards(ds[i])).count(c) == b.add(player_cards(p)).count(c));
        }
    }
}

/// Replacing the river changes the table by the river's cards.
proof fn lemma_table_river(r1: Seq<Card>, r2: Seq<Card>, ps: Seq<Player>)
    ensures
        table_cards(r2, ps).add(r1.to_multiset()) =~= table_cards(r1, ps).add(r2.to_multiset()),
    decreases ps.len(),
{
    if ps.len() > 0 {
        assert(table_cards(r1, ps) == table_cards(r1, ps.drop_last()).add(player_cards(ps.last())));
        assert(table_cards(r2, ps) == table_cards(r2, ps.drop_last()).add(player_cards(ps.last())));
        let ds = ps.drop_last();
        lemma_table_river(r1, r2, ds);
        let a = table_cards(r2, ds);
        let b = table_cards(r1, ds);
        assert forall|c: Card| #[trigger] a.count(c) + r1.to_multiset().count(c) == b.count(c)
            + r2.to_multiset().count(c) by {
            assert(a.add(r1.to_multiset()).count(c) == b.add(r2.to_multiset()).count(c));
        }
    }
}

/// A player who catches a card holds that card more than before.
pub proof fn lemma_catch_adds_card(before: Player, card: Card, after: Player)
    requires
        after_catch(before, card, after),
    ensures
        player_cards(after) == player_cards(before).insert(card),
{
    let h = before.hand@.push(card);
    lemma_discard_keeps_cards(h);
    assert(h.to_multiset() == before.hand@.to_multiset().insert(card));
    assert(after.paired@.to_multiset() == (before.paired@ + discarded(h)).to_multiset());
    assert((before.paired@ + discarded(h)).to_multiset() == before.paired@.to_multiset().add(
        discarded(h).to_multiset(),
    ));
    let u = unpaired(h).to_multiset();
    let d = discarded(h).to_multiset();
    assert forall|c: Card| #[trigger] player_cards(after).count(c) == player_cards(before).insert(card).count(c) by {
        assert(u.add(d).count(c) == h.to_multiset().count(c));
    }
    assert(player_cards(after) =~= player_cards(before).insert(card));
}

/// The five cards dealt to seat `i`.
pub open spec fn five_of(river: Seq<Card>, i: int) -> Seq<Card> {
    river.subrange(5 * i, 5 * i + 5)
}

/// After the first deal the table holds exactly the cards the river held.
proof fn lemma_dealt_table(river: Seq<Card>, ps: Seq<Player>, n: int)
    requires
        0 <= n,
        ps.len() == n,
        5 * n <= river.len(),
        forall|i: int|
            0 <= i < n ==> (#[trigger] ps[i]).hand@ == unpaired(five_of(river, i)) && ps[i].paired@
                == discarded(five_of(river, i)),
    ensures
        table_cards(river.skip(5 * n), ps) == river.to_multiset(),
    decreases n,
{
    if n == 0 {
        assert(river.skip(0) =~= river);
    } else {
        let ds = ps.drop_last();
        let f = five_of(river, n - 1);
        let lo = river.skip(5 * (n - 1));
        let hi = river.skip(5 * n);
        assert forall|i: int|
            0 <= i < n - 1 implies (#[trigger] ds[i]).hand@ == unpaired(five_of(river, i)) && ds[i].paired@
                == discarded(five_of(river, i)) by {
            assert(ds[i] == ps[i]);
        }
        lemma_dealt_table(river, ds, n - 1);
        lemma_table_river(lo, hi, ds);
        lemma_discard_keeps_cards(f);
        assert(lo =~= f + hi);
        assert(ps.last() == ps[n - 1]);
        let t = table_cards(hi, ds);
        assert forall|x: Card| #[trigger] table_cards(hi, ps).count(x) == river.to_multiset().count(x) by {
            assert(t.add(lo.to_multiset()).count(x) == table_cards(lo, ds).add(hi.to_multiset()).count(x));
            assert((f + hi).to_multiset().count(x) == f.to_multiset().count(x) + hi.to_multiset().count(x));
            assert(unpaired(f).to_multiset().add(discarded(f).to_multiset()).count(x) == f.to_multiset().count(
                x,
            ));
        }
        assert(table_cards(hi, ps) =~= river.to_multiset());
    }
}

/// The first entry of the matches of `v` among the first `n` cards of `s`
/// is the first card of that value.
proof fn lemma_first_match(s: Seq<Card>, v: Value, n: int)
    requires
        0 <= n <= s.len(),
        s.len() <= usize::MAX,
    ensures
        matches_upto(s, v, n).len() == 0 <==> forall|j: int| 0 <= j < n ==> (#[trigger] s[j]).value != v,
        matches_upto(s, v, n).len() > 0 ==> {
            let (i, c) = matches_upto(s, v, n)[0];
            &&& i < n
            &&& first_with_value(s, v, i as int)
            &&& c == s[i as int]
        },
    decreases n,
{
    if n > 0 {
        lemma_first_match(s, v, n - 1);
        if matches_upto(s, v, n - 1).len() > 0 {
            assert(matches_upto(s, v, n)[0] == matches_upto(s, v, n - 1)[0]);
        }
    }
}

/// The first card of a value is the only one before which no card has it.
proof fn lemma_lowest_match(s: Seq<Card>, v: Value, i: int)
    requires
        first_with_value(s, v, i),
    ensures
        lowest_match(s, v) == i,
{
    let k = lowest_match(s, v);
    assert(first_with_value(s, v, k));
    if k < i {
        assert(s[k].value != v);
    } else if i < k {
        assert(s[i].value != v);
    }
}

/// Picks the value a computer player asks for: that of a card drawn at
/// random from its hand.
pub fn computer_ask_value(player: &Player, rng: &mut StdRng) -> (v: Value)
    requires
        player.hand@.len() > 0,
    ensures
        holds_value(player.hand@, v),
{
    let cards = player.hand.cards().into_vec();
    let k = random_below(rng, cards.len());
    let v = cards[k].value;
    proof {
        assert(player.hand@[k as int].value == v);
    }
    v
}

/// Picks the river position a computer player draws from, at random.
pub fn computer_ask_index(limit: usize, rng: &mut StdRng) -> (i: usize)
    requires
        limit > 0,
    ensures
        i < limit,
{
    random_below(rng, limit)
}

/// A game of Go Fish.
#[derive(Debug)]
pub struct FishGame {
    pub river: Deck,
    pub players: Vec<Player>,
}

impl FishGame {
    /// Seats a human and `n_players - 1` computers (at least the human)
    /// around a shuffled river and deals to them.
    pub fn new(n_players: usize) -> (r: DealResult<FishGame>)
        ensures
            r is Ok <==> 5 * seat_count(n_players as int) <= 52,
            r is Err ==> r->Err_0 == DealError::NothingToGive,
            r is Ok ==> r->Ok_0.players@.len() == seat_count(n_players as int),
            r is Ok ==> r->Ok_0.river@.len() == 52 - 5 * seat_count(n_players as int),
            r is Ok ==> table_cards(r->Ok_0.river@, r->Ok_0.players@) == standard_deck().to_multiset(),
            r is Ok ==> forall|i: int|
                0 <= i < seat_count(n_players as int) ==> fresh_player(#[trigger] r->Ok_0.players@[i], i),
            r is Ok ==> exists|d: Seq<Card>|
                d.len() == 52 && d.to_multiset() == standard_deck().to_multiset() && r->Ok_0.river@ == d.skip(
                    5 * seat_count(n_players as int),
                ) && forall|i: int|
                    0 <= i < seat_count(n_players as int) ==> dealt_player(
                        #[trigger] r->Ok_0.players@[i],
                        d,
                        i,
                    ),
    {
        let river = Deck::new();
        let r = FishGame::with_river(n_players, river);
        proof {
            if r is Ok {
                let g = r->Ok_0;
                let n = seat_count(n_players as int);
                assert forall|i: int| 0 <= i < n implies fresh_player(#[trigger] g.players@[i], i) by {
                    lemma_dealt_fresh(g.players@[i], river@, i);
                }
            }
        }
        r
    }

    /// Seats a human and `n_players - 1` computers (at least the human)
    /// around `river` and deals to them: each in turn takes five cards from
    /// the river's top and discards pairs. Fails when the river runs out.
    pub fn with_river(n_players: usize, river: Deck) -> (r: DealResult<FishGame>)
        ensures
            r is Ok <==> 5 * seat_count(n_players as int) <= river@.len(),
            r is Err ==> r->Err_0 == DealError::NothingToGive,
            r is Ok ==> {
                let g = r->Ok_0;
                let n = seat_count(n_players as int);
                &&& g.players@.len() == n
                &&& forall|i: int| 0 <= i < n ==> dealt_player(#[trigger] g.players@[i], river@, i)
                &&& g.river@ == river@.skip(5 * n)
                &&& table_cards(g.river@, g.players@) == river@.to_multiset()
            },
    {
        let mut players: Vec<Player> = Vec::new();
        players.push(Player::new("Human0", PlayerType::Human));
        let mut n: usize = 1;
        while n < n_players
            invariant
                1 <= n,
                n_players > 0 ==> n <= n_players,
                n_players == 0 ==> n == 1,
                players@.len() == n,
                forall|i: int|
                    0 <= i < n ==> {
                        let p = #[trigger] players@[i];
                        &&& p.name@ == seat_name(i)
                        &&& p.player_type == seat_type(i)
                        &&& p.hand@.len() == 0
                        &&& p.paired@.len() == 0
                    },
            decreases n_players - n,
        {
            let name = numbered_name("Computer", n);
            players.push(Player { name, hand: Hand::new(), paired: Hand::new(), player_type: PlayerType::Computer });
            n = n + 1;
        }
        let ghost seated = players@;
        assert(seated.len() == seat_count(n_players as int));
        let game = FishGame { river, players };
        let r = game.first_deal();
        proof {
            assert(game.river@ == river@);
            assert(game.players@ == seated);
            if r is Ok {
                let g = r->Ok_0;
                assert forall|i: int| 0 <= i < seated.len() implies dealt_player(
                    #[trigger] g.players@[i],
                    river@,
                    i,
                ) by {
                    assert(seated[i] == game.players@[i]);
                }
                lemma_dealt_table(river@, g.players@, seated.len() as int);
            }
        }
        r
    }

    /// Deals five cards from the river's top to each player in turn, each
    /// discarding pairs after the fifth.
    fn first_deal(self) -> (r: DealResult<FishGame>)
        requires
            forall|i: int|
                0 <= i < self.players@.len() ==> (#[trigger] self.players@[i]).hand@.len() == 0
                    && self.players@[i].paired@.len() == 0,
        ensures
            r is Ok <==> 5 * self.players@.len() <= self.river@.len(),
            r is Err ==> r->Err_0 == DealError::NothingToGive,
            r is Ok ==> {
                let g = r->Ok_0;
                &&& g.players@.len() == self.players@.len()
                &&& forall|i: int|
                    0 <= i < self.players@.len() ==> {
                        let p = #[trigger] g.players@[i];
                        let five = self.river@.subrange(5 * i, 5 * i + 5);
                        &&& p.name == self.players@[i].name
                        &&& p.player_type == self.players@[i].player_type
                        &&& p.hand@ == unpaired(five)
                        &&& p.paired@ == discarded(five)
                    }
                &&& g.river@ == self.river@.skip(5 * self.players@.len() as int)
            },
    {
        let ghost r0 = self.river@;
        let ghost ps0 = self.players@;
        let mut game = self;
        let count = game.players.len();
        let mut i: usize = 0;
        while i < count
            invariant
                r0 == self.river@,
                ps0 == self.players@,
                count == ps0.len(),
                game.players@.len() == count,
                i <= count,
                5 * i <= r0.len(),
                game.river@ == r0.skip(5 * i),
                forall|k: int|
                    0 <= k < i ==> {
                        let p = #[trigger] game.players@[k];
                        let five = r0.subrange(5 * k, 5 * k + 5);
                        &&& p.name == ps0[k].name
                        &&& p.player_type == ps0[k].player_type
                        &&& p.hand@ == unpaired(five)
                        &&& p.paired@ == discarded(five)
                    },
                forall|k: int| i <= k < count ==> #[trigger] game.players@[k] == ps0[k],
                forall|k: int|
                    0 <= k < count ==> (#[trigger] ps0[k]).hand@.len() == 0 && ps0[k].paired@.len() == 0,
            decreases count - i,
        {
            let mut j: usize = 0;
            while j < 5
                invariant
                    r0 == self.river@,
                    ps0 == self.players@,
                    count == ps0.len(),
                    game.players@.len() == count,
                    i < count,
                    j <= 5,
                    5 * i + j <= r0.len(),
                    game.river@ == r0.skip(5 * i + j),
                    game.players@[i as int].hand@ == r0.subrange(5 * i, 5 * i + j),
                    game.players@[i as int].paired == ps0[i as int].paired,
                    game.players@[i as int].name == ps0[i as int].name,
                    game.players@[i as int].player_type == ps0[i as int].player_type,
                    forall|k: int|
                        0 <= k < i ==> {
                            let p = #[trigger] game.players@[k];
                            let five = r0.subrange(5 * k, 5 * k + 5);
                            &&& p.name == ps0[k].name
                            &&& p.player_type == ps0[k].player_type
                            &&& p.hand@ == unpaired(five)
                            &&& p.paired@ == discarded(five)
                        },
                    forall|k: int| i < k < count ==> #[trigger] game.players@[k] == ps0[k],
                    forall|k: int|
                        0 <= k < count ==> (#[trigger] ps0[k]).hand@.len() == 0 && ps0[k].paired@.len() == 0,
                decreases 5 - j,
            {
                match game.river.deal(0, &mut game.players[i].hand) {
                    Ok(()) => {},
                    Err(e) => {
                        proof {
                            assert(game.river@.len() == 0);
                        }
                        return Err(e);
                    },
                }
                j = j + 1;
                proof {
                    assert(game.river@ =~= r0.skip(5 * i + j));
                    assert(game.players@[i as int].hand@ =~= r0.subrange(5 * i, 5 * i + j));
                }
            }
            let _ = game.players[i].discard_pairs();
            proof {
                assert(ps0[i as int].paired@ + discarded(r0.subrange(5 * i, 5 * i + 5)) =~= discarded(
                    r0.subrange(5 * i, 5 * i + 5),
                ));
            }
            i = i + 1;
        }
        Ok(game)
    }

    /// Whether some player holds no card.
    pub fn has_empty_hand(&self) -> (r: bool)
        ensures
            r == exists|i: int|
                0 <= i < self.players@.len() && (#[trigger] self.players@[i]).hand@.len() == 0,
    {
        let mut i: usize = 0;
        while i < self.players.len()
            invariant
                i <= self.players@.len(),
                forall|k: int| 0 <= k < i ==> (#[trigger] self.players@[k]).hand@.len() != 0,
            decreases self.players@.len() - i,
        {
            if self.players[i].hand.is_empty() {
                return true;
            }
            i = i + 1;
        }
        false
    }

    /// The current player asks the next for a value. If the next player
    /// holds it, the first such card in their hand moves to the current
    /// player, who then discards pairs, and the card is returned. Otherwise
    /// nothing changes and the current player must go fishing.
    pub fn ask(&mut self, index: &PlayerIndex, value: Value) -> (r: Option<Card>)
        requires
            index.current < old(self).players@.len(),
            index.next < old(self).players@.len(),
            index.current != index.next,
        ensures
            ({
                let s = old(self).players@[index.next as int].hand@;
                if holds_value(s, value) {
                    let i = lowest_match(s, value);
                    let giver = final(self).players@[index.next as int];
                    &&& r == Some(s[i])
                    &&& final(self).river == old(self).river
                    &&& final(self).players@.len() == old(self).players@.len()
                    &&& giver.hand@ == s.remove(i)
                    &&& giver.name == old(self).players@[index.next as int].name
                    &&& giver.paired == old(self).players@[index.next as int].paired
                    &&& giver.player_type == old(self).players@[index.next as int].player_type
                    &&& after_catch(
                        old(self).players@[index.current as int],
                        s[i],
                        final(self).players@[index.current as int],
                    )
                    &&& forall|k: int|
                        0 <= k < old(self).players@.len() && k != index.current && k != index.next
                            ==> #[trigger] final(self).players@[k] == old(self).players@[k]
                } else {
                    r is None && *final(self) == *old(self)
                }
            }),
            table_cards(final(self).river@, final(self).players@) == table_cards(
                old(self).river@,
                old(self).players@,
            ),
    {
        let ghost s = self.players@[index.next as int].hand@;
        let ghost ps = self.players@;
        let ghost rv = self.river@;
        let n = self.players[index.next].hand.len();
        let matches = self.players[index.next].match_cards_from_value(value);
        proof {
            lemma_first_match(s, value, n as int);
            assert(s.take(n as int) =~= s);
        }
        if matches.len() == 0 {
            proof {
                if holds_value(s, value) {
                    let j = choose|j: int| 0 <= j < s.len() && (#[trigger] s[j]).value == value;
                    assert(s[j].value != value);
                }
            }
            return None;
        }
        let (i, _) = matches[0];
        proof {
            lemma_lowest_match(s, value, i as int);
        }
        let card = match self.players[index.next].give(i) {
            Ok(c) => c,
            Err(_) => {
                return None;
            },
        };
        self.players[index.current].take(card);
        let _ = self.players[index.current].discard_pairs();
        proof {
            let n = index.next as int;
            let c = index.current as int;
            let pn = self.players@[n];
            let pc = self.players@[c];
            let ps1 = ps.update(n, pn);
            assert(self.players@ =~= ps1.update(c, pc));
            lemma_table_update(rv, ps, n, pn);
            lemma_table_update(rv, ps1, c, pc);
            lemma_catch_adds_card(ps[c], card, pc);
            assert(s.remove(i as int).to_multiset() == s.to_multiset().remove(card));
            assert(s.to_multiset().count(card) > 0) by {
                assert(s.contains(card));
            }
            let t = table_cards(rv, ps);
            let t1 = table_cards(rv, ps1);
            let t2 = table_cards(rv, self.players@);
            assert forall|x: Card| #[trigger] t2.count(x) == t.count(x) by {
                assert(t1.add(player_cards(ps[n])).count(x) == t.add(player_cards(pn)).count(x));
                assert(t2.add(player_cards(ps1[c])).count(x) == t1.add(player_cards(pc)).count(x));
                assert(player_cards(pc).count(x) == player_cards(ps[c]).insert(card).count(x));
                assert(player_cards(pn).count(x) == s.to_multiset().remove(card).count(x)
                    + ps[n].paired@.to_multiset().count(x));
                assert(player_cards(ps[n]).count(x) == s.to_multiset().count(x) + ps[n].paired@.to_multiset().count(x));
            }
            assert(t2 =~= t);
        }
        Some(card)
    }

    /// The current player draws the card at `river_index` from the river
    /// and then discards pairs. Fails, changing nothing, when the river is
    /// empty or the position is past its end.
    pub fn go_fish(&mut self, index: &PlayerIndex, river_index: usize) -> (r: DealResult<Card>)
        requires
            index.current < old(self).players@.len(),
        ensures
            ({
                let rv = old(self).river@;
                if rv.len() == 0 || river_index >= rv.len() {
                    &&& r == Err::<Card, DealError>(
                        if rv.len() == 0 {
                            DealError::NothingToGive
                        } else {
                            DealError::OutOfBounds
                        },
                    )
                    &&& final(self).river@ == rv
                    &&& final(self).players == old(self).players
                } else {
                    &&& r == Ok::<Card, DealError>(rv[river_index as int])
                    &&& final(self).river@ == rv.remove(river_index as int)
                    &&& final(self).players@.len() == old(self).players@.len()
                    &&& after_catch(
                        old(self).players@[index.current as int],
                        rv[river_index as int],
                        final(self).players@[index.current as int],
                    )
                    &&& forall|k: int|
                        0 <= k < old(self).players@.len() && k != index.current
                            ==> #[trigger] final(self).players@[k] == old(self).players@[k]
                }
            }),
            table_cards(final(self).river@, final(self).players@) == table_cards(
                old(self).river@,
                old(self).players@,
            ),
    {
        let ghost ps = self.players@;
        let ghost rv = self.river@;
        match self.river.give(river_index) {
            Ok(card) => {
                self.players[index.current].take(card);
                let _ = self.players[index.current].discard_pairs();
                proof {
                    let c = index.current as int;
                    let pc = self.players@[c];
                    let rv2 = self.river@;
                    assert(self.players@ =~= ps.update(c, pc));
                    lemma_table_update(rv, ps, c, pc);
                    lemma_table_river(rv, rv2, self.players@);
                    lemma_catch_adds_card(ps[c], card, pc);
                    assert(rv2.to_multiset() == rv.to_multiset().remove(card));
                    assert(rv.to_multiset().count(card) > 0) by {
                        assert(rv.contains(card));
                    }
                    let t = table_cards(rv, ps);
                    let t1 = table_cards(rv, self.players@);
                    let t2 = table_cards(rv2, self.players@);
                    assert forall|x: Card| #[trigger] t2.count(x) == t.count(x) by {
                        assert(t1.add(player_cards(ps[c])).count(x) == t.add(player_cards(pc)).count(x));
                        assert(t2.add(rv.to_multiset()).count(x) == t1.add(rv2.to_multiset()).count(x));
                        assert(player_cards(pc).count(x) == player_cards(ps[c]).insert(card).count(x));
                    }
                    assert(t2 =~= t);
                }
                Ok(card)
            },
            Err(e) => Err(e),
        }
    }

    /// The player with the most paired cards, the earliest seated on a tie;
    /// none when nobody plays.
    pub fn winner(&self) -> (r: Option<usize>)
        ensures
            r is None <==> self.players@.len() == 0,
            r is Some ==> {
                let w = r->Some_0 as int;
                &&& w < self.players@.len()
                &&& forall|k: int|
                    0 <= k < self.players@.len() ==> (#[trigger] self.players@[k]).paired@.len()
                        <= self.players@[w].paired@.len()
                &&& forall|k: int|
                    0 <= k < w ==> (#[trigger] self.players@[k]).paired@.len()
                        < self.players@[w].paired@.len()
            },
    {
        if self.players.len() == 0 {
            return None;
        }
        let mut best: usize = 0;
        let mut i: usize = 1;
        while i < self.players.len()
            invariant
                1 <= i <= self.players@.len(),
                best < i,
                forall|k: int|
                    0 <= k < i ==> (#[trigger] self.players@[k]).paired@.len()
                        <= self.players@[best as int].paired@.len(),
                forall|k: int|
                    0 <= k < best ==> (#[trigger] self.players@[k]).paired@.len()
                        < self.players@[best as int].paired@.len(),
            decreases self.players@.len() - i,
        {
            if self.players[i].paired.len() > self.players[best].paired.len() {
                best = i;
            }
            i = i + 1;
        }
        Some(best)
    }

    /// The board shown before a turn: the size of the river, then each
    /// player's hand and paired pile, shown card by card for a human and
    /// only counted for a computer.
    pub fn board(&self) -> (r: String)
        ensures
            r@ == board_text(self.river@.len(), self.players@),
    {
        let mut s = String::from_str("River: [0-");
        let n = decimal_string(self.river.len());
        s.append(n.as_str());
        s.append("]\n\n");
        let mut i: usize = 0;
        while i < self.players.len()
            invariant
                i <= self.players@.len(),
                s@ == "River: [0-"@ + decimal(self.river@.len()) + "]\n\n"@ + players_text(
                    self.players@.take(i as int),
                ),
            decreases self.players@.len() - i,
        {
            let t = player_text_of(&self.players[i]);
            s.append(t.as_str());
            proof {
                assert(self.players@.take(i as int + 1).drop_last() =~= self.players@.take(i as int));
            }
            i = i + 1;
        }
        proof {
            assert(self.players@.take(self.players@.len() as int) =~= self.players@);
        }
        s
    }
}

/// How a player is shown on the board.
pub open spec fn player_text(p: Player) -> Seq<char> {
    match p.player_type {
        PlayerType::Human => p.name@ + ": "@ + list_text(p.hand@) + "\n"@ + "Paired: "@ + list_text(
            p.paired@,
        ) + "\n"@ + "\n"@,
        PlayerType::Computer => p.name@ + ": ["@ + decimal(p.hand@.len()) + "]\n"@ + "Paired: ["@
            + decimal(p.paired@.len()) + "]\n"@ + "\n"@,
    }
}

/// How the players are shown on the board, one after another.
pub open spec fn players_text(ps: Seq<Player>) -> Seq<char>
    decreases ps.len(),
{
    if ps.len() == 0 {
        Seq::empty()
    } else {
        players_text(ps.drop_last()) + player_text(ps.last())
    }
}

/// The board: the river's size, then the players.
pub open spec fn board_text(river_len: nat, ps: Seq<Player>) -> Seq<char> {
    "River: [0-"@ + decimal(river_len) + "]\n\n"@ + players_text(ps)
}

fn player_text_of(p: &Player) -> (r: String)
    ensures
        r@ == player_text(*p),
{
    let mut s = String::from_str(p.name.as_str());
    match p.player_type {
        PlayerType::Human => {
            s.append(": ");
            s.append(p.hand.to_string().as_str());
            s.append("\n");
            s.append("Paired: ");
            s.append(p.paired.to_string().as_str());
            s.append("\n");
            s.append("\n");
        },
        PlayerType::Computer => {
            s.append(": [");
            s.append(decimal_string(p.hand.len()).as_str());
            s.append("]\n");
            s.append("Paired: [");
            s.append(decimal_string(p.paired.len()).as_str());
            s.append("]\n");
            s.append("\n");
        },
    }
    s
}

} // verus!
