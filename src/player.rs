//! A Go Fish player: a hand, a pile of discarded pairs, and the rules that
//! look at them.

use vstd::prelude::*;
use crate::card::{Card, Value, number_value, rank};
use crate::deal::{DealError, DealResult, Give, Take};
use crate::pile::{Cards, Hand};

verus! {

/// How many cards of `s` have the face value `v`.
pub open spec fn count_value(s: Seq<Card>, v: Value) -> nat
    decreases s.len(),
{
    if s.len() == 0 {
        0
    } else {
        count_value(s.drop_last(), v) + if s.last().value == v {
            1nat
        } else {
            0nat
        }
    }
}

/// The largest even number not above `n`.
pub open spec fn even_part(n: nat) -> nat {
    (n - n % 2) as nat
}

/// Whether the card at position `i` of `s` goes to the paired pile: it is
/// among the first `even_part(c)` cards of its value, where `c` counts the
/// cards of that value.
pub open spec fn is_paired(s: Seq<Card>, i: int) -> bool {
    count_value(s.take(i), s[i].value) < even_part(count_value(s, s[i].value))
}

/// The cards of `s.take(n)` that stay in the hand, in order.
pub open spec fn kept_upto(s: Seq<Card>, n: int) -> Seq<Card>
    decreases n,
{
    if n <= 0 {
        Seq::empty()
    } else if is_paired(s, n - 1) {
        kept_upto(s, n - 1)
    } else {
        kept_upto(s, n - 1).push(s[n - 1])
    }
}

/// The cards of `s.take(n)` with value `v` that go to the paired pile, in order.
pub open spec fn pairs_of_value_upto(s: Seq<Card>, v: Value, n: int) -> Seq<Card>
    decreases n,
{
    if n <= 0 {
        Seq::empty()
    } else if s[n - 1].value == v && is_paired(s, n - 1) {
        pairs_of_value_upto(s, v, n - 1).push(s[n - 1])
    } else {
        pairs_of_value_upto(s, v, n - 1)
    }
}

/// The face value with rank `k + 2`: index 0 is the two, index 12 the ace.
pub open spec fn index_value(k: int) -> Value {
    if k == 12 {
        Value::Ace
    } else {
        number_value(k + 2)
    }
}

/// The cards of `s.take(n)` that go to the paired pile for the values of
/// index below `k`, value by value from the two upward.
pub open spec fn pairs_upto(s: Seq<Card>, k: int, n: int) -> Seq<Card>
    decreases k,
{
    if k <= 0 {
        Seq::empty()
    } else {
        pairs_upto(s, k - 1, n) + pairs_of_value_upto(s, index_value(k - 1), n)
    }
}

/// What stays in a hand `s` once its pairs are discarded: of each value, the
/// last card when the value occurs an odd number of times, else none.
pub open spec fn unpaired(s: Seq<Card>) -> Seq<Card> {
    kept_upto(s, s.len() as int)
}

/// What a hand `s` puts on the paired pile: of each value, from the two
/// upward, all its cards but the last of an odd count, in hand order.
pub open spec fn discarded(s: Seq<Card>) -> Seq<Card> {
    pairs_upto(s, 13, s.len() as int)
}

/// How many of the values of index below `k` occur in `s`.
pub open spec fn values_present_upto(s: Seq<Card>, k: int) -> nat
    decreases k,
{
    if k <= 0 {
        0
    } else {
        values_present_upto(s, k - 1) + if count_value(s, index_value(k - 1)) > 0 {
            1nat
        } else {
            0nat
        }
    }
}

/// The positions of `s.take(n)` whose card has the value `v`, each with its card.
pub open spec fn matches_upto(s: Seq<Card>, v: Value, n: int) -> Seq<(usize, Card)>
    decreases n,
{
    if n <= 0 {
        Seq::empty()
    } else if s[n - 1].value == v {
        matches_upto(s, v, n - 1).push(((n - 1) as usize, s[n - 1]))
    } else {
        matches_upto(s, v, n - 1)
    }
}

/// Whether some card of `s` has the value `v`.
pub open spec fn holds_value(s: Seq<Card>, v: Value) -> bool {
    exists|i: int| 0 <= i < s.len() && (#[trigger] s[i]).value == v
}

/// Index `j` names the value `v` exactly when `v` has rank `j + 2`.
proof fn lemma_index_value(v: Value, j: int)
    requires
        0 <= j < 13,
    ensures
        (v == index_value(j)) <==> rank(v) == j + 2,
{
}

/// Taking in one more position of the hand adds its card to the paired
/// cards of the values of index below `k` exactly when it is paired and its
/// value is among them.
proof fn lemma_pairs_step(s: Seq<Card>, k: int, n: int)
    requires
        0 <= n < s.len(),
        0 <= k <= 13,
    ensures
        pairs_upto(s, k, n + 1).to_multiset() =~= if is_paired(s, n) && rank(s[n].value) - 2 < k {
            pairs_upto(s, k, n).to_multiset().insert(s[n])
        } else {
            pairs_upto(s, k, n).to_multiset()
        },
    decreases k,
{
    broadcast use vstd::seq_lib::group_to_multiset_ensures, vstd::multiset::group_multiset_axioms,
        vstd::seq_lib::lemma_multiset_commutative;

    if k > 0 {
        lemma_pairs_step(s, k - 1, n);
        lemma_index_value(s[n].value, k - 1);
    }
}

/// The first `n` cards of a hand are split, with nothing made or lost,
/// between those that stay and those that go to the paired pile.
proof fn lemma_split_upto(s: Seq<Card>, n: int)
    requires
        0 <= n <= s.len(),
    ensures
        s.take(n).to_multiset() =~= kept_upto(s, n).to_multiset().add(pairs_upto(s, 13, n).to_multiset()),
    decreases n,
{
    broadcast use vstd::seq_lib::group_to_multiset_ensures, vstd::multiset::group_multiset_axioms,
        vstd::seq_lib::lemma_multiset_commutative;

    if n == 0 {
        assert(s.take(0) =~= Seq::<Card>::empty());
        lemma_pairs_empty(s, 13);
    } else {
        lemma_split_upto(s, n - 1);
        lemma_pairs_step(s, 13, n - 1);
        assert(s.take(n) =~= s.take(n - 1).push(s[n - 1]));
    }
}

/// Nothing goes to the paired pile from no cards.
proof fn lemma_pairs_empty(s: Seq<Card>, k: int)
    ensures
        pairs_upto(s, k, 0) =~= Seq::<Card>::empty(),
    decreases k,
{
    if k > 0 {
        lemma_pairs_empty(s, k - 1);
    }
}

/// Discarding pairs neither makes nor loses cards: what stays in the hand and
/// what goes to the paired pile are, together, the cards of the hand.
pub proof fn lemma_discard_keeps_cards(s: Seq<Card>)
    ensures
        unpaired(s).to_multiset().add(discarded(s).to_multiset()) == s.to_multiset(),
{
    lemma_split_upto(s, s.len() as int);
    assert(s.take(s.len() as int) =~= s);
}

/// Among the first `n` cards, those of value `v` that stay in the hand are
/// the ones past the first `even_part` of that value's count.
proof fn lemma_kept_count_upto(s: Seq<Card>, v: Value, n: int)
    requires
        0 <= n <= s.len(),
    ensures
        count_value(kept_upto(s, n), v) == if count_value(s.take(n), v) >= even_part(count_value(s, v)) {
            count_value(s.take(n), v) - even_part(count_value(s, v))
        } else {
            0
        },
    decreases n,
{
    if n == 0 {
        assert(s.take(0) =~= Seq::<Card>::empty());
    } else {
        lemma_kept_count_upto(s, v, n - 1);
        lemma_count_step(s, n - 1, v);
        let k = kept_upto(s, n - 1);
        if !is_paired(s, n - 1) {
            assert(k.push(s[n - 1]).drop_last() =~= k);
        }
    }
}

/// After pairs are discarded, a value stays in the hand once if the hand
/// held it an odd number of times, and not at all if an even number.
pub proof fn lemma_unpaired_count(s: Seq<Card>, v: Value)
    ensures
        count_value(unpaired(s), v) == count_value(s, v) % 2,
{
    lemma_kept_count_upto(s, v, s.len() as int);
    assert(s.take(s.len() as int) =~= s);
}

/// Cards matching a requested value, each with its position in the hand.
pub type MatchIndex<T> = Vec<(usize, T)>;

/// Who makes a player's choices.
#[derive(Debug, Copy, Clone, PartialEq, Eq, Structural)]
pub enum PlayerType {
    Human,
    Computer,
}

/// A Go Fish player.
#[derive(Debug)]
pub struct Player {
    pub name: String,
    pub hand: Hand,
    pub paired: Hand,
    pub player_type: PlayerType,
}

/// The count of cards in `s.take(i)` with value `v` grows by one exactly at
/// the cards of that value.
proof fn lemma_count_step(s: Seq<Card>, i: int, v: Value)
    requires
        0 <= i < s.len(),
    ensures
        count_value(s.take(i + 1), v) == count_value(s.take(i), v) + if s[i].value == v {
            1int
        } else {
            0int
        },
{
    assert(s.take(i + 1).drop_last() =~= s.take(i));
}

/// How many cards of `cards.take(end)` have the value `v`.
fn count_in(cards: &Vec<Card>, end: usize, v: Value) -> (r: usize)
    requires
        end <= cards@.len(),
    ensures
        r == count_value(cards@.take(end as int), v),
{
    let mut n: usize = 0;
    let mut i: usize = 0;
    proof {
        assert(cards@.take(0) =~= Seq::<Card>::empty());
    }
    while i < end
        invariant
            i <= end <= cards@.len(),
            n == count_value(cards@.take(i as int), v),
            n <= i,
        decreases end - i,
    {
        proof {
            lemma_count_step(cards@, i as int, v);
        }
        if cards[i].value == v {
            n = n + 1;
        }
        i = i + 1;
    }
    n
}

/// Whether the card at position `j` goes to the paired pile.
fn paired_at(cards: &Vec<Card>, j: usize) -> (r: bool)
    requires
        j < cards@.len(),
    ensures
        r == is_paired(cards@, j as int),
{
    let v = cards[j].value;
    let total = count_in(cards, cards.len(), v);
    let before = count_in(cards, j, v);
    proof {
        assert(cards@.take(cards@.len() as int) =~= cards@);
    }
    before < total - total % 2
}

/// The face value of index `k`, as `index_value` numbers them.
fn value_of_index(k: usize) -> (v: Value)
    requires
        k < 13,
    ensures
        v == index_value(k as int),
        rank(v) == k + 2,
{
    if k == 12 {
        Value::Ace
    } else {
        Value::from_number((k + 2) as u8)
    }
}

/// Names the player `base` followed by the decimal digits of `n`.
pub(crate) fn numbered_name(base: &str, n: usize) -> (r: String)
    ensures
        r@ == base@ + decimal(n as nat),
{
    let mut s = String::from_str(base);
    let d = decimal_string(n);
    s.append(d.as_str());
    s
}

/// The decimal digits of `n`, most significant first.
pub open spec fn decimal(n: nat) -> Seq<char>
    decreases n,
{
    if n < 10 {
        digit_text(n)
    } else {
        decimal(n / 10) + digit_text(n % 10)
    }
}

/// The digit that writes `d`, for `d` below ten.
pub open spec fn digit_text(d: nat) -> Seq<char> {
    if d == 0 {
        "0"@
    } else if d == 1 {
        "1"@
    } else if d == 2 {
        "2"@
    } else if d == 3 {
        "3"@
    } else if d == 4 {
        "4"@
    } else if d == 5 {
        "5"@
    } else if d == 6 {
        "6"@
    } else if d == 7 {
        "7"@
    } else if d == 8 {
        "8"@
    } else {
        "9"@
    }
}

fn digit_str(d: usize) -> (r: &'static str)
    requires
        d < 10,
    ensures
        r@ == digit_text(d as nat),
{
    if d == 0 {
        "0"
    } else if d == 1 {
        "1"
    } else if d == 2 {
        "2"
    } else if d == 3 {
        "3"
    } else if d == 4 {
        "4"
    } else if d == 5 {
        "5"
    } else if d == 6 {
        "6"
    } else if d == 7 {
        "7"
    } else if d == 8 {
        "8"
    } else {
        "9"
    }
}

/// `n` written in decimal.
pub fn decimal_string(n: usize) -> (r: String)
    ensures
        r@ == decimal(n as nat),
    decreases n,
{
    if n < 10 {
        String::from_str(digit_str(n))
    } else {
        let mut s = decimal_string(n / 10);
        s.append(digit_str(n % 10));
        s
    }
}

impl Player {
    pub fn new(name: &str, player_type: PlayerType) -> (p: Player)
        ensures
            p.name@ == name@,
            p.hand@ == Seq::<Card>::empty(),
            p.paired@ == Seq::<Card>::empty(),
            p.player_type == player_type,
    {
        Player { name: String::from_str(name), hand: Hand::new(), paired: Hand::new(), player_type }
    }

    /// Moves every pair of same-valued cards from the hand to the paired
    /// pile, value by value from the two upward, and keeps in hand the last
    /// card of each value that occurs an odd number of times. Returns how
    /// many distinct values the hand held.
    pub fn discard_pairs(&mut self) -> (r: DealResult<usize>)
        ensures
            final(self).hand@ == unpaired(old(self).hand@),
            final(self).paired@ == old(self).paired@ + discarded(old(self).hand@),
            r == Ok::<usize, DealError>(values_present_upto(old(self).hand@, 13) as usize),
            final(self).name == old(self).name,
            final(self).player_type == old(self).player_type,
    {
        let cards = self.hand.cards().into_vec();
        let n = cards.len();
        let ghost p0 = self.paired@;
        let mut k: usize = 0;
        while k < 13
            invariant
                k <= 13,
                n == cards@.len(),
                self.paired@ == p0 + pairs_upto(cards@, k as int, n as int),
                self.name == old(self).name,
                self.player_type == old(self).player_type,
                self.hand == old(self).hand,
            decreases 13 - k,
        {
            let v = value_of_index(k);
            let mut j: usize = 0;
            while j < n
                invariant
                    k < 13,
                    v == index_value(k as int),
                    j <= n,
                    n == cards@.len(),
                    self.paired@ == p0 + pairs_upto(cards@, k as int, n as int) + pairs_of_value_upto(cards@, v, j as int),
                    self.name == old(self).name,
                    self.player_type == old(self).player_type,
                    self.hand == old(self).hand,
                decreases n - j,
            {
                if cards[j].value == v && paired_at(&cards, j) {
                    self.paired.take(cards[j]);
                }
                j = j + 1;
                proof {
                    assert(self.paired@ =~= p0 + pairs_upto(cards@, k as int, n as int) + pairs_of_value_upto(cards@, v, j as int));
                }
            }
            k = k + 1;
            proof {
                assert(self.paired@ =~= p0 + pairs_upto(cards@, k as int, n as int));
            }
        }
        let mut kept: Vec<Card> = Vec::new();
        let mut j: usize = 0;
        while j < n
            invariant
                j <= n,
                n == cards@.len(),
                kept@ == kept_upto(cards@, j as int),
            decreases n - j,
        {
            if !paired_at(&cards, j) {
                kept.push(cards[j]);
            }
            j = j + 1;
        }
        self.hand = Hand::from_cards(kept);
        let mut present: usize = 0;
        let mut k: usize = 0;
        while k < 13
            invariant
                k <= 13,
                n == cards@.len(),
                present == values_present_upto(cards@, k as int),
                present <= k,
            decreases 13 - k,
        {
            let v = value_of_index(k);
            if count_in(&cards, n, v) > 0 {
                present = present + 1;
            }
            k = k + 1;
            proof {
                assert(cards@.take(n as int) =~= cards@);
            }
        }
        Ok(present)
    }

    /// Whether the hand holds a card of the value.
    pub fn has_value(&self, value: Value) -> (r: bool)
        ensures
            r == holds_value(self.hand@, value),
    {
        let cards = self.hand.cards().into_vec();
        let mut i: usize = 0;
        while i < cards.len()
            invariant
                cards@ == self.hand@,
                i <= cards@.len(),
                forall|k: int| 0 <= k < i ==> (#[trigger] cards@[k]).value != value,
            decreases cards@.len() - i,
        {
            if cards[i].value == value {
                return true;
            }
            i = i + 1;
        }
        false
    }

    /// The cards of the value in the hand, each with its position, in hand
    /// order.
    pub fn match_cards_from_value(&self, value: Value) -> (r: MatchIndex<Card>)
        ensures
            r@ == matches_upto(self.hand@, value, self.hand@.len() as int),
    {
        let cards = self.hand.cards().into_vec();
        let mut out: Vec<(usize, Card)> = Vec::new();
        let mut i: usize = 0;
        while i < cards.len()
            invariant
                cards@ == self.hand@,
                i <= cards@.len(),
                out@ == matches_upto(cards@, value, i as int),
            decreases cards@.len() - i,
        {
            if cards[i].value == value {
                out.push((i, cards[i]));
            }
            i = i + 1;
        }
        out
    }

    /// The line in which the player says `d`: the name, a colon, and `d` in
    /// double quotes.
    pub fn say(&self, d: &str) -> (r: String)
        ensures
            r@ == self.name@ + ": \""@ + d@ + "\""@,
    {
        let mut s = String::from_str(self.name.as_str());
        s.append(": \"");
        s.append(d);
        s.append("\"");
        s
    }
}

impl Take for Player {
    type Item = Card;

    open spec fn stock(&self) -> Seq<Card> {
        self.hand@
    }

    fn take(&mut self, card: Card)
        ensures
            final(self).name == old(self).name,
            final(self).paired == old(self).paired,
            final(self).player_type == old(self).player_type,
    {
        self.hand.take(card);
    }
}

impl Give for Player {
    type Item = Card;

    open spec fn supply(&self) -> Seq<Card> {
        self.hand@
    }

    fn give(&mut self, index: usize) -> (r: DealResult<Card>)
        ensures
            final(self).name == old(self).name,
            final(self).paired == old(self).paired,
            final(self).player_type == old(self).player_type,
    {
        self.hand.give(index)
    }
}

} // verus!
