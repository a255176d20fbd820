//! Ordered piles of cards: the deck (the stock that no player holds) and a
//! player's hand.

use vstd::prelude::*;
use rand::rngs::StdRng;
use crate::card::{Card, Suit, Value, number_value, value_label, suit_symbol};
use crate::deal::{DealError, DealResult, Give, Take};
use crate::shuffle::{Shuffle, shuffle_cards};

verus! {

/// The suit of the `i`-th group of thirteen when a deck is laid out.
pub open spec fn suit_at(i: int) -> Suit {
    if i == 0 {
        Suit::Spades
    } else if i == 1 {
        Suit::Clubs
    } else if i == 2 {
        Suit::Hearts
    } else {
        Suit::Diamonds
    }
}

/// The deck as laid out before any shuffle: spades, clubs, hearts, then
/// diamonds, each from the ace (numbered 1) up to the king.
pub open spec fn standard_deck() -> Seq<Card> {
    Seq::new(52, |i: int| Card { value: number_value(i % 13 + 1), suit: suit_at(i / 13) })
}

/// The laid-out deck holds 52 cards, no two alike.
pub proof fn lemma_standard_deck_distinct()
    ensures
        standard_deck().len() == 52,
        standard_deck().no_duplicates(),
{
    let d = standard_deck();
    assert forall|i: int, j: int| 0 <= i < 52 && 0 <= j < 52 && i != j implies d[i] != d[j] by {
        if d[i] == d[j] {
            assert(i / 13 == j / 13);
            assert(i % 13 == j % 13);
        }
    }
}

/// A deck holding the cards of the laid-out deck in any order has no two
/// cards alike.
proof fn lemma_shuffled_distinct(s: Seq<Card>)
    requires
        s.to_multiset() == standard_deck().to_multiset(),
    ensures
        s.no_duplicates(),
{
    lemma_standard_deck_distinct();
    standard_deck().lemma_multiset_has_no_duplicates();
    s.lemma_multiset_has_no_duplicates_conv();
}

/// The cards written one after another, separated by a comma and a space.
pub open spec fn joined_text(s: Seq<Card>) -> Seq<char>
    decreases s.len(),
{
    if s.len() == 0 {
        Seq::empty()
    } else if s.len() == 1 {
        value_label(s[0].value) + suit_symbol(s[0].suit)
    } else {
        joined_text(s.drop_last()) + ", "@ + value_label(s.last().value) + suit_symbol(
            s.last().suit,
        )
    }
}

/// The cards written as a bracketed list.
pub open spec fn list_text(s: Seq<Card>) -> Seq<char> {
    "["@ + joined_text(s) + "]"@
}

/// A collection of cards that can be looked through in order.
pub trait Cards {
    /// The cards, in order.
    spec fn card_seq(&self) -> Seq<Card>;

    fn cards(&self) -> (r: CardIter)
        ensures
            r@ == self.card_seq(),
    ;

    fn card_count(&self) -> (n: usize)
        ensures
            n == self.card_seq().len(),
    {
        self.cards().into_vec().len()
    }

    /// Tests that no card occurs twice; true of an empty collection.
    fn are_unique(&self) -> (r: bool)
        ensures
            r == self.card_seq().no_duplicates(),
    {
        let v = self.cards().into_vec();
        no_repeats(&v)
    }
}

/// A collection whose cards can be rewritten in place.
pub trait CardsMut: Cards {
    fn cards_mut(&mut self) -> (r: &mut Vec<Card>)
        ensures
            r@ == old(self).card_seq(),
            final(self).card_seq() == final(r)@,
    ;
}

/// Tests that no card occurs twice in `v`.
fn no_repeats(v: &Vec<Card>) -> (r: bool)
    ensures
        r == v@.no_duplicates(),
{
    let n = v.len();
    let mut i: usize = 0;
    while i < n
        invariant
            n == v@.len(),
            i <= n,
            forall|a: int, b: int| 0 <= a < i && a < b < n ==> v@[a] != v@[b],
        decreases n - i,
    {
        let mut j: usize = i + 1;
        while j < n
            invariant
                n == v@.len(),
                i < n,
                i < j <= n,
                forall|b: int| i < b < j ==> v@[i as int] != v@[b],
            decreases n - j,
        {
            if v[i] == v[j] {
                return false;
            }
            j = j + 1;
        }
        i = i + 1;
    }
    proof {
        lemma_no_dup_from_later(v@);
    }
    true
}

/// A sequence whose every item differs from all later ones has no duplicates.
proof fn lemma_no_dup_from_later(s: Seq<Card>)
    requires
        forall|a: int, b: int| 0 <= a < s.len() && a < b < s.len() ==> s[a] != s[b],
    ensures
        s.no_duplicates(),
{
    assert forall|a: int, b: int| 0 <= a < s.len() && 0 <= b < s.len() && a != b implies s[a]
        != s[b] by {
        if b < a {
            assert(s[b] != s[a]);
        }
    }
}

/// Walks the cards of a collection from first to last.
pub struct CardIter {
    cards: Vec<Card>,
    index: usize,
}

impl CardIter {
    #[verifier::type_invariant]
    spec fn inv(self) -> bool {
        self.index <= self.cards@.len()
    }

    /// The cards not yet walked over.
    pub closed spec fn view(&self) -> Seq<Card> {
        self.cards@.skip(self.index as int)
    }

    pub fn next(&mut self) -> (r: Option<Card>)
        ensures
            old(self)@.len() == 0 ==> r is None && final(self)@ == old(self)@,
            old(self)@.len() > 0 ==> r == Some(old(self)@[0]) && final(self)@ == old(self)@.skip(1),
    {
        proof {
            use_type_invariant(&*self);
        }
        if self.index < self.cards.len() {
            let c = self.cards[self.index];
            self.index = self.index + 1;
            proof {
                assert(self@ =~= old(self)@.skip(1));
            }
            Some(c)
        } else {
            None
        }
    }

    /// The cards not yet walked over, in a vector.
    pub fn into_vec(self) -> (r: Vec<Card>)
        ensures
            r@ == self@,
    {
        proof {
            use_type_invariant(&self);
        }
        let mut out: Vec<Card> = Vec::new();
        let mut i = self.index;
        while i < self.cards.len()
            invariant
                self.index <= i <= self.cards@.len(),
                out@ == self.cards@.subrange(self.index as int, i as int),
            decreases self.cards@.len() - i,
        {
            out.push(self.cards[i]);
            i = i + 1;
            proof {
                assert(out@ =~= self.cards@.subrange(self.index as int, i as int));
            }
        }
        proof {
            assert(out@ =~= self@);
        }
        out
    }
}

fn iter_over(v: &Vec<Card>) -> (r: CardIter)
    ensures
        r@ == v@,
{
    let mut cards: Vec<Card> = Vec::new();
    let mut i: usize = 0;
    while i < v.len()
        invariant
            i <= v@.len(),
            cards@ == v@.take(i as int),
        decreases v@.len() - i,
    {
        cards.push(v[i]);
        i = i + 1;
        proof {
            assert(cards@ =~= v@.take(i as int));
        }
    }
    proof {
        assert(cards@ =~= v@);
        assert(cards@.skip(0) =~= cards@);
    }
    CardIter { cards, index: 0 }
}

/// The stock of cards that no player holds.
#[derive(Clone, Debug)]
pub struct Deck {
    cards: Vec<Card>,
}

/// A hand of playing cards
#[derive(Clone, Debug)]
pub struct Hand {
    cards: Vec<Card>,
}

impl View for Deck {
    type V = Seq<Card>;

    closed spec fn view(&self) -> Seq<Card> {
        self.cards@
    }
}

impl View for Hand {
    type V = Seq<Card>;

    closed spec fn view(&self) -> Seq<Card> {
        self.cards@
    }
}

/// The suit of the `i`-th group of thirteen when a deck is laid out.
fn suit_of_group(i: usize) -> (s: Suit)
    requires
        i < 4,
    ensures
        s == suit_at(i as int),
{
    if i == 0 {
        Suit::Spades
    } else if i == 1 {
        Suit::Clubs
    } else if i == 2 {
        Suit::Hearts
    } else {
        Suit::Diamonds
    }
}

impl Default for Deck {
    /// The 52 cards in the order of `standard_deck`.
    fn default() -> (d: Deck)
        ensures
            d@ == standard_deck(),
    {
        let mut cards: Vec<Card> = Vec::new();
        let mut i: usize = 0;
        while i < 52
            invariant
                i <= 52,
                cards@ == standard_deck().take(i as int),
            decreases 52 - i,
        {
            let card = Card::new(Value::from_number((i % 13 + 1) as u8), suit_of_group(i / 13));
            cards.push(card);
            i = i + 1;
            proof {
                assert(cards@ =~= standard_deck().take(i as int));
            }
        }
        proof {
            assert(cards@ =~= standard_deck());
        }
        Deck { cards }
    }
}

impl Deck {
    /// A full deck in an order drawn at random.
    pub fn new() -> (d: Deck)
        ensures
            d@.to_multiset() == standard_deck().to_multiset(),
            d@.len() == 52,
            d@.no_duplicates(),
    {
        let d = Deck::default().shuffled();
        proof {
            lemma_shuffled_distinct(d@);
        }
        d
    }

    /// A full deck in an order drawn from `rng`.
    pub fn new_with(rng: &mut StdRng) -> (d: Deck)
        ensures
            d@.to_multiset() == standard_deck().to_multiset(),
            d@.len() == 52,
            d@.no_duplicates(),
    {
        let mut d = Deck::default();
        d.shuffle_with(rng);
        proof {
            lemma_shuffled_distinct(d@);
        }
        d
    }

    pub fn len(&self) -> (n: usize)
        ensures
            n == self@.len(),
    {
        self.cards.len()
    }

    pub fn is_empty(&self) -> (r: bool)
        ensures
            r == (self@.len() == 0),
    {
        self.cards.len() == 0
    }

    /// The cards written as a bracketed list.
    pub fn to_string(&self) -> (r: String)
        ensures
            r@ == list_text(self@),
    {
        cards_text(&self.cards)
    }
}

impl Hand {
    pub fn new() -> (h: Hand)
        ensures
            h@ == Seq::<Card>::empty(),
    {
        Hand { cards: Vec::new() }
    }

    pub fn len(&self) -> (n: usize)
        ensures
            n == self@.len(),
    {
        self.cards.len()
    }

    pub fn is_empty(&self) -> (r: bool)
        ensures
            r == (self@.len() == 0),
    {
        self.cards.len() == 0
    }

    /// The cards, to be rewritten in place.
    pub fn cards_mut(&mut self) -> (r: &mut Vec<Card>)
        ensures
            r@ == old(self)@,
            final(self)@ == final(r)@,
    {
        &mut self.cards
    }

    /// A hand holding `cards`, in order.
    pub fn from_cards(cards: Vec<Card>) -> (h: Hand)
        ensures
            h@ == cards@,
    {
        Hand { cards }
    }

    /// Moves every card into a new hand, in order, and leaves this one empty.
    pub fn drain(&mut self) -> (r: Hand)
        ensures
            r@ == old(self)@,
            final(self)@ == Seq::<Card>::empty(),
    {
        let mut cards: Vec<Card> = Vec::new();
        std::mem::swap(&mut cards, &mut self.cards);
        Hand { cards }
    }

    /// The cards written as a bracketed list.
    pub fn to_string(&self) -> (r: String)
        ensures
            r@ == list_text(self@),
    {
        cards_text(&self.cards)
    }
}

/// The cards written as a bracketed list.
fn cards_text(v: &Vec<Card>) -> (r: String)
    ensures
        r@ == list_text(v@),
{
    let mut s = String::from_str("");
    proof {
        reveal_strlit("");
    }
    let mut i: usize = 0;
    while i < v.len()
        invariant
            i <= v@.len(),
            s@ == joined_text(v@.take(i as int)),
        decreases v@.len() - i,
    {
        if i > 0 {
            s.append(", ");
        }
        let t = v[i].to_string();
        s.append(t.as_str());
        proof {
            let p = v@.take(i as int + 1);
            assert(p.drop_last() =~= v@.take(i as int));
        }
        i = i + 1;
    }
    proof {
        assert(v@.take(v@.len() as int) =~= v@);
    }
    let mut out = String::from_str("[");
    out.append(s.as_str());
    out.append("]");
    out
}

impl Cards for Deck {
    open spec fn card_seq(&self) -> Seq<Card> {
        self@
    }

    fn cards(&self) -> (r: CardIter) {
        iter_over(&self.cards)
    }
}

impl Cards for Hand {
    open spec fn card_seq(&self) -> Seq<Card> {
        self@
    }

    fn cards(&self) -> (r: CardIter) {
        iter_over(&self.cards)
    }
}

impl CardsMut for Deck {
    fn cards_mut(&mut self) -> (r: &mut Vec<Card>) {
        &mut self.cards
    }
}

impl Shuffle for Deck {
    fn shuffle_with(&mut self, rng: &mut StdRng) {
        shuffle_cards(&mut self.cards, rng);
    }
}

impl Shuffle for Hand {
    fn shuffle_with(&mut self, rng: &mut StdRng) {
        shuffle_cards(&mut self.cards, rng);
    }
}

impl Give for Deck {
    type Item = Card;

    open spec fn supply(&self) -> Seq<Card> {
        self@
    }

    fn give(&mut self, index: usize) -> (r: DealResult<Card>) {
        let len = self.cards.len();
        if len == 0 {
            return Err(DealError::NothingToGive);
        }
        if index >= len {
            Err(DealError::OutOfBounds)
        } else {
            Ok(self.cards.remove(index))
        }
    }
}

impl Take for Deck {
    type Item = Card;

    open spec fn stock(&self) -> Seq<Card> {
        self@
    }

    fn take(&mut self, item: Card) {
        self.cards.push(item);
    }
}

impl Give for Hand {
    type Item = Card;

    open spec fn supply(&self) -> Seq<Card> {
        self@
    }

    fn give(&mut self, index: usize) -> (r: DealResult<Card>) {
        let len = self.cards.len();
        if len == 0 {
            return Err(DealError::NothingToGive);
        }
        if index >= len {
            Err(DealError::OutOfBounds)
        } else {
            Ok(self.cards.remove(index))
        }
    }
}

impl Take for Hand {
    type Item = Card;

    open spec fn stock(&self) -> Seq<Card> {
        self@
    }

    fn take(&mut self, item: Card) {
        self.cards.push(item);
    }
}

/// Whether two vectors hold the same cards in the same order.
fn same_cards(a: &Vec<Card>, b: &Vec<Card>) -> (r: bool)
    ensures
        r == (a@ == b@),
{
    if a.len() != b.len() {
        return false;
    }
    let mut i: usize = 0;
    while i < a.len()
        invariant
            a@.len() == b@.len(),
            i <= a@.len(),
            forall|k: int| 0 <= k < i ==> a@[k] == b@[k],
        decreases a@.len() - i,
    {
        if a[i] != b[i] {
            return false;
        }
        i = i + 1;
    }
    proof {
        assert(a@ =~= b@);
    }
    true
}

impl PartialEq for Deck {
    /// Two decks are equal when they hold the same cards in the same order.
    fn eq(&self, other: &Deck) -> (r: bool) {
        same_cards(&self.cards, &other.cards)
    }
}

impl vstd::std_specs::cmp::PartialEqSpecImpl for Deck {
    open spec fn obeys_eq_spec() -> bool {
        true
    }

    open spec fn eq_spec(&self, other: &Deck) -> bool {
        self@ == other@
    }
}

impl Eq for Deck {

}

impl PartialEq for Hand {
    /// Two hands are equal when they hold the same cards in the same order.
    fn eq(&self, other: &Hand) -> (r: bool) {
        same_cards(&self.cards, &other.cards)
    }
}

impl vstd::std_specs::cmp::PartialEqSpecImpl for Hand {
    open spec fn obeys_eq_spec() -> bool {
        true
    }

    open spec fn eq_spec(&self, other: &Hand) -> bool {
        self@ == other@
    }
}

impl Eq for Hand {

}

} // verus!
