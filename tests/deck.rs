use rand::SeedableRng;

use cards::{Card, Cards, CardsMut, Deal, DealError, DealResult, Deck, Give, Hand, Shuffle, Suit, Take, Value};
use cards::Suit::{Clubs, Diamonds, Hearts, Spades};

fn all_cards(deck: &Deck) -> Vec<Card> {
    deck.cards().into_vec()
}

#[test]
fn suit_ord() {
    let mut cards = vec![Clubs, Spades, Diamonds, Hearts];
    cards.sort();
    assert_eq!(cards, vec![Diamonds, Clubs, Hearts, Spades]);
}

#[test]
fn default_deck() {
    let deck0 = Deck::default();

    let mut deck1 = Deck::default();
    assert_eq!(deck0, deck1);

    deck1.shuffle();

    // There is a 1/8.06e+67 chance that this will fail.
    assert_ne!(deck0, deck1);
}

#[test]
fn unique_52() {
    let deck = Deck::new().shuffled();
    assert_eq!(deck.len(), 52);

    let cards = all_cards(&deck);
    for index0 in 0..52 {
        for index1 in 0..52 {
            if index0 == index1 {
                continue;
            }
            assert_ne!(cards[index0], cards[index1]);
        }
    }
}

#[test]
fn cards_mut() {
    let mut deck = Deck::default();
    println!("{:?}", &deck);

    // Make all the cards in the deck the same
    for card in deck.cards_mut() {
        *card = Card::default(); // Ace of Spades
    }

    println!("{:?}", &deck);

    let cards = all_cards(&deck);
    assert!(cards.iter().all(|c| *c == cards[0]));
}

#[test]
fn deal_deck_to_hand() -> DealResult<()> {
    let mut deck = Deck::default();
    let mut hand = Hand::new();

    deck.deal(0, &mut hand)?;
    assert_eq!(hand.cards().into_vec()[0], Card { value: Value::Ace, suit: Suit::Spades });
    assert_eq!(deck.len(), 51);
    assert_eq!(hand.len(), 1);
    assert_eq!(deck.cards().next(), Some(Card { value: Value::Two, suit: Suit::Spades }));

    Ok(())
}

#[test]
fn default_deck_layout() {
    let cards = all_cards(&Deck::default());
    assert_eq!(cards.len(), 52);
    assert_eq!(cards[0], Card::new(Value::Ace, Suit::Spades));
    assert_eq!(cards[12], Card::new(Value::King, Suit::Spades));
    assert_eq!(cards[13], Card::new(Value::Ace, Suit::Clubs));
    assert_eq!(cards[26], Card::new(Value::Ace, Suit::Hearts));
    assert_eq!(cards[51], Card::new(Value::King, Suit::Diamonds));
}

#[test]
fn fresh_deck_is_full_and_distinct() {
    let deck = Deck::new();
    assert_eq!(deck.len(), 52);
    assert!(deck.are_unique());
    assert_eq!(deck.card_count(), 52);
    let mut sorted = all_cards(&deck);
    let mut reference = all_cards(&Deck::default());
    let key = |c: &Card| (c.suit, c.value);
    sorted.sort_by_key(key);
    reference.sort_by_key(key);
    assert_eq!(sorted, reference);
}

#[test]
fn seeded_shuffle_is_repeatable() {
    let mut rng0 = rand::rngs::StdRng::seed_from_u64(7);
    let mut rng1 = rand::rngs::StdRng::seed_from_u64(7);
    let d0 = Deck::new_with(&mut rng0);
    let d1 = Deck::new_with(&mut rng1);
    assert_eq!(d0, d1);
    assert_ne!(d0, Deck::default());
    assert!(d0.are_unique());
}

#[test]
fn give_shrinks_and_shifts() {
    let mut deck = Deck::default();
    let before = all_cards(&deck);
    let card = deck.give(3).unwrap();
    assert_eq!(card, before[3]);
    assert_eq!(deck.len(), 51);
    let after = all_cards(&deck);
    assert_eq!(after[3], before[4]);
    assert_eq!(after[2], before[2]);
    assert!(!after.contains(&card));
}

#[test]
fn give_on_empty_is_nothing_to_give() {
    let mut hand = Hand::new();
    assert_eq!(hand.give(0), Err(DealError::NothingToGive));
    assert_eq!(hand.give(5), Err(DealError::NothingToGive));
    let mut deck = Deck::default();
    while !deck.is_empty() {
        deck.give(0).unwrap();
    }
    assert_eq!(deck.give(0), Err(DealError::NothingToGive));
}

#[test]
fn give_past_end_is_out_of_bounds() {
    let mut hand = Hand::new();
    hand.take(Card::new(Value::Seven, Suit::Hearts));
    assert_eq!(hand.give(1), Err(DealError::OutOfBounds));
    assert_eq!(hand.len(), 1);
    let mut deck = Deck::default();
    assert_eq!(deck.give(52), Err(DealError::OutOfBounds));
    assert_eq!(deck.len(), 52);
}

#[test]
fn failed_deal_leaves_taker_alone() {
    let mut hand = Hand::new();
    hand.take(Card::new(Value::Two, Suit::Clubs));
    let mut target = Hand::new();
    target.take(Card::new(Value::Nine, Suit::Spades));
    assert_eq!(hand.deal(4, &mut target), Err(DealError::OutOfBounds));
    assert_eq!(target.len(), 1);
    assert_eq!(hand.len(), 1);
    let mut empty = Hand::new();
    assert_eq!(empty.deal(0, &mut target), Err(DealError::NothingToGive));
    assert_eq!(target.len(), 1);
    assert_eq!(hand.deal(0, &mut target), Ok(()));
    assert_eq!(target.cards().into_vec(), vec![Card::new(Value::Nine, Suit::Spades), Card::new(Value::Two, Suit::Clubs)]);
    assert!(hand.is_empty());
}

#[test]
fn are_unique_finds_repeats() {
    let mut hand = Hand::new();
    assert!(hand.are_unique());
    hand.take(Card::new(Value::Four, Suit::Hearts));
    hand.take(Card::new(Value::Four, Suit::Clubs));
    assert!(hand.are_unique());
    hand.take(Card::new(Value::Four, Suit::Clubs));
    assert!(!hand.are_unique());
}

#[test]
fn drain_moves_everything() {
    let mut hand = Hand::new();
    hand.take(Card::new(Value::Queen, Suit::Diamonds));
    hand.take(Card::new(Value::Ten, Suit::Clubs));
    let moved = hand.drain();
    assert!(hand.is_empty());
    assert_eq!(moved.len(), 2);
    assert_eq!(moved.cards().into_vec()[1], Card::new(Value::Ten, Suit::Clubs));
}

#[test]
fn hand_cards_mut_rewrites() {
    let mut hand = Hand::from_cards(vec![Card::new(Value::Two, Suit::Clubs)]);
    hand.cards_mut()[0] = Card::new(Value::Three, Suit::Hearts);
    assert_eq!(hand, Hand::from_cards(vec![Card::new(Value::Three, Suit::Hearts)]));
}

#[test]
fn card_weights() {
    assert_eq!(Card::new(Value::Two, Suit::Clubs).cmp_value(), 2);
    assert_eq!(Card::new(Value::Ten, Suit::Clubs).cmp_value(), 10);
    assert_eq!(Card::new(Value::King, Suit::Clubs).cmp_value(), 13);
    assert_eq!(Card::new(Value::Ace, Suit::Clubs).cmp_value(), 14);
}

#[test]
fn card_text() {
    assert_eq!(Card::new(Value::Ten, Suit::Hearts).to_string(), "10♥");
    assert_eq!(Card::new(Value::Ace, Suit::Spades).short_name(), "AS");
    assert_eq!(Card::new(Value::Queen, Suit::Diamonds).to_string(), "Q♦");
    let hand = Hand::from_cards(vec![Card::new(Value::Two, Suit::Clubs), Card::new(Value::Jack, Suit::Diamonds)]);
    assert_eq!(hand.to_string(), "[2♣, J♦]");
    assert_eq!(Hand::new().to_string(), "[]");
}

#[test]
fn value_from_number() {
    assert_eq!(Value::from_number(1), Value::Ace);
    assert_eq!(Value::from_number(2), Value::Two);
    assert_eq!(Value::from_number(10), Value::Ten);
    assert_eq!(Value::from_number(13), Value::King);
}

#[test]
fn rank_tokens() {
    assert_eq!(Value::try_from_char('0'), Ok(Value::Ten));
    assert_eq!(Value::try_from_char('1'), Ok(Value::Ace));
    assert_eq!(Value::try_from_char('a'), Ok(Value::Ace));
    assert_eq!(Value::try_from_char('q'), Ok(Value::Queen));
    assert_eq!(Value::try_from_char('K'), Ok(Value::King));
    assert_eq!(Value::try_from_char('7'), Ok(Value::Seven));
    assert!(Value::try_from_char('x').is_err());
    assert!(Value::try_from_char('B').is_err());
    assert_eq!(Value::parse_token("j"), Ok(Value::Jack));
    assert!(Value::parse_token("10").is_err());
    assert!(Value::parse_token("").is_err());
}

#[test]
fn cards_order_by_rank_weight() {
    let ace = Card::new(Value::Ace, Suit::Clubs);
    let king = Card::new(Value::King, Suit::Spades);
    let other_ace = Card::new(Value::Ace, Suit::Hearts);
    assert!(ace > king);
    assert!(king < ace);
    assert_eq!(ace.partial_cmp(&other_ace), Some(std::cmp::Ordering::Equal));
    assert_ne!(ace, other_ace);
}
