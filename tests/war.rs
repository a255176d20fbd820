use std::collections::HashMap;

use cards::{get_closest, play, play_game, round, Card, Cards, DealResult, Deck, Game, Hand, Suit, Value};
use cards::Suit::{Clubs, Diamonds, Hearts, Spades};
use cards::Value::{Ace, Eight, Five, Four, Jack, King, Nine, Queen, Seven, Six, Ten, Three, Two};

fn hand_of(cards: &[(Value, Suit)]) -> Hand {
    Hand::from_cards(cards.iter().map(|&(v, s)| Card::new(v, s)).collect())
}

fn two_hands(h0: Hand, h1: Hand) -> Game {
    Game { deck: Deck::default(), hands: vec![h0, h1] }
}

#[test]
fn new_game() -> DealResult<()> {
    let game = Game::new(2, 5)?;
    assert_eq!(game.deck.len(), 42);
    assert_eq!(game.hands[0].len(), 5);
    assert_eq!(game.hands[1].len(), 5);
    assert_ne!(game.hands[0], game.hands[1]);
    Ok(())
}

#[test]
fn test_war() {
    const ITERATIONS: usize = 100_000;

    // (KEY = THING, VAL = COUNT)
    let mut winner_counter = HashMap::<usize, usize>::new();
    let mut round_len_counter = HashMap::<usize, usize>::new();
    let mut war_counter = HashMap::<usize, usize>::new();
    let mut round_sum: usize = 0;
    let mut war_sum: usize = 0;

    for _i in 0..ITERATIONS {
        let (winner, win_len, rounds, war_count) = play_game();
        // Winner must have all 52 cards
        assert_eq!(win_len, 52);

        *winner_counter.entry(winner).or_insert(0) += 1;
        *round_len_counter.entry(rounds).or_insert(0) += 1;
        *war_counter.entry(war_count).or_insert(0) += 1;
        war_sum += war_count;
        round_sum += rounds;
    }

    let avg_rounds = round_sum as f32 / ITERATIONS as f32;
    let avg_wars = war_sum as f32 / ITERATIONS as f32;

    let (max_round_len, max_round_count) = round_len_counter.iter()
        .max_by(|(a, _), (b, _)| a.cmp(b))
        .expect("Empty round_len_counter");

    let (min_round_len, min_round_count) = round_len_counter.iter()
        .min_by(|(a, _), (b, _)| a.cmp(b))
        .expect("Empty round_len_counter");

    let mut round_lengths: Vec<(&usize, &usize)> = round_len_counter.iter().collect();
    round_lengths.sort_by(|(_, a), (_, b)| b.cmp(a));

    let mid = round_lengths.len() / 2;
    let (med_round_len, med_round_count) = round_lengths.get(mid).expect("Empty round_lengths");

    let wins0 = winner_counter.get(&0).expect("Player0");
    let winp0 = *wins0 as f32 / ITERATIONS as f32 * 100.0;
    let wins1 = winner_counter.get(&1).expect("Player1");
    let winp1 = *wins1 as f32 / ITERATIONS as f32 * 100.0;

    println!("\nPlayed {} games with an average of {} wars per game:", ITERATIONS, avg_wars);
    println!("Player 0 won {} games ({}%)", wins0, winp0);
    println!("Player 1 won {} games ({}%)", wins1, winp1);
    println!("Max Round Length: {:5} Rounds ({} games)", max_round_len, max_round_count);
    println!("Med Round Length: {:5} Rounds ({} games)", med_round_len, med_round_count);
    println!("Avg Round Length: {:5} Rounds ({} games)", avg_rounds.round(), get_closest(&round_len_counter, avg_rounds.round() as usize));
    println!("Min Round Length: {:5} Rounds ({} games)", min_round_len, min_round_count);
}

#[test]
fn game_deals_in_runs() {
    let deck = Deck::default();
    let game = Game::from_deck(deck, 3, 4).unwrap();
    let top = Deck::default().cards().into_vec();
    assert_eq!(game.hands.len(), 3);
    assert_eq!(game.hands[1].cards().into_vec(), top[4..8].to_vec());
    assert_eq!(game.deck.cards().into_vec(), top[12..].to_vec());
    assert!(Game::from_deck(Deck::default(), 11, 5).is_err());
    assert!(Game::new(3, 18).is_err());
    assert!(Game::new(4, 13).is_ok());
}

#[test]
fn game_hand_lookup() {
    let mut game = Game::new(2, 3).unwrap();
    assert!(!game.has_empty_hand());
    game.get_hand(1).drain();
    assert!(game.has_empty_hand());
    assert_eq!(game.hands[1].len(), 0);
}

#[test]
fn higher_card_takes_both() {
    let mut game = two_hands(hand_of(&[(King, Clubs), (Two, Hearts)]), hand_of(&[(Five, Spades)]));
    let mut wars = 0;
    round(&mut game, &mut wars);
    assert_eq!(wars, 0);
    assert_eq!(game.hands[0], hand_of(&[(Two, Hearts), (King, Clubs), (Five, Spades)]));
    assert!(game.hands[1].is_empty());
}

#[test]
fn lower_card_loses_both() {
    let mut game = two_hands(hand_of(&[(Three, Clubs)]), hand_of(&[(Ace, Spades), (Four, Hearts)]));
    let mut wars = 0;
    round(&mut game, &mut wars);
    assert!(game.hands[0].is_empty());
    assert_eq!(game.hands[1], hand_of(&[(Four, Hearts), (Ace, Spades), (Three, Clubs)]));
}

#[test]
fn tie_with_short_hand_concedes() {
    // the first hand has two cards left after the tie: it concedes
    let mut game = two_hands(
        hand_of(&[(Nine, Clubs), (Two, Clubs), (Three, Clubs)]),
        hand_of(&[(Nine, Hearts), (Four, Hearts), (Five, Hearts), (Six, Hearts), (Seven, Hearts)]),
    );
    let mut wars = 0;
    round(&mut game, &mut wars);
    assert_eq!(wars, 1);
    assert_eq!(game.hands[0], hand_of(&[(Two, Clubs), (Three, Clubs)]));
    assert_eq!(
        game.hands[1],
        hand_of(&[(Four, Hearts), (Five, Hearts), (Six, Hearts), (Seven, Hearts), (Nine, Clubs), (Nine, Hearts)]),
    );
}

#[test]
fn war_awards_pile_in_laid_order() {
    let mut game = two_hands(
        hand_of(&[(Eight, Clubs), (Two, Clubs), (Three, Clubs), (Four, Clubs), (King, Clubs), (Ace, Diamonds)]),
        hand_of(&[(Eight, Hearts), (Two, Hearts), (Three, Hearts), (Four, Hearts), (Five, Hearts)]),
    );
    let mut wars = 0;
    round(&mut game, &mut wars);
    assert_eq!(wars, 1);
    assert_eq!(
        game.hands[0],
        hand_of(&[
            (Ace, Diamonds),
            (Eight, Clubs), (Eight, Hearts),
            (Two, Clubs), (Three, Clubs), (Four, Clubs), (King, Clubs),
            (Two, Hearts), (Three, Hearts), (Four, Hearts), (Five, Hearts),
        ]),
    );
    assert!(game.hands[1].is_empty());
}

#[test]
fn double_war_carries_the_pile() {
    let h0 = hand_of(&[
        (Six, Clubs),
        (Two, Clubs), (Three, Clubs), (Four, Clubs), (Jack, Clubs),
        (Two, Diamonds), (Three, Diamonds), (Four, Diamonds), (Five, Diamonds),
    ]);
    let h1 = hand_of(&[
        (Six, Hearts),
        (Two, Hearts), (Three, Hearts), (Four, Hearts), (Jack, Hearts),
        (Two, Spades), (Three, Spades), (Four, Spades), (Queen, Spades),
        (Ace, Spades),
    ]);
    let mut game = two_hands(h0, h1);
    let mut wars = 0;
    round(&mut game, &mut wars);
    assert_eq!(wars, 1);
    assert!(game.hands[0].is_empty());
    assert_eq!(game.hands[1].len(), 19);
    assert_eq!(game.hands[1].cards().into_vec()[0], Card::new(Ace, Spades));
    assert_eq!(game.hands[1].cards().into_vec()[1], Card::new(Six, Clubs));
}

/// Hand 0 outranks hand 1 at every position: two aces meet the two eights
/// of hand 1, and the rest of hand 0 (eights and up) meets twos to sevens.
fn no_tie_fixture() -> (Hand, Hand) {
    let suits = [Spades, Hearts, Clubs, Diamonds];
    let mut h0 = vec![Card::new(Ace, Hearts), Card::new(Ace, Spades), Card::new(Eight, Diamonds), Card::new(Eight, Clubs)];
    let mut h1 = vec![Card::new(Eight, Hearts), Card::new(Eight, Spades)];
    for &v in [Nine, Ten, Jack, Queen, King].iter() {
        for &s in suits.iter() {
            h0.push(Card::new(v, s));
        }
    }
    h0.push(Card::new(Ace, Diamonds));
    h0.push(Card::new(Ace, Clubs));
    for &v in [Two, Three, Four, Five, Six, Seven].iter() {
        for &s in suits.iter() {
            h1.push(Card::new(v, s));
        }
    }
    (Hand::from_cards(h0), Hand::from_cards(h1))
}

#[test]
fn no_tie_game_takes_twenty_six_rounds() {
    let (h0, h1) = no_tie_fixture();
    assert_eq!(h0.len(), 26);
    assert_eq!(h1.len(), 26);
    let c0 = h0.cards().into_vec();
    let c1 = h1.cards().into_vec();
    for i in 0..26 {
        assert!(c0[i].cmp_value() > c1[i].cmp_value());
    }
    let mut game = two_hands(h0, h1);
    let (winner, win_len, rounds, wars) = play(&mut game);
    assert_eq!(winner, 0);
    assert_eq!(win_len, 52);
    assert_eq!(rounds, 26);
    assert_eq!(wars, 0);
    assert!(game.hands[1].is_empty());
    assert!(game.hands[0].are_unique());
}

#[test]
fn full_game_keeps_every_card() {
    for _ in 0..20 {
        let (winner, win_len, _rounds, _wars) = play_game();
        assert!(winner < 2);
        assert_eq!(win_len, 52);
    }
}

#[test]
fn rounds_never_duplicate_cards() {
    let mut game = Game::new(2, 26).unwrap();
    let mut wars = 0;
    let mut rounds = 0;
    while !game.has_empty_hand() && rounds < 200 {
        round(&mut game, &mut wars);
        rounds += 1;
        let mut all = game.hands[0].cards().into_vec();
        all.extend(game.hands[1].cards().into_vec());
        assert_eq!(all.len(), 52);
        assert!(Hand::from_cards(all).are_unique());
    }
}

#[test]
fn game_result_is_a_real_outcome() {
    for _ in 0..20 {
        let (winner, win_len, rounds, wars) = play_game();
        assert!(winner < 2);
        assert!(26 <= win_len && win_len <= 52);
        assert!(rounds > 0);
        assert!(wars <= rounds);
    }
}

#[test]
fn closest_tally_probes_upward() {
    let mut m = HashMap::new();
    m.insert(5usize, 50usize);
    m.insert(9usize, 90usize);
    assert_eq!(get_closest(&m, 5), 50);
    assert_eq!(get_closest(&m, 6), 90);
    assert_eq!(get_closest(&m, 0), 50);
    assert_eq!(get_closest(&m, 9), 90);
}
