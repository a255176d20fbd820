use rand::SeedableRng;

use cards::{
    computer_ask_index, computer_ask_value, decimal_string, parse_index, Card, Cards, DealError, Deck, FishGame,
    Hand, Player, PlayerIndex, PlayerType, Suit, Value,
};
use cards::Suit::{Clubs, Diamonds, Hearts, Spades};
use cards::Value::{Ace, Five, Four, Jack, King, Nine, Queen, Seven, Six, Ten, Three, Two};

fn hand_of(cards: &[(Value, Suit)]) -> Hand {
    Hand::from_cards(cards.iter().map(|&(v, s)| Card::new(v, s)).collect())
}

fn player_with(name: &str, kind: PlayerType, cards: &[(Value, Suit)]) -> Player {
    let mut p = Player::new(name, kind);
    p.hand = hand_of(cards);
    p
}

fn total_cards(game: &FishGame) -> usize {
    game.river.len() + game.players.iter().map(|p| p.hand.len() + p.paired.len()).sum::<usize>()
}

#[test]
fn discard_three_sevens_and_a_queen() {
    let mut p = player_with("Human0", PlayerType::Human, &[(Seven, Clubs), (Seven, Diamonds), (Seven, Hearts), (Queen, Spades)]);
    assert_eq!(p.discard_pairs(), Ok(2));
    assert_eq!(p.hand, hand_of(&[(Seven, Hearts), (Queen, Spades)]));
    assert_eq!(p.paired, hand_of(&[(Seven, Clubs), (Seven, Diamonds)]));
}

#[test]
fn discard_groups_pairs_by_value() {
    let mut p = player_with(
        "Computer1",
        PlayerType::Computer,
        &[(King, Clubs), (Two, Hearts), (King, Spades), (Two, Clubs), (Two, Spades), (Two, Diamonds), (Nine, Hearts)],
    );
    p.paired = hand_of(&[(Ace, Clubs), (Ace, Hearts)]);
    assert_eq!(p.discard_pairs(), Ok(3));
    assert_eq!(p.hand, hand_of(&[(Nine, Hearts)]));
    assert_eq!(
        p.paired,
        hand_of(&[
            (Ace, Clubs), (Ace, Hearts),
            (Two, Hearts), (Two, Clubs), (Two, Spades), (Two, Diamonds),
            (King, Clubs), (King, Spades),
        ]),
    );
}

#[test]
fn discard_on_empty_hand() {
    let mut p = Player::new("Human0", PlayerType::Human);
    assert_eq!(p.discard_pairs(), Ok(0));
    assert!(p.hand.is_empty());
    assert!(p.paired.is_empty());
}

#[test]
fn values_and_matches() {
    let p = player_with("Human0", PlayerType::Human, &[(Four, Clubs), (Jack, Hearts), (Four, Spades)]);
    assert!(p.has_value(Four));
    assert!(p.has_value(Jack));
    assert!(!p.has_value(Ace));
    assert_eq!(p.match_cards_from_value(Four), vec![(0, Card::new(Four, Clubs)), (2, Card::new(Four, Spades))]);
    assert!(p.match_cards_from_value(Ace).is_empty());
    assert_eq!(p.say("Go fish!"), "Human0: \"Go fish!\"");
}

#[test]
fn request_moves_lowest_king() {
    let mut game = FishGame {
        river: Deck::default(),
        players: vec![
            player_with("Human0", PlayerType::Human, &[(Five, Clubs)]),
            player_with("Computer1", PlayerType::Computer, &[(Three, Diamonds), (King, Clubs), (Six, Hearts), (King, Hearts)]),
        ],
    };
    let index = PlayerIndex::new(2);
    assert_eq!(game.ask(&index, King), Some(Card::new(King, Clubs)));
    assert_eq!(game.players[1].hand, hand_of(&[(Three, Diamonds), (Six, Hearts), (King, Hearts)]));
    assert_eq!(game.players[0].hand, hand_of(&[(Five, Clubs), (King, Clubs)]));
    assert_eq!(game.players[1].match_cards_from_value(King).len(), 1);
    assert_eq!(game.players[0].match_cards_from_value(King).len(), 1);
    assert_eq!(game.river.len(), 52);
}

#[test]
fn request_completes_a_pair() {
    let mut game = FishGame {
        river: Deck::default(),
        players: vec![
            player_with("Human0", PlayerType::Human, &[(King, Spades), (Five, Clubs)]),
            player_with("Computer1", PlayerType::Computer, &[(King, Clubs), (King, Hearts)]),
        ],
    };
    let index = PlayerIndex::new(2);
    assert_eq!(game.ask(&index, King), Some(Card::new(King, Clubs)));
    assert_eq!(game.players[0].hand, hand_of(&[(Five, Clubs)]));
    assert_eq!(game.players[0].paired, hand_of(&[(King, Spades), (King, Clubs)]));
    assert_eq!(game.players[1].hand, hand_of(&[(King, Hearts)]));
}

#[test]
fn request_without_match_changes_nothing() {
    let mut game = FishGame {
        river: Deck::default(),
        players: vec![
            player_with("Human0", PlayerType::Human, &[(Ace, Spades)]),
            player_with("Computer1", PlayerType::Computer, &[(King, Clubs)]),
        ],
    };
    let index = PlayerIndex::new(2);
    assert_eq!(game.ask(&index, Ace), None);
    assert_eq!(game.players[0].hand.len(), 1);
    assert_eq!(game.players[1].hand.len(), 1);
}

#[test]
fn fishing_draws_from_the_river() {
    let mut game = FishGame {
        river: Deck::default(),
        players: vec![
            player_with("Human0", PlayerType::Human, &[(Two, Hearts)]),
            player_with("Computer1", PlayerType::Computer, &[(King, Clubs)]),
        ],
    };
    let index = PlayerIndex::new(2);
    // position 1 of the laid-out deck is the two of spades: it pairs
    assert_eq!(game.go_fish(&index, 1), Ok(Card::new(Two, Spades)));
    assert!(game.players[0].hand.is_empty());
    assert_eq!(game.players[0].paired, hand_of(&[(Two, Hearts), (Two, Spades)]));
    assert_eq!(game.river.len(), 51);
    assert_eq!(game.go_fish(&index, 51), Err(DealError::OutOfBounds));
    assert_eq!(game.river.len(), 51);
    game.river = Deck::default();
    while !game.river.is_empty() {
        game.go_fish(&index, 0).unwrap();
    }
    assert_eq!(game.go_fish(&index, 0), Err(DealError::NothingToGive));
}

#[test]
fn first_deal_gives_five_each() {
    let game = FishGame::with_river(2, Deck::default()).unwrap();
    assert_eq!(game.players.len(), 2);
    assert_eq!(game.players[0].name, "Human0");
    assert_eq!(game.players[1].name, "Computer1");
    assert_eq!(game.players[1].player_type, PlayerType::Computer);
    assert_eq!(game.river.len(), 42);
    // spades ace to five, then spades six to ten: no pairs
    assert_eq!(game.players[0].hand.len(), 5);
    assert_eq!(game.players[1].hand.cards().into_vec()[0], Card::new(Value::Six, Suit::Spades));
    assert_eq!(total_cards(&game), 52);
}

#[test]
fn seating_limits() {
    assert_eq!(FishGame::new(0).unwrap().players.len(), 1);
    assert_eq!(FishGame::new(10).unwrap().players.len(), 10);
    assert_eq!(FishGame::new(10).unwrap().players[9].name, "Computer9");
    assert_eq!(FishGame::new(11).unwrap_err(), DealError::NothingToGive);
    assert!(FishGame::with_river(3, Deck::default()).is_ok());
}

#[test]
fn player_index_goes_round() {
    let mut index = PlayerIndex::new(3);
    assert_eq!((index.current, index.next), (0, 1));
    index.increment();
    assert_eq!((index.current, index.next), (1, 2));
    index.increment();
    assert_eq!((index.current, index.next), (2, 0));
    index.increment();
    assert_eq!((index.current, index.next), (0, 1));
}

#[test]
fn winner_prefers_most_pairs_then_first_seat() {
    let mut a = Player::new("Human0", PlayerType::Human);
    a.paired = hand_of(&[(Two, Clubs), (Two, Hearts)]);
    let mut b = Player::new("Computer1", PlayerType::Computer);
    b.paired = hand_of(&[(Three, Clubs), (Three, Hearts), (Four, Clubs), (Four, Hearts)]);
    let mut c = Player::new("Computer2", PlayerType::Computer);
    c.paired = hand_of(&[(Five, Clubs), (Five, Hearts), (Six, Clubs), (Six, Hearts)]);
    let game = FishGame { river: Deck::default(), players: vec![a, b, c] };
    assert_eq!(game.winner(), Some(1));
    let empty = FishGame { river: Deck::default(), players: vec![] };
    assert_eq!(empty.winner(), None);
}

#[test]
fn board_shows_humans_cards_and_computers_counts() {
    let mut human = player_with("Human0", PlayerType::Human, &[(Ten, Hearts), (Ace, Spades)]);
    human.paired = hand_of(&[(Two, Clubs), (Two, Diamonds)]);
    let computer = player_with("Computer1", PlayerType::Computer, &[(Three, Clubs)]);
    let game = FishGame { river: Deck::default(), players: vec![human, computer] };
    assert_eq!(
        game.board(),
        "River: [0-52]\n\nHuman0: [10♥, A♠]\nPaired: [2♣, 2♦]\n\nComputer1: [1]\nPaired: [0]\n\n",
    );
}

#[test]
fn computer_choices_stay_in_range() {
    let mut rng = rand::rngs::StdRng::seed_from_u64(3);
    let p = player_with("Computer1", PlayerType::Computer, &[(Four, Clubs), (Jack, Hearts)]);
    for _ in 0..50 {
        let v = computer_ask_value(&p, &mut rng);
        assert!(v == Four || v == Jack);
        assert!(computer_ask_index(7, &mut rng) < 7);
    }
}

#[test]
fn typed_river_positions() {
    assert_eq!(parse_index("0", 5), Ok(0));
    assert_eq!(parse_index("4", 5), Ok(4));
    assert_eq!(parse_index("007", 10), Ok(7));
    assert!(parse_index("5", 5).is_err());
    assert!(parse_index("", 5).is_err());
    assert!(parse_index("x1", 5).is_err());
    assert_eq!(parse_index("12", 41), Ok(12));
    assert!(parse_index("99999999999999999999999", 41).is_err());
    assert!(parse_index("3", 0).is_err());
    assert_eq!(parse_index("+3", 5), Ok(3));
    assert_eq!(parse_index("+0", 1), Ok(0));
    assert!(parse_index("+", 5).is_err());
    assert!(parse_index("++3", 5).is_err());
    assert!(parse_index("-3", 5).is_err());
    assert!(parse_index("+7", 5).is_err());
}

#[test]
fn decimal_names() {
    assert_eq!(decimal_string(0), "0");
    assert_eq!(decimal_string(7), "7");
    assert_eq!(decimal_string(40), "40");
    assert_eq!(decimal_string(1203), "1203");
}

#[test]
fn fresh_game_seats_and_hands() {
    let game = FishGame::new(3).unwrap();
    assert_eq!(game.players[0].name, "Human0");
    assert_eq!(game.players[0].player_type, PlayerType::Human);
    assert_eq!(game.players[2].name, "Computer2");
    assert_eq!(game.players[2].player_type, PlayerType::Computer);
    for p in game.players.iter() {
        assert_eq!(p.hand.len() + p.paired.len(), 5);
        let hand = p.hand.cards().into_vec();
        for i in 0..hand.len() {
            for j in (i + 1)..hand.len() {
                assert_ne!(hand[i].value, hand[j].value);
            }
        }
    }
    assert_eq!(total_cards(&game), 52);
}

#[test]
fn seeded_two_player_game_keeps_every_card() {
    let mut rng = rand::rngs::StdRng::seed_from_u64(42);
    let river = Deck::new_with(&mut rng);
    let mut game = FishGame::with_river(2, river).unwrap();
    assert_eq!(total_cards(&game), 52);
    let mut index = PlayerIndex::new(game.players.len());
    let mut turns = 0;
    while !game.has_empty_hand() {
        let value = computer_ask_value(&game.players[index.current], &mut rng);
        if game.ask(&index, value).is_none() && !game.river.is_empty() {
            let at = computer_ask_index(game.river.len(), &mut rng);
            game.go_fish(&index, at).unwrap();
        }
        index.increment();
        turns += 1;
        assert_eq!(total_cards(&game), 52);
        for p in game.players.iter() {
            assert_eq!(p.paired.len() % 2, 0);
        }
        assert!(turns < 10_000);
    }
    assert!(game.players.iter().any(|p| p.hand.is_empty()));
    assert!(game.winner().is_some());
}
