//! Playing cards, the piles that hold them, and the rules of two games
//! played with them: War and Go Fish.

mod card;
mod deal;
mod pile;
mod shuffle;
mod game;
mod war;
mod player;
mod fish;
mod input;
mod stats;

pub use crate::card::{Card, Value, Suit, InvalidInput};
pub use crate::card::{rank, rank_order, number_value, char_value, value_label, suit_symbol, suit_letter};
pub use crate::deal::{Deal, Give, Take, DealError, DealResult, give_post, deal_post};
pub use crate::pile::{Cards, CardsMut, CardIter, Deck, Hand};
pub use crate::pile::{standard_deck, suit_at, joined_text, list_text, lemma_standard_deck_distinct};
pub use crate::shuffle::Shuffle;
pub use crate::game::{Game, hands_cards, dealt_from};
pub use crate::war::{round, play, play_game, played_from, winner_of, ties, beats, war_outcome, round_outcome, after_rounds, cards_of, distinct_cards};
pub use crate::war::{lemma_war_keeps_cards, lemma_round_keeps_cards, lemma_round_keeps_distinct};
pub use crate::player::{Player, PlayerType, MatchIndex, decimal_string};
pub use crate::player::{count_value, even_part, is_paired, kept_upto, pairs_of_value_upto, index_value, pairs_upto};
pub use crate::player::{lemma_discard_keeps_cards, lemma_unpaired_count, unpaired, discarded, values_present_upto, matches_upto, holds_value, decimal, digit_text};
pub use crate::fish::{FishGame, PlayerIndex, computer_ask_value, computer_ask_index};
pub use crate::fish::{seat_count, seat_name, seat_type, dealt_player, first_with_value, lowest_match, after_catch};
pub use crate::fish::{player_text, players_text, board_text, player_cards, table_cards, five_of, fresh_player, lemma_catch_adds_card};
pub use crate::input::{parse_index, unsigned_part, is_digit, all_digits, digits_value, index_of_token};
pub use crate::stats::{get_closest, closest_key};
