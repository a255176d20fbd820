//! The playing card: a face value and a suit.

use vstd::prelude::*;

verus! {

/// The face value of a card, lowest first.
#[derive(Debug, Copy, Clone, PartialEq, Eq, Structural, PartialOrd, Ord, Hash)]
pub enum Value {
    Two,
    Three,
    Four,
    Five,
    Six,
    Seven,
    Eight,
    Nine,
    Ten,
    Jack,
    Queen,
    King,
    Ace,
}

/// The suit of a card
/// (♦Diamonds, ♣Clubs, ♥Hearts, ♠Spades)
#[derive(Debug, Copy, Clone, PartialEq, Eq, Structural, PartialOrd, Ord, Hash)]
pub enum Suit {
    ///♦
    Diamonds,
    ///♣
    Clubs,
    ///♥
    Hearts,
    ///♠
    Spades,
}

/// The playing card
#[derive(Debug, Copy, Clone, PartialEq, Eq, Structural, Hash)]
pub struct Card {
    pub value: Value,
    pub suit: Suit,
}

/// A rank token that names no face value.
#[derive(Debug, Copy, Clone, PartialEq, Eq, Structural)]
pub struct InvalidInput;

/// The weight by which two cards are compared: two counts 2, the ace counts 14.
pub open spec fn rank(v: Value) -> int {
    match v {
        Value::Two => 2,
        Value::Three => 3,
        Value::Four => 4,
        Value::Five => 5,
        Value::Six => 6,
        Value::Seven => 7,
        Value::Eight => 8,
        Value::Nine => 9,
        Value::Ten => 10,
        Value::Jack => 11,
        Value::Queen => 12,
        Value::King => 13,
        Value::Ace => 14,
    }
}

/// The face value that a number from 1 to 13 stands for when a deck is laid
/// out: 1 is the ace, every other number is the value of that rank.
pub open spec fn number_value(n: int) -> Value
    recommends
        1 <= n <= 13,
{
    if n == 1 {
        Value::Ace
    } else if n == 2 {
        Value::Two
    } else if n == 3 {
        Value::Three
    } else if n == 4 {
        Value::Four
    } else if n == 5 {
        Value::Five
    } else if n == 6 {
        Value::Six
    } else if n == 7 {
        Value::Seven
    } else if n == 8 {
        Value::Eight
    } else if n == 9 {
        Value::Nine
    } else if n == 10 {
        Value::Ten
    } else if n == 11 {
        Value::Jack
    } else if n == 12 {
        Value::Queen
    } else {
        Value::King
    }
}

/// The face value that a typed rank character names, if any:
/// `0` is the ten, `1` and `A` the ace, letters in either case.
pub open spec fn char_value(c: char) -> Option<Value> {
    if c == '2' {
        Some(Value::Two)
    } else if c == '3' {
        Some(Value::Three)
    } else if c == '4' {
        Some(Value::Four)
    } else if c == '5' {
        Some(Value::Five)
    } else if c == '6' {
        Some(Value::Six)
    } else if c == '7' {
        Some(Value::Seven)
    } else if c == '8' {
        Some(Value::Eight)
    } else if c == '9' {
        Some(Value::Nine)
    } else if c == '0' {
        Some(Value::Ten)
    } else if c == 'J' || c == 'j' {
        Some(Value::Jack)
    } else if c == 'Q' || c == 'q' {
        Some(Value::Queen)
    } else if c == 'K' || c == 'k' {
        Some(Value::King)
    } else if c == 'A' || c == 'a' || c == '1' {
        Some(Value::Ace)
    } else {
        None
    }
}

/// How a face value is written.
pub open spec fn value_label(v: Value) -> Seq<char> {
    match v {
        Value::Two => "2"@,
        Value::Three => "3"@,
        Value::Four => "4"@,
        Value::Five => "5"@,
        Value::Six => "6"@,
        Value::Seven => "7"@,
        Value::Eight => "8"@,
        Value::Nine => "9"@,
        Value::Ten => "10"@,
        Value::Jack => "J"@,
        Value::Queen => "Q"@,
        Value::King => "K"@,
        Value::Ace => "A"@,
    }
}

/// The symbol of a suit.
pub open spec fn suit_symbol(s: Suit) -> Seq<char> {
    match s {
        Suit::Clubs => "♣"@,
        Suit::Diamonds => "♦"@,
        Suit::Hearts => "♥"@,
        Suit::Spades => "♠"@,
    }
}

/// The letter of a suit.
pub open spec fn suit_letter(s: Suit) -> Seq<char> {
    match s {
        Suit::Clubs => "C"@,
        Suit::Diamonds => "D"@,
        Suit::Hearts => "H"@,
        Suit::Spades => "S"@,
    }
}

impl Value {
    /// The face value that `n` stands for when a deck is laid out.
    pub fn from_number(n: u8) -> (v: Value)
        requires
            1 <= n <= 13,
        ensures
            v == number_value(n as int),
    {
        match n {
            1 => Value::Ace,
            2 => Value::Two,
            3 => Value::Three,
            4 => Value::Four,
            5 => Value::Five,
            6 => Value::Six,
            7 => Value::Seven,
            8 => Value::Eight,
            9 => Value::Nine,
            10 => Value::Ten,
            11 => Value::Jack,
            12 => Value::Queen,
            _ => Value::King,
        }
    }

    /// Reads a typed rank character.
    pub fn try_from_char(c: char) -> (r: Result<Value, InvalidInput>)
        ensures
            r is Ok <==> char_value(c) is Some,
            r is Ok ==> char_value(c) == Some(r->Ok_0),
    {
        match c {
            '2' => Ok(Value::Two),
            '3' => Ok(Value::Three),
            '4' => Ok(Value::Four),
            '5' => Ok(Value::Five),
            '6' => Ok(Value::Six),
            '7' => Ok(Value::Seven),
            '8' => Ok(Value::Eight),
            '9' => Ok(Value::Nine),
            '0' => Ok(Value::Ten),
            'J' | 'j' => Ok(Value::Jack),
            'Q' | 'q' => Ok(Value::Queen),
            'K' | 'k' => Ok(Value::King),
            'A' | 'a' | '1' => Ok(Value::Ace),
            _ => Err(InvalidInput),
        }
    }

    /// Reads a rank token of exactly one character.
    pub fn parse_token(s: &str) -> (r: Result<Value, InvalidInput>)
        ensures
            r is Ok <==> s@.len() == 1 && char_value(s@[0]) is Some,
            r is Ok ==> char_value(s@[0]) == Some(r->Ok_0),
    {
        if s.unicode_len() != 1 {
            return Err(InvalidInput);
        }
        Value::try_from_char(s.get_char(0))
    }

    /// How the face value is written.
    pub fn label(&self) -> (r: &'static str)
        ensures
            r@ == value_label(*self),
    {
        match self {
            Value::Two => "2",
            Value::Three => "3",
            Value::Four => "4",
            Value::Five => "5",
            Value::Six => "6",
            Value::Seven => "7",
            Value::Eight => "8",
            Value::Nine => "9",
            Value::Ten => "10",
            Value::Jack => "J",
            Value::Queen => "Q",
            Value::King => "K",
            Value::Ace => "A",
        }
    }
}

impl Suit {
    /// The symbol of the suit.
    pub fn symbol(&self) -> (r: &'static str)
        ensures
            r@ == suit_symbol(*self),
    {
        match self {
            Suit::Clubs => "♣",
            Suit::Diamonds => "♦",
            Suit::Hearts => "♥",
            Suit::Spades => "♠",
        }
    }

    /// The letter of the suit.
    pub fn letter(&self) -> (r: &'static str)
        ensures
            r@ == suit_letter(*self),
    {
        match self {
            Suit::Clubs => "C",
            Suit::Diamonds => "D",
            Suit::Hearts => "H",
            Suit::Spades => "S",
        }
    }
}

impl Card {
    pub fn new(value: Value, suit: Suit) -> (c: Card)
        ensures
            c == (Card { value, suit }),
    {
        Card { value, suit }
    }

    /// The value for comparing two cards
    pub fn cmp_value(&self) -> (r: u8)
        ensures
            r as int == rank(self.value),
    {
        match self.value {
            Value::Two => 2,
            Value::Three => 3,
            Value::Four => 4,
            Value::Five => 5,
            Value::Six => 6,
            Value::Seven => 7,
            Value::Eight => 8,
            Value::Nine => 9,
            Value::Ten => 10,
            Value::Jack => 11,
            Value::Queen => 12,
            Value::King => 13,
            Value::Ace => 14,
        }
    }

    /// The card written with its value and the symbol of its suit.
    pub fn to_string(&self) -> (r: String)
        ensures
            r@ == value_label(self.value) + suit_symbol(self.suit),
    {
        let mut s = String::from_str(self.value.label());
        s.append(self.suit.symbol());
        s
    }

    /// The card written with its value and the letter of its suit.
    pub fn short_name(&self) -> (r: String)
        ensures
            r@ == value_label(self.value) + suit_letter(self.suit),
    {
        let mut s = String::from_str(self.value.label());
        s.append(self.suit.letter());
        s
    }
}

impl Default for Card {
    /// The ace of spades.
    fn default() -> (c: Card)
        ensures
            c == (Card { value: Value::Ace, suit: Suit::Spades }),
    {
        Card { value: Value::Ace, suit: Suit::Spades }
    }
}

/// How two cards compare by their rank weight alone, suits aside.
pub open spec fn rank_order(a: Card, b: Card) -> std::cmp::Ordering {
    if rank(a.value) < rank(b.value) {
        std::cmp::Ordering::Less
    } else if rank(a.value) > rank(b.value) {
        std::cmp::Ordering::Greater
    } else {
        std::cmp::Ordering::Equal
    }
}

impl PartialOrd for Card {
    /// Cards are ordered by rank weight; two cards of one rank compare equal
    /// whatever their suits.
    fn partial_cmp(&self, other: &Card) -> (r: Option<std::cmp::Ordering>) {
        let a = self.cmp_value();
        let b = other.cmp_value();
        if a < b {
            Some(std::cmp::Ordering::Less)
        } else if a > b {
            Some(std::cmp::Ordering::Greater)
        } else {
            Some(std::cmp::Ordering::Equal)
        }
    }
}

impl vstd::std_specs::cmp::PartialOrdSpecImpl for Card {
    open spec fn obeys_partial_cmp_spec() -> bool {
        true
    }

    open spec fn partial_cmp_spec(&self, other: &Card) -> Option<std::cmp::Ordering> {
        Some(rank_order(*self, *other))
    }
}

} // verus!
