//! Cards as suit and rank, their values in a deck, and their written form.

use crate::text::chars_of;
use std::str::FromStr;
use vstd::prelude::*;
use vstd::std_specs::convert::{FromSpecImpl, TryFromSpecImpl};

verus! {

/// The number of cards in a suit.
pub const SUIT_SIZE: u8 = 13;

/// The highest value of a card: the second joker.
pub const MAX_CARD_VALUE: u8 = 54;

/// The value of the first joker.
pub const JOKER_A: u8 = 53;

/// The value of the second joker.
pub const JOKER_B: u8 = 54;

/// Why a value or a text is no card.
#[derive(Debug)]
pub enum CardConversionError {
    /// The value is not in `1..=54`.
    ValueOutOfRange,
    /// The suit is written with an unknown sign.
    UnknownSuit,
    /// The text has no character at all, or more than three.
    WrongLength(usize),
    /// The rank is neither one of the letters `A J Q K` nor a number from 1 to 13.
    CouldNotParseRank,
    /// The joker is neither `A` nor `B`.
    UnknownJoker(String),
}

/// The four suits in their order in the deck, and the jokers as a fifth.
#[derive(Debug, Clone, Copy, PartialEq, Eq, Structural)]
pub enum Suit {
    Club,
    Diamond,
    Heart,
    Spade,
    Joker,
}

/// The rank of a card in its suit. Aces are `Number(1)`. The jokers are
/// `Number(1)` and `Number(2)` of their own suit.
#[derive(Debug, Clone, Copy, PartialEq, Eq, Structural)]
pub enum Rank {
    Number(u8),
    Jack,
    Queen,
    King,
}

/// The suit in which the card of value `v` lies, for `v` in `1..=54`.
pub open spec fn suit_of_value(v: int) -> Suit {
    if v <= 13 {
        Suit::Club
    } else if v <= 26 {
        Suit::Diamond
    } else if v <= 39 {
        Suit::Heart
    } else if v <= 52 {
        Suit::Spade
    } else {
        Suit::Joker
    }
}

/// The rank that stands `r`-th in its suit, for `r` in `1..=13`.
pub open spec fn rank_of_number(r: int) -> Rank {
    if r <= 10 {
        Rank::Number(r as u8)
    } else if r == 11 {
        Rank::Jack
    } else if r == 12 {
        Rank::Queen
    } else {
        Rank::King
    }
}

/// The rank of the card of value `v`, for `v` in `1..=54`.
pub open spec fn rank_of_value(v: int) -> Rank {
    rank_of_number((v - 1) % 13 + 1)
}

/// Whether a card of this suit and rank exists: ace to king in the four
/// suits, and two jokers.
pub open spec fn valid_pair(suit: Suit, rank: Rank) -> bool {
    match rank {
        Rank::Number(n) => if suit == Suit::Joker {
            1 <= n <= 2
        } else {
            1 <= n <= 10
        },
        _ => suit != Suit::Joker,
    }
}

/// The value of a card in the deck: thirteen for each suit before its own,
/// and its rank.
pub open spec fn value_of(suit: Suit, rank: Rank) -> int {
    suit.index() * 13 + rank.number()
}

/// The suit that a sign stands for. Each suit has a letter, in either case,
/// and the four suits of cards have a black and a white sign.
pub open spec fn suit_of_sign(c: char) -> Option<Suit> {
    if c == 'C' || c == 'c' || c == '♣' || c == '♧' {
        Some(Suit::Club)
    } else if c == 'D' || c == 'd' || c == '♦' || c == '♢' {
        Some(Suit::Diamond)
    } else if c == 'H' || c == 'h' || c == '♥' || c == '♡' {
        Some(Suit::Heart)
    } else if c == 'S' || c == 's' || c == '♠' || c == '♤' {
        Some(Suit::Spade)
    } else if c == 'J' || c == 'j' {
        Some(Suit::Joker)
    } else {
        None
    }
}

/// The suit that a text stands for: the text is one sign, and nothing else.
pub open spec fn suit_of_text(t: Seq<char>) -> Result<Suit, CardConversionError> {
    if t.len() == 1 && suit_of_sign(t[0]) is Some {
        Ok(suit_of_sign(t[0])->0)
    } else {
        Err(CardConversionError::UnknownSuit)
    }
}

/// Whether `c` is one of the digits `0` to `9`.
pub open spec fn is_digit(c: char) -> bool {
    '0' <= c <= '9'
}

/// The number that a rank of one or two characters is written as: one or two
/// digits, or a plus sign and a digit.
pub open spec fn number_of_text(t: Seq<char>) -> Option<int> {
    if t.len() == 1 && is_digit(t[0]) {
        Some(t[0] as int - '0' as int)
    } else if t.len() == 2 && is_digit(t[0]) && is_digit(t[1]) {
        Some((t[0] as int - '0' as int) * 10 + (t[1] as int - '0' as int))
    } else if t.len() == 2 && t[0] == '+' && is_digit(t[1]) {
        Some(t[1] as int - '0' as int)
    } else {
        None
    }
}

/// The rank that the text before the suit's sign stands for, in one of the
/// four suits: a letter for ace, jack, queen or king, or a number from 1 to 13.
pub open spec fn rank_of_text(t: Seq<char>) -> Option<Rank> {
    if t =~= seq!['A'] || t =~= seq!['a'] {
        Some(Rank::Number(1))
    } else if t =~= seq!['J'] || t =~= seq!['j'] {
        Some(Rank::Jack)
    } else if t =~= seq!['Q'] || t =~= seq!['q'] {
        Some(Rank::Queen)
    } else if t =~= seq!['K'] || t =~= seq!['k'] {
        Some(Rank::King)
    } else {
        match number_of_text(t) {
            Some(r) => if 1 <= r <= 13 {
                Some(rank_of_number(r))
            } else {
                None
            },
            None => None,
        }
    }
}

/// The rank of the joker that the text before the sign `J` stands for.
pub open spec fn joker_of_text(t: Seq<char>) -> Option<Rank> {
    if t =~= seq!['A'] || t =~= seq!['a'] {
        Some(Rank::Number(1))
    } else if t =~= seq!['B'] || t =~= seq!['b'] {
        Some(Rank::Number(2))
    } else {
        None
    }
}

/// The suit and rank that a text of one to three characters stands for: the
/// last character is the suit's sign, what stands before it is the rank.
pub open spec fn card_of_text(t: Seq<char>) -> Option<(Suit, Rank)> {
    if 1 <= t.len() <= 3 {
        match suit_of_sign(t.last()) {
            Some(Suit::Joker) => match joker_of_text(t.drop_last()) {
                Some(rank) => Some((Suit::Joker, rank)),
                None => None,
            },
            Some(suit) => match rank_of_text(t.drop_last()) {
                Some(rank) => Some((suit, rank)),
                None => None,
            },
            None => None,
        }
    } else {
        None
    }
}

/// The value of the card that a text stands for.
pub open spec fn value_of_text(t: Seq<char>) -> u8 {
    match card_of_text(t) {
        Some((suit, rank)) => value_of(suit, rank) as u8,
        None => 0,
    }
}

/// Whether `reading` is what reading a card from `text` gives: the card
/// that the text stands for, or the first fault of the text. The faults are
/// looked for in this order: the length, the sign of the suit, the rank.
pub open spec fn reads_as(text: Seq<char>, reading: Result<Card, CardConversionError>) -> bool {
    match reading {
        Ok(card) => card_of_text(text) == Some(card@),
        Err(CardConversionError::WrongLength(len)) => len == text.len() && !(1 <= len <= 3),
        Err(CardConversionError::UnknownSuit) => 1 <= text.len() <= 3 && suit_of_sign(
            text.last(),
        ) is None,
        Err(CardConversionError::UnknownJoker(label)) => {
            &&& 1 <= text.len() <= 3
            &&& suit_of_sign(text.last()) == Some(Suit::Joker)
            &&& joker_of_text(text.drop_last()) is None
            &&& label@ == text.drop_last()
        },
        Err(CardConversionError::CouldNotParseRank) => {
            &&& 1 <= text.len() <= 3
            &&& suit_of_sign(text.last()) is Some
            &&& suit_of_sign(text.last()) != Some(Suit::Joker)
            &&& rank_of_text(text.drop_last()) is None
        },
        Err(CardConversionError::ValueOutOfRange) => false,
    }
}

/// How a rank is written: the jokers as `A` and `B`, the court cards as
/// `J`, `Q` and `K`, all others as their number.
pub open spec fn rank_text(suit: Suit, rank: Rank) -> Seq<char> {
    match rank {
        Rank::Number(n) => if suit == Suit::Joker {
            if n == 1 {
                seq!['A']
            } else {
                seq!['B']
            }
        } else if n == 10 {
            seq!['1', '0']
        } else {
            seq![(n + '0' as int) as char]
        },
        Rank::Jack => seq!['J'],
        Rank::Queen => seq!['Q'],
        Rank::King => seq!['K'],
    }
}

/// How a card is written: its rank, then its suit as a letter or as a sign.
pub open spec fn card_text(suit: Suit, rank: Rank, ascii: bool) -> Seq<char> {
    rank_text(suit, rank).push(
        if ascii {
            suit.letter()
        } else {
            suit.sign()
        },
    )
}

impl Suit {
    /// The place of the suit in the deck, counted from zero.
    pub open spec fn index(self) -> int {
        match self {
            Suit::Club => 0,
            Suit::Diamond => 1,
            Suit::Heart => 2,
            Suit::Spade => 3,
            Suit::Joker => 4,
        }
    }

    /// The letter of the suit.
    pub open spec fn letter(self) -> char {
        match self {
            Suit::Club => 'C',
            Suit::Diamond => 'D',
            Suit::Heart => 'H',
            Suit::Spade => 'S',
            Suit::Joker => 'J',
        }
    }

    /// The white sign of the suit; the jokers have their letter.
    pub open spec fn sign(self) -> char {
        match self {
            Suit::Club => '♧',
            Suit::Diamond => '♢',
            Suit::Heart => '♡',
            Suit::Spade => '♤',
            Suit::Joker => 'J',
        }
    }

    fn ordinal(self) -> (i: u8)
        ensures
            i == self.index(),
    {
        match self {
            Suit::Club => 0,
            Suit::Diamond => 1,
            Suit::Heart => 2,
            Suit::Spade => 3,
            Suit::Joker => 4,
        }
    }

    fn letter_char(self) -> (c: char)
        ensures
            c == self.letter(),
    {
        match self {
            Suit::Club => 'C',
            Suit::Diamond => 'D',
            Suit::Heart => 'H',
            Suit::Spade => 'S',
            Suit::Joker => 'J',
        }
    }

    fn sign_char(self) -> (c: char)
        ensures
            c == self.sign(),
    {
        match self {
            Suit::Club => '♧',
            Suit::Diamond => '♢',
            Suit::Heart => '♡',
            Suit::Spade => '♤',
            Suit::Joker => 'J',
        }
    }

    /// The suit that the sign `c` stands for, if any.
    pub fn from_sign(c: char) -> (suit: Option<Suit>)
        ensures
            suit == suit_of_sign(c),
    {
        if c == 'C' || c == 'c' || c == '♣' || c == '♧' {
            Some(Suit::Club)
        } else if c == 'D' || c == 'd' || c == '♦' || c == '♢' {
            Some(Suit::Diamond)
        } else if c == 'H' || c == 'h' || c == '♥' || c == '♡' {
            Some(Suit::Heart)
        } else if c == 'S' || c == 's' || c == '♠' || c == '♤' {
            Some(Suit::Spade)
        } else if c == 'J' || c == 'j' {
            Some(Suit::Joker)
        } else {
            None
        }
    }

    /// The suit written with its letter.
    pub fn to_ascii_string(&self) -> (text: String)
        ensures
            text@ == seq![self.letter()],
    {
        let mut text = String::new();
        text.push(self.letter_char());
        text
    }

    /// The suit written with its sign.
    pub fn to_string(&self) -> (text: String)
        ensures
            text@ == seq![self.sign()],
    {
        let mut text = String::new();
        text.push(self.sign_char());
        text
    }

    /// The suit that `s` stands for: `s` is one sign, and nothing else.
    pub fn from_str(s: &str) -> (suit: Result<Suit, CardConversionError>)
        ensures
            suit == suit_of_text(s@),
    {
        let chars = chars_of(s);
        if chars.len() != 1 {
            return Err(CardConversionError::UnknownSuit);
        }
        match Suit::from_sign(chars[0]) {
            Some(suit) => Ok(suit),
            None => Err(CardConversionError::UnknownSuit),
        }
    }
}

impl TryFrom<u8> for Suit {
    type Error = CardConversionError;

    fn try_from(value: u8) -> (suit: Result<Self, Self::Error>) {
        if value == 0 || value > MAX_CARD_VALUE {
            return Err(CardConversionError::ValueOutOfRange);
        }
        let suit = match (value - 1) / SUIT_SIZE {
            0 => Suit::Club,
            1 => Suit::Diamond,
            2 => Suit::Heart,
            3 => Suit::Spade,
            _ => Suit::Joker,
        };
        Ok(suit)
    }
}

impl TryFromSpecImpl<u8> for Suit {
    open spec fn obeys_try_from_spec() -> bool {
        true
    }

    open spec fn try_from_spec(value: u8) -> Result<Self, Self::Error> {
        if 1 <= value <= 54 {
            Ok(suit_of_value(value as int))
        } else {
            Err(CardConversionError::ValueOutOfRange)
        }
    }
}

impl FromStr for Suit {
    type Err = CardConversionError;

    fn from_str(s: &str) -> (suit: Result<Self, Self::Err>)
        ensures
            suit == suit_of_text(s@),
    {
        Suit::from_str(s)
    }
}

impl Rank {
    /// The place of the rank in its suit, counted from one.
    pub open spec fn number(self) -> int {
        match self {
            Rank::Number(n) => n as int,
            Rank::Jack => 11,
            Rank::Queen => 12,
            Rank::King => 13,
        }
    }

    /// The place of the rank in its suit, counted from one.
    pub fn value(&self) -> (n: u8)
        ensures
            n == self.number(),
    {
        match self {
            Rank::Number(n) => *n,
            Rank::Jack => 11,
            Rank::Queen => 12,
            Rank::King => 13,
        }
    }

    /// Whether a card of the given suit has this rank.
    pub fn fits(&self, suit: Suit) -> (valid: bool)
        ensures
            valid == valid_pair(suit, *self),
    {
        match self {
            Rank::Number(n) => if suit == Suit::Joker {
                1 <= *n && *n <= 2
            } else {
                1 <= *n && *n <= 10
            },
            _ => suit != Suit::Joker,
        }
    }

    fn from_number(r: u8) -> (rank: Rank)
        requires
            1 <= r <= 13,
        ensures
            rank == rank_of_number(r as int),
    {
        if r <= 10 {
            Rank::Number(r)
        } else if r == 11 {
            Rank::Jack
        } else if r == 12 {
            Rank::Queen
        } else {
            Rank::King
        }
    }
}

impl TryFrom<u8> for Rank {
    type Error = CardConversionError;

    fn try_from(value: u8) -> (rank: Result<Self, Self::Error>) {
        if value == 0 || value > MAX_CARD_VALUE {
            return Err(CardConversionError::ValueOutOfRange);
        }
        Ok(Rank::from_number(((value - 1) % SUIT_SIZE) + 1))
    }
}

impl TryFromSpecImpl<u8> for Rank {
    open spec fn obeys_try_from_spec() -> bool {
        true
    }

    open spec fn try_from_spec(value: u8) -> Result<Self, Self::Error> {
        if 1 <= value <= 54 {
            Ok(rank_of_value(value as int))
        } else {
            Err(CardConversionError::ValueOutOfRange)
        }
    }
}

/// A card: one of ace to king in one of the four suits, or one of two
/// jokers.
#[derive(Debug, Clone, Copy, PartialEq, Eq, Structural)]
pub struct Card {
    suit: Suit,
    rank: Rank,
}

impl View for Card {
    type V = (Suit, Rank);

    closed spec fn view(&self) -> (Suit, Rank) {
        (self.suit, self.rank)
    }
}

impl Card {
    #[verifier::type_invariant]
    closed spec fn exists_in_deck(self) -> bool {
        valid_pair(self.suit, self.rank)
    }

    /// The card of the given suit and rank.
    pub fn new(suit: Suit, rank: Rank) -> (card: Card)
        requires
            valid_pair(suit, rank),
        ensures
            card@ == (suit, rank),
    {
        Card { suit, rank }
    }

    pub fn suit(&self) -> (suit: Suit)
        ensures
            suit == self@.0,
    {
        self.suit
    }

    pub fn rank(&self) -> (rank: Rank)
        ensures
            rank == self@.1,
            valid_pair(self@.0, rank),
    {
        proof {
            use_type_invariant(self);
        }
        self.rank
    }

    /// The rank as it is written in front of the suit.
    fn rank_string(&self) -> (text: String)
        ensures
            text@ == rank_text(self@.0, self@.1),
            valid_pair(self@.0, self@.1),
    {
        proof {
            use_type_invariant(self);
        }
        let mut text = String::new();
        match self.rank {
            Rank::Number(n) => {
                if self.suit == Suit::Joker {
                    if n == 1 {
                        text.push('A');
                    } else {
                        text.push('B');
                    }
                } else if n == 10 {
                    text.push('1');
                    text.push('0');
                } else {
                    text.push((n + 48) as char);
                }
            },
            Rank::Jack => text.push('J'),
            Rank::Queen => text.push('Q'),
            Rank::King => text.push('K'),
        }
        assert(text@ =~= rank_text(self@.0, self@.1));
        text
    }

    /// The card written with the letter of its suit.
    pub fn to_ascii_string(&self) -> (text: String)
        ensures
            text@ == card_text(self@.0, self@.1, true),
    {
        let mut text = self.rank_string();
        text.push(self.suit.letter_char());
        text
    }

    /// The card written with the sign of its suit.
    pub fn to_string(&self) -> (text: String)
        ensures
            text@ == card_text(self@.0, self@.1, false),
    {
        let mut text = self.rank_string();
        text.push(self.suit.sign_char());
        text
    }

    /// The card that `s` is the written form of.
    ///
    /// `s` has one to three characters: the rank, and last the sign of the
    /// suit. The faults are looked for in this order: the length, the sign,
    /// the rank.
    pub fn from_str(s: &str) -> (card: Result<Card, CardConversionError>)
        ensures
            reads_as(s@, card),
    {
        let chars = chars_of(s);
        assert(chars@.subrange(0, chars@.len() as int) =~= s@);
        Card::from_chars(&chars, 0, chars.len())
    }

    /// The card that the characters of `chars` from index `from` up to index
    /// `to` are the written form of.
    pub fn from_chars(chars: &Vec<char>, from: usize, to: usize) -> (card: Result<
        Card,
        CardConversionError,
    >)
        requires
            from <= to <= chars@.len(),
        ensures
            reads_as(chars@.subrange(from as int, to as int), card),
    {
        let ghost text = chars@.subrange(from as int, to as int);
        let len = to - from;
        if len == 0 || len > 3 {
            return Err(CardConversionError::WrongLength(len));
        }
        let suit = match Suit::from_sign(chars[to - 1]) {
            Some(suit) => suit,
            None => {
                return Err(CardConversionError::UnknownSuit);
            },
        };
        let ghost rank_part = text.drop_last();
        let first = if len >= 2 {
            chars[from]
        } else {
            ' '
        };
        let second = if len >= 3 {
            chars[from + 1]
        } else {
            ' '
        };
        if suit == Suit::Joker {
            if len == 2 && (first == 'A' || first == 'a') {
                assert(rank_part =~= seq![first]);
                Ok(Card { suit, rank: Rank::Number(1) })
            } else if len == 2 && (first == 'B' || first == 'b') {
                assert(rank_part =~= seq![first]);
                Ok(Card { suit, rank: Rank::Number(2) })
            } else {
                let mut label = String::new();
                if len >= 2 {
                    label.push(first);
                }
                if len >= 3 {
                    label.push(second);
                }
                assert(label@ =~= rank_part);
                assert(joker_of_text(rank_part) is None) by {
                    if rank_part.len() == 1 {
                        assert(rank_part[0] == first);
                    }
                }
                Err(CardConversionError::UnknownJoker(label))
            }
        } else {
            let number: Option<u8> = if len == 2 {
                assert(rank_part =~= seq![first]);
                if first == 'A' || first == 'a' {
                    Some(1)
                } else if first == 'J' || first == 'j' {
                    Some(11)
                } else if first == 'Q' || first == 'q' {
                    Some(12)
                } else if first == 'K' || first == 'k' {
                    Some(13)
                } else if '0' <= first && first <= '9' {
                    Some(first as u8 - 48)
                } else {
                    None
                }
            } else if len == 3 {
                assert(rank_part =~= seq![first, second]);
                if '0' <= first && first <= '9' && '0' <= second && second <= '9' {
                    Some((first as u8 - 48) * 10 + (second as u8 - 48))
                } else if first == '+' && '0' <= second && second <= '9' {
                    Some(second as u8 - 48)
                } else {
                    None
                }
            } else {
                assert(rank_part =~= Seq::<char>::empty());
                None
            };
            match number {
                Some(r) => if 1 <= r && r <= 13 {
                    Ok(Card { suit, rank: Rank::from_number(r) })
                } else {
                    Err(CardConversionError::CouldNotParseRank)
                },
                None => Err(CardConversionError::CouldNotParseRank),
            }
        }
    }
}

impl FromStr for Card {
    type Err = CardConversionError;

    fn from_str(s: &str) -> (card: Result<Self, Self::Err>)
        ensures
            reads_as(s@, card),
    {
        Card::from_str(s)
    }
}

impl Default for Card {
    /// The ace of clubs.
    fn default() -> (card: Self)
        ensures
            card@ == (Suit::Club, Rank::Number(1)),
    {
        Card { suit: Suit::Club, rank: Rank::Number(1) }
    }
}

impl From<Card> for u8 {
    fn from(card: Card) -> (value: Self) {
        proof {
            use_type_invariant(card);
        }
        card.suit.ordinal() * SUIT_SIZE + card.rank.value()
    }
}

impl FromSpecImpl<Card> for u8 {
    open spec fn obeys_from_spec() -> bool {
        true
    }

    open spec fn from_spec(card: Card) -> Self {
        value_of(card@.0, card@.1) as u8
    }
}

impl From<&Card> for u8 {
    fn from(card: &Card) -> (value: Self) {
        u8::from(*card)
    }
}

impl FromSpecImpl<&Card> for u8 {
    open spec fn obeys_from_spec() -> bool {
        true
    }

    open spec fn from_spec(card: &Card) -> Self {
        value_of(card@.0, card@.1) as u8
    }
}

impl TryFrom<u8> for Card {
    type Error = CardConversionError;

    fn try_from(value: u8) -> (card: Result<Self, Self::Error>) {
        if value == 0 || value > MAX_CARD_VALUE {
            return Err(CardConversionError::ValueOutOfRange);
        }
        let suit = match Suit::try_from(value) {
            Ok(suit) => suit,
            Err(e) => {
                return Err(e);
            },
        };
        let rank = match Rank::try_from(value) {
            Ok(rank) => rank,
            Err(e) => {
                return Err(e);
            },
        };
        Ok(Card { suit, rank })
    }
}

impl TryFromSpecImpl<u8> for Card {
    open spec fn obeys_try_from_spec() -> bool {
        true
    }

    open spec fn try_from_spec(value: u8) -> Result<Self, Self::Error> {
        if 1 <= value <= 54 {
            Ok(card_of_value(value as int))
        } else {
            Err(CardConversionError::ValueOutOfRange)
        }
    }
}

/// The card of value `v`, for `v` in `1..=54`.
pub closed spec fn card_of_value(v: int) -> Card {
    Card { suit: suit_of_value(v), rank: rank_of_value(v) }
}

/// A card is known by its suit and rank.
pub proof fn lemma_card_of_value(v: int)
    requires
        1 <= v <= 54,
    ensures
        card_of_value(v)@ == (suit_of_value(v), rank_of_value(v)),
        valid_pair(suit_of_value(v), rank_of_value(v)),
        value_of(suit_of_value(v), rank_of_value(v)) == v,
{
}

/// A card reads back from its written form, with the suit as a letter or as
/// a sign.
pub proof fn lemma_written_card_reads_back(suit: Suit, rank: Rank, ascii: bool)
    requires
        valid_pair(suit, rank),
    ensures
        card_of_text(card_text(suit, rank, ascii)) == Some((suit, rank)),
{
    let text = card_text(suit, rank, ascii);
    let sign = if ascii {
        suit.letter()
    } else {
        suit.sign()
    };
    assert(text.last() == sign);
    assert(suit_of_sign(sign) == Some(suit));
    assert(text.drop_last() =~= rank_text(suit, rank));
    match rank {
        Rank::Number(n) => {
            if suit != Suit::Joker && n != 10 {
                let digit = (n + '0' as int) as char;
                assert(rank_text(suit, rank) =~= seq![digit]);
                assert(number_of_text(seq![digit]) == Some(n as int));
            }
            if suit != Suit::Joker && n == 10 {
                assert(number_of_text(seq!['1', '0']) == Some(10int));
            }
        },
        _ => {},
    }
}

/// The cards and the values `1..=54` stand for each other: the card of a
/// card's value is that card.
pub proof fn lemma_value_of_card(suit: Suit, rank: Rank)
    requires
        valid_pair(suit, rank),
    ensures
        1 <= value_of(suit, rank) <= 54,
        suit_of_value(value_of(suit, rank)) == suit,
        rank_of_value(value_of(suit, rank)) == rank,
{
}

} // verus!
