//! The deck of cards and the four moves that the cipher makes on it.

use crate::card::{
    card_of_text, card_text, is_digit, lemma_card_of_value, lemma_value_of_card, rank_of_value,
    reads_as, suit_of_sign, suit_of_value, value_of_text, Card, CardConversionError, Suit, JOKER_A,
    JOKER_B,
};
use crate::model::{
    bottom_cut, count_cut, is_deck, is_joker_of, keyed, lemma_count_cut_is_deck,
    lemma_deck_contains, lemma_keyed_by_nothing, lemma_pushed_is_deck, lemma_same_cards_is_deck,
    lemma_sorted_is_deck, lemma_triple_cut_is_deck, lies_at, position, pushed, sorted_deck,
    stepped, tapped, triple_cut,
};
use crate::text::chars_of;
use crate::textbyte::{letters, textbyte};
use std::str::FromStr;
use vstd::prelude::*;
use vstd::std_specs::convert::{FromSpecImpl, TryFromSpecImpl};

verus! {

/// The size of the deck that the cipher is played with: 52 cards and two
/// jokers.
pub const DEFAULT_DECK_SIZE: usize = 54;

/// Whether `v` is one of the two jokers of a deck of `N` cards, which are its
/// two highest values.
pub fn is_joker<const N: usize>(v: u8) -> (joker: bool)
    requires
        N >= 1,
    ensures
        joker == is_joker_of(v, N as int),
{
    let v = v as usize;
    v == N || v == N - 1
}

/// The random number generator of a thread, `rand::rngs::ThreadRng`. What it
/// holds is not looked into.
#[verifier::external_type_specification]
#[verifier::external_body]
pub struct ExThreadRng(rand::rngs::ThreadRng);

/// `rand::thread_rng` hands out the random number generator of the running
/// thread, which the system seeds at its first use. Nothing is claimed of
/// it.
pub assume_specification[ rand::thread_rng ]() -> (rng: rand::rngs::ThreadRng)
;

/// `SliceRandom::shuffle` of rand reorders the slice in place by exchanging
/// elements: whatever order comes out, the same cards are there, each as
/// often as before.
#[verifier::external_body]
fn shuffle_cards<const N: usize>(cards: &mut [u8; N], rng: &mut rand::rngs::ThreadRng)
    ensures
        final(cards)@.to_multiset() == old(cards)@.to_multiset(),
{
    rand::seq::SliceRandom::shuffle(cards.as_mut_slice(), rng);
}

/// Why a list of cards is no deck.
#[derive(Debug)]
pub enum DeckError {
    /// One of the cards is no card.
    ParseCard(CardConversionError),
    /// There are more or fewer cards than the deck has.
    WrongNumber,
    /// A card occurs twice.
    NotUnique,
    /// A card has a value that the deck does not hold.
    OutOfBounds,
}

impl From<CardConversionError> for DeckError {
    fn from(fault: CardConversionError) -> (error: Self) {
        DeckError::ParseCard(fault)
    }
}

impl FromSpecImpl<CardConversionError> for DeckError {
    open spec fn obeys_from_spec() -> bool {
        true
    }

    open spec fn from_spec(fault: CardConversionError) -> Self {
        DeckError::ParseCard(fault)
    }
}

/// A deck of `N` cards, top card first. Each card is a value in `1..=N`, and
/// a deck holds each value once.
#[derive(Debug, PartialEq, Eq)]
pub struct Deck<const N: usize>([u8; N]);

impl<const N: usize> View for Deck<N> {
    type V = Seq<u8>;

    closed spec fn view(&self) -> Seq<u8> {
        self.0@
    }
}

impl<const N: usize> Clone for Deck<N> {
    fn clone(&self) -> (copy: Self)
        ensures
            copy@ == self@,
    {
        Deck(self.0)
    }
}

impl<const N: usize> Deck<N> {
    /// The invariant of a deck: it holds each value of `1..=N` once.
    pub open spec fn wf(&self) -> bool {
        is_deck(self@, N as int)
    }

    /// Generate a new deck in sorted order.
    pub fn new() -> (deck: Self)
        requires
            N <= 255,
        ensures
            deck.wf(),
            deck@ == sorted_deck(N as nat),
    {
        let mut cards: [u8; N] = [0u8; N];
        let mut i: usize = 0;
        while i < N
            invariant
                i <= N <= 255,
                forall|j: int| 0 <= j < i ==> cards@[j] == j + 1,
            decreases N - i,
        {
            cards[i] = (i + 1) as u8;
            i += 1;
        }
        proof {
            lemma_sorted_is_deck(N as nat);
            assert(cards@ =~= sorted_deck(N as nat));
        }
        Deck(cards)
    }

    /// Bring the cards into a random order.
    ///
    /// Which order comes is left to the random number generator, and the
    /// order that the cards had is one that may come. What holds of every
    /// outcome is that the same cards are there, so that the deck is a deck.
    pub fn shuffle(&mut self)
        requires
            old(self).wf(),
        ensures
            final(self).wf(),
            final(self)@.to_multiset() == old(self)@.to_multiset(),
    {
        let mut rng = rand::thread_rng();
        shuffle_cards(&mut self.0, &mut rng);
        proof {
            lemma_same_cards_is_deck(old(self)@, self@, N as int);
        }
    }

    /// The cards from top to bottom.
    pub fn cards(&self) -> (cards: &[u8; N])
        ensures
            cards@ == self@,
    {
        &self.0
    }

    /// The index at which `card` lies.
    fn find(&self, card: u8) -> (idx: usize)
        requires
            self.wf(),
            1 <= card <= N,
        ensures
            idx < N,
            idx == position(self@, card),
            self@[idx as int] == card,
    {
        proof {
            lemma_deck_contains(self@, N as int, card);
        }
        let mut idx: usize = 0;
        while self.0[idx] != card
            invariant
                idx < N,
                self.wf(),
                0 <= position(self@, card) < N,
                self@[position(self@, card)] == card,
                forall|j: int| 0 <= j < idx ==> self@[j] != card,
            decreases N - idx,
        {
            idx += 1;
        }
        idx
    }

    /// Push the given card down by `n` places.
    ///
    /// The card walks around the ring of the other `N - 1` cards, so that from
    /// the bottom it goes on below the top card, and `N - 1` places are a whole
    /// round.
    pub fn push(&mut self, card: u8, n: usize)
        requires
            old(self).wf(),
            N >= 2,
            1 <= card <= N,
        ensures
            final(self).wf(),
            final(self)@ == pushed(old(self)@, card, n as int),
            lies_at(old(self)@, card, position(old(self)@, card)),
    {
        proof {
            lemma_pushed_is_deck(self@, N as int, card, n as int);
            lemma_deck_contains(self@, N as int, card);
        }
        let m = n % (N - 1);
        if m == 0 {
            return;
        }
        let idx = self.find(card);
        let mut next: [u8; N] = self.0;
        if m > N - 1 - idx {
            let dest = m - (N - 1 - idx);
            next[dest] = card;
            let mut j: usize = dest;
            while j < idx
                invariant
                    1 <= dest <= j <= idx < N,
                    next@.len() == N,
                    self@.len() == N,
                    next@[dest as int] == card,
                    forall|x: int| dest < x <= j ==> next@[x] == self@[x - 1],
                    forall|x: int| 0 <= x < N && !(dest <= x <= j) ==> next@[x] == self@[x],
                decreases idx - j,
            {
                next[j + 1] = self.0[j];
                j += 1;
            }
            assert(next@ =~= self@.remove(idx as int).insert(dest as int, card));
        } else {
            let dest = idx + m;
            let mut j: usize = idx;
            while j < dest
                invariant
                    idx <= j <= dest < N,
                    next@.len() == N,
                    self@.len() == N,
                    forall|x: int| idx <= x < j ==> next@[x] == self@[x + 1],
                    forall|x: int| 0 <= x < N && !(idx <= x < j) ==> next@[x] == self@[x],
                decreases dest - j,
            {
                next[j] = self.0[j + 1];
                j += 1;
            }
            next[dest] = card;
            assert(next@ =~= self@.remove(idx as int).insert(dest as int, card));
        }
        self.0 = next;
    }

    /// Swap the cards above the first of the two given cards with the cards
    /// below the second. Which of the two lies higher makes no difference.
    pub fn triple_cut(&mut self, card0: u8, card1: u8)
        requires
            old(self).wf(),
            1 <= card0 <= N,
            1 <= card1 <= N,
        ensures
            final(self).wf(),
            final(self)@ == triple_cut(old(self)@, card0, card1),
            lies_at(old(self)@, card0, position(old(self)@, card0)),
            lies_at(old(self)@, card1, position(old(self)@, card1)),
    {
        proof {
            lemma_triple_cut_is_deck(self@, N as int, card0, card1);
        }
        let found0 = self.find(card0);
        let found1 = self.find(card1);
        let (idx0, idx1) = if found0 > found1 {
            (found1, found0)
        } else {
            (found0, found1)
        };
        let below = N - idx1 - 1;
        let middle = idx1 - idx0 + 1;
        let mut next: [u8; N] = self.0;
        let mut i: usize = 0;
        while i < N
            invariant
                i <= N,
                idx0 <= idx1 < N,
                below == N - idx1 - 1,
                middle == idx1 - idx0 + 1,
                next@.len() == N,
                self@.len() == N,
                forall|x: int| 0 <= x < i ==> next@[x] == triple_cut(self@, card0, card1)[x],
                idx0 == if found0 <= found1 { found0 } else { found1 },
                idx1 == if found0 <= found1 { found1 } else { found0 },
                found0 == position(self@, card0),
                found1 == position(self@, card1),
            decreases N - i,
        {
            next[i] = if i < below {
                self.0[idx1 + 1 + i]
            } else if i < below + middle {
                self.0[idx0 + (i - below)]
            } else {
                self.0[i - below - middle]
            };
            i += 1;
        }
        assert(next@ =~= triple_cut(self@, card0, card1));
        self.0 = next;
    }

    /// Excluding the bottom card of the deck, cut the deck at the given
    /// count, or at the count of the bottom card where none is given.
    pub fn count_cut(&mut self, override_idx: Option<u8>)
        requires
            old(self).wf(),
            N >= 1,
            override_idx matches Some(k) ==> k < N,
        ensures
            final(self).wf(),
            final(self)@ == match override_idx {
                Some(k) => count_cut(old(self)@, k as int),
                None => bottom_cut(old(self)@),
            },
    {
        let idx: usize = match override_idx {
            Some(oi) => oi as usize,
            None => {
                let bottom = self.0[N - 1] as usize;
                // the jokers both count as the lower of the two
                if bottom == N {
                    N - 1
                } else {
                    bottom
                }
            },
        };
        proof {
            lemma_count_cut_is_deck(self@, N as int, idx as int);
        }
        let upper = N - 1 - idx;
        let mut next: [u8; N] = self.0;
        let mut i: usize = 0;
        while i < N - 1
            invariant
                i <= N - 1,
                idx <= N - 1,
                upper == N - 1 - idx,
                next@.len() == N,
                self@.len() == N,
                next@[N - 1] == self@[N - 1],
                forall|x: int| 0 <= x < i ==> next@[x] == count_cut(self@, idx as int)[x],
            decreases N - 1 - i,
        {
            next[i] = if i < upper {
                self.0[idx + i]
            } else {
                self.0[i - upper]
            };
            i += 1;
        }
        assert(next@ =~= count_cut(self@, idx as int));
        self.0 = next;
    }

    /// The cards written from top to bottom with a space between each and
    /// the next, the suits as signs or as letters.
    fn written(&self, ascii: bool) -> (text: String)
        requires
            self.wf(),
            N <= DEFAULT_DECK_SIZE,
        ensures
            text@ == deck_text(self@, ascii),
    {
        let mut text = String::new();
        let mut i: usize = 0;
        while i < N
            invariant
                i <= N <= 54,
                self.wf(),
                text@ == deck_text(self@.take(i as int), ascii),
            decreases N - i,
        {
            let ghost before = text@;
            if i > 0 {
                text.push(' ');
            }
            let value = self.0[i];
            assert(1 <= self@[i as int] <= N);
            let card = Card::try_from(value).unwrap();
            proof {
                lemma_card_of_value(value as int);
            }
            let word = if ascii {
                card.to_ascii_string()
            } else {
                card.to_string()
            };
            text.append(word.as_str());
            proof {
                let upto = self@.take(i + 1);
                assert(upto.drop_last() =~= self@.take(i as int));
                assert(upto.last() == value);
                if i == 0 {
                    assert(text@ =~= value_text(value, ascii));
                } else {
                    assert(text@ =~= before + seq![' '] + value_text(value, ascii));
                }
            }
            i += 1;
        }
        assert(self@.take(N as int) =~= self@);
        text
    }

    /// The deck in its written form: the cards from top to bottom with a
    /// space between each and the next, the suits as signs.
    pub fn to_string(&self) -> (text: String)
        requires
            self.wf(),
            N <= DEFAULT_DECK_SIZE,
        ensures
            text@ == deck_text(self@, false),
    {
        self.written(false)
    }

    /// The deck in its written form, the suits as letters.
    pub fn to_ascii_string(&self) -> (text: String)
        requires
            self.wf(),
            N <= DEFAULT_DECK_SIZE,
        ensures
            text@ == deck_text(self@, true),
    {
        self.written(true)
    }

    /// Find the output card's value given the current deck state: the card
    /// that lies at the count of the top card, or nothing where that card is
    /// a joker.
    pub fn output(&self) -> (card: Option<u8>)
        requires
            self.wf(),
            N >= 1,
        ensures
            card == tapped(self@),
            card matches Some(v) ==> 1 <= v <= N - 2,
    {
        let top = self.0[0] as usize;
        // the jokers both count as the lower of the two
        let idx = if top == N {
            N - 1
        } else {
            top
        };
        let card = self.0[idx];
        if is_joker::<N>(card) {
            None
        } else {
            Some(card)
        }
    }
}

impl Default for Deck<DEFAULT_DECK_SIZE> {
    /// The sorted deck.
    fn default() -> (deck: Self)
        ensures
            deck.wf(),
            deck@ == sorted_deck(54),
    {
        Deck::new()
    }
}

impl Deck<DEFAULT_DECK_SIZE> {
    /// One round of the cipher: the first joker goes down by one, the second
    /// by two, then the triple-cut around the jokers and the count-cut at the
    /// bottom card.
    pub fn step(&mut self)
        requires
            old(self).wf(),
        ensures
            final(self).wf(),
            final(self)@ == stepped(old(self)@),
    {
        self.push(JOKER_A, 1);
        self.push(JOKER_B, 2);
        self.triple_cut(JOKER_A, JOKER_B);
        self.count_cut(None);
    }

    /// Generate a deck from a passphrase to create the initial deck ordering.
    ///
    /// Only the letters of the passphrase count. Without any, the deck is
    /// the sorted one.
    pub fn from_passphrase(phrase: &str) -> (deck: Self)
        ensures
            deck.wf(),
            deck@ == keyed(sorted_deck(54), letters(phrase@)),
    {
        let values = textbyte(phrase);
        let mut deck = Deck::new();
        let mut i: usize = 0;
        while i < values.len()
            invariant
                i <= values@.len(),
                deck.wf(),
                deck@ == keyed(sorted_deck(54), values@.take(i as int)),
                forall|j: int| 0 <= j < values@.len() ==> 1 <= #[trigger] values@[j] <= 26,
            decreases values@.len() - i,
        {
            let ch = values[i];
            assert(values@.take(i + 1).drop_last() =~= values@.take(i as int));
            deck.step();
            deck.count_cut(Some(ch));
            i += 1;
        }
        assert(values@.take(i as int) =~= values@);
        deck
    }
}

/// The deck of the empty passphrase is the sorted deck.
pub proof fn lemma_empty_passphrase()
    ensures
        keyed(sorted_deck(54), letters(Seq::empty())) == sorted_deck(54),
{
    assert(letters(Seq::empty()) =~= Seq::<u8>::empty());
    lemma_keyed_by_nothing(sorted_deck(54));
}

/// How the card of value `v` is written, its suit as a letter or as a sign.
pub open spec fn value_text(v: u8, ascii: bool) -> Seq<char> {
    card_text(suit_of_value(v as int), rank_of_value(v as int), ascii)
}

/// How a list of cards is written: from first to last, with a space between
/// each and the next.
pub open spec fn deck_text(s: Seq<u8>, ascii: bool) -> Seq<char>
    decreases s.len(),
{
    if s.len() == 0 {
        Seq::empty()
    } else if s.len() == 1 {
        value_text(s[0], ascii)
    } else {
        deck_text(s.drop_last(), ascii) + seq![' '] + value_text(s.last(), ascii)
    }
}

/// Whether `c` can stand in the rank of a written card: a digit, or one of
/// the letters `A B J Q K` in either case.
pub open spec fn is_rank_sign(c: char) -> bool {
    ||| is_digit(c)
    ||| c == 'A' || c == 'a'
    ||| c == 'B' || c == 'b'
    ||| c == 'J' || c == 'j'
    ||| c == 'Q' || c == 'q'
    ||| c == 'K' || c == 'k'
}

/// The length of the written card that begins at index `i` of `text`, or
/// zero where none begins there. A written card is one or two rank signs
/// and the sign of a suit; two rank signs are taken where both readings can
/// be had.
pub open spec fn token_len(text: Seq<char>, i: int) -> int {
    if i + 2 < text.len() && is_rank_sign(text[i]) && is_rank_sign(text[i + 1]) && suit_of_sign(
        text[i + 2],
    ) is Some {
        3
    } else if i + 1 < text.len() && is_rank_sign(text[i]) && suit_of_sign(text[i + 1]) is Some {
        2
    } else {
        0
    }
}

/// The written cards in `text` from index `i` on, from left to right. What
/// stands between them is passed over.
pub open spec fn tokens_from(text: Seq<char>, i: int) -> Seq<Seq<char>>
    decreases text.len() - i,
{
    if i < 0 || i >= text.len() {
        Seq::empty()
    } else if token_len(text, i) == 0 {
        tokens_from(text, i + 1)
    } else {
        seq![text.subrange(i, i + token_len(text, i))] + tokens_from(
            text,
            i + token_len(text, i),
        )
    }
}

/// The first `limit` of the written cards in `text`, or all of them if
/// there are fewer.
pub open spec fn card_tokens(text: Seq<char>, limit: int) -> Seq<Seq<char>> {
    let tokens = tokens_from(text, 0);
    if tokens.len() <= limit {
        tokens
    } else {
        tokens.take(limit)
    }
}

/// Whether each of the texts stands for a card.
pub open spec fn all_cards(tokens: Seq<Seq<char>>) -> bool {
    forall|i: int| 0 <= i < tokens.len() ==> (#[trigger] card_of_text(tokens[i])) is Some
}

/// The values of the cards that the texts stand for.
pub open spec fn values_of(tokens: Seq<Seq<char>>) -> Seq<u8> {
    Seq::new(tokens.len(), |i: int| value_of_text(tokens[i]))
}

/// Whether some value occurs twice in `s`.
pub open spec fn has_duplicate(s: Seq<u8>) -> bool {
    exists|i: int, j: int| 0 <= i < j < s.len() && s[i] == s[j]
}

/// Whether `checked` is what checking `cards` for a deck of `n` gives: the
/// deck that they are, or the first of three faults: there are not `n` of
/// them, one occurs twice, one has a value that is not in `1..=n`.
pub open spec fn checks_as<const N: usize>(
    cards: Seq<u8>,
    n: int,
    checked: Result<Deck<N>, DeckError>,
) -> bool {
    match checked {
        Ok(deck) => is_deck(cards, n) && deck@ == cards,
        Err(DeckError::WrongNumber) => cards.len() != n,
        Err(DeckError::NotUnique) => cards.len() == n && has_duplicate(cards),
        Err(DeckError::OutOfBounds) => {
            &&& cards.len() == n
            &&& !has_duplicate(cards)
            &&& exists|i: int| 0 <= i < n && !(1 <= #[trigger] cards[i] <= n)
        },
        Err(DeckError::ParseCard(_)) => false,
    }
}

/// Whether `listed` is what listing the cards written in `text` gives: the
/// values of the first `N + 1` written cards, or the fault of the first of
/// them that is no card.
pub open spec fn lists_as<const N: usize>(
    text: Seq<char>,
    listed: Result<MaybeDeck<N>, DeckError>,
) -> bool {
    let tokens = card_tokens(text, N + 1);
    match listed {
        Ok(list) => all_cards(tokens) && list@ == values_of(tokens),
        Err(DeckError::ParseCard(fault)) => exists|j: int|
            {
                &&& 0 <= j < tokens.len()
                &&& all_cards(tokens.take(j))
                &&& #[trigger] card_of_text(tokens[j]) is None
                &&& reads_as(tokens[j], Err::<Card, CardConversionError>(fault))
            },
        Err(_) => false,
    }
}

/// This might be able to become a deck of `N` cards, but it needs additional
/// validation.
#[derive(Debug)]
pub struct MaybeDeck<const N: usize>(Vec<u8>);

impl<const N: usize> View for MaybeDeck<N> {
    type V = Seq<u8>;

    closed spec fn view(&self) -> Seq<u8> {
        self.0@
    }
}

impl<const N: usize> Clone for MaybeDeck<N> {
    fn clone(&self) -> (copy: Self)
        ensures
            copy@ == self@,
    {
        let cards = self.0.clone();
        assert(cards@ =~= self.0@);
        MaybeDeck(cards)
    }
}

impl<const N: usize> From<Vec<u8>> for MaybeDeck<N> {
    /// The first `N + 1` of the given values: one more than a deck has shows
    /// that there are too many.
    fn from(values: Vec<u8>) -> (cards: Self)
        ensures
            cards@ == if values@.len() > N {
                values@.take(N + 1)
            } else {
                values@
            },
    {
        let mut values = values;
        if values.len() > N {
            values.truncate(N + 1);
        }
        MaybeDeck(values)
    }
}

impl<const N: usize> FromSpecImpl<Vec<u8>> for MaybeDeck<N> {
    /// `from` says itself what the list holds.
    open spec fn obeys_from_spec() -> bool {
        false
    }

    open spec fn from_spec(values: Vec<u8>) -> Self {
        arbitrary()
    }
}

impl<const N: usize> MaybeDeck<N> {
    /// The cards, first to last.
    pub fn cards(&self) -> (cards: &Vec<u8>)
        ensures
            cards@ == self@,
    {
        &self.0
    }

    /// The cards written in `s`, up to one more than a deck has.
    ///
    /// The written cards are looked for from left to right, and what stands
    /// between them is passed over. The first of them that is no card is the
    /// error.
    pub fn from_str(s: &str) -> (cards: Result<Self, DeckError>)
        ensures
            lists_as(s@, cards),
    {
        let chars = chars_of(s);
        let len = chars.len();
        let mut values: Vec<u8> = Vec::new();
        let ghost mut found: Seq<Seq<char>> = Seq::empty();
        let mut i: usize = 0;
        while i < len && values.len() <= N
            invariant
                i <= len == chars@.len(),
                chars@ == s@,
                tokens_from(s@, 0) == found + tokens_from(s@, i as int),
                found.len() == values@.len() <= N + 1,
                all_cards(found),
                values@ == values_of(found),
            decreases len - i,
        {
            let size: usize = if len - i > 2 && is_rank_char(chars[i]) && is_rank_char(
                chars[i + 1],
            ) && Suit::from_sign(chars[i + 2]).is_some() {
                3
            } else if len - i > 1 && is_rank_char(chars[i]) && Suit::from_sign(
                chars[i + 1],
            ).is_some() {
                2
            } else {
                0
            };
            assert(size == token_len(s@, i as int));
            if size == 0 {
                i += 1;
            } else {
                let ghost token = s@.subrange(i as int, i + size);
                proof {
                    assert(tokens_from(s@, 0) =~= found.push(token) + tokens_from(s@, i + size));
                }
                match Card::from_chars(&chars, i, i + size) {
                    Ok(card) => {
                        proof {
                            lemma_value_of_card(card@.0, card@.1);
                        }
                        values.push(u8::from(card));
                        proof {
                            found = found.push(token);
                            assert(values@ =~= values_of(found));
                        }
                    },
                    Err(fault) => {
                        proof {
                            let head = card_tokens(s@, N + 1);
                            let j = found.len() as int;
                            assert(head[j] == token);
                            assert(head.take(j) =~= found);
                        }
                        return Err(DeckError::ParseCard(fault));
                    },
                }
                i += size;
            }
        }
        assert(card_tokens(s@, N + 1) =~= found);
        Ok(MaybeDeck(values))
    }

    /// Whether these cards are a deck, and if not, why: there are not `N` of
    /// them, or one occurs twice, or one has a value that is not in `1..=N`.
    /// The first of these that holds is the error.
    pub fn check(self) -> (deck: Result<Deck<N>, DeckError>)
        ensures
            checks_as(self@, N as int, deck),
    {
        self.checked()
    }

    /// The deck that these cards are, or why they are none, as `check` says.
    pub fn checked(&self) -> (deck: Result<Deck<N>, DeckError>)
        ensures
            checks_as(self@, N as int, deck),
    {
        if self.0.len() != N {
            return Err(DeckError::WrongNumber);
        }
        let mut seen: [bool; 256] = [false; 256];
        let mut i: usize = 0;
        while i < N
            invariant
                i <= N == self@.len(),
                forall|v: int|
                    0 <= v < 256 ==> (#[trigger] seen@[v] <==> exists|j: int|
                        0 <= j < i && self@[j] == v),
                forall|a: int, b: int| 0 <= a < b < i ==> self@[a] != self@[b],
            decreases N - i,
        {
            let v = self.0[i] as usize;
            if seen[v] {
                return Err(DeckError::NotUnique);
            }
            let ghost before = seen@;
            seen[v] = true;
            assert forall|u: int| 0 <= u < 256 implies (#[trigger] seen@[u] <==> exists|j: int|
                0 <= j < i + 1 && self@[j] == u) by {
                if u == v {
                    assert(self@[i as int] == u);
                } else if seen@[u] {
                    assert(before[u]);
                }
            }
            i += 1;
        }
        let mut cards: [u8; N] = [0u8; N];
        let mut i: usize = 0;
        while i < N
            invariant
                i <= N == self@.len(),
                forall|j: int|
                    0 <= j < i ==> cards@[j] == self@[j] && 1 <= #[trigger] self@[j] <= N,
                forall|a: int, b: int| 0 <= a < b < N ==> self@[a] != self@[b],
            decreases N - i,
        {
            let v = self.0[i];
            if v == 0 || v as usize > N {
                return Err(DeckError::OutOfBounds);
            }
            cards[i] = v;
            i += 1;
        }
        assert(cards@ =~= self@);
        Ok(Deck(cards))
    }
}

impl<const N: usize> FromStr for MaybeDeck<N> {
    type Err = DeckError;

    fn from_str(s: &str) -> (cards: Result<Self, Self::Err>)
        ensures
            lists_as(s@, cards),
    {
        MaybeDeck::from_str(s)
    }
}

impl<const N: usize> TryFrom<MaybeDeck<N>> for Deck<N> {
    type Error = DeckError;

    fn try_from(value: MaybeDeck<N>) -> (deck: Result<Self, Self::Error>)
        ensures
            checks_as(value@, N as int, deck),
    {
        value.check()
    }
}

impl<const N: usize> TryFromSpecImpl<MaybeDeck<N>> for Deck<N> {
    /// `try_from` says itself what it gives.
    open spec fn obeys_try_from_spec() -> bool {
        false
    }

    open spec fn try_from_spec(value: MaybeDeck<N>) -> Result<Self, Self::Error> {
        arbitrary()
    }
}

fn is_rank_char(c: char) -> (rank: bool)
    ensures
        rank == is_rank_sign(c),
{
    ('0' <= c && c <= '9') || c == 'A' || c == 'a' || c == 'B' || c == 'b' || c == 'J' || c == 'j'
        || c == 'Q' || c == 'q' || c == 'K' || c == 'k'
}

} // verus!
