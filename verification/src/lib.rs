//! Schneier's Solitaire cipher: a deck of cards, moved by hand, gives a
//! stream of letters that is added to the message.
//!
//! - [`model`] says what a deck is and what the moves of the cipher do, on
//!   sequences of card values, and proves what holds of them.
//! - [`deck`] is the deck that the moves are made on, and the reading and
//!   checking of decks.
//! - [`card`] gives the card values their suits and ranks, and their written
//!   form.
//! - [`textbyte`] turns text into letter values and back.
//! - Here are the key stream, encryption and decryption.

pub mod card;
pub mod deck;
pub mod model;
pub mod text;
pub mod textbyte;

pub use deck::Deck;

use deck::{checks_as, DeckError, MaybeDeck};
use model::{
    is_deck, key_run, keyed, lemma_key_run_is_deck, lemma_key_run_shorter, lemma_searched_is_deck,
    searched, sorted_deck,
};
use textbyte::{
    lemma_letters_of_restored, lemma_letters_of_separated, lemma_letters_range, lemma_padded,
    letter_of, letters, normal_form, padded, reduced, restored, separated, textbyte, Pad, Restore,
    Separate,
};
use vstd::prelude::*;
use vstd::std_specs::convert::FromSpecImpl;

verus! {

/// size of groups of output characters
pub const GROUP_SIZE: usize = 5;

/// messages are filled up to whole groups with this letter: `X`, the 24th
pub const PAD_CHAR: u8 = 24;

/// The number of rounds after which the search for the next output gives
/// up. No run of jokers is known to come near it; the bound is there so that
/// the search is sure to end.
pub const MAX_ROUNDS: u64 = u64::MAX;

/// Why no deck can be had to encrypt or decrypt with.
#[derive(Debug)]
pub enum KeyError {
    /// The cards that were given are no deck.
    BadDeck(DeckError),
    /// Neither a deck nor a passphrase was given.
    MissingKeySource,
}

/// What a message is encrypted or decrypted with, and the message.
#[derive(Debug)]
pub struct CryptOptions {
    /// This deck is used as the initial state.
    pub maybe_deck: Option<MaybeDeck<54>>,
    /// A fresh deck is generated from this passphrase.
    pub passphrase: Option<String>,
    /// The text to encrypt or decrypt.
    pub message: String,
}

impl CryptOptions {
    /// The deck to start from: the given deck, if it is one; without a
    /// given deck, the deck that the passphrase makes.
    pub fn deck(&self) -> (deck: Result<Deck<54>, KeyError>)
        ensures
            match (self.maybe_deck, self.passphrase) {
                (Some(cards), _) => match deck {
                    Ok(d) => checks_as(cards@, 54, Ok::<Deck<54>, DeckError>(d)),
                    Err(KeyError::BadDeck(fault)) => checks_as(
                        cards@,
                        54,
                        Err::<Deck<54>, DeckError>(fault),
                    ),
                    Err(KeyError::MissingKeySource) => false,
                },
                (None, Some(phrase)) => deck matches Ok(d) && d.wf() && d@ == keyed(
                    sorted_deck(54),
                    letters(phrase@),
                ),
                (None, None) => deck matches Err(KeyError::MissingKeySource),
            },
    {
        if let Some(cards) = &self.maybe_deck {
            return match cards.checked() {
                Ok(deck) => Ok(deck),
                Err(fault) => Err(KeyError::BadDeck(fault)),
            };
        }
        if let Some(phrase) = &self.passphrase {
            return Ok(Deck::from_passphrase(phrase.as_str()));
        }
        Err(KeyError::MissingKeySource)
    }
}

/// A Keystream mutates a card deck to generate a pseudo-random stream of
/// card values in `1..=52`, each of which stands for a letter.
pub struct Keystream(Deck<54>);

impl View for Keystream {
    type V = Seq<u8>;

    closed spec fn view(&self) -> Seq<u8> {
        self.0@
    }
}

impl From<Deck<54>> for Keystream {
    fn from(deck: Deck<54>) -> (stream: Self)
        ensures
            stream@ == deck@,
    {
        Keystream(deck)
    }
}

impl FromSpecImpl<Deck<54>> for Keystream {
    open spec fn obeys_from_spec() -> bool {
        true
    }

    closed spec fn from_spec(deck: Deck<54>) -> Self {
        Keystream(deck)
    }
}

/// The stream of key values that the deck gives.
pub fn keystream(deck: Deck<54>) -> (stream: Keystream)
    ensures
        stream@ == deck@,
{
    Keystream(deck)
}

impl Keystream {
    /// The invariant of the stream: its deck is a deck.
    pub open spec fn wf(&self) -> bool {
        is_deck(self@, 54)
    }

    /// The next value of the stream.
    ///
    /// Rounds are played on the deck until the tap gives a card. A round
    /// whose tap finds a joker gives nothing, and the next round goes on from
    /// the deck as it is then. After `MAX_ROUNDS` rounds without a card the
    /// search ends with `None`.
    pub fn next(&mut self) -> (key: Option<u8>)
        requires
            old(self).wf(),
        ensures
            final(self).wf(),
            (final(self)@, key) == searched(old(self)@, MAX_ROUNDS as nat),
            key matches Some(v) ==> 1 <= v <= 52,
    {
        proof {
            lemma_searched_is_deck(self@, MAX_ROUNDS as nat);
        }
        let mut rounds: u64 = 0;
        while rounds < MAX_ROUNDS
            invariant
                rounds <= MAX_ROUNDS,
                self.0.wf(),
                searched(old(self)@, MAX_ROUNDS as nat) == searched(
                    self@,
                    (MAX_ROUNDS - rounds) as nat,
                ),
            decreases MAX_ROUNDS - rounds,
        {
            self.0.step();
            let output = self.0.output();
            if output.is_some() {
                return output;
            }
            rounds += 1;
        }
        None
    }

    /// The next `count` values of the stream; fewer where the search for one
    /// of them ends without a card.
    pub fn take(&mut self, count: usize) -> (keys: Vec<u8>)
        requires
            old(self).wf(),
        ensures
            final(self).wf(),
            (keys@, final(self)@) == key_run(old(self)@, count as nat, MAX_ROUNDS as nat),
            keys@.len() <= count,
            forall|i: int| 0 <= i < keys@.len() ==> 1 <= #[trigger] keys@[i] <= 52,
    {
        proof {
            lemma_key_run_is_deck(self@, count as nat, MAX_ROUNDS as nat);
        }
        let ghost total = key_run(old(self)@, count as nat, MAX_ROUNDS as nat);
        let mut keys: Vec<u8> = Vec::new();
        let mut i: usize = 0;
        while i < count
            invariant
                i <= count,
                self.wf(),
                total == key_run(old(self)@, count as nat, MAX_ROUNDS as nat),
                total.0.len() <= count,
                forall|j: int| 0 <= j < total.0.len() ==> 1 <= #[trigger] total.0[j] <= 52,
                total.0 == keys@ + key_run(self@, (count - i) as nat, MAX_ROUNDS as nat).0,
                total.1 == key_run(self@, (count - i) as nat, MAX_ROUNDS as nat).1,
            decreases count - i,
        {
            match self.next() {
                Some(key) => {
                    keys.push(key);
                    i += 1;
                    assert(total.0 =~= keys@ + key_run(
                        self@,
                        (count - i) as nat,
                        MAX_ROUNDS as nat,
                    ).0);
                },
                None => {
                    assert(total.0 =~= keys@);
                    return keys;
                },
            }
        }
        assert(total.0 =~= keys@);
        keys
    }
}

/// A letter of the message with the key added to it.
pub open spec fn key_added(letter: u8, key: u8) -> u8 {
    (letter + key) as u8
}

/// A letter of the message with the key taken from it. Three rounds of the
/// alphabet are added first, so that the result is a letter's value again.
pub open spec fn key_taken(letter: u8, key: u8) -> u8 {
    (letter + 26 * 3 - key) as u8
}

/// The values of a message, each combined with the key that falls to it.
/// Values for which the stream gave no key are left out.
pub open spec fn combined(
    values: Seq<u8>,
    keys: Seq<u8>,
    operation: spec_fn(u8, u8) -> u8,
) -> Seq<u8> {
    Seq::new(keys.len(), |i: int| operation(values[i], keys[i]))
}

/// What becomes of a text under the key stream of a deck: its letters,
/// filled up with `X` to whole groups, are each combined with the next key,
/// and the results are written as letters in groups.
pub open spec fn crypted(deck: Seq<u8>, text: Seq<char>, operation: spec_fn(u8, u8) -> u8) -> Seq<
    char,
> {
    let values = padded(letters(text), PAD_CHAR, GROUP_SIZE as int);
    let keys = key_run(deck, values.len(), MAX_ROUNDS as nat).0;
    separated(restored(combined(values, keys, operation)), ' ', GROUP_SIZE as int)
}

/// The ciphertext of `text` under the key stream of `deck`.
pub open spec fn encrypted(deck: Seq<u8>, text: Seq<char>) -> Seq<char> {
    crypted(deck, text, |letter: u8, key: u8| key_added(letter, key))
}

/// The plaintext of `text` under the key stream of `deck`.
pub open spec fn decrypted(deck: Seq<u8>, text: Seq<char>) -> Seq<char> {
    crypted(deck, text, |letter: u8, key: u8| key_taken(letter, key))
}

/// Decryption undoes encryption: a text that was encrypted from a deck and
/// is decrypted from the same deck comes back in its normal form, that is
/// its letters in upper case, filled up with `X` to whole groups and written
/// in groups of five.
///
/// Where the key stream ends before the message does, which takes a search
/// of `MAX_ROUNDS` rounds without an output, the letters that had a key come
/// back, and no others.
pub proof fn lemma_decrypt_encrypted(deck: Seq<u8>, text: Seq<char>)
    requires
        is_deck(deck, 54),
    ensures
        ({
            let values = padded(letters(text), PAD_CHAR, GROUP_SIZE as int);
            let keys = key_run(deck, values.len(), MAX_ROUNDS as nat).0;
            &&& keys.len() <= values.len()
            &&& decrypted(deck, encrypted(deck, text)) == separated(
                restored(values.take(keys.len() as int)),
                ' ',
                GROUP_SIZE as int,
            )
            &&& keys.len() == values.len() ==> decrypted(deck, encrypted(deck, text))
                == normal_form(text, PAD_CHAR, GROUP_SIZE as int)
        }),
{
    let add = |letter: u8, key: u8| key_added(letter, key);
    let take = |letter: u8, key: u8| key_taken(letter, key);
    let values = padded(letters(text), PAD_CHAR, 5);
    let keys = key_run(deck, values.len(), MAX_ROUNDS as nat).0;
    lemma_letters_range(text);
    lemma_padded(letters(text), PAD_CHAR, 5);
    lemma_key_run_is_deck(deck, values.len(), MAX_ROUNDS as nat);
    // what encryption writes
    let sums = combined(values, keys, add);
    let cipher = separated(restored(sums), ' ', 5);
    assert(cipher == encrypted(deck, text));
    // what decryption reads of it
    let read = sums.map_values(|b: u8| reduced(b));
    assert(letters(cipher) == read) by {
        lemma_letters_of_separated(restored(sums), 5);
        lemma_letters_of_restored(sums);
    }
    let again = padded(read, PAD_CHAR, 5);
    lemma_padded(read, PAD_CHAR, 5);
    assert(keys.len() <= again.len() <= values.len());
    lemma_key_run_shorter(deck, again.len(), values.len(), MAX_ROUNDS as nat);
    let plain = combined(again, keys, take);
    assert(decrypted(deck, cipher) == separated(restored(plain), ' ', 5));
    assert forall|i: int| 0 <= i < keys.len() implies letter_of(#[trigger] plain[i]) == letter_of(
        values[i],
    ) by {
        lemma_key_undone(values[i], keys[i]);
    }
    assert(restored(plain) =~= restored(values.take(keys.len() as int)));
    if keys.len() == values.len() {
        assert(values.take(keys.len() as int) =~= values);
    }
}

/// Taking the key from a letter to which it was added gives the letter
/// back.
pub proof fn lemma_key_undone(letter: u8, key: u8)
    requires
        1 <= letter <= 26,
        1 <= key <= 52,
    ensures
        letter_of(key_taken(reduced(key_added(letter, key)), key)) == letter_of(letter),
        reduced(key_taken(reduced(key_added(letter, key)), key)) == letter,
{
}

fn add_key(letter: u8, key: u8) -> (sum: u8)
    requires
        1 <= letter <= 26,
        1 <= key <= 52,
    ensures
        sum == key_added(letter, key),
        sum >= 1,
{
    letter + key
}

fn take_key(letter: u8, key: u8) -> (difference: u8)
    requires
        1 <= letter <= 26,
        1 <= key <= 52,
    ensures
        difference == key_taken(letter, key),
        difference >= 1,
{
    letter + (26 * 3) - key
}

/// Combine the letters of a text with the key stream of a deck.
///
/// Note that the deck is consumed. Prepare the entire message before
/// calling this method. Solitaire is not recommended for long messages.
fn crypt(
    deck: Deck<54>,
    text: &str,
    operation: impl Fn(u8, u8) -> u8,
    Ghost(meaning): Ghost<spec_fn(u8, u8) -> u8>,
) -> (out: String)
    requires
        deck.wf(),
        forall|letter: u8, key: u8|
            1 <= letter <= 26 && 1 <= key <= 52 ==> call_requires(operation, (letter, key)),
        forall|letter: u8, key: u8, result: u8|
            call_ensures(operation, (letter, key), result) ==> result == meaning(letter, key)
                && result >= 1,
    ensures
        out@ == crypted(deck@, text@, meaning),
{
    let values = textbyte(text).pad(PAD_CHAR, GROUP_SIZE);
    let mut stream = keystream(deck);
    let keys = stream.take(values.len());
    let mut results: Vec<u8> = Vec::new();
    let mut i: usize = 0;
    while i < keys.len()
        invariant
            i <= keys@.len() <= values@.len(),
            forall|j: int| 0 <= j < values@.len() ==> 1 <= #[trigger] values@[j] <= 26,
            forall|j: int| 0 <= j < keys@.len() ==> 1 <= #[trigger] keys@[j] <= 52,
            forall|letter: u8, key: u8|
                1 <= letter <= 26 && 1 <= key <= 52 ==> call_requires(operation, (letter, key)),
            forall|letter: u8, key: u8, result: u8|
                call_ensures(operation, (letter, key), result) ==> result == meaning(letter, key)
                    && result >= 1,
            results@.len() == i,
            forall|j: int|
                0 <= j < i ==> #[trigger] results@[j] == meaning(values@[j], keys@[j])
                    && results@[j] >= 1,
        decreases keys@.len() - i,
    {
        let result = operation(values[i], keys[i]);
        results.push(result);
        i += 1;
    }
    assert(results@ =~= combined(values@, keys@, meaning));
    results.restore().separate(' ', GROUP_SIZE)
}

/// encrypt some plaintext using a pre-prepared deck
///
/// Note that the deck is consumed. Prepare the entire message before
/// calling this method. Solitaire is not recommended for long messages.
pub fn encrypt(deck: Deck<54>, text: &str) -> (out: String)
    requires
        deck.wf(),
    ensures
        out@ == encrypted(deck@, text@),
{
    crypt(deck, text, add_key, Ghost(|letter: u8, key: u8| key_added(letter, key)))
}

/// decrypt some ciphertext using a pre-prepared deck
///
/// Note that the deck is consumed. Prepare the entire message before
/// calling this method. Solitaire is not recommended for long messages.
pub fn decrypt(deck: Deck<54>, text: &str) -> (out: String)
    requires
        deck.wf(),
    ensures
        out@ == decrypted(deck@, text@),
{
    crypt(deck, text, take_key, Ghost(|letter: u8, key: u8| key_taken(letter, key)))
}

} // verus!
