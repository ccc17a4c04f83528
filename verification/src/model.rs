//! Decks as mathematical sequences.
//!
//! A deck of `n` cards is a sequence of length `n` that holds each of the
//! values `1..=n` exactly once, top card first. The two highest values are the
//! jokers. The four moves of the cipher are functions from sequences to
//! sequences; the executable deck is proved against them.

use crate::card::{JOKER_A, JOKER_B};
use vstd::prelude::*;

verus! {

/// `s` is a deck of `n` cards: every value lies in `1..=n` and none occurs twice.
pub open spec fn is_deck(s: Seq<u8>, n: int) -> bool {
    &&& s.len() == n
    &&& forall|i: int| 0 <= i < s.len() ==> 1 <= #[trigger] s[i] <= n
    &&& forall|i: int, j: int| 0 <= i < j < s.len() ==> s[i] != s[j]
}

/// The deck of `n` cards in ascending order.
pub open spec fn sorted_deck(n: nat) -> Seq<u8> {
    Seq::new(n, |i: int| (i + 1) as u8)
}

/// Whether `card` is one of the two jokers of a deck of `n` cards.
pub open spec fn is_joker_of(card: u8, n: int) -> bool {
    card == n || card == n - 1
}

/// Whether `card` lies at index `i` of `s`.
pub open spec fn lies_at(s: Seq<u8>, card: u8, i: int) -> bool {
    0 <= i < s.len() && s[i] == card
}

/// The index at which `card` lies in `s`.
pub open spec fn position(s: Seq<u8>, card: u8) -> int {
    choose|i: int| lies_at(s, card, i)
}

/// Where a card at index `i` of `n` cards lands when it is pushed down by
/// `m` steps, `0 < m < n - 1`. The other `n - 1` cards form a ring that the
/// card walks around, so that it never comes to lie on top.
pub open spec fn push_target(i: int, m: int, n: int) -> int {
    if i + m <= n - 1 {
        i + m
    } else {
        i + m - (n - 1)
    }
}

/// Push-down: `card` moves `k` steps towards the bottom, around the ring of
/// the other cards. A whole number of rounds leaves the deck as it is.
pub open spec fn pushed(s: Seq<u8>, card: u8, k: int) -> Seq<u8> {
    let n = s.len() as int;
    let m = k % (n - 1);
    let i = position(s, card);
    if m == 0 {
        s
    } else {
        s.remove(i).insert(push_target(i, m, n), card)
    }
}

/// Triple-cut: the cards above the upper anchor change places with the cards
/// below the lower anchor; the anchors and what lies between them stay.
pub open spec fn triple_cut(s: Seq<u8>, a: u8, b: u8) -> Seq<u8> {
    let i = position(s, a);
    let j = position(s, b);
    let p = if i <= j { i } else { j };
    let q = if i <= j { j } else { i };
    s.subrange(q + 1, s.len() as int) + s.subrange(p, q + 1) + s.subrange(0, p)
}

/// The count that a card stands for: its value, with both jokers counting as
/// the lower one.
pub open spec fn count_of(card: u8, n: int) -> int {
    if card == n {
        n - 1
    } else {
        card as int
    }
}

/// Count-cut at `k`: the first `k` cards go below the others, but above the
/// bottom card, which stays.
pub open spec fn count_cut(s: Seq<u8>, k: int) -> Seq<u8> {
    let n = s.len() as int;
    s.subrange(k, n - 1) + s.subrange(0, k) + s.subrange(n - 1, n)
}

/// Count-cut at the count of the bottom card.
pub open spec fn bottom_cut(s: Seq<u8>) -> Seq<u8> {
    count_cut(s, count_of(s.last(), s.len() as int))
}

/// Output-tap: the card found at the count of the top card, unless it is a
/// joker.
pub open spec fn tapped(s: Seq<u8>) -> Option<u8> {
    let n = s.len() as int;
    let card = s[count_of(s[0], n)];
    if is_joker_of(card, n) {
        None
    } else {
        Some(card)
    }
}

/// One round of the cipher on the full deck: the first joker goes down by
/// one, the second by two, the deck is cut in three around the jokers, and
/// then cut at the count of the bottom card.
pub open spec fn stepped(s: Seq<u8>) -> Seq<u8> {
    bottom_cut(triple_cut(pushed(pushed(s, JOKER_A, 1), JOKER_B, 2), JOKER_A, JOKER_B))
}

/// The deck that a passphrase of the given letter values makes of `s`: for
/// each letter one round, and a count-cut at the letter's value.
pub open spec fn keyed(s: Seq<u8>, values: Seq<u8>) -> Seq<u8>
    decreases values.len(),
{
    if values.len() == 0 {
        s
    } else {
        count_cut(stepped(keyed(s, values.drop_last())), values.last() as int)
    }
}

/// The search for the next output: rounds are played until the tap gives a
/// card, but at most `rounds` of them. The result is the deck as the search
/// leaves it, and the card, if one came.
pub open spec fn searched(s: Seq<u8>, rounds: nat) -> (Seq<u8>, Option<u8>)
    decreases rounds,
{
    if rounds == 0 {
        (s, None)
    } else {
        let next = stepped(s);
        match tapped(next) {
            Some(card) => (next, Some(card)),
            None => searched(next, (rounds - 1) as nat),
        }
    }
}

/// The first `count` outputs from the deck `s`, each searched for through at
/// most `rounds` rounds, and the deck after them. Where a search ends without
/// a card, the outputs end there.
pub open spec fn key_run(s: Seq<u8>, count: nat, rounds: nat) -> (Seq<u8>, Seq<u8>)
    decreases count,
{
    if count == 0 {
        (Seq::empty(), s)
    } else {
        let (next, found) = searched(s, rounds);
        match found {
            Some(card) => {
                let (keys, last) = key_run(next, (count - 1) as nat, rounds);
                (seq![card] + keys, last)
            },
            None => (Seq::empty(), next),
        }
    }
}

/// A move on the full deck of 54 cards.
pub enum Move {
    /// Push-down of `card` by `places`.
    Push { card: u8, places: usize },
    /// Triple-cut around the cards `first` and `second`.
    TripleCut { first: u8, second: u8 },
    /// Count-cut at `count`.
    CountCut { count: u8 },
    /// Count-cut at the count of the bottom card.
    BottomCut,
    /// One round of the cipher.
    Round,
}

/// Whether the move can be made on the full deck: the cards it names are
/// cards of the deck, and a count leaves the bottom card out.
pub open spec fn playable(m: Move) -> bool {
    match m {
        Move::Push { card, places } => 1 <= card <= 54,
        Move::TripleCut { first, second } => 1 <= first <= 54 && 1 <= second <= 54,
        Move::CountCut { count } => count <= 53,
        Move::BottomCut => true,
        Move::Round => true,
    }
}

/// The deck after the move.
pub open spec fn played(s: Seq<u8>, m: Move) -> Seq<u8> {
    match m {
        Move::Push { card, places } => pushed(s, card, places as int),
        Move::TripleCut { first, second } => triple_cut(s, first, second),
        Move::CountCut { count } => count_cut(s, count as int),
        Move::BottomCut => bottom_cut(s),
        Move::Round => stepped(s),
    }
}

/// The deck after the moves, one after the other.
pub open spec fn played_all(s: Seq<u8>, moves: Seq<Move>) -> Seq<u8>
    decreases moves.len(),
{
    if moves.len() == 0 {
        s
    } else {
        played(played_all(s, moves.drop_last()), moves.last())
    }
}

/// Every card of a deck lies in it.
pub proof fn lemma_deck_contains(s: Seq<u8>, n: int, card: u8)
    requires
        is_deck(s, n),
        1 <= card <= n,
    ensures
        s.contains(card),
        lies_at(s, card, position(s, card)),
{
    if !s.contains(card) {
        let widen = |v: u8| v as int;
        let wide = s.map_values(widen);
        assert(wide.no_duplicates());
        wide.unique_seq_to_set();
        let others = vstd::set_lib::set_int_range(1, n + 1).remove(card as int);
        vstd::set_lib::lemma_int_range(1, n + 1);
        assert forall|v: int| wide.to_set().contains(v) implies others.contains(v) by {
            let i = choose|i: int| 0 <= i < wide.len() && wide[i] == v;
            assert(wide[i] == s[i] as int);
            assert(s.contains(s[i]));
        }
        vstd::set_lib::lemma_len_subset(wide.to_set(), others);
    }
    let i = choose|i: int| 0 <= i < s.len() && s[i] == card;
    assert(lies_at(s, card, i));
}

/// A card of a deck lies at one index only.
pub proof fn lemma_position_unique(s: Seq<u8>, n: int, i: int)
    requires
        is_deck(s, n),
        0 <= i < n,
    ensures
        position(s, s[i]) == i,
{
    assert(lies_at(s, s[i], i));
}

/// Push-down leaves a deck a deck.
pub proof fn lemma_pushed_is_deck(s: Seq<u8>, n: int, card: u8, k: int)
    requires
        is_deck(s, n),
        n >= 2,
        1 <= card <= n,
        k >= 0,
    ensures
        is_deck(pushed(s, card, k), n),
{
    lemma_deck_contains(s, n, card);
    let m = k % (n - 1);
    if m != 0 {
        let i = position(s, card);
        let j = push_target(i, m, n);
        let rest = s.remove(i);
        let t = rest.insert(j, card);
        assert(1 <= j <= n - 1);
        assert forall|x: int| 0 <= x < rest.len() implies #[trigger] rest[x] == s[if x < i {
            x
        } else {
            x + 1
        }] by {}
        assert forall|x: int| 0 <= x < t.len() implies 1 <= #[trigger] t[x] <= n by {
            if x < j {
                assert(t[x] == rest[x]);
            } else if x > j {
                assert(t[x] == rest[x - 1]);
            }
        }
        assert forall|x: int, y: int| 0 <= x < y < t.len() implies t[x] != t[y] by {
            let fx = if x < j { x } else { x - 1 };
            let fy = if y < j { y } else { y - 1 };
            if x != j {
                assert(t[x] == rest[fx]);
            }
            if y != j {
                assert(t[y] == rest[fy]);
            }
        }
    }
}

/// Triple-cut leaves a deck a deck.
pub proof fn lemma_triple_cut_is_deck(s: Seq<u8>, n: int, a: u8, b: u8)
    requires
        is_deck(s, n),
        1 <= a <= n,
        1 <= b <= n,
    ensures
        is_deck(triple_cut(s, a, b), n),
{
    lemma_deck_contains(s, n, a);
    lemma_deck_contains(s, n, b);
}

/// Count-cut leaves a deck a deck.
pub proof fn lemma_count_cut_is_deck(s: Seq<u8>, n: int, k: int)
    requires
        is_deck(s, n),
        0 <= k <= n - 1,
    ensures
        is_deck(count_cut(s, k), n),
{
}

/// Count-cut at the bottom card's count leaves a deck a deck.
pub proof fn lemma_bottom_cut_is_deck(s: Seq<u8>, n: int)
    requires
        is_deck(s, n),
        n >= 2,
    ensures
        is_deck(bottom_cut(s), n),
{
    lemma_count_cut_is_deck(s, n, count_of(s.last(), n));
}

/// The sorted deck is a deck, with the jokers at the bottom.
pub proof fn lemma_sorted_is_deck(n: nat)
    requires
        n <= 255,
    ensures
        is_deck(sorted_deck(n), n as int),
{
}

/// Triple-cut is its own inverse: done twice on the same two anchors, it
/// gives the deck back. This holds wherever the anchors lie, also where the
/// first cut moves them.
pub proof fn lemma_triple_cut_twice(s: Seq<u8>, n: int, a: u8, b: u8)
    requires
        is_deck(s, n),
        1 <= a <= n,
        1 <= b <= n,
    ensures
        triple_cut(triple_cut(s, a, b), a, b) == s,
{
    lemma_deck_contains(s, n, a);
    lemma_deck_contains(s, n, b);
    lemma_triple_cut_is_deck(s, n, a, b);
    let i = position(s, a);
    let j = position(s, b);
    let p = if i <= j { i } else { j };
    let q = if i <= j { j } else { i };
    let t = triple_cut(s, a, b);
    assert(t[n - 1 - q + (i - p)] == a);
    assert(t[n - 1 - q + (j - p)] == b);
    lemma_position_unique(t, n, n - 1 - q + (i - p));
    lemma_position_unique(t, n, n - 1 - q + (j - p));
    assert(triple_cut(t, a, b) =~= s);
}

/// Count-cut at zero changes nothing.
pub proof fn lemma_count_cut_zero(s: Seq<u8>)
    requires
        s.len() >= 1,
    ensures
        count_cut(s, 0) == s,
{
    assert(count_cut(s, 0) =~= s);
}

/// Count-cut at the bottom card's count changes nothing where that card is a
/// joker: either joker counts as one less than the size of the deck, so that
/// no card is left to go below.
pub proof fn lemma_bottom_cut_under_joker(s: Seq<u8>)
    requires
        s.len() >= 2,
        is_joker_of(s.last(), s.len() as int),
    ensures
        bottom_cut(s) == s,
{
    assert(bottom_cut(s) =~= s);
}

/// Push-down by zero changes nothing.
pub proof fn lemma_pushed_zero(s: Seq<u8>, card: u8)
    requires
        s.len() >= 2,
    ensures
        pushed(s, card, 0) == s,
{
}

/// Push-down goes around a ring of all cards but the pushed one: one round
/// more, which is one step less than the size of the deck, changes nothing.
/// In the full deck a round is 53 steps, so that push-down by 54 is push-down
/// by one.
pub proof fn lemma_pushed_round(s: Seq<u8>, card: u8, k: int)
    requires
        s.len() >= 2,
        k >= 0,
    ensures
        pushed(s, card, k + (s.len() - 1)) == pushed(s, card, k),
{
    vstd::arithmetic::div_mod::lemma_mod_add_multiples_vanish(k, s.len() - 1);
}

/// The cards of a deck in any other order are a deck.
pub proof fn lemma_same_cards_is_deck(s: Seq<u8>, t: Seq<u8>, n: int)
    requires
        is_deck(s, n),
        s.to_multiset() == t.to_multiset(),
    ensures
        is_deck(t, n),
{
    vstd::seq_lib::to_multiset_len(s);
    vstd::seq_lib::to_multiset_len(t);
    assert forall|i: int| 0 <= i < t.len() implies 1 <= #[trigger] t[i] <= n by {
        assert(t.contains(t[i]));
        vstd::seq_lib::to_multiset_contains(t, t[i]);
        vstd::seq_lib::to_multiset_contains(s, t[i]);
        let j = choose|j: int| 0 <= j < s.len() && s[j] == t[i];
        assert(1 <= s[j] <= n);
    }
    assert(s.no_duplicates());
    s.lemma_multiset_has_no_duplicates();
    t.lemma_multiset_has_no_duplicates_conv();
}

/// One round leaves the full deck a deck.
pub proof fn lemma_stepped_is_deck(s: Seq<u8>)
    requires
        is_deck(s, 54),
    ensures
        is_deck(stepped(s), 54),
{
    let a = pushed(s, JOKER_A, 1);
    lemma_pushed_is_deck(s, 54, JOKER_A, 1);
    let b = pushed(a, JOKER_B, 2);
    lemma_pushed_is_deck(a, 54, JOKER_B, 2);
    let c = triple_cut(b, JOKER_A, JOKER_B);
    lemma_triple_cut_is_deck(b, 54, JOKER_A, JOKER_B);
    lemma_bottom_cut_is_deck(c, 54);
}

/// Whatever moves are made on the full deck, one after the other, what
/// comes of it is a deck: each of the values `1..=54` is there once.
pub proof fn lemma_played_is_deck(s: Seq<u8>, moves: Seq<Move>)
    requires
        is_deck(s, 54),
        forall|i: int| 0 <= i < moves.len() ==> playable(#[trigger] moves[i]),
    ensures
        is_deck(played_all(s, moves), 54),
    decreases moves.len(),
{
    if moves.len() > 0 {
        let before = played_all(s, moves.drop_last());
        lemma_played_is_deck(s, moves.drop_last());
        match moves.last() {
            Move::Push { card, places } => lemma_pushed_is_deck(before, 54, card, places as int),
            Move::TripleCut { first, second } => lemma_triple_cut_is_deck(
                before,
                54,
                first,
                second,
            ),
            Move::CountCut { count } => lemma_count_cut_is_deck(before, 54, count as int),
            Move::BottomCut => lemma_bottom_cut_is_deck(before, 54),
            Move::Round => lemma_stepped_is_deck(before),
        }
    }
}

/// The search leaves the full deck a deck, and what it finds is no joker.
pub proof fn lemma_searched_is_deck(s: Seq<u8>, rounds: nat)
    requires
        is_deck(s, 54),
    ensures
        is_deck(searched(s, rounds).0, 54),
        searched(s, rounds).1 matches Some(card) ==> 1 <= card <= 52,
    decreases rounds,
{
    if rounds > 0 {
        lemma_stepped_is_deck(s);
        if tapped(stepped(s)) is None {
            lemma_searched_is_deck(stepped(s), (rounds - 1) as nat);
        }
    }
}

/// A run of outputs leaves the full deck a deck; there are no more outputs
/// than were asked for, and none is a joker.
pub proof fn lemma_key_run_is_deck(s: Seq<u8>, count: nat, rounds: nat)
    requires
        is_deck(s, 54),
    ensures
        is_deck(key_run(s, count, rounds).1, 54),
        key_run(s, count, rounds).0.len() <= count,
        forall|i: int|
            0 <= i < key_run(s, count, rounds).0.len() ==> 1 <= #[trigger] key_run(
                s,
                count,
                rounds,
            ).0[i] <= 52,
    decreases count,
{
    if count > 0 {
        lemma_searched_is_deck(s, rounds);
        let (next, found) = searched(s, rounds);
        if found is Some {
            lemma_key_run_is_deck(next, (count - 1) as nat, rounds);
        }
    }
}

/// In the full deck, push-down by 54 is push-down by one: 53 of the steps
/// are a round, which changes nothing.
pub proof fn lemma_pushed_by_deck_size(s: Seq<u8>, card: u8)
    requires
        s.len() == 54,
    ensures
        pushed(s, card, 54) == pushed(s, card, 1),
{
    lemma_pushed_round(s, card, 1);
}

/// Asking for fewer outputs gives the same outputs, as long as the number
/// asked for is at least the number that came.
pub proof fn lemma_key_run_shorter(s: Seq<u8>, fewer: nat, count: nat, rounds: nat)
    requires
        key_run(s, count, rounds).0.len() <= fewer <= count,
    ensures
        key_run(s, fewer, rounds).0 == key_run(s, count, rounds).0,
    decreases count,
{
    if count > 0 {
        let (next, found) = searched(s, rounds);
        if found is Some {
            lemma_key_run_shorter(next, (fewer - 1) as nat, (count - 1) as nat, rounds);
        }
    }
}

/// A passphrase without letters leaves the deck as it is.
pub proof fn lemma_keyed_by_nothing(s: Seq<u8>)
    ensures
        keyed(s, Seq::empty()) == s,
{
}

} // verus!
