//! Text as a stream of letter values, and back: letters count from `A` as 1
//! to `Z` as 26, streams are padded to whole groups, and the output is
//! written in groups.

use vstd::prelude::*;

verus! {

/// Whether `c` is one of the letters `A` to `Z`, in either case.
pub open spec fn is_letter(c: char) -> bool {
    ('a' <= c <= 'z') || ('A' <= c <= 'Z')
}

/// The place of the letter `c` in the alphabet, counted from one.
pub open spec fn letter_value(c: char) -> u8 {
    if 'a' <= c <= 'z' {
        (c as int - 'a' as int + 1) as u8
    } else {
        (c as int - 'A' as int + 1) as u8
    }
}

/// The upper-case letter that the value `b` stands for. The alphabet goes
/// around: 27 is `A` again.
pub open spec fn letter_of(b: u8) -> char {
    ((b - 1) % 26 + 'A' as int) as char
}

/// The values of the letters of `text`; what is no letter is passed over.
pub open spec fn letters(text: Seq<char>) -> Seq<u8> {
    text.filter(|c: char| is_letter(c)).map_values(|c: char| letter_value(c))
}

/// `s`, filled up with `padding` to the next multiple of `group_size`.
pub open spec fn padded<T>(s: Seq<T>, padding: T, group_size: int) -> Seq<T> {
    let rest = (s.len() as int) % group_size;
    if rest == 0 {
        s
    } else {
        s + Seq::new((group_size - rest) as nat, |i: int| padding)
    }
}

/// The letters that the values of `s` stand for.
pub open spec fn restored(s: Seq<u8>) -> Seq<char> {
    s.map_values(|b: u8| letter_of(b))
}

/// `s` in groups of `group_size`, with one `sep` between each group and the
/// next, and none at the end.
pub open spec fn separated<T>(s: Seq<T>, sep: T, group_size: int) -> Seq<T>
    decreases s.len(),
{
    if group_size <= 0 || s.len() <= group_size {
        s
    } else {
        s.take(group_size) + seq![sep] + separated(s.skip(group_size), sep, group_size)
    }
}

/// The value in `1..=26` of the letter that the value `b` stands for.
pub open spec fn reduced(b: u8) -> u8 {
    ((b - 1) % 26 + 1) as u8
}

/// The padded, grouped, upper-case, letters-only form of a text: what
/// encryption works on, written out.
pub open spec fn normal_form(text: Seq<char>, padding: u8, group_size: int) -> Seq<char> {
    separated(restored(padded(letters(text), padding, group_size)), ' ', group_size)
}

/// Padding fills up to the next multiple of the group size, and no
/// further: what was there stays in front, and what is new is padding.
pub proof fn lemma_padded<T>(s: Seq<T>, padding: T, group_size: int)
    requires
        group_size > 0,
    ensures
        (padded(s, padding, group_size).len() as int) % group_size == 0,
        s.len() <= padded(s, padding, group_size).len() < s.len() + group_size,
        forall|i: int| 0 <= i < s.len() ==> #[trigger] padded(s, padding, group_size)[i] == s[i],
        forall|i: int|
            s.len() <= i < padded(s, padding, group_size).len() ==> #[trigger] padded(
                s,
                padding,
                group_size,
            )[i] == padding,
{
    let n = s.len() as int;
    vstd::arithmetic::div_mod::lemma_mod_bound(n, group_size);
    vstd::arithmetic::div_mod::lemma_fundamental_div_mod(n, group_size);
    let rest = n % group_size;
    if rest != 0 {
        let whole = n / group_size + 1;
        assert(n + group_size - rest == whole * group_size) by (nonlinear_arith)
            requires
                n == group_size * (n / group_size) + rest,
                whole == n / group_size + 1,
        ;
        vstd::arithmetic::div_mod::lemma_mod_multiples_basic(whole, group_size);
    }
}

/// The letters of a text with one more character are the letters of the
/// text, and the value of that character where it is a letter.
pub proof fn lemma_letters_push(text: Seq<char>, c: char)
    ensures
        letters(text.push(c)) == if is_letter(c) {
            letters(text).push(letter_value(c))
        } else {
            letters(text)
        },
{
    let keep = |c: char| is_letter(c);
    let value = |c: char| letter_value(c);
    Seq::lemma_filter_push(text, c, keep);
    if is_letter(c) {
        text.filter(keep).lemma_push_map_commute(value, c);
    }
}

/// The letters of two texts in a row are the letters of the one and then
/// the letters of the other.
pub proof fn lemma_letters_add(a: Seq<char>, b: Seq<char>)
    ensures
        letters(a + b) == letters(a) + letters(b),
    decreases b.len(),
{
    if b.len() == 0 {
        assert(a + b =~= a);
        assert(letters(b) =~= Seq::<u8>::empty());
        assert(letters(a) + letters(b) =~= letters(a));
    } else {
        let front = b.drop_last();
        lemma_letters_add(a, front);
        lemma_letters_push(a + front, b.last());
        lemma_letters_push(front, b.last());
        assert((a + front).push(b.last()) =~= a + b);
        assert(front.push(b.last()) =~= b);
        if is_letter(b.last()) {
            assert((letters(a) + letters(front)).push(letter_value(b.last())) =~= letters(a)
                + letters(front).push(letter_value(b.last())));
        }
    }
}

/// Every letter value lies in `1..=26`.
pub proof fn lemma_letters_range(text: Seq<char>)
    ensures
        forall|i: int| 0 <= i < letters(text).len() ==> 1 <= #[trigger] letters(text)[i] <= 26,
    decreases text.len(),
{
    if text.len() > 0 {
        lemma_letters_range(text.drop_last());
        lemma_letters_push(text.drop_last(), text.last());
        assert(text.drop_last().push(text.last()) =~= text);
    } else {
        assert(letters(text) =~= Seq::<u8>::empty());
    }
}

/// Writing in groups adds no letter and takes none away.
pub proof fn lemma_letters_of_separated(text: Seq<char>, group_size: int)
    requires
        group_size > 0,
    ensures
        letters(separated(text, ' ', group_size)) == letters(text),
    decreases text.len(),
{
    if text.len() > group_size {
        let head = text.take(group_size);
        let tail = text.skip(group_size);
        lemma_letters_of_separated(tail, group_size);
        lemma_letters_add(head + seq![' '], separated(tail, ' ', group_size));
        lemma_letters_add(head, seq![' ']);
        lemma_letters_push(Seq::<char>::empty(), ' ');
        assert(Seq::<char>::empty().push(' ') =~= seq![' ']);
        assert(letters(Seq::<char>::empty()) =~= Seq::<u8>::empty());
        lemma_letters_add(head, tail);
        assert(head + tail =~= text);
        assert(letters(head) + Seq::<u8>::empty() =~= letters(head));
    }
}

/// The letters that values stand for, read again, are the values brought
/// into `1..=26`.
pub proof fn lemma_letters_of_restored(values: Seq<u8>)
    requires
        forall|i: int| 0 <= i < values.len() ==> #[trigger] values[i] >= 1,
    ensures
        letters(restored(values)) == values.map_values(|b: u8| reduced(b)),
    decreases values.len(),
{
    if values.len() == 0 {
        assert(restored(values) =~= Seq::<char>::empty());
        assert(letters(Seq::<char>::empty()) =~= Seq::<u8>::empty());
        assert(values.map_values(|b: u8| reduced(b)) =~= Seq::<u8>::empty());
    } else {
        let front = values.drop_last();
        let last = values.last();
        lemma_letters_of_restored(front);
        assert(restored(values) =~= restored(front).push(letter_of(last)));
        lemma_letters_push(restored(front), letter_of(last));
        assert(is_letter(letter_of(last)));
        assert(letter_value(letter_of(last)) == reduced(last));
        assert(values.map_values(|b: u8| reduced(b)) =~= front.map_values(|b: u8| reduced(b)).push(
            reduced(last),
        ));
    }
}

/// Convert a text input into a numeric stream from 1..26 according to its chars.
///
/// ASCII letters are uppercased, then assigned `A==1 .. Z==26`. All other chars
/// are discarded.
pub fn textbyte(text: &str) -> (values: Vec<u8>)
    ensures
        values@ == letters(text@),
        forall|i: int| 0 <= i < values@.len() ==> 1 <= #[trigger] values@[i] <= 26,
{
    let mut values: Vec<u8> = Vec::new();
    let ghost keep = |c: char| is_letter(c);
    let ghost value = |c: char| letter_value(c);
    for c in it: text.chars()
        invariant
            it.seq() == text@,
            keep == |c: char| is_letter(c),
            value == |c: char| letter_value(c),
            values@ == text@.take(it.index() as int).filter(keep).map_values(value),
            forall|i: int| 0 <= i < values@.len() ==> 1 <= #[trigger] values@[i] <= 26,
    {
        let ghost seen = text@.take(it.index() as int);
        proof {
            assert(text@.take(it.index() + 1) =~= seen.push(c));
            Seq::lemma_filter_push(seen, c, keep);
        }
        if 'a' <= c && c <= 'z' {
            let v = (c as u8) - 97 + 1;
            proof {
                seen.filter(keep).lemma_push_map_commute(value, c);
            }
            values.push(v);
        } else if 'A' <= c && c <= 'Z' {
            let v = (c as u8) - 65 + 1;
            proof {
                seen.filter(keep).lemma_push_map_commute(value, c);
            }
            values.push(v);
        }
    }
    assert(text@.take(text@.len() as int) =~= text@);
    values
}

/// Streams that can be filled up to whole groups.
pub trait Pad<T: Copy>: View<V = Seq<T>> + Sized {
    /// Ensure that a stream has a length of a multiple of `group_size`.
    ///
    /// If the stream ends at a length which is not a multiple of
    /// `group_size`, instances of `padding` are copied into the stream until
    /// the length is correct.
    fn pad(self, padding: T, group_size: usize) -> (stream: Vec<T>)
        requires
            group_size > 0,
        ensures
            stream@ == padded(self@, padding, group_size as int),
    ;
}

impl<T: Copy> Pad<T> for Vec<T> {
    fn pad(self, padding: T, group_size: usize) -> (stream: Vec<T>) {
        let mut stream = self;
        let rest = stream.len() % group_size;
        if rest != 0 {
            let ghost start = stream@;
            let mut filled: usize = rest;
            while filled < group_size
                invariant
                    0 < rest <= filled <= group_size,
                    stream@ == start + Seq::new((filled - rest) as nat, |i: int| padding),
                decreases group_size - filled,
            {
                stream.push(padding);
                filled += 1;
                assert(stream@ =~= start + Seq::new((filled - rest) as nat, |i: int| padding));
            }
        }
        stream
    }
}

/// Streams of letter values that can be turned back into letters.
pub trait Restore: View<V = Seq<u8>> + Sized {
    /// Restore a stream of bytes into a stream of characters.
    ///
    /// Assumes the mapping is `1==A .. 26==Z`, and goes on around the
    /// alphabet from there.
    fn restore(self) -> (chars: Vec<char>)
        requires
            forall|i: int| 0 <= i < self@.len() ==> #[trigger] self@[i] >= 1,
        ensures
            chars@ == restored(self@),
    ;
}

impl Restore for Vec<u8> {
    fn restore(self) -> (chars: Vec<char>) {
        let mut chars: Vec<char> = Vec::new();
        let mut i: usize = 0;
        while i < self.len()
            invariant
                i <= self@.len(),
                forall|j: int| 0 <= j < self@.len() ==> #[trigger] self@[j] >= 1,
                chars@ == restored(self@.take(i as int)),
            decreases self@.len() - i,
        {
            let b = self[i];
            chars.push(((b - 1) % 26 + 65) as char);
            i += 1;
            assert(chars@ =~= restored(self@.take(i as int)));
        }
        assert(self@.take(i as int) =~= self@);
        chars
    }
}

/// Streams that can be written in groups.
pub trait Separate<T: Copy, O: View<V = Seq<T>>>: View<V = Seq<T>> + Sized {
    /// Separate a stream into groups, inserting a copy of `group_sep` between
    /// each, then collect it.
    fn separate(self, group_sep: T, group_size: usize) -> (out: O)
        requires
            group_size > 0,
        ensures
            out@ == separated(self@, group_sep, group_size as int),
    ;
}

impl<T: Copy> Separate<T, Vec<T>> for Vec<T> {
    fn separate(self, group_sep: T, group_size: usize) -> (out: Vec<T>) {
        let mut out: Vec<T> = Vec::new();
        let n = self.len();
        let mut pos: usize = 0;
        assert(self@.skip(0) =~= self@);
        while n - pos > group_size
            invariant
                pos <= n == self@.len(),
                group_size > 0,
                separated(self@, group_sep, group_size as int) == out@ + separated(
                    self@.skip(pos as int),
                    group_sep,
                    group_size as int,
                ),
            decreases n - pos,
        {
            let ghost start = pos;
            let ghost before = out@;
            let end = pos + group_size;
            while pos < end
                invariant
                    start <= pos <= end < n == self@.len(),
                    out@ == before + self@.subrange(start as int, pos as int),
                decreases end - pos,
            {
                out.push(self[pos]);
                pos += 1;
                assert(out@ =~= before + self@.subrange(start as int, pos as int));
            }
            out.push(group_sep);
            proof {
                let tail = self@.skip(start as int);
                assert(tail.take(group_size as int) =~= self@.subrange(start as int, end as int));
                assert(tail.skip(group_size as int) =~= self@.skip(end as int));
                assert(out@ + separated(self@.skip(end as int), group_sep, group_size as int)
                    =~= before + (tail.take(group_size as int) + seq![group_sep] + separated(
                    tail.skip(group_size as int),
                    group_sep,
                    group_size as int,
                )));
            }
        }
        let ghost start = pos;
        let ghost before = out@;
        while pos < n
            invariant
                start <= pos <= n == self@.len(),
                out@ == before + self@.subrange(start as int, pos as int),
            decreases n - pos,
        {
            out.push(self[pos]);
            pos += 1;
            assert(out@ =~= before + self@.subrange(start as int, pos as int));
        }
        assert(self@.subrange(start as int, n as int) =~= self@.skip(start as int));
        out
    }
}

impl Separate<char, String> for Vec<char> {
    fn separate(self, group_sep: char, group_size: usize) -> (out: String) {
        let chars: Vec<char> = self.separate(group_sep, group_size);
        crate::text::string_of(&chars)
    }
}

} // verus!
