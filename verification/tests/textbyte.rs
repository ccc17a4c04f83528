use itertools::Itertools;
use solitaire::text::{chars_of, string_of};
use solitaire::textbyte::{textbyte, Pad, Restore, Separate};
use solitaire::{GROUP_SIZE, PAD_CHAR};

fn convert_text_impl(msg: &str, expect: &[u8]) {
    let have: Vec<u8> = textbyte(msg);
    assert_eq!(have, expect);
}

#[test]
fn test_convert_text() {
    convert_text_impl("abc", &[1, 2, 3]);
    convert_text_impl("xyz", &[24, 25, 26]);
    convert_text_impl("abc def", &[1, 2, 3, 4, 5, 6]);
    convert_text_impl("xyz.fed", &[24, 25, 26, 6, 5, 4]);
}

fn padding_impl(msg: &str, expect_len: usize) {
    assert_eq!(textbyte(msg).pad(PAD_CHAR, GROUP_SIZE).len(), expect_len);
}

#[test]
fn test_padding() {
    padding_impl("a", 5);
    padding_impl("abcde", 5);
    padding_impl(".", 0);
    padding_impl("abcdef", 10);
    padding_impl("a.b.c.d", 5);
    padding_impl("", 0);
}

fn padding_impl_2(msg: &str, expect: &[u8]) {
    let have: Vec<u8> = textbyte(msg).pad(PAD_CHAR, GROUP_SIZE);
    assert_eq!(have, expect);
}

#[test]
fn test_padding_2() {
    padding_impl_2("a", &[1, 24, 24, 24, 24]);
    padding_impl_2("abcde", &[1, 2, 3, 4, 5]);
    padding_impl_2(".", &[]);
    padding_impl_2("abcdef", &[1, 2, 3, 4, 5, 6, 24, 24, 24, 24]);
    padding_impl_2("a.b.c.d", &[1, 2, 3, 4, 24]);
    padding_impl_2("", &[]);
}

fn reverse_impl(msg: &str) {
    let msg = &msg.to_string().to_uppercase();
    assert_eq!(
        &textbyte(msg).restore().into_iter().collect::<String>(),
        msg,
    );
}

#[test]
fn test_reverse() {
    reverse_impl("abc");
    reverse_impl("zyx");
    reverse_impl("abcdefghijklmnopqrstuvwxyz");
    reverse_impl("thequickbrownfoxjumpedoverthelazydog");
    reverse_impl("abcdefghijklmnopqrstuvwxyzabcdefghijklmnopqrstuvwxyz");
}

#[test]
fn test_separate() {
    for (msg, expect) in &[
        ("abc", "abc"),
        ("zyx", "zyx"),
        (
            "abcdefghijklmnopqrstuvwxyz",
            "abcde fghij klmno pqrst uvwxy z",
        ),
        (
            "thequickbrownfoxjumpedoverthelazydog",
            "thequ ickbr ownfo xjump edove rthel azydo g",
        ),
        (
            "abcdefghijklmnopqrstuvwxyzabcdefghijklmnopqrstuvwxyz",
            "abcde fghij klmno pqrst uvwxy zabcd efghi jklmn opqrs tuvwx yz",
        ),
    ] {
        let got: String = msg.chars().collect::<Vec<char>>().separate(' ', 5);
        assert_eq!(&got, expect,);
    }
}

#[test]
fn letters_count_from_one_in_either_case() {
    assert_eq!(textbyte("aA"), [1, 1]);
    assert_eq!(textbyte("zZ"), [26, 26]);
    assert_eq!(textbyte("mN"), [13, 14]);
    assert_eq!(
        textbyte("The quick brown fox"),
        [20, 8, 5, 17, 21, 9, 3, 11, 2, 18, 15, 23, 14, 6, 15, 24]
    );
}

#[test]
fn what_is_no_letter_is_dropped() {
    assert_eq!(textbyte(""), Vec::<u8>::new());
    assert_eq!(textbyte("0123456789 \t\n.,;:!?-_@[`{"), Vec::<u8>::new());
    assert_eq!(textbyte("äöü ß é Ω ♣ 字"), Vec::<u8>::new());
    assert_eq!(textbyte("a1b2 c♣d"), [1, 2, 3, 4]);
}

#[test]
fn pad_char_is_x() {
    assert_eq!(PAD_CHAR, b'X' - b'A' + 1);
    assert_eq!(GROUP_SIZE, 5);
}

#[test]
fn padding_fills_the_last_group_only() {
    assert_eq!(vec![1u8, 2, 3].pad(9, 2), [1, 2, 3, 9]);
    assert_eq!(vec![1u8, 2, 3].pad(9, 3), [1, 2, 3]);
    assert_eq!(vec![1u8, 2, 3].pad(9, 1), [1, 2, 3]);
    assert_eq!(vec![1u8, 2, 3].pad(9, 7), [1, 2, 3, 9, 9, 9, 9]);
    assert_eq!(Vec::<u8>::new().pad(9, 7), Vec::<u8>::new());
    assert_eq!(vec!['a'].pad('-', 3), ['a', '-', '-']);
}

#[test]
fn restore_goes_around_the_alphabet() {
    assert_eq!(vec![1u8, 26, 27, 52, 53, 78, 255].restore(), ['A', 'Z', 'A', 'Z', 'A', 'Z', 'U']);
    assert_eq!(Vec::<u8>::new().restore(), Vec::<char>::new());
}

#[test]
fn separate_puts_one_separator_between_groups() {
    let groups: Vec<u8> = vec![1u8, 2, 3, 4, 5, 6].separate(0, 2);
    assert_eq!(groups, [1, 2, 0, 3, 4, 0, 5, 6]);
    let groups: Vec<u8> = vec![1u8, 2, 3, 4, 5].separate(0, 2);
    assert_eq!(groups, [1, 2, 0, 3, 4, 0, 5]);
    let groups: Vec<u8> = vec![1u8, 2, 3].separate(0, 1);
    assert_eq!(groups, [1, 0, 2, 0, 3]);
    let groups: Vec<u8> = vec![1u8, 2, 3].separate(0, 3);
    assert_eq!(groups, [1, 2, 3]);
    let groups: Vec<u8> = vec![1u8, 2, 3].separate(0, 4);
    assert_eq!(groups, [1, 2, 3]);
    let groups: Vec<u8> = Vec::<u8>::new().separate(0, 4);
    assert_eq!(groups, Vec::<u8>::new());
    // a separator in the stream stays where it is
    let groups: String = "a b  ".chars().collect::<Vec<char>>().separate(' ', 2);
    assert_eq!(groups, "a  b   ");
}

/// Padding as a chain of iterator adaptors.
fn pad_by_adaptors(stream: Vec<u8>, padding: u8, group_size: usize) -> Vec<u8> {
    stream
        .into_iter()
        .fuse()
        .zip_longest(std::iter::repeat(padding))
        .enumerate()
        .take_while(move |(idx, eob)| eob.has_left() || idx % group_size != 0)
        .map(|(_, eob)| eob.reduce(|b, _| b))
        .collect()
}

/// Grouping as a chain of iterator adaptors.
fn separate_by_adaptors(stream: Vec<char>, group_sep: char, group_size: usize) -> String {
    let chunks = stream.into_iter().chunks(group_size);
    let groups: Vec<String> = chunks.into_iter().map(|chunk| chunk.collect()).collect();
    groups.iter().join(&group_sep.to_string())
}

#[test]
fn pad_agrees_with_iterator_adaptors() {
    for len in 0..40usize {
        for group_size in 1..9usize {
            let stream: Vec<u8> = (0..len).map(|i| (i % 26) as u8 + 1).collect();
            assert_eq!(
                stream.clone().pad(PAD_CHAR, group_size),
                pad_by_adaptors(stream, PAD_CHAR, group_size)
            );
        }
    }
}

#[test]
fn separate_agrees_with_iterator_adaptors() {
    for len in 0..40usize {
        for group_size in 1..9usize {
            let stream: Vec<char> = (0..len).map(|i| (b'a' + (i % 26) as u8) as char).collect();
            let got: String = stream.clone().separate(' ', group_size);
            assert_eq!(got, separate_by_adaptors(stream, ' ', group_size));
        }
    }
}

#[test]
fn strings_and_characters_stand_for_each_other() {
    for text in ["", "abc", "10♠ K♤", "äöü"] {
        let chars = chars_of(text);
        assert_eq!(chars, text.chars().collect::<Vec<char>>());
        assert_eq!(string_of(&chars), text);
    }
}
