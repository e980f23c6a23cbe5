//! Numbers, texts and kana.

use myme::kana::to_katakana;
use myme::number::{log2, parse_number, write_number};
use myme::order::sort_texts;
use myme::text::{chars_of, find, join_lines, split, split_lines, string_of, trim};

fn chars(s: &str) -> Vec<char> {
    s.chars().collect()
}

#[test]
fn numbers_read_and_write() {
    assert_eq!(parse_number(&chars("1024"), 4_294_967_295), Some(1024));
    assert_eq!(parse_number(&chars("+007"), 10), Some(7));
    assert_eq!(parse_number(&chars("11"), 10), None);
    assert_eq!(parse_number(&chars("18446744073709551615"), u64::MAX), Some(u64::MAX));
    assert_eq!(parse_number(&chars("18446744073709551616"), u64::MAX), None);
    for bad in ["", "+", "-1", "1 ", "１", "++1"] {
        assert_eq!(parse_number(&chars(bad), 100), None, "{bad}");
    }
    for n in [0, 9, 10, 1710000000, u64::MAX] {
        assert_eq!(string_of(&write_number(n)), n.to_string());
    }
}

#[test]
fn logarithms_round_down() {
    assert_eq!(log2(0), 0);
    assert_eq!(log2(1), 0);
    assert_eq!(log2(1023), 9);
    assert_eq!(log2(1024), 10);
    assert_eq!(log2(u32::MAX), 31);
}

#[test]
fn texts_split_and_join() {
    assert_eq!(split(&chars("a//b"), '/'), vec![chars("a"), chars(""), chars("b")]);
    assert_eq!(split(&chars(""), '/'), vec![chars("")]);
    let lines = split_lines(&chars("a\r\n\nb\rc\nd\r"));
    assert_eq!(lines, vec![chars("a"), chars(""), chars("b\rc"), chars("d\r")]);
    assert!(split_lines(&chars("")).is_empty());
    assert_eq!(join_lines(&vec![chars("a"), chars("")]), "a\n\n");
    assert_eq!(find(&chars("abc"), 'c'), 2);
    assert_eq!(find(&chars("abc"), 'x'), 3);
    assert_eq!(trim(&chars(" \t\u{3000}a b\n")), &chars("a b")[..]);
    assert_eq!(chars_of("あa"), chars("あa"));
}

#[test]
fn texts_sort_by_code_point() {
    let sorted = sort_texts(vec![chars("b"), chars("あ"), chars("a"), chars(""), chars("ab")]);
    assert_eq!(sorted, vec![chars(""), chars("a"), chars("ab"), chars("b"), chars("あ")]);
}

#[test]
fn hiragana_become_katakana() {
    assert_eq!(to_katakana("ぁゖゝゞきょう"), "ァヶヽヾキョウ");
    assert_eq!(to_katakana("ー漢aア"), "ー漢aア");
}
