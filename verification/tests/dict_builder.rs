//! Compiling the system dictionary.

use myme::dict_builder::{build_dictionary, build_from_text, is_all_hiragana, is_hiragana_char};

// ------------------------------------------------------------------
// is_hiragana_char
// ------------------------------------------------------------------
#[test]
fn hiragana_boundary_chars_accepted() {
    // First and last standard hiragana codepoints.
    assert!(is_hiragana_char('ぁ')); // U+3041
    assert!(is_hiragana_char('ゖ')); // U+3096
}

#[test]
fn hiragana_iteration_marks_accepted() {
    assert!(is_hiragana_char('ゝ')); // U+309D
    assert!(is_hiragana_char('ゞ')); // U+309E
}

#[test]
fn katakana_rejected() {
    assert!(!is_hiragana_char('ア')); // U+30A2
    assert!(!is_hiragana_char('ン')); // U+30F3
}

#[test]
fn ascii_rejected() {
    assert!(!is_hiragana_char('a'));
    assert!(!is_hiragana_char('Z'));
    assert!(!is_hiragana_char('1'));
}

#[test]
fn kanji_rejected() {
    assert!(!is_hiragana_char('変'));
    assert!(!is_hiragana_char('換'));
}

// ------------------------------------------------------------------
// is_all_hiragana
// ------------------------------------------------------------------
#[test]
fn empty_string_rejected() {
    assert!(!is_all_hiragana(""));
}

#[test]
fn pure_hiragana_accepted() {
    assert!(is_all_hiragana("へんかん"));
    assert!(is_all_hiragana("にほんご"));
    assert!(is_all_hiragana("あ"));
}

#[test]
fn mixed_hiragana_katakana_rejected() {
    assert!(!is_all_hiragana("へんアん"));
}

#[test]
fn trailing_ascii_rejected() {
    // okuri-ari style: reading ends with ASCII letter
    assert!(!is_all_hiragana("われr"));
    assert!(!is_all_hiragana("をs"));
}

#[test]
fn ascii_key_rejected() {
    assert!(!is_all_hiragana("!"));
    assert!(!is_all_hiragana("#giga"));
}

#[test]
fn digraph_accepted() {
    assert!(is_hiragana_char('\u{309F}'));
    assert!(!is_hiragana_char('\u{3097}'));
    assert!(!is_hiragana_char('\u{30A0}'));
}

#[test]
fn lines_are_filtered_and_counted() {
    let source = ";; okuri-nasi entries.\n\nわれr /割/\nあい /愛/\r\nmalformed\n#giga /x/\nい /以/";
    let built = build_from_text(source, false);
    assert_eq!(built.text, ";; okuri-nasi entries.\n\nあい /愛/\nい /以/\n");
    assert_eq!(built.total_entries, 5);
    assert_eq!(built.kept_entries, 2);
    assert_eq!(built.filtered_entries, 3);
    assert!(!built.had_errors);
}

#[test]
fn building_again_changes_nothing() {
    let source = "; c\nあ /亜/\nア /亜/\n";
    let once = build_from_text(source, false);
    let twice = build_from_text(&once.text, false);
    assert_eq!(once.text, twice.text);
    assert_eq!(twice.filtered_entries, 0);
}

#[test]
fn euc_jp_is_decoded() {
    // あ /亜/ in EUC-JP.
    let bytes = [0xA4, 0xA2, 0x20, 0x2F, 0xB0, 0xA1, 0x2F, 0x0A];
    let built = build_dictionary(&bytes);
    assert_eq!(built.text, "あ /亜/\n");
    assert_eq!(built.kept_entries, 1);
    assert!(!built.had_errors);
}

#[test]
fn bytes_that_are_not_euc_jp_are_reported() {
    let built = build_dictionary(&[0xA4, 0xFF, 0x0A]);
    assert!(built.had_errors);
}
