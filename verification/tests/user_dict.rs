//! The user dictionary and its merge with the system dictionary.

use myme::candidate::{Candidate, CandidateSource};
use myme::dictionary::{DictionaryLookup, SimpleDictionary};
use myme::user_dict::{CompositeDictionary, UserDictionary};

#[test]
fn user_entries_appear_in_lookup() {
    let user = UserDictionary::load(Some("みめ /myme/\n"));
    let results = user.lookup("みめ");
    assert_eq!(results.len(), 1);
    assert_eq!(results[0].surface, "myme");
    assert_eq!(results[0].source, CandidateSource::User);
}

#[test]
fn user_entries_rank_above_system() {
    let system = SimpleDictionary::load_from_skk_text("てすと /テスト/試験/\n").unwrap();
    let user = UserDictionary::load(Some("てすと /mytest/\n"));
    let composite = CompositeDictionary::new(system, Some(user));
    let results = composite.lookup("てすと");
    // User entry "mytest" should rank first due to +50 boost.
    assert_eq!(results[0].surface, "mytest");
    assert_eq!(results[0].source, CandidateSource::User);
}

#[test]
fn duplicate_dedup_favors_higher_score() {
    let system = SimpleDictionary::load_from_skk_text("てすと /テスト/\n").unwrap();
    let user = UserDictionary::load(Some("てすと /テスト/\n"));
    let composite = CompositeDictionary::new(system, Some(user));
    let results = composite.lookup("てすと");
    // Only one entry for テスト (user version wins due to boost).
    assert_eq!(results.len(), 1);
    assert_eq!(results[0].surface, "テスト");
    assert_eq!(results[0].source, CandidateSource::User);
}

#[test]
fn empty_user_dict_is_harmless() {
    let system = SimpleDictionary::load_from_skk_text("てすと /テスト/\n").unwrap();
    let composite = CompositeDictionary::new(system, None);
    let results = composite.lookup("てすと");
    assert_eq!(results.len(), 1);
    assert_eq!(results[0].surface, "テスト");
}

#[test]
fn missing_user_dict_file_creates_empty() {
    // There is no file "/tmp/nonexistent_myme_user_dict_xxx.dict", so no text of it.
    let user = UserDictionary::load(None);
    let results = user.lookup("anything");
    assert!(results.is_empty());
}

#[test]
fn composite_common_prefix_search_merges() {
    let system = SimpleDictionary::load_from_skk_text("き /木/\nきょう /今日/\n").unwrap();
    let user = UserDictionary::load(Some("き /気/\n"));
    let composite = CompositeDictionary::new(system, Some(user));
    let results = composite.common_prefix_search("きょうは");
    // Should have entries for both きょう and き.
    let readings: Vec<&str> = results.iter().map(|r| r.0.as_str()).collect();
    assert!(readings.contains(&"きょう"));
    assert!(readings.contains(&"き"));
    // き should have both 木 and 気.
    let ki = results.iter().find(|r| r.0 == "き").unwrap();
    let surfaces: Vec<&str> = ki.1.iter().map(|c| c.surface.as_str()).collect();
    assert!(surfaces.contains(&"木"));
    assert!(surfaces.contains(&"気"));
}

#[test]
fn malformed_user_dict_is_empty() {
    let user = UserDictionary::load(Some("みめ /myme/\nbroken\n"));
    assert!(user.lookup("みめ").is_empty());
    let user = UserDictionary::empty();
    assert!(user.lookup("みめ").is_empty());
}

#[test]
fn user_boost_is_fifty() {
    let system = SimpleDictionary::load_from_skk_text("あ /亜/\n").unwrap();
    let user = UserDictionary::load(Some("あ /阿/\n"));
    let composite = CompositeDictionary::new(system, Some(user));
    let results = composite.lookup("あ");
    assert_eq!(results[0].surface, "阿");
    assert_eq!(results[0].score, 60);
    assert_eq!(results[1].surface, "亜");
    assert_eq!(results[1].score, 10);
    assert_eq!(results[1].source, CandidateSource::System);
}

#[test]
fn higher_scoring_duplicate_wins() {
    // The system entry scores 10 + 3 * 20 = 70, the user entry 10 + 50 = 60.
    let system = SimpleDictionary::load_from_skk_text("あ /亜;freq=1048576/\n").unwrap();
    let user = UserDictionary::load(Some("あ /亜/\n"));
    let composite = CompositeDictionary::new(system, Some(user));
    let results = composite.lookup("あ");
    assert_eq!(results.len(), 1);
    assert_eq!(results[0].score, 70);
    assert_eq!(results[0].source, CandidateSource::System);
}

#[test]
fn merge_keeps_every_word_once() {
    let make = |surface: &str, score: u32| {
        Candidate::new(surface, "あ", score, CandidateSource::User)
    };
    let merged = CompositeDictionary::merge_candidates(
        vec![make("a", 5), make("b", 90), make("a", 7)],
        vec![make("b", 1), make("c", 2), make("c", 3)],
    );
    let words: Vec<(&str, u32)> = merged.iter().map(|c| (c.surface.as_str(), c.score)).collect();
    assert_eq!(words, vec![("b", 90), ("c", 53), ("a", 7)]);
}

#[test]
fn composite_search_keeps_user_only_readings() {
    let system = SimpleDictionary::load_from_skk_text("き /木/\n").unwrap();
    let user = UserDictionary::load(Some("きょ /虚/\nきょうは /教派/\n"));
    let composite = CompositeDictionary::new(system, Some(user));
    let results = composite.common_prefix_search("きょうは");
    let readings: Vec<&str> = results.iter().map(|r| r.0.as_str()).collect();
    assert_eq!(readings, vec!["きょうは", "きょ", "き"]);
    assert_eq!(results[0].1[0].surface, "教派");
    assert_eq!(results[0].1[0].score, 60);
}

#[test]
fn user_candidates_are_those_of_the_text() {
    let text = "あ /亜/阿;freq=1024/\n";
    let same = SimpleDictionary::load_from_skk_text(text).unwrap().lookup("あ");
    let found = UserDictionary::load(Some(text)).lookup("あ");
    assert_eq!(found.len(), 2);
    for (own, other) in found.iter().zip(&same) {
        assert_eq!(own.surface, other.surface);
        assert_eq!(own.reading, other.reading);
        assert_eq!(own.score, other.score);
        assert_eq!(own.source, CandidateSource::User);
    }
}
