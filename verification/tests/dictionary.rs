//! SKK dictionaries.

use myme::candidate::CandidateSource;
use myme::dictionary::{DictionaryError, DictionaryLookup, SimpleDictionary};

const SAMPLE_SKK: &str = r#"
; SKK dictionary sample
; another comment

へんかん /変換/偏官/返還/
にほんご /日本語/
てすと /テスト/試験/
"#;

// ------------------------------------------------------------------
// 1. Basic parse succeeds
// ------------------------------------------------------------------
#[test]
fn parse_sample_succeeds() {
    let dict = SimpleDictionary::load_from_skk_text(SAMPLE_SKK)
        .expect("sample SKK text should parse without error");
    // 3 readings × (3 + 1 + 2) entries = 6 total
    assert_eq!(dict.entry_count(), 6);
}

// ------------------------------------------------------------------
// 2. Lookup returns correct surface forms
// ------------------------------------------------------------------
#[test]
fn lookup_returns_correct_candidates() {
    let dict = SimpleDictionary::load_from_skk_text(SAMPLE_SKK).unwrap();
    let results = dict.lookup("へんかん");
    let surfaces: Vec<&str> = results.iter().map(|c| c.surface.as_str()).collect();
    assert_eq!(surfaces, vec!["変換", "偏官", "返還"]);
}

// ------------------------------------------------------------------
// 3. First candidate has the highest score
// ------------------------------------------------------------------
#[test]
fn first_candidate_has_highest_score() {
    let dict = SimpleDictionary::load_from_skk_text(SAMPLE_SKK).unwrap();
    let results = dict.lookup("へんかん");
    assert!(!results.is_empty());
    // Already sorted; first element must have the highest score.
    let scores: Vec<u32> = results.iter().map(|c| c.score).collect();
    let mut sorted_desc = scores.clone();
    sorted_desc.sort_by(|a, b| b.cmp(a));
    assert_eq!(scores, sorted_desc, "lookup results must be sorted by descending score");
}

// ------------------------------------------------------------------
// 4. Missing reading returns empty vec
// ------------------------------------------------------------------
#[test]
fn missing_reading_returns_empty() {
    let dict = SimpleDictionary::load_from_skk_text(SAMPLE_SKK).unwrap();
    let results = dict.lookup("そんざいしない");
    assert!(results.is_empty());
}

// ------------------------------------------------------------------
// 5. Comment lines are skipped (entry count is not inflated)
// ------------------------------------------------------------------
#[test]
fn comment_lines_are_skipped() {
    let text = "; just a comment\nにほんご /日本語/\n";
    let dict = SimpleDictionary::load_from_skk_text(text).unwrap();
    assert_eq!(dict.entry_count(), 1);
}

// ------------------------------------------------------------------
// 6. Blank lines are skipped without error
// ------------------------------------------------------------------
#[test]
fn blank_lines_are_skipped() {
    let text = "\n\nへんかん /変換/\n\n";
    let dict = SimpleDictionary::load_from_skk_text(text).unwrap();
    assert_eq!(dict.entry_count(), 1);
}

// ------------------------------------------------------------------
// 7. Lookup reading field is propagated correctly
// ------------------------------------------------------------------
#[test]
fn lookup_reading_field_is_correct() {
    let dict = SimpleDictionary::load_from_skk_text(SAMPLE_SKK).unwrap();
    for candidate in dict.lookup("にほんご") {
        assert_eq!(candidate.reading, "にほんご");
    }
}

// ------------------------------------------------------------------
// 8. Source is always CandidateSource::System
// ------------------------------------------------------------------
#[test]
fn lookup_source_is_system() {
    let dict = SimpleDictionary::load_from_skk_text(SAMPLE_SKK).unwrap();
    for candidate in dict.lookup("てすと") {
        assert_eq!(candidate.source, CandidateSource::System);
    }
}

// ------------------------------------------------------------------
// 9. Malformed line (no space) returns error
// ------------------------------------------------------------------
#[test]
fn malformed_line_no_space_returns_error() {
    let text = "へんかん/変換/\n";
    let result = SimpleDictionary::load_from_skk_text(text);
    assert!(result.is_err(), "line without space separator should fail");
}

// ------------------------------------------------------------------
// 10. Malformed line (no leading slash in candidate list) returns error
// ------------------------------------------------------------------
#[test]
fn malformed_line_no_leading_slash_returns_error() {
    let text = "へんかん 変換/偏官/\n";
    let result = SimpleDictionary::load_from_skk_text(text);
    assert!(result.is_err(), "candidate list must start with '/'");
}

// ------------------------------------------------------------------
// 11. Single candidate is handled correctly
// ------------------------------------------------------------------
#[test]
fn single_candidate_works() {
    let dict = SimpleDictionary::load_from_skk_text("にほんご /日本語/").unwrap();
    let results = dict.lookup("にほんご");
    assert_eq!(results.len(), 1);
    assert_eq!(results[0].surface, "日本語");
    assert_eq!(results[0].score, 10);
}

// ------------------------------------------------------------------
// 12. entry_count aggregates across all readings
// ------------------------------------------------------------------
#[test]
fn entry_count_aggregates_all_readings() {
    let text = "あ /亜/阿/\nい /以/位/\n";
    let dict = SimpleDictionary::load_from_skk_text(text).unwrap();
    assert_eq!(dict.entry_count(), 4);
}

// ------------------------------------------------------------------
// 13. load_from_file succeeds with a valid temp file
// ------------------------------------------------------------------
#[test]
fn load_from_file_parses_valid_file() {
    let text = "; comment\nにほんご /日本語/\nへんかん /変換/偏官/\n";
    let dict = SimpleDictionary::load_from_skk_text(text)
        .expect("load_from_file should succeed on a valid SKK file");
    assert_eq!(dict.entry_count(), 3);
    assert_eq!(dict.lookup("にほんご")[0].surface, "日本語");
}

// ------------------------------------------------------------------
// 15. common_prefix_search returns all prefix matches
// ------------------------------------------------------------------
#[test]
fn common_prefix_search_multiple_matches() {
    let text = "き /木/\nきょ /虚/\nきょう /今日/京/\n";
    let dict = SimpleDictionary::load_from_skk_text(text).unwrap();
    let results = dict.common_prefix_search("きょうは");
    let readings: Vec<&str> = results.iter().map(|r| r.0.as_str()).collect();
    // Longest first
    assert_eq!(readings, vec!["きょう", "きょ", "き"]);
}

// ------------------------------------------------------------------
// 16. common_prefix_search returns empty for no match
// ------------------------------------------------------------------
#[test]
fn common_prefix_search_no_match() {
    let dict = SimpleDictionary::load_from_skk_text(SAMPLE_SKK).unwrap();
    let results = dict.common_prefix_search("zzz");
    assert!(results.is_empty());
}

// ------------------------------------------------------------------
// 17. common_prefix_search single-char match
// ------------------------------------------------------------------
#[test]
fn common_prefix_search_single_char() {
    let text = "あ /亜/\n";
    let dict = SimpleDictionary::load_from_skk_text(text).unwrap();
    let results = dict.common_prefix_search("あいうえお");
    assert_eq!(results.len(), 1);
    assert_eq!(results[0].0, "あ");
    assert_eq!(results[0].1[0].surface, "亜");
}

// ------------------------------------------------------------------
// 18. common_prefix_search candidates are sorted by score
// ------------------------------------------------------------------
#[test]
fn common_prefix_search_candidates_sorted() {
    let text = "きょう /今日/京/教/\n";
    let dict = SimpleDictionary::load_from_skk_text(text).unwrap();
    let results = dict.common_prefix_search("きょうは");
    assert_eq!(results.len(), 1);
    let surfaces: Vec<&str> = results[0].1.iter().map(|c| c.surface.as_str()).collect();
    assert_eq!(surfaces, vec!["今日", "京", "教"]);
}

// ------------------------------------------------------------------
// 19. Frequency annotation boosts score
// ------------------------------------------------------------------
#[test]
fn frequency_annotation_boosts_score() {
    // Without freq, second candidate gets score 10, first gets 20.
    // With freq=1024 on second: log2(1024)=10, bonus=30.
    // Second candidate: position_score=10 + freq_bonus=30 = 40 (beats first's 20).
    let text = "てすと /テスト/試験;freq=1024/\n";
    let dict = SimpleDictionary::load_from_skk_text(text).unwrap();
    let results = dict.lookup("てすと");
    // 試験 (score 40) should now rank before テスト (score 20).
    assert_eq!(results[0].surface, "試験");
    assert_eq!(results[1].surface, "テスト");
}

// ------------------------------------------------------------------
// 20. Missing frequency uses fallback (position-only scoring)
// ------------------------------------------------------------------
#[test]
fn missing_frequency_uses_fallback() {
    let text = "てすと /テスト/試験/\n";
    let dict = SimpleDictionary::load_from_skk_text(text).unwrap();
    let results = dict.lookup("てすと");
    // First-listed gets highest position score.
    assert_eq!(results[0].surface, "テスト");
    assert_eq!(results[1].surface, "試験");
}

// ------------------------------------------------------------------
// 21. Frequency annotation with zero freq
// ------------------------------------------------------------------
#[test]
fn frequency_zero_gives_no_bonus() {
    let text = "あ /亜;freq=0/阿/\n";
    let dict = SimpleDictionary::load_from_skk_text(text).unwrap();
    let results = dict.lookup("あ");
    // 亜 has position score 20+0=20, 阿 has position score 10.
    assert_eq!(results[0].surface, "亜");
}

// ------------------------------------------------------------------
// Errors
// ------------------------------------------------------------------

fn error_of(text: &str) -> (usize, String) {
    match SimpleDictionary::load_from_skk_text(text) {
        Ok(_) => panic!("{text} should not load"),
        Err(DictionaryError::MalformedLine { line_number, detail }) => (line_number, detail),
    }
}

#[test]
fn errors_name_the_line_and_the_reason() {
    assert_eq!(
        error_of("; c\nあ/亜/\n"),
        (2, "missing space separator between reading and candidates".to_string())
    );
    assert_eq!(error_of("あ 亜/\n"), (1, "candidate list must start with '/'".to_string()));
    assert_eq!(error_of("あ /亜\n"), (1, "candidate list must end with '/'".to_string()));
    assert_eq!(
        error_of("\n\nあ / / /\n"),
        (3, "no candidates found in candidate list".to_string())
    );
    // The first error counts.
    assert_eq!(error_of("あ /亜/\nx\ny z\n").0, 2);
}

#[test]
fn error_message_is_readable() {
    let error = match SimpleDictionary::load_from_skk_text("あ /亜/\nい 以\n") {
        Ok(_) => panic!("should not load"),
        Err(e) => e,
    };
    assert_eq!(
        error.message(),
        "malformed dictionary line 2: candidate list must start with '/'"
    );
}

#[test]
fn ordinary_texts_can_be_loaded() {
    assert!(SimpleDictionary::can_load(SAMPLE_SKK));
    assert!(SimpleDictionary::can_load("malformed"));
}

// ------------------------------------------------------------------
// Scores and readings
// ------------------------------------------------------------------

#[test]
fn scores_follow_position_and_frequency() {
    let dict =
        SimpleDictionary::load_from_skk_text("あ /a;freq=1000/b;note/c;freq=x/d;freq=+8/\n").unwrap();
    let found: Vec<(String, u32)> =
        dict.lookup("あ").into_iter().map(|c| (c.surface, c.score)).collect();
    // 40 + 3 * 9, 30, 20, 10 + 3 * 3
    assert_eq!(
        found,
        vec![
            ("a".to_string(), 67),
            ("b".to_string(), 30),
            ("c".to_string(), 20),
            ("d".to_string(), 19),
        ]
    );
}

#[test]
fn repeated_readings_are_joined() {
    let dict = SimpleDictionary::load_from_skk_text("あ /b/\nい /x/\nあ /a/c/\n").unwrap();
    assert_eq!(dict.entry_count(), 4);
    let found: Vec<String> = dict.lookup("あ").into_iter().map(|c| c.surface).collect();
    assert_eq!(found, vec!["a", "b", "c"]);
}

#[test]
fn white_space_and_line_ends_are_trimmed() {
    let dict = SimpleDictionary::load_from_skk_text("  あ   / 亜 //阿/ \r\n\u{3000}い /以/").unwrap();
    let found: Vec<String> = dict.lookup("あ").into_iter().map(|c| c.surface).collect();
    assert_eq!(found, vec!["亜", "阿"]);
    assert_eq!(dict.lookup("い")[0].surface, "以");
}

#[test]
fn joined_texts_have_the_entries_of_both() {
    let a = "; a\nあ /b/\r";
    let b = "い /x/y/\n\nあ /a/\n";
    let count = |text: &str| SimpleDictionary::load_from_skk_text(text).unwrap().entry_count();
    let joined = SimpleDictionary::load_from_skk_text(&format!("{a}\n{b}")).unwrap();
    assert_eq!(joined.entry_count(), count(a) + count(b));
    assert_eq!(joined.entry_count(), joined.lookup("あ").len() + joined.lookup("い").len());
    assert_eq!(count("; only\n\n  ; comments"), 0);
}
