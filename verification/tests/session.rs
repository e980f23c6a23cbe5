//! Input sessions.

use myme::candidate::{Candidate, CandidateSource};
use myme::dictionary::{Content, DictionaryLookup};
use myme::learning::LearningStore;
use myme::romaji::convert;
use myme::session::{KeyEvent, Session, SessionAction, SessionState};

// -----------------------------------------------------------------------
// Mock dictionary
// -----------------------------------------------------------------------

/// A simple mock dictionary that returns hard-coded candidates for a small
/// set of known readings and an empty list for everything else.
struct MockDictionary;

impl DictionaryLookup for MockDictionary {
    fn wf(&self) -> bool {
        true
    }

    /// What the dictionary holds is a matter of proofs; nothing calls this.
    fn content(&self) -> Content {
        unreachable!()
    }

    fn lookup(&self, reading: &str) -> Vec<Candidate> {
        match reading {
            "へんかん" => vec![
                Candidate::new("変換", "へんかん", 30, CandidateSource::System),
                Candidate::new("偏官", "へんかん", 20, CandidateSource::System),
                Candidate::new("返還", "へんかん", 10, CandidateSource::System),
            ],
            "かな" => vec![
                Candidate::new("仮名", "かな", 20, CandidateSource::System),
                Candidate::new("かな", "かな", 10, CandidateSource::System),
            ],
            "てすと" => vec![
                Candidate::new("テスト", "てすと", 30, CandidateSource::System),
                Candidate::new("試験", "てすと", 20, CandidateSource::System),
            ],
            "あい" => vec![
                Candidate::new("愛", "あい", 40, CandidateSource::System),
                Candidate::new("相", "あい", 30, CandidateSource::System),
                Candidate::new("藍", "あい", 20, CandidateSource::System),
                Candidate::new("哀", "あい", 10, CandidateSource::System),
            ],
            "きょう" => vec![
                Candidate::new("今日", "きょう", 30, CandidateSource::System),
                Candidate::new("京", "きょう", 20, CandidateSource::System),
            ],
            "は" => vec![
                Candidate::new("は", "は", 10, CandidateSource::System),
            ],
            _ => vec![],
        }
    }
}

/// Feeds a sequence of `Character` key events for each char in `input`.
fn feed_chars(session: &mut Session, dict: &dyn DictionaryLookup, input: &str) -> SessionAction {
    let mut last = SessionAction::Noop;
    for ch in input.chars() {
        last = session.handle_key(KeyEvent::Character(ch), dict, None);
    }
    last
}

// -----------------------------------------------------------------------
// 1. Full conversion cycle: type → Space → navigate → Enter
// -----------------------------------------------------------------------

#[test]
fn test_full_conversion_cycle_henkan() {
    let dict = MockDictionary;
    let mut session = Session::new();

    // Type "henkan"
    feed_chars(&mut session, &dict, "henkan");
    assert_eq!(session.state(), &SessionState::Composing);

    // Press Space → should show candidates for へんかん
    let action = session.handle_key(KeyEvent::Space, &dict, None);
    assert_eq!(session.state(), &SessionState::Converting);
    match action {
        SessionAction::ShowCandidates { candidates, selected, preedit, .. } => {
            assert_eq!(selected, 0);
            assert_eq!(preedit, "へんかん");
            assert_eq!(candidates[0].surface, "変換");
            assert_eq!(candidates.len(), 5); // 3 dict + katakana + hiragana fallbacks
        }
        _ => panic!("expected ShowCandidates, got {:?}", action),
    }

    // Press Enter → commit the first (selected) candidate
    let commit = session.handle_key(KeyEvent::Enter, &dict, None);
    assert_eq!(session.state(), &SessionState::Idle);
    assert_eq!(commit, SessionAction::Commit("変換".to_string()));
}

// -----------------------------------------------------------------------
// 2. Kana commit: type "kana" then Enter (commit hiragana directly)
// -----------------------------------------------------------------------

#[test]
fn test_kana_commit_with_enter() {
    let dict = MockDictionary;
    let mut session = Session::new();

    feed_chars(&mut session, &dict, "kana");
    let action = session.handle_key(KeyEvent::Enter, &dict, None);

    assert_eq!(session.state(), &SessionState::Idle);
    assert_eq!(action, SessionAction::Commit("かな".to_string()));
}

// -----------------------------------------------------------------------
// 3. Cancel with Escape during composing
// -----------------------------------------------------------------------

#[test]
fn test_escape_during_composing_cancels() {
    let dict = MockDictionary;
    let mut session = Session::new();

    feed_chars(&mut session, &dict, "te");
    let action = session.handle_key(KeyEvent::Escape, &dict, None);

    assert_eq!(session.state(), &SessionState::Idle);
    assert_eq!(action, SessionAction::Cancel);
}

// -----------------------------------------------------------------------
// 4. Backspace removes pending romaji one character at a time
// -----------------------------------------------------------------------

#[test]
fn test_backspace_removes_pending_romaji() {
    let dict = MockDictionary;
    let mut session = Session::new();

    // 'k' is pending romaji
    session.handle_key(KeyEvent::Character('k'), &dict, None);
    assert_eq!(session.state(), &SessionState::Composing);

    let action = session.handle_key(KeyEvent::Backspace, &dict, None);
    // Pending romaji cleared; confirmed_kana is empty → still Composing
    // (the preedit update is returned)
    match action {
        SessionAction::UpdatePreedit { text, pending_romaji } => {
            assert_eq!(text, "");
            assert_eq!(pending_romaji, "");
        }
        _ => panic!("expected UpdatePreedit, got {:?}", action),
    }
}

// -----------------------------------------------------------------------
// 5. Backspace removes the last kana character when no pending romaji
// -----------------------------------------------------------------------

#[test]
fn test_backspace_removes_last_kana() {
    let dict = MockDictionary;
    let mut session = Session::new();

    // Type "ka" → "か" is confirmed, nothing pending
    feed_chars(&mut session, &dict, "kana");
    // confirmed_kana is "かな", pending is ""

    let action = session.handle_key(KeyEvent::Backspace, &dict, None);
    match action {
        SessionAction::UpdatePreedit { text, pending_romaji } => {
            assert_eq!(text, "か");
            assert_eq!(pending_romaji, "");
        }
        _ => panic!("expected UpdatePreedit, got {:?}", action),
    }
}

// -----------------------------------------------------------------------
// 6. Backspace on empty preedit returns to Idle with Cancel
// -----------------------------------------------------------------------

#[test]
fn test_backspace_on_single_kana_returns_idle() {
    let dict = MockDictionary;
    let mut session = Session::new();

    feed_chars(&mut session, &dict, "ka");
    // confirmed_kana = "か", pending = ""

    let action = session.handle_key(KeyEvent::Backspace, &dict, None);
    // Removes "か", leaving empty → should return to Idle
    assert_eq!(session.state(), &SessionState::Idle);
    assert_eq!(action, SessionAction::Cancel);
}

// -----------------------------------------------------------------------
// 7. Candidate navigation with Space cycles forward
// -----------------------------------------------------------------------

#[test]
fn test_space_cycles_candidates_forward() {
    let dict = MockDictionary;
    let mut session = Session::new();

    feed_chars(&mut session, &dict, "henkan");
    session.handle_key(KeyEvent::Space, &dict, None); // now Converting, selected=0

    // Second Space → move to next candidate
    let action = session.handle_key(KeyEvent::Space, &dict, None);
    match action {
        SessionAction::ShowCandidates { selected, .. } => {
            assert_eq!(selected, 1);
        }
        _ => panic!("expected ShowCandidates, got {:?}", action),
    }
}

// -----------------------------------------------------------------------
// 8. ArrowDown and ArrowUp navigate candidates
// -----------------------------------------------------------------------

#[test]
fn test_arrow_keys_navigate_candidates() {
    let dict = MockDictionary;
    let mut session = Session::new();

    feed_chars(&mut session, &dict, "henkan");
    session.handle_key(KeyEvent::Space, &dict, None); // selected=0

    let down1 = session.handle_key(KeyEvent::ArrowDown, &dict, None);
    match &down1 {
        SessionAction::ShowCandidates { selected, .. } => assert_eq!(*selected, 1),
        _ => panic!("expected ShowCandidates"),
    }

    let up1 = session.handle_key(KeyEvent::ArrowUp, &dict, None);
    match &up1 {
        SessionAction::ShowCandidates { selected, .. } => assert_eq!(*selected, 0),
        _ => panic!("expected ShowCandidates"),
    }
}

// -----------------------------------------------------------------------
// 9. ArrowUp wraps from first to last candidate
// -----------------------------------------------------------------------

#[test]
fn test_arrow_up_wraps_to_last() {
    let dict = MockDictionary;
    let mut session = Session::new();

    feed_chars(&mut session, &dict, "henkan");
    session.handle_key(KeyEvent::Space, &dict, None); // selected=0

    let action = session.handle_key(KeyEvent::ArrowUp, &dict, None);
    match action {
        SessionAction::ShowCandidates { selected, candidates, .. } => {
            // Should wrap to the last candidate (index 2 for 3-candidate list)
            assert_eq!(selected, candidates.len() - 1);
        }
        _ => panic!("expected ShowCandidates"),
    }
}

// -----------------------------------------------------------------------
// 10. Number key commits the nth candidate (1-based)
// -----------------------------------------------------------------------

#[test]
fn test_number_key_selects_candidate() {
    let dict = MockDictionary;
    let mut session = Session::new();

    feed_chars(&mut session, &dict, "henkan");
    session.handle_key(KeyEvent::Space, &dict, None);

    // Press '2' → commit candidate at index 1 ("偏官")
    let action = session.handle_key(KeyEvent::Number(2), &dict, None);
    assert_eq!(session.state(), &SessionState::Idle);
    assert_eq!(action, SessionAction::Commit("偏官".to_string()));
}

// -----------------------------------------------------------------------
// 11. Number key out of range is ignored (stays in Converting)
// -----------------------------------------------------------------------

#[test]
fn test_number_key_out_of_range_is_ignored() {
    let dict = MockDictionary;
    let mut session = Session::new();

    feed_chars(&mut session, &dict, "henkan");
    session.handle_key(KeyEvent::Space, &dict, None);

    // 9 is out of range for a 3-candidate list
    let action = session.handle_key(KeyEvent::Number(9), &dict, None);
    assert_eq!(session.state(), &SessionState::Converting);
    match action {
        SessionAction::ShowCandidates { .. } => {}
        _ => panic!("expected ShowCandidates"),
    }
}

// -----------------------------------------------------------------------
// 12. Escape in Converting returns to Composing with kana intact
// -----------------------------------------------------------------------

#[test]
fn test_escape_in_converting_returns_to_composing() {
    let dict = MockDictionary;
    let mut session = Session::new();

    feed_chars(&mut session, &dict, "henkan");
    session.handle_key(KeyEvent::Space, &dict, None); // Converting

    let action = session.handle_key(KeyEvent::Escape, &dict, None);
    assert_eq!(session.state(), &SessionState::Composing);
    match action {
        SessionAction::UpdatePreedit { text, pending_romaji } => {
            assert_eq!(text, "へんかん");
            assert_eq!(pending_romaji, "");
        }
        _ => panic!("expected UpdatePreedit, got {:?}", action),
    }
}

// -----------------------------------------------------------------------
// 13. Backspace in Converting behaves like Escape (return to Composing)
// -----------------------------------------------------------------------

#[test]
fn test_backspace_in_converting_returns_to_composing() {
    let dict = MockDictionary;
    let mut session = Session::new();

    feed_chars(&mut session, &dict, "kana");
    session.handle_key(KeyEvent::Space, &dict, None); // Converting

    let action = session.handle_key(KeyEvent::Backspace, &dict, None);
    assert_eq!(session.state(), &SessionState::Composing);
    match action {
        SessionAction::UpdatePreedit { text, .. } => {
            assert_eq!(text, "かな");
        }
        _ => panic!("expected UpdatePreedit, got {:?}", action),
    }
}

// -----------------------------------------------------------------------
// 14. Space when no dictionary match enters Converting with self-candidate
// -----------------------------------------------------------------------

#[test]
fn test_space_with_no_dict_match_converts_with_self_candidate() {
    let dict = MockDictionary;
    let mut session = Session::new();

    // "す" is not in mock dict, but the segmenter will produce a single
    // segment with the character itself as the sole candidate.
    feed_chars(&mut session, &dict, "su"); // "す"
    let action = session.handle_key(KeyEvent::Space, &dict, None);

    assert_eq!(session.state(), &SessionState::Converting);
    match action {
        SessionAction::ShowCandidates { candidates, .. } => {
            assert_eq!(candidates.len(), 2); // self-candidate + katakana fallback
            assert_eq!(candidates[0].surface, "す");
        }
        _ => panic!("expected ShowCandidates, got {:?}", action),
    }
}

// -----------------------------------------------------------------------
// 15. Empty input edge case: keys in Idle that are not Character are Noop
// -----------------------------------------------------------------------

#[test]
fn test_idle_non_character_keys_are_noop() {
    let dict = MockDictionary;
    let mut session = Session::new();

    assert_eq!(session.handle_key(KeyEvent::Space, &dict, None), SessionAction::Noop);
    assert_eq!(session.handle_key(KeyEvent::Enter, &dict, None), SessionAction::Noop);
    assert_eq!(session.handle_key(KeyEvent::Backspace, &dict, None), SessionAction::Noop);
    assert_eq!(session.handle_key(KeyEvent::Escape, &dict, None), SessionAction::Noop);
    assert_eq!(session.handle_key(KeyEvent::ArrowUp, &dict, None), SessionAction::Noop);
    assert_eq!(session.handle_key(KeyEvent::ArrowDown, &dict, None), SessionAction::Noop);
    assert_eq!(session.state(), &SessionState::Idle);
}

// -----------------------------------------------------------------------
// 16. Converting + Character commits current candidate and starts new compose
// -----------------------------------------------------------------------

#[test]
fn test_character_in_converting_commits_and_restarts() {
    let dict = MockDictionary;
    let mut session = Session::new();

    feed_chars(&mut session, &dict, "henkan");
    session.handle_key(KeyEvent::Space, &dict, None); // selected=0 ("変換")

    // Type a new character while converting
    let action = session.handle_key(KeyEvent::Character('a'), &dict, None);
    // Should commit "変換"
    assert_eq!(action, SessionAction::Commit("変換".to_string()));
    // State should now be Composing (new char 'a' was fed)
    assert_eq!(session.state(), &SessionState::Composing);
}

// -----------------------------------------------------------------------
// 17. Candidate Space cycling wraps around at the end
// -----------------------------------------------------------------------

#[test]
fn test_space_cycles_wrap_around() {
    let dict = MockDictionary;
    let mut session = Session::new();

    feed_chars(&mut session, &dict, "henkan"); // 5 candidates (3 dict + katakana + hiragana)
    session.handle_key(KeyEvent::Space, &dict, None); // selected=0
    session.handle_key(KeyEvent::Space, &dict, None); // selected=1
    session.handle_key(KeyEvent::Space, &dict, None); // selected=2
    session.handle_key(KeyEvent::Space, &dict, None); // selected=3
    session.handle_key(KeyEvent::Space, &dict, None); // selected=4

    // One more Space should wrap back to 0
    let action = session.handle_key(KeyEvent::Space, &dict, None);
    match action {
        SessionAction::ShowCandidates { selected, .. } => assert_eq!(selected, 0),
        _ => panic!("expected ShowCandidates"),
    }
}

// -----------------------------------------------------------------------
// 18. Composing with pending 'n' before Space flushes as ん
// -----------------------------------------------------------------------

#[test]
fn test_pending_n_flushed_on_space() {
    let dict = MockDictionary;
    let mut session = Session::new();

    // Type 'a', 'i' → "あい", then look up
    feed_chars(&mut session, &dict, "ai");

    let action = session.handle_key(KeyEvent::Space, &dict, None);
    assert_eq!(session.state(), &SessionState::Converting);
    match action {
        SessionAction::ShowCandidates { preedit, candidates, .. } => {
            assert_eq!(preedit, "あい");
            assert!(!candidates.is_empty());
            assert_eq!(candidates[0].surface, "愛");
        }
        _ => panic!("expected ShowCandidates, got {:?}", action),
    }
}

// -----------------------------------------------------------------------
// 19. Full multi-step composing and backspace sequence
// -----------------------------------------------------------------------

#[test]
fn test_composing_backspace_sequence() {
    let dict = MockDictionary;
    let mut session = Session::new();

    // Type "sh" (pending), then backspace → pending becomes "s"
    session.handle_key(KeyEvent::Character('s'), &dict, None);
    session.handle_key(KeyEvent::Character('h'), &dict, None);
    let after_bs = session.handle_key(KeyEvent::Backspace, &dict, None);
    match after_bs {
        SessionAction::UpdatePreedit { text, pending_romaji } => {
            assert_eq!(text, "");
            assert_eq!(pending_romaji, "s");
        }
        _ => panic!("expected UpdatePreedit"),
    }

    // Continue typing to confirm "さ"
    session.handle_key(KeyEvent::Character('a'), &dict, None);
    let action = session.handle_key(KeyEvent::Enter, &dict, None);
    assert_eq!(action, SessionAction::Commit("さ".to_string()));
}

// -----------------------------------------------------------------------
// 20. reset() returns to Idle from any state
// -----------------------------------------------------------------------

#[test]
fn test_reset_from_converting() {
    let dict = MockDictionary;
    let mut session = Session::new();

    feed_chars(&mut session, &dict, "henkan");
    session.handle_key(KeyEvent::Space, &dict, None);
    assert_eq!(session.state(), &SessionState::Converting);

    session.reset();
    assert_eq!(session.state(), &SessionState::Idle);

    // After reset, new input should work normally.
    let action = session.handle_key(KeyEvent::Character('a'), &dict, None);
    match action {
        SessionAction::UpdatePreedit { text, pending_romaji } => {
            assert_eq!(text, "あ");
            assert_eq!(pending_romaji, "");
        }
        _ => panic!("expected UpdatePreedit"),
    }
}

// -----------------------------------------------------------------------
// 21. Multi-segment conversion: きょうは → two segments
// -----------------------------------------------------------------------

#[test]
fn test_multi_segment_conversion() {
    let dict = MockDictionary;
    let mut session = Session::new();

    // Type "kyouha" → "きょうは"
    feed_chars(&mut session, &dict, "kyouha");
    let action = session.handle_key(KeyEvent::Space, &dict, None);

    assert_eq!(session.state(), &SessionState::Converting);
    match action {
        SessionAction::ShowCandidates { segments, active_segment, candidates, selected, .. } => {
            assert_eq!(segments.len(), 2);
            assert_eq!(segments[0].surface, "今日"); // first candidate for きょう
            assert_eq!(segments[0].is_active, true);
            assert_eq!(segments[1].surface, "は");
            assert_eq!(segments[1].is_active, false);
            assert_eq!(active_segment, 0);
            assert_eq!(candidates[0].surface, "今日"); // active segment's candidates
            assert_eq!(selected, 0);
        }
        _ => panic!("expected ShowCandidates, got {:?}", action),
    }
}

// -----------------------------------------------------------------------
// 22. Segment navigation with ArrowRight/ArrowLeft
// -----------------------------------------------------------------------

#[test]
fn test_segment_navigation() {
    let dict = MockDictionary;
    let mut session = Session::new();

    feed_chars(&mut session, &dict, "kyouha");
    session.handle_key(KeyEvent::Space, &dict, None); // segments: きょう | は

    // Move to next segment
    let action = session.handle_key(KeyEvent::ArrowRight, &dict, None);
    match action {
        SessionAction::ShowCandidates { active_segment, segments, .. } => {
            assert_eq!(active_segment, 1);
            assert_eq!(segments[0].is_active, false);
            assert_eq!(segments[1].is_active, true);
        }
        _ => panic!("expected ShowCandidates"),
    }

    // Move back to first segment
    let action = session.handle_key(KeyEvent::ArrowLeft, &dict, None);
    match action {
        SessionAction::ShowCandidates { active_segment, .. } => {
            assert_eq!(active_segment, 0);
        }
        _ => panic!("expected ShowCandidates"),
    }
}

// -----------------------------------------------------------------------
// 23. Commit joins all segments
// -----------------------------------------------------------------------

#[test]
fn test_commit_joins_all_segments() {
    let dict = MockDictionary;
    let mut session = Session::new();

    feed_chars(&mut session, &dict, "kyouha");
    session.handle_key(KeyEvent::Space, &dict, None); // segments: 今日 | は

    let action = session.handle_key(KeyEvent::Enter, &dict, None);
    assert_eq!(action, SessionAction::Commit("今日は".to_string()));
    assert_eq!(session.state(), &SessionState::Idle);
}

// -----------------------------------------------------------------------
// 24. Single-segment backward compatibility
// -----------------------------------------------------------------------

#[test]
fn test_single_segment_backward_compat() {
    let dict = MockDictionary;
    let mut session = Session::new();

    feed_chars(&mut session, &dict, "henkan");
    let action = session.handle_key(KeyEvent::Space, &dict, None);

    match action {
        SessionAction::ShowCandidates { segments, candidates, selected, .. } => {
            assert_eq!(segments.len(), 1);
            assert_eq!(segments[0].surface, "変換");
            assert_eq!(candidates.len(), 5); // 3 dict + katakana + hiragana fallbacks
            assert_eq!(selected, 0);
        }
        _ => panic!("expected ShowCandidates"),
    }

    // Enter commits just the one segment
    let action = session.handle_key(KeyEvent::Enter, &dict, None);
    assert_eq!(action, SessionAction::Commit("変換".to_string()));
}

// -----------------------------------------------------------------------
// 25. Candidate cycling within active segment
// -----------------------------------------------------------------------

#[test]
fn test_candidate_cycling_in_segment() {
    let dict = MockDictionary;
    let mut session = Session::new();

    feed_chars(&mut session, &dict, "kyouha");
    session.handle_key(KeyEvent::Space, &dict, None); // active=0 (きょう), selected=0 (今日)

    // Cycle candidates in first segment
    let action = session.handle_key(KeyEvent::Space, &dict, None);
    match action {
        SessionAction::ShowCandidates { segments, selected, .. } => {
            assert_eq!(selected, 1); // 京
            assert_eq!(segments[0].surface, "京");
        }
        _ => panic!("expected ShowCandidates"),
    }

    // Commit → should join with new selection
    let action = session.handle_key(KeyEvent::Enter, &dict, None);
    assert_eq!(action, SessionAction::Commit("京は".to_string()));
}

// -----------------------------------------------------------------------
// 26. Learning records are captured on commit
// -----------------------------------------------------------------------

#[test]
fn test_learning_records_on_commit() {
    let dict = MockDictionary;
    let mut session = Session::new();
    let mut learning = LearningStore::new();

    feed_chars(&mut session, &dict, "kyouha");
    session.handle_key(KeyEvent::Space, &dict, None);

    // Commit with learning
    let action = session.handle_key(KeyEvent::Enter, &dict, Some(&mut learning));
    assert_eq!(action, SessionAction::Commit("今日は".to_string()));

    // Learning should have recorded both segments.
    assert!(learning.boost("きょう", "今日") > 0);
    assert!(learning.boost("は", "は") > 0);
}

// -----------------------------------------------------------------------
// 27. Learning boost promotes a non-default candidate to first
// -----------------------------------------------------------------------

#[test]
fn test_learning_boost_promotes_candidate() {
    let dict = MockDictionary;
    let mut learning = LearningStore::new();

    // Record "京" 5 times so its boost = 50, exceeding "今日"'s base score
    // of 30.  京 has base score 20, so boosted score = 20 + 50 = 70.
    for _ in 0..5 {
        learning.record("きょう", "京");
    }

    let mut session = Session::new();
    feed_chars(&mut session, &dict, "kyou");
    let action = session.handle_key(KeyEvent::Space, &dict, Some(&mut learning));

    match action {
        SessionAction::ShowCandidates { candidates, selected, .. } => {
            // "京" should now be first thanks to the learning boost.
            assert_eq!(selected, 0);
            assert_eq!(candidates[0].surface, "京");
        }
        _ => panic!("expected ShowCandidates, got {:?}", action),
    }
}

// -----------------------------------------------------------------------
// 28. Boosted candidates have CandidateSource::Learning
// -----------------------------------------------------------------------

#[test]
fn test_learning_boost_sets_source() {
    let dict = MockDictionary;
    let mut learning = LearningStore::new();

    learning.record("きょう", "京");

    let mut session = Session::new();
    feed_chars(&mut session, &dict, "kyou");
    let action = session.handle_key(KeyEvent::Space, &dict, Some(&mut learning));

    match action {
        SessionAction::ShowCandidates { candidates, .. } => {
            // Find the "京" candidate and verify its source.
            let boosted = candidates.iter().find(|c| c.surface == "京").unwrap();
            assert_eq!(boosted.source, CandidateSource::Learning);
        }
        _ => panic!("expected ShowCandidates"),
    }
}

// -----------------------------------------------------------------------
// Laws on concrete values
// -----------------------------------------------------------------------

#[test]
fn number_key_records_the_chosen_candidate() {
    let dict = MockDictionary;
    let mut session = Session::new();
    let mut learning = LearningStore::new();
    feed_chars(&mut session, &dict, "kyouha");
    session.handle_key(KeyEvent::Space, &dict, Some(&mut learning));
    let action = session.handle_key(KeyEvent::Number(2), &dict, Some(&mut learning));
    assert_eq!(action, SessionAction::Commit("京は".to_string()));
    assert_eq!(learning.boost("きょう", "京"), 10);
    assert_eq!(learning.boost("きょう", "今日"), 0);
    assert_eq!(learning.boost("は", "は"), 10);
}

#[test]
fn kana_commits_are_not_recorded() {
    let dict = MockDictionary;
    let mut session = Session::default();
    let mut learning = LearningStore::new();
    feed_chars(&mut session, &dict, "kyou");
    session.handle_key(KeyEvent::Enter, &dict, Some(&mut learning));
    assert_eq!(learning.boost("きょう", "きょう"), 0);
    assert!(learning.flush().is_none());
}

#[test]
fn typing_and_enter_converts_as_a_whole() {
    let dict = MockDictionary;
    for text in ["konnichiha", "nn", "kyaku", "xyz", "a-b", "n", "honn", "ttsu"] {
        let mut session = Session::new();
        feed_chars(&mut session, &dict, text);
        let action = session.handle_key(KeyEvent::Enter, &dict, None);
        assert_eq!(action, SessionAction::Commit(convert(text)), "{text}");
        assert_eq!(session.state(), &SessionState::Idle);
    }
}

#[test]
fn kana_forms_come_last() {
    let dict = MockDictionary;
    let mut session = Session::new();
    feed_chars(&mut session, &dict, "henkan");
    match session.handle_key(KeyEvent::Space, &dict, None) {
        SessionAction::ShowCandidates { candidates, .. } => {
            let surfaces: Vec<&str> = candidates.iter().map(|c| c.surface.as_str()).collect();
            assert_eq!(surfaces, vec!["変換", "偏官", "返還", "ヘンカン", "へんかん"]);
            assert_eq!(candidates[3].score, 0);
            assert_eq!(candidates[3].reading, "へんかん");
            assert_eq!(candidates[3].source, CandidateSource::System);
        }
        other => panic!("unexpected {other:?}"),
    }
}

#[test]
fn moves_undo_each_other() {
    let dict = MockDictionary;
    let mut session = Session::new();
    feed_chars(&mut session, &dict, "kyouha");
    let first = session.handle_key(KeyEvent::Space, &dict, None);
    for (there, back) in [
        (KeyEvent::ArrowDown, KeyEvent::ArrowUp),
        (KeyEvent::ArrowUp, KeyEvent::ArrowDown),
        (KeyEvent::ArrowRight, KeyEvent::ArrowLeft),
        (KeyEvent::ArrowLeft, KeyEvent::ArrowRight),
        (KeyEvent::Space, KeyEvent::ArrowUp),
    ] {
        assert_ne!(session.handle_key(there, &dict, None), first);
        assert_eq!(session.handle_key(back, &dict, None), first);
    }
}

#[test]
fn cancelled_conversion_keeps_flushed_romaji() {
    let dict = MockDictionary;
    let mut session = Session::new();
    feed_chars(&mut session, &dict, "hon");
    session.handle_key(KeyEvent::Space, &dict, None);
    let action = session.handle_key(KeyEvent::Backspace, &dict, None);
    assert_eq!(
        action,
        SessionAction::UpdatePreedit { text: "ほん".to_string(), pending_romaji: String::new() }
    );
    assert_eq!(session.state(), &SessionState::Composing);
}

#[test]
fn numbers_outside_the_range_change_nothing() {
    let dict = MockDictionary;
    let mut session = Session::new();
    feed_chars(&mut session, &dict, "ai");
    assert_eq!(session.handle_key(KeyEvent::Number(1), &dict, None), SessionAction::Noop);
    let shown = session.handle_key(KeyEvent::Space, &dict, None);
    assert_eq!(session.handle_key(KeyEvent::Number(0), &dict, None), shown);
    assert_eq!(session.handle_key(KeyEvent::Number(10), &dict, None), shown);
}

#[test]
fn space_and_backspace_on_an_empty_preedit() {
    let dict = MockDictionary;
    let mut session = Session::new();
    feed_chars(&mut session, &dict, "k");
    session.handle_key(KeyEvent::Backspace, &dict, None);
    assert_eq!(session.handle_key(KeyEvent::Space, &dict, None), SessionAction::Noop);
    assert_eq!(session.state(), &SessionState::Composing);
    assert_eq!(session.handle_key(KeyEvent::Backspace, &dict, None), SessionAction::Cancel);
    assert_eq!(session.state(), &SessionState::Idle);
}

#[test]
fn full_circles_come_back() {
    let dict = MockDictionary;
    let mut session = Session::new();
    feed_chars(&mut session, &dict, "kyouhaai");
    let first = session.handle_key(KeyEvent::Space, &dict, None);
    let (segments, candidates) = match &first {
        SessionAction::ShowCandidates { segments, candidates, .. } => {
            (segments.len(), candidates.len())
        }
        other => panic!("unexpected {other:?}"),
    };
    assert_eq!((segments, candidates), (3, 4));
    for (key, presses) in [
        (KeyEvent::ArrowRight, segments),
        (KeyEvent::ArrowLeft, segments),
        (KeyEvent::Space, candidates),
        (KeyEvent::ArrowDown, candidates),
    ] {
        for n in 1..=presses {
            let shown = session.handle_key(key, &dict, None);
            assert_eq!(shown == first, n == presses);
        }
    }
}

#[test]
fn moves_keep_other_segments() {
    let dict = MockDictionary;
    let mut session = Session::new();
    feed_chars(&mut session, &dict, "kyouha");
    session.handle_key(KeyEvent::Space, &dict, None);
    session.handle_key(KeyEvent::ArrowDown, &dict, None);
    session.handle_key(KeyEvent::ArrowRight, &dict, None);
    match session.handle_key(KeyEvent::ArrowDown, &dict, None) {
        SessionAction::ShowCandidates { segments, preedit, .. } => {
            let surfaces: Vec<&str> = segments.iter().map(|s| s.surface.as_str()).collect();
            assert_eq!(surfaces, vec!["京", "ハ"]);
            assert_eq!(preedit, "きょうは");
        }
        other => panic!("unexpected {other:?}"),
    }
}

#[test]
fn kana_come_back_after_any_moves() {
    let dict = MockDictionary;
    for cancel in [KeyEvent::Escape, KeyEvent::Backspace] {
        let mut session = Session::new();
        feed_chars(&mut session, &dict, "kyouha");
        session.handle_key(KeyEvent::Space, &dict, None);
        for key in [KeyEvent::ArrowDown, KeyEvent::ArrowLeft, KeyEvent::ArrowUp, KeyEvent::Space] {
            session.handle_key(key, &dict, None);
        }
        assert_eq!(
            session.handle_key(cancel, &dict, None),
            SessionAction::UpdatePreedit {
                text: "きょうは".to_string(),
                pending_romaji: String::new()
            }
        );
        assert_eq!(
            session.handle_key(KeyEvent::Enter, &dict, None),
            SessionAction::Commit("きょうは".to_string())
        );
    }
}

#[test]
fn shown_candidates_are_best_first() {
    let dict = MockDictionary;
    let mut learning = LearningStore::new();
    for _ in 0..3 {
        learning.record("あい", "藍");
    }
    for history in [false, true] {
        let mut session = Session::new();
        feed_chars(&mut session, &dict, "ai");
        let known = if history { Some(&mut learning) } else { None };
        match session.handle_key(KeyEvent::Space, &dict, known) {
            SessionAction::ShowCandidates { candidates, .. } => {
                let scores: Vec<u32> = candidates.iter().map(|c| c.score).collect();
                let expected =
                    if history { vec![50, 40, 30, 10, 0, 0] } else { vec![40, 30, 20, 10, 0, 0] };
                assert_eq!(scores, expected);
            }
            other => panic!("unexpected {other:?}"),
        }
    }
}

#[test]
fn committed_pairs_are_foreseen() {
    let dict = MockDictionary;
    let mut session = Session::new();
    assert!(session.committed_by(KeyEvent::Enter).is_empty());
    feed_chars(&mut session, &dict, "kyouha");
    assert!(session.committed_by(KeyEvent::Enter).is_empty());
    session.handle_key(KeyEvent::Space, &dict, None);
    let pairs = |key: KeyEvent| -> Vec<String> {
        session.committed_by(key).into_iter().map(|(r, s)| r + "→" + &s).collect()
    };
    assert_eq!(pairs(KeyEvent::Enter), vec!["きょう→今日", "は→は"]);
    assert_eq!(pairs(KeyEvent::Character('a')), vec!["きょう→今日", "は→は"]);
    assert_eq!(pairs(KeyEvent::Number(2)), vec!["きょう→京", "は→は"]);
    assert!(pairs(KeyEvent::Number(9)).is_empty());
    assert!(pairs(KeyEvent::ArrowDown).is_empty());
}
