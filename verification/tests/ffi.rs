//! The session as a platform input method sees it.

use myme::ffi::{
    action_to_result, key_event, myme_context_new, myme_context_new_with_user_dict,
    myme_get_state, myme_handle_key, DictionaryFile, MymeActionType, MymeContext, MymeKeyType,
    MymeResult, MymeState,
};
use myme::session::{KeyEvent, SessionAction};

/// Creates a context backed by an empty dictionary.
fn new_empty_ctx() -> MymeContext {
    myme_context_new(DictionaryFile::Absent).expect("an absent file is an empty dictionary")
}

fn new_ctx_with_skk(skk: &str) -> MymeContext {
    myme_context_new(DictionaryFile::Text(skk)).expect("the dictionary loads")
}

fn press(ctx: &mut MymeContext, key_type: MymeKeyType, character: u32) -> MymeResult {
    myme_handle_key(Some(ctx), key_type, character).expect("the key is valid")
}

#[test]
fn context_new_and_destroy() {
    let ctx = new_empty_ctx();
    drop(ctx);
}

#[test]
fn context_new_null_path_returns_null() {
    assert!(myme_context_new(DictionaryFile::NoPath).is_none());
}

#[test]
fn initial_state_is_idle() {
    let ctx = new_empty_ctx();
    let state = myme_get_state(Some(&ctx));
    assert!(matches!(state, MymeState::Idle));
}

#[test]
fn get_state_null_returns_idle() {
    let state = myme_get_state(None);
    assert!(matches!(state, MymeState::Idle));
}

#[test]
fn handle_key_null_ctx_returns_null() {
    let result = myme_handle_key(None, MymeKeyType::Space, 0);
    assert!(result.is_none());
}

#[test]
fn handle_key_invalid_codepoint_returns_null() {
    let mut ctx = new_empty_ctx();
    // 0xFFFFFFFF is not a valid Unicode codepoint.
    let result = myme_handle_key(Some(&mut ctx), MymeKeyType::Character, 0xFFFF_FFFF);
    assert!(result.is_none());
}

#[test]
fn handle_key_character_returns_update_preedit() {
    let mut ctx = new_empty_ctx();

    // Feed 'a' (U+0061) → should produce UpdatePreedit { text: "あ", ... }
    let r = press(&mut ctx, MymeKeyType::Character, 'a' as u32);
    assert!(matches!(r.action_type, MymeActionType::UpdatePreedit));
    assert_eq!(r.text, "あ", "typing 'a' should produce 'あ'");
    assert_eq!(r.pending_romaji, "", "no pending romaji after 'a'");

    assert!(matches!(myme_get_state(Some(&ctx)), MymeState::Composing));
}

#[test]
fn handle_key_pending_romaji_is_populated() {
    let mut ctx = new_empty_ctx();

    // 'k' alone is pending romaji.
    let r = press(&mut ctx, MymeKeyType::Character, 'k' as u32);
    assert!(matches!(r.action_type, MymeActionType::UpdatePreedit));
    assert_eq!(r.pending_romaji, "k");
}

#[test]
fn handle_key_enter_commits_kana() {
    let mut ctx = new_empty_ctx();

    // Type 'k', 'a' → "か", then Enter → Commit("か")
    press(&mut ctx, MymeKeyType::Character, 'k' as u32);
    press(&mut ctx, MymeKeyType::Character, 'a' as u32);

    let r = press(&mut ctx, MymeKeyType::Enter, 0);
    assert!(matches!(r.action_type, MymeActionType::Commit));
    assert_eq!(r.text, "か");
    assert!(matches!(myme_get_state(Some(&ctx)), MymeState::Idle));
}

#[test]
fn handle_key_escape_cancels() {
    let mut ctx = new_empty_ctx();

    press(&mut ctx, MymeKeyType::Character, 'a' as u32);
    let r = press(&mut ctx, MymeKeyType::Escape, 0);
    assert!(matches!(r.action_type, MymeActionType::Cancel));
    assert!(matches!(myme_get_state(Some(&ctx)), MymeState::Idle));
}

#[test]
fn handle_key_space_shows_candidates() {
    let mut ctx = new_ctx_with_skk("かな /仮名/カナ/\n");

    // Type 'k','a','n','a' → "かな"
    for ch in ['k', 'a', 'n', 'a'] {
        press(&mut ctx, MymeKeyType::Character, ch as u32);
    }

    // Press Space → ShowCandidates
    let r = press(&mut ctx, MymeKeyType::Space, 0);
    assert!(matches!(r.action_type, MymeActionType::ShowCandidates));
    assert_eq!(r.candidate_count, 2);
    assert!(!r.candidates.is_empty());

    // Verify first candidate surface.
    assert_eq!(r.candidates[0], "仮名");
    assert!(matches!(myme_get_state(Some(&ctx)), MymeState::Converting));
}

#[test]
fn handle_key_enter_commits_selected_candidate() {
    let mut ctx = new_ctx_with_skk("かな /仮名/カナ/\n");

    for ch in ['k', 'a', 'n', 'a'] {
        press(&mut ctx, MymeKeyType::Character, ch as u32);
    }
    press(&mut ctx, MymeKeyType::Space, 0);

    let r = press(&mut ctx, MymeKeyType::Enter, 0);
    assert!(matches!(r.action_type, MymeActionType::Commit));
    assert_eq!(r.text, "仮名");
    assert!(matches!(myme_get_state(Some(&ctx)), MymeState::Idle));
}

#[test]
fn handle_key_number_selects_candidate() {
    let mut ctx = new_ctx_with_skk("かな /仮名/カナ/\n");

    for ch in ['k', 'a', 'n', 'a'] {
        press(&mut ctx, MymeKeyType::Character, ch as u32);
    }
    press(&mut ctx, MymeKeyType::Space, 0);

    // Press '2' → commit second candidate "カナ"
    let r = press(&mut ctx, MymeKeyType::Number, 2);
    assert!(matches!(r.action_type, MymeActionType::Commit));
    assert_eq!(r.text, "カナ");
}

#[test]
fn noop_result_is_returned_for_space_in_idle() {
    let mut ctx = new_empty_ctx();
    let r = press(&mut ctx, MymeKeyType::Space, 0);
    assert!(matches!(r.action_type, MymeActionType::Noop));
}

#[test]
fn unusable_dictionaries_give_no_context() {
    assert!(myme_context_new(DictionaryFile::Unreadable).is_none());
    assert!(myme_context_new(DictionaryFile::Text("broken\n")).is_none());
    let with_user =
        myme_context_new_with_user_dict(DictionaryFile::Text("broken\n"), None, None);
    assert!(with_user.is_none());
}

#[test]
fn code_points_and_digits_are_checked() {
    assert_eq!(key_event(MymeKeyType::Character, 0x3042), Some(KeyEvent::Character('あ')));
    assert_eq!(key_event(MymeKeyType::Character, 0xD7FF), Some(KeyEvent::Character('\u{D7FF}')));
    assert_eq!(key_event(MymeKeyType::Character, 0xD800), None);
    assert_eq!(key_event(MymeKeyType::Character, 0x10FFFF), Some(KeyEvent::Character('\u{10FFFF}')));
    assert_eq!(key_event(MymeKeyType::Character, 0x110000), None);
    assert_eq!(key_event(MymeKeyType::Number, 0), Some(KeyEvent::Number(1)));
    assert_eq!(key_event(MymeKeyType::Number, 7), Some(KeyEvent::Number(7)));
    assert_eq!(key_event(MymeKeyType::Number, 300), Some(KeyEvent::Number(9)));
    assert_eq!(key_event(MymeKeyType::ArrowLeft, 5), Some(KeyEvent::ArrowLeft));
}

#[test]
fn segments_and_focus_are_reported() {
    let mut ctx = new_ctx_with_skk("きょう /今日/\nは /葉/\n");
    for ch in "kyouha".chars() {
        press(&mut ctx, MymeKeyType::Character, ch as u32);
    }
    press(&mut ctx, MymeKeyType::Space, 0);
    let r = press(&mut ctx, MymeKeyType::ArrowRight, 0);
    assert_eq!(r.text, "きょうは");
    assert_eq!(r.segment_surfaces, vec!["今日", "葉"]);
    assert_eq!(r.segment_count, 2);
    assert_eq!(r.active_segment, 1);
    assert_eq!(r.candidates, vec!["葉", "ハ", "は"]);
    assert_eq!(r.selected_index, 0);
    let r = press(&mut ctx, MymeKeyType::ArrowDown, 0);
    assert_eq!(r.selected_index, 1);
}

#[test]
fn a_context_learns() {
    let mut ctx = myme_context_new_with_user_dict(
        DictionaryFile::Text("きょう /今日/京/\n"),
        Some(Some("きょう /教/\n")),
        Some(None),
    )
    .unwrap();
    let choose = |ctx: &mut MymeContext, digit: u32| {
        for ch in "kyou".chars() {
            press(ctx, MymeKeyType::Character, ch as u32);
        }
        let shown = press(ctx, MymeKeyType::Space, 0).candidates;
        press(ctx, MymeKeyType::Number, digit);
        shown
    };
    // 教 10 + 50, 今日 20, 京 10, and the kana forms.
    assert_eq!(choose(&mut ctx, 3), vec!["教", "今日", "京", "きょう", "キョウ"]);
    for _ in 0..5 {
        assert!(ctx.can_handle(MymeKeyType::Space, 0));
        for ch in "kyou".chars() {
            press(&mut ctx, MymeKeyType::Character, ch as u32);
        }
        let shown = press(&mut ctx, MymeKeyType::Space, 0);
        let place = shown.candidates.iter().position(|s| s == "京").unwrap();
        press(&mut ctx, MymeKeyType::Number, place as u32 + 1);
    }
    // 京 10 + 6 * 10
    assert_eq!(choose(&mut ctx, 1)[0], "京");
    assert_eq!(ctx.learning.as_ref().unwrap().boost("きょう", "京"), 70);
    assert!(ctx.learning.as_ref().unwrap().is_flush_due());
}

#[test]
fn every_action_has_a_result() {
    let r = action_to_result(SessionAction::Cancel);
    assert_eq!(r.action_type, MymeActionType::Cancel);
    assert_eq!(r.text, "");
    let r = action_to_result(SessionAction::Commit("日本".to_string()));
    assert_eq!(r.action_type, MymeActionType::Commit);
    assert_eq!((r.text.as_str(), r.pending_romaji.as_str()), ("日本", ""));
    assert_eq!((r.candidate_count, r.segment_count), (0, 0));
}

#[test]
fn a_full_count_stops_only_its_own_pair() {
    let history = "x\tX\t4294967295\t99999999999\nきょう\t京\t4294967295\t99999999999\n";
    let mut ctx = myme_context_new_with_user_dict(
        DictionaryFile::Text("きょう /今日/京/\n"),
        None,
        Some(Some(history)),
    )
    .unwrap();
    for ch in "kyou".chars() {
        assert!(ctx.can_handle(MymeKeyType::Character, ch as u32));
        press(&mut ctx, MymeKeyType::Character, ch as u32);
    }
    let shown = press(&mut ctx, MymeKeyType::Space, 0);
    assert_eq!(shown.candidates[..2], ["京", "今日"]);
    assert!(ctx.can_handle(MymeKeyType::ArrowDown, 0));
    assert!(ctx.can_handle(MymeKeyType::Escape, 0));
    assert!(!ctx.can_handle(MymeKeyType::Enter, 0));
    assert!(!ctx.can_handle(MymeKeyType::Number, 1));
    assert!(ctx.can_handle(MymeKeyType::Number, 2));
    assert!(ctx.can_handle(MymeKeyType::Character, 0xD800));
    press(&mut ctx, MymeKeyType::ArrowDown, 0);
    assert!(ctx.can_handle(MymeKeyType::Enter, 0));
    assert_eq!(press(&mut ctx, MymeKeyType::Enter, 0).text, "今日");
}
