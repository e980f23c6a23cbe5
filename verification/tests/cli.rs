//! What the command-line harness decides and shows.

use myme::candidate::{Candidate, CandidateSource};
use myme::cli::{
    answer_lookup, decide_key, parse_args, render, KeyDecision, Mode, TerminalKey,
};
use myme::dictionary::SimpleDictionary;
use myme::eval::EvalTotals;
use myme::session::{KeyEvent, SegmentInfo, SessionAction};

fn args(list: &[&str]) -> Vec<String> {
    list.iter().map(|a| a.to_string()).collect()
}

#[test]
fn flags_choose_the_mode() {
    assert!(matches!(parse_args(&args(&["myme"])), Mode::Batch));
    assert!(matches!(parse_args(&args(&["myme", "-v"])), Mode::Batch));
    assert!(matches!(parse_args(&args(&["myme", "-l", "-i"])), Mode::Interactive));
    assert!(matches!(parse_args(&args(&["myme", "-e", "x", "--lookup"])), Mode::Lookup));
    match parse_args(&args(&["myme", "--eval", "cases.jsonl", "--verbose"])) {
        Mode::Eval { path, verbose } => {
            assert_eq!(path.as_deref(), Some("cases.jsonl"));
            assert!(verbose);
        }
        other => panic!("unexpected {other:?}"),
    }
    match parse_args(&args(&["myme", "-e"])) {
        Mode::Eval { path, verbose } => {
            assert_eq!(path, None);
            assert!(!verbose);
        }
        other => panic!("unexpected {other:?}"),
    }
}

#[test]
fn keys_are_decided() {
    assert_eq!(decide_key(TerminalKey::Char('c'), true), KeyDecision::Quit);
    assert_eq!(decide_key(TerminalKey::Char('d'), true), KeyDecision::Quit);
    assert_eq!(
        decide_key(TerminalKey::Char('x'), true),
        KeyDecision::Key(KeyEvent::Character('x'))
    );
    assert_eq!(decide_key(TerminalKey::Char(' '), false), KeyDecision::Key(KeyEvent::Space));
    assert_eq!(decide_key(TerminalKey::Tab, false), KeyDecision::Key(KeyEvent::Space));
    assert_eq!(decide_key(TerminalKey::Char('9'), false), KeyDecision::Key(KeyEvent::Number(9)));
    assert_eq!(
        decide_key(TerminalKey::Char('0'), false),
        KeyDecision::Key(KeyEvent::Character('0'))
    );
    assert_eq!(decide_key(TerminalKey::Esc, false), KeyDecision::Key(KeyEvent::Escape));
    assert_eq!(decide_key(TerminalKey::Other, false), KeyDecision::Ignore);
}

#[test]
fn actions_are_rendered() {
    assert_eq!(render(&SessionAction::Noop), "");
    let preedit =
        SessionAction::UpdatePreedit { text: "に".to_string(), pending_romaji: "h".to_string() };
    assert_eq!(render(&preedit), "\r\x1b[2K[composing] にh");
    assert_eq!(
        render(&SessionAction::Commit("日本".to_string())),
        "\r\x1b[2K[committed] 日本\r\n"
    );
    assert_eq!(render(&SessionAction::Cancel), "\r\x1b[2K[cancelled]\r\n");
}

#[test]
fn at_most_nine_candidates_are_rendered() {
    let candidates: Vec<Candidate> = (0..12)
        .map(|i| Candidate::new(&format!("c{i}"), "あ", 0, CandidateSource::System))
        .collect();
    let action = SessionAction::ShowCandidates {
        segments: vec![
            SegmentInfo { surface: "今日".to_string(), is_active: true },
            SegmentInfo { surface: "は".to_string(), is_active: false },
        ],
        active_segment: 0,
        candidates,
        selected: 1,
        preedit: "きょうは".to_string(),
    };
    let text = render(&action);
    assert!(text.starts_with("\r\x1b[2K[converting] [今日]は\r\n\r    1. c0\r\n\r  > 2. c1\r\n"));
    assert!(text.ends_with("\r    9. c8\r\n"));
    let copy = action.clone();
    assert_eq!(copy, action);
}

#[test]
fn lookups_are_answered() {
    let dict = SimpleDictionary::load_from_skk_text("へんかん /変換/偏官/\n").unwrap();
    assert_eq!(answer_lookup("  へんかん \n", &dict), vec!["1. 変換", "2. 偏官"]);
    assert_eq!(answer_lookup("ない", &dict), vec!["(no candidates for ない)"]);
    assert!(answer_lookup(" \u{3000}", &dict).is_empty());
}

#[test]
fn evaluation_counts_cases_and_segments() {
    let dict =
        SimpleDictionary::load_from_skk_text("きょう /今日/\nは /葉/\nてんき /天気/\n").unwrap();
    let mut totals = EvalTotals::new();
    totals.add_case("てんき", "天気", &dict);
    totals.add_case("きょうは", "今日は", &dict);
    totals.add_case("", "", &dict);
    assert_eq!(totals.total, 3);
    assert_eq!(totals.exact_match, 2);
    assert_eq!(totals.total_segments, 3);
    assert_eq!(totals.correct_segments, 2);
    assert_eq!(totals.failures.len(), 1);
    assert_eq!(totals.failures[0].input, "きょうは");
    assert_eq!(totals.failures[0].expected, "今日は");
    assert_eq!(totals.failures[0].actual, "今日葉");
    assert_eq!(totals.failures[0].details(), vec!["きょう→今日", "は→葉"]);
}

#[test]
fn a_segment_past_the_expected_text_is_wrong() {
    let dict = SimpleDictionary::load_from_skk_text("きょう /今日/\n").unwrap();
    let mut totals = EvalTotals::new();
    totals.add_case("きょうきょう", "今日今", &dict);
    assert_eq!((totals.total_segments, totals.correct_segments), (2, 1));
}
