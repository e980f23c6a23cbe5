//! The selection history.

use myme::learning::{timestamp_of, LearningStore};

#[test]
fn record_increments_count() {
    let mut store = LearningStore::new();
    store.record("てすと", "テスト");
    assert_eq!(store.boost("てすと", "テスト"), 10);
    store.record("てすと", "テスト");
    assert_eq!(store.boost("てすと", "テスト"), 20);
}

#[test]
fn boost_caps_at_200() {
    let mut store = LearningStore::new();
    for _ in 0..30 {
        store.record("てすと", "テスト");
    }
    assert_eq!(store.boost("てすと", "テスト"), 200);
}

#[test]
fn unknown_pair_returns_zero_boost() {
    let store = LearningStore::new();
    assert_eq!(store.boost("unknown", "pair"), 0);
}

#[test]
fn persistence_roundtrip() {
    // Write
    let text = {
        let mut store = LearningStore::load(None);
        store.record("てすと", "テスト");
        store.record("てすと", "テスト");
        store.flush().expect("there are unsaved records")
    };

    // Read back
    {
        let store = LearningStore::load(Some(&text));
        assert_eq!(store.boost("てすと", "テスト"), 20);
    }
}

#[test]
fn gc_removes_old_entries() {
    // An entry with a very old timestamp.
    let old_ts = 1000; // very old
    let content = format!("old\tentry\t5\t{old_ts}\n");

    let store = LearningStore::load(Some(&content));
    // Old entry should have been garbage-collected.
    assert_eq!(store.boost("old", "entry"), 0);
}

#[test]
fn gc_keeps_entries_of_ninety_days() {
    let day: u64 = 24 * 60 * 60;
    let text = "a\tA\t1\t1000\nb\tB\t2\t999\nc\tC\t3\t99999999999\n";
    let store = LearningStore::load_at(text, 1000 + 90 * day);
    assert_eq!(store.boost("a", "A"), 10);
    assert_eq!(store.boost("b", "B"), 0);
    // A time in the future is no age at all.
    assert_eq!(store.boost("c", "C"), 30);
}

#[test]
fn malformed_history_lines_are_skipped() {
    let text = "a\tA\t1\nb\tB\tx\t5\nc\tC\t4294967296\t5\nd\tD\t2\t5\textra\r\n\n";
    let store = LearningStore::load_at(text, 5);
    assert_eq!(store.boost("a", "A"), 0);
    assert_eq!(store.boost("b", "B"), 0);
    assert_eq!(store.boost("c", "C"), 0);
    assert_eq!(store.boost("d", "D"), 20);
}

#[test]
fn later_history_lines_replace_earlier_ones() {
    let store = LearningStore::load_at("a\tA\t9\t5\na\tA\t2\t5\n", 5);
    assert_eq!(store.boost("a", "A"), 20);
}

#[test]
fn history_text_is_sorted() {
    let mut store = LearningStore::new();
    assert_eq!(store.flush(), None);
    store.record_at("b", "B", 7);
    store.record_at("a", "Z", 8);
    store.record_at("a", "A", 9);
    store.record_at("b", "B", 10);
    let text = store.flush().unwrap();
    assert_eq!(text, "a\tA\t1\t9\na\tZ\t1\t8\nb\tB\t2\t10\n");
    // It counts as unsaved until it is saved.
    assert_eq!(store.flush(), Some(text));
    store.mark_saved();
    assert_eq!(store.flush(), None);
}

#[test]
fn saved_history_loads_again() {
    let mut store = LearningStore::new();
    store.record_at("きょう", "京", 100);
    store.record_at("きょう", "京", 200);
    store.record_at("は", "葉", 300);
    let text = store.flush().unwrap();
    let again = LearningStore::load_at(&text, 300);
    assert_eq!(again.boost("きょう", "京"), 20);
    assert_eq!(again.boost("は", "葉"), 10);
    assert_eq!(again.boost("は", "歯"), 0);
}

#[test]
fn every_fifth_record_is_due() {
    let mut store = LearningStore::new();
    for round in 0..2 {
        for n in 0..5 {
            assert!(!store.is_flush_due());
            store.record_at("a", "A", 10 * round + n);
        }
        assert!(store.is_flush_due());
        assert!(store.flush().is_some());
    }
    assert_eq!(store.boost("a", "A"), 100);
}

#[test]
fn boost_does_not_overflow() {
    let store = LearningStore::load_at("a\tA\t4294967295\t5\n", 5);
    assert_eq!(store.boost("a", "A"), 200);
    let pair = |reading: &str, surface: &str| (reading.to_string(), surface.to_string());
    assert!(!store.has_room_for(&vec![pair("b", "B"), pair("a", "A")]));
    assert!(store.has_room_for(&vec![pair("b", "B"), pair("a", "B")]));
    assert!(store.has_room_for(&Vec::new()));
    let store = LearningStore::load_at("a\tA\t4294967294\t5\n", 5);
    assert!(store.has_room_for(&vec![pair("a", "A")]));
    assert!(!store.has_room_for(&vec![pair("a", "A"), pair("a", "A")]));
}

#[test]
fn recording_leaves_other_pairs() {
    let mut store = LearningStore::new();
    store.record_all(&vec![
        ("a".to_string(), "A".to_string()),
        ("b".to_string(), "B".to_string()),
        ("a".to_string(), "A".to_string()),
    ]);
    assert_eq!(store.boost("a", "A"), 20);
    assert_eq!(store.boost("b", "B"), 10);
    assert_eq!(store.boost("a", "B"), 0);
}

#[test]
fn the_clock_is_read() {
    // A record of now is young, so a load right after keeps it, and its time is
    // far from the start of Unix time.
    let mut store = LearningStore::default();
    store.record("a", "A");
    let text = store.flush().unwrap();
    assert_eq!(LearningStore::load(Some(&text)).boost("a", "A"), 10);
    assert_eq!(LearningStore::load_at(&text, 0).boost("a", "A"), 10);
    assert_eq!(LearningStore::load_at(&text, u64::MAX).boost("a", "A"), 0);
    let last = text.trim_end().rsplit('\t').next().unwrap();
    assert!(last.parse::<u64>().unwrap() > 1_600_000_000);
}

#[test]
fn a_clock_before_its_start_reads_zero() {
    assert_eq!(timestamp_of(None), 0);
    assert_eq!(timestamp_of(Some(1_710_000_000)), 1_710_000_000);
}
