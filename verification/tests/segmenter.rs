//! Segmentation.

use myme::candidate::{Candidate, CandidateSource};
use myme::dictionary::{Content, DictionaryLookup};
use myme::segmenter::segment;

/// Mock dictionary with a few entries for testing segmentation.
struct SegmentDict;

impl DictionaryLookup for SegmentDict {
    fn wf(&self) -> bool {
        true
    }

    /// What the dictionary holds is a matter of proofs; nothing calls this.
    fn content(&self) -> Content {
        unreachable!()
    }

    fn lookup(&self, reading: &str) -> Vec<Candidate> {
        match reading {
            "きょう" => vec![
                Candidate::new("今日", "きょう", 30, CandidateSource::System),
                Candidate::new("京", "きょう", 20, CandidateSource::System),
            ],
            "き" => vec![
                Candidate::new("木", "き", 10, CandidateSource::System),
            ],
            "は" => vec![
                Candidate::new("は", "は", 10, CandidateSource::System),
            ],
            "いい" => vec![
                Candidate::new("いい", "いい", 10, CandidateSource::System),
                Candidate::new("良い", "いい", 5, CandidateSource::System),
            ],
            "てんき" => vec![
                Candidate::new("天気", "てんき", 20, CandidateSource::System),
            ],
            "です" => vec![
                Candidate::new("です", "です", 10, CandidateSource::System),
            ],
            "てん" => vec![
                Candidate::new("天", "てん", 10, CandidateSource::System),
            ],
            _ => vec![],
        }
    }
}

#[test]
fn single_word_segment() {
    let dict = SegmentDict;
    let segs = segment("きょう", &dict);
    assert_eq!(segs.len(), 1);
    assert_eq!(segs[0].reading, "きょう");
    assert_eq!(segs[0].candidates[0].surface, "今日");
}

#[test]
fn two_word_split() {
    let dict = SegmentDict;
    let segs = segment("きょうは", &dict);
    assert_eq!(segs.len(), 2);
    assert_eq!(segs[0].reading, "きょう");
    assert_eq!(segs[1].reading, "は");
}

#[test]
fn unknown_chars_become_single_segments() {
    let dict = SegmentDict;
    let segs = segment("xyz", &dict);
    assert_eq!(segs.len(), 3);
    assert_eq!(segs[0].reading, "x");
    assert_eq!(segs[0].candidates[0].surface, "x");
    assert_eq!(segs[1].reading, "y");
    assert_eq!(segs[2].reading, "z");
}

#[test]
fn empty_input_returns_empty() {
    let dict = SegmentDict;
    let segs = segment("", &dict);
    assert!(segs.is_empty());
}

#[test]
fn greedy_prefers_longer_match() {
    // "きょう" should be matched as one segment, not "き" + "ょう"
    let dict = SegmentDict;
    let segs = segment("きょう", &dict);
    assert_eq!(segs.len(), 1);
    assert_eq!(segs[0].reading, "きょう");
}

#[test]
fn multi_segment_sentence() {
    let dict = SegmentDict;
    let segs = segment("きょうはいいてんきです", &dict);
    let readings: Vec<&str> = segs.iter().map(|s| s.reading.as_str()).collect();
    assert_eq!(readings, vec!["きょう", "は", "いい", "てんき", "です"]);
}

#[test]
fn selected_surface_returns_first_candidate() {
    let dict = SegmentDict;
    let segs = segment("きょう", &dict);
    assert_eq!(segs[0].selected_surface(), "今日");
}

#[test]
fn mixed_known_unknown() {
    let dict = SegmentDict;
    let segs = segment("きょうxは", &dict);
    assert_eq!(segs.len(), 3);
    assert_eq!(segs[0].reading, "きょう");
    assert_eq!(segs[1].reading, "x");
    assert_eq!(segs[2].reading, "は");
}

#[test]
fn readings_make_up_the_text() {
    let dict = SegmentDict;
    for text in ["きょうはxいいて", "", "てんきてん", "ですです"] {
        let joined: String = segment(text, &dict).iter().map(|s| s.reading.as_str()).collect();
        assert_eq!(joined, text);
    }
}

#[test]
fn unknown_segment_has_one_candidate() {
    let dict = SegmentDict;
    let segs = segment("x", &dict);
    assert_eq!(segs[0].candidates.len(), 1);
    assert_eq!(segs[0].candidates[0].score, 0);
    assert_eq!(segs[0].candidates[0].reading, "x");
    assert_eq!(segs[0].candidates[0].source, CandidateSource::System);
}

#[test]
fn selected_surface_falls_back_to_the_reading() {
    let dict = SegmentDict;
    let mut seg = segment("きょう", &dict)[0].clone();
    seg.selected = 1;
    assert_eq!(seg.selected_surface(), "京");
    seg.selected = 2;
    assert_eq!(seg.selected_surface(), "きょう");
}
