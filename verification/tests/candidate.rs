//! Candidates and their ranking.

use myme::candidate::{copy_candidates, rank, Candidate, CandidateSource};

fn make(surface: &str, score: u32) -> Candidate {
    Candidate::new(surface, "てすと", score, CandidateSource::System)
}

#[test]
fn higher_score_sorts_first() {
    let a = make("低スコア", 10);
    let b = make("高スコア", 100);
    assert!(b < a, "higher score should sort before lower score");
}

#[test]
fn equal_score_sorts_by_surface() {
    let a = make("aba", 50);
    let b = make("xyz", 50);
    // 'a' < 'x', so a should sort before b (a < b in ascending order)
    assert!(a < b);
}

#[test]
fn new_sets_all_fields() {
    let c = Candidate::new("変換", "へんかん", 42, CandidateSource::User);
    assert_eq!(c.surface, "変換");
    assert_eq!(c.reading, "へんかん");
    assert_eq!(c.score, 42);
    assert_eq!(c.source, CandidateSource::User);
}

#[test]
fn sort_vec_descending_score() {
    let candidates = rank(vec![make("C", 5), make("A", 30), make("B", 20)]);
    let surfaces: Vec<&str> = candidates.iter().map(|c| c.surface.as_str()).collect();
    assert_eq!(surfaces, vec!["A", "B", "C"]);
}

#[test]
fn equal_candidates_sort_by_reading_and_keep_their_order() {
    let mut x = make("同", 5);
    x.reading = "お".to_string();
    let mut y = make("同", 5);
    y.source = CandidateSource::User;
    let z = make("同", 5);
    let sorted = rank(vec![y.clone(), z.clone(), x.clone()]);
    assert_eq!(sorted, vec![x.clone(), y.clone(), z]);
    assert!(x < y);
    assert_eq!(copy_candidates(&sorted), sorted);
}
