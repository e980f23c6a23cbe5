//! Conversion candidates and their ranking.

use crate::order;
use crate::order::chars_before;
use crate::text::chars_of;
use std::cmp::Ordering;
use vstd::prelude::*;

verus! {

/// The origin of a conversion candidate.
#[derive(Debug, Clone, Copy, PartialEq, Eq, Structural)]
pub enum CandidateSource {
    /// Entry came from the bundled system dictionary.
    System,
    /// Entry came from the user's personal dictionary.
    User,
    /// Entry was promoted by the selection history.
    Learning,
}

/// A single conversion candidate ready for display in the candidate window.
#[derive(Debug, PartialEq, Eq)]
pub struct Candidate {
    /// The surface form shown to the user (e.g. `"変換"`).
    pub surface: String,
    /// The kana reading that produced this candidate (e.g. `"へんかん"`).
    pub reading: String,
    /// Higher scores rank before lower scores in the candidate list.
    pub score: u32,
    /// Where this candidate originated.
    pub source: CandidateSource,
}

/// What a [`Candidate`] holds.
pub struct CandidateView {
    pub surface: Seq<char>,
    pub reading: Seq<char>,
    pub score: int,
    pub source: CandidateSource,
}

impl View for Candidate {
    type V = CandidateView;

    open spec fn view(&self) -> CandidateView {
        CandidateView {
            surface: self.surface@,
            reading: self.reading@,
            score: self.score as int,
            source: self.source,
        }
    }
}

/// What a list of candidates holds.
pub open spec fn candidate_views(list: Seq<Candidate>) -> Seq<CandidateView> {
    list.map_values(|c: Candidate| c@)
}

impl Candidate {
    /// Constructs a new [`Candidate`].
    pub fn new(surface: &str, reading: &str, score: u32, source: CandidateSource) -> (c: Self)
        ensures
            c@ == (CandidateView {
                surface: surface@,
                reading: reading@,
                score: score as int,
                source,
            }),
    {
        Candidate { surface: surface.to_owned(), reading: reading.to_owned(), score, source }
    }
}

impl Clone for Candidate {
    fn clone(&self) -> (c: Self)
        ensures
            c@ == self@,
    {
        Candidate {
            surface: self.surface.clone(),
            reading: self.reading.clone(),
            score: self.score,
            source: self.source,
        }
    }
}

/// Copies a candidate list.
pub fn copy_candidates(list: &Vec<Candidate>) -> (copy: Vec<Candidate>)
    ensures
        candidate_views(copy@) == candidate_views(list@),
{
    let mut copy: Vec<Candidate> = Vec::new();
    for i in 0..list.len()
        invariant
            copy@.len() == i,
            forall|k: int| 0 <= k < i ==> (#[trigger] copy@[k])@ == list@[k]@,
    {
        copy.push(list[i].clone());
    }
    assert(candidate_views(copy@) =~= candidate_views(list@));
    copy
}

// ---------------------------------------------------------------------------
// Ranking
// ---------------------------------------------------------------------------

/// Whether `a` ranks before `b`: by higher score, then by surface, then by reading.
pub open spec fn precedes(a: CandidateView, b: CandidateView) -> bool {
    ||| a.score > b.score
    ||| a.score == b.score && order::text_before(a.surface, b.surface)
    ||| a.score == b.score && a.surface == b.surface && order::text_before(a.reading, b.reading)
}

/// The ranking of candidates.
pub open spec fn rank_order() -> spec_fn(CandidateView, CandidateView) -> bool {
    |a: CandidateView, b: CandidateView| precedes(a, b)
}

/// The candidates of `list`, best first; equally ranked ones keep their order.
pub open spec fn ranked(list: Seq<CandidateView>) -> Seq<CandidateView> {
    order::arranged(list, rank_order())
}

/// The ranking is a strict order.
pub proof fn lemma_rank_order_strict()
    ensures
        order::strict_order(rank_order()),
{
    let before = rank_order();
    assert forall|a: CandidateView, b: CandidateView| #[trigger] before(a, b) implies !before(
        b,
        a,
    ) by {
        order::lemma_text_before_total(a.surface, b.surface);
        order::lemma_text_before_total(a.reading, b.reading);
    }
    assert forall|a: CandidateView, b: CandidateView, c: CandidateView|
        !#[trigger] before(b, a) && !#[trigger] before(c, b) implies !before(c, a) by {
        order::lemma_text_before_total(a.surface, b.surface);
        order::lemma_text_before_total(b.surface, c.surface);
        order::lemma_text_before_total(a.surface, c.surface);
        order::lemma_text_before_total(a.reading, b.reading);
        order::lemma_text_before_total(b.reading, c.reading);
        order::lemma_text_before_total(a.reading, c.reading);
        if order::text_before(a.surface, b.surface) && order::text_before(b.surface, c.surface) {
            order::lemma_text_before_transitive(a.surface, b.surface, c.surface);
        }
        if order::text_before(a.reading, b.reading) && order::text_before(b.reading, c.reading) {
            order::lemma_text_before_transitive(a.reading, b.reading, c.reading);
        }
    }
}

/// Sorting a candidate list keeps its candidates, and no candidate ranks before
/// one that stands earlier; in particular scores never increase along the list.
pub proof fn lemma_ranked(list: Seq<CandidateView>)
    ensures
        ranked(list).len() == list.len(),
        ranked(list).to_multiset() == list.to_multiset(),
        forall|i: int, j: int|
            0 <= i < j < list.len() ==> !precedes(
                #[trigger] ranked(list)[j],
                #[trigger] ranked(list)[i],
            ),
        forall|i: int, j: int|
            0 <= i < j < list.len() ==> (#[trigger] ranked(list)[i]).score >= (
            #[trigger] ranked(list)[j]).score,
{
    lemma_rank_order_strict();
    order::lemma_arranged_keeps(list, rank_order());
    order::lemma_arranged_in_order(list, rank_order());
    let before = rank_order();
    let r = ranked(list);
    assert forall|i: int, j: int| 0 <= i < j < list.len() implies !precedes(
        #[trigger] r[j],
        #[trigger] r[i],
    ) by {
        assert(!before(r[j], r[i]));
    }
}

/// What the ranking goes by: the score, then the surface, then the reading. Candidates
/// that are equal in all three keep the order in which they were listed.
pub proof fn lemma_ranked_ties(list: Seq<CandidateView>)
    ensures
        forall|i: int, j: int|
            0 <= i < j < ranked(list).len() ==> {
                let a = #[trigger] ranked(list)[i];
                let b = #[trigger] ranked(list)[j];
                &&& a.score >= b.score
                &&& a.score == b.score ==> !order::text_before(b.surface, a.surface)
                &&& a.score == b.score && a.surface == b.surface ==> !order::text_before(
                    b.reading,
                    a.reading,
                )
            },
        forall|score: int, surface: Seq<char>, reading: Seq<char>|
            ranked(list).filter(#[trigger] is_ranked_as(score, surface, reading)) == list.filter(
                is_ranked_as(score, surface, reading),
            ),
{
    lemma_ranked(list);
    assert forall|score: int, surface: Seq<char>, reading: Seq<char>| ranked(list).filter(
        #[trigger] is_ranked_as(score, surface, reading),
    ) == list.filter(is_ranked_as(score, surface, reading)) by {
        let pred = is_ranked_as(score, surface, reading);
        let before = rank_order();
        order::lemma_text_before_irreflexive(surface);
        order::lemma_text_before_irreflexive(reading);
        assert forall|a: CandidateView, b: CandidateView| pred(a) && pred(b) implies
            !#[trigger] before(a, b) by {}
        order::lemma_arranged_stable(list, before, pred);
    }
}

/// Having this score, surface and reading.
pub open spec fn is_ranked_as(
    score: int,
    surface: Seq<char>,
    reading: Seq<char>,
) -> spec_fn(CandidateView) -> bool {
    |c: CandidateView| c.score == score && c.surface == surface && c.reading == reading
}

/// Whether `a` ranks before `b`.
pub fn candidate_precedes(a: &Candidate, b: &Candidate) -> (before: bool)
    ensures
        before == precedes(a@, b@),
{
    if a.score != b.score {
        return a.score > b.score;
    }
    let a_surface = chars_of(a.surface.as_str());
    let b_surface = chars_of(b.surface.as_str());
    if chars_before(a_surface.as_slice(), b_surface.as_slice()) {
        return true;
    }
    if a.surface != b.surface {
        return false;
    }
    let a_reading = chars_of(a.reading.as_str());
    let b_reading = chars_of(b.reading.as_str());
    chars_before(a_reading.as_slice(), b_reading.as_slice())
}

impl PartialOrd for Candidate {
    fn partial_cmp(&self, other: &Self) -> (o: Option<Ordering>) {
        if candidate_precedes(self, other) {
            Some(Ordering::Less)
        } else if candidate_precedes(other, self) {
            Some(Ordering::Greater)
        } else {
            Some(Ordering::Equal)
        }
    }
}

impl vstd::std_specs::cmp::PartialOrdSpecImpl for Candidate {
    open spec fn obeys_partial_cmp_spec() -> bool {
        true
    }

    open spec fn partial_cmp_spec(&self, other: &Self) -> Option<Ordering> {
        if precedes(self@, other@) {
            Some(Ordering::Less)
        } else if precedes(other@, self@) {
            Some(Ordering::Greater)
        } else {
            Some(Ordering::Equal)
        }
    }
}

/// Two candidates compare as equal only if score, surface and reading are equal.
pub proof fn lemma_equal_rank(a: CandidateView, b: CandidateView)
    requires
        !precedes(a, b),
        !precedes(b, a),
    ensures
        a.score == b.score,
        a.surface == b.surface,
        a.reading == b.reading,
{
    order::lemma_text_before_total(a.surface, b.surface);
    order::lemma_text_before_total(a.reading, b.reading);
}

/// Puts `c` into the list past the candidates that it ranks before.
fn insert_ranked(list: &mut Vec<Candidate>, c: Candidate)
    ensures
        candidate_views(final(list)@) == order::inserted(
            candidate_views(old(list)@),
            c@,
            rank_order(),
        ),
{
    let mut pos: usize = list.len();
    let ghost all = candidate_views(list@);
    let ghost before = rank_order();
    assert(all.take(pos as int) =~= all);
    assert(order::inserted(all, c@, before) =~= order::inserted(all, c@, before) + all.skip(
        pos as int,
    ));
    while pos > 0 && candidate_precedes(&c, &list[pos - 1])
        invariant
            pos <= list@.len(),
            all == candidate_views(list@),
            before == rank_order(),
            order::inserted(all, c@, before) == order::inserted(
                all.take(pos as int),
                c@,
                before,
            ) + all.skip(pos as int),
        decreases pos,
    {
        let ghost head = all.take(pos as int);
        assert(head.last() == list@[pos - 1]@);
        assert(before(c@, head.last()));
        assert(head.drop_last() =~= all.take(pos - 1));
        assert(order::inserted(all.take(pos - 1), c@, before).push(head.last()) + all.skip(
            pos as int,
        ) =~= order::inserted(all.take(pos - 1), c@, before) + all.skip(pos - 1));
        pos = pos - 1;
    }
    proof {
        let head = all.take(pos as int);
        if pos > 0 {
            assert(head.last() == list@[pos - 1]@);
            assert(!before(c@, head.last()));
        }
        assert(order::inserted(head, c@, before) == head.push(c@));
        assert(all.insert(pos as int, c@) =~= head.push(c@) + all.skip(pos as int));
    }
    list.insert(pos, c);
    assert(candidate_views(list@) =~= all.insert(pos as int, c@));
}

/// Sorts candidates best first. The sort is stable.
pub fn rank(list: Vec<Candidate>) -> (sorted: Vec<Candidate>)
    ensures
        candidate_views(sorted@) == ranked(candidate_views(list@)),
{
    let ghost all = candidate_views(list@);
    let mut sorted: Vec<Candidate> = Vec::new();
    assert(candidate_views(sorted@) =~= ranked(all.take(0)));
    for c in it: list.into_iter()
        invariant
            it.seq() == list@,
            all == candidate_views(list@),
            candidate_views(sorted@) == ranked(all.take(it.index() as int)),
    {
        let ghost i = it.index() as int;
        insert_ranked(&mut sorted, c);
        proof {
            let head = all.take(i + 1);
            assert(head.drop_last() =~= all.take(i));
            assert(head.last() == c@);
        }
    }
    assert(all.take(list@.len() as int) =~= all);
    sorted
}

/// A candidate ranks before another if its score is higher; at equal scores if its
/// surface comes first; and at equal surfaces if its reading does. In no other case.
pub proof fn lemma_precedes(a: CandidateView, b: CandidateView)
    ensures
        a.score > b.score ==> precedes(a, b),
        a.score < b.score ==> !precedes(a, b),
        a.score == b.score && a.surface != b.surface ==> (precedes(a, b) <==> order::text_before(
            a.surface,
            b.surface,
        )),
        a.score == b.score && a.surface == b.surface ==> (precedes(a, b) <==> order::text_before(
            a.reading,
            b.reading,
        )),
{
    order::lemma_text_before_irreflexive(a.surface);
}

/// What a list of candidates holds is what each of them holds, in order.
pub proof fn lemma_candidate_views(list: Seq<Candidate>)
    ensures
        candidate_views(list).len() == list.len(),
        forall|i: int|
            0 <= i < list.len() ==> {
                let view = #[trigger] candidate_views(list)[i];
                &&& view.surface == list[i].surface@
                &&& view.reading == list[i].reading@
                &&& view.score == list[i].score
                &&& view.source == list[i].source
            },
{
}

} // verus!
