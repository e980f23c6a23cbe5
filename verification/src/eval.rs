//! Scoring conversions against expected results.

use crate::dictionary::{Content, DictionaryLookup};
use crate::segmenter;
use crate::segmenter::{join_surfaces, segment, selected_pairs, Segment, SegmentView};
use crate::text;
use crate::text::{chars_of, same_chars, same_text};
use vstd::prelude::*;
use vstd::string::StringExecFns;

verus! {

/// A case whose conversion is not the expected one.
#[derive(Debug)]
pub struct Failure {
    /// The kana input.
    pub input: String,
    /// The expected conversion.
    pub expected: String,
    /// The actual conversion.
    pub actual: String,
    /// The readings and surfaces of the segments of the actual conversion.
    pub segments: Vec<(String, String)>,
}

/// What a [`Failure`] holds.
pub struct FailureView {
    pub input: Seq<char>,
    pub expected: Seq<char>,
    pub actual: Seq<char>,
    pub segments: Seq<(Seq<char>, Seq<char>)>,
}

impl View for Failure {
    type V = FailureView;

    open spec fn view(&self) -> FailureView {
        FailureView {
            input: self.input@,
            expected: self.expected@,
            actual: self.actual@,
            segments: text::pair_views(self.segments@),
        }
    }
}

/// What a list of failures holds.
pub open spec fn failure_views(list: Seq<Failure>) -> Seq<FailureView> {
    list.map_values(|f: Failure| f@)
}

/// The totals of an evaluation.
#[derive(Debug)]
pub struct EvalTotals {
    /// Cases.
    pub total: usize,
    /// Cases whose conversion is the expected one.
    pub exact_match: usize,
    /// Segments of all conversions.
    pub total_segments: usize,
    /// Segments that stand in the expected conversion where they stand in the
    /// actual one.
    pub correct_segments: usize,
    /// The other cases.
    pub failures: Vec<Failure>,
}

/// What [`EvalTotals`] hold.
pub struct TotalsView {
    pub total: int,
    pub exact_match: int,
    pub total_segments: int,
    pub correct_segments: int,
    pub failures: Seq<FailureView>,
}

impl View for EvalTotals {
    type V = TotalsView;

    open spec fn view(&self) -> TotalsView {
        TotalsView {
            total: self.total as int,
            exact_match: self.exact_match as int,
            total_segments: self.total_segments as int,
            correct_segments: self.correct_segments as int,
            failures: failure_views(self.failures@),
        }
    }
}

/// Where the surface of segment `i` starts in the conversion.
pub open spec fn surface_start(segments: Seq<SegmentView>, i: int) -> int {
    segmenter::joined_surfaces(segments.take(i)).len() as int
}

/// Whether the surface of segment `i` stands at its place in `expected`.
pub open spec fn is_correct(segments: Seq<SegmentView>, expected: Seq<char>, i: int) -> bool {
    let surface = segmenter::surface_of(segments[i]);
    let from = surface_start(segments, i);
    from + surface.len() <= expected.len() && expected.subrange(from, from + surface.len())
        == surface
}

/// How many of the first `n` segments are correct.
pub open spec fn correct_count(segments: Seq<SegmentView>, expected: Seq<char>, n: int) -> int
    decreases n,
{
    if n <= 0 {
        0
    } else {
        correct_count(segments, expected, n - 1) + if is_correct(segments, expected, n - 1) {
            1int
        } else {
            0
        }
    }
}

/// The totals with one more case.
pub open spec fn with_case(
    totals: TotalsView,
    content: Content,
    input: Seq<char>,
    expected: Seq<char>,
) -> TotalsView {
    let segments = segmenter::segments_of(content, input);
    let actual = segmenter::joined_surfaces(segments);
    let failure = FailureView {
        input,
        expected,
        actual,
        segments: segmenter::selections_of(segments),
    };
    TotalsView {
        total: totals.total + 1,
        exact_match: totals.exact_match + if actual == expected {
            1int
        } else {
            0
        },
        total_segments: totals.total_segments + segments.len(),
        correct_segments: totals.correct_segments + correct_count(
            segments,
            expected,
            segments.len() as int,
        ),
        failures: if actual == expected {
            totals.failures
        } else {
            totals.failures.push(failure)
        },
    }
}

/// Whether no part exceeds its whole.
pub open spec fn totals_wf(totals: TotalsView) -> bool {
    &&& 0 <= totals.exact_match <= totals.total
    &&& totals.failures.len() == totals.total - totals.exact_match
    &&& 0 <= totals.correct_segments <= totals.total_segments
}

proof fn lemma_surface_start(segments: Seq<SegmentView>, i: int)
    requires
        0 <= i < segments.len(),
    ensures
        surface_start(segments, i + 1) == surface_start(segments, i) + segmenter::surface_of(
            segments[i],
        ).len(),
        surface_start(segments, i + 1) <= segmenter::joined_surfaces(segments).len(),
    decreases segments.len() - i,
{
    let head = segments.take(i + 1);
    assert(head.drop_last() =~= segments.take(i));
    assert(head.last() == segments[i]);
    if i + 1 < segments.len() {
        lemma_surface_start(segments, i + 1);
    } else {
        assert(head =~= segments);
    }
}

/// Counts the segments that stand at their place in `expected`.
fn count_correct(segments: &Vec<Segment>, actual: &str, expected: &str) -> (count: usize)
    requires
        actual@ == segmenter::joined_surfaces(segmenter::segment_views(segments@)),
    ensures
        count == correct_count(
            segmenter::segment_views(segments@),
            expected@,
            segments@.len() as int,
        ),
        count <= segments@.len(),
{
    let ghost all = segmenter::segment_views(segments@);
    let actual_chars = chars_of(actual);
    let length: usize = actual_chars.len();
    let expected_chars = chars_of(expected);
    let mut count: usize = 0;
    let mut from: usize = 0;
    assert(all.take(0) =~= Seq::<SegmentView>::empty());
    for i in 0..segments.len()
        invariant
            all == segmenter::segment_views(segments@),
            expected_chars@ == expected@,
            length == segmenter::joined_surfaces(all).len(),
            from == surface_start(all, i as int),
            from <= length,
            count == correct_count(all, expected@, i as int),
            count <= i,
    {
        let surface = chars_of(segments[i].selected_surface());
        proof {
            assert(all[i as int] == segments@[i as int]@);
            lemma_surface_start(all, i as int);
        }
        let to: usize = from + surface.len();
        if to <= expected_chars.len() {
            let place = &expected_chars.as_slice()[from..to];
            if same_chars(place, surface.as_slice()) {
                count = count + 1;
            }
        }
        from = to;
    }
    count
}

impl EvalTotals {
    /// The totals of no case.
    pub fn new() -> (totals: Self)
        ensures
            totals@ == (TotalsView {
                total: 0,
                exact_match: 0,
                total_segments: 0,
                correct_segments: 0,
                failures: Seq::empty(),
            }),
            totals_wf(totals@),
    {
        let totals = EvalTotals {
            total: 0,
            exact_match: 0,
            total_segments: 0,
            correct_segments: 0,
            failures: Vec::new(),
        };
        assert(totals@.failures =~= Seq::<FailureView>::empty());
        totals
    }

    /// Converts `input` by taking the first candidate of every segment, and counts
    /// the result.
    pub fn add_case<D: DictionaryLookup + ?Sized>(
        &mut self,
        input: &str,
        expected: &str,
        dict: &D,
    )
        requires
            dict.wf(),
            totals_wf(old(self)@),
            old(self)@.total < usize::MAX,
            old(self)@.total_segments + input@.len() <= usize::MAX,
        ensures
            totals_wf(final(self)@),
            final(self)@ == with_case(old(self)@, dict.content(), input@, expected@),
    {
        let ghost before = self@;
        let segments = segment(input, dict);
        let ghost all = segmenter::segment_views(segments@);
        proof {
            segmenter::lemma_segments_count(dict.content(), input@);
            assert(all.len() == segments@.len());
        }
        let actual = join_surfaces(&segments);
        let correct = count_correct(&segments, actual.as_str(), expected);
        self.total = self.total + 1;
        if same_text(actual.as_str(), expected) {
            self.exact_match = self.exact_match + 1;
        } else {
            let f = Failure {
                input: input.to_owned(),
                expected: expected.to_owned(),
                actual,
                segments: selected_pairs(&segments),
            };
            self.failures.push(f);
            assert(self@.failures =~= before.failures.push(f@));
        }
        self.total_segments = self.total_segments + segments.len();
        self.correct_segments = self.correct_segments + correct;
    }
}

/// The details of a conversion: each reading with its surface.
pub open spec fn detail_of(pair: (Seq<char>, Seq<char>)) -> Seq<char> {
    pair.0.push('→') + pair.1
}

impl Failure {
    /// Each segment of the actual conversion, as its reading and its surface.
    pub fn details(&self) -> (lines: Vec<String>)
        ensures
            text::string_views(lines@) == self@.segments.map_values(
                |p: (Seq<char>, Seq<char>)| detail_of(p),
            ),
    {
        let mut lines: Vec<String> = Vec::new();
        let ghost all = self@.segments;
        for i in 0..self.segments.len()
            invariant
                all == text::pair_views(self.segments@),
                lines@.len() == i,
                forall|k: int| 0 <= k < i ==> (#[trigger] lines@[k])@ == detail_of(all[k]),
        {
            let mut line = self.segments[i].0.clone();
            line.push('→');
            line.append(self.segments[i].1.as_str());
            lines.push(line);
        }
        assert(text::string_views(lines@) =~= all.map_values(
            |p: (Seq<char>, Seq<char>)| detail_of(p),
        ));
        lines
    }
}

/// An exact match has only correct segments.
pub proof fn lemma_exact_is_correct(segments: Seq<SegmentView>, n: int)
    requires
        0 <= n <= segments.len(),
    ensures
        correct_count(segments, segmenter::joined_surfaces(segments), n) == n,
    decreases n,
{
    if n > 0 {
        lemma_exact_is_correct(segments, n - 1);
        lemma_surface_place(segments, n - 1);
    }
}

proof fn lemma_surface_place(segments: Seq<SegmentView>, i: int)
    requires
        0 <= i < segments.len(),
    ensures
        is_correct(segments, segmenter::joined_surfaces(segments), i),
    decreases segments.len(),
{
    let all = segmenter::joined_surfaces(segments);
    let surface = segmenter::surface_of(segments[i]);
    let from = surface_start(segments, i);
    lemma_surface_start(segments, i);
    let rest = segments.drop_last();
    if i < rest.len() {
        lemma_surface_place(rest, i);
        assert(rest.take(i) =~= segments.take(i));
        assert(rest[i] == segments[i]);
        assert(all.subrange(from, from + surface.len()) =~= segmenter::joined_surfaces(
            rest,
        ).subrange(from, from + surface.len()));
    } else {
        assert(segments.take(i) =~= rest);
        assert(all.subrange(from, from + surface.len()) =~= surface);
    }
}

} // verus!
