//! Greedy longest-match segmentation of kana input.
//!
//! A kana reading is split into conversion segments by dictionary matches. Each
//! segment carries its reading, its candidates and the selected candidate.

use crate::candidate;
use crate::candidate::{copy_candidates, Candidate, CandidateSource, CandidateView};
use crate::dictionary;
use crate::dictionary::{Content, DictionaryLookup, MatchView};
use crate::text;
use crate::text::{chars_of, string_of};
use vstd::prelude::*;
use vstd::string::StringExecFns;

verus! {

/// A single conversion segment.
#[derive(Debug)]
pub struct Segment {
    /// The kana reading of this segment (e.g. `"きょう"`).
    pub reading: String,
    /// Candidates for this reading, best first. An unknown segment has a single
    /// candidate whose surface is the reading.
    pub candidates: Vec<Candidate>,
    /// Zero-based index of the selected candidate.
    pub selected: usize,
}

/// What a [`Segment`] holds.
pub struct SegmentView {
    pub reading: Seq<char>,
    pub candidates: Seq<CandidateView>,
    pub selected: int,
}

impl View for Segment {
    type V = SegmentView;

    open spec fn view(&self) -> SegmentView {
        SegmentView {
            reading: self.reading@,
            candidates: candidate::candidate_views(self.candidates@),
            selected: self.selected as int,
        }
    }
}

/// What a list of segments holds.
pub open spec fn segment_views(list: Seq<Segment>) -> Seq<SegmentView> {
    list.map_values(|s: Segment| s@)
}

impl Clone for Segment {
    fn clone(&self) -> (s: Self)
        ensures
            s@ == self@,
    {
        Segment {
            reading: self.reading.clone(),
            candidates: copy_candidates(&self.candidates),
            selected: self.selected,
        }
    }
}

/// The surface of the selected candidate, or the reading where there is none.
pub open spec fn surface_of(segment: SegmentView) -> Seq<char> {
    if 0 <= segment.selected < segment.candidates.len() {
        segment.candidates[segment.selected].surface
    } else {
        segment.reading
    }
}

impl Segment {
    /// Returns the surface form of the selected candidate.
    pub fn selected_surface(&self) -> (surface: &str)
        ensures
            surface@ == surface_of(self@),
    {
        if self.selected < self.candidates.len() {
            let ghost i = self.selected as int;
            assert(self@.candidates[i] == self.candidates@[i]@);
            self.candidates[self.selected].surface.as_str()
        } else {
            self.reading.as_str()
        }
    }
}

/// The selected surfaces of all segments, joined.
pub open spec fn joined_surfaces(segments: Seq<SegmentView>) -> Seq<char>
    decreases segments.len(),
{
    if segments.len() == 0 {
        Seq::empty()
    } else {
        joined_surfaces(segments.drop_last()) + surface_of(segments.last())
    }
}

/// The readings and selected surfaces of all segments.
pub open spec fn selections_of(segments: Seq<SegmentView>) -> Seq<(Seq<char>, Seq<char>)> {
    segments.map_values(|s: SegmentView| (s.reading, surface_of(s)))
}

/// Joins the selected surfaces of all segments.
pub fn join_surfaces(segments: &Vec<Segment>) -> (text: String)
    ensures
        text@ == joined_surfaces(segment_views(segments@)),
{
    let mut text = String::new();
    let ghost all = segment_views(segments@);
    assert(text@ =~= joined_surfaces(all.take(0)));
    for i in 0..segments.len()
        invariant
            all == segment_views(segments@),
            text@ == joined_surfaces(all.take(i as int)),
    {
        proof {
            let head = all.take(i + 1);
            assert(head.drop_last() =~= all.take(i as int));
            assert(head.last() == segments@[i as int]@);
        }
        text.append(segments[i].selected_surface());
    }
    assert(all.take(all.len() as int) =~= all);
    text
}

/// Lists the readings and selected surfaces of all segments.
pub fn selected_pairs(segments: &Vec<Segment>) -> (pairs: Vec<(String, String)>)
    ensures
        text::pair_views(pairs@) == selections_of(
            segment_views(segments@),
        ),
{
    let mut pairs: Vec<(String, String)> = Vec::new();
    let ghost all = segment_views(segments@);
    for i in 0..segments.len()
        invariant
            all == segment_views(segments@),
            pairs@.len() == i,
            forall|k: int|
                0 <= k < i ==> (#[trigger] pairs@[k]).0@ == all[k].reading && pairs@[k].1@
                    == surface_of(all[k]),
    {
        assert(all[i as int] == segments@[i as int]@);
        let surface = segments[i].selected_surface().to_owned();
        pairs.push((segments[i].reading.clone(), surface));
    }
    assert(text::pair_views(pairs@) =~= selections_of(all));
    pairs
}

// ---------------------------------------------------------------------------
// Segmentation
// ---------------------------------------------------------------------------

/// The length of the longest start of `text`, of at most `n` characters, that has
/// candidates; zero where none has.
pub open spec fn longest(content: Content, text: Seq<char>, n: int) -> int
    decreases n,
{
    if n <= 0 {
        0
    } else if content(text.take(n)).len() > 0 {
        n
    } else {
        longest(content, text, n - 1)
    }
}

/// The segment of a reading that the dictionary knows.
pub open spec fn known(content: Content, reading: Seq<char>) -> SegmentView {
    SegmentView { reading, candidates: content(reading), selected: 0 }
}

/// The segment of a character that starts no known reading.
pub open spec fn unknown(c: char) -> SegmentView {
    SegmentView {
        reading: seq![c],
        candidates: seq![
            CandidateView {
                surface: seq![c],
                reading: seq![c],
                score: 0,
                source: CandidateSource::System,
            },
        ],
        selected: 0,
    }
}

/// The segments of `text`: the longest start that has candidates, or else one
/// character as it is, followed by the segments of the rest.
pub open spec fn segments_of(content: Content, text: Seq<char>) -> Seq<SegmentView>
    decreases text.len(),
    via segments_of_decreases
{
    let n = longest(content, text, text.len() as int);
    if text.len() == 0 {
        Seq::empty()
    } else if n > 0 {
        seq![known(content, text.take(n))] + segments_of(content, text.skip(n))
    } else {
        seq![unknown(text[0])] + segments_of(content, text.skip(1))
    }
}

#[via_fn]
proof fn segments_of_decreases(content: Content, text: Seq<char>) {
    lemma_longest(content, text, text.len() as int);
}

/// The longest match has candidates, and no longer start of the text has any.
pub proof fn lemma_longest(content: Content, text: Seq<char>, n: int)
    requires
        0 <= n,
    ensures
        0 <= longest(content, text, n) <= n,
        longest(content, text, n) > 0 ==> content(text.take(longest(content, text, n))).len() > 0,
        forall|m: int|
            longest(content, text, n) < m <= n ==> content(#[trigger] text.take(m)).len() == 0,
    decreases n,
{
    if n > 0 && content(text.take(n)).len() == 0 {
        lemma_longest(content, text, n - 1);
    }
}

/// The first prefix match is the longest one.
proof fn lemma_first_match(content: Content, text: Seq<char>, n: int)
    requires
        0 <= n <= text.len(),
    ensures
        longest(content, text, n) == 0 ==> dictionary::prefix_matches(content, text, n).len() == 0,
        longest(content, text, n) > 0 ==> dictionary::prefix_matches(content, text, n).len() > 0
            && dictionary::prefix_matches(content, text, n)[0] == (MatchView {
            reading: text.take(longest(content, text, n)),
            candidates: content(text.take(longest(content, text, n))),
        }),
    decreases n,
{
    if n > 0 && content(text.take(n)).len() == 0 {
        lemma_first_match(content, text, n - 1);
    }
}

/// Segments a kana reading into conversion units by greedy longest match.
///
/// At each position the longest reading of the dictionary is taken. Where none
/// starts, a single character becomes a segment whose sole candidate is the
/// character itself.
pub fn segment<D: DictionaryLookup + ?Sized>(reading: &str, dict: &D) -> (segments: Vec<Segment>)
    requires
        dict.wf(),
    ensures
        segment_views(segments@) == segments_of(dict.content(), reading@),
{
    let chars = chars_of(reading);
    let mut segments: Vec<Segment> = Vec::new();
    let mut pos: usize = 0;
    let ghost content = dict.content();
    let ghost all = segments_of(content, reading@);
    assert(segment_views(segments@) + all =~= all);
    assert(chars@.skip(0) =~= chars@);
    while pos < chars.len()
        invariant
            dict.wf(),
            content == dict.content(),
            pos <= chars@.len(),
            all == segment_views(segments@) + segments_of(content, chars@.skip(pos as int)),
        decreases chars@.len() - pos,
    {
        let remaining = string_of(&chars.as_slice()[pos..chars.len()]);
        let ghost rest = chars@.skip(pos as int);
        assert(remaining@ =~= rest);
        let mut matches = dict.common_prefix_search(remaining.as_str());
        let ghost found = dictionary::match_views(matches@);
        let ghost n = longest(content, rest, rest.len() as int);
        proof {
            lemma_longest(content, rest, rest.len() as int);
            lemma_first_match(content, rest, rest.len() as int);
        }
        let ghost before = segment_views(segments@);
        if matches.len() > 0 {
            assert(found[0].reading == matches@[0].0@);
            let (matched_reading, candidates) = matches.remove(0);
            let matched_chars: usize = chars_of(matched_reading.as_str()).len();
            let s = Segment { reading: matched_reading, candidates, selected: 0 };
            assert(s@ == known(content, rest.take(n)));
            segments.push(s);
            assert(segment_views(segments@) =~= before.push(s@));
            assert(rest.skip(n) =~= chars@.skip(pos + n));
            assert(before + (seq![s@] + segments_of(content, rest.skip(n))) =~= segment_views(
                segments@,
            ) + segments_of(content, rest.skip(n)));
            pos = pos + matched_chars;
        } else {
            let ch = string_of(&chars.as_slice()[pos..pos + 1]);
            assert(ch@ =~= seq![rest[0]]);
            let c = Candidate::new(ch.as_str(), ch.as_str(), 0, CandidateSource::System);
            let mut candidates: Vec<Candidate> = Vec::new();
            candidates.push(c);
            let s = Segment { reading: ch, candidates, selected: 0 };
            assert(s@.candidates =~= unknown(rest[0]).candidates);
            segments.push(s);
            assert(segment_views(segments@) =~= before.push(s@));
            assert(rest.skip(1) =~= chars@.skip(pos + 1));
            assert(before + (seq![s@] + segments_of(content, rest.skip(1))) =~= segment_views(
                segments@,
            ) + segments_of(content, rest.skip(1)));
            pos = pos + 1;
        }
    }
    assert(segment_views(segments@) + Seq::<SegmentView>::empty() =~= segment_views(segments@));
    segments
}

// ---------------------------------------------------------------------------
// Laws
// ---------------------------------------------------------------------------

/// The readings of `segments`, joined.
pub open spec fn joined_readings(segments: Seq<SegmentView>) -> Seq<char>
    decreases segments.len(),
{
    if segments.len() == 0 {
        Seq::empty()
    } else {
        segments[0].reading + joined_readings(segments.drop_first())
    }
}

/// Segmentation loses nothing: the readings of the segments make up the text. Only
/// the empty text has no segment, and every segment has a reading and a candidate,
/// of which the first is selected.
pub proof fn lemma_segments(content: Content, text: Seq<char>)
    ensures
        joined_readings(segments_of(content, text)) == text,
        segments_of(content, text).len() == 0 <==> text.len() == 0,
        forall|i: int|
            0 <= i < segments_of(content, text).len() ==> (#[trigger] segments_of(
                content,
                text,
            )[i]).candidates.len() > 0 && segments_of(content, text)[i].reading.len() > 0
                && segments_of(content, text)[i].selected == 0,
    decreases text.len(),
{
    let n = longest(content, text, text.len() as int);
    let all = segments_of(content, text);
    lemma_longest(content, text, text.len() as int);
    if text.len() > 0 {
        let step = if n > 0 {
            n
        } else {
            1
        };
        let rest = segments_of(content, text.skip(step));
        lemma_segments(content, text.skip(step));
        assert(all.drop_first() =~= rest);
        assert(all[0].reading =~= text.take(step));
        assert(text.take(step) + text.skip(step) =~= text);
        assert forall|i: int| 0 <= i < all.len() implies (#[trigger] all[i]).candidates.len() > 0
            && all[i].reading.len() > 0 && all[i].selected == 0 by {
            if i > 0 {
                assert(all[i] == rest[i - 1]);
            }
        }
    }
}

/// Where segment `i` starts.
pub open spec fn start_of(segments: Seq<SegmentView>, i: int) -> int {
    joined_readings(segments.take(i)).len() as int
}

proof fn lemma_start_of(segments: Seq<SegmentView>, i: int)
    requires
        0 <= i <= segments.len(),
    ensures
        start_of(segments, i) <= joined_readings(segments).len(),
    decreases segments.len(),
{
    if i > 0 {
        lemma_start_of(segments.drop_first(), i - 1);
        assert(segments.take(i).drop_first() =~= segments.drop_first().take(i - 1));
    } else {
        assert(segments.take(0) =~= Seq::<SegmentView>::empty());
    }
}

/// Segmentation is greedy: each segment takes the longest reading of the
/// dictionary that starts where the segment starts. A segment that is not in the
/// dictionary is one character, at which no reading starts.
pub proof fn lemma_segments_greedy(content: Content, text: Seq<char>, i: int)
    requires
        0 <= i < segments_of(content, text).len(),
    ensures
        ({
            let s = segments_of(content, text)[i];
            ||| s == known(content, s.reading) && content(s.reading).len() > 0
            ||| s == unknown(s.reading[0]) && content(s.reading).len() == 0
        }),
        forall|m: int|
            segments_of(content, text)[i].reading.len() < m <= text.len() - start_of(
                segments_of(content, text),
                i,
            ) ==> content(
                #[trigger] text.skip(start_of(segments_of(content, text), i)).take(m),
            ).len() == 0,
    decreases text.len(),
{
    let n = longest(content, text, text.len() as int);
    let all = segments_of(content, text);
    lemma_longest(content, text, text.len() as int);
    let step = if n > 0 {
        n
    } else {
        1
    };
    let rest_text = text.skip(step);
    let rest = segments_of(content, rest_text);
    assert(all[0].reading =~= text.take(step));
    if i == 0 {
        assert(all.take(0) =~= Seq::<SegmentView>::empty());
        assert(text.skip(0) =~= text);
        if n == 0 {
            assert(text.take(1) =~= seq![text[0]]);
            assert(all[0] == unknown(text[0]));
        }
    } else {
        let head = all.take(i);
        assert(head.drop_first() =~= rest.take(i - 1));
        assert(head[0] == all[0]);
        assert(all[i] == rest[i - 1]);
        lemma_segments_greedy(content, rest_text, i - 1);
        lemma_segments(content, rest_text);
        lemma_start_of(rest, i - 1);
        assert(start_of(all, i) == step + start_of(rest, i - 1));
        assert(rest_text.skip(start_of(rest, i - 1)) =~= text.skip(start_of(all, i)));
    }
}

/// A text has at most one segment for each character.
pub proof fn lemma_segments_count(content: Content, text: Seq<char>)
    ensures
        segments_of(content, text).len() <= text.len(),
    decreases text.len(),
{
    let n = longest(content, text, text.len() as int);
    lemma_longest(content, text, text.len() as int);
    if text.len() > 0 {
        let step = if n > 0 {
            n
        } else {
            1
        };
        lemma_segments_count(content, text.skip(step));
    }
}

/// The readings of the segments, one after the other, are the text.
pub proof fn lemma_readings(content: Content, text: Seq<char>)
    ensures
        segments_of(content, text).map_values(|s: SegmentView| s.reading).flatten() == text,
{
    lemma_segments(content, text);
    lemma_readings_flat(segments_of(content, text));
}

proof fn lemma_readings_flat(segments: Seq<SegmentView>)
    ensures
        segments.map_values(|s: SegmentView| s.reading).flatten() == joined_readings(segments),
    decreases segments.len(),
{
    let all = segments.map_values(|s: SegmentView| s.reading);
    if segments.len() > 0 {
        let rest = segments.drop_first();
        lemma_readings_flat(rest);
        assert(all.drop_first() =~= rest.map_values(|s: SegmentView| s.reading));
        assert(all.first() == segments[0].reading);
    } else {
        assert(all =~= Seq::<Seq<char>>::empty());
    }
}

/// A segment has the candidates that the dictionary lists for its reading, and no longer
/// text from where it starts has any; or it is a single character at which no listed
/// reading starts, and its only candidate is that character. The first candidate is
/// selected.
pub proof fn lemma_segment_is_longest(content: Content, text: Seq<char>, i: int)
    requires
        0 <= i < segments_of(content, text).len(),
    ensures
        ({
            let segments = segments_of(content, text);
            let s = segments[i];
            let from = segments.take(i).map_values(|s: SegmentView| s.reading).flatten().len();
            let rest = text.skip(from as int);
            &&& from + s.reading.len() <= text.len()
            &&& s.reading == rest.take(s.reading.len() as int)
            &&& s.selected == 0
            &&& forall|m: int|
                s.reading.len() < m <= rest.len() ==> content(#[trigger] rest.take(m)).len() == 0
            &&& if content(s.reading).len() > 0 {
                s.candidates == content(s.reading)
            } else {
                &&& s.reading.len() == 1
                &&& s.candidates == seq![
                    CandidateView {
                        surface: s.reading,
                        reading: s.reading,
                        score: 0,
                        source: CandidateSource::System,
                    },
                ]
            }
        }),
{
    let segments = segments_of(content, text);
    let s = segments[i];
    lemma_segments(content, text);
    lemma_segments_greedy(content, text, i);
    lemma_readings_flat(segments.take(i));
    lemma_reading_place(segments, i);
    let from = start_of(segments, i);
    assert(text.skip(from).take(s.reading.len() as int) =~= text.subrange(
        from,
        from + s.reading.len(),
    ));
    if content(s.reading).len() == 0 {
        assert(s.reading =~= seq![s.reading[0]]);
    }
}

proof fn lemma_reading_place(segments: Seq<SegmentView>, i: int)
    requires
        0 <= i < segments.len(),
    ensures
        start_of(segments, i) + segments[i].reading.len() <= joined_readings(segments).len(),
        joined_readings(segments).subrange(
            start_of(segments, i),
            start_of(segments, i) + segments[i].reading.len(),
        ) == segments[i].reading,
    decreases segments.len(),
{
    let rest = segments.drop_first();
    let first = segments[0].reading;
    let all = joined_readings(segments);
    if i == 0 {
        assert(segments.take(0) =~= Seq::<SegmentView>::empty());
        assert(all.subrange(0, first.len() as int) =~= first);
    } else {
        lemma_reading_place(rest, i - 1);
        let head = segments.take(i);
        assert(head.drop_first() =~= rest.take(i - 1));
        assert(head[0] == segments[0]);
        let from = start_of(rest, i - 1);
        let n = segments[i].reading.len();
        assert(rest[i - 1] == segments[i]);
        assert(start_of(segments, i) == first.len() + from);
        assert(all.subrange(first.len() + from, first.len() + from + n) =~= joined_readings(
            rest,
        ).subrange(from, from + n));
    }
}

/// The surface of a segment is that of its selected candidate, or its reading where the
/// selection is no candidate.
pub proof fn lemma_surface_of(segment: SegmentView)
    ensures
        0 <= segment.selected < segment.candidates.len() ==> surface_of(segment)
            == segment.candidates[segment.selected].surface,
        !(0 <= segment.selected < segment.candidates.len()) ==> surface_of(segment)
            == segment.reading,
{
}

/// What a list of segments holds is what each of them holds, in order.
pub proof fn lemma_segment_views(list: Seq<Segment>)
    ensures
        segment_views(list).len() == list.len(),
        forall|i: int|
            0 <= i < list.len() ==> {
                let view = #[trigger] segment_views(list)[i];
                &&& view.reading == list[i].reading@
                &&& view.candidates == candidate::candidate_views(list[i].candidates@)
                &&& view.selected == list[i].selected
            },
{
}

} // verus!
