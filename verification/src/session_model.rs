//! What an input session does, as a function from its state and a key.

use crate::candidate;
use crate::candidate::{CandidateSource, CandidateView};
use crate::dictionary::Content;
use crate::kana;
use crate::learning;
use crate::learning::RecordView;
use crate::romaji;
use crate::romaji::RomajiState;
use crate::segmenter;
use crate::segmenter::SegmentView;
use crate::session::{KeyEvent, SessionState};
use vstd::prelude::*;

verus! {

/// What a session holds.
pub struct SessionView {
    /// The phase.
    pub state: SessionState,
    /// The romaji that has not resolved to kana.
    pub romaji: RomajiState,
    /// The kana that wait to be committed or converted.
    pub kana: Seq<char>,
    /// The conversion segments.
    pub segments: Seq<SegmentView>,
    /// The index of the focused segment.
    pub active: int,
}

/// What a segment shows.
pub struct SegmentInfoView {
    pub surface: Seq<char>,
    pub is_active: bool,
}

/// What the caller is told to do.
pub enum ActionView {
    Noop,
    UpdatePreedit { text: Seq<char>, pending_romaji: Seq<char> },
    ShowCandidates {
        segments: Seq<SegmentInfoView>,
        active_segment: int,
        candidates: Seq<CandidateView>,
        selected: int,
        preedit: Seq<char>,
    },
    Commit(Seq<char>),
    Cancel,
}

/// What one key does: the session after it, the action, and the (reading, surface)
/// pairs that it commits.
pub struct StepView {
    pub session: SessionView,
    pub action: ActionView,
    pub selections: Seq<(Seq<char>, Seq<char>)>,
}

/// The session with nothing typed.
pub open spec fn idle() -> SessionView {
    SessionView {
        state: SessionState::Idle,
        romaji: romaji::fresh(),
        kana: Seq::empty(),
        segments: Seq::empty(),
        active: 0,
    }
}

/// Whether a segment can be shown: one of its candidates is selected.
pub open spec fn segment_wf(segment: SegmentView) -> bool {
    0 <= segment.selected < segment.candidates.len()
}

/// The invariant of a session. Idle, it holds nothing. Composing, it has no
/// segments. Converting, its segments make up the kana, one of them is focused and
/// each has a selected candidate; no romaji is left.
pub open spec fn session_wf(s: SessionView) -> bool {
    match s.state {
        SessionState::Idle => s == idle(),
        SessionState::Composing => s.segments == Seq::<SegmentView>::empty() && s.active == 0,
        SessionState::Converting => {
            &&& s.romaji == romaji::fresh()
            &&& s.kana.len() > 0
            &&& s.segments.len() > 0
            &&& 0 <= s.active < s.segments.len()
            &&& segmenter::joined_readings(s.segments) == s.kana
            &&& forall|i: int| 0 <= i < s.segments.len() ==> segment_wf(#[trigger] s.segments[i])
        },
    }
}

// ---------------------------------------------------------------------------
// Actions
// ---------------------------------------------------------------------------

/// Showing the kana and the pending romaji.
pub open spec fn preedit_of(s: SessionView) -> ActionView {
    ActionView::UpdatePreedit { text: s.kana, pending_romaji: s.romaji.pending }
}

/// What the segments show.
pub open spec fn infos(segments: Seq<SegmentView>, active: int) -> Seq<SegmentInfoView> {
    Seq::new(
        segments.len(),
        |i: int|
            SegmentInfoView { surface: segmenter::surface_of(segments[i]), is_active: i == active },
    )
}

/// Showing the segments and the candidates of the focused one.
pub open spec fn shown(s: SessionView) -> ActionView {
    ActionView::ShowCandidates {
        segments: infos(s.segments, s.active),
        active_segment: s.active,
        candidates: s.segments[s.active].candidates,
        selected: s.segments[s.active].selected,
        preedit: s.kana,
    }
}

// ---------------------------------------------------------------------------
// Conversion
// ---------------------------------------------------------------------------

/// Whether one of the candidates has the surface `surface`.
pub open spec fn has_surface(list: Seq<CandidateView>, surface: Seq<char>) -> bool {
    exists|i: int| 0 <= i < list.len() && (#[trigger] list[i]).surface == surface
}

/// A kana form of a reading, as a candidate of last resort.
pub open spec fn kana_candidate(reading: Seq<char>, surface: Seq<char>) -> CandidateView {
    CandidateView { surface, reading, score: 0, source: CandidateSource::System }
}

/// The candidates of a segment, followed by its reading in katakana unless that is
/// among them, and by the reading itself unless either is among them.
pub open spec fn with_kana(segment: SegmentView) -> SegmentView {
    let form = kana::katakana(segment.reading);
    let list = segment.candidates;
    let candidates = if has_surface(list, form) {
        list
    } else if has_surface(list, segment.reading) || form == segment.reading {
        list.push(kana_candidate(segment.reading, form))
    } else {
        list.push(kana_candidate(segment.reading, form)).push(
            kana_candidate(segment.reading, segment.reading),
        )
    };
    SegmentView { reading: segment.reading, candidates, selected: segment.selected }
}

/// A candidate with the boost of the selection history.
pub open spec fn boosted(
    c: CandidateView,
    reading: Seq<char>,
    records: Seq<RecordView>,
) -> CandidateView {
    let boost = learning::boost_of(records, reading, c.surface);
    if boost > 0 {
        CandidateView {
            surface: c.surface,
            reading: c.reading,
            score: c.score + boost,
            source: CandidateSource::Learning,
        }
    } else {
        c
    }
}

/// A segment whose candidates are ranked with the boosts of the selection history.
pub open spec fn with_boosts(segment: SegmentView, records: Seq<RecordView>) -> SegmentView {
    SegmentView {
        reading: segment.reading,
        candidates: candidate::ranked(
            segment.candidates.map_values(
                |c: CandidateView| boosted(c, segment.reading, records),
            ),
        ),
        selected: 0,
    }
}

/// The segments of a kana text before the selection history counts.
pub open spec fn plain_segments(content: Content, text: Seq<char>) -> Seq<SegmentView> {
    segmenter::segments_of(content, text).map_values(|s: SegmentView| with_kana(s))
}

/// The conversion segments of a kana text.
pub open spec fn conversion(
    content: Content,
    text: Seq<char>,
    records: Option<Seq<RecordView>>,
) -> Seq<SegmentView> {
    match records {
        Some(r) => plain_segments(content, text).map_values(|s: SegmentView| with_boosts(s, r)),
        None => plain_segments(content, text),
    }
}

/// Whether the boosted scores of a segment can be held.
pub open spec fn boosts_fit(segment: SegmentView, records: Seq<RecordView>) -> bool {
    forall|k: int|
        0 <= k < segment.candidates.len() ==> (#[trigger] segment.candidates[k]).score
            + learning::boost_of(records, segment.reading, segment.candidates[k].surface)
            <= u32::MAX
}

// ---------------------------------------------------------------------------
// Keys
// ---------------------------------------------------------------------------

/// Typing a character.
pub open spec fn typed(s: SessionView, ch: char) -> SessionView {
    let fed = romaji::fed(s.romaji, ch);
    SessionView {
        state: SessionState::Composing,
        romaji: fed.state,
        kana: s.kana + fed.confirmed,
        segments: s.segments,
        active: s.active,
    }
}

/// The kana with what the pending romaji stands for at their end.
pub open spec fn whole_kana(s: SessionView) -> Seq<char> {
    s.kana + romaji::flushed(s.romaji)
}

/// A step that commits nothing.
pub open spec fn plain_step(session: SessionView, action: ActionView) -> StepView {
    StepView { session, action, selections: Seq::empty() }
}

/// A key while nothing is typed.
pub open spec fn idle_step(s: SessionView, key: KeyEvent) -> StepView {
    match key {
        KeyEvent::Character(ch) => plain_step(typed(s, ch), preedit_of(typed(s, ch))),
        _ => plain_step(s, ActionView::Noop),
    }
}

/// A key while romaji is typed.
pub open spec fn composing_step(
    s: SessionView,
    key: KeyEvent,
    content: Content,
    records: Option<Seq<RecordView>>,
) -> StepView {
    let text = whole_kana(s);
    match key {
        KeyEvent::Character(ch) => plain_step(typed(s, ch), preedit_of(typed(s, ch))),
        KeyEvent::Space => {
            let flushed = SessionView { romaji: romaji::fresh(), kana: text, ..s };
            if text.len() == 0 {
                plain_step(flushed, ActionView::Noop)
            } else {
                let new = SessionView {
                    state: SessionState::Converting,
                    segments: conversion(content, text, records),
                    active: 0,
                    ..flushed
                };
                plain_step(new, shown(new))
            }
        },
        KeyEvent::Enter => if text.len() == 0 {
            plain_step(idle(), ActionView::Noop)
        } else {
            plain_step(idle(), ActionView::Commit(text))
        },
        KeyEvent::Backspace => if s.romaji.pending.len() > 0 {
            let new = SessionView { romaji: romaji::backed(s.romaji), ..s };
            plain_step(new, preedit_of(new))
        } else if s.kana.len() > 1 {
            let new = SessionView { kana: s.kana.drop_last(), ..s };
            plain_step(new, preedit_of(new))
        } else {
            plain_step(idle(), ActionView::Cancel)
        },
        KeyEvent::Escape => plain_step(idle(), ActionView::Cancel),
        _ => plain_step(s, ActionView::Noop),
    }
}

/// The focused segment with candidate `selected` selected.
pub open spec fn with_selected(s: SessionView, selected: int) -> SessionView {
    let segment = s.segments[s.active];
    SessionView {
        segments: s.segments.update(s.active, SegmentView { selected, ..segment }),
        ..s
    }
}

/// Committing the selected surfaces of all segments, with `next` as what follows.
pub open spec fn commit_step(s: SessionView, next: SessionView) -> StepView {
    StepView {
        session: next,
        action: ActionView::Commit(segmenter::joined_surfaces(s.segments)),
        selections: segmenter::selections_of(s.segments),
    }
}

/// The index after `i` of `n`, where the first follows the last.
pub open spec fn next_of(i: int, n: int) -> int {
    if i + 1 < n {
        i + 1
    } else {
        0
    }
}

/// The index before `i` of `n`, where the last precedes the first.
pub open spec fn previous_of(i: int, n: int) -> int {
    if i == 0 {
        n - 1
    } else {
        i - 1
    }
}

/// A key while candidates are shown.
pub open spec fn converting_step(s: SessionView, key: KeyEvent) -> StepView {
    let segment = s.segments[s.active];
    let count = segment.candidates.len() as int;
    match key {
        KeyEvent::Space | KeyEvent::ArrowDown => {
            let new = with_selected(s, next_of(segment.selected, count));
            plain_step(new, shown(new))
        },
        KeyEvent::ArrowUp => {
            let new = with_selected(s, previous_of(segment.selected, count));
            plain_step(new, shown(new))
        },
        KeyEvent::ArrowRight => {
            let new = SessionView { active: next_of(s.active, s.segments.len() as int), ..s };
            plain_step(new, shown(new))
        },
        KeyEvent::ArrowLeft => {
            let new = SessionView { active: previous_of(s.active, s.segments.len() as int), ..s };
            plain_step(new, shown(new))
        },
        KeyEvent::Enter => commit_step(s, idle()),
        KeyEvent::Number(n) => if 1 <= n <= 9 && n <= count {
            commit_step(with_selected(s, n - 1), idle())
        } else {
            plain_step(s, shown(s))
        },
        KeyEvent::Escape | KeyEvent::Backspace => {
            let new = SessionView {
                state: SessionState::Composing,
                segments: Seq::empty(),
                active: 0,
                ..s
            };
            plain_step(new, preedit_of(new))
        },
        KeyEvent::Character(ch) => commit_step(s, typed(idle(), ch)),
    }
}

/// What a key does.
pub open spec fn step(
    s: SessionView,
    key: KeyEvent,
    content: Content,
    records: Option<Seq<RecordView>>,
) -> StepView {
    match s.state {
        SessionState::Idle => idle_step(s, key),
        SessionState::Composing => composing_step(s, key, content, records),
        SessionState::Converting => converting_step(s, key),
    }
}

/// The (reading, surface) pairs that a key commits.
pub open spec fn committed(s: SessionView, key: KeyEvent) -> Seq<(Seq<char>, Seq<char>)> {
    match s.state {
        SessionState::Converting => converting_step(s, key).selections,
        _ => Seq::empty(),
    }
}

/// Whether the selection history can take part in the key: the scores that it
/// boosts and the counts that it raises can be held.
pub open spec fn learning_fits(
    s: SessionView,
    key: KeyEvent,
    content: Content,
    records: Seq<RecordView>,
) -> bool {
    &&& s.state == SessionState::Composing && key == KeyEvent::Space ==> {
        let segments = plain_segments(content, whole_kana(s));
        forall|i: int|
            0 <= i < segments.len() ==> boosts_fit(#[trigger] segments[i], records)
    }
    &&& learning::room_for(records, committed(s, key))
}

proof fn lemma_same_readings(a: Seq<SegmentView>, b: Seq<SegmentView>)
    requires
        a.len() == b.len(),
        forall|i: int| 0 <= i < a.len() ==> (#[trigger] a[i]).reading == b[i].reading,
    ensures
        segmenter::joined_readings(a) == segmenter::joined_readings(b),
    decreases a.len(),
{
    if a.len() > 0 {
        assert(a[0].reading == b[0].reading);
        assert forall|i: int| 0 <= i < a.drop_first().len() implies (
        #[trigger] a.drop_first()[i]).reading == b.drop_first()[i].reading by {
            assert(a[i + 1].reading == b[i + 1].reading);
        }
        lemma_same_readings(a.drop_first(), b.drop_first());
    }
}

/// A conversion loses nothing: its segments make up the text, and each of them has
/// a candidate, of which the first is selected.
pub proof fn lemma_conversion(
    content: Content,
    text: Seq<char>,
    records: Option<Seq<RecordView>>,
)
    ensures
        segmenter::joined_readings(conversion(content, text, records)) == text,
        conversion(content, text, records).len() == 0 <==> text.len() == 0,
        forall|i: int|
            0 <= i < conversion(content, text, records).len() ==> segment_wf(
                #[trigger] conversion(content, text, records)[i],
            ) && conversion(content, text, records)[i].selected == 0,
{
    let raw = segmenter::segments_of(content, text);
    let plain = plain_segments(content, text);
    let all = conversion(content, text, records);
    segmenter::lemma_segments(content, text);
    assert forall|i: int| 0 <= i < all.len() implies (#[trigger] all[i]).reading == raw[i].reading
        && segment_wf(all[i]) && all[i].selected == 0 by {
        assert(plain[i] == with_kana(raw[i]));
        match records {
            Some(r) => {
                assert(all[i] == with_boosts(plain[i], r));
                candidate::lemma_ranked(
                    plain[i].candidates.map_values(
                        |c: CandidateView| boosted(c, plain[i].reading, r),
                    ),
                );
            },
            None => {},
        }
    }
    lemma_same_readings(all, raw);
}

/// Selecting another candidate keeps the session in order.
pub proof fn lemma_selected_wf(s: SessionView, selected: int)
    requires
        session_wf(s),
        s.state == SessionState::Converting,
        0 <= selected < s.segments[s.active].candidates.len(),
    ensures
        session_wf(with_selected(s, selected)),
{
    let new = with_selected(s, selected);
    assert forall|i: int| 0 <= i < new.segments.len() implies segment_wf(
        #[trigger] new.segments[i],
    ) by {
        assert(segment_wf(s.segments[i]));
    }
    lemma_same_readings(new.segments, s.segments);
}

} // verus!
