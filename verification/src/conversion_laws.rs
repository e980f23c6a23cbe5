//! What converting, choosing and committing give, from what was typed, what the
//! dictionary lists and what the selection history knows.

use crate::candidate;
use crate::candidate::{CandidateSource, CandidateView};
use crate::dictionary::Content;
use crate::ffi;
use crate::kana;
use crate::learning;
use crate::learning::{LearningView, RecordView};
use crate::learning_laws;
use crate::order;
use crate::romaji;
use crate::segmenter;
use crate::segmenter::SegmentView;
use crate::session;
use crate::session::{KeyEvent, SessionState};
use crate::session_laws;
use crate::session_model;
use crate::session_model::{ActionView, SegmentInfoView, SessionView};
use vstd::prelude::*;

verus! {

// ---------------------------------------------------------------------------
// Converting
// ---------------------------------------------------------------------------

/// What is composed at the end of input: the kana, followed by the romaji that is left,
/// where an `n` alone is `ん`, or nothing if it is the second of `nn`.
pub open spec fn composed(s: SessionView) -> Seq<char> {
    s.kana + if s.romaji.pending == seq!['n'] {
        if s.romaji.nn {
            Seq::<char>::empty()
        } else {
            seq!['ん']
        }
    } else {
        s.romaji.pending
    }
}

/// Space converts what is composed, where there is anything. The segments have the
/// readings of the longest matches, one after the other, the first of them is focused,
/// and each has its first candidate selected. Nothing is committed.
pub proof fn lemma_space_segments(
    s: SessionView,
    content: Content,
    records: Option<Seq<RecordView>>,
)
    requires
        session_model::session_wf(s),
        s.state == SessionState::Composing,
    ensures
        ({
            let step = session_model::step(s, KeyEvent::Space, content, records);
            let new = step.session;
            let parts = segmenter::segments_of(content, composed(s));
            &&& new.kana == composed(s)
            &&& new.romaji.pending.len() == 0
            &&& !new.romaji.nn
            &&& new.active == 0
            &&& step.selections.len() == 0
            &&& if composed(s).len() == 0 {
                &&& new.state == SessionState::Composing
                &&& new.segments.len() == 0
                &&& step.action == ActionView::Noop
            } else {
                &&& new.state == SessionState::Converting
                &&& step.action is ShowCandidates
                &&& new.segments.len() == parts.len()
                &&& forall|i: int|
                    0 <= i < parts.len() ==> (#[trigger] new.segments[i]).reading
                        == parts[i].reading && new.segments[i].selected == 0
            }
        }),
{
    session_model::lemma_conversion(content, composed(s), records);
}

/// Without a selection history, a segment offers what the dictionary lists for its
/// reading, in that order, or the character itself where nothing is listed. Behind that
/// stand, with no score, the reading in katakana if it is not offered yet, and the
/// reading itself if neither of the two was.
pub proof fn lemma_offered(s: SessionView, content: Content, i: int)
    requires
        session_model::session_wf(s),
        s.state == SessionState::Composing,
        composed(s).len() > 0,
        0 <= i < session_model::step(s, KeyEvent::Space, content, None).session.segments.len(),
    ensures
        ({
            let segment = session_model::step(
                s,
                KeyEvent::Space,
                content,
                None,
            ).session.segments[i];
            let reading = segment.reading;
            let form = kana::katakana(reading);
            let listed = if content(reading).len() > 0 {
                content(reading)
            } else {
                seq![
                    CandidateView {
                        surface: reading,
                        reading,
                        score: 0,
                        source: CandidateSource::System,
                    },
                ]
            };
            let offers = |surface: Seq<char>|
                exists|k: int| 0 <= k < listed.len() && (#[trigger] listed[k]).surface == surface;
            let last = |surface: Seq<char>|
                CandidateView { surface, reading, score: 0, source: CandidateSource::System };
            &&& content(reading).len() == 0 ==> reading.len() == 1
            &&& segment.candidates == if offers(form) {
                listed
            } else if offers(reading) || form == reading {
                listed + seq![last(form)]
            } else {
                listed + seq![last(form), last(reading)]
            }
        }),
{
    let text = composed(s);
    let raw = segmenter::segments_of(content, text);
    let all = session_model::conversion(content, text, None);
    session_model::lemma_conversion(content, text, None);
    segmenter::lemma_segments_greedy(content, text, i);
    assert(all[i] == session_model::with_kana(raw[i]));
    let list = raw[i].candidates;
    let reading = raw[i].reading;
    if content(reading).len() == 0 {
        assert(reading =~= seq![reading[0]]);
    }
    let form = kana::katakana(reading);
    let a = session_model::kana_candidate(reading, form);
    let b = session_model::kana_candidate(reading, reading);
    assert(list.push(a) =~= list + seq![a]);
    assert(list.push(a).push(b) =~= list + seq![a, b]);
}

/// The selection history ranks every segment. Where it is there, each segment offers
/// the same candidates as without it; a candidate that was selected for the reading of
/// the segment has ten more for each time, up to 200, and counts as learnt. No candidate
/// has a lower score than one behind it, and equal ones stand in the order of their
/// surfaces.
pub proof fn lemma_history_ranks_every_segment(
    s: SessionView,
    content: Content,
    records: Seq<RecordView>,
    i: int,
)
    requires
        session_model::session_wf(s),
        s.state == SessionState::Composing,
        composed(s).len() > 0,
        0 <= i < session_model::step(
            s,
            KeyEvent::Space,
            content,
            Some(records),
        ).session.segments.len(),
    ensures
        ({
            let plain = session_model::step(s, KeyEvent::Space, content, None).session.segments[i];
            let new = session_model::step(
                s,
                KeyEvent::Space,
                content,
                Some(records),
            ).session.segments[i];
            &&& new.reading == plain.reading
            &&& new.candidates.to_multiset() == plain.candidates.map_values(
                |c: CandidateView|
                    {
                        let times = learning::times_selected(records, plain.reading, c.surface);
                        CandidateView {
                            surface: c.surface,
                            reading: c.reading,
                            score: c.score + if times <= 20 {
                                times * 10
                            } else {
                                200
                            },
                            source: if times > 0 {
                                CandidateSource::Learning
                            } else {
                                c.source
                            },
                        }
                    },
            ).to_multiset()
            &&& forall|j: int, k: int|
                0 <= j < k < new.candidates.len() ==> {
                    let a = #[trigger] new.candidates[j];
                    let b = #[trigger] new.candidates[k];
                    &&& a.score >= b.score
                    &&& a.score == b.score ==> !order::text_before(b.surface, a.surface)
                }
        }),
{
    let text = composed(s);
    let plain = session_model::plain_segments(content, text);
    let all = session_model::conversion(content, text, Some(records));
    assert(all[i] == session_model::with_boosts(plain[i], records));
    let segment = plain[i];
    let mapped = segment.candidates.map_values(
        |c: CandidateView| session_model::boosted(c, segment.reading, records),
    );
    candidate::lemma_ranked(mapped);
    candidate::lemma_ranked_ties(mapped);
    let stated = segment.candidates.map_values(
        |c: CandidateView|
            {
                let times = learning::times_selected(records, segment.reading, c.surface);
                CandidateView {
                    surface: c.surface,
                    reading: c.reading,
                    score: c.score + if times <= 20 {
                        times * 10
                    } else {
                        200
                    },
                    source: if times > 0 {
                        CandidateSource::Learning
                    } else {
                        c.source
                    },
                }
            },
    );
    assert(mapped =~= stated);
}

/// So in every segment, each candidate that the dictionary lists for its reading is
/// offered with its score and its boost, and the first candidate has no lower score.
pub proof fn lemma_listed_is_offered(
    s: SessionView,
    content: Content,
    records: Seq<RecordView>,
    i: int,
    k: int,
)
    requires
        session_model::session_wf(s),
        s.state == SessionState::Composing,
        composed(s).len() > 0,
        0 <= i < session_model::step(
            s,
            KeyEvent::Space,
            content,
            Some(records),
        ).session.segments.len(),
        0 <= k < content(
            session_model::step(
                s,
                KeyEvent::Space,
                content,
                Some(records),
            ).session.segments[i].reading,
        ).len(),
    ensures
        ({
            let segment = session_model::step(
                s,
                KeyEvent::Space,
                content,
                Some(records),
            ).session.segments[i];
            let c = content(segment.reading)[k];
            let times = learning::times_selected(records, segment.reading, c.surface);
            let score = c.score + if times <= 20 {
                times * 10
            } else {
                200
            };
            &&& segment.candidates[0].score >= score
            &&& exists|j: int|
                0 <= j < segment.candidates.len() && (#[trigger] segment.candidates[j]).surface
                    == c.surface && segment.candidates[j].score == score
        }),
{
    let text = composed(s);
    let raw = segmenter::segments_of(content, text);
    let plain = session_model::plain_segments(content, text);
    let all = session_model::conversion(content, text, Some(records));
    segmenter::lemma_segments_greedy(content, text, i);
    assert(all[i] == session_model::with_boosts(plain[i], records));
    assert(plain[i] == session_model::with_kana(raw[i]));
    session_laws::lemma_katakana_offered(raw[i]);
    let c = content(raw[i].reading)[k];
    assert(raw[i].candidates[k] == c);
    assert(plain[i].candidates[k] == c);
    session_laws::lemma_history_ranks(plain[i], records, k);
    let mapped = plain[i].candidates.map_values(
        |c: CandidateView| session_model::boosted(c, plain[i].reading, records),
    );
    let new = all[i].candidates;
    let own = session_model::boosted(c, plain[i].reading, records);
    assert(mapped[k] == own);
    assert(mapped.contains(own));
    order::lemma_arranged_member(mapped, candidate::rank_order(), own);
    let j = choose|j: int| 0 <= j < new.len() && new[j] == own;
    assert(new[j].surface == c.surface);
}

// ---------------------------------------------------------------------------
// Committing
// ---------------------------------------------------------------------------

/// The surface of the candidate that is selected in segment `i`.
pub open spec fn chosen(s: SessionView, i: int) -> Seq<char> {
    s.segments[i].candidates[s.segments[i].selected].surface
}

proof fn lemma_joined_is_flat(segments: Seq<SegmentView>)
    ensures
        segmenter::joined_surfaces(segments) == segments.map_values(
            |g: SegmentView| segmenter::surface_of(g),
        ).flatten(),
    decreases segments.len(),
{
    let all = segments.map_values(|g: SegmentView| segmenter::surface_of(g));
    if segments.len() == 0 {
        assert(all =~= Seq::<Seq<char>>::empty());
    } else {
        let rest = segments.drop_last();
        lemma_joined_is_flat(rest);
        let head = rest.map_values(|g: SegmentView| segmenter::surface_of(g));
        assert(head.push(segmenter::surface_of(segments.last())) =~= all);
        head.lemma_flatten_push(segmenter::surface_of(segments.last()));
    }
}

/// Enter, or a character typed on, commits exactly what is selected: the text is the
/// selected surfaces of all segments, one after the other, and the pairs that count as
/// selected are their readings with those surfaces. Nothing is left after Enter; a
/// character starts the next input as it does from nothing.
pub proof fn lemma_commits_what_is_selected(
    s: SessionView,
    key: KeyEvent,
    content: Content,
    records: Option<Seq<RecordView>>,
)
    requires
        session_model::session_wf(s),
        s.state == SessionState::Converting,
        key == KeyEvent::Enter || key is Character,
    ensures
        ({
            let step = session_model::step(s, key, content, records);
            let n = s.segments.len();
            &&& step.action == ActionView::Commit(Seq::new(n, |i: int| chosen(s, i)).flatten())
            &&& step.selections == Seq::new(n, |i: int| (s.segments[i].reading, chosen(s, i)))
            &&& key == KeyEvent::Enter ==> step.session == session_model::idle()
            &&& key matches KeyEvent::Character(ch) ==> step.session == session_model::step(
                session_model::idle(),
                KeyEvent::Character(ch),
                content,
                records,
            ).session
        }),
{
    lemma_joined_is_flat(s.segments);
    let n = s.segments.len();
    let surfaces = s.segments.map_values(|g: SegmentView| segmenter::surface_of(g));
    assert forall|i: int| 0 <= i < n implies segmenter::surface_of(#[trigger] s.segments[i])
        == chosen(s, i) by {
        assert(session_model::segment_wf(s.segments[i]));
    }
    assert(surfaces =~= Seq::new(n, |i: int| chosen(s, i)));
    assert(segmenter::selections_of(s.segments) =~= Seq::new(
        n,
        |i: int| (s.segments[i].reading, chosen(s, i)),
    ));
}

/// A number commits the candidate of that number for the focused segment, and what is
/// selected for the others. A number that no candidate has changes nothing.
pub proof fn lemma_number_chooses(
    s: SessionView,
    n: u8,
    content: Content,
    records: Option<Seq<RecordView>>,
)
    requires
        session_model::session_wf(s),
        s.state == SessionState::Converting,
    ensures
        ({
            let step = session_model::step(s, KeyEvent::Number(n), content, records);
            let m = s.segments.len();
            let surface = |i: int|
                if i == s.active {
                    s.segments[i].candidates[n - 1].surface
                } else {
                    chosen(s, i)
                };
            if 1 <= n <= 9 && n <= s.segments[s.active].candidates.len() {
                &&& step.action == ActionView::Commit(Seq::new(m, surface).flatten())
                &&& step.selections == Seq::new(
                    m,
                    |i: int| (s.segments[i].reading, surface(i)),
                )
                &&& step.session == session_model::idle()
            } else {
                &&& step.session == s
                &&& step.action is ShowCandidates
                &&& step.selections.len() == 0
            }
        }),
{
    let m = s.segments.len();
    let surface = |i: int|
        if i == s.active {
            s.segments[i].candidates[n - 1].surface
        } else {
            chosen(s, i)
        };
    if 1 <= n <= 9 && n <= s.segments[s.active].candidates.len() {
        let t = session_model::with_selected(s, n - 1);
        lemma_joined_is_flat(t.segments);
        let surfaces = t.segments.map_values(|g: SegmentView| segmenter::surface_of(g));
        assert forall|i: int| 0 <= i < m implies segmenter::surface_of(#[trigger] t.segments[i])
            == surface(i) by {
            assert(session_model::segment_wf(s.segments[i]));
        }
        assert(surfaces =~= Seq::new(m, surface));
        assert(segmenter::selections_of(t.segments) =~= Seq::new(
            m,
            |i: int| (s.segments[i].reading, surface(i)),
        ));
    }
}

/// What a key commits can be told beforehand, whatever the dictionary and the history.
pub proof fn lemma_committed(
    s: SessionView,
    key: KeyEvent,
    content: Content,
    records: Option<Seq<RecordView>>,
)
    requires
        session_model::session_wf(s),
    ensures
        session_model::committed(s, key) == session_model::step(s, key, content, records).selections,
        s.state != SessionState::Converting ==> session_model::committed(s, key).len() == 0,
{
    assert(session_model::committed(s, key) =~= session_model::step(
        s,
        key,
        content,
        records,
    ).selections);
}

// ---------------------------------------------------------------------------
// Showing
// ---------------------------------------------------------------------------

/// What is shown is the session after the key: the selected surface of every segment,
/// the candidates and the selection of the focused one, and the kana being converted;
/// or the kana and the romaji that are being composed. What was shown last is what
/// Enter commits.
pub proof fn lemma_shows_the_session(
    s: SessionView,
    key: KeyEvent,
    content: Content,
    records: Option<Seq<RecordView>>,
)
    requires
        session_model::session_wf(s),
    ensures
        ({
            let step = session_model::step(s, key, content, records);
            let new = step.session;
            let next = session_model::step(new, KeyEvent::Enter, content, records);
            match step.action {
                ActionView::ShowCandidates {
                    segments,
                    active_segment,
                    candidates,
                    selected,
                    preedit,
                } => {
                    &&& segments.len() == new.segments.len()
                    &&& forall|i: int|
                        0 <= i < segments.len() ==> (#[trigger] segments[i]).surface == chosen(
                            new,
                            i,
                        ) && segments[i].is_active == (i == new.active)
                    &&& active_segment == new.active
                    &&& candidates == new.segments[new.active].candidates
                    &&& selected == new.segments[new.active].selected
                    &&& preedit == new.kana
                    &&& next.action == ActionView::Commit(
                        segments.map_values(|info: SegmentInfoView| info.surface).flatten(),
                    )
                },
                ActionView::UpdatePreedit { text, pending_romaji } => {
                    &&& text == new.kana
                    &&& pending_romaji == new.romaji.pending
                },
                _ => true,
            }
        }),
{
    let step = session_model::step(s, key, content, records);
    let new = step.session;
    session_laws::lemma_step_wf(s, key, content, records);
    session_laws::lemma_phases(s, key, content, records);
    if let ActionView::ShowCandidates { segments, .. } = step.action {
        lemma_commits_what_is_selected(new, KeyEvent::Enter, content, records);
        assert forall|i: int| 0 <= i < segments.len() implies (#[trigger] segments[i]).surface
            == chosen(new, i) by {
            assert(session_model::segment_wf(new.segments[i]));
        }
        assert(segments.map_values(|info: SegmentInfoView| info.surface) =~= Seq::new(
            new.segments.len(),
            |i: int| chosen(new, i),
        ));
    }
}

// ---------------------------------------------------------------------------
// Composing
// ---------------------------------------------------------------------------

/// A character, typed while nothing is converted, goes through the romaji conversion:
/// what it confirms joins the kana, and the rest stays as romaji.
pub proof fn lemma_character(
    s: SessionView,
    ch: char,
    content: Content,
    records: Option<Seq<RecordView>>,
)
    requires
        session_model::session_wf(s),
        s.state != SessionState::Converting,
    ensures
        ({
            let step = session_model::step(s, KeyEvent::Character(ch), content, records);
            let fed = romaji::fed(s.romaji, ch);
            &&& step.session.state == SessionState::Composing
            &&& step.session.kana == s.kana + fed.confirmed
            &&& step.session.romaji == fed.state
            &&& step.action is UpdatePreedit
        }),
{
}

/// Enter commits what is composed, or nothing where there is nothing, and ends the
/// input. Escape discards it. Backspace takes away the last romaji character, or else
/// the last kana, and ends the input when that was the last. Any other key but Space
/// does nothing.
pub proof fn lemma_composing_keys(
    s: SessionView,
    key: KeyEvent,
    content: Content,
    records: Option<Seq<RecordView>>,
)
    requires
        session_model::session_wf(s),
        s.state == SessionState::Composing,
        !(key is Character),
        key != KeyEvent::Space,
    ensures
        ({
            let step = session_model::step(s, key, content, records);
            let new = step.session;
            let pending = s.romaji.pending;
            &&& step.selections.len() == 0
            &&& match key {
                KeyEvent::Enter => {
                    &&& new == session_model::idle()
                    &&& step.action == if composed(s).len() > 0 {
                        ActionView::Commit(composed(s))
                    } else {
                        ActionView::Noop
                    }
                },
                KeyEvent::Escape => new == session_model::idle() && step.action
                    == ActionView::Cancel,
                KeyEvent::Backspace => if pending.len() > 0 {
                    &&& new.state == SessionState::Composing
                    &&& new.kana == s.kana
                    &&& new.romaji.pending == pending.take(pending.len() - 1)
                    &&& new.romaji.nn == (s.romaji.nn && pending.len() > 1)
                    &&& step.action is UpdatePreedit
                } else if s.kana.len() > 1 {
                    &&& new.state == SessionState::Composing
                    &&& new.kana == s.kana.take(s.kana.len() - 1)
                    &&& new.romaji == s.romaji
                    &&& step.action is UpdatePreedit
                } else {
                    new == session_model::idle() && step.action == ActionView::Cancel
                },
                _ => new == s && step.action == ActionView::Noop,
            }
        }),
{
}

/// The session with nothing typed holds nothing.
pub proof fn lemma_idle()
    ensures
        ({
            let s = session_model::idle();
            &&& s.state == SessionState::Idle
            &&& s.romaji.pending.len() == 0
            &&& !s.romaji.nn
            &&& s.kana.len() == 0
            &&& s.segments.len() == 0
            &&& s.active == 0
        }),
{
}

// ---------------------------------------------------------------------------
// The selection history on disk and in time
// ---------------------------------------------------------------------------

/// What is recorded is recorded at the time that the clock read: after a list of pairs
/// was recorded, each of them was last used at a reading of the clock.
pub proof fn lemma_records_at_clock_time(
    before: LearningView,
    pairs: Seq<(Seq<char>, Seq<char>)>,
    after: LearningView,
    k: int,
)
    requires
        learning::room_for(before.records, pairs),
        session::learns(before, pairs, after),
        0 <= k < pairs.len(),
    ensures
        learning::learned(after.records, pairs[k].0, pairs[k].1) matches Some(entry)
            && learning::clock_reads(entry.last_used),
{
    let times = choose|times: Seq<u64>|
        learning::read_from_clock(times, pairs.len()) && after == #[trigger] learning::after_records(
            before,
            pairs,
            times,
        );
    let (reading, surface) = pairs[k];
    let last = lemma_last_place(pairs, k);
    learning_laws::lemma_selections(before, pairs, times, reading, surface);
    assert(pairs[last] == (reading, surface));
    assert(learning::clock_reads(times[last]));
}

proof fn lemma_last_place(pairs: Seq<(Seq<char>, Seq<char>)>, k: int) -> (last: int)
    requires
        0 <= k < pairs.len(),
    ensures
        k <= last < pairs.len(),
        pairs[last] == pairs[k],
        forall|j: int| last < j < pairs.len() ==> #[trigger] pairs[j] != pairs[k],
    decreases pairs.len() - k,
{
    if exists|j: int| k < j < pairs.len() && #[trigger] pairs[j] == pairs[k] {
        let j = choose|j: int| k < j < pairs.len() && #[trigger] pairs[j] == pairs[k];
        lemma_last_place(pairs, j)
    } else {
        k
    }
}

/// A context knows the history of its file as it stands at the time that the clock read,
/// and an empty one where there is no file. Nothing of it is unsaved.
pub proof fn lemma_context_history(text: Option<&str>, store: LearningView)
    requires
        ffi::loaded_from(text, store),
    ensures
        !store.dirty,
        match text {
            Some(t) => exists|now: u64|
                learning::clock_reads(now) && store.records == #[trigger] learning::records_of_text(
                    t@,
                    now,
                ),
            None => store.records.len() == 0,
        },
{
    if let Some(t) = text {
        let now = choose|now: u64|
            learning::clock_reads(now) && store == learning::saved(
                #[trigger] learning::records_of_text(t@, now),
            );
        assert(store.records == learning::records_of_text(t@, now));
    }
}

} // verus!
