//! What holds of every input session.

use crate::candidate;
use crate::candidate::CandidateView;
use crate::dictionary;
use crate::dictionary::Content;
use crate::kana;
use crate::learning;
use crate::learning::{LearningView, RecordView};
use crate::order;
use crate::romaji;
use crate::segmenter;
use crate::segmenter::SegmentView;
use crate::session;
use crate::session::{KeyEvent, SessionState};
use crate::session_model;
use crate::session_model::{ActionView, SessionView};
use crate::user_dict;
use vstd::arithmetic::div_mod;
use vstd::prelude::*;

verus! {

/// Every key keeps the invariant of a session.
pub proof fn lemma_step_wf(
    s: SessionView,
    key: KeyEvent,
    content: Content,
    records: Option<Seq<RecordView>>,
)
    requires
        session_model::session_wf(s),
    ensures
        session_model::session_wf(session_model::step(s, key, content, records).session),
{
    match s.state {
        SessionState::Idle => {},
        SessionState::Composing => {
            session_model::lemma_conversion(content, session_model::whole_kana(s), records);
        },
        SessionState::Converting => {
            let segment = s.segments[s.active];
            assert(session_model::segment_wf(segment));
            let count = segment.candidates.len() as int;
            session_model::lemma_selected_wf(
                s,
                session_model::next_of(segment.selected, count),
            );
            session_model::lemma_selected_wf(
                s,
                session_model::previous_of(segment.selected, count),
            );
        },
    }
}

/// While nothing is typed, a key that is not a character does nothing.
pub proof fn lemma_idle_ignores(
    key: KeyEvent,
    content: Content,
    records: Option<Seq<RecordView>>,
)
    requires
        !(key is Character),
    ensures
        session_model::step(session_model::idle(), key, content, records)
            == session_model::plain_step(session_model::idle(), ActionView::Noop),
{
}

/// Text is inserted or discarded only at the end of an input: after a commit or a
/// cancellation the session is idle, unless a character was typed during the
/// conversion, which then starts the next input.
pub proof fn lemma_input_ends(
    s: SessionView,
    key: KeyEvent,
    content: Content,
    records: Option<Seq<RecordView>>,
)
    requires
        session_model::session_wf(s),
    ensures
        ({
            let step = session_model::step(s, key, content, records);
            &&& step.action is Commit || step.action is Cancel ==> step.session
                == session_model::idle() || (key matches KeyEvent::Character(ch)
                && s.state == SessionState::Converting && step.session == session_model::typed(
                session_model::idle(),
                ch,
            ))
        }),
{
}

/// What an action says of the phase: an updated preedit is being composed,
/// candidates are shown during a conversion, nothing is left after a cancellation
/// or a commit (but for a character typed during the conversion, which is then
/// composed), and otherwise the phase stays, unless Enter ends an input without
/// kana. Only a character starts an input, and only Space a conversion.
pub proof fn lemma_phases(
    s: SessionView,
    key: KeyEvent,
    content: Content,
    records: Option<Seq<RecordView>>,
)
    requires
        session_model::session_wf(s),
    ensures
        ({
            let step = session_model::step(s, key, content, records);
            let after = step.session.state;
            &&& match step.action {
                ActionView::UpdatePreedit { .. } => after == SessionState::Composing,
                ActionView::ShowCandidates { .. } => after == SessionState::Converting,
                ActionView::Cancel => after == SessionState::Idle,
                ActionView::Commit(_) => if s.state == SessionState::Converting
                    && key is Character {
                    after == SessionState::Composing
                } else {
                    after == SessionState::Idle
                },
                ActionView::Noop => after == s.state || (s.state == SessionState::Composing && key
                    == KeyEvent::Enter && session_model::whole_kana(s).len() == 0 && after
                    == SessionState::Idle),
            }
            &&& s.state == SessionState::Idle && after != SessionState::Idle ==> key is Character
            &&& s.state != SessionState::Converting && after == SessionState::Converting
                ==> s.state == SessionState::Composing && key == KeyEvent::Space
        }),
{
}

// ---------------------------------------------------------------------------
// Typing
// ---------------------------------------------------------------------------

/// A session after the characters of `text` have been typed.
pub open spec fn after_typing(
    s: SessionView,
    text: Seq<char>,
    content: Content,
    records: Option<Seq<RecordView>>,
) -> SessionView
    decreases text.len(),
{
    if text.len() == 0 {
        s
    } else {
        session_model::step(
            after_typing(s, text.drop_last(), content, records),
            KeyEvent::Character(text.last()),
            content,
            records,
        ).session
    }
}

/// Typing into an idle session converts the romaji as a whole text is converted.
pub proof fn lemma_typing(
    text: Seq<char>,
    content: Content,
    records: Option<Seq<RecordView>>,
)
    ensures
        text.len() > 0 ==> after_typing(session_model::idle(), text, content, records) == (
        SessionView {
            state: SessionState::Composing,
            romaji: romaji::fed_all(romaji::fresh(), text).state,
            kana: romaji::fed_all(romaji::fresh(), text).confirmed,
            segments: Seq::empty(),
            active: 0,
        }),
    decreases text.len(),
{
    if text.len() > 0 {
        let rest = text.drop_last();
        lemma_typing(rest, content, records);
        let before = romaji::fed_all(romaji::fresh(), rest);
        let step = romaji::fed(before.state, text.last());
        if rest.len() == 0 {
            assert(before.confirmed + step.confirmed =~= step.confirmed);
            assert(Seq::<char>::empty() + step.confirmed =~= step.confirmed);
        }
    }
}

/// Typing romaji and pressing Enter commits its kana, the same as converting the
/// romaji at once. Nothing is committed where there are no kana.
pub proof fn lemma_typing_commits(
    text: Seq<char>,
    content: Content,
    records: Option<Seq<RecordView>>,
)
    requires
        text.len() > 0,
    ensures
        session_model::step(
            after_typing(session_model::idle(), text, content, records),
            KeyEvent::Enter,
            content,
            records,
        ) == session_model::plain_step(
            session_model::idle(),
            if romaji::converted(text).len() > 0 {
                ActionView::Commit(romaji::converted(text))
            } else {
                ActionView::Noop
            },
        ),
{
    lemma_typing(text, content, records);
}

// ---------------------------------------------------------------------------
// Converting
// ---------------------------------------------------------------------------

/// Space converts whatever kana there are, and Escape or Backspace then brings
/// them back.
pub proof fn lemma_conversion_cancelled(
    s: SessionView,
    key: KeyEvent,
    content: Content,
    records: Option<Seq<RecordView>>,
)
    requires
        session_model::session_wf(s),
        s.state == SessionState::Composing,
        session_model::whole_kana(s).len() > 0,
        key == KeyEvent::Escape || key == KeyEvent::Backspace,
    ensures
        ({
            let converting = session_model::step(s, KeyEvent::Space, content, records);
            let back = session_model::step(converting.session, key, content, records);
            let restored = SessionView {
                romaji: romaji::fresh(),
                kana: session_model::whole_kana(s),
                ..s
            };
            &&& converting.session.state == SessionState::Converting
            &&& converting.action is ShowCandidates
            &&& back == session_model::plain_step(restored, session_model::preedit_of(restored))
        }),
{
    session_model::lemma_conversion(content, session_model::whole_kana(s), records);
}

/// Moving down and up again, or up and down, leaves the session as it was, and so
/// does moving right and left, or left and right.
pub proof fn lemma_moves_undo(
    s: SessionView,
    content: Content,
    records: Option<Seq<RecordView>>,
)
    requires
        session_model::session_wf(s),
        s.state == SessionState::Converting,
    ensures
        ({
            let after = |t: SessionView, key: KeyEvent|
                session_model::step(t, key, content, records).session;
            &&& after(after(s, KeyEvent::ArrowDown), KeyEvent::ArrowUp) == s
            &&& after(after(s, KeyEvent::ArrowUp), KeyEvent::ArrowDown) == s
            &&& after(after(s, KeyEvent::Space), KeyEvent::ArrowUp) == s
            &&& after(after(s, KeyEvent::ArrowRight), KeyEvent::ArrowLeft) == s
            &&& after(after(s, KeyEvent::ArrowLeft), KeyEvent::ArrowRight) == s
        }),
{
    let segment = s.segments[s.active];
    assert(session_model::segment_wf(segment));
    let count = segment.candidates.len() as int;
    let down = session_model::with_selected(s, session_model::next_of(segment.selected, count));
    let up = session_model::with_selected(s, session_model::previous_of(segment.selected, count));
    assert(session_model::with_selected(down, segment.selected).segments =~= s.segments);
    assert(session_model::with_selected(up, segment.selected).segments =~= s.segments);
}

/// A session after a key has been pressed `n` times.
pub open spec fn after_presses(
    s: SessionView,
    key: KeyEvent,
    n: int,
    content: Content,
    records: Option<Seq<RecordView>>,
) -> SessionView
    decreases n,
{
    if n <= 0 {
        s
    } else {
        session_model::step(
            after_presses(s, key, n - 1, content, records),
            key,
            content,
            records,
        ).session
    }
}

proof fn lemma_downs(
    s: SessionView,
    key: KeyEvent,
    n: int,
    content: Content,
    records: Option<Seq<RecordView>>,
)
    requires
        session_model::session_wf(s),
        s.state == SessionState::Converting,
        key == KeyEvent::Space || key == KeyEvent::ArrowDown,
        0 <= n <= s.segments[s.active].candidates.len(),
    ensures
        ({
            let segment = s.segments[s.active];
            let count = segment.candidates.len() as int;
            let selected = if segment.selected + n < count {
                segment.selected + n
            } else {
                segment.selected + n - count
            };
            after_presses(s, key, n, content, records) == session_model::with_selected(s, selected)
        }),
    decreases n,
{
    let segment = s.segments[s.active];
    assert(session_model::segment_wf(segment));
    if n == 0 {
        assert(s.segments.update(s.active, segment) =~= s.segments);
    } else {
        lemma_downs(s, key, n - 1, content, records);
        let before = after_presses(s, key, n - 1, content, records);
        let count = segment.candidates.len() as int;
        let selected = session_model::next_of(before.segments[s.active].selected, count);
        assert(session_model::with_selected(before, selected).segments
            =~= session_model::with_selected(s, selected).segments);
    }
}

/// Pressing Space, or moving down, once for each candidate comes back to the same
/// session, and shows it again.
pub proof fn lemma_spaces_wrap(
    s: SessionView,
    key: KeyEvent,
    content: Content,
    records: Option<Seq<RecordView>>,
)
    requires
        session_model::session_wf(s),
        s.state == SessionState::Converting,
        key == KeyEvent::Space || key == KeyEvent::ArrowDown,
    ensures
        ({
            let n = s.segments[s.active].candidates.len() as int;
            let last = after_presses(s, key, n - 1, content, records);
            &&& after_presses(s, key, n, content, records) == s
            &&& session_model::step(last, key, content, records).action == session_model::shown(s)
        }),
{
    let segment = s.segments[s.active];
    let n = segment.candidates.len() as int;
    assert(session_model::segment_wf(segment));
    lemma_downs(s, key, n, content, records);
    lemma_downs(s, key, n - 1, content, records);
    assert(s.segments.update(s.active, segment) =~= s.segments);
}

proof fn lemma_rights(
    s: SessionView,
    n: int,
    content: Content,
    records: Option<Seq<RecordView>>,
)
    requires
        session_model::session_wf(s),
        s.state == SessionState::Converting,
        0 <= n <= s.segments.len(),
    ensures
        ({
            let count = s.segments.len() as int;
            let active = if s.active + n < count {
                s.active + n
            } else {
                s.active + n - count
            };
            after_presses(s, KeyEvent::ArrowRight, n, content, records) == (SessionView {
                active,
                ..s
            })
        }),
    decreases n,
{
    if n > 0 {
        lemma_rights(s, n - 1, content, records);
    }
}

/// Moving right once for each segment comes back to the same session, and shows it
/// again.
pub proof fn lemma_rights_wrap(
    s: SessionView,
    content: Content,
    records: Option<Seq<RecordView>>,
)
    requires
        session_model::session_wf(s),
        s.state == SessionState::Converting,
    ensures
        ({
            let m = s.segments.len() as int;
            let last = after_presses(s, KeyEvent::ArrowRight, m - 1, content, records);
            &&& after_presses(s, KeyEvent::ArrowRight, m, content, records) == s
            &&& session_model::step(last, KeyEvent::ArrowRight, content, records).action
                == session_model::shown(s)
        }),
{
    let m = s.segments.len() as int;
    lemma_rights(s, m, content, records);
    lemma_rights(s, m - 1, content, records);
}

/// Whether a key moves the selection or the focus during a conversion.
pub open spec fn is_move(key: KeyEvent) -> bool {
    ||| key == KeyEvent::Space
    ||| key == KeyEvent::ArrowDown
    ||| key == KeyEvent::ArrowUp
    ||| key == KeyEvent::ArrowRight
    ||| key == KeyEvent::ArrowLeft
}

/// What a move does, counted in circles: Space and down go to the next candidate of
/// the focused segment, up to the previous one, right to the next segment, left to
/// the previous one. The result is shown, and nothing is committed.
pub proof fn lemma_move(
    s: SessionView,
    key: KeyEvent,
    content: Content,
    records: Option<Seq<RecordView>>,
)
    requires
        session_model::session_wf(s),
        s.state == SessionState::Converting,
        is_move(key),
    ensures
        ({
            let step = session_model::step(s, key, content, records);
            let new = step.session;
            let n = s.segments[s.active].candidates.len() as int;
            let m = s.segments.len() as int;
            let i = s.segments[s.active].selected;
            &&& step == session_model::plain_step(new, session_model::shown(new))
            &&& key == KeyEvent::Space || key == KeyEvent::ArrowDown
                ==> new.segments[s.active].selected == (i + 1) % n
            &&& key == KeyEvent::ArrowUp ==> new.segments[s.active].selected == (i + n - 1) % n
            &&& key == KeyEvent::ArrowRight ==> new.active == (s.active + 1) % m
            &&& key == KeyEvent::ArrowLeft ==> new.active == (s.active + m - 1) % m
        }),
{
    let segment = s.segments[s.active];
    assert(session_model::segment_wf(segment));
    lemma_circle(segment.selected, segment.candidates.len() as int);
    lemma_circle(s.active, s.segments.len() as int);
}

proof fn lemma_circle(i: int, n: int)
    requires
        0 <= i < n,
    ensures
        session_model::next_of(i, n) == (i + 1) % n,
        session_model::previous_of(i, n) == (i + n - 1) % n,
{
    if i + 1 < n {
        div_mod::lemma_small_mod((i + 1) as nat, n as nat);
    } else {
        div_mod::lemma_mod_self_0(n);
    }
    if i == 0 {
        div_mod::lemma_small_mod((n - 1) as nat, n as nat);
    } else {
        div_mod::lemma_mod_add_multiples_vanish(i - 1, n);
        div_mod::lemma_small_mod((i - 1) as nat, n as nat);
    }
}

/// What a move leaves alone: the conversion goes on with the same kana, segments,
/// readings and candidates. Space, up and down touch only the selection of the
/// focused segment; left and right touch no selection at all.
pub proof fn lemma_move_keeps(
    s: SessionView,
    key: KeyEvent,
    content: Content,
    records: Option<Seq<RecordView>>,
)
    requires
        session_model::session_wf(s),
        s.state == SessionState::Converting,
        is_move(key),
    ensures
        ({
            let new = session_model::step(s, key, content, records).session;
            &&& new.state == SessionState::Converting
            &&& new.kana == s.kana
            &&& new.romaji == s.romaji
            &&& new.segments.len() == s.segments.len()
            &&& forall|i: int|
                0 <= i < s.segments.len() ==> (#[trigger] new.segments[i]).reading
                    == s.segments[i].reading && new.segments[i].candidates
                    == s.segments[i].candidates
            &&& forall|i: int|
                0 <= i < s.segments.len() && i != s.active ==> #[trigger] new.segments[i]
                    == s.segments[i]
            &&& if key == KeyEvent::ArrowRight || key == KeyEvent::ArrowLeft {
                new.segments == s.segments
            } else {
                new.active == s.active
            }
        }),
{
}

/// A session after a list of keys, each with what the selection history knows then.
pub open spec fn after_keys(
    s: SessionView,
    keys: Seq<KeyEvent>,
    content: Content,
    histories: Seq<Option<Seq<RecordView>>>,
) -> SessionView
    decreases keys.len(),
{
    if keys.len() == 0 {
        s
    } else {
        session_model::step(
            after_keys(s, keys.drop_last(), content, histories),
            keys.last(),
            content,
            histories[keys.len() - 1],
        ).session
    }
}

proof fn lemma_moves_keep_kana(
    s: SessionView,
    keys: Seq<KeyEvent>,
    content: Content,
    histories: Seq<Option<Seq<RecordView>>>,
)
    requires
        session_model::session_wf(s),
        s.state == SessionState::Converting,
        forall|i: int| 0 <= i < keys.len() ==> is_move(#[trigger] keys[i]),
    ensures
        ({
            let new = after_keys(s, keys, content, histories);
            &&& session_model::session_wf(new)
            &&& new.state == SessionState::Converting
            &&& new.kana == s.kana
        }),
    decreases keys.len(),
{
    if keys.len() > 0 {
        let rest = keys.drop_last();
        assert forall|i: int| 0 <= i < rest.len() implies is_move(#[trigger] rest[i]) by {
            assert(rest[i] == keys[i]);
        }
        lemma_moves_keep_kana(s, rest, content, histories);
        let before = after_keys(s, rest, content, histories);
        assert(is_move(keys[keys.len() - 1]));
        lemma_step_wf(before, keys.last(), content, histories[keys.len() - 1]);
        lemma_move_keeps(before, keys.last(), content, histories[keys.len() - 1]);
    }
}

/// However the selection and the focus were moved, Escape or Backspace brings back
/// the kana that are being converted, and Enter then commits them.
pub proof fn lemma_cancelled_after_moves(
    s: SessionView,
    keys: Seq<KeyEvent>,
    key: KeyEvent,
    content: Content,
    histories: Seq<Option<Seq<RecordView>>>,
    records: Option<Seq<RecordView>>,
)
    requires
        session_model::session_wf(s),
        s.state == SessionState::Converting,
        forall|i: int| 0 <= i < keys.len() ==> is_move(#[trigger] keys[i]),
        key == KeyEvent::Escape || key == KeyEvent::Backspace,
    ensures
        ({
            let moved = after_keys(s, keys, content, histories);
            let back = session_model::step(moved, key, content, records);
            let done = session_model::step(back.session, KeyEvent::Enter, content, records);
            &&& back.session == (SessionView {
                state: SessionState::Composing,
                romaji: romaji::fresh(),
                kana: s.kana,
                segments: Seq::empty(),
                active: 0,
            })
            &&& back.action == (ActionView::UpdatePreedit {
                text: s.kana,
                pending_romaji: Seq::empty(),
            })
            &&& done == session_model::plain_step(
                session_model::idle(),
                ActionView::Commit(s.kana),
            )
        }),
{
    lemma_moves_keep_kana(s, keys, content, histories);
    assert(romaji::fresh().pending != seq!['n']) by {
        assert(seq!['n'].len() == 1);
    }
    assert(s.kana + Seq::<char>::empty() =~= s.kana);
}

/// The surfaces of committed pairs, joined.
pub open spec fn joined_pairs(pairs: Seq<(Seq<char>, Seq<char>)>) -> Seq<char>
    decreases pairs.len(),
{
    if pairs.len() == 0 {
        Seq::empty()
    } else {
        joined_pairs(pairs.drop_last()) + pairs.last().1
    }
}

proof fn lemma_joined_pairs(segments: Seq<SegmentView>)
    ensures
        joined_pairs(segmenter::selections_of(segments)) == segmenter::joined_surfaces(
            segments,
        ),
    decreases segments.len(),
{
    if segments.len() > 0 {
        lemma_joined_pairs(segments.drop_last());
        let pairs = segmenter::selections_of(segments);
        assert(pairs.drop_last() =~= segmenter::selections_of(segments.drop_last()));
    }
}

/// What is recorded is what is committed: a conversion that is committed inserts
/// the surfaces of the recorded pairs, one pair for each segment, and nothing is
/// recorded otherwise.
pub proof fn lemma_records_what_is_committed(
    s: SessionView,
    key: KeyEvent,
    content: Content,
    records: Option<Seq<RecordView>>,
)
    requires
        session_model::session_wf(s),
    ensures
        ({
            let step = session_model::step(s, key, content, records);
            if s.state == SessionState::Converting && step.action is Commit {
                &&& step.action == ActionView::Commit(joined_pairs(step.selections))
                &&& step.selections.len() == s.segments.len()
                &&& forall|i: int|
                    0 <= i < s.segments.len() ==> (#[trigger] step.selections[i]).0
                        == s.segments[i].reading
            } else {
                step.selections.len() == 0
            }
        }),
{
    if s.state == SessionState::Converting {
        lemma_joined_pairs(s.segments);
        if let KeyEvent::Number(n) = key {
            lemma_joined_pairs(session_model::with_selected(s, n - 1).segments);
        }
    }
}

/// A number key commits the candidate of that number for the focused segment and
/// the selected candidates of the others.
pub proof fn lemma_number_commits(
    s: SessionView,
    n: u8,
    content: Content,
    records: Option<Seq<RecordView>>,
)
    requires
        session_model::session_wf(s),
        s.state == SessionState::Converting,
        1 <= n <= 9,
        n <= s.segments[s.active].candidates.len(),
    ensures
        ({
            let step = session_model::step(s, KeyEvent::Number(n), content, records);
            &&& step.session == session_model::idle()
            &&& step.action == ActionView::Commit(joined_pairs(step.selections))
            &&& step.selections[s.active].1 == s.segments[s.active].candidates[n - 1].surface
            &&& forall|i: int|
                0 <= i < s.segments.len() && i != s.active ==> (#[trigger] step.selections[i]).1
                    == segmenter::surface_of(s.segments[i])
        }),
{
    lemma_joined_pairs(session_model::with_selected(s, n - 1).segments);
}

// ---------------------------------------------------------------------------
// Candidates
// ---------------------------------------------------------------------------

/// Every conversion segment offers its reading in katakana.
pub proof fn lemma_katakana_offered(segment: SegmentView)
    ensures
        session_model::has_surface(
            session_model::with_kana(segment).candidates,
            kana::katakana(segment.reading),
        ),
        forall|i: int|
            0 <= i < segment.candidates.len() ==> session_model::with_kana(
                segment,
            ).candidates[i] == #[trigger] segment.candidates[i],
{
    let form = kana::katakana(segment.reading);
    let list = segment.candidates;
    if !session_model::has_surface(list, form) {
        let new = session_model::with_kana(segment).candidates;
        assert(new[list.len() as int].surface == form);
    }
}

/// The selection history only reorders: it keeps the surfaces, and the first
/// candidate is one whose boosted score no other exceeds.
pub proof fn lemma_history_ranks(segment: SegmentView, records: Seq<RecordView>, k: int)
    requires
        0 <= k < segment.candidates.len(),
    ensures
        ({
            let new = session_model::with_boosts(segment, records).candidates;
            let old_one = segment.candidates[k];
            &&& new.len() == segment.candidates.len()
            &&& session_model::has_surface(new, old_one.surface)
            &&& new[0].score >= old_one.score + learning::boost_of(
                records,
                segment.reading,
                old_one.surface,
            )
        }),
{
    let all = segment.candidates.map_values(
        |c: CandidateView| session_model::boosted(c, segment.reading, records),
    );
    let new = session_model::with_boosts(segment, records).candidates;
    let c = session_model::boosted(segment.candidates[k], segment.reading, records);
    assert(all[k] == c);
    candidate::lemma_ranked(all);
    assert(all.contains(all[k]));
    order::lemma_arranged_member(all, candidate::rank_order(), c);
    let j = choose|j: int| 0 <= j < new.len() && new[j] == c;
    assert(new[j].surface == segment.candidates[k].surface);
    if j > 0 {
        assert(new[0].score >= new[j].score);
    }
    let records_boost = learning::boost_of(records, segment.reading, c.surface);
    assert(0 <= learning::times_selected(records, segment.reading, c.surface));
}

/// Where the scores of the dictionary leave room for its boosts, the selection
/// history can take part in a key exactly if its counts can hold what the key
/// commits.
pub proof fn lemma_learning_fits(
    s: SessionView,
    key: KeyEvent,
    content: Content,
    records: Seq<RecordView>,
)
    requires
        session_model::session_wf(s),
        dictionary::headroom(content),
    ensures
        session_model::learning_fits(s, key, content, records) <==> learning::room_for(
            records,
            session_model::committed(s, key),
        ),
{
    let text = session_model::whole_kana(s);
    let raw = segmenter::segments_of(content, text);
    let segments = session_model::plain_segments(content, text);
    assert forall|i: int| 0 <= i < segments.len() implies session_model::boosts_fit(
        #[trigger] segments[i],
        records,
    ) by {
        assert(segments[i] == session_model::with_kana(raw[i]));
        lemma_katakana_offered(raw[i]);
        segmenter::lemma_segments_greedy(content, text, i);
        let list = segments[i].candidates;
        assert forall|k: int| 0 <= k < list.len() implies (#[trigger] list[k]).score
            + learning::boost_of(records, segments[i].reading, list[k].surface) <= u32::MAX by {
            if k < raw[i].candidates.len() {
                assert(list[k] == raw[i].candidates[k]);
                if content(raw[i].reading).len() > 0 {
                    assert(content(raw[i].reading)[k].score <= u32::MAX - 200);
                }
            }
        }
    }
}

/// Whether the candidates of every segment are best first.
pub open spec fn shows_best_first(s: SessionView) -> bool {
    forall|i: int|
        0 <= i < s.segments.len() ==> user_dict::best_first((#[trigger] s.segments[i]).candidates)
}

proof fn lemma_conversion_best_first(
    content: Content,
    text: Seq<char>,
    records: Option<Seq<RecordView>>,
)
    requires
        user_dict::lists_best_first(content),
    ensures
        forall|i: int|
            0 <= i < session_model::conversion(content, text, records).len()
                ==> user_dict::best_first(
                (#[trigger] session_model::conversion(content, text, records)[i]).candidates,
            ),
{
    let raw = segmenter::segments_of(content, text);
    let plain = session_model::plain_segments(content, text);
    let all = session_model::conversion(content, text, records);
    assert forall|i: int| 0 <= i < all.len() implies user_dict::best_first(
        (#[trigger] all[i]).candidates,
    ) by {
        assert(plain[i] == session_model::with_kana(raw[i]));
        match records {
            Some(r) => {
                assert(all[i] == session_model::with_boosts(plain[i], r));
                candidate::lemma_ranked(
                    plain[i].candidates.map_values(
                        |c: CandidateView| session_model::boosted(c, plain[i].reading, r),
                    ),
                );
            },
            None => {
                segmenter::lemma_segments_greedy(content, text, i);
                let list = raw[i].candidates;
                let new = all[i].candidates;
                lemma_katakana_offered(raw[i]);
                if content(raw[i].reading).len() > 0 {
                    assert(list == content(raw[i].reading));
                    assert(user_dict::best_first(content(raw[i].reading)));
                }
                assert forall|j: int| 0 <= j < list.len() implies (#[trigger] list[j]).score
                    >= 0 by {
                    if content(raw[i].reading).len() > 0 {
                        assert(content(raw[i].reading)[j].score >= 0);
                    }
                }
                assert forall|j: int, k: int| 0 <= j < k < new.len() implies (
                #[trigger] new[j]).score >= (#[trigger] new[k]).score by {
                    if j < list.len() {
                        assert(new[j] == list[j]);
                    }
                    if k < list.len() {
                        assert(new[k] == list[k]);
                    }
                }
            },
        }
    }
}

/// A key keeps the candidates of every segment best first, with a dictionary whose
/// lists are.
pub proof fn lemma_step_best_first(
    s: SessionView,
    key: KeyEvent,
    content: Content,
    records: Option<Seq<RecordView>>,
)
    requires
        session_model::session_wf(s),
        shows_best_first(s),
        user_dict::lists_best_first(content),
    ensures
        shows_best_first(session_model::step(s, key, content, records).session),
{
    let new = session_model::step(s, key, content, records).session;
    lemma_conversion_best_first(content, session_model::whole_kana(s), records);
    assert forall|i: int| 0 <= i < new.segments.len() implies user_dict::best_first(
        (#[trigger] new.segments[i]).candidates,
    ) by {
        if s.state == SessionState::Converting {
            assert(user_dict::best_first(s.segments[i].candidates));
        }
    }
}

/// Whatever keys are pressed since it was new or reset, a session is in order, and
/// with a dictionary whose lists are best first its candidates are best first.
pub proof fn lemma_reachable(
    keys: Seq<KeyEvent>,
    content: Content,
    histories: Seq<Option<Seq<RecordView>>>,
)
    ensures
        session_model::session_wf(after_keys(session_model::idle(), keys, content, histories)),
        user_dict::lists_best_first(content) ==> shows_best_first(
            after_keys(session_model::idle(), keys, content, histories),
        ),
    decreases keys.len(),
{
    if keys.len() > 0 {
        lemma_reachable(keys.drop_last(), content, histories);
        let before = after_keys(session_model::idle(), keys.drop_last(), content, histories);
        lemma_step_wf(before, keys.last(), content, histories[keys.len() - 1]);
        if user_dict::lists_best_first(content) {
            lemma_step_best_first(before, keys.last(), content, histories[keys.len() - 1]);
        }
    }
}

/// What is shown is consistent: there is a segment, exactly the focused one is
/// marked, the highlighted candidate is one of those shown and is the surface of the
/// focused segment, the candidates are best first, and the kana are not empty.
pub proof fn lemma_shown(
    s: SessionView,
    key: KeyEvent,
    content: Content,
    records: Option<Seq<RecordView>>,
)
    requires
        session_model::session_wf(s),
        shows_best_first(s),
        user_dict::lists_best_first(content),
    ensures
        session_model::step(s, key, content, records).action matches ActionView::ShowCandidates {
            segments,
            active_segment,
            candidates,
            selected,
            preedit,
        } ==> {
            &&& segments.len() >= 1
            &&& 0 <= active_segment < segments.len()
            &&& forall|i: int|
                0 <= i < segments.len() ==> (#[trigger] segments[i]).is_active == (i
                    == active_segment)
            &&& 0 <= selected < candidates.len()
            &&& segments[active_segment].surface == candidates[selected].surface
            &&& user_dict::best_first(candidates)
            &&& preedit.len() > 0
        },
{
    let new = session_model::step(s, key, content, records).session;
    lemma_step_wf(s, key, content, records);
    lemma_step_best_first(s, key, content, records);
    if new.state == SessionState::Converting {
        assert(session_model::segment_wf(new.segments[new.active]));
        assert(user_dict::best_first(new.segments[new.active].candidates));
    }
}

/// The selection history follows the commits: a conversion that is committed raises
/// the count of each of its pairs by the number of times that it was committed, and
/// of no other; any other key leaves the history as it was.
pub proof fn lemma_history_follows_commits(
    s: SessionView,
    key: KeyEvent,
    content: Content,
    before: LearningView,
    after: LearningView,
    reading: Seq<char>,
    surface: Seq<char>,
)
    requires
        session_model::session_wf(s),
        session_model::learning_fits(s, key, content, before.records),
        session::learns(
            before,
            session_model::step(s, key, content, Some(before.records)).selections,
            after,
        ),
    ensures
        ({
            let step = session_model::step(s, key, content, Some(before.records));
            if s.state == SessionState::Converting && step.action is Commit {
                &&& step.action == ActionView::Commit(joined_pairs(step.selections))
                &&& step.selections.len() == s.segments.len()
                &&& learning::times_selected(after.records, reading, surface)
                    == learning::times_selected(before.records, reading, surface)
                    + learning::occurs(step.selections, (reading, surface))
            } else {
                after == before
            }
        }),
{
    let pairs = session_model::step(s, key, content, Some(before.records)).selections;
    lemma_records_what_is_committed(s, key, content, Some(before.records));
    let times = choose|times: Seq<u64>|
        learning::read_from_clock(times, pairs.len()) && after == #[trigger] learning::after_records(
            before,
            pairs,
            times,
        );
    assert(pairs =~= session_model::committed(s, key));
    learning::lemma_after_records(before, pairs, times, reading, surface);
}

} // verus!
