//! Per-input-session state management.
//!
//! A session owns the live romaji buffer and the kana derived from it, drives the
//! romaji conversion as keys arrive, segments the kana for conversion, and says
//! after each key what the client has to show: preedit text, candidates, or text
//! to insert.

use crate::candidate;
use crate::candidate::{copy_candidates, rank, Candidate, CandidateSource, CandidateView};
use crate::dictionary::DictionaryLookup;
use crate::kana::to_katakana;
use crate::learning;
use crate::learning::{LearningStore, RecordView};
use crate::romaji;
use crate::romaji::{flush_into, RomajiConverter};
use crate::segmenter;
use crate::segmenter::{join_surfaces, segment, selected_pairs, Segment, SegmentView};
use crate::session_model;
use crate::session_model::{ActionView, SegmentInfoView, SessionView};
use crate::text;
use crate::text::{chars_of, same_text, string_of};
use vstd::prelude::*;
use vstd::string::StringExecFns;

verus! {

// ---------------------------------------------------------------------------
// Keys, states and actions
// ---------------------------------------------------------------------------

/// Information about a single segment in the conversion display.
#[derive(Debug, PartialEq, Eq)]
pub struct SegmentInfo {
    /// The surface form selected for this segment.
    pub surface: String,
    /// Whether this is the focused segment.
    pub is_active: bool,
}

impl View for SegmentInfo {
    type V = SegmentInfoView;

    open spec fn view(&self) -> SegmentInfoView {
        SegmentInfoView { surface: self.surface@, is_active: self.is_active }
    }
}

impl Clone for SegmentInfo {
    fn clone(&self) -> (info: Self)
        ensures
            info@ == self@,
    {
        SegmentInfo { surface: self.surface.clone(), is_active: self.is_active }
    }
}

/// What a list of segment infos holds.
pub open spec fn info_views(list: Seq<SegmentInfo>) -> Seq<SegmentInfoView> {
    list.map_values(|i: SegmentInfo| i@)
}

/// A normalised keyboard event.
#[derive(Debug, Clone, Copy, PartialEq, Eq, Structural)]
pub enum KeyEvent {
    /// A printable character (letters, digits, punctuation handled by romaji).
    Character(char),
    /// Space bar: triggers conversion or cycles candidates.
    Space,
    /// Return: commits the current selection.
    Enter,
    /// Backspace: removes the last input unit.
    Backspace,
    /// Escape: cancels the current operation.
    Escape,
    /// Up-arrow: moves the candidate selection upward.
    ArrowUp,
    /// Down-arrow: moves the candidate selection downward.
    ArrowDown,
    /// Left-arrow: moves to the previous segment during conversion.
    ArrowLeft,
    /// Right-arrow: moves to the next segment during conversion.
    ArrowRight,
    /// Digit 1-9: selects a candidate by position (1-based).
    Number(u8),
}

/// The current phase of the input session.
#[derive(Debug, Clone, Copy, PartialEq, Eq, Structural)]
pub enum SessionState {
    /// No active preedit; the session waits for the first keystroke.
    Idle,
    /// Romaji is being typed; a kana preedit is built incrementally.
    Composing,
    /// The kana have been converted and the candidate window is open.
    Converting,
}

/// The action the client must perform after a key event.
#[derive(Debug, PartialEq, Eq)]
pub enum SessionAction {
    /// Nothing changed that requires a UI update.
    Noop,
    /// The preedit string has changed.
    ///
    /// - `text`: the kana accumulated so far.
    /// - `pending_romaji`: the romaji suffix that is not resolved (e.g. `"sh"`).
    UpdatePreedit { text: String, pending_romaji: String },
    /// The candidate window should be shown, or its contents refreshed.
    ///
    /// - `segments`: what each segment shows.
    /// - `active_segment`: zero-based index of the focused segment.
    /// - `candidates`: candidates of the focused segment, best first.
    /// - `selected`: index of the highlighted candidate of the focused segment.
    /// - `preedit`: the full kana reading being converted.
    ShowCandidates {
        segments: Vec<SegmentInfo>,
        active_segment: usize,
        candidates: Vec<Candidate>,
        selected: usize,
        preedit: String,
    },
    /// Insert the text into the document.
    Commit(String),
    /// Discard the preedit.
    Cancel,
}

impl View for SessionAction {
    type V = ActionView;

    open spec fn view(&self) -> ActionView {
        match *self {
            SessionAction::Noop => ActionView::Noop,
            SessionAction::UpdatePreedit { text, pending_romaji } => ActionView::UpdatePreedit {
                text: text@,
                pending_romaji: pending_romaji@,
            },
            SessionAction::ShowCandidates {
                segments,
                active_segment,
                candidates,
                selected,
                preedit,
            } => ActionView::ShowCandidates {
                segments: info_views(segments@),
                active_segment: active_segment as int,
                candidates: candidate::candidate_views(candidates@),
                selected: selected as int,
                preedit: preedit@,
            },
            SessionAction::Commit(text) => ActionView::Commit(text@),
            SessionAction::Cancel => ActionView::Cancel,
        }
    }
}

impl Clone for SessionAction {
    fn clone(&self) -> (action: Self)
        ensures
            action@ == self@,
    {
        match self {
            SessionAction::Noop => SessionAction::Noop,
            SessionAction::UpdatePreedit { text, pending_romaji } => SessionAction::UpdatePreedit {
                text: text.clone(),
                pending_romaji: pending_romaji.clone(),
            },
            SessionAction::ShowCandidates {
                segments,
                active_segment,
                candidates,
                selected,
                preedit,
            } => {
                let mut infos: Vec<SegmentInfo> = Vec::new();
                for i in 0..segments.len()
                    invariant
                        infos@.len() == i,
                        forall|k: int| 0 <= k < i ==> (#[trigger] infos@[k])@ == segments@[k]@,
                {
                    infos.push(segments[i].clone());
                }
                assert(info_views(infos@) =~= info_views(segments@));
                SessionAction::ShowCandidates {
                    segments: infos,
                    active_segment: *active_segment,
                    candidates: copy_candidates(candidates),
                    selected: *selected,
                    preedit: preedit.clone(),
                }
            },
            SessionAction::Commit(text) => SessionAction::Commit(text.clone()),
            SessionAction::Cancel => SessionAction::Cancel,
        }
    }
}

// ---------------------------------------------------------------------------
// Session
// ---------------------------------------------------------------------------

/// A single input session, which belongs to one focused text field.
pub struct Session {
    /// Current phase.
    state: SessionState,
    /// Incremental romaji-to-kana converter.
    romaji: RomajiConverter,
    /// Kana that wait to be committed or converted.
    confirmed_kana: String,
    /// Conversion segments.
    segments: Vec<Segment>,
    /// Zero-based index of the focused segment.
    active_segment: usize,
}

impl View for Session {
    type V = SessionView;

    closed spec fn view(&self) -> SessionView {
        SessionView {
            state: self.state,
            romaji: self.romaji@,
            kana: self.confirmed_kana@,
            segments: segmenter::segment_views(self.segments@),
            active: self.active_segment as int,
        }
    }
}

/// What a selection history knows, where there is one.
pub open spec fn known_records(learning: Option<&LearningStore>) -> Option<Seq<RecordView>> {
    match learning {
        Some(l) => Some(l@.records),
        None => None,
    }
}

impl Session {
    /// Whether the session is in order.
    pub open spec fn wf(&self) -> bool {
        session_model::session_wf(self@)
    }

    /// Creates a new, idle session.
    pub fn new() -> (session: Self)
        ensures
            session.wf(),
            session@ == session_model::idle(),
    {
        let session = Session {
            state: SessionState::Idle,
            romaji: RomajiConverter::new(),
            confirmed_kana: String::new(),
            segments: Vec::new(),
            active_segment: 0,
        };
        assert(session@.kana =~= Seq::<char>::empty());
        assert(session@.segments =~= Seq::<SegmentView>::empty());
        session
    }

    /// Returns the current state of the session.
    pub fn state(&self) -> (state: &SessionState)
        ensures
            *state == self@.state,
    {
        &self.state
    }

    /// Resets the session to [`SessionState::Idle`], discarding all pending input.
    pub fn reset(&mut self)
        ensures
            final(self).wf(),
            final(self)@ == session_model::idle(),
    {
        self.state = SessionState::Idle;
        self.romaji.reset();
        self.confirmed_kana = String::new();
        self.segments = Vec::new();
        self.active_segment = 0;
        assert(self@.kana =~= Seq::<char>::empty());
        assert(self@.segments =~= Seq::<SegmentView>::empty());
    }

    /// Builds the `UpdatePreedit` action from the current state.
    fn update_preedit_action(&self) -> (action: SessionAction)
        ensures
            action@ == session_model::preedit_of(self@),
    {
        SessionAction::UpdatePreedit {
            text: self.confirmed_kana.clone(),
            pending_romaji: self.romaji.pending().to_owned(),
        }
    }

    /// Builds the `ShowCandidates` action from the current state.
    fn show_candidates_action(&self) -> (action: SessionAction)
        requires
            0 <= self@.active < self@.segments.len(),
        ensures
            action@ == session_model::shown(self@),
    {
        let ghost infos = session_model::infos(self@.segments, self@.active);
        let mut segment_infos: Vec<SegmentInfo> = Vec::new();
        for i in 0..self.segments.len()
            invariant
                infos == session_model::infos(self@.segments, self@.active),
                segment_infos@.len() == i,
                forall|k: int| 0 <= k < i ==> (#[trigger] segment_infos@[k])@ == infos[k],
        {
            assert(self@.segments[i as int] == self.segments@[i as int]@);
            segment_infos.push(
                SegmentInfo {
                    surface: self.segments[i].selected_surface().to_owned(),
                    is_active: i == self.active_segment,
                },
            );
        }
        assert(info_views(segment_infos@) =~= infos);
        let active_seg = &self.segments[self.active_segment];
        assert(self@.segments[self@.active] == active_seg@);
        SessionAction::ShowCandidates {
            segments: segment_infos,
            active_segment: self.active_segment,
            candidates: copy_candidates(&active_seg.candidates),
            selected: active_seg.selected,
            preedit: self.confirmed_kana.clone(),
        }
    }

    /// Feeds a character into the romaji converter.
    fn type_character(&mut self, ch: char)
        ensures
            final(self)@ == session_model::typed(old(self)@, ch),
    {
        self.state = SessionState::Composing;
        let out = self.romaji.feed(ch);
        match out.confirmed {
            Some(kana) => {
                self.confirmed_kana.append(kana.as_str());
            },
            None => {
                assert(self@.kana =~= session_model::typed(old(self)@, ch).kana);
            },
        }
    }

    /// Flushes any pending romaji into the kana.
    fn flush_pending_romaji(&mut self)
        ensures
            final(self)@ == (SessionView {
                romaji: romaji::fresh(),
                kana: session_model::whole_kana(old(self)@),
                ..old(self)@
            }),
    {
        flush_into(&self.romaji, &mut self.confirmed_kana);
        self.romaji.reset();
    }

    /// Handles a key event while in [`SessionState::Idle`].
    fn handle_idle(&mut self, key: KeyEvent) -> (action: SessionAction)
        requires
            old(self).wf(),
            old(self)@.state == SessionState::Idle,
        ensures
            final(self).wf(),
            ({
                let step = session_model::idle_step(old(self)@, key);
                final(self)@ == step.session && action@ == step.action
            }),
    {
        match key {
            KeyEvent::Character(ch) => {
                self.type_character(ch);
                self.update_preedit_action()
            },
            _ => SessionAction::Noop,
        }
    }

    /// Segments the kana and turns to [`SessionState::Converting`].
    fn try_convert<D: DictionaryLookup + ?Sized>(
        &mut self,
        dict: &D,
        learning: Option<&LearningStore>,
    ) -> (action: SessionAction)
        requires
            dict.wf(),
            old(self)@.romaji == romaji::fresh(),
            old(self)@.kana.len() > 0,
            learning matches Some(l) ==> forall|i: int|
                0 <= i < session_model::plain_segments(dict.content(), old(self)@.kana).len()
                    ==> session_model::boosts_fit(
                    #[trigger] session_model::plain_segments(dict.content(), old(self)@.kana)[i],
                    l@.records,
                ),
        ensures
            final(self).wf(),
            final(self)@ == (SessionView {
                state: SessionState::Converting,
                segments: session_model::conversion(
                    dict.content(),
                    old(self)@.kana,
                    known_records(learning),
                ),
                active: 0,
                ..old(self)@
            }),
            action@ == session_model::shown(final(self)@),
    {
        proof {
            session_model::lemma_conversion(
                dict.content(),
                self@.kana,
                known_records(learning),
            );
        }
        let segments = segment(self.confirmed_kana.as_str(), dict);
        self.segments = add_kana_forms(&segments);
        self.active_segment = 0;
        if let Some(l) = learning {
            self.apply_learning_boosts(l);
        }
        self.state = SessionState::Converting;
        self.show_candidates_action()
    }

    /// Applies the boosts of the selection history to all candidates of all
    /// segments, ranks them anew and selects the first ones.
    fn apply_learning_boosts(&mut self, learning: &LearningStore)
        requires
            forall|i: int|
                0 <= i < old(self)@.segments.len() ==> session_model::boosts_fit(
                    #[trigger] old(self)@.segments[i],
                    learning@.records,
                ),
        ensures
            final(self)@ == (SessionView {
                segments: old(self)@.segments.map_values(
                    |s: SegmentView| session_model::with_boosts(s, learning@.records),
                ),
                ..old(self)@
            }),
    {
        let ghost all = self@.segments;
        let mut boosted: Vec<Segment> = Vec::new();
        for i in 0..self.segments.len()
            invariant
                all == segmenter::segment_views(self.segments@),
                forall|k: int|
                    0 <= k < all.len() ==> session_model::boosts_fit(
                        #[trigger] all[k],
                        learning@.records,
                    ),
                boosted@.len() == i,
                forall|k: int|
                    0 <= k < i ==> (#[trigger] boosted@[k])@ == session_model::with_boosts(
                        all[k],
                        learning@.records,
                    ),
        {
            assert(all[i as int] == self.segments@[i as int]@);
            boosted.push(boost_segment(&self.segments[i], learning));
        }
        self.segments = boosted;
        assert(self@.segments =~= all.map_values(
            |s: SegmentView| session_model::with_boosts(s, learning@.records),
        ));
    }

    /// Handles a key event while in [`SessionState::Composing`].
    fn handle_composing<D: DictionaryLookup + ?Sized>(
        &mut self,
        key: KeyEvent,
        dict: &D,
        learning: Option<&LearningStore>,
    ) -> (action: SessionAction)
        requires
            dict.wf(),
            old(self).wf(),
            old(self)@.state == SessionState::Composing,
            learning matches Some(l) ==> session_model::learning_fits(
                old(self)@,
                key,
                dict.content(),
                l@.records,
            ),
        ensures
            final(self).wf(),
            ({
                let step = session_model::composing_step(
                    old(self)@,
                    key,
                    dict.content(),
                    known_records(learning),
                );
                final(self)@ == step.session && action@ == step.action
            }),
    {
        match key {
            KeyEvent::Character(ch) => {
                self.type_character(ch);
                self.update_preedit_action()
            },
            KeyEvent::Space => {
                self.flush_pending_romaji();
                if self.confirmed_kana.as_str().is_empty() {
                    return SessionAction::Noop;
                }
                self.try_convert(dict, learning)
            },
            KeyEvent::Enter => {
                self.flush_pending_romaji();
                let text = self.confirmed_kana.clone();
                self.reset();
                if text.as_str().is_empty() {
                    SessionAction::Noop
                } else {
                    SessionAction::Commit(text)
                }
            },
            KeyEvent::Backspace => {
                if !self.romaji.pending().is_empty() {
                    let _ = self.romaji.backspace();
                    return self.update_preedit_action();
                }
                let mut chars = chars_of(self.confirmed_kana.as_str());
                if chars.len() > 1 {
                    let _ = chars.pop();
                    self.confirmed_kana = string_of(chars.as_slice());
                    assert(self@.kana =~= old(self)@.kana.drop_last());
                    self.update_preedit_action()
                } else {
                    self.reset();
                    SessionAction::Cancel
                }
            },
            KeyEvent::Escape => {
                self.reset();
                SessionAction::Cancel
            },
            _ => SessionAction::Noop,
        }
    }

    /// The committed text: the selected surfaces of all segments, joined.
    fn commit_all_segments(&self) -> (text: String)
        ensures
            text@ == segmenter::joined_surfaces(self@.segments),
    {
        join_surfaces(&self.segments)
    }

    /// Selects a candidate of the focused segment.
    fn select(&mut self, selected: usize)
        requires
            old(self).wf(),
            old(self)@.state == SessionState::Converting,
            selected < old(self)@.segments[old(self)@.active].candidates.len(),
        ensures
            final(self).wf(),
            final(self)@ == session_model::with_selected(old(self)@, selected as int),
    {
        let ghost before = self@;
        let active = self.active_segment;
        assert(before.segments[active as int] == self.segments@[active as int]@);
        self.segments[active].selected = selected;
        proof {
            assert(self@.segments =~= session_model::with_selected(
                before,
                selected as int,
            ).segments);
            session_model::lemma_selected_wf(before, selected as int);
        }
    }

    /// Handles a key event while in [`SessionState::Converting`]. Also returns the
    /// (reading, surface) pairs that it commits.
    fn handle_converting(&mut self, key: KeyEvent) -> (result: (
        SessionAction,
        Vec<(String, String)>,
    ))
        requires
            old(self).wf(),
            old(self)@.state == SessionState::Converting,
        ensures
            final(self).wf(),
            ({
                let step = session_model::converting_step(old(self)@, key);
                &&& final(self)@ == step.session
                &&& result.0@ == step.action
                &&& text::pair_views(result.1@) == step.selections
            }),
    {
        let ghost before = self@;
        let none: Vec<(String, String)> = Vec::new();
        assert(text::pair_views(none@) =~= Seq::<(Seq<char>, Seq<char>)>::empty());
        let active = self.active_segment;
        proof {
            assert(before.segments[active as int] == self.segments@[active as int]@);
            assert(session_model::segment_wf(before.segments[active as int]));
        }
        let count = self.segments[active].candidates.len();
        let selected = self.segments[active].selected;
        match key {
            KeyEvent::Space | KeyEvent::ArrowDown => {
                self.select(
                    if selected + 1 < count {
                        selected + 1
                    } else {
                        0
                    },
                );
                (self.show_candidates_action(), none)
            },
            KeyEvent::ArrowUp => {
                self.select(
                    if selected == 0 {
                        count - 1
                    } else {
                        selected - 1
                    },
                );
                (self.show_candidates_action(), none)
            },
            KeyEvent::ArrowRight => {
                let n = self.segments.len();
                self.active_segment = if active + 1 < n {
                    active + 1
                } else {
                    0
                };
                (self.show_candidates_action(), none)
            },
            KeyEvent::ArrowLeft => {
                self.active_segment = if active == 0 {
                    self.segments.len() - 1
                } else {
                    active - 1
                };
                (self.show_candidates_action(), none)
            },
            KeyEvent::Enter => {
                let text = self.commit_all_segments();
                let pairs = selected_pairs(&self.segments);
                self.reset();
                (SessionAction::Commit(text), pairs)
            },
            KeyEvent::Number(n) => {
                if 1 <= n && n <= 9 && n as usize <= count {
                    self.select(n as usize - 1);
                    let text = self.commit_all_segments();
                    let pairs = selected_pairs(&self.segments);
                    self.reset();
                    (SessionAction::Commit(text), pairs)
                } else {
                    (self.show_candidates_action(), none)
                }
            },
            KeyEvent::Escape | KeyEvent::Backspace => {
                self.segments = Vec::new();
                self.active_segment = 0;
                self.state = SessionState::Composing;
                assert(self@.segments =~= Seq::<SegmentView>::empty());
                (self.update_preedit_action(), none)
            },
            KeyEvent::Character(ch) => {
                let text = self.commit_all_segments();
                let pairs = selected_pairs(&self.segments);
                self.reset();
                self.type_character(ch);
                (SessionAction::Commit(text), pairs)
            },
        }
    }

    /// The (reading, surface) pairs that a key commits.
    pub fn committed_by(&self, key: KeyEvent) -> (pairs: Vec<(String, String)>)
        requires
            self.wf(),
        ensures
            text::pair_views(pairs@) == session_model::committed(self@, key),
    {
        let none: Vec<(String, String)> = Vec::new();
        assert(text::pair_views(none@) =~= Seq::<(Seq<char>, Seq<char>)>::empty());
        match self.state {
            SessionState::Converting => match key {
                KeyEvent::Enter | KeyEvent::Character(_) => selected_pairs(&self.segments),
                KeyEvent::Number(n) => {
                    let active = &self.segments[self.active_segment];
                    let ghost a = self@.active;
                    assert(self@.segments[a] == active@);
                    if 1 <= n && n <= 9 && n as usize <= active.candidates.len() {
                        let mut pairs = selected_pairs(&self.segments);
                        let ghost before = text::pair_views(pairs@);
                        assert(before.len() == pairs@.len());
                        let chosen = &active.candidates[n as usize - 1];
                        assert(active@.candidates[n - 1] == chosen@);
                        let pair = (active.reading.clone(), chosen.surface.clone());
                        pairs.set(self.active_segment, pair);
                        assert(text::pair_views(pairs@) =~= before.update(a, (pair.0@, pair.1@)));
                        assert(text::pair_views(pairs@) =~= session_model::committed(self@, key));
                        pairs
                    } else {
                        none
                    }
                },
                _ => none,
            },
            _ => none,
        }
    }

    /// Processes one key event and returns the action the caller should perform.
    ///
    /// If `learning` is given, it ranks the candidates of a conversion, and a
    /// conversion that is committed is recorded in it.
    pub fn handle_key<D: DictionaryLookup + ?Sized>(
        &mut self,
        key: KeyEvent,
        dict: &D,
        learning: Option<&mut LearningStore>,
    ) -> (action: SessionAction)
        requires
            old(self).wf(),
            dict.wf(),
            learning matches Some(l) ==> l.wf() && session_model::learning_fits(
                old(self)@,
                key,
                dict.content(),
                l@.records,
            ),
        ensures
            final(self).wf(),
            ({
                let step = session_model::step(
                    old(self)@,
                    key,
                    dict.content(),
                    match learning {
                        Some(l) => Some(l@.records),
                        None => None,
                    },
                );
                &&& final(self)@ == step.session
                &&& action@ == step.action
                &&& learning matches Some(l) ==> final(l).wf() && learns(
                    l@,
                    step.selections,
                    final(l)@,
                )
            }),
    {
        let none: Vec<(String, String)> = Vec::new();
        assert(text::pair_views(none@) =~= Seq::<(Seq<char>, Seq<char>)>::empty());
        let (action, pairs) = match self.state {
            SessionState::Idle => (self.handle_idle(key), none),
            SessionState::Composing => {
                let known = match &learning {
                    Some(l) => Some(&**l),
                    None => None,
                };
                (self.handle_composing(key, dict, known), none)
            },
            SessionState::Converting => self.handle_converting(key),
        };
        if let Some(l) = learning {
            l.record_all(&pairs);
        }
        action
    }
}

/// Whether `after` is `before` with a list of pairs recorded, each at the time that
/// the clock read.
pub open spec fn learns(
    before: learning::LearningView,
    pairs: Seq<(Seq<char>, Seq<char>)>,
    after: learning::LearningView,
) -> bool {
    exists|times: Seq<u64>|
        learning::read_from_clock(times, pairs.len()) && after == #[trigger] learning::after_records(
            before,
            pairs,
            times,
        )
}

impl Default for Session {
    fn default() -> (session: Self)
        ensures
            session.wf(),
            session@ == session_model::idle(),
    {
        Self::new()
    }
}

// ---------------------------------------------------------------------------
// Conversion
// ---------------------------------------------------------------------------

fn finds_surface(list: &Vec<Candidate>, surface: &str) -> (found: bool)
    ensures
        found == session_model::has_surface(candidate::candidate_views(list@), surface@),
{
    let ghost all = candidate::candidate_views(list@);
    for i in 0..list.len()
        invariant
            all == candidate::candidate_views(list@),
            forall|k: int| 0 <= k < i ==> (#[trigger] all[k]).surface != surface@,
    {
        assert(all[i as int] == list@[i as int]@);
        if same_text(list[i].surface.as_str(), surface) {
            return true;
        }
    }
    false
}

/// Gives a segment its kana forms as candidates of last resort.
fn add_kana_form(segment: &Segment) -> (result: Segment)
    ensures
        result@ == session_model::with_kana(segment@),
{
    let form = to_katakana(segment.reading.as_str());
    let mut candidates = copy_candidates(&segment.candidates);
    let ghost list = segment@.candidates;
    let reading = segment.reading.as_str();
    if !finds_surface(&segment.candidates, form.as_str()) {
        let c = Candidate::new(form.as_str(), reading, 0, CandidateSource::System);
        candidates.push(c);
        assert(candidate::candidate_views(candidates@) =~= list.push(
            session_model::kana_candidate(reading@, form@),
        ));
        if !finds_surface(&segment.candidates, reading) && !same_text(form.as_str(), reading) {
            let c = Candidate::new(reading, reading, 0, CandidateSource::System);
            candidates.push(c);
            assert(candidate::candidate_views(candidates@) =~= list.push(
                session_model::kana_candidate(reading@, form@),
            ).push(session_model::kana_candidate(reading@, reading@)));
        }
    }
    Segment { reading: segment.reading.clone(), candidates, selected: segment.selected }
}

/// Gives every segment its kana forms.
fn add_kana_forms(segments: &Vec<Segment>) -> (result: Vec<Segment>)
    ensures
        segmenter::segment_views(result@) == segmenter::segment_views(segments@).map_values(
            |s: SegmentView| session_model::with_kana(s),
        ),
{
    let mut result: Vec<Segment> = Vec::new();
    for i in 0..segments.len()
        invariant
            result@.len() == i,
            forall|k: int|
                0 <= k < i ==> (#[trigger] result@[k])@ == session_model::with_kana(segments@[k]@),
    {
        result.push(add_kana_form(&segments[i]));
    }
    assert(segmenter::segment_views(result@) =~= segmenter::segment_views(segments@).map_values(
        |s: SegmentView| session_model::with_kana(s),
    ));
    result
}

/// Ranks the candidates of a segment with the boosts of the selection history.
fn boost_segment(segment: &Segment, learning: &LearningStore) -> (result: Segment)
    requires
        session_model::boosts_fit(segment@, learning@.records),
    ensures
        result@ == session_model::with_boosts(segment@, learning@.records),
{
    let ghost list = segment@.candidates;
    let ghost boost = |c: CandidateView|
        session_model::boosted(c, segment@.reading, learning@.records);
    let ghost all = list.map_values(boost);
    let mut candidates: Vec<Candidate> = Vec::new();
    for i in 0..segment.candidates.len()
        invariant
            list == segment@.candidates,
            session_model::boosts_fit(segment@, learning@.records),
            candidates@.len() == i,
            forall|k: int|
                0 <= k < i ==> (#[trigger] candidates@[k])@ == session_model::boosted(
                    list[k],
                    segment@.reading,
                    learning@.records,
                ),
    {
        let mut c = segment.candidates[i].clone();
        assert(list[i as int] == segment.candidates@[i as int]@);
        assert(segment@.candidates[i as int].score + learning::boost_of(
            learning@.records,
            segment@.reading,
            c@.surface,
        ) <= u32::MAX);
        let boost: u32 = learning.boost(segment.reading.as_str(), c.surface.as_str());
        if boost > 0 {
            c.score = c.score + boost;
            c.source = CandidateSource::Learning;
        }
        candidates.push(c);
    }
    assert(candidate::candidate_views(candidates@) =~= all);
    assert(all =~= list.map_values(
        |c: CandidateView| session_model::boosted(c, segment@.reading, learning@.records),
    ));
    Segment { reading: segment.reading.clone(), candidates: rank(candidates), selected: 0 }
}

} // verus!
