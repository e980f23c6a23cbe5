//! The session as a platform input method sees it.
//!
//! A context holds a session with its dictionary and selection history. Keys come
//! as a kind and a number, and results go out as plain text and lists, so that a
//! C interface only has to copy them.

use crate::candidate;
use crate::candidate::{Candidate, CandidateView};
use crate::dictionary;
use crate::dictionary::{Content, DictionaryLookup, RowView, SimpleDictionary};
use crate::learning;
use crate::learning::{LearningStore, LearningView, RecordView};
use crate::session;
use crate::session::{KeyEvent, SegmentInfo, Session, SessionAction, SessionState};
use crate::session_laws;
use crate::session_model;
use crate::session_model::{ActionView, SegmentInfoView};
use crate::text;
use crate::user_dict;
use crate::user_dict::{CompositeDictionary, UserDictionary};
use vstd::prelude::*;

verus! {

// ---------------------------------------------------------------------------
// Keys, actions and states
// ---------------------------------------------------------------------------

/// The kind of a key event. Mirrors [`KeyEvent`].
#[derive(Debug, Clone, Copy, PartialEq, Eq, Structural)]
pub enum MymeKeyType {
    /// A printable character, given by its code point.
    Character,
    /// Space bar.
    Space,
    /// Return.
    Enter,
    /// Backspace.
    Backspace,
    /// Escape.
    Escape,
    /// Up-arrow.
    ArrowUp,
    /// Down-arrow.
    ArrowDown,
    /// Digit 1-9, given by its value.
    Number,
    /// Left-arrow.
    ArrowLeft,
    /// Right-arrow.
    ArrowRight,
}

/// What the client must do after a key event. Mirrors [`SessionAction`].
#[derive(Debug, Clone, Copy, PartialEq, Eq, Structural)]
pub enum MymeActionType {
    /// Nothing changed that requires a UI update.
    Noop,
    /// The preedit string has changed.
    UpdatePreedit,
    /// The candidate window should be shown or refreshed.
    ShowCandidates,
    /// Insert [`MymeResult::text`] into the document and close the preedit.
    Commit,
    /// Discard the preedit and close any open candidate window.
    Cancel,
}

/// The phase of the input session. Mirrors [`SessionState`].
#[derive(Debug, Clone, Copy, PartialEq, Eq, Structural)]
pub enum MymeState {
    /// No active preedit.
    Idle,
    /// Romaji is being typed.
    Composing,
    /// The candidate window is open.
    Converting,
}

/// The result of a key event.
#[derive(Debug)]
pub struct MymeResult {
    /// What the client must do.
    pub action_type: MymeActionType,
    /// For `Commit` the text to insert, for `UpdatePreedit` the kana of the
    /// preedit, for `ShowCandidates` the kana being converted; empty otherwise.
    pub text: String,
    /// The romaji suffix that is not resolved. Empty when not in `UpdatePreedit`.
    pub pending_romaji: String,
    /// The surfaces of the candidates of the focused segment.
    pub candidates: Vec<String>,
    /// The number of candidates.
    pub candidate_count: usize,
    /// Zero-based index of the selected candidate.
    pub selected_index: usize,
    /// The selected surface of every segment.
    pub segment_surfaces: Vec<String>,
    /// The number of segments.
    pub segment_count: usize,
    /// Zero-based index of the focused segment.
    pub active_segment: usize,
}

/// What a [`MymeResult`] holds.
pub struct MymeResultView {
    pub action_type: MymeActionType,
    pub text: Seq<char>,
    pub pending_romaji: Seq<char>,
    pub candidates: Seq<Seq<char>>,
    pub candidate_count: int,
    pub selected_index: int,
    pub segment_surfaces: Seq<Seq<char>>,
    pub segment_count: int,
    pub active_segment: int,
}

impl View for MymeResult {
    type V = MymeResultView;

    open spec fn view(&self) -> MymeResultView {
        MymeResultView {
            action_type: self.action_type,
            text: self.text@,
            pending_romaji: self.pending_romaji@,
            candidates: text::string_views(self.candidates@),
            candidate_count: self.candidate_count as int,
            selected_index: self.selected_index as int,
            segment_surfaces: text::string_views(self.segment_surfaces@),
            segment_count: self.segment_count as int,
            active_segment: self.active_segment as int,
        }
    }
}

/// A result that carries texts only.
pub open spec fn text_result(
    action_type: MymeActionType,
    text: Seq<char>,
    pending_romaji: Seq<char>,
) -> MymeResultView {
    MymeResultView {
        action_type,
        text,
        pending_romaji,
        candidates: Seq::empty(),
        candidate_count: 0,
        selected_index: 0,
        segment_surfaces: Seq::empty(),
        segment_count: 0,
        active_segment: 0,
    }
}

/// The result that reports an action.
pub open spec fn result_of(action: ActionView) -> MymeResultView {
    match action {
        ActionView::Noop => text_result(MymeActionType::Noop, Seq::empty(), Seq::empty()),
        ActionView::UpdatePreedit { text, pending_romaji } => text_result(
            MymeActionType::UpdatePreedit,
            text,
            pending_romaji,
        ),
        ActionView::ShowCandidates { segments, active_segment, candidates, selected, preedit } => {
            MymeResultView {
                action_type: MymeActionType::ShowCandidates,
                text: preedit,
                pending_romaji: Seq::empty(),
                candidates: candidates.map_values(|c: CandidateView| c.surface),
                candidate_count: candidates.len() as int,
                selected_index: selected,
                segment_surfaces: segments.map_values(|s: SegmentInfoView| s.surface),
                segment_count: segments.len() as int,
                active_segment,
            }
        },
        ActionView::Commit(text) => text_result(MymeActionType::Commit, text, Seq::empty()),
        ActionView::Cancel => text_result(MymeActionType::Cancel, Seq::empty(), Seq::empty()),
    }
}

fn plain_result(action_type: MymeActionType, text: String, pending_romaji: String) -> (result:
    MymeResult)
    ensures
        result@ == text_result(action_type, text@, pending_romaji@),
{
    let result = MymeResult {
        action_type,
        text,
        pending_romaji,
        candidates: Vec::new(),
        candidate_count: 0,
        selected_index: 0,
        segment_surfaces: Vec::new(),
        segment_count: 0,
        active_segment: 0,
    };
    assert(result@.candidates =~= Seq::<Seq<char>>::empty());
    assert(result@.segment_surfaces =~= Seq::<Seq<char>>::empty());
    result
}

fn empty_result(action_type: MymeActionType) -> (result: MymeResult)
    ensures
        result@ == text_result(action_type, Seq::empty(), Seq::empty()),
{
    let result = plain_result(action_type, String::new(), String::new());
    assert(result@.text =~= Seq::<char>::empty());
    assert(result@.pending_romaji =~= Seq::<char>::empty());
    result
}

fn candidate_surfaces(candidates: &Vec<Candidate>) -> (surfaces: Vec<String>)
    ensures
        text::string_views(surfaces@) == candidate::candidate_views(candidates@).map_values(
            |c: CandidateView| c.surface,
        ),
{
    let mut surfaces: Vec<String> = Vec::new();
    for i in 0..candidates.len()
        invariant
            surfaces@.len() == i,
            forall|k: int| 0 <= k < i ==> (#[trigger] surfaces@[k])@ == candidates@[k].surface@,
    {
        surfaces.push(candidates[i].surface.clone());
    }
    assert(text::string_views(surfaces@) =~= candidate::candidate_views(candidates@).map_values(
        |c: CandidateView| c.surface,
    ));
    surfaces
}

fn segment_surfaces(segments: &Vec<SegmentInfo>) -> (surfaces: Vec<String>)
    ensures
        text::string_views(surfaces@) == session::info_views(segments@).map_values(
            |s: SegmentInfoView| s.surface,
        ),
{
    let mut surfaces: Vec<String> = Vec::new();
    for i in 0..segments.len()
        invariant
            surfaces@.len() == i,
            forall|k: int| 0 <= k < i ==> (#[trigger] surfaces@[k])@ == segments@[k].surface@,
    {
        surfaces.push(segments[i].surface.clone());
    }
    assert(text::string_views(surfaces@) =~= session::info_views(segments@).map_values(
        |s: SegmentInfoView| s.surface,
    ));
    surfaces
}

/// Converts an action into a result.
pub fn action_to_result(action: SessionAction) -> (result: MymeResult)
    ensures
        result@ == result_of(action@),
{
    match action {
        SessionAction::Noop => empty_result(MymeActionType::Noop),
        SessionAction::UpdatePreedit { text, pending_romaji } => plain_result(
            MymeActionType::UpdatePreedit,
            text,
            pending_romaji,
        ),
        SessionAction::ShowCandidates {
            segments,
            active_segment,
            candidates,
            selected,
            preedit,
        } => {
            let result = MymeResult {
                action_type: MymeActionType::ShowCandidates,
                text: preedit,
                pending_romaji: String::new(),
                candidates: candidate_surfaces(&candidates),
                candidate_count: candidates.len(),
                selected_index: selected,
                segment_surfaces: segment_surfaces(&segments),
                segment_count: segments.len(),
                active_segment,
            };
            assert(result@.pending_romaji =~= Seq::<char>::empty());
            result
        },
        SessionAction::Commit(text) => {
            let result = plain_result(MymeActionType::Commit, text, String::new());
            assert(result@.pending_romaji =~= Seq::<char>::empty());
            result
        },
        SessionAction::Cancel => empty_result(MymeActionType::Cancel),
    }
}

/// The key event of a kind and a number: nothing for a character whose number is
/// no code point; a digit is brought into the range 1-9.
pub open spec fn key_of(key_type: MymeKeyType, character: u32) -> Option<KeyEvent> {
    match key_type {
        MymeKeyType::Character => if text::is_code_point(character) {
            Some(KeyEvent::Character((character as int) as char))
        } else {
            None
        },
        MymeKeyType::Space => Some(KeyEvent::Space),
        MymeKeyType::Enter => Some(KeyEvent::Enter),
        MymeKeyType::Backspace => Some(KeyEvent::Backspace),
        MymeKeyType::Escape => Some(KeyEvent::Escape),
        MymeKeyType::ArrowUp => Some(KeyEvent::ArrowUp),
        MymeKeyType::ArrowDown => Some(KeyEvent::ArrowDown),
        MymeKeyType::Number => Some(
            KeyEvent::Number(
                if character < 1 {
                    1
                } else if character > 9 {
                    9
                } else {
                    character as u8
                },
            ),
        ),
        MymeKeyType::ArrowLeft => Some(KeyEvent::ArrowLeft),
        MymeKeyType::ArrowRight => Some(KeyEvent::ArrowRight),
    }
}

/// Reads a key event.
pub fn key_event(key_type: MymeKeyType, character: u32) -> (key: Option<KeyEvent>)
    ensures
        key == key_of(key_type, character),
{
    match key_type {
        MymeKeyType::Character => match char::from_u32(character) {
            Some(ch) => Some(KeyEvent::Character(ch)),
            None => None,
        },
        MymeKeyType::Space => Some(KeyEvent::Space),
        MymeKeyType::Enter => Some(KeyEvent::Enter),
        MymeKeyType::Backspace => Some(KeyEvent::Backspace),
        MymeKeyType::Escape => Some(KeyEvent::Escape),
        MymeKeyType::ArrowUp => Some(KeyEvent::ArrowUp),
        MymeKeyType::ArrowDown => Some(KeyEvent::ArrowDown),
        MymeKeyType::Number => {
            let digit: u8 = if character < 1 {
                1
            } else if character > 9 {
                9
            } else {
                character as u8
            };
            Some(KeyEvent::Number(digit))
        },
        MymeKeyType::ArrowLeft => Some(KeyEvent::ArrowLeft),
        MymeKeyType::ArrowRight => Some(KeyEvent::ArrowRight),
    }
}

// ---------------------------------------------------------------------------
// Context
// ---------------------------------------------------------------------------

/// What is known of a dictionary file.
pub enum DictionaryFile<'a> {
    /// No usable path was given.
    NoPath,
    /// The path is empty or names no file.
    Absent,
    /// The file cannot be read as text.
    Unreadable,
    /// The text of the file.
    Text(&'a str),
}

/// The rows of a dictionary file, or nothing where it cannot be used. An absent
/// file is an empty dictionary.
pub open spec fn file_rows(file: DictionaryFile) -> Option<Seq<RowView>> {
    match file {
        DictionaryFile::NoPath | DictionaryFile::Unreadable => None,
        DictionaryFile::Absent => Some(Seq::empty()),
        DictionaryFile::Text(text) => match dictionary::rows_of_text(text@) {
            Ok(rows) => Some(rows),
            Err(_) => None,
        },
    }
}

/// The dictionary of a context.
pub enum ContextDictionary {
    Simple(SimpleDictionary),
    Composite(CompositeDictionary),
}

impl DictionaryLookup for ContextDictionary {
    open spec fn wf(&self) -> bool {
        match *self {
            ContextDictionary::Simple(d) => d.wf(),
            ContextDictionary::Composite(d) => d.wf(),
        }
    }

    open spec fn content(&self) -> Content {
        match *self {
            ContextDictionary::Simple(d) => d.content(),
            ContextDictionary::Composite(d) => d.content(),
        }
    }

    fn lookup(&self, reading: &str) -> (found: Vec<Candidate>) {
        match self {
            ContextDictionary::Simple(d) => d.lookup(reading),
            ContextDictionary::Composite(d) => d.lookup(reading),
        }
    }

    fn common_prefix_search(&self, text: &str) -> (found: Vec<(String, Vec<Candidate>)>) {
        match self {
            ContextDictionary::Simple(d) => d.common_prefix_search(text),
            ContextDictionary::Composite(d) => d.common_prefix_search(text),
        }
    }
}

/// A session with its dictionary and its selection history.
pub struct MymeContext {
    pub session: Session,
    pub dictionary: ContextDictionary,
    pub learning: Option<LearningStore>,
}

impl MymeContext {
    /// Whether the context is in order.
    pub open spec fn wf(&self) -> bool {
        &&& self.session.wf()
        &&& self.dictionary.wf()
        &&& self.learning matches Some(l) ==> l.wf()
    }

    /// What the selection history knows, where there is one.
    pub open spec fn records(&self) -> Option<Seq<RecordView>> {
        match self.learning {
            Some(l) => Some(l@.records),
            None => None,
        }
    }

    /// Whether the selection history can take part in a key: the scores that it
    /// boosts and the counts that it raises can be held.
    pub open spec fn admits(&self, key_type: MymeKeyType, character: u32) -> bool {
        match (key_of(key_type, character), self.learning) {
            (Some(key), Some(l)) => session_model::learning_fits(
                self.session@,
                key,
                self.dictionary.content(),
                l@.records,
            ),
            _ => true,
        }
    }

    /// Whether a key can be handled. Only a key that commits a (reading, surface)
    /// pair whose count is full cannot.
    pub fn can_handle(&self, key_type: MymeKeyType, character: u32) -> (yes: bool)
        requires
            self.wf(),
        ensures
            yes == self.admits(key_type, character),
    {
        match &self.learning {
            Some(l) => match key_event(key_type, character) {
                Some(key) => {
                    proof {
                        self.lemma_admits(key, l@.records);
                    }
                    l.has_room_for(&self.session.committed_by(key))
                },
                None => true,
            },
            None => true,
        }
    }

    proof fn lemma_admits(&self, key: KeyEvent, records: Seq<RecordView>)
        requires
            self.wf(),
        ensures
            session_model::learning_fits(
                self.session@,
                key,
                self.dictionary.content(),
                records,
            ) <==> learning::room_for(records, session_model::committed(self.session@, key)),
    {
        match &self.dictionary {
            ContextDictionary::Simple(d) => user_dict::lemma_simple_headroom(d),
            ContextDictionary::Composite(d) => user_dict::lemma_composite_headroom(d),
        }
        session_laws::lemma_learning_fits(
            self.session@,
            key,
            self.dictionary.content(),
            records,
        );
    }
}

fn load_dictionary(file: DictionaryFile) -> (result: Option<SimpleDictionary>)
    requires
        file matches DictionaryFile::Text(text) ==> dictionary::loadable(text@),
    ensures
        match file_rows(file) {
            Some(rows) => result matches Some(d) && d.wf() && d@ == rows,
            None => result is None,
        },
{
    match file {
        DictionaryFile::NoPath | DictionaryFile::Unreadable => None,
        DictionaryFile::Absent => Some(SimpleDictionary::empty()),
        DictionaryFile::Text(text) => match SimpleDictionary::load_from_skk_text(text) {
            Ok(d) => Some(d),
            Err(_) => None,
        },
    }
}

/// Creates a context with a system dictionary and nothing else. Returns `None`
/// where no path was given, or the file cannot be read or parsed.
pub fn myme_context_new(file: DictionaryFile) -> (result: Option<MymeContext>)
    requires
        file matches DictionaryFile::Text(text) ==> dictionary::loadable(text@),
    ensures
        match file_rows(file) {
            Some(rows) => {
                &&& result matches Some(ctx)
                &&& ctx.wf()
                &&& ctx.session@ == session_model::idle()
                &&& ctx.dictionary.content() == dictionary::rows_content(
                    rows,
                    candidate::CandidateSource::System,
                )
                &&& ctx.learning is None
            },
            None => result is None,
        },
{
    match load_dictionary(file) {
        Some(d) => Some(
            MymeContext {
                session: Session::new(),
                dictionary: ContextDictionary::Simple(d),
                learning: None,
            },
        ),
        None => None,
    }
}

/// Creates a context with a system dictionary, an optional user dictionary and an
/// optional selection history.
///
/// `user` and `history` are `None` where there is no place for such a file, and
/// hold the text of the file where there is one. Returns `None` where no path of a
/// system dictionary was given, or its file cannot be read or parsed.
pub fn myme_context_new_with_user_dict(
    file: DictionaryFile,
    user: Option<Option<&str>>,
    history: Option<Option<&str>>,
) -> (result: Option<MymeContext>)
    requires
        file matches DictionaryFile::Text(text) ==> dictionary::loadable(text@),
        user matches Some(Some(text)) ==> dictionary::loadable(text@),
    ensures
        match file_rows(file) {
            Some(rows) => {
                &&& result matches Some(ctx)
                &&& ctx.wf()
                &&& ctx.session@ == session_model::idle()
                &&& ctx.dictionary.content() == user_dict::composite_content(
                    dictionary::rows_content(rows, candidate::CandidateSource::System),
                    match user {
                        Some(text) => Some(
                            user_dict::user_content(
                                user_dict::user_rows(user_dict::text_view(text)),
                            ),
                        ),
                        None => None,
                    },
                )
                &&& match history {
                    Some(text) => ctx.learning matches Some(l) && loaded_from(text, l@),
                    None => ctx.learning is None,
                }
            },
            None => result is None,
        },
{
    match load_dictionary(file) {
        Some(system) => {
            let own = match user {
                Some(text) => Some(UserDictionary::load(text)),
                None => None,
            };
            let store = match history {
                Some(text) => Some(LearningStore::load(text)),
                None => None,
            };
            Some(
                MymeContext {
                    session: Session::new(),
                    dictionary: ContextDictionary::Composite(
                        CompositeDictionary::new(system, own),
                    ),
                    learning: store,
                },
            )
        },
        None => None,
    }
}

/// Whether a selection history was loaded from the text of its file, at the time that
/// the clock read.
pub open spec fn loaded_from(text: Option<&str>, store: LearningView) -> bool {
    match text {
        Some(t) => exists|now: u64|
            learning::clock_reads(now) && store == learning::saved(
                #[trigger] learning::records_of_text(t@, now),
            ),
        None => store == learning::saved(Seq::empty()),
    }
}

// ---------------------------------------------------------------------------
// Input handling
// ---------------------------------------------------------------------------

/// Processes a single key event and returns the action the client must perform.
/// Returns `None` where there is no context or the code point of a character is
/// invalid; nothing changes then.
pub fn myme_handle_key(
    ctx: Option<&mut MymeContext>,
    key_type: MymeKeyType,
    character: u32,
) -> (result: Option<MymeResult>)
    requires
        ctx matches Some(c) ==> c.wf() && c.admits(key_type, character),
    ensures
        match ctx {
            Some(c) => {
                &&& final(c).wf()
                &&& final(c).dictionary == c.dictionary
                &&& match key_of(key_type, character) {
                    Some(key) => {
                        let step = session_model::step(
                            c.session@,
                            key,
                            c.dictionary.content(),
                            c.records(),
                        );
                        &&& final(c).session@ == step.session
                        &&& result matches Some(r) && r@ == result_of(step.action)
                        &&& match c.learning {
                            Some(l) => final(c).learning matches Some(m) && session::learns(
                                l@,
                                step.selections,
                                m@,
                            ),
                            None => final(c).learning is None,
                        }
                    },
                    None => result is None && *final(c) == *c,
                }
            },
            None => result is None,
        },
{
    match ctx {
        Some(c) => match key_event(key_type, character) {
            Some(key) => {
                let action = c.session.handle_key(key, &c.dictionary, c.learning.as_mut());
                Some(action_to_result(action))
            },
            None => None,
        },
        None => None,
    }
}

/// Returns the state of the session, [`MymeState::Idle`] where there is no context.
pub fn myme_get_state(ctx: Option<&MymeContext>) -> (state: MymeState)
    ensures
        state == match ctx {
            Some(c) => match c.session@.state {
                SessionState::Idle => MymeState::Idle,
                SessionState::Composing => MymeState::Composing,
                SessionState::Converting => MymeState::Converting,
            },
            None => MymeState::Idle,
        },
{
    match ctx {
        Some(c) => match c.session.state() {
            SessionState::Idle => MymeState::Idle,
            SessionState::Composing => MymeState::Composing,
            SessionState::Converting => MymeState::Converting,
        },
        None => MymeState::Idle,
    }
}

} // verus!
