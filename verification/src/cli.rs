//! What the command-line harness decides and shows.

use crate::candidate;
use crate::candidate::CandidateView;
use crate::dictionary::{Content, DictionaryLookup};
use crate::number;
use crate::number::write_number;
use crate::session;
use crate::session::{KeyEvent, SegmentInfo, SessionAction};
use crate::session_model::{ActionView, SegmentInfoView};
use crate::text;
use crate::text::{chars_of, same_text, string_of, trim};
use vstd::prelude::*;
use vstd::string::StringExecFns;

verus! {

// ---------------------------------------------------------------------------
// Modes
// ---------------------------------------------------------------------------

/// What the program is asked to do.
#[derive(Debug)]
pub enum Mode {
    /// Type in the terminal.
    Interactive,
    /// Look up readings.
    Lookup,
    /// Evaluate a file, where one was named.
    Eval { path: Option<String>, verbose: bool },
    /// Convert lines of romaji.
    Batch,
}

/// What a [`Mode`] says.
pub enum ModeView {
    Interactive,
    Lookup,
    Eval { path: Option<Seq<char>>, verbose: bool },
    Batch,
}

impl View for Mode {
    type V = ModeView;

    open spec fn view(&self) -> ModeView {
        match *self {
            Mode::Interactive => ModeView::Interactive,
            Mode::Lookup => ModeView::Lookup,
            Mode::Eval { path, verbose } => ModeView::Eval {
                path: match path {
                    Some(p) => Some(p@),
                    None => None,
                },
                verbose,
            },
            Mode::Batch => ModeView::Batch,
        }
    }
}

/// The place of the first argument that is one of two spellings of a flag, or the
/// number of arguments.
pub open spec fn flag_place(args: Seq<Seq<char>>, long: Seq<char>, short: Seq<char>) -> int
    decreases args.len(),
{
    if args.len() == 0 || args[0] == long || args[0] == short {
        0
    } else {
        1 + flag_place(args.drop_first(), long, short)
    }
}

/// Whether a flag is given.
pub open spec fn has_flag(args: Seq<Seq<char>>, long: Seq<char>, short: Seq<char>) -> bool {
    flag_place(args, long, short) < args.len()
}

/// What the arguments ask for. Of several modes the first in the order interactive,
/// lookup, evaluation counts; the file to evaluate follows its flag.
pub open spec fn mode_of(args: Seq<Seq<char>>) -> ModeView {
    if has_flag(args, "--interactive"@, "-i"@) {
        ModeView::Interactive
    } else if has_flag(args, "--lookup"@, "-l"@) {
        ModeView::Lookup
    } else if has_flag(args, "--eval"@, "-e"@) {
        let i = flag_place(args, "--eval"@, "-e"@) + 1;
        ModeView::Eval {
            path: if i < args.len() {
                Some(args[i])
            } else {
                None
            },
            verbose: has_flag(args, "--verbose"@, "-v"@),
        }
    } else {
        ModeView::Batch
    }
}

proof fn lemma_flag_place(args: Seq<Seq<char>>, long: Seq<char>, short: Seq<char>)
    ensures
        0 <= flag_place(args, long, short) <= args.len(),
        flag_place(args, long, short) < args.len() ==> args[flag_place(args, long, short)] == long
            || args[flag_place(args, long, short)] == short,
        forall|i: int|
            0 <= i < flag_place(args, long, short) ==> #[trigger] args[i] != long && args[i]
                != short,
    decreases args.len(),
{
    if args.len() > 0 && args[0] != long && args[0] != short {
        let rest = args.drop_first();
        lemma_flag_place(rest, long, short);
        assert forall|i: int| 0 <= i < flag_place(args, long, short) implies #[trigger] args[i]
            != long && args[i] != short by {
            if i > 0 {
                assert(args[i] == rest[i - 1]);
            }
        }
    }
}

fn find_flag(args: &Vec<String>, long: &str, short: &str) -> (i: usize)
    ensures
        i == flag_place(text::string_views(args@), long@, short@),
        i <= args@.len(),
{
    let ghost all = text::string_views(args@);
    proof {
        lemma_flag_place(all, long@, short@);
    }
    let mut i: usize = 0;
    while i < args.len() && !same_text(args[i].as_str(), long) && !same_text(
        args[i].as_str(),
        short,
    )
        invariant
            i <= args@.len(),
            all == text::string_views(args@),
            forall|k: int| 0 <= k < i ==> #[trigger] all[k] != long@ && all[k] != short@,
        decreases args@.len() - i,
    {
        assert(all[i as int] == args@[i as int]@);
        i = i + 1;
    }
    proof {
        let place = flag_place(all, long@, short@);
        if i < args@.len() {
            assert(all[i as int] == args@[i as int]@);
        }
        assert(place == i);
    }
    i
}

/// Reads the arguments of the program.
pub fn parse_args(args: &Vec<String>) -> (mode: Mode)
    ensures
        mode@ == mode_of(text::string_views(args@)),
{
    if find_flag(args, "--interactive", "-i") < args.len() {
        return Mode::Interactive;
    }
    if find_flag(args, "--lookup", "-l") < args.len() {
        return Mode::Lookup;
    }
    let eval = find_flag(args, "--eval", "-e");
    if eval < args.len() {
        let verbose = find_flag(args, "--verbose", "-v") < args.len();
        let path = if eval < args.len() - 1 {
            assert(text::string_views(args@)[eval + 1] == args@[eval + 1]@);
            Some(args[eval + 1].clone())
        } else {
            None
        };
        return Mode::Eval { path, verbose };
    }
    Mode::Batch
}

// ---------------------------------------------------------------------------
// Keys
// ---------------------------------------------------------------------------

/// A key of the terminal.
#[derive(Debug, Clone, Copy, PartialEq, Eq, Structural)]
pub enum TerminalKey {
    Char(char),
    Enter,
    Backspace,
    Esc,
    Up,
    Down,
    Left,
    Right,
    Tab,
    /// Any other key.
    Other,
}

/// What a key of the terminal asks for.
#[derive(Debug, Clone, Copy, PartialEq, Eq, Structural)]
pub enum KeyDecision {
    /// Leave the program.
    Quit,
    /// Nothing.
    Ignore,
    /// Hand the key to the session.
    Key(KeyEvent),
}

/// What a key asks for: Ctrl+C and Ctrl+D leave the program, the digits 1-9 select
/// a candidate, and Tab works as Space does.
pub open spec fn decision_of(key: TerminalKey, control: bool) -> KeyDecision {
    match key {
        TerminalKey::Char(ch) => if control && (ch == 'c' || ch == 'd') {
            KeyDecision::Quit
        } else if ch == ' ' {
            KeyDecision::Key(KeyEvent::Space)
        } else if '1' <= ch <= '9' {
            KeyDecision::Key(KeyEvent::Number((ch as int - '0' as int) as u8))
        } else {
            KeyDecision::Key(KeyEvent::Character(ch))
        },
        TerminalKey::Enter => KeyDecision::Key(KeyEvent::Enter),
        TerminalKey::Backspace => KeyDecision::Key(KeyEvent::Backspace),
        TerminalKey::Esc => KeyDecision::Key(KeyEvent::Escape),
        TerminalKey::Up => KeyDecision::Key(KeyEvent::ArrowUp),
        TerminalKey::Down => KeyDecision::Key(KeyEvent::ArrowDown),
        TerminalKey::Left => KeyDecision::Key(KeyEvent::ArrowLeft),
        TerminalKey::Right => KeyDecision::Key(KeyEvent::ArrowRight),
        TerminalKey::Tab => KeyDecision::Key(KeyEvent::Space),
        TerminalKey::Other => KeyDecision::Ignore,
    }
}

/// Decides what a key asks for.
pub fn decide_key(key: TerminalKey, control: bool) -> (decision: KeyDecision)
    ensures
        decision == decision_of(key, control),
{
    match key {
        TerminalKey::Char(ch) => {
            if control && (ch == 'c' || ch == 'd') {
                KeyDecision::Quit
            } else if ch == ' ' {
                KeyDecision::Key(KeyEvent::Space)
            } else if '1' <= ch && ch <= '9' {
                let digit: u8 = (ch as u32 - '0' as u32) as u8;
                KeyDecision::Key(KeyEvent::Number(digit))
            } else {
                KeyDecision::Key(KeyEvent::Character(ch))
            }
        },
        TerminalKey::Enter => KeyDecision::Key(KeyEvent::Enter),
        TerminalKey::Backspace => KeyDecision::Key(KeyEvent::Backspace),
        TerminalKey::Esc => KeyDecision::Key(KeyEvent::Escape),
        TerminalKey::Up => KeyDecision::Key(KeyEvent::ArrowUp),
        TerminalKey::Down => KeyDecision::Key(KeyEvent::ArrowDown),
        TerminalKey::Left => KeyDecision::Key(KeyEvent::ArrowLeft),
        TerminalKey::Right => KeyDecision::Key(KeyEvent::ArrowRight),
        TerminalKey::Tab => KeyDecision::Key(KeyEvent::Space),
        TerminalKey::Other => KeyDecision::Ignore,
    }
}

// ---------------------------------------------------------------------------
// Rendering
// ---------------------------------------------------------------------------

/// The first `n` segments, the focused one in brackets.
pub open spec fn segments_shown(segments: Seq<SegmentInfoView>, n: int) -> Seq<char>
    decreases n,
{
    if n <= 0 {
        Seq::empty()
    } else {
        let s = segments[n - 1];
        segments_shown(segments, n - 1) + if s.is_active {
            "["@ + s.surface + "]"@
        } else {
            s.surface
        }
    }
}

/// The line of candidate `i`, with a mark where it is selected.
pub open spec fn candidate_line(surface: Seq<char>, i: int, selected: int) -> Seq<char> {
    "\r  "@ + (if i == selected {
        ">"@
    } else {
        " "@
    }) + " "@ + number::decimal(i + 1) + ". "@ + surface + "\r\n"@
}

/// The lines of the first `n` candidates.
pub open spec fn candidate_lines(candidates: Seq<CandidateView>, selected: int, n: int) -> Seq<
    char,
>
    decreases n,
{
    if n <= 0 {
        Seq::empty()
    } else {
        candidate_lines(candidates, selected, n - 1) + candidate_line(
            candidates[n - 1].surface,
            n - 1,
            selected,
        )
    }
}

/// The most candidates that are shown at once.
pub const PAGE_SIZE: usize = 9;

/// What the terminal shows for an action. Carriage returns are explicit because
/// the terminal is in raw mode.
pub open spec fn rendered(action: ActionView) -> Seq<char> {
    match action {
        ActionView::Noop => Seq::empty(),
        ActionView::UpdatePreedit { text, pending_romaji } => "\r\x1b[2K[composing] "@ + text
            + pending_romaji,
        ActionView::ShowCandidates { segments, candidates, selected, .. } => {
            let n = if candidates.len() < PAGE_SIZE {
                candidates.len() as int
            } else {
                PAGE_SIZE as int
            };
            "\r\x1b[2K[converting] "@ + segments_shown(segments, segments.len() as int) + "\r\n"@
                + candidate_lines(candidates, selected, n)
        },
        ActionView::Commit(text) => "\r\x1b[2K[committed] "@ + text + "\r\n"@,
        ActionView::Cancel => "\r\x1b[2K[cancelled]\r\n"@,
    }
}

fn show_segments(segments: &Vec<SegmentInfo>) -> (out: String)
    ensures
        out@ == segments_shown(session::info_views(segments@), segments@.len() as int),
{
    let mut out = String::new();
    let ghost all = session::info_views(segments@);
    assert(out@ =~= segments_shown(all, 0));
    for i in 0..segments.len()
        invariant
            all == session::info_views(segments@),
            out@ == segments_shown(all, i as int),
    {
        let s = &segments[i];
        assert(all[i as int] == s@);
        let ghost before = out@;
        if s.is_active {
            out.append("[");
            out.append(s.surface.as_str());
            out.append("]");
            assert(out@ =~= before + ("["@ + s.surface@ + "]"@));
        } else {
            out.append(s.surface.as_str());
        }
    }
    out
}

fn show_candidate(surface: &str, i: usize, selected: usize) -> (out: String)
    requires
        i < usize::MAX,
    ensures
        out@ == candidate_line(surface@, i as int, selected as int),
{
    let mut out = "\r  ".to_owned();
    if i == selected {
        out.append(">");
    } else {
        out.append(" ");
    }
    out.append(" ");
    let digits = write_number((i + 1) as u64);
    out.append(string_of(digits.as_slice()).as_str());
    out.append(". ");
    out.append(surface);
    out.append("\r\n");
    out
}

/// Renders an action for the terminal.
pub fn render(action: &SessionAction) -> (out: String)
    ensures
        out@ == rendered(action@),
{
    match action {
        SessionAction::Noop => {
            let out = String::new();
            assert(out@ =~= Seq::<char>::empty());
            out
        },
        SessionAction::UpdatePreedit { text, pending_romaji } => {
            let mut out = "\r\x1b[2K[composing] ".to_owned();
            out.append(text.as_str());
            out.append(pending_romaji.as_str());
            out
        },
        SessionAction::ShowCandidates { segments, candidates, selected, .. } => {
            let ghost all = candidate::candidate_views(candidates@);
            let mut out = "\r\x1b[2K[converting] ".to_owned();
            out.append(show_segments(segments).as_str());
            out.append("\r\n");
            let ghost head = out@;
            let n: usize = if candidates.len() < PAGE_SIZE {
                candidates.len()
            } else {
                PAGE_SIZE
            };
            assert(out@ =~= head + candidate_lines(all, *selected as int, 0));
            for i in 0..n
                invariant
                    n <= candidates@.len(),
                    n <= PAGE_SIZE,
                    all == candidate::candidate_views(candidates@),
                    out@ == head + candidate_lines(all, *selected as int, i as int),
            {
                assert(all[i as int] == candidates@[i as int]@);
                let ghost before = candidate_lines(all, *selected as int, i as int);
                let line = show_candidate(candidates[i].surface.as_str(), i, *selected);
                out.append(line.as_str());
                assert(out@ =~= head + (before + line@));
            }
            out
        },
        SessionAction::Commit(text) => {
            let mut out = "\r\x1b[2K[committed] ".to_owned();
            out.append(text.as_str());
            out.append("\r\n");
            out
        },
        SessionAction::Cancel => "\r\x1b[2K[cancelled]\r\n".to_owned(),
    }
}

// ---------------------------------------------------------------------------
// Lookup
// ---------------------------------------------------------------------------

/// The line of candidate `i` of a lookup.
pub open spec fn numbered(surface: Seq<char>, i: int) -> Seq<char> {
    number::decimal(i + 1) + ". "@ + surface
}

/// The answer to a line of lookup input: nothing to a blank line, the numbered
/// candidates of the reading, or a note that it has none.
pub open spec fn lookup_answer(content: Content, line: Seq<char>) -> Seq<Seq<char>> {
    let reading = text::trimmed(line);
    let candidates = content(reading);
    if reading.len() == 0 {
        Seq::empty()
    } else if candidates.len() == 0 {
        seq!["(no candidates for "@ + reading + ")"@]
    } else {
        Seq::new(candidates.len(), |i: int| numbered(candidates[i].surface, i))
    }
}

/// Answers a line of lookup input.
pub fn answer_lookup<D: DictionaryLookup + ?Sized>(line: &str, dict: &D) -> (answer: Vec<String>)
    requires
        dict.wf(),
    ensures
        text::string_views(answer@) == lookup_answer(dict.content(), line@),
{
    let chars = chars_of(line);
    let body = trim(chars.as_slice());
    let mut answer: Vec<String> = Vec::new();
    if body.len() == 0 {
        assert(text::string_views(answer@) =~= lookup_answer(dict.content(), line@));
        return answer;
    }
    let reading = string_of(body);
    let candidates = dict.lookup(reading.as_str());
    let ghost all = candidate::candidate_views(candidates@);
    if candidates.len() == 0 {
        assert(all.len() == 0);
        let mut note = "(no candidates for ".to_owned();
        note.append(reading.as_str());
        note.append(")");
        answer.push(note);
        assert(text::string_views(answer@) =~= lookup_answer(dict.content(), line@));
        return answer;
    }
    for i in 0..candidates.len()
        invariant
            all == candidate::candidate_views(candidates@),
            answer@.len() == i,
            forall|k: int| 0 <= k < i ==> (#[trigger] answer@[k])@ == numbered(all[k].surface, k),
    {
        assert(all[i as int] == candidates@[i as int]@);
        let digits = write_number((i + 1) as u64);
        let mut out = string_of(digits.as_slice());
        out.append(". ");
        out.append(candidates[i].surface.as_str());
        answer.push(out);
    }
    assert(all.len() == candidates@.len());
    assert(text::string_views(answer@) =~= lookup_answer(dict.content(), line@));
    answer
}

} // verus!
