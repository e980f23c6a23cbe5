//! What holds of the interfaces around a session: the platform, the terminal, the
//! lookup of readings and the evaluation of conversions.

use crate::candidate::CandidateView;
use crate::cli;
use crate::cli::{KeyDecision, ModeView, TerminalKey};
use crate::dictionary;
use crate::dictionary::Content;
use crate::eval;
use crate::eval::{FailureView, TotalsView};
use crate::ffi;
use crate::ffi::{DictionaryFile, MymeActionType, MymeKeyType};
use crate::number;
use crate::order;
use crate::segmenter;
use crate::segmenter::SegmentView;
use crate::session::KeyEvent;
use crate::session_model::{ActionView, SegmentInfoView};
use crate::text;
use vstd::prelude::*;

verus! {

// ---------------------------------------------------------------------------
// The platform
// ---------------------------------------------------------------------------

/// A character key is the character of its code point, and refused for a number that is
/// none. A digit below one counts as one, and one above nine as nine. For any other key
/// the number does not matter.
pub proof fn lemma_platform_key(key_type: MymeKeyType, n: u32)
    ensures
        ({
            let key = ffi::key_of(key_type, n);
            match key_type {
                MymeKeyType::Character => if n <= 0xd7ff || 0xe000 <= n <= 0x10ffff {
                    key matches Some(KeyEvent::Character(c)) && c as int == n
                } else {
                    key is None
                },
                MymeKeyType::Number => key matches Some(KeyEvent::Number(d)) && 1 <= d <= 9 && (n
                    == d || n < 1 && d == 1 || n > 9 && d == 9),
                MymeKeyType::Space => key == Some(KeyEvent::Space),
                MymeKeyType::Enter => key == Some(KeyEvent::Enter),
                MymeKeyType::Backspace => key == Some(KeyEvent::Backspace),
                MymeKeyType::Escape => key == Some(KeyEvent::Escape),
                MymeKeyType::ArrowUp => key == Some(KeyEvent::ArrowUp),
                MymeKeyType::ArrowDown => key == Some(KeyEvent::ArrowDown),
                MymeKeyType::ArrowLeft => key == Some(KeyEvent::ArrowLeft),
                MymeKeyType::ArrowRight => key == Some(KeyEvent::ArrowRight),
            }
        }),
{
}

/// A result tells the whole action: its kind, its texts, the surfaces of the candidates
/// and of the segments in their order, how many there are, and which are selected.
pub proof fn lemma_result(action: ActionView)
    ensures
        ({
            let r = ffi::result_of(action);
            match action {
                ActionView::ShowCandidates {
                    segments,
                    active_segment,
                    candidates,
                    selected,
                    preedit,
                } => {
                    &&& r.action_type == MymeActionType::ShowCandidates
                    &&& r.text == preedit
                    &&& r.pending_romaji.len() == 0
                    &&& r.candidates.len() == candidates.len()
                    &&& r.candidate_count == candidates.len()
                    &&& forall|i: int|
                        0 <= i < candidates.len() ==> #[trigger] r.candidates[i]
                            == candidates[i].surface
                    &&& r.selected_index == selected
                    &&& r.segment_surfaces.len() == segments.len()
                    &&& r.segment_count == segments.len()
                    &&& forall|i: int|
                        0 <= i < segments.len() ==> #[trigger] r.segment_surfaces[i]
                            == segments[i].surface
                    &&& r.active_segment == active_segment
                },
                _ => {
                    &&& r.candidates.len() == 0
                    &&& r.candidate_count == 0
                    &&& r.selected_index == 0
                    &&& r.segment_surfaces.len() == 0
                    &&& r.segment_count == 0
                    &&& r.active_segment == 0
                    &&& match action {
                        ActionView::UpdatePreedit { text, pending_romaji } => r.action_type
                            == MymeActionType::UpdatePreedit && r.text == text && r.pending_romaji
                            == pending_romaji,
                        ActionView::Commit(text) => r.action_type == MymeActionType::Commit
                            && r.text == text && r.pending_romaji.len() == 0,
                        ActionView::Cancel => r.action_type == MymeActionType::Cancel
                            && r.text.len() == 0 && r.pending_romaji.len() == 0,
                        _ => r.action_type == MymeActionType::Noop && r.text.len() == 0
                            && r.pending_romaji.len() == 0,
                    }
                },
            }
        }),
{
}

/// A dictionary file gives a dictionary unless no path was given, it cannot be read, or
/// it does not load. An absent one is a dictionary without entries.
pub proof fn lemma_dictionary_file(file: DictionaryFile, reading: Seq<char>)
    ensures
        match file {
            DictionaryFile::NoPath => ffi::file_rows(file) is None,
            DictionaryFile::Unreadable => ffi::file_rows(file) is None,
            DictionaryFile::Absent => ffi::file_rows(file) matches Some(rows)
                && dictionary::entries_at(rows, reading).len() == 0,
            DictionaryFile::Text(text) => match dictionary::rows_of_text(text@) {
                Ok(rows) => ffi::file_rows(file) == Some(rows),
                Err(_) => ffi::file_rows(file) is None,
            },
        },
{
}

// ---------------------------------------------------------------------------
// The terminal
// ---------------------------------------------------------------------------

/// Whether the first argument that is one of two spellings stands at `i`.
pub open spec fn first_flag(
    args: Seq<Seq<char>>,
    long: Seq<char>,
    short: Seq<char>,
    i: int,
) -> bool {
    &&& 0 <= i < args.len()
    &&& args[i] == long || args[i] == short
    &&& forall|k: int| 0 <= k < i ==> #[trigger] args[k] != long && args[k] != short
}

proof fn lemma_first_flag(args: Seq<Seq<char>>, long: Seq<char>, short: Seq<char>)
    ensures
        cli::has_flag(args, long, short) <==> args.contains(long) || args.contains(short),
        cli::has_flag(args, long, short) ==> first_flag(
            args,
            long,
            short,
            cli::flag_place(args, long, short),
        ),
    decreases args.len(),
{
    if args.len() > 0 {
        let rest = args.drop_first();
        lemma_first_flag(rest, long, short);
        let place = cli::flag_place(args, long, short);
        if args[0] == long || args[0] == short {
            assert(args.contains(args[0]));
        } else {
            assert forall|k: int| 0 <= k < place && place < args.len() implies #[trigger] args[k]
                != long && args[k] != short by {
                if k > 0 {
                    assert(args[k] == rest[k - 1]);
                }
            }
            if rest.contains(long) {
                let k = choose|k: int| 0 <= k < rest.len() && rest[k] == long;
                assert(args[k + 1] == long);
            }
            if rest.contains(short) {
                let k = choose|k: int| 0 <= k < rest.len() && rest[k] == short;
                assert(args[k + 1] == short);
            }
            if args.contains(long) {
                let k = choose|k: int| 0 <= k < args.len() && args[k] == long;
                assert(rest[k - 1] == long);
            }
            if args.contains(short) {
                let k = choose|k: int| 0 <= k < args.len() && args[k] == short;
                assert(rest[k - 1] == short);
            }
        }
    }
}

/// The flags that are given choose the mode, in the order interactive, lookup,
/// evaluation, wherever they stand; without any of them it is the batch mode. The file
/// to evaluate is the argument behind the first flag of the evaluation.
pub proof fn lemma_mode(args: Seq<Seq<char>>, i: int)
    ensures
        ({
            let given = |long: Seq<char>, short: Seq<char>|
                args.contains(long) || args.contains(short);
            let mode = cli::mode_of(args);
            if given("--interactive"@, "-i"@) {
                mode is Interactive
            } else if given("--lookup"@, "-l"@) {
                mode is Lookup
            } else if given("--eval"@, "-e"@) {
                &&& mode is Eval
                &&& first_flag(args, "--eval"@, "-e"@, i) ==> mode == (ModeView::Eval {
                    path: if i + 1 < args.len() {
                        Some(args[i + 1])
                    } else {
                        None
                    },
                    verbose: given("--verbose"@, "-v"@),
                })
            } else {
                mode is Batch
            }
        }),
{
    lemma_first_flag(args, "--interactive"@, "-i"@);
    lemma_first_flag(args, "--lookup"@, "-l"@);
    lemma_first_flag(args, "--eval"@, "-e"@);
    lemma_first_flag(args, "--verbose"@, "-v"@);
    let place = cli::flag_place(args, "--eval"@, "-e"@);
    if first_flag(args, "--eval"@, "-e"@, i) && cli::has_flag(args, "--eval"@, "-e"@) {
        if i < place {
            assert(args[i] != "--eval"@ && args[i] != "-e"@);
        } else if place < i {
            assert(args[place] != "--eval"@ && args[place] != "-e"@);
        }
    }
}

/// Only Ctrl+C and Ctrl+D leave the program, and only keys without a meaning are
/// ignored. A digit from one to nine is a number, Space and Tab are Space, and any other
/// character is typed as it is.
pub proof fn lemma_terminal_key(key: TerminalKey, control: bool)
    ensures
        ({
            let decision = cli::decision_of(key, control);
            match key {
                TerminalKey::Char(ch) => if control && (ch == 'c' || ch == 'd') {
                    decision == KeyDecision::Quit
                } else if ch == ' ' {
                    decision == KeyDecision::Key(KeyEvent::Space)
                } else if 49 <= ch as int <= 57 {
                    decision matches KeyDecision::Key(KeyEvent::Number(d)) && d == ch as int - 48
                } else {
                    decision == KeyDecision::Key(KeyEvent::Character(ch))
                },
                TerminalKey::Enter => decision == KeyDecision::Key(KeyEvent::Enter),
                TerminalKey::Backspace => decision == KeyDecision::Key(KeyEvent::Backspace),
                TerminalKey::Esc => decision == KeyDecision::Key(KeyEvent::Escape),
                TerminalKey::Up => decision == KeyDecision::Key(KeyEvent::ArrowUp),
                TerminalKey::Down => decision == KeyDecision::Key(KeyEvent::ArrowDown),
                TerminalKey::Left => decision == KeyDecision::Key(KeyEvent::ArrowLeft),
                TerminalKey::Right => decision == KeyDecision::Key(KeyEvent::ArrowRight),
                TerminalKey::Tab => decision == KeyDecision::Key(KeyEvent::Space),
                TerminalKey::Other => decision == KeyDecision::Ignore,
            }
        }),
{
}

proof fn lemma_segments_shown(segments: Seq<SegmentInfoView>, n: int)
    requires
        0 <= n <= segments.len(),
    ensures
        cli::segments_shown(segments, n) == Seq::new(
            n as nat,
            |i: int|
                if segments[i].is_active {
                    "["@ + segments[i].surface + "]"@
                } else {
                    segments[i].surface
                },
        ).flatten(),
    decreases n,
{
    let part = |i: int|
        if segments[i].is_active {
            "["@ + segments[i].surface + "]"@
        } else {
            segments[i].surface
        };
    let all = Seq::new(n as nat, part);
    if n > 0 {
        lemma_segments_shown(segments, n - 1);
        let head = Seq::new((n - 1) as nat, part);
        assert(head.push(part(n - 1)) =~= all);
        head.lemma_flatten_push(part(n - 1));
    } else {
        assert(all =~= Seq::<Seq<char>>::empty());
    }
}

proof fn lemma_candidate_lines(candidates: Seq<CandidateView>, selected: int, n: int)
    requires
        0 <= n <= candidates.len(),
    ensures
        cli::candidate_lines(candidates, selected, n) == Seq::new(
            n as nat,
            |i: int|
                "\r  "@ + (if i == selected {
                    ">"@
                } else {
                    " "@
                }) + " "@ + number::decimal(i + 1) + ". "@ + candidates[i].surface + "\r\n"@,
        ).flatten(),
    decreases n,
{
    let line = |i: int|
        "\r  "@ + (if i == selected {
            ">"@
        } else {
            " "@
        }) + " "@ + number::decimal(i + 1) + ". "@ + candidates[i].surface + "\r\n"@;
    let all = Seq::new(n as nat, line);
    if n > 0 {
        lemma_candidate_lines(candidates, selected, n - 1);
        let head = Seq::new((n - 1) as nat, line);
        assert(head.push(line(n - 1)) =~= all);
        head.lemma_flatten_push(line(n - 1));
    } else {
        assert(all =~= Seq::<Seq<char>>::empty());
    }
}

/// During a conversion the terminal shows the segments, the focused one in brackets, and
/// below them the first nine candidates or all of them, numbered from one, with a mark
/// before the selected one.
pub proof fn lemma_rendered_candidates(
    segments: Seq<SegmentInfoView>,
    active_segment: int,
    candidates: Seq<CandidateView>,
    selected: int,
    preedit: Seq<char>,
)
    ensures
        ({
            let n = if candidates.len() < 9 {
                candidates.len()
            } else {
                9
            };
            cli::rendered(
                ActionView::ShowCandidates {
                    segments,
                    active_segment,
                    candidates,
                    selected,
                    preedit,
                },
            ) == "\r\x1b[2K[converting] "@ + Seq::new(
                segments.len(),
                |i: int|
                    if segments[i].is_active {
                        "["@ + segments[i].surface + "]"@
                    } else {
                        segments[i].surface
                    },
            ).flatten() + "\r\n"@ + Seq::new(
                n,
                |i: int|
                    "\r  "@ + (if i == selected {
                        ">"@
                    } else {
                        " "@
                    }) + " "@ + number::decimal(i + 1) + ". "@ + candidates[i].surface + "\r\n"@,
            ).flatten()
        }),
{
    let n = if candidates.len() < 9 {
        candidates.len() as int
    } else {
        9
    };
    lemma_segments_shown(segments, segments.len() as int);
    lemma_candidate_lines(candidates, selected, n);
}

/// What else the terminal shows: the kana with the romaji that is left while they are
/// composed, what was committed, that the input was cancelled, and nothing otherwise.
pub proof fn lemma_rendered_texts(action: ActionView)
    ensures
        match action {
            ActionView::Noop => cli::rendered(action).len() == 0,
            ActionView::UpdatePreedit { text, pending_romaji } => cli::rendered(action)
                == "\r\x1b[2K[composing] "@ + text + pending_romaji,
            ActionView::Commit(text) => cli::rendered(action) == "\r\x1b[2K[committed] "@ + text
                + "\r\n"@,
            ActionView::Cancel => cli::rendered(action) == "\r\x1b[2K[cancelled]\r\n"@,
            _ => true,
        },
{
}

/// A lookup line is answered by every candidate of its reading, numbered from one in
/// their order; by a note where the reading has none; and not at all where it is blank.
pub proof fn lemma_lookup_answer(content: Content, line: Seq<char>)
    ensures
        ({
            let answer = cli::lookup_answer(content, line);
            let reading = text::trimmed(line);
            let found = content(reading);
            if reading.len() == 0 {
                answer.len() == 0
            } else if found.len() == 0 {
                answer == seq!["(no candidates for "@ + reading + ")"@]
            } else {
                &&& answer.len() == found.len()
                &&& forall|i: int|
                    0 <= i < found.len() ==> #[trigger] answer[i] == number::decimal(i + 1) + ". "@
                        + found[i].surface
            }
        }),
{
}

// ---------------------------------------------------------------------------
// Evaluation
// ---------------------------------------------------------------------------

/// The surface that is selected in a segment.
pub open spec fn top(segment: SegmentView) -> Seq<char> {
    segment.candidates[0].surface
}

/// Whether the surface of segment `i` stands in `expected` where the surfaces before it
/// end.
pub open spec fn stands(segments: Seq<SegmentView>, expected: Seq<char>, i: int) -> bool {
    let surfaces = segments.map_values(|s: SegmentView| top(s));
    let from = surfaces.take(i).flatten().len();
    &&& from + surfaces[i].len() <= expected.len()
    &&& forall|k: int|
        0 <= k < surfaces[i].len() ==> #[trigger] expected[from + k] == surfaces[i][k]
}

proof fn lemma_tops(segments: Seq<SegmentView>)
    requires
        forall|i: int|
            0 <= i < segments.len() ==> (#[trigger] segments[i]).selected == 0
                && segments[i].candidates.len() > 0,
    ensures
        segmenter::joined_surfaces(segments) == segments.map_values(
            |s: SegmentView| top(s),
        ).flatten(),
    decreases segments.len(),
{
    let all = segments.map_values(|s: SegmentView| top(s));
    if segments.len() == 0 {
        assert(all =~= Seq::<Seq<char>>::empty());
    } else {
        let rest = segments.drop_last();
        assert forall|i: int| 0 <= i < rest.len() implies (#[trigger] rest[i]).selected == 0
            && rest[i].candidates.len() > 0 by {
            assert(rest[i] == segments[i]);
        }
        lemma_tops(rest);
        let last = segments[segments.len() - 1];
        assert(last.selected == 0);
        let head = rest.map_values(|s: SegmentView| top(s));
        assert(head.push(top(last)) =~= all);
        head.lemma_flatten_push(top(last));
    }
}

proof fn lemma_correct_is_standing(segments: Seq<SegmentView>, expected: Seq<char>, i: int)
    requires
        0 <= i < segments.len(),
        forall|k: int|
            0 <= k < segments.len() ==> (#[trigger] segments[k]).selected == 0
                && segments[k].candidates.len() > 0,
    ensures
        eval::is_correct(segments, expected, i) <==> stands(segments, expected, i),
{
    let surfaces = segments.map_values(|s: SegmentView| top(s));
    let head = segments.take(i);
    assert forall|k: int| 0 <= k < head.len() implies (#[trigger] head[k]).selected == 0
        && head[k].candidates.len() > 0 by {
        assert(head[k] == segments[k]);
    }
    lemma_tops(head);
    assert(head.map_values(|s: SegmentView| top(s)) =~= surfaces.take(i));
    let from = surfaces.take(i).flatten().len() as int;
    assert(segments[i].selected == 0);
    let surface = surfaces[i];
    if from + surface.len() <= expected.len() {
        let part = expected.subrange(from, from + surface.len());
        if stands(segments, expected, i) {
            assert forall|k: int| 0 <= k < surface.len() implies part[k] == surface[k] by {
                assert(expected[from + k] == surface[k]);
            }
            assert(part =~= surface);
        }
        if part == surface {
            assert forall|k: int| 0 <= k < surface.len() implies #[trigger] expected[from + k]
                == surface[k] by {
                assert(part[k] == expected[from + k]);
            }
        }
    }
}

proof fn lemma_correct_count(segments: Seq<SegmentView>, expected: Seq<char>, n: int)
    requires
        0 <= n <= segments.len(),
        forall|k: int|
            0 <= k < segments.len() ==> (#[trigger] segments[k]).selected == 0
                && segments[k].candidates.len() > 0,
    ensures
        eval::correct_count(segments, expected, n) == Seq::new(n as nat, |i: int| i).filter(
            |i: int| stands(segments, expected, i),
        ).len(),
    decreases n,
{
    let pred = |i: int| stands(segments, expected, i);
    let all = Seq::new(n as nat, |i: int| i);
    if n > 0 {
        lemma_correct_count(segments, expected, n - 1);
        lemma_correct_is_standing(segments, expected, n - 1);
        let head = Seq::new((n - 1) as nat, |i: int| i);
        assert(head.push(n - 1) =~= all);
        order::lemma_filter_push(head, n - 1, pred);
    } else {
        reveal(Seq::filter);
    }
}

/// A case is converted by the first candidate of each segment, one after the other. It
/// is an exact match if that is the expected text, and a failure otherwise, which keeps
/// the input, both texts, and the readings with their surfaces. Every segment is
/// counted, and as correct if it stands at its place in the expected text.
pub proof fn lemma_case(
    totals: TotalsView,
    content: Content,
    input: Seq<char>,
    expected: Seq<char>,
)
    ensures
        ({
            let after = eval::with_case(totals, content, input, expected);
            let segments = segmenter::segments_of(content, input);
            let n = segments.len();
            let actual = segments.map_values(|s: SegmentView| top(s)).flatten();
            &&& after.total == totals.total + 1
            &&& after.total_segments == totals.total_segments + n
            &&& after.correct_segments == totals.correct_segments + Seq::new(
                n,
                |i: int| i,
            ).filter(|i: int| stands(segments, expected, i)).len()
            &&& if actual == expected {
                &&& after.exact_match == totals.exact_match + 1
                &&& after.failures == totals.failures
            } else {
                &&& after.exact_match == totals.exact_match
                &&& after.failures == totals.failures.push(
                    FailureView {
                        input,
                        expected,
                        actual,
                        segments: Seq::new(n, |i: int| (segments[i].reading, top(segments[i]))),
                    },
                )
            }
        }),
{
    let segments = segmenter::segments_of(content, input);
    segmenter::lemma_segments(content, input);
    assert forall|i: int| 0 <= i < segments.len() implies (#[trigger] segments[i]).selected == 0
        && segments[i].candidates.len() > 0 by {}
    lemma_tops(segments);
    lemma_correct_count(segments, expected, segments.len() as int);
    assert(segmenter::selections_of(segments) =~= Seq::new(
        segments.len(),
        |i: int| (segments[i].reading, top(segments[i])),
    ));
}

/// The details of a segment are its reading, an arrow and its surface.
pub proof fn lemma_detail(reading: Seq<char>, surface: Seq<char>)
    ensures
        eval::detail_of((reading, surface)) == reading + seq!['→'] + surface,
{
    assert(reading.push('→') =~= reading + seq!['→']);
}

} // verus!
