//! What holds of dictionary texts and of the dictionaries loaded from them.

use crate::candidate;
use crate::candidate::{Candidate, CandidateSource, CandidateView};
use crate::dictionary;
use crate::dictionary::{Content, DictionaryErrorView, RowView};
use crate::skk;
use crate::skk::{DictEntryView, LineView};
use crate::skk_laws;
use crate::text;
use crate::text_laws;
use vstd::prelude::*;

verus! {

// ---------------------------------------------------------------------------
// Lines
// ---------------------------------------------------------------------------

/// Whether no line is malformed.
pub open spec fn well_formed(lines: Seq<Seq<char>>) -> bool {
    forall|i: int| 0 <= i < lines.len() ==> !(skk::line_of(#[trigger] lines[i]) is Malformed)
}

/// Whether the scores of the candidates of every line can be held.
pub open spec fn lines_fit(lines: Seq<Seq<char>>) -> bool {
    forall|i: int| 0 <= i < lines.len() ==> dictionary::line_fits(#[trigger] lines[i])
}

/// The number of candidates that the lines list.
pub open spec fn count(lines: Seq<Seq<char>>) -> nat {
    dictionary::candidates_listed(lines, lines.len() as int)
}

/// The entries that the lines list for a reading.
pub open spec fn entries(lines: Seq<Seq<char>>, reading: Seq<char>) -> Seq<DictEntryView> {
    dictionary::listed_for(lines, lines.len() as int, reading)
}

/// A text loads exactly if none of its lines is malformed.
pub proof fn lemma_loads(lines: Seq<Seq<char>>, n: int)
    requires
        0 <= n <= lines.len(),
    ensures
        dictionary::rows_of(lines, n) is Ok <==> well_formed(lines.take(n)),
    decreases n,
{
    let head = lines.take(n);
    if n > 0 {
        lemma_loads(lines, n - 1);
        let shorter = lines.take(n - 1);
        assert(head[n - 1] == lines[n - 1]);
        if well_formed(head) {
            assert forall|i: int| 0 <= i < shorter.len() implies !(skk::line_of(
                #[trigger] shorter[i],
            ) is Malformed) by {
                assert(shorter[i] == head[i]);
            }
        }
        if dictionary::rows_of(lines, n) is Ok {
            assert forall|i: int| 0 <= i < head.len() implies !(skk::line_of(
                #[trigger] head[i],
            ) is Malformed) by {
                if i < n - 1 {
                    assert(shorter[i] == head[i]);
                }
            }
        }
    }
}

/// Comments and blank lines add nothing.
pub proof fn lemma_blank_lines(lines: Seq<Seq<char>>, n: int)
    requires
        0 <= n <= lines.len(),
        forall|i: int| 0 <= i < lines.len() ==> skk::line_of(#[trigger] lines[i]) is Blank,
    ensures
        dictionary::candidates_listed(lines, n) == 0,
        dictionary::rows_of(lines, n) == Ok::<Seq<RowView>, dictionary::DictionaryErrorView>(
            Seq::empty(),
        ),
    decreases n,
{
    if n > 0 {
        lemma_blank_lines(lines, n - 1);
        assert(skk::line_of(lines[n - 1]) is Blank);
    }
}

proof fn lemma_first_lines(x: Seq<Seq<char>>, y: Seq<Seq<char>>, n: int, reading: Seq<char>)
    requires
        0 <= n <= x.len(),
    ensures
        dictionary::candidates_listed(x + y, n) == dictionary::candidates_listed(x, n),
        dictionary::listed_for(x + y, n, reading) == dictionary::listed_for(x, n, reading),
    decreases n,
{
    if n > 0 {
        lemma_first_lines(x, y, n - 1, reading);
        assert((x + y)[n - 1] == x[n - 1]);
    }
}

proof fn lemma_more_lines(x: Seq<Seq<char>>, y: Seq<Seq<char>>, n: int, reading: Seq<char>)
    requires
        0 <= n <= y.len(),
    ensures
        dictionary::candidates_listed(x + y, x.len() + n) == count(x)
            + dictionary::candidates_listed(y, n),
        dictionary::listed_for(x + y, x.len() + n, reading) == entries(x, reading)
            + dictionary::listed_for(y, n, reading),
    decreases n,
{
    if n == 0 {
        lemma_first_lines(x, y, x.len() as int, reading);
        assert(entries(x, reading) + Seq::<DictEntryView>::empty() =~= entries(x, reading));
    } else {
        lemma_more_lines(x, y, n - 1, reading);
        assert((x + y)[x.len() + n - 1] == y[n - 1]);
        let before = dictionary::listed_for(y, n - 1, reading);
        if let LineView::Entry { reading: own, candidates } = skk::line_of(y[n - 1]) {
            let more = skk::entries_of(candidates);
            assert((entries(x, reading) + before) + more =~= entries(x, reading) + (before
                + more));
        }
    }
}

/// Lines after lines list what both list.
pub proof fn lemma_concat(x: Seq<Seq<char>>, y: Seq<Seq<char>>, reading: Seq<char>)
    ensures
        count(x + y) == count(x) + count(y),
        entries(x + y, reading) == entries(x, reading) + entries(y, reading),
        well_formed(x + y) <==> well_formed(x) && well_formed(y),
        lines_fit(x + y) <==> lines_fit(x) && lines_fit(y),
{
    let both = x + y;
    lemma_more_lines(x, y, y.len() as int, reading);
    assert forall|i: int| 0 <= i < x.len() implies #[trigger] x[i] == both[i] by {}
    assert forall|i: int| 0 <= i < y.len() implies #[trigger] y[i] == both[x.len() + i] by {}
    assert forall|i: int| 0 <= i < both.len() implies #[trigger] both[i] == (if i < x.len() {
        x[i]
    } else {
        y[i - x.len()]
    }) by {}
}

// ---------------------------------------------------------------------------
// Joined texts
// ---------------------------------------------------------------------------

/// Whether two lists of lines list the same.
pub open spec fn alike(x: Seq<Seq<char>>, y: Seq<Seq<char>>, reading: Seq<char>) -> bool {
    &&& count(x) == count(y)
    &&& entries(x, reading) == entries(y, reading)
    &&& well_formed(x) == well_formed(y)
    &&& lines_fit(x) == lines_fit(y)
}

proof fn lemma_one_line(line: Seq<char>, other: Seq<char>, reading: Seq<char>)
    requires
        skk::line_of(line) == skk::line_of(other),
    ensures
        alike(seq![line], seq![other], reading),
{
    let x = seq![line];
    let y = seq![other];
    assert(x[0] == line && y[0] == other);
    reveal_with_fuel(dictionary::candidates_listed, 2);
    reveal_with_fuel(dictionary::listed_for, 2);
}

/// A newline at the end of a text changes nothing.
proof fn lemma_ended(a: Seq<char>, reading: Seq<char>)
    ensures
        alike(text::lines_of(a + seq!['\n']), text::lines_of(a), reading),
    decreases a.len(),
{
    let ended = a + seq!['\n'];
    let n = text::first_of(a, '\n');
    text::lemma_first_of(a, '\n');
    assert forall|i: int| 0 <= i < n implies ended[i] != '\n' by {
        assert(ended[i] == a[i]);
    }
    assert(ended[n] == '\n') by {
        if n < a.len() {
            assert(ended[n] == a[n]);
        }
    }
    text::lemma_first_of_is(ended, '\n', n);
    assert(ended.take(n) =~= a.take(n));
    if n < a.len() {
        let rest = a.skip(n + 1);
        assert(ended.skip(n + 1) =~= rest + seq!['\n']);
        lemma_ended(rest, reading);
        let line = seq![text::without_cr(a.take(n))];
        lemma_concat(line, text::lines_of(rest + seq!['\n']), reading);
        lemma_concat(line, text::lines_of(rest), reading);
    } else {
        let none = Seq::<char>::empty();
        assert(ended.skip(n + 1) =~= none);
        assert(a.take(n) =~= a);
        assert(text::lines_of(none) =~= Seq::<Seq<char>>::empty());
        let line = text::without_cr(a);
        assert(text::lines_of(ended) =~= seq![line]);
        if a.len() > 0 {
            text::lemma_without_cr_trimmed(a);
            lemma_one_line(line, a, reading);
        } else {
            assert(line =~= none);
            assert(text::trimmed(none) =~= none);
            let one = seq![none];
            assert(one[0] == none);
            assert(skk::line_of(none) is Blank);
            reveal_with_fuel(dictionary::candidates_listed, 2);
            reveal_with_fuel(dictionary::listed_for, 2);
            assert(text::lines_of(a) =~= Seq::<Seq<char>>::empty());
        }
    }
}

proof fn lemma_lines_joined(a: Seq<char>, b: Seq<char>)
    ensures
        text::lines_of(a + seq!['\n'] + b) == text::lines_of(a + seq!['\n']) + text::lines_of(b),
    decreases a.len(),
{
    let ended = a + seq!['\n'];
    let both = a + seq!['\n'] + b;
    let n = text::first_of(a, '\n');
    text::lemma_first_of(a, '\n');
    assert forall|i: int| 0 <= i < n implies ended[i] != '\n' && both[i] != '\n' by {
        assert(ended[i] == a[i] && both[i] == a[i]);
    }
    assert(ended[n] == '\n' && both[n] == '\n') by {
        if n < a.len() {
            assert(ended[n] == a[n] && both[n] == a[n]);
        }
    }
    text::lemma_first_of_is(ended, '\n', n);
    text::lemma_first_of_is(both, '\n', n);
    let line = seq![text::without_cr(a.take(n))];
    assert(ended.take(n) =~= a.take(n));
    assert(both.take(n) =~= a.take(n));
    if n < a.len() {
        let rest = a.skip(n + 1);
        assert(ended.skip(n + 1) =~= rest + seq!['\n']);
        assert(both.skip(n + 1) =~= rest + seq!['\n'] + b);
        lemma_lines_joined(rest, b);
        assert(line + (text::lines_of(rest + seq!['\n']) + text::lines_of(b)) =~= (line
            + text::lines_of(rest + seq!['\n'])) + text::lines_of(b));
    } else {
        let none = Seq::<char>::empty();
        assert(ended.skip(n + 1) =~= none);
        assert(both.skip(n + 1) =~= b);
        assert(text::lines_of(none) =~= Seq::<Seq<char>>::empty());
        assert(text::lines_of(ended) =~= line);
    }
}

/// Two dictionary texts, joined by a newline, make one: it loads where both load,
/// a reading has the entries of both, and the entries of both are counted.
pub proof fn lemma_joined_texts(a: Seq<char>, b: Seq<char>, reading: Seq<char>)
    ensures
        dictionary::loadable(a + seq!['\n'] + b) <==> dictionary::loadable(a)
            && dictionary::loadable(b),
        dictionary::rows_of_text(a + seq!['\n'] + b) is Ok <==> dictionary::rows_of_text(a) is Ok
            && dictionary::rows_of_text(b) is Ok,
        dictionary::rows_of_text(a) matches Ok(rows_a) ==> (dictionary::rows_of_text(
            b,
        ) matches Ok(rows_b) ==> (dictionary::rows_of_text(a + seq!['\n'] + b) matches Ok(rows)
            ==> dictionary::total(rows) == dictionary::total(rows_a) + dictionary::total(rows_b)
            && dictionary::entries_at(rows, reading) == dictionary::entries_at(rows_a, reading)
            + dictionary::entries_at(rows_b, reading))),
{
    let both = a + seq!['\n'] + b;
    let la = text::lines_of(a);
    let lb = text::lines_of(b);
    let ended = text::lines_of(a + seq!['\n']);
    let all = text::lines_of(both);
    lemma_ended(a, reading);
    lemma_lines_joined(a, b);
    lemma_concat(ended, lb, reading);
    lemma_loads(la, la.len() as int);
    lemma_loads(lb, lb.len() as int);
    lemma_loads(all, all.len() as int);
    assert(la.take(la.len() as int) =~= la);
    assert(lb.take(lb.len() as int) =~= lb);
    assert(all.take(all.len() as int) =~= all);
    dictionary::lemma_rows_of(la, la.len() as int, reading);
    dictionary::lemma_rows_of(lb, lb.len() as int, reading);
    dictionary::lemma_rows_of(all, all.len() as int, reading);
    assert(dictionary::loadable(a) == lines_fit(la));
    assert(dictionary::loadable(b) == lines_fit(lb));
    assert(dictionary::loadable(both) == lines_fit(all));
}

// ---------------------------------------------------------------------------
// Counting by readings
// ---------------------------------------------------------------------------

/// The number of candidates that a dictionary gives for the readings of the first
/// `n` rows.
pub open spec fn found_total(content: Content, rows: Seq<RowView>, n: int) -> int
    decreases n,
{
    if n <= 0 {
        0
    } else {
        found_total(content, rows, n - 1) + content(rows[n - 1].reading).len()
    }
}

/// The entries of a dictionary are the candidates of all its readings: as many as
/// lookups of its different readings give, and a lookup of any other reading gives
/// none.
pub proof fn lemma_count_by_readings(rows: Seq<RowView>, source: CandidateSource)
    requires
        dictionary::rows_wf(rows),
    ensures
        found_total(dictionary::rows_content(rows, source), rows, rows.len() as int)
            == dictionary::total(rows),
        forall|reading: Seq<char>|
            (forall|i: int| 0 <= i < rows.len() ==> (#[trigger] rows[i]).reading != reading)
                ==> (#[trigger] dictionary::rows_content(rows, source)(reading)).len() == 0,
{
    lemma_found_total(rows, source, rows.len() as int);
    assert(rows.take(rows.len() as int) =~= rows);
    let content = dictionary::rows_content(rows, source);
    assert forall|reading: Seq<char>|
        (forall|i: int| 0 <= i < rows.len() ==> (#[trigger] rows[i]).reading != reading) implies (
    #[trigger] content(reading)).len() == 0 by {
        dictionary::lemma_row_of(rows, reading);
        candidate::lemma_ranked(
            dictionary::listed(dictionary::entries_at(rows, reading), reading, source),
        );
    }
}

proof fn lemma_found_total(rows: Seq<RowView>, source: CandidateSource, n: int)
    requires
        dictionary::rows_wf(rows),
        0 <= n <= rows.len(),
    ensures
        found_total(dictionary::rows_content(rows, source), rows, n) == dictionary::total(
            rows.take(n),
        ),
    decreases n,
{
    if n > 0 {
        lemma_found_total(rows, source, n - 1);
        let head = rows.take(n);
        let reading = rows[n - 1].reading;
        assert(head.drop_last() =~= rows.take(n - 1));
        assert(head.last() == rows[n - 1]);
        dictionary::lemma_row_of(rows, reading);
        let i = dictionary::row_of(rows, reading);
        assert(rows[i].reading == rows[n - 1].reading);
        assert(i == n - 1);
        candidate::lemma_ranked(
            dictionary::listed(dictionary::entries_at(rows, reading), reading, source),
        );
    }
}

// ---------------------------------------------------------------------------
// What a text lists
// ---------------------------------------------------------------------------

/// The first malformed line of a text is its error, by its number counted from one;
/// a text without one loads.
pub proof fn lemma_first_malformed_line(text: Seq<char>)
    ensures
        match dictionary::rows_of_text(text) {
            Err(DictionaryErrorView::MalformedLine { line_number, detail }) => {
                &&& 1 <= line_number <= text::lines_of(text).len()
                &&& skk::line_of(text::lines_of(text)[line_number - 1]) == (LineView::Malformed {
                    detail,
                })
                &&& forall|i: int|
                    0 <= i < line_number - 1 ==> !(skk::line_of(
                        #[trigger] text::lines_of(text)[i],
                    ) is Malformed)
            },
            Ok(_) => forall|i: int|
                0 <= i < text::lines_of(text).len() ==> !(skk::line_of(
                    #[trigger] text::lines_of(text)[i],
                ) is Malformed),
        },
{
    let lines = text::lines_of(text);
    lemma_error_of(lines, lines.len() as int);
}

proof fn lemma_error_of(lines: Seq<Seq<char>>, n: int)
    requires
        0 <= n <= lines.len(),
    ensures
        match dictionary::rows_of(lines, n) {
            Err(DictionaryErrorView::MalformedLine { line_number, detail }) => {
                &&& 1 <= line_number <= n
                &&& skk::line_of(lines[line_number - 1]) == (LineView::Malformed { detail })
                &&& forall|i: int|
                    0 <= i < line_number - 1 ==> !(skk::line_of(
                        #[trigger] lines[i],
                    ) is Malformed)
            },
            Ok(_) => forall|i: int|
                0 <= i < n ==> !(skk::line_of(#[trigger] lines[i]) is Malformed),
        },
    decreases n,
{
    if n > 0 {
        lemma_error_of(lines, n - 1);
    }
}

/// A text of one line that is an entry lists its candidates for its reading, and
/// nothing for any other.
pub proof fn lemma_one_entry(
    line: Seq<char>,
    reading: Seq<char>,
    candidates: Seq<Seq<char>>,
    other: Seq<char>,
)
    requires
        forall|i: int| 0 <= i < line.len() ==> #[trigger] line[i] != '\n',
        skk::line_of(line) == (LineView::Entry { reading, candidates }),
    ensures
        dictionary::rows_of_text(line) matches Ok(rows) && {
            &&& dictionary::entries_at(rows, reading) == skk::entries_of(candidates)
            &&& other != reading ==> dictionary::entries_at(rows, other).len() == 0
            &&& dictionary::total(rows) == candidates.len()
        },
{
    text_laws::lemma_last_line(line);
    skk_laws::lemma_comment(line);
    let lines = text::lines_of(line);
    assert(lines.len() == 1 && lines[0] == line) by {
        if line.len() == 0 {
            assert(text::trimmed(line).len() == 0) by {
                text::lemma_trimmed_len(line);
            }
        }
    }
    reveal_with_fuel(dictionary::rows_of, 2);
    reveal_with_fuel(dictionary::listed_for, 2);
    reveal_with_fuel(dictionary::candidates_listed, 2);
    dictionary::lemma_rows_of(lines, 1, reading);
    dictionary::lemma_rows_of(lines, 1, other);
    let entries = skk::entries_of(candidates);
    assert(Seq::<DictEntryView>::empty() + entries =~= entries);
}

/// A blank line or a comment anywhere in a text changes nothing: the text loads exactly
/// if it loads without that line, and then a lookup of any reading gives the same.
pub proof fn lemma_comment_changes_nothing(
    a: Seq<char>,
    comment: Seq<char>,
    b: Seq<char>,
    reading: Seq<char>,
)
    requires
        forall|i: int| 0 <= i < comment.len() ==> #[trigger] comment[i] != '\n',
        text::trimmed(comment).len() == 0 || text::trimmed(comment)[0] == ';',
    ensures
        ({
            let with = dictionary::rows_of_text(a + seq!['\n'] + (comment + seq!['\n'] + b));
            let without = dictionary::rows_of_text(a + seq!['\n'] + b);
            &&& with is Ok <==> without is Ok
            &&& with matches Ok(rows) ==> (without matches Ok(other) ==> {
                &&& dictionary::entries_at(rows, reading) == dictionary::entries_at(other, reading)
                &&& dictionary::total(rows) == dictionary::total(other)
                &&& forall|source: CandidateSource|
                    #[trigger] dictionary::rows_content(rows, source)(reading)
                        == dictionary::rows_content(other, source)(reading)
            })
        }),
{
    skk_laws::lemma_comment(comment);
    lemma_only_comment(comment);
    let none = Seq::<RowView>::empty();
    assert(dictionary::entries_at(none, reading) =~= Seq::<DictEntryView>::empty());
    assert(dictionary::total(none) == 0);
    lemma_joined_texts(comment, b, reading);
    lemma_joined_texts(a, comment + seq!['\n'] + b, reading);
    lemma_joined_texts(a, b, reading);
    if let Ok(rows_b) = dictionary::rows_of_text(b) {
        let entries = dictionary::entries_at(rows_b, reading);
        assert(Seq::<DictEntryView>::empty() + entries =~= entries);
    }
}

/// A comment alone is an empty dictionary.
proof fn lemma_only_comment(comment: Seq<char>)
    requires
        forall|i: int| 0 <= i < comment.len() ==> #[trigger] comment[i] != '\n',
        skk::line_of(comment) is Blank,
    ensures
        dictionary::rows_of_text(comment) == Ok::<Seq<RowView>, DictionaryErrorView>(
            Seq::empty(),
        ),
{
    text_laws::lemma_last_line(comment);
    let lines = text::lines_of(comment);
    assert forall|i: int| 0 <= i < lines.len() implies skk::line_of(#[trigger] lines[i]) is Blank by {
        assert(lines[i] == comment);
    }
    lemma_blank_lines(lines, lines.len() as int);
}

/// A lookup gives the entries of the reading, each once with its surface and score,
/// under that reading and from that source.
pub proof fn lemma_lookup(
    rows: Seq<RowView>,
    source: CandidateSource,
    reading: Seq<char>,
)
    ensures
        dictionary::rows_content(rows, source)(reading).to_multiset()
            == dictionary::entries_at(rows, reading).map_values(
            |e: DictEntryView|
                CandidateView { surface: e.surface, reading, score: e.score, source },
        ).to_multiset(),
{
    let entries = dictionary::entries_at(rows, reading);
    let list = dictionary::listed(entries, reading, source);
    candidate::lemma_ranked(list);
    assert(list =~= entries.map_values(
        |e: DictEntryView|
            CandidateView { surface: e.surface, reading, score: e.score, source },
    ));
}

// ---------------------------------------------------------------------------
// Lines written out again
// ---------------------------------------------------------------------------

/// Whether no line holds a newline.
pub open spec fn are_lines(lines: Seq<Seq<char>>) -> bool {
    forall|k: int, i: int|
        0 <= k < lines.len() && 0 <= i < lines[k].len() ==> #[trigger] lines[k][i] != '\n'
}

/// The lines of a text hold no newline.
pub proof fn lemma_are_lines(text: Seq<char>)
    ensures
        are_lines(text::lines_of(text)),
    decreases text.len(),
{
    let n = text::first_of(text, '\n');
    text::lemma_first_of(text, '\n');
    let lines = text::lines_of(text);
    if n < text.len() {
        let rest = text::lines_of(text.skip(n + 1));
        lemma_are_lines(text.skip(n + 1));
        assert forall|k: int, i: int|
            0 <= k < lines.len() && 0 <= i < lines[k].len() implies #[trigger] lines[k][i]
            != '\n' by {
            if k == 0 {
                assert(lines[0] == text::without_cr(text.take(n)));
                assert(lines[0][i] == text[i]);
            } else {
                assert(lines[k] == rest[k - 1]);
                assert(rest[k - 1][i] != '\n');
            }
        }
    }
}

/// Lines that are written out, each with a newline at its end, list the same when they
/// are read again.
pub proof fn lemma_written_lines(lines: Seq<Seq<char>>, reading: Seq<char>)
    requires
        are_lines(lines),
    ensures
        alike(text::lines_of(text::joined(lines)), lines, reading),
    decreases lines.len(),
{
    if lines.len() == 0 {
        assert(text::lines_of(text::joined(lines)) =~= lines);
    } else {
        let line = lines[0];
        let rest = lines.drop_first();
        assert forall|k: int, i: int|
            0 <= k < rest.len() && 0 <= i < rest[k].len() implies #[trigger] rest[k][i] != '\n' by {
            assert(rest[k] == lines[k + 1]);
            assert(lines[k + 1][i] != '\n');
        }
        lemma_written_lines(rest, reading);
        let all = text::joined(lines);
        let n = line.len() as int;
        assert forall|i: int| 0 <= i < n implies all[i] != '\n' by {
            assert(all[i] == line[i]);
            assert(lines[0][i] != '\n');
        }
        assert(all[n] == '\n');
        text::lemma_first_of_is(all, '\n', n);
        assert(all.take(n) =~= line);
        assert(all.skip(n + 1) =~= text::joined(rest));
        let read = text::without_cr(line);
        text::lemma_without_cr_trimmed(line);
        lemma_one_line(read, line, reading);
        lemma_concat(seq![read], text::lines_of(text::joined(rest)), reading);
        lemma_concat(seq![line], rest, reading);
        assert(seq![line] + rest =~= lines);
    }
}

/// What a list of matches holds is what each of them holds, in order.
pub proof fn lemma_match_views(list: Seq<(String, Vec<Candidate>)>)
    ensures
        dictionary::match_views(list).len() == list.len(),
        forall|i: int|
            0 <= i < list.len() ==> {
                let view = #[trigger] dictionary::match_views(list)[i];
                &&& view.reading == list[i].0@
                &&& view.candidates == candidate::candidate_views(list[i].1@)
            },
{
}

} // verus!
