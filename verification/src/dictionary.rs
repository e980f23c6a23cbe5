//! Dictionary lookup and the SKK text format.

use crate::candidate;
use crate::candidate::{rank, Candidate, CandidateSource, CandidateView};
use crate::number::write_number;
use crate::number;
use crate::order;
use crate::skk;
use crate::skk::{parse_entries, parse_line, DictEntry, DictEntryView, Line, LineView};
use crate::text;
use crate::text::{chars_of, split_lines, string_of};
use vstd::hash_map::StringHashMap;
use vstd::prelude::*;
use vstd::string::StringExecFns;

verus! {

// ---------------------------------------------------------------------------
// Lookup
// ---------------------------------------------------------------------------

/// What a dictionary holds: the candidates of every reading, best first.
pub type Content = spec_fn(Seq<char>) -> Seq<CandidateView>;

/// A start of a text that is a reading, with its candidates.
pub struct MatchView {
    pub reading: Seq<char>,
    pub candidates: Seq<CandidateView>,
}

/// The starts of `text` of at most `n` characters that have candidates, longest first.
pub open spec fn prefix_matches(content: Content, text: Seq<char>, n: int) -> Seq<MatchView>
    decreases n,
{
    if n <= 0 {
        Seq::empty()
    } else {
        let reading = text.take(n);
        let shorter = prefix_matches(content, text, n - 1);
        if content(reading).len() > 0 {
            seq![MatchView { reading, candidates: content(reading) }] + shorter
        } else {
            shorter
        }
    }
}

/// What a list of matches holds.
pub open spec fn match_views(list: Seq<(String, Vec<Candidate>)>) -> Seq<MatchView> {
    list.map_values(
        |m: (String, Vec<Candidate>)|
            MatchView { reading: m.0@, candidates: candidate::candidate_views(m.1@) },
    )
}

/// Prefix matches are all the starts of the text that have candidates, longest
/// first: each match is such a start with its candidates, the lengths decrease, and
/// no such start is missing.
pub proof fn lemma_prefix_matches(content: Content, text: Seq<char>, n: int)
    requires
        0 <= n <= text.len(),
    ensures
        forall|k: int|
            0 <= k < prefix_matches(content, text, n).len() ==> {
                let m = #[trigger] prefix_matches(content, text, n)[k];
                &&& 0 < m.reading.len() <= n
                &&& m.reading == text.take(m.reading.len() as int)
                &&& m.candidates == content(m.reading)
                &&& m.candidates.len() > 0
            },
        forall|i: int, j: int|
            0 <= i < j < prefix_matches(content, text, n).len() ==> (#[trigger] prefix_matches(
                content,
                text,
                n,
            )[i]).reading.len() > (#[trigger] prefix_matches(content, text, n)[j]).reading.len(),
        forall|l: int|
            1 <= l <= n && content(#[trigger] text.take(l)).len() > 0 ==> has_match(
                prefix_matches(content, text, n),
                text.take(l),
            ),
    decreases n,
{
    if n > 0 {
        lemma_prefix_matches(content, text, n - 1);
        let all = prefix_matches(content, text, n);
        let shorter = prefix_matches(content, text, n - 1);
        let reading = text.take(n);
        if content(reading).len() > 0 {
            assert(all[0].reading == reading);
            assert forall|k: int| 0 <= k < all.len() implies {
                let m = #[trigger] all[k];
                &&& 0 < m.reading.len() <= n
                &&& m.reading == text.take(m.reading.len() as int)
                &&& m.candidates == content(m.reading)
                &&& m.candidates.len() > 0
            } by {
                if k > 0 {
                    assert(all[k] == shorter[k - 1]);
                }
            }
            assert forall|i: int, j: int| 0 <= i < j < all.len() implies (
            #[trigger] all[i]).reading.len() > (#[trigger] all[j]).reading.len() by {
                assert(all[j] == shorter[j - 1]);
                if i > 0 {
                    assert(all[i] == shorter[i - 1]);
                }
            }
        }
        assert forall|l: int|
            1 <= l <= n && content(#[trigger] text.take(l)).len() > 0 implies has_match(
            all,
            text.take(l),
        ) by {
            if l < n {
                assert(has_match(shorter, text.take(l)));
                let k = choose|k: int|
                    0 <= k < shorter.len() && (#[trigger] shorter[k]).reading == text.take(l);
                if content(reading).len() > 0 {
                    assert(all[k + 1] == shorter[k]);
                } else {
                    assert(all[k] == shorter[k]);
                }
            } else {
                assert(all[0].reading == text.take(l));
            }
        }
    }
}

/// Whether one of the matches has the reading `reading`.
pub open spec fn has_match(matches: Seq<MatchView>, reading: Seq<char>) -> bool {
    exists|k: int| 0 <= k < matches.len() && (#[trigger] matches[k]).reading == reading
}

/// Whether the scores leave room for the boost of the selection history.
pub open spec fn headroom(content: Content) -> bool {
    forall|reading: Seq<char>, k: int|
        0 <= k < content(reading).len() ==> 0 <= (#[trigger] content(reading)[k]).score
            <= u32::MAX - 200
}

/// Any type that can look up conversion candidates by reading.
pub trait DictionaryLookup {
    /// Whether the dictionary is in order.
    spec fn wf(&self) -> bool;

    /// What the dictionary holds.
    spec fn content(&self) -> Content;

    /// Returns all candidates whose reading is `reading`, best first.
    fn lookup(&self, reading: &str) -> (found: Vec<Candidate>)
        requires
            self.wf(),
        ensures
            candidate::candidate_views(found@) == self.content()(reading@),
    ;

    /// Returns all readings that start `text`, longest first, each with its
    /// candidates.
    fn common_prefix_search(&self, text: &str) -> (found: Vec<(String, Vec<Candidate>)>)
        requires
            self.wf(),
        ensures
            match_views(found@) == prefix_matches(self.content(), text@, text@.len() as int),
    {
        let chars = chars_of(text);
        let mut found: Vec<(String, Vec<Candidate>)> = Vec::new();
        let mut n: usize = chars.len();
        let ghost all = prefix_matches(self.content(), text@, n as int);
        assert(match_views(found@) + all =~= all);
        while n > 0
            invariant
                self.wf(),
                chars@ == text@,
                n <= chars@.len(),
                all == prefix_matches(self.content(), text@, text@.len() as int),
                all == match_views(found@) + prefix_matches(self.content(), text@, n as int),
            decreases n,
        {
            let prefix = string_of(&chars.as_slice()[0..n]);
            assert(prefix@ =~= text@.take(n as int));
            let candidates = self.lookup(prefix.as_str());
            let ghost before = match_views(found@);
            let ghost shorter = prefix_matches(self.content(), text@, n - 1);
            if candidates.len() > 0 {
                let ghost m = MatchView {
                    reading: prefix@,
                    candidates: candidate::candidate_views(candidates@),
                };
                found.push((prefix, candidates));
                assert(match_views(found@) =~= before.push(m));
                assert(before + (seq![m] + shorter) =~= match_views(found@) + shorter);
            }
            n = n - 1;
        }
        assert(match_views(found@) + Seq::<MatchView>::empty() =~= match_views(found@));
        found
    }
}

// ---------------------------------------------------------------------------
// Errors
// ---------------------------------------------------------------------------

/// Errors of parsing a dictionary.
#[derive(Debug)]
pub enum DictionaryError {
    /// A line of the dictionary could not be parsed.
    MalformedLine { line_number: usize, detail: String },
}

/// What a [`DictionaryError`] says.
pub enum DictionaryErrorView {
    MalformedLine { line_number: int, detail: Seq<char> },
}

impl View for DictionaryError {
    type V = DictionaryErrorView;

    open spec fn view(&self) -> DictionaryErrorView {
        match *self {
            DictionaryError::MalformedLine { line_number, detail } => {
                DictionaryErrorView::MalformedLine {
                    line_number: line_number as int,
                    detail: detail@,
                }
            },
        }
    }
}

impl DictionaryError {
    /// The error in words.
    pub fn message(&self) -> (message: String)
        ensures
            self@ matches DictionaryErrorView::MalformedLine { line_number, detail } ==> message@
                == "malformed dictionary line "@ + number::decimal(line_number) + ": "@
                + detail,
    {
        match self {
            DictionaryError::MalformedLine { line_number, detail } => {
                let mut message = "malformed dictionary line ".to_owned();
                let digits = write_number(*line_number as u64);
                message.append(string_of(digits.as_slice()).as_str());
                message.append(": ");
                message.append(detail.as_str());
                message
            },
        }
    }
}

// ---------------------------------------------------------------------------
// Rows
// ---------------------------------------------------------------------------

/// A reading and its entries, in the order in which they were listed.
pub struct RowView {
    pub reading: Seq<char>,
    pub entries: Seq<DictEntryView>,
}

/// The place of the row of `reading`, or the number of rows where there is none.
pub open spec fn row_of(rows: Seq<RowView>, reading: Seq<char>) -> int
    decreases rows.len(),
{
    if rows.len() == 0 {
        0
    } else if rows[0].reading == reading {
        0
    } else {
        1 + row_of(rows.drop_first(), reading)
    }
}

/// The entries of `reading`.
pub open spec fn entries_at(rows: Seq<RowView>, reading: Seq<char>) -> Seq<DictEntryView> {
    let i = row_of(rows, reading);
    if i < rows.len() {
        rows[i].entries
    } else {
        Seq::empty()
    }
}

/// `rows` with `entries` listed after those that `reading` has.
pub open spec fn with_entries(
    rows: Seq<RowView>,
    reading: Seq<char>,
    entries: Seq<DictEntryView>,
) -> Seq<RowView> {
    let i = row_of(rows, reading);
    let row = RowView { reading, entries: entries_at(rows, reading) + entries };
    if i < rows.len() {
        rows.update(i, row)
    } else {
        rows.push(row)
    }
}

/// The number of entries.
pub open spec fn total(rows: Seq<RowView>) -> nat
    decreases rows.len(),
{
    if rows.len() == 0 {
        0
    } else {
        total(rows.drop_last()) + rows.last().entries.len()
    }
}

/// Whether `rows` are those of a dictionary: no reading has two rows, every row
/// has entries, and scores and the number of entries are bounded.
pub open spec fn rows_wf(rows: Seq<RowView>) -> bool {
    &&& forall|i: int, j: int|
        0 <= i < j < rows.len() ==> (#[trigger] rows[i]).reading != (#[trigger] rows[j]).reading
    &&& forall|i: int| 0 <= i < rows.len() ==> (#[trigger] rows[i]).entries.len() > 0
    &&& forall|i: int| 0 <= i < rows.len() ==> scores_bounded((#[trigger] rows[i]).entries)
    &&& total(rows) <= usize::MAX
}

/// Whether the scores are those of dictionary entries.
pub open spec fn scores_bounded(entries: Seq<DictEntryView>) -> bool {
    forall|k: int|
        0 <= k < entries.len() ==> 0 <= (#[trigger] entries[k]).score <= skk::MAX_ENTRY_SCORE
}

/// The rows that the first `n` lines write, or the first error in them.
pub open spec fn rows_of(lines: Seq<Seq<char>>, n: int) -> Result<
    Seq<RowView>,
    DictionaryErrorView,
>
    decreases n,
{
    if n <= 0 {
        Ok(Seq::empty())
    } else {
        match rows_of(lines, n - 1) {
            Err(e) => Err(e),
            Ok(rows) => match skk::line_of(lines[n - 1]) {
                LineView::Blank => Ok(rows),
                LineView::Entry { reading, candidates } => {
                    Ok(with_entries(rows, reading, skk::entries_of(candidates)))
                },
                LineView::Malformed { detail } => {
                    Err(DictionaryErrorView::MalformedLine { line_number: n, detail })
                },
            },
        }
    }
}

/// The rows that a dictionary text writes, or the first error in it.
pub open spec fn rows_of_text(text: Seq<char>) -> Result<Seq<RowView>, DictionaryErrorView> {
    rows_of(text::lines_of(text), text::lines_of(text).len() as int)
}

/// Whether the scores of the candidates of every line can be held.
pub open spec fn loadable(text: Seq<char>) -> bool {
    forall|i: int|
        0 <= i < text::lines_of(text).len() ==> line_fits(#[trigger] text::lines_of(text)[i])
}

/// Whether the scores of the candidates of a line can be held.
pub open spec fn line_fits(raw: Seq<char>) -> bool {
    skk::line_of(raw) matches LineView::Entry { candidates, .. } ==> candidates.len()
        <= skk::MAX_LINE_CANDIDATES
}

/// The row of a reading holds it, and no earlier row does.
pub proof fn lemma_row_of(rows: Seq<RowView>, reading: Seq<char>)
    ensures
        0 <= row_of(rows, reading) <= rows.len(),
        row_of(rows, reading) < rows.len() ==> rows[row_of(rows, reading)].reading == reading,
        forall|i: int|
            0 <= i < row_of(rows, reading) ==> (#[trigger] rows[i]).reading != reading,
    decreases rows.len(),
{
    if rows.len() > 0 && rows[0].reading != reading {
        let rest = rows.drop_first();
        lemma_row_of(rest, reading);
        assert forall|i: int| 0 <= i < row_of(rows, reading) implies (#[trigger] rows[i]).reading
            != reading by {
            if i > 0 {
                assert(rows[i] == rest[i - 1]);
            }
        }
    }
}

proof fn lemma_total_update(rows: Seq<RowView>, i: int, row: RowView)
    requires
        0 <= i < rows.len(),
    ensures
        total(rows.update(i, row)) == total(rows) - rows[i].entries.len() + row.entries.len(),
    decreases rows.len(),
{
    let new = rows.update(i, row);
    if i == rows.len() - 1 {
        assert(new.drop_last() =~= rows.drop_last());
    } else {
        lemma_total_update(rows.drop_last(), i, row);
        assert(new.drop_last() =~= rows.drop_last().update(i, row));
    }
}

proof fn lemma_total_with_entries(
    rows: Seq<RowView>,
    reading: Seq<char>,
    entries: Seq<DictEntryView>,
)
    ensures
        total(with_entries(rows, reading, entries)) == total(rows) + entries.len(),
{
    let i = row_of(rows, reading);
    let row = RowView { reading, entries: entries_at(rows, reading) + entries };
    lemma_row_of(rows, reading);
    if i < rows.len() {
        lemma_total_update(rows, i, row);
    } else {
        assert(rows.push(row).drop_last() =~= rows);
    }
}

/// Adding entries keeps rows in order, while their number can be held.
proof fn lemma_with_entries_wf(rows: Seq<RowView>, reading: Seq<char>, entries: Seq<DictEntryView>)
    requires
        rows_wf(rows),
        entries.len() > 0,
        scores_bounded(entries),
        total(rows) + entries.len() <= usize::MAX,
    ensures
        rows_wf(with_entries(rows, reading, entries)),
{
    lemma_row_of(rows, reading);
    lemma_total_with_entries(rows, reading, entries);
}

/// Listing entries adds them to those of their reading, and to no other's.
pub proof fn lemma_entries_at(
    rows: Seq<RowView>,
    reading: Seq<char>,
    entries: Seq<DictEntryView>,
    other: Seq<char>,
)
    ensures
        entries_at(with_entries(rows, reading, entries), other) == if other == reading {
            entries_at(rows, reading) + entries
        } else {
            entries_at(rows, other)
        },
    decreases rows.len(),
{
    let new = with_entries(rows, reading, entries);
    lemma_row_of(rows, reading);
    lemma_row_of(rows, other);
    lemma_row_of(new, other);
    if other == reading {
        let i = row_of(rows, reading);
        assert(new[i].reading == reading);
        let j = row_of(new, other);
        if j < i {
            assert(rows[j] == new[j]);
        }
        assert(j == i);
    } else {
        let i = row_of(rows, other);
        let j = row_of(new, other);
        if i < rows.len() {
            assert(new[i] == rows[i]);
            if j < i {
                assert(rows[j].reading == new[j].reading);
            }
        } else if j < new.len() {
            if j < rows.len() {
                assert(rows[j].reading == new[j].reading);
            }
        }
    }
}


/// A text of at most [`skk::MAX_LINE_CANDIDATES`] characters can be loaded.
pub proof fn lemma_loadable(text: Seq<char>)
    requires
        text.len() <= skk::MAX_LINE_CANDIDATES,
    ensures
        loadable(text),
{
    let lines = text::lines_of(text);
    text::lemma_lines_total(text);
    assert forall|i: int| 0 <= i < lines.len() implies line_fits(#[trigger] lines[i]) by {
        text::lemma_total_len(lines, i);
        skk::lemma_line_candidates(lines[i]);
    }
}

/// The entries that the first `n` lines list for a reading.
pub open spec fn listed_for(lines: Seq<Seq<char>>, n: int, reading: Seq<char>) -> Seq<
    DictEntryView,
>
    decreases n,
{
    if n <= 0 {
        Seq::empty()
    } else {
        let before = listed_for(lines, n - 1, reading);
        match skk::line_of(lines[n - 1]) {
            LineView::Entry { reading: own, candidates } if own == reading => before
                + skk::entries_of(candidates),
            _ => before,
        }
    }
}

/// The number of candidates that the first `n` lines list.
pub open spec fn candidates_listed(lines: Seq<Seq<char>>, n: int) -> nat
    decreases n,
{
    if n <= 0 {
        0
    } else {
        candidates_listed(lines, n - 1) + match skk::line_of(lines[n - 1]) {
            LineView::Entry { candidates, .. } => candidates.len(),
            _ => 0,
        }
    }
}

/// What a dictionary text lists is what a dictionary has: the entries of a reading
/// are those of all its lines, in order, and nothing else is counted.
pub proof fn lemma_rows_of(lines: Seq<Seq<char>>, n: int, reading: Seq<char>)
    ensures
        rows_of(lines, n) matches Ok(rows) ==> entries_at(rows, reading) == listed_for(
            lines,
            n,
            reading,
        ) && total(rows) == candidates_listed(lines, n),
    decreases n,
{
    if n > 0 {
        lemma_rows_of(lines, n - 1, reading);
        if let Ok(rows) = rows_of(lines, n - 1) {
            if let LineView::Entry { reading: own, candidates } = skk::line_of(lines[n - 1]) {
                lemma_entries_at(rows, own, skk::entries_of(candidates), reading);
                lemma_total_with_entries(rows, own, skk::entries_of(candidates));
            }
        }
    }
}

// ---------------------------------------------------------------------------
// SimpleDictionary
// ---------------------------------------------------------------------------

/// A row of a [`SimpleDictionary`].
struct DictRow {
    reading: String,
    entries: Vec<DictEntry>,
}

impl View for DictRow {
    type V = RowView;

    closed spec fn view(&self) -> RowView {
        RowView { reading: self.reading@, entries: skk::entry_views(self.entries@) }
    }
}

/// An in-memory dictionary, loaded from SKK text.
///
/// Entries are stored in the order in which they were listed; callers receive
/// them sorted by score.
pub struct SimpleDictionary {
    rows: Vec<DictRow>,
    index: StringHashMap<usize>,
}

impl View for SimpleDictionary {
    type V = Seq<RowView>;

    closed spec fn view(&self) -> Seq<RowView> {
        self.rows@.map_values(|r: DictRow| r@)
    }
}

/// The candidates of the entries of `reading`, as listed.
pub open spec fn listed(
    entries: Seq<DictEntryView>,
    reading: Seq<char>,
    source: CandidateSource,
) -> Seq<CandidateView> {
    entries.map_values(
        |e: DictEntryView|
            CandidateView { surface: e.surface, reading, score: e.score, source },
    )
}

/// The candidates that `rows` give for a reading, best first.
pub open spec fn rows_content(rows: Seq<RowView>, source: CandidateSource) -> Content {
    |reading: Seq<char>| candidate::ranked(listed(entries_at(rows, reading), reading, source))
}

/// The candidates of a dictionary have the scores of its entries.
pub proof fn lemma_content_scores(
    rows: Seq<RowView>,
    source: CandidateSource,
    reading: Seq<char>,
)
    requires
        rows_wf(rows),
    ensures
        forall|k: int|
            0 <= k < rows_content(rows, source)(reading).len() ==> 0 <= (
            #[trigger] rows_content(rows, source)(reading)[k]).score <= skk::MAX_ENTRY_SCORE,
{
    let list = listed(entries_at(rows, reading), reading, source);
    let sorted = rows_content(rows, source)(reading);
    lemma_row_of(rows, reading);
    assert forall|k: int| 0 <= k < sorted.len() implies 0 <= (#[trigger] sorted[k]).score
        <= skk::MAX_ENTRY_SCORE by {
        order::lemma_arranged_member(list, candidate::rank_order(), sorted[k]);
        assert(sorted.contains(sorted[k]));
        let i = choose|i: int| 0 <= i < list.len() && list[i] == sorted[k];
        assert(list[i].score == entries_at(rows, reading)[i].score);
    }
}

impl SimpleDictionary {
    /// Whether the index finds every row, and only rows.
    pub closed spec fn indexed(&self) -> bool {
        &&& forall|i: int|
            0 <= i < self.rows@.len() ==> self.index@.contains_key(
                (#[trigger] self.rows@[i]).reading@,
            ) && self.index@[self.rows@[i].reading@] == i
        &&& forall|key: Seq<char>| #[trigger]
            self.index@.contains_key(key) ==> self.index@[key] < self.rows@.len()
                && self.rows@[self.index@[key] as int].reading@ == key
    }

    /// A dictionary without entries.
    pub(crate) fn empty() -> (dictionary: SimpleDictionary)
        ensures
            dictionary.wf(),
            dictionary@ == Seq::<RowView>::empty(),
    {
        let dictionary = SimpleDictionary { rows: Vec::new(), index: StringHashMap::new() };
        assert(dictionary@ =~= Seq::<RowView>::empty());
        dictionary
    }

    /// The place of the row of `reading`.
    fn place(&self, reading: &str) -> (place: Option<usize>)
        requires
            self.wf(),
        ensures
            match place {
                Some(i) => i < self.rows@.len() && i == row_of(self@, reading@),
                None => row_of(self@, reading@) == self@.len(),
            },
    {
        proof {
            lemma_row_of(self@, reading@);
            let i = row_of(self@, reading@);
            if i < self@.len() {
                assert(self@[i] == self.rows@[i]@);
            }
            if self.index@.contains_key(reading@) {
                let k = self.index@[reading@] as int;
                assert(self@[k] == self.rows@[k]@);
            }
        }
        match self.index.get(reading) {
            Some(i) => Some(*i),
            None => None,
        }
    }

    /// Lists `entries` after those that `reading` has.
    fn extend(&mut self, reading: &[char], entries: Vec<DictEntry>)
        requires
            old(self).wf(),
            entries@.len() > 0,
            scores_bounded(skk::entry_views(entries@)),
            total(old(self)@) + entries@.len() <= usize::MAX,
        ensures
            final(self).wf(),
            final(self)@ == with_entries(old(self)@, reading@, skk::entry_views(entries@)),
    {
        let ghost before = self@;
        let ghost added = skk::entry_views(entries@);
        proof {
            lemma_with_entries_wf(before, reading@, added);
            lemma_row_of(before, reading@);
        }
        let reading = string_of(reading);
        match self.place(reading.as_str()) {
            Some(i) => {
                assert(before[i as int] == self.rows@[i as int]@);
                let mut entries = entries;
                let ghost own = self.rows@[i as int].entries@;
                let ghost more = entries@;
                self.rows[i].entries.append(&mut entries);
                assert(skk::entry_views(own + more) =~= skk::entry_views(own) + added);
                assert(self@ =~= with_entries(before, reading@, added));
            },
            None => {
                let n: usize = self.rows.len();
                let ghost readings = self.rows@;
                assert forall|i: int| 0 <= i < readings.len() implies (
                #[trigger] readings[i]).reading@ != reading@ by {
                    assert(before[i] == readings[i]@);
                }
                self.index.insert(reading.clone(), n);
                self.rows.push(DictRow { reading, entries });
                assert(Seq::<DictEntryView>::empty() + added =~= added);
                assert(self@ =~= with_entries(before, reading@, added));
            },
        }
    }

    /// Whether the scores of the candidates of every line of `text` can be held.
    /// Only a line of hundreds of millions of candidates has others.
    pub fn can_load(text: &str) -> (yes: bool)
        ensures
            yes == loadable(text@),
    {
        let chars = chars_of(text);
        let lines = split_lines(chars.as_slice());
        let ghost all = text::lines_of(text@);
        for i in 0..lines.len()
            invariant
                all == text::lines_of(text@),
                all == text::views(lines@),
                forall|k: int| 0 <= k < i ==> line_fits(#[trigger] all[k]),
        {
            assert(all[i as int] == lines@[i as int]@);
            match parse_line(lines[i].as_slice()) {
                Line::Entry { reading: _, candidates } => {
                    assert(text::views(candidates@).len() == candidates@.len());
                    if candidates.len() > skk::MAX_LINE_CANDIDATES {
                        assert(!line_fits(text::lines_of(text@)[i as int]));
                        return false;
                    }
                },
                _ => {},
            }
        }
        true
    }

    /// Parses an SKK-format dictionary.
    ///
    /// # Errors
    ///
    /// Returns [`DictionaryError::MalformedLine`] for the first line that is
    /// neither blank, nor a comment, nor a reading with a candidate list.
    pub fn load_from_skk_text(text: &str) -> (result: Result<SimpleDictionary, DictionaryError>)
        requires
            loadable(text@),
        ensures
            match rows_of_text(text@) {
                Ok(rows) => result matches Ok(dictionary) && dictionary.wf() && dictionary@ == rows,
                Err(e) => result matches Err(error) && error@ == e,
            },
    {
        let chars = chars_of(text);
        let lines = split_lines(chars.as_slice());
        let ghost all = text::lines_of(text@);
        let mut dictionary = SimpleDictionary::empty();
        proof {
            text::lemma_lines_total(text@);
            assert(all.skip(0) =~= all);
        }
        for i in 0..lines.len()
            invariant
                chars@ == text@,
                all == text::lines_of(text@),
                all == text::views(lines@),
                loadable(text@),
                dictionary.wf(),
                rows_of(all, i as int) == Ok::<Seq<RowView>, DictionaryErrorView>(dictionary@),
                total(dictionary@) + text::total_len(all.skip(i as int)) <= chars@.len(),
        {
            proof {
                assert(all[i as int] == lines@[i as int]@);
                assert(all.skip(i as int).drop_first() =~= all.skip(i + 1));
                skk::lemma_line_candidates(all[i as int]);
                assert(line_fits(text::lines_of(text@)[i as int]));
            }
            match parse_line(lines[i].as_slice()) {
                Line::Blank => {},
                Line::Entry { reading, candidates } => {
                    assert(text::views(candidates@).len() == candidates@.len());
                    let entries = parse_entries(&candidates);
                    let ghost added = skk::entry_views(entries@);
                    proof {
                        assert(added.len() == entries@.len());
                        assert(chars.len() == chars@.len());
                        assert(all.skip(i as int)[0] == all[i as int]);
                        assert forall|k: int| 0 <= k < added.len() implies 0 <= (
                        #[trigger] added[k]).score <= skk::MAX_ENTRY_SCORE by {
                            assert(added[k] == entries@[k]@);
                        }
                        lemma_total_with_entries(dictionary@, reading@, added);
                    }
                    dictionary.extend(reading.as_slice(), entries);
                },
                Line::Malformed { detail } => {
                    proof {
                        lemma_first_error(all, i + 1, all.len() as int);
                    }
                    return Err(DictionaryError::MalformedLine { line_number: i + 1, detail });
                },
            }
        }
        Ok(dictionary)
    }

    /// The total number of (reading, surface) pairs stored.
    pub fn entry_count(&self) -> (count: usize)
        requires
            self.wf(),
        ensures
            count == total(self@),
    {
        let mut count: usize = 0;
        assert(self@.take(0) =~= Seq::<RowView>::empty());
        for i in 0..self.rows.len()
            invariant
                self.wf(),
                self@.len() == self.rows@.len(),
                count == total(self@.take(i as int)),
        {
            proof {
                let head = self@.take(i + 1);
                assert(head.drop_last() =~= self@.take(i as int));
                assert(head.last() == self.rows@[i as int]@);
                lemma_total_take(self@, i + 1);
            }
            count = count + self.rows[i].entries.len();
        }
        assert(self@.take(self@.len() as int) =~= self@);
        count
    }
}

/// An error in the first lines is the error of the text.
proof fn lemma_first_error(lines: Seq<Seq<char>>, n: int, m: int)
    requires
        n <= m,
        rows_of(lines, n) is Err,
    ensures
        rows_of(lines, m) == rows_of(lines, n),
    decreases m - n,
{
    if n < m {
        lemma_first_error(lines, n, m - 1);
    }
}

proof fn lemma_total_take(rows: Seq<RowView>, n: int)
    requires
        0 <= n <= rows.len(),
    ensures
        total(rows.take(n)) <= total(rows),
    decreases rows.len() - n,
{
    if n < rows.len() {
        lemma_total_take(rows, n + 1);
        assert(rows.take(n + 1).drop_last() =~= rows.take(n));
    } else {
        assert(rows.take(n) =~= rows);
    }
}

impl DictionaryLookup for SimpleDictionary {
    open spec fn wf(&self) -> bool {
        &&& rows_wf(self@)
        &&& self.indexed()
    }

    open spec fn content(&self) -> Content {
        rows_content(self@, CandidateSource::System)
    }

    fn lookup(&self, reading: &str) -> (found: Vec<Candidate>) {
        let mut candidates: Vec<Candidate> = Vec::new();
        let ghost entries = entries_at(self@, reading@);
        let ghost all = listed(entries, reading@, CandidateSource::System);
        match self.place(reading) {
            Some(place) => {
                let row = &self.rows[place];
                assert(self@[place as int] == row@);
                for i in 0..row.entries.len()
                    invariant
                        entries == skk::entry_views(row.entries@),
                        all == listed(entries, reading@, CandidateSource::System),
                        candidate::candidate_views(candidates@) == all.take(i as int),
                {
                    let entry = &row.entries[i];
                    assert(entries[i as int] == entry@);
                    let ghost before = candidate::candidate_views(candidates@);
                    let c = Candidate::new(
                        entry.surface.as_str(),
                        reading,
                        entry.score,
                        CandidateSource::System,
                    );
                    candidates.push(c);
                    assert(candidate::candidate_views(candidates@) =~= before.push(c@));
                    assert(all.take(i + 1) =~= all.take(i as int).push(all[i as int]));
                }
                assert(all.take(entries.len() as int) =~= all);
            },
            None => {
                assert(candidate::candidate_views(candidates@) =~= all);
            },
        }
        rank(candidates)
    }
}

} // verus!
