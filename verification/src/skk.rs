//! Lines of an SKK dictionary.
//!
//! ```text
//! ; a comment
//! へんかん /変換/偏官/
//! てすと /テスト;freq=1024/試験/
//! ```
//!
//! A line holds a reading, a space, and a candidate list that starts and ends
//! with `/`. The first-listed candidate gets the highest score; a `;freq=N`
//! annotation adds to the score of its candidate.

use crate::number;
use crate::number::{log2, parse_number};
use crate::text;
use crate::text::{copy_of, find, split, string_of, trim};
use vstd::prelude::*;

verus! {

/// A single entry of a reading.
#[derive(Debug)]
pub struct DictEntry {
    /// The surface form (e.g. `"変換"`).
    pub surface: String,
    /// Pre-computed score; higher is better.
    pub score: u32,
    /// Optional frequency count from an annotation. When present, the score is
    /// raised by three times its binary logarithm.
    pub frequency: Option<u32>,
}

/// What a [`DictEntry`] holds.
pub struct DictEntryView {
    pub surface: Seq<char>,
    pub score: int,
    pub frequency: Option<u32>,
}

impl View for DictEntry {
    type V = DictEntryView;

    open spec fn view(&self) -> DictEntryView {
        DictEntryView {
            surface: self.surface@,
            score: self.score as int,
            frequency: self.frequency,
        }
    }
}

impl Clone for DictEntry {
    fn clone(&self) -> (e: Self)
        ensures
            e@ == self@,
    {
        DictEntry { surface: self.surface.clone(), score: self.score, frequency: self.frequency }
    }
}

/// What a list of entries holds.
pub open spec fn entry_views(list: Seq<DictEntry>) -> Seq<DictEntryView> {
    list.map_values(|e: DictEntry| e@)
}

// ---------------------------------------------------------------------------
// Entries
// ---------------------------------------------------------------------------

/// What a frequency adds to a score.
pub open spec fn frequency_bonus(frequency: Option<u32>) -> int {
    match frequency {
        Some(n) => number::floor_log2(n as int) * 3,
        None => 0,
    }
}

/// The start of a frequency annotation.
pub open spec fn frequency_mark() -> Seq<char> {
    seq!['f', 'r', 'e', 'q', '=']
}

/// The frequency that an annotation gives.
pub open spec fn annotated_frequency(annotation: Seq<char>) -> Option<u32> {
    if frequency_mark().is_prefix_of(annotation) {
        match number::parsed(annotation.skip(5), u32::MAX as int) {
            Some(n) => Some(n as u32),
            None => None,
        }
    } else {
        None
    }
}

/// The entry that candidate `i` of `total` writes: what follows the first `;` is
/// an annotation, and each later position lowers the score by ten.
pub open spec fn entry_of(raw: Seq<char>, total: int, i: int) -> DictEntryView {
    let n = text::first_of(raw, ';');
    let frequency = if n < raw.len() {
        annotated_frequency(raw.skip(n + 1))
    } else {
        None
    };
    DictEntryView {
        surface: raw.take(n),
        score: (total - i) * 10 + frequency_bonus(frequency),
        frequency,
    }
}

/// The entries that a candidate list writes.
pub open spec fn entries_of(candidates: Seq<Seq<char>>) -> Seq<DictEntryView> {
    Seq::new(
        candidates.len(),
        |i: int| entry_of(candidates[i], candidates.len() as int, i),
    )
}

/// The largest number of candidates of a line for which the score of each, with
/// the boost of a user entry and that of the selection history, is a `u32`.
pub const MAX_LINE_CANDIDATES: usize = 429_496_695;

/// A bound of the scores of entries.
pub const MAX_ENTRY_SCORE: u32 = 4_294_967_043;

fn parse_frequency(annotation: &[char]) -> (frequency: Option<u32>)
    ensures
        frequency == annotated_frequency(annotation@),
{
    if annotation.len() < 5 {
        assert(frequency_mark().len() == 5);
        return None;
    }
    let marked = annotation[0] == 'f' && annotation[1] == 'r' && annotation[2] == 'e'
        && annotation[3] == 'q' && annotation[4] == '=';
    assert(marked == frequency_mark().is_prefix_of(annotation@)) by {
        let head = annotation@.subrange(0, 5);
        let mark = frequency_mark();
        assert(mark.len() == 5);
        if marked {
            assert(mark =~= head);
        } else if mark =~= head {
            assert(head[0] == mark[0] && head[1] == mark[1] && head[2] == mark[2] && head[3]
                == mark[3] && head[4] == mark[4]);
        }
    }
    if !marked {
        return None;
    }
    let digits = &annotation[5..annotation.len()];
    assert(digits@ =~= annotation@.skip(5));
    match parse_number(digits, u32::MAX as u64) {
        Some(n) => Some(n as u32),
        None => None,
    }
}

fn parse_entry(raw: &[char], total: u32, i: u32) -> (entry: DictEntry)
    requires
        i < total <= MAX_LINE_CANDIDATES,
    ensures
        entry@ == entry_of(raw@, total as int, i as int),
        entry.score <= MAX_ENTRY_SCORE,
{
    let n = find(raw, ';');
    let surface = string_of(&raw[0..n]);
    assert(surface@ =~= raw@.take(n as int));
    let frequency = if n < raw.len() {
        let annotation = &raw[n + 1..raw.len()];
        assert(annotation@ =~= raw@.skip(n + 1));
        parse_frequency(annotation)
    } else {
        None
    };
    let bonus: u32 = match frequency {
        Some(f) => log2(f) * 3,
        None => 0,
    };
    DictEntry { surface, score: (total - i) * 10 + bonus, frequency }
}

/// Reads a candidate list.
pub fn parse_entries(candidates: &Vec<Vec<char>>) -> (entries: Vec<DictEntry>)
    requires
        candidates@.len() <= MAX_LINE_CANDIDATES,
    ensures
        entry_views(entries@) == entries_of(text::views(candidates@)),
        forall|k: int|
            0 <= k < entries@.len() ==> (#[trigger] entries@[k]).score <= MAX_ENTRY_SCORE,
{
    let mut entries: Vec<DictEntry> = Vec::new();
    let total: u32 = candidates.len() as u32;
    for i in 0..candidates.len()
        invariant
            total == candidates@.len(),
            total <= MAX_LINE_CANDIDATES,
            entries@.len() == i,
            forall|k: int|
                0 <= k < i ==> (#[trigger] entries@[k])@ == entry_of(
                    candidates@[k]@,
                    total as int,
                    k,
                ),
            forall|k: int|
                0 <= k < entries@.len() ==> (#[trigger] entries@[k]).score <= MAX_ENTRY_SCORE,
    {
        entries.push(parse_entry(candidates[i].as_slice(), total, i as u32));
    }
    assert(entry_views(entries@) =~= entries_of(text::views(candidates@)));
    entries
}

// ---------------------------------------------------------------------------
// Lines
// ---------------------------------------------------------------------------

/// What a line holds.
pub enum LineView {
    /// Nothing, or a comment.
    Blank,
    /// A reading and its candidates.
    Entry { reading: Seq<char>, candidates: Seq<Seq<char>> },
    /// Neither; the text says why.
    Malformed { detail: Seq<char> },
}

/// The parts that are not blank, each without surrounding white space.
pub open spec fn filled(parts: Seq<Seq<char>>) -> Seq<Seq<char>>
    decreases parts.len(),
{
    if parts.len() == 0 {
        Seq::empty()
    } else {
        let before = filled(parts.drop_last());
        let part = text::trimmed(parts.last());
        if part.len() > 0 {
            before.push(part)
        } else {
            before
        }
    }
}

/// What the line `raw` holds.
pub open spec fn line_of(raw: Seq<char>) -> LineView {
    let line = text::trimmed(raw);
    let n = text::first_of(line, ' ');
    let list = text::trimmed(line.skip(n + 1));
    let candidates = filled(text::pieces(list.drop_first(), '/'));
    if line.len() == 0 || line[0] == ';' {
        LineView::Blank
    } else if n == line.len() {
        LineView::Malformed {
            detail: "missing space separator between reading and candidates"@,
        }
    } else if list.len() == 0 || list[0] != '/' {
        LineView::Malformed { detail: "candidate list must start with '/'"@ }
    } else if list.last() != '/' {
        LineView::Malformed { detail: "candidate list must end with '/'"@ }
    } else if candidates.len() == 0 {
        LineView::Malformed { detail: "no candidates found in candidate list"@ }
    } else {
        LineView::Entry { reading: line.take(n), candidates }
    }
}

proof fn lemma_filled_len(parts: Seq<Seq<char>>)
    ensures
        filled(parts).len() <= parts.len(),
    decreases parts.len(),
{
    if parts.len() > 0 {
        lemma_filled_len(parts.drop_last());
    }
}

/// A line has fewer candidates than characters, and an entry has at least one.
pub proof fn lemma_line_candidates(raw: Seq<char>)
    ensures
        line_of(raw) matches LineView::Entry { candidates, .. } ==> 0 < candidates.len()
            <= raw.len(),
{
    let line = text::trimmed(raw);
    let n = text::first_of(line, ' ');
    let list = text::trimmed(line.skip(n + 1));
    text::lemma_trimmed_len(raw);
    text::lemma_first_of(line, ' ');
    if n < line.len() {
        text::lemma_trimmed_len(line.skip(n + 1));
        if list.len() > 0 {
            text::lemma_pieces_count(list.drop_first(), '/');
            lemma_filled_len(text::pieces(list.drop_first(), '/'));
        }
    }
}

/// A line that has been read.
pub enum Line {
    Blank,
    Entry { reading: Vec<char>, candidates: Vec<Vec<char>> },
    Malformed { detail: String },
}

impl View for Line {
    type V = LineView;

    open spec fn view(&self) -> LineView {
        match *self {
            Line::Blank => LineView::Blank,
            Line::Entry { reading, candidates } => LineView::Entry {
                reading: reading@,
                candidates: text::views(candidates@),
            },
            Line::Malformed { detail } => LineView::Malformed { detail: detail@ },
        }
    }
}

fn keep_filled(parts: &Vec<Vec<char>>) -> (kept: Vec<Vec<char>>)
    ensures
        text::views(kept@) == filled(text::views(parts@)),
{
    let mut kept: Vec<Vec<char>> = Vec::new();
    let ghost all = text::views(parts@);
    assert(text::views(kept@) =~= filled(all.take(0)));
    for i in 0..parts.len()
        invariant
            all == text::views(parts@),
            text::views(kept@) == filled(all.take(i as int)),
    {
        let part = trim(parts[i].as_slice());
        let ghost head = all.take(i + 1);
        assert(head.drop_last() =~= all.take(i as int));
        assert(head.last() == parts@[i as int]@);
        let ghost before = text::views(kept@);
        if part.len() > 0 {
            let part = copy_of(part);
            kept.push(part);
            assert(text::views(kept@) =~= before.push(part@));
        }
    }
    assert(all.take(parts@.len() as int) =~= all);
    kept
}

/// Reads a line.
pub fn parse_line(raw: &[char]) -> (line: Line)
    ensures
        line@ == line_of(raw@),
{
    let line = trim(raw);
    if line.len() == 0 || line[0] == ';' {
        return Line::Blank;
    }
    let n = find(line, ' ');
    if n == line.len() {
        return Line::Malformed {
            detail: "missing space separator between reading and candidates".to_owned(),
        };
    }
    let rest = &line[n + 1..line.len()];
    assert(rest@ =~= line@.skip(n + 1));
    let list = trim(rest);
    if list.len() == 0 || list[0] != '/' {
        return Line::Malformed { detail: "candidate list must start with '/'".to_owned() };
    }
    if list[list.len() - 1] != '/' {
        return Line::Malformed { detail: "candidate list must end with '/'".to_owned() };
    }
    let inner = &list[1..list.len()];
    assert(inner@ =~= list@.drop_first());
    let parts = split(inner, '/');
    let candidates = keep_filled(&parts);
    assert(text::views(candidates@).len() == candidates@.len());
    if candidates.len() == 0 {
        return Line::Malformed { detail: "no candidates found in candidate list".to_owned() };
    }
    let reading = copy_of(&line[0..n]);
    assert(reading@ =~= line@.take(n as int));
    Line::Entry { reading, candidates }
}

// ---------------------------------------------------------------------------
// Laws
// ---------------------------------------------------------------------------

/// The reading of an entry is not empty and holds no space.
pub proof fn lemma_line_reading(raw: Seq<char>)
    ensures
        line_of(raw) matches LineView::Entry { reading, .. } ==> reading.len() > 0 && (forall|
            i: int,
        |
            0 <= i < reading.len() ==> #[trigger] reading[i] != ' '),
{
    let line = text::trimmed(raw);
    text::lemma_trimmed_first(raw);
    text::lemma_first_of(line, ' ');
}

/// Of two candidates of a line, the one that is listed earlier has the higher
/// score, unless the frequency of the later one adds more.
pub proof fn lemma_earlier_scores_higher(candidates: Seq<Seq<char>>, i: int, j: int)
    requires
        0 <= i < j < candidates.len(),
        frequency_bonus(entries_of(candidates)[j].frequency) <= frequency_bonus(
            entries_of(candidates)[i].frequency,
        ),
    ensures
        entries_of(candidates)[i].score > entries_of(candidates)[j].score,
{
}

/// Candidates, each with a slash at its end.
pub open spec fn slashed(candidates: Seq<Seq<char>>) -> Seq<char>
    decreases candidates.len(),
{
    if candidates.len() == 0 {
        Seq::empty()
    } else {
        candidates[0] + seq!['/'] + slashed(candidates.drop_first())
    }
}

/// The line that lists `candidates` for `reading`.
pub open spec fn written_line(reading: Seq<char>, candidates: Seq<Seq<char>>) -> Seq<char> {
    reading + seq![' '] + (seq!['/'] + slashed(candidates))
}

/// Whether a text can be the reading of a line.
pub open spec fn is_reading(s: Seq<char>) -> bool {
    &&& s.len() > 0
    &&& !text::is_space(s[0])
    &&& s[0] != ';'
    &&& forall|i: int| 0 <= i < s.len() ==> #[trigger] s[i] != ' '
}

/// Whether a text can be a candidate of a line.
pub open spec fn is_listable(s: Seq<char>) -> bool {
    &&& s.len() > 0
    &&& text::trimmed(s) == s
    &&& forall|i: int| 0 <= i < s.len() ==> #[trigger] s[i] != '/'
}

proof fn lemma_slashed(candidates: Seq<Seq<char>>)
    requires
        forall|i: int| 0 <= i < candidates.len() ==> is_listable(#[trigger] candidates[i]),
    ensures
        text::pieces(slashed(candidates), '/') == candidates.push(Seq::empty()),
        candidates.len() > 0 ==> slashed(candidates).len() > 0 && slashed(candidates).last()
            == '/',
    decreases candidates.len(),
{
    if candidates.len() == 0 {
        text::lemma_pieces_single(slashed(candidates), '/');
        assert(text::pieces(slashed(candidates), '/') =~= candidates.push(Seq::empty()));
    } else {
        let rest = candidates.drop_first();
        assert forall|i: int| 0 <= i < rest.len() implies is_listable(#[trigger] rest[i]) by {
            assert(rest[i] == candidates[i + 1]);
        }
        lemma_slashed(rest);
        assert(is_listable(candidates[0]));
        text::lemma_pieces_join(candidates[0], slashed(rest), '/');
        assert(seq![candidates[0]] + rest.push(Seq::empty()) =~= candidates.push(Seq::empty()));
        if rest.len() == 0 {
            assert(slashed(candidates) =~= candidates[0].push('/'));
        }
    }
}

proof fn lemma_filled_listable(candidates: Seq<Seq<char>>)
    requires
        forall|i: int| 0 <= i < candidates.len() ==> is_listable(#[trigger] candidates[i]),
    ensures
        filled(candidates) == candidates,
    decreases candidates.len(),
{
    if candidates.len() > 0 {
        let before = candidates.drop_last();
        assert forall|i: int| 0 <= i < before.len() implies is_listable(#[trigger] before[i]) by {
            assert(before[i] == candidates[i]);
        }
        lemma_filled_listable(before);
        assert(is_listable(candidates[candidates.len() - 1]));
        assert(before.push(candidates.last()) =~= candidates);
    }
}

/// The format reads back: the line that lists candidates for a reading is read as
/// that reading with those candidates.
pub proof fn lemma_line_reads_back(reading: Seq<char>, candidates: Seq<Seq<char>>)
    requires
        is_reading(reading),
        candidates.len() > 0,
        forall|i: int| 0 <= i < candidates.len() ==> is_listable(#[trigger] candidates[i]),
    ensures
        line_of(written_line(reading, candidates)) == (LineView::Entry { reading, candidates }),
{
    let line = written_line(reading, candidates);
    let list = seq!['/'] + slashed(candidates);
    let n = reading.len() as int;
    lemma_slashed(candidates);
    lemma_filled_listable(candidates);
    assert(line[0] == reading[0]);
    assert(line.last() == '/');
    assert(text::trimmed(line) == line);
    assert forall|i: int| 0 <= i < n implies line[i] != ' ' by {
        assert(line[i] == reading[i]);
    }
    assert(line[n] == ' ');
    text::lemma_first_of_is(line, ' ', n);
    assert(line.skip(n + 1) =~= list);
    assert(list[0] == '/');
    assert(list.last() == '/');
    assert(text::trimmed(list) == list);
    assert(list.drop_first() =~= slashed(candidates));
    let parts = candidates.push(Seq::<char>::empty());
    assert(parts.drop_last() =~= candidates);
    assert(text::trimmed(Seq::<char>::empty()) == Seq::<char>::empty());
    assert(filled(parts) == candidates);
    assert(line.take(n) =~= reading);
}

} // verus!
