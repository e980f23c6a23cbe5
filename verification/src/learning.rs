//! Selection history: which candidates the user confirms, and how much this
//! raises their scores in later conversions.
//!
//! The history is kept as lines of four fields, separated by tabs:
//!
//! ```text
//! reading	surface	count	last_used
//! ```
//!
//! Entries older than 90 days are discarded on load.

use crate::number;
use crate::number::{parse_number, write_number};
use crate::order;
use crate::order::sort_texts;
use crate::text;
use crate::text::{chars_of, join_lines, split, split_lines, string_of};
use std::time::{Duration, SystemTime, SystemTimeError};
use vstd::prelude::*;

verus! {

// ---------------------------------------------------------------------------
// The clock
// ---------------------------------------------------------------------------

/// A point in time, as the system clock gives it.
#[verifier::external_type_specification]
#[verifier::external_body]
pub struct ExSystemTime(SystemTime);

/// The error of a point in time that lies before another.
#[verifier::external_type_specification]
#[verifier::external_body]
pub struct ExSystemTimeError(SystemTimeError);

/// `SystemTime::now` reads the system clock; nothing is claimed of its result.
pub assume_specification[ SystemTime::now ]() -> SystemTime
;

/// `SystemTime::duration_since` gives the time between two points, or an error
/// where the first lies before the second; nothing is claimed of its result.
pub assume_specification[ SystemTime::duration_since ](
    this: &SystemTime,
    earlier: SystemTime,
) -> Result<Duration, SystemTimeError>
;

/// `Duration::as_secs` gives the whole seconds of a span; nothing is claimed of
/// its result.
pub assume_specification[ Duration::as_secs ](this: &Duration) -> u64
;

/// `SystemTime::UNIX_EPOCH` is the start of Unix time; nothing is claimed of it.
#[verifier::external_body]
fn unix_epoch() -> SystemTime {
    SystemTime::UNIX_EPOCH
}

/// Whether `start` is what the start of Unix time is taken to be.
pub closed spec fn starts_unix_time(start: SystemTime) -> bool {
    call_ensures(unix_epoch, (), start)
}

/// Whether the system clock may read `now` seconds of Unix time: some result of
/// `SystemTime::now` lies so many whole seconds after the start of Unix time, or
/// before that start where `now` is zero.
pub open spec fn clock_reads(now: u64) -> bool {
    exists|time: SystemTime, start: SystemTime, span: Result<Duration, SystemTimeError>|
        call_ensures(SystemTime::now, (), time) && starts_unix_time(start)
            && #[trigger] call_ensures(SystemTime::duration_since, (&time, start), span)
            && match span {
            Ok(d) => call_ensures(Duration::as_secs, (&d,), now),
            Err(_) => now == 0,
        }
}

/// The current Unix time in seconds, zero where the clock stands before its start.
/// What the clock shows is known to nobody beforehand; the result is what the calls
/// that read it gave.
fn current_timestamp() -> (now: u64)
    ensures
        clock_reads(now),
{
    let time = SystemTime::now();
    let start = unix_epoch();
    let span = time.duration_since(start);
    assert(call_ensures(SystemTime::duration_since, (&time, start), span));
    match span {
        Ok(d) => timestamp_of(Some(d.as_secs())),
        Err(_) => timestamp_of(None),
    }
}

/// The timestamp of a clock that stands `elapsed` seconds after the start of Unix
/// time, or before it where there are none.
pub fn timestamp_of(elapsed: Option<u64>) -> (timestamp: u64)
    ensures
        timestamp == match elapsed {
            Some(seconds) => seconds,
            None => 0,
        },
{
    match elapsed {
        Some(seconds) => seconds,
        None => 0,
    }
}

// ---------------------------------------------------------------------------
// Records
// ---------------------------------------------------------------------------

/// A single learning record of a (reading, surface) pair.
#[derive(Debug, Clone, Copy, PartialEq, Eq, Structural)]
pub struct LearnEntry {
    /// Number of times this candidate was selected.
    pub count: u32,
    /// Unix timestamp of the last selection.
    pub last_used: u64,
}

/// A pair and its record.
pub struct RecordView {
    pub reading: Seq<char>,
    pub surface: Seq<char>,
    pub entry: LearnEntry,
}

/// The place of the record of a pair, or the number of records.
pub open spec fn record_place(
    records: Seq<RecordView>,
    reading: Seq<char>,
    surface: Seq<char>,
) -> int
    decreases records.len(),
{
    if records.len() == 0 || (records[0].reading == reading && records[0].surface == surface) {
        0
    } else {
        1 + record_place(records.drop_first(), reading, surface)
    }
}

/// What is recorded of a pair.
pub open spec fn learned(
    records: Seq<RecordView>,
    reading: Seq<char>,
    surface: Seq<char>,
) -> Option<LearnEntry> {
    let i = record_place(records, reading, surface);
    if i < records.len() {
        Some(records[i].entry)
    } else {
        None
    }
}

/// `records` where `record` stands for its pair.
pub open spec fn with_record(records: Seq<RecordView>, record: RecordView) -> Seq<RecordView> {
    let i = record_place(records, record.reading, record.surface);
    if i < records.len() {
        records.update(i, record)
    } else {
        records.push(record)
    }
}

/// How often a pair was selected.
pub open spec fn times_selected(
    records: Seq<RecordView>,
    reading: Seq<char>,
    surface: Seq<char>,
) -> int {
    match learned(records, reading, surface) {
        Some(entry) => entry.count as int,
        None => 0,
    }
}

/// `records` after a selection of a pair at the time `now`.
pub open spec fn recorded(
    records: Seq<RecordView>,
    reading: Seq<char>,
    surface: Seq<char>,
    now: u64,
) -> Seq<RecordView> {
    let count = (times_selected(records, reading, surface) + 1) as u32;
    with_record(
        records,
        RecordView { reading, surface, entry: LearnEntry { count, last_used: now } },
    )
}

/// Whether no pair has two records.
pub open spec fn pairs_once(records: Seq<RecordView>) -> bool {
    forall|i: int, j: int|
        0 <= i < j < records.len() ==> (#[trigger] records[i]).reading != (
        #[trigger] records[j]).reading || records[i].surface != records[j].surface
}

/// The place of a record holds its pair, and no earlier place does.
pub proof fn lemma_record_place(
    records: Seq<RecordView>,
    reading: Seq<char>,
    surface: Seq<char>,
)
    ensures
        0 <= record_place(records, reading, surface) <= records.len(),
        record_place(records, reading, surface) < records.len() ==> records[record_place(
            records,
            reading,
            surface,
        )].reading == reading && records[record_place(records, reading, surface)].surface
            == surface,
        forall|i: int|
            0 <= i < record_place(records, reading, surface) ==> (#[trigger] records[i]).reading
                != reading || records[i].surface != surface,
    decreases records.len(),
{
    if records.len() > 0 && !(records[0].reading == reading && records[0].surface == surface) {
        let rest = records.drop_first();
        lemma_record_place(rest, reading, surface);
        assert forall|i: int| 0 <= i < record_place(records, reading, surface) implies (
        #[trigger] records[i]).reading != reading || records[i].surface != surface by {
            if i > 0 {
                assert(records[i] == rest[i - 1]);
            }
        }
    }
}

/// Recording a pair replaces its own record and no other, and gives no pair a
/// second record.
pub proof fn lemma_with_record(
    records: Seq<RecordView>,
    record: RecordView,
    reading: Seq<char>,
    surface: Seq<char>,
)
    ensures
        learned(with_record(records, record), reading, surface) == if reading == record.reading
            && surface == record.surface {
            Some(record.entry)
        } else {
            learned(records, reading, surface)
        },
        pairs_once(records) ==> pairs_once(with_record(records, record)),
{
    let new = with_record(records, record);
    lemma_record_place(records, record.reading, record.surface);
    lemma_record_place(records, reading, surface);
    lemma_record_place(new, reading, surface);
    let own = record_place(records, record.reading, record.surface);
    let i = record_place(records, reading, surface);
    let j = record_place(new, reading, surface);
    assert(new[own] == record);
    if reading == record.reading && surface == record.surface {
        if j < own {
            assert(new[j] == records[j]);
        }
        assert(j == own);
    } else {
        if i < records.len() {
            assert(new[i] == records[i]);
            if j < i {
                assert(j != own);
                assert(new[j] == records[j]);
            }
        } else if j < new.len() {
            assert(j != own);
            assert(new[j] == records[j]);
        }
    }
}

// ---------------------------------------------------------------------------
// The file format
// ---------------------------------------------------------------------------

/// Maximum age in seconds of a learning entry (90 days).
pub const GC_MAX_AGE_SECS: u64 = 7_776_000;

/// Flush interval: the history is due to be saved after this many commits.
pub const FLUSH_INTERVAL: u32 = 5;

/// Whether an entry is young enough to be kept.
pub open spec fn is_fresh(entry: LearnEntry, now: u64) -> bool {
    now - entry.last_used <= GC_MAX_AGE_SECS
}

/// The record that a line writes: at least four fields, of which the third and
/// the fourth are numbers.
pub open spec fn record_of(line: Seq<char>) -> Option<RecordView> {
    let fields = text::pieces(line, '\t');
    if fields.len() >= 4 {
        match (
            number::parsed(fields[2], u32::MAX as int),
            number::parsed(fields[3], u64::MAX as int),
        ) {
            (Some(count), Some(last_used)) => Some(
                RecordView {
                    reading: fields[0],
                    surface: fields[1],
                    entry: LearnEntry { count: count as u32, last_used: last_used as u64 },
                },
            ),
            _ => None,
        }
    } else {
        None
    }
}

/// `records` after a line has been read at the time `now`.
pub open spec fn with_line(records: Seq<RecordView>, line: Seq<char>, now: u64) -> Seq<
    RecordView,
> {
    match record_of(line) {
        Some(record) if is_fresh(record.entry, now) => with_record(records, record),
        _ => records,
    }
}

/// The records that the first `n` lines write.
pub open spec fn records_of(lines: Seq<Seq<char>>, n: int, now: u64) -> Seq<RecordView>
    decreases n,
{
    if n <= 0 {
        Seq::empty()
    } else {
        with_line(records_of(lines, n - 1, now), lines[n - 1], now)
    }
}

/// The records that a history text writes.
pub open spec fn records_of_text(text: Seq<char>, now: u64) -> Seq<RecordView> {
    records_of(text::lines_of(text), text::lines_of(text).len() as int, now)
}

/// The line that writes a record.
pub open spec fn record_line(record: RecordView) -> Seq<char> {
    record.reading + seq!['\t'] + record.surface + seq!['\t'] + number::decimal(
        record.entry.count as int,
    ) + seq!['\t'] + number::decimal(record.entry.last_used as int)
}

/// The lines that write `records`, sorted.
pub open spec fn record_lines(records: Seq<RecordView>) -> Seq<Seq<char>> {
    order::arranged(records.map_values(|r: RecordView| record_line(r)), order::text_order())
}

/// The history text of `records`.
pub open spec fn history_text(records: Seq<RecordView>) -> Seq<char> {
    text::joined(record_lines(records))
}

// ---------------------------------------------------------------------------
// LearningStore
// ---------------------------------------------------------------------------

/// A record of a [`LearningStore`].
struct LearnRecord {
    reading: String,
    surface: String,
    entry: LearnEntry,
}

impl View for LearnRecord {
    type V = RecordView;

    closed spec fn view(&self) -> RecordView {
        RecordView { reading: self.reading@, surface: self.surface@, entry: self.entry }
    }
}

/// In-memory store of candidate selection history.
pub struct LearningStore {
    records: Vec<LearnRecord>,
    dirty: bool,
    commit_count: u32,
    flush_due: bool,
}

/// What a [`LearningStore`] holds.
pub struct LearningView {
    /// The records.
    pub records: Seq<RecordView>,
    /// Whether there are records that were not saved.
    pub dirty: bool,
    /// Commits since the history was last due to be saved.
    pub commit_count: int,
    /// Whether the history is due to be saved.
    pub flush_due: bool,
}

impl View for LearningStore {
    type V = LearningView;

    closed spec fn view(&self) -> LearningView {
        LearningView {
            records: self.records@.map_values(|r: LearnRecord| r@),
            dirty: self.dirty,
            commit_count: self.commit_count as int,
            flush_due: self.flush_due,
        }
    }
}

/// The text that is to be saved, where there is something unsaved.
pub open spec fn unsaved_text(store: LearningView) -> Option<Seq<char>> {
    if store.dirty {
        Some(history_text(store.records))
    } else {
        None
    }
}

/// A store after its text has been taken and saved.
pub open spec fn after_save(store: LearningView) -> LearningView {
    LearningView { dirty: false, flush_due: false, ..store }
}

/// A store with `records` and nothing to save.
pub open spec fn saved(records: Seq<RecordView>) -> LearningView {
    LearningView { records, dirty: false, commit_count: 0, flush_due: false }
}

/// Whether no pair has two records, the commits are counted below the flush
/// interval, and what is unsaved is a record.
pub open spec fn learning_wf(store: LearningView) -> bool {
    &&& pairs_once(store.records)
    &&& 0 <= store.commit_count < FLUSH_INTERVAL
    &&& store.dirty ==> store.records.len() > 0
}

/// A store after a selection of a pair at the time `now`. Every fifth selection
/// makes the history due to be saved.
pub open spec fn after_record(
    store: LearningView,
    reading: Seq<char>,
    surface: Seq<char>,
    now: u64,
) -> LearningView {
    let full = store.commit_count + 1 >= FLUSH_INTERVAL;
    LearningView {
        records: recorded(store.records, reading, surface, now),
        dirty: true,
        commit_count: if full {
            0
        } else {
            store.commit_count + 1
        },
        flush_due: store.flush_due || full,
    }
}

/// A store after the selections of a list of pairs, each at its own time.
pub open spec fn after_records(
    store: LearningView,
    pairs: Seq<(Seq<char>, Seq<char>)>,
    times: Seq<u64>,
) -> LearningView
    decreases pairs.len(),
{
    if pairs.len() == 0 {
        store
    } else {
        after_record(
            after_records(store, pairs.drop_last(), times),
            pairs.last().0,
            pairs.last().1,
            times[pairs.len() - 1],
        )
    }
}

/// Whether `times` are `n` readings of the clock.
pub open spec fn read_from_clock(times: Seq<u64>, n: nat) -> bool {
    times.len() == n && forall|i: int| 0 <= i < n ==> clock_reads(#[trigger] times[i])
}

/// How often a pair occurs in a list.
pub open spec fn occurs(
    pairs: Seq<(Seq<char>, Seq<char>)>,
    pair: (Seq<char>, Seq<char>),
) -> int
    decreases pairs.len(),
{
    if pairs.len() == 0 {
        0
    } else {
        occurs(pairs.drop_last(), pair) + if pairs.last() == pair {
            1int
        } else {
            0
        }
    }
}

/// Whether the counts can still hold the selections of a list of pairs.
pub open spec fn room_for(
    records: Seq<RecordView>,
    pairs: Seq<(Seq<char>, Seq<char>)>,
) -> bool {
    forall|k: int|
        0 <= k < pairs.len() ==> times_selected(
            records,
            (#[trigger] pairs[k]).0,
            pairs[k].1,
        ) + occurs(pairs, pairs[k]) <= u32::MAX
}

proof fn lemma_occurs(pairs: Seq<(Seq<char>, Seq<char>)>, k: int)
    requires
        0 <= k < pairs.len(),
    ensures
        occurs(pairs, pairs[k]) > 0,
        0 <= occurs(pairs.drop_last(), pairs[k]) <= occurs(pairs, pairs[k]),
    decreases pairs.len(),
{
    let rest = pairs.drop_last();
    lemma_occurs_positive(rest, pairs[k]);
    if k < rest.len() {
        lemma_occurs(rest, k);
        assert(rest[k] == pairs[k]);
    }
}

proof fn lemma_occurs_positive(pairs: Seq<(Seq<char>, Seq<char>)>, pair: (Seq<char>, Seq<char>))
    ensures
        0 <= occurs(pairs, pair),
    decreases pairs.len(),
{
    if pairs.len() > 0 {
        lemma_occurs_positive(pairs.drop_last(), pair);
    }
}

/// The selections of a list of pairs raise the count of each pair by the number of
/// times that it occurs.
pub proof fn lemma_after_records(
    store: LearningView,
    pairs: Seq<(Seq<char>, Seq<char>)>,
    times: Seq<u64>,
    reading: Seq<char>,
    surface: Seq<char>,
)
    requires
        room_for(store.records, pairs),
    ensures
        times_selected(after_records(store, pairs, times).records, reading, surface)
            == times_selected(store.records, reading, surface) + occurs(pairs, (reading, surface)),
        pairs.len() > 0 ==> room_for(store.records, pairs.drop_last()),
    decreases pairs.len(),
{
    if pairs.len() > 0 {
        let rest = pairs.drop_last();
        let (r, s) = pairs.last();
        assert(room_for(store.records, rest)) by {
            assert forall|k: int| 0 <= k < rest.len() implies times_selected(
                store.records,
                (#[trigger] rest[k]).0,
                rest[k].1,
            ) + occurs(rest, rest[k]) <= u32::MAX by {
                assert(rest[k] == pairs[k]);
                lemma_occurs(pairs, k);
            }
        }
        lemma_after_records(store, rest, times, reading, surface);
        lemma_after_records(store, rest, times, r, s);
        let before = after_records(store, rest, times);
        let now = times[pairs.len() - 1];
        let count = (times_selected(before.records, r, s) + 1) as u32;
        let record = RecordView {
            reading: r,
            surface: s,
            entry: LearnEntry { count, last_used: now },
        };
        lemma_with_record(before.records, record, reading, surface);
        assert(pairs[pairs.len() - 1] == (r, s));
        assert(times_selected(store.records, r, s) + occurs(pairs, (r, s)) <= u32::MAX);
    }
}

proof fn lemma_room_for_take(
    records: Seq<RecordView>,
    pairs: Seq<(Seq<char>, Seq<char>)>,
    n: int,
)
    requires
        room_for(records, pairs),
        0 <= n <= pairs.len(),
    ensures
        room_for(records, pairs.take(n)),
    decreases pairs.len() - n,
{
    if n == pairs.len() {
        assert(pairs.take(n) =~= pairs);
    } else {
        lemma_room_for_take(records, pairs, n + 1);
        let head = pairs.take(n + 1);
        assert(head.drop_last() =~= pairs.take(n));
        let done = pairs.take(n);
        assert forall|k: int| 0 <= k < done.len() implies times_selected(
            records,
            (#[trigger] done[k]).0,
            done[k].1,
        ) + occurs(done, done[k]) <= u32::MAX by {
            assert(done[k] == head[k]);
            lemma_occurs(head, k);
        }
    }
}

/// Only the times of the selections matter.
proof fn lemma_same_times(
    store: LearningView,
    pairs: Seq<(Seq<char>, Seq<char>)>,
    times: Seq<u64>,
    others: Seq<u64>,
)
    requires
        forall|k: int| 0 <= k < pairs.len() ==> times[k] == others[k],
    ensures
        after_records(store, pairs, times) == after_records(store, pairs, others),
    decreases pairs.len(),
{
    if pairs.len() > 0 {
        lemma_same_times(store, pairs.drop_last(), times, others);
    }
}

/// The score boost of a pair: ten for each selection, at most 200.
pub open spec fn boost_of(records: Seq<RecordView>, reading: Seq<char>, surface: Seq<char>) -> int {
    let n = times_selected(records, reading, surface) * 10;
    if n <= 200 {
        n
    } else {
        200
    }
}

impl LearningStore {
    /// Whether the store is in order.
    pub open spec fn wf(&self) -> bool {
        learning_wf(self@)
    }

    /// Creates an empty store.
    pub fn new() -> (store: Self)
        ensures
            store.wf(),
            store@ == saved(Seq::empty()),
    {
        let store = LearningStore {
            records: Vec::new(),
            dirty: false,
            commit_count: 0,
            flush_due: false,
        };
        assert(store@.records =~= Seq::<RecordView>::empty());
        store
    }

    /// Creates a store from the text of its file, `None` where there is no such
    /// file. Entries that are too old by now are left out.
    pub fn load(text: Option<&str>) -> (store: Self)
        ensures
            store.wf(),
            match text {
                Some(t) => exists|now: u64|
                    clock_reads(now) && store@ == saved(#[trigger] records_of_text(t@, now)),
                None => store@ == saved(Seq::empty()),
            },
    {
        match text {
            Some(t) => {
                let now: u64 = current_timestamp();
                LearningStore::load_at(t, now)
            },
            None => LearningStore::new(),
        }
    }

    /// Creates a store from the text of its file, at the time `now`.
    pub fn load_at(text: &str, now: u64) -> (store: Self)
        ensures
            store.wf(),
            store@ == saved(records_of_text(text@, now)),
    {
        let chars = chars_of(text);
        let lines = split_lines(chars.as_slice());
        let ghost all = text::lines_of(text@);
        let mut store = LearningStore::new();
        for i in 0..lines.len()
            invariant
                all == text::views(lines@),
                store.wf(),
                store@ == saved(records_of(all, i as int, now)),
        {
            assert(all[i as int] == lines@[i as int]@);
            let fields = split(lines[i].as_slice(), '\t');
            let ghost parts = text::pieces(all[i as int], '\t');
            assert(parts.len() == fields@.len());
            if fields.len() >= 4 {
                assert(parts[0] == fields@[0]@ && parts[1] == fields@[1]@ && parts[2]
                    == fields@[2]@ && parts[3] == fields@[3]@);
                let count = parse_number(fields[2].as_slice(), u32::MAX as u64);
                let last_used = parse_number(fields[3].as_slice(), u64::MAX);
                match (count, last_used) {
                    (Some(count), Some(last_used)) => {
                        if last_used >= now || now - last_used <= GC_MAX_AGE_SECS {
                            let reading = string_of(fields[0].as_slice());
                            let surface = string_of(fields[1].as_slice());
                            store.put(
                                reading,
                                surface,
                                LearnEntry { count: count as u32, last_used },
                            );
                        }
                    },
                    _ => {},
                }
            }
        }
        store
    }

    /// The place of the record of a pair.
    fn place(&self, reading: &str, surface: &str) -> (i: usize)
        ensures
            i == record_place(self@.records, reading@, surface@),
            i <= self.records@.len(),
    {
        let ghost all = self@.records;
        let reading_chars = chars_of(reading);
        let surface_chars = chars_of(surface);
        proof {
            lemma_record_place(all, reading@, surface@);
        }
        let mut i: usize = 0;
        while i < self.records.len() && !self.records[i].is_of(&reading_chars, &surface_chars)
            invariant
                i <= self.records@.len(),
                all == self@.records,
                reading_chars@ == reading@,
                surface_chars@ == surface@,
                forall|k: int|
                    0 <= k < i ==> (#[trigger] all[k]).reading != reading@ || all[k].surface
                        != surface@,
            decreases self.records@.len() - i,
        {
            assert(all[i as int] == self.records@[i as int]@);
            i = i + 1;
        }
        proof {
            let place = record_place(all, reading@, surface@);
            if i < self.records@.len() {
                assert(all[i as int] == self.records@[i as int]@);
            }
            assert(place == i);
        }
        i
    }

    /// Replaces or adds a record.
    fn put(&mut self, reading: String, surface: String, entry: LearnEntry)
        requires
            old(self).wf(),
        ensures
            final(self).wf(),
            final(self)@.records == with_record(
                old(self)@.records,
                RecordView { reading: reading@, surface: surface@, entry },
            ),
            final(self)@.dirty == old(self)@.dirty,
            final(self)@.commit_count == old(self)@.commit_count,
            final(self)@.flush_due == old(self)@.flush_due,
    {
        let ghost before = self@.records;
        let record = LearnRecord { reading, surface, entry };
        proof {
            lemma_with_record(before, record@, reading@, surface@);
        }
        let i = self.place(record.reading.as_str(), record.surface.as_str());
        if i < self.records.len() {
            self.records.set(i, record);
        } else {
            self.records.push(record);
        }
        assert(self@.records =~= with_record(before, record@));
    }

    /// Records that the user selected `surface` for `reading`.
    pub fn record(&mut self, reading: &str, surface: &str)
        requires
            old(self).wf(),
            times_selected(old(self)@.records, reading@, surface@) < u32::MAX,
        ensures
            final(self).wf(),
            exists|now: u64|
                clock_reads(now) && final(self)@ == #[trigger] after_record(
                    old(self)@,
                    reading@,
                    surface@,
                    now,
                ),
    {
        let now: u64 = current_timestamp();
        self.record_at(reading, surface, now);
    }

    /// Records that the user selected `surface` for `reading` at the time `now`.
    pub fn record_at(&mut self, reading: &str, surface: &str, now: u64)
        requires
            old(self).wf(),
            times_selected(old(self)@.records, reading@, surface@) < u32::MAX,
        ensures
            final(self).wf(),
            final(self)@ == after_record(old(self)@, reading@, surface@, now),
    {
        let ghost before = self@;
        let i = self.place(reading, surface);
        let count: u32 = if i < self.records.len() {
            assert(before.records[i as int] == self.records@[i as int]@);
            self.records[i].entry.count
        } else {
            0
        };
        self.put(
            reading.to_owned(),
            surface.to_owned(),
            LearnEntry { count: count + 1, last_used: now },
        );
        self.dirty = true;
        self.commit_count = self.commit_count + 1;
        if self.commit_count >= FLUSH_INTERVAL {
            self.flush_due = true;
            self.commit_count = 0;
        }
        assert(self@.records.len() > 0) by {
            lemma_record_place(before.records, reading@, surface@);
        }
    }

    /// Records the selections of a list of (reading, surface) pairs, in order.
    pub fn record_all(&mut self, pairs: &Vec<(String, String)>)
        requires
            old(self).wf(),
            room_for(old(self)@.records, text::pair_views(pairs@)),
        ensures
            final(self).wf(),
            exists|times: Seq<u64>|
                read_from_clock(times, pairs@.len()) && final(self)@
                    == #[trigger] after_records(old(self)@, text::pair_views(pairs@), times),
    {
        let ghost before = self@;
        let ghost all = text::pair_views(pairs@);
        let ghost mut times: Seq<u64> = Seq::empty();
        for i in 0..pairs.len()
            invariant
                self.wf(),
                before == old(self)@,
                all == text::pair_views(pairs@),
                room_for(before.records, all),
                read_from_clock(times, i as nat),
                self@ == after_records(before, all.take(i as int), times),
        {
            let ghost head = all.take(i + 1);
            let ghost done = all.take(i as int);
            proof {
                assert(head.drop_last() =~= done);
                assert(head.last() == all[i as int]);
                assert(all[i as int] == (pairs@[i as int].0@, pairs@[i as int].1@));
                lemma_room_for_take(before.records, all, i + 1);
                lemma_after_records(before, head, times, all[i as int].0, all[i as int].1);
                lemma_after_records(before, done, times, all[i as int].0, all[i as int].1);
                assert(head[i as int] == all[i as int]);
                assert(occurs(head, all[i as int]) == occurs(done, all[i as int]) + 1);
            }
            let ghost so_far = self@;
            self.record(pairs[i].0.as_str(), pairs[i].1.as_str());
            proof {
                let now = choose|now: u64|
                    clock_reads(now) && self@ == #[trigger] after_record(
                        so_far,
                        all[i as int].0,
                        all[i as int].1,
                        now,
                    );
                let more = times.push(now);
                lemma_same_times(before, done, times, more);
                times = more;
            }
        }
        assert(all.take(all.len() as int) =~= all);
    }

    /// The score boost of a (reading, surface) pair: ten for each selection,
    /// capped at 200.
    pub fn boost(&self, reading: &str, surface: &str) -> (boost: u32)
        ensures
            boost == boost_of(self@.records, reading@, surface@),
    {
        let i = self.place(reading, surface);
        if i < self.records.len() {
            assert(self@.records[i as int] == self.records@[i as int]@);
            let count: u32 = self.records[i].entry.count;
            if count <= 20 {
                count * 10
            } else {
                200
            }
        } else {
            0
        }
    }

    /// Whether the counts can hold the selections of a list of (reading, surface)
    /// pairs.
    pub fn has_room_for(&self, pairs: &Vec<(String, String)>) -> (yes: bool)
        ensures
            yes == room_for(self@.records, text::pair_views(pairs@)),
    {
        let ghost all = text::pair_views(pairs@);
        for k in 0..pairs.len()
            invariant
                all == text::pair_views(pairs@),
                forall|i: int|
                    0 <= i < k ==> times_selected(
                        self@.records,
                        (#[trigger] all[i]).0,
                        all[i].1,
                    ) + occurs(all, all[i]) <= u32::MAX,
        {
            assert(all[k as int] == (pairs@[k as int].0@, pairs@[k as int].1@));
            let place = self.place(pairs[k].0.as_str(), pairs[k].1.as_str());
            let count: u32 = if place < self.records.len() {
                assert(self@.records[place as int] == self.records@[place as int]@);
                self.records[place].entry.count
            } else {
                0
            };
            let more: usize = count_pair(pairs, k);
            if more as u64 > (u32::MAX - count) as u64 {
                assert(!(times_selected(self@.records, all[k as int].0, all[k as int].1) + occurs(
                    all,
                    all[k as int],
                ) <= u32::MAX));
                return false;
            }
        }
        true
    }

    /// Whether the history is due to be saved.
    pub fn is_flush_due(&self) -> (due: bool)
        ensures
            due == self@.flush_due,
    {
        self.flush_due
    }

    /// The text to save, or `None` where nothing is unsaved. The history is then
    /// no longer due; it counts as saved only after [`LearningStore::mark_saved`].
    pub fn flush(&mut self) -> (text: Option<String>)
        requires
            old(self).wf(),
        ensures
            final(self).wf(),
            final(self)@ == (LearningView { flush_due: false, ..old(self)@ }),
            match unsaved_text(old(self)@) {
                Some(t) => text matches Some(s) && s@ == t,
                None => text is None,
            },
    {
        self.flush_due = false;
        if !self.dirty {
            return None;
        }
        let ghost all = self@.records;
        let mut lines: Vec<Vec<char>> = Vec::new();
        for i in 0..self.records.len()
            invariant
                all == self@.records,
                lines@.len() == i,
                forall|k: int| 0 <= k < i ==> (#[trigger] lines@[k])@ == record_line(all[k]),
        {
            assert(all[i as int] == self.records@[i as int]@);
            lines.push(self.records[i].line());
        }
        assert(text::views(lines@) =~= all.map_values(|r: RecordView| record_line(r)));
        let lines = sort_texts(lines);
        Some(join_lines(&lines))
    }

    /// Notes that the text of the last [`LearningStore::flush`] was saved.
    pub fn mark_saved(&mut self)
        requires
            old(self).wf(),
        ensures
            final(self).wf(),
            final(self)@ == (LearningView { dirty: false, ..old(self)@ }),
    {
        self.dirty = false;
    }
}

impl Default for LearningStore {
    fn default() -> (store: Self)
        ensures
            store.wf(),
            store@ == saved(Seq::empty()),
    {
        LearningStore::new()
    }
}

/// Counts how often pair `k` of a list occurs in it.
fn count_pair(pairs: &Vec<(String, String)>, k: usize) -> (count: usize)
    requires
        k < pairs@.len(),
    ensures
        count == occurs(text::pair_views(pairs@), text::pair_views(pairs@)[k as int]),
{
    let ghost all = text::pair_views(pairs@);
    let mut count: usize = 0;
    assert(all.take(0) =~= Seq::<(Seq<char>, Seq<char>)>::empty());
    for i in 0..pairs.len()
        invariant
            k < pairs@.len(),
            all == text::pair_views(pairs@),
            count == occurs(all.take(i as int), all[k as int]),
            count <= i,
    {
        proof {
            let head = all.take(i + 1);
            assert(head.drop_last() =~= all.take(i as int));
            assert(head.last() == (pairs@[i as int].0@, pairs@[i as int].1@));
            assert(all[k as int] == (pairs@[k as int].0@, pairs@[k as int].1@));
        }
        if pairs[i].0 == pairs[k].0 && pairs[i].1 == pairs[k].1 {
            count = count + 1;
        }
    }
    assert(all.take(all.len() as int) =~= all);
    count
}

impl LearnRecord {
    fn is_of(&self, reading: &Vec<char>, surface: &Vec<char>) -> (yes: bool)
        ensures
            yes == (self@.reading == reading@ && self@.surface == surface@),
    {
        let own_reading = chars_of(self.reading.as_str());
        let own_surface = chars_of(self.surface.as_str());
        text::same_chars(own_reading.as_slice(), reading.as_slice()) && text::same_chars(
            own_surface.as_slice(),
            surface.as_slice(),
        )
    }

    fn line(&self) -> (line: Vec<char>)
        ensures
            line@ == record_line(self@),
    {
        let mut line = chars_of(self.reading.as_str());
        let mut surface = chars_of(self.surface.as_str());
        let mut count = write_number(self.entry.count as u64);
        let mut last_used = write_number(self.entry.last_used);
        line.push('\t');
        line.append(&mut surface);
        line.push('\t');
        line.append(&mut count);
        line.push('\t');
        line.append(&mut last_used);
        assert(line@ =~= record_line(self@));
        line
    }
}

} // verus!
