//! What the selection history keeps over records, saves and loads.

use crate::learning;
use crate::learning::{LearnEntry, LearningView, RecordView};
use crate::number;
use crate::order;
use crate::text;
use std::time::{Duration, SystemTime, SystemTimeError};
use vstd::prelude::*;

verus! {

/// What is known of a pair is what its record says: nothing where no record is of the
/// pair. Its boost is ten for each selection, and never more than 200.
pub proof fn lemma_known_pair(records: Seq<RecordView>, reading: Seq<char>, surface: Seq<char>)
    requires
        learning::pairs_once(records),
    ensures
        forall|q: int|
            0 <= q < records.len() && (#[trigger] records[q]).reading == reading
                && records[q].surface == surface ==> {
                let count = records[q].entry.count;
                &&& learning::learned(records, reading, surface) == Some(records[q].entry)
                &&& learning::times_selected(records, reading, surface) == count
                &&& learning::boost_of(records, reading, surface) == if count <= 20 {
                    count * 10
                } else {
                    200
                }
            },
        (forall|q: int|
            0 <= q < records.len() ==> (#[trigger] records[q]).reading != reading
                || records[q].surface != surface) ==> {
            &&& learning::learned(records, reading, surface) is None
            &&& learning::times_selected(records, reading, surface) == 0
            &&& learning::boost_of(records, reading, surface) == 0
        },
{
    learning::lemma_record_place(records, reading, surface);
    let i = learning::record_place(records, reading, surface);
    assert forall|q: int|
        0 <= q < records.len() && (#[trigger] records[q]).reading == reading && records[q].surface
            == surface implies q == i by {
        if q > i {
            assert(records[i].reading != records[q].reading || records[i].surface
                != records[q].surface);
        }
    }
}

/// A selection makes its pair last used at that time and raises its boost by ten, up
/// to 200. Whatever else was known stays.
pub proof fn lemma_selection(
    store: LearningView,
    reading: Seq<char>,
    surface: Seq<char>,
    now: u64,
    other_reading: Seq<char>,
    other_surface: Seq<char>,
)
    requires
        learning::learning_wf(store),
        learning::times_selected(store.records, reading, surface) < u32::MAX,
    ensures
        ({
            let after = learning::after_record(store, reading, surface, now);
            let before = learning::boost_of(store.records, reading, surface);
            &&& learning::learning_wf(after)
            &&& learning::learned(after.records, reading, surface) matches Some(entry)
                && entry.last_used == now && entry.count == learning::times_selected(
                store.records,
                reading,
                surface,
            ) + 1
            &&& learning::boost_of(after.records, reading, surface) == if before <= 190 {
                before + 10
            } else {
                200
            }
            &&& other_reading != reading || other_surface != surface ==> {
                &&& learning::learned(after.records, other_reading, other_surface)
                    == learning::learned(store.records, other_reading, other_surface)
                &&& learning::boost_of(after.records, other_reading, other_surface)
                    == learning::boost_of(store.records, other_reading, other_surface)
            }
        }),
{
    let count = (learning::times_selected(store.records, reading, surface) + 1) as u32;
    let record = RecordView { reading, surface, entry: LearnEntry { count, last_used: now } };
    learning::lemma_with_record(store.records, record, reading, surface);
    learning::lemma_with_record(store.records, record, other_reading, other_surface);
    learning::lemma_record_place(store.records, reading, surface);
}

/// After the selections of a list of pairs, a pair of the list was last used at the
/// time of its last place in the list; of any other pair nothing has changed.
pub proof fn lemma_selections(
    store: LearningView,
    pairs: Seq<(Seq<char>, Seq<char>)>,
    times: Seq<u64>,
    reading: Seq<char>,
    surface: Seq<char>,
)
    requires
        learning::room_for(store.records, pairs),
    ensures
        ({
            let after = learning::after_records(store, pairs, times).records;
            &&& forall|k: int|
                0 <= k < pairs.len() && #[trigger] pairs[k] == (reading, surface) && (forall|j: int|
                    k < j < pairs.len() ==> #[trigger] pairs[j] != (reading, surface))
                    ==> (learning::learned(after, reading, surface) matches Some(entry)
                    && entry.last_used == times[k])
            &&& (forall|k: int|
                0 <= k < pairs.len() ==> #[trigger] pairs[k] != (reading, surface))
                ==> learning::learned(after, reading, surface) == learning::learned(
                store.records,
                reading,
                surface,
            )
        }),
    decreases pairs.len(),
{
    if pairs.len() > 0 {
        let rest = pairs.drop_last();
        let (r, s) = pairs.last();
        learning::lemma_after_records(store, pairs, times, reading, surface);
        lemma_selections(store, rest, times, reading, surface);
        let before = learning::after_records(store, rest, times);
        let after = learning::after_records(store, pairs, times).records;
        let count = (learning::times_selected(before.records, r, s) + 1) as u32;
        let record = RecordView {
            reading: r,
            surface: s,
            entry: LearnEntry { count, last_used: times[pairs.len() - 1] },
        };
        learning::lemma_with_record(before.records, record, reading, surface);
        let end = pairs.len() - 1;
        assert(pairs[end] == (r, s));
        assert forall|k: int|
            0 <= k < pairs.len() && #[trigger] pairs[k] == (reading, surface) && (forall|j: int|
                k < j < pairs.len() ==> #[trigger] pairs[j] != (reading, surface)) implies (
        learning::learned(after, reading, surface) matches Some(entry) && entry.last_used
            == times[k]) by {
            if k < end {
                assert(rest[k] == pairs[k]);
                assert(pairs[end] != (reading, surface));
                assert forall|j: int| k < j < rest.len() implies #[trigger] rest[j] != (
                reading,
                surface) by {
                    assert(rest[j] == pairs[j]);
                }
            }
        }
        if forall|k: int| 0 <= k < pairs.len() ==> #[trigger] pairs[k] != (reading, surface) {
            assert forall|k: int| 0 <= k < rest.len() implies #[trigger] rest[k] != (
            reading,
            surface) by {
                assert(rest[k] == pairs[k]);
            }
        }
    }
}

/// A selection raises the count of its own pair by one and leaves every other
/// pair as it was.
pub proof fn lemma_record_counts(
    store: LearningView,
    reading: Seq<char>,
    surface: Seq<char>,
    now: u64,
    other_reading: Seq<char>,
    other_surface: Seq<char>,
)
    requires
        learning::times_selected(store.records, reading, surface) < u32::MAX,
    ensures
        learning::times_selected(
            learning::after_record(store, reading, surface, now).records,
            reading,
            surface,
        ) == learning::times_selected(store.records, reading, surface) + 1,
        other_reading != reading || other_surface != surface ==> learning::learned(
            learning::after_record(store, reading, surface, now).records,
            other_reading,
            other_surface,
        ) == learning::learned(store.records, other_reading, other_surface),
{
    let count = (learning::times_selected(store.records, reading, surface) + 1) as u32;
    let record = RecordView { reading, surface, entry: LearnEntry { count, last_used: now } };
    learning::lemma_with_record(store.records, record, reading, surface);
    learning::lemma_with_record(store.records, record, other_reading, other_surface);
}

/// A boost is at most 200, and a selection never lowers it.
pub proof fn lemma_boost(
    store: LearningView,
    reading: Seq<char>,
    surface: Seq<char>,
    now: u64,
)
    requires
        learning::times_selected(store.records, reading, surface) < u32::MAX,
    ensures
        0 <= learning::boost_of(store.records, reading, surface) <= 200,
        learning::boost_of(store.records, reading, surface) <= learning::boost_of(
            learning::after_record(store, reading, surface, now).records,
            reading,
            surface,
        ),
{
    lemma_record_counts(store, reading, surface, now, reading, surface);
}

/// The history is due to be saved after every fifth selection.
pub proof fn lemma_flush_interval(
    store: LearningView,
    pairs: Seq<(Seq<char>, Seq<char>)>,
    times: Seq<u64>,
)
    requires
        0 <= store.commit_count < learning::FLUSH_INTERVAL,
    ensures
        ({
            let after = learning::after_records(store, pairs, times);
            let commits = store.commit_count + pairs.len();
            &&& after.commit_count == commits % learning::FLUSH_INTERVAL as int
            &&& after.flush_due == (store.flush_due || commits >= learning::FLUSH_INTERVAL)
            &&& after.dirty == (store.dirty || pairs.len() > 0)
        }),
    decreases pairs.len(),
{
    if pairs.len() > 0 {
        lemma_flush_interval(store, pairs.drop_last(), times);
    }
}

// ---------------------------------------------------------------------------
// Saving and loading
// ---------------------------------------------------------------------------

/// Whether a field can be told from its neighbours in a line.
pub open spec fn is_field(s: Seq<char>) -> bool {
    forall|i: int| 0 <= i < s.len() ==> #[trigger] s[i] != '\t' && s[i] != '\n'
}

/// Whether the pairs of all records can be written in lines.
pub open spec fn writable(records: Seq<RecordView>) -> bool {
    forall|i: int|
        0 <= i < records.len() ==> is_field((#[trigger] records[i]).reading) && is_field(
            records[i].surface,
        )
}

proof fn lemma_decimal_field(n: int)
    requires
        0 <= n,
    ensures
        is_field(number::decimal(n)),
        number::decimal(n).len() > 0,
        number::decimal(n).last() != '\r',
{
    number::lemma_decimal_reads_back(n);
    let d = number::decimal(n);
    assert forall|i: int| 0 <= i < d.len() implies #[trigger] d[i] != '\t' && d[i] != '\n' by {
        assert(number::is_digit(d[i]));
    }
    assert(number::is_digit(d[d.len() - 1]));
}

/// A record reads back from its line.
proof fn lemma_record_line(record: RecordView)
    requires
        is_field(record.reading),
        is_field(record.surface),
    ensures
        learning::record_of(learning::record_line(record)) == Some(record),
        learning::record_line(record).len() > 0,
        learning::record_line(record).last() != '\r',
        forall|i: int|
            0 <= i < learning::record_line(record).len() ==> #[trigger] learning::record_line(
                record,
            )[i] != '\n',
{
    let line = learning::record_line(record);
    let count = number::decimal(record.entry.count as int);
    let last = number::decimal(record.entry.last_used as int);
    lemma_decimal_field(record.entry.count as int);
    lemma_decimal_field(record.entry.last_used as int);
    number::lemma_parsed_decimal(record.entry.count as int, u32::MAX as int);
    number::lemma_parsed_decimal(record.entry.last_used as int, u64::MAX as int);
    let tab = seq!['\t'];
    let rest3 = count + tab + last;
    let rest2 = record.surface + tab + rest3;
    assert(line =~= record.reading + tab + rest2);
    text::lemma_pieces_join(record.reading, rest2, '\t');
    text::lemma_pieces_join(record.surface, rest3, '\t');
    text::lemma_pieces_join(count, last, '\t');
    text::lemma_pieces_single(last, '\t');
    let fields = text::pieces(line, '\t');
    assert(fields =~= seq![record.reading, record.surface, count, last]);
    assert(fields[0] == record.reading && fields[1] == record.surface && fields[2] == count
        && fields[3] == last);
    let c = record.reading.len() as int;
    assert forall|i: int| 0 <= i < line.len() implies #[trigger] line[i] != '\n' by {
        let s = c + 1 + record.surface.len();
        let k = s + 1 + count.len();
        if i < c {
            assert(line[i] == record.reading[i]);
        } else if c < i < s {
            assert(line[i] == record.surface[i - c - 1]);
        } else if s < i < k {
            assert(line[i] == count[i - s - 1]);
        } else if k < i {
            assert(line[i] == last[i - k - 1]);
        }
    }
    assert(line.last() == last.last());
}

proof fn lemma_lines_joined(lines: Seq<Seq<char>>)
    requires
        forall|k: int|
            0 <= k < lines.len() ==> (#[trigger] lines[k]).len() > 0 && lines[k].last() != '\r',
        forall|k: int, i: int|
            0 <= k < lines.len() && 0 <= i < lines[k].len() ==> #[trigger] lines[k][i] != '\n',
    ensures
        text::lines_of(text::joined(lines)) == lines,
    decreases lines.len(),
{
    if lines.len() > 0 {
        let rest = lines.drop_first();
        assert forall|k: int| 0 <= k < rest.len() implies (#[trigger] rest[k]).len() > 0
            && rest[k].last() != '\r' by {
            assert(rest[k] == lines[k + 1]);
        }
        assert forall|k: int, i: int| 0 <= k < rest.len() && 0 <= i < rest[k].len() implies
            #[trigger] rest[k][i] != '\n' by {
            assert(rest[k] == lines[k + 1]);
            assert(lines[k + 1][i] != '\n');
        }
        lemma_lines_joined(rest);
        assert forall|i: int| 0 <= i < lines[0].len() implies #[trigger] lines[0][i] != '\n' by {}
        text::lemma_lines_join(lines[0], text::joined(rest));
        assert(seq![lines[0]] + rest =~= lines);
    } else {
        assert(text::lines_of(Seq::<char>::empty()) =~= lines);
    }
}

/// Whether every line writes a record of `records`.
spec fn lines_from(lines: Seq<Seq<char>>, records: Seq<RecordView>) -> bool {
    forall|k: int|
        0 <= k < lines.len() ==> exists|i: int|
            0 <= i < records.len() && #[trigger] learning::record_line(records[i])
                == #[trigger] lines[k]
}

/// What a load knows of a pair: its record, if it is young enough and has been read.
proof fn lemma_records_of(
    records: Seq<RecordView>,
    lines: Seq<Seq<char>>,
    n: int,
    now: u64,
    reading: Seq<char>,
    surface: Seq<char>,
)
    requires
        learning::pairs_once(records),
        writable(records),
        lines_from(lines, records),
        0 <= n <= lines.len(),
    ensures
        learning::learned(learning::records_of(lines, n, now), reading, surface) == {
            let i = learning::record_place(records, reading, surface);
            if i < records.len() && learning::is_fresh(records[i].entry, now) && lines.take(
                n,
            ).contains(learning::record_line(records[i])) {
                Some(records[i].entry)
            } else {
                None
            }
        },
    decreases n,
{
    let i = learning::record_place(records, reading, surface);
    learning::lemma_record_place(records, reading, surface);
    if n > 0 {
        lemma_records_of(records, lines, n - 1, now, reading, surface);
        let line = lines[n - 1];
        let before = learning::records_of(lines, n - 1, now);
        let k = choose|k: int|
            0 <= k < records.len() && #[trigger] learning::record_line(records[k]) == line;
        lemma_record_line(records[k]);
        learning::lemma_with_record(before, records[k], reading, surface);
        let head = lines.take(n);
        let shorter = lines.take(n - 1);
        assert(head =~= shorter.push(line));
        if i < records.len() {
            lemma_record_line(records[i]);
            let own = learning::record_line(records[i]);
            if shorter.contains(own) {
                let j = choose|j: int| 0 <= j < shorter.len() && shorter[j] == own;
                assert(head[j] == own);
            }
            if head.contains(own) && !shorter.contains(own) {
                let j = choose|j: int| 0 <= j < head.len() && head[j] == own;
                if j < n - 1 {
                    assert(shorter[j] == own);
                }
                assert(line == own);
            }
            if line == own {
                assert(head[n - 1] == own);
                assert(Some(records[k]) == Some(records[i]));
            }
        }
        if records[k].reading == reading && records[k].surface == surface {
            assert(k == i);
        }
    } else {
        assert(lines.take(0) =~= Seq::<Seq<char>>::empty());
    }
}

/// What is saved is loaded again: for every pair, a history that is loaded from
/// its saved text at the time `now` knows the record of the pair, unless it has
/// become too old. Readings and surfaces are taken to hold no tab and no newline,
/// which end a field.
pub proof fn lemma_saved_history_loads(
    records: Seq<RecordView>,
    now: u64,
    reading: Seq<char>,
    surface: Seq<char>,
)
    requires
        learning::pairs_once(records),
        writable(records),
    ensures
        learning::learned(
            learning::records_of_text(learning::history_text(records), now),
            reading,
            surface,
        ) == match learning::learned(records, reading, surface) {
            Some(entry) if learning::is_fresh(entry, now) => Some(entry),
            _ => None,
        },
{
    let raw = records.map_values(|r: RecordView| learning::record_line(r));
    let lines = learning::record_lines(records);
    assert forall|k: int| 0 <= k < lines.len() implies exists|i: int|
        0 <= i < records.len() && #[trigger] learning::record_line(records[i])
            == #[trigger] lines[k] by {
        order::lemma_arranged_member(raw, order::text_order(), lines[k]);
        assert(lines.contains(lines[k]));
        let i = choose|i: int| 0 <= i < raw.len() && raw[i] == lines[k];
        assert(learning::record_line(records[i]) == lines[k]);
    }
    assert forall|k: int| 0 <= k < lines.len() implies (#[trigger] lines[k]).len() > 0
        && lines[k].last() != '\r' by {
        let i = choose|i: int|
            0 <= i < records.len() && #[trigger] learning::record_line(records[i]) == lines[k];
        lemma_record_line(records[i]);
    }
    assert forall|k: int, c: int| 0 <= k < lines.len() && 0 <= c < lines[k].len() implies
        #[trigger] lines[k][c] != '\n' by {
        let i = choose|i: int|
            0 <= i < records.len() && #[trigger] learning::record_line(records[i]) == lines[k];
        lemma_record_line(records[i]);
    }
    lemma_lines_joined(lines);
    let n = lines.len() as int;
    lemma_records_of(records, lines, n, now, reading, surface);
    learning::lemma_record_place(records, reading, surface);
    let i = learning::record_place(records, reading, surface);
    assert(lines.take(n) =~= lines);
    if i < records.len() {
        order::lemma_arranged_member(raw, order::text_order(), learning::record_line(records[i]));
        assert(raw[i] == learning::record_line(records[i]));
        assert(raw.contains(raw[i]));
    }
}

/// The text of a history has one line for each record, sorted.
pub proof fn lemma_history_lines(records: Seq<RecordView>)
    ensures
        learning::record_lines(records).len() == records.len(),
        learning::record_lines(records).to_multiset() == records.map_values(
            |r: RecordView| learning::record_line(r),
        ).to_multiset(),
        forall|i: int, j: int|
            0 <= i < j < records.len() ==> !order::text_before(
                #[trigger] learning::record_lines(records)[j],
                #[trigger] learning::record_lines(records)[i],
            ),
{
    let raw = records.map_values(|r: RecordView| learning::record_line(r));
    let before = order::text_order();
    order::lemma_text_order_strict();
    order::lemma_arranged_keeps(raw, before);
    order::lemma_arranged_in_order(raw, before);
    let lines = learning::record_lines(records);
    assert forall|i: int, j: int| 0 <= i < j < records.len() implies !order::text_before(
        #[trigger] lines[j],
        #[trigger] lines[i],
    ) by {
        assert(!before(lines[j], lines[i]));
    }
}

/// A history that was saved boosts as before, has nothing left to save, and, while
/// no record is too old, boosts the same after it has been loaded again.
pub proof fn lemma_saved_history_boosts(
    store: LearningView,
    now: u64,
    reading: Seq<char>,
    surface: Seq<char>,
)
    requires
        learning::learning_wf(store),
        store.dirty,
        writable(store.records),
        forall|i: int|
            0 <= i < store.records.len() ==> learning::is_fresh(
                (#[trigger] store.records[i]).entry,
                now,
            ),
    ensures
        ({
            let boost = learning::boost_of(store.records, reading, surface);
            let after = learning::after_save(store);
            &&& learning::unsaved_text(store) matches Some(t) && learning::boost_of(
                learning::records_of_text(t, now),
                reading,
                surface,
            ) == boost
            &&& learning::boost_of(after.records, reading, surface) == boost
            &&& learning::unsaved_text(after) is None
        }),
{
    lemma_saved_history_loads(store.records, now, reading, surface);
    learning::lemma_record_place(store.records, reading, surface);
}

// ---------------------------------------------------------------------------
// What a history text says
// ---------------------------------------------------------------------------

/// A line writes a record exactly if it has at least four fields between tabs, of
/// which the third is a number of 32 bits and the fourth one of 64 bits. The first
/// two are the reading and the surface.
pub proof fn lemma_record_of(line: Seq<char>, record: RecordView)
    ensures
        learning::record_of(line) == Some(record) <==> {
            let fields = text::pieces(line, '\t');
            &&& fields.len() >= 4
            &&& record.reading == fields[0]
            &&& record.surface == fields[1]
            &&& number::parsed(fields[2], u32::MAX as int) == Some(record.entry.count as int)
            &&& number::parsed(fields[3], u64::MAX as int) == Some(record.entry.last_used as int)
        },
{
    let fields = text::pieces(line, '\t');
    if fields.len() >= 4 {
        number::lemma_parsed_range(fields[2], u32::MAX as int);
        number::lemma_parsed_range(fields[3], u64::MAX as int);
    }
}

/// Whether a line writes a record of the pair that is at most 90 days old.
spec fn is_young_line(
    line: Seq<char>,
    now: u64,
    reading: Seq<char>,
    surface: Seq<char>,
    entry: LearnEntry,
) -> bool {
    &&& learning::record_of(line) == Some(RecordView { reading, surface, entry })
    &&& now - entry.last_used <= 90 * 24 * 60 * 60
}

proof fn lemma_young_lines(
    lines: Seq<Seq<char>>,
    n: int,
    now: u64,
    reading: Seq<char>,
    surface: Seq<char>,
)
    requires
        0 <= n <= lines.len(),
    ensures
        learning::learned(learning::records_of(lines, n, now), reading, surface) matches Some(entry)
            ==> exists|i: int|
            0 <= i < n && is_young_line(#[trigger] lines[i], now, reading, surface, entry),
        forall|i: int, entry: LearnEntry|
            #![trigger is_young_line(lines[i], now, reading, surface, entry)]
            0 <= i < n && is_young_line(lines[i], now, reading, surface, entry) && (forall|
                j: int,
                later: LearnEntry,
            |
                #![trigger is_young_line(lines[j], now, reading, surface, later)]
                i < j < n ==> !is_young_line(lines[j], now, reading, surface, later))
                ==> learning::learned(learning::records_of(lines, n, now), reading, surface)
                == Some(entry),
    decreases n,
{
    if n > 0 {
        lemma_young_lines(lines, n - 1, now, reading, surface);
        let line = lines[n - 1];
        let before = learning::records_of(lines, n - 1, now);
        let after = learning::records_of(lines, n, now);
        let known = learning::learned(before, reading, surface);
        match learning::record_of(line) {
            Some(record) => {
                learning::lemma_with_record(before, record, reading, surface);
                if record.reading == reading && record.surface == surface && now
                    - record.entry.last_used <= 90 * 24 * 60 * 60 {
                    assert(is_young_line(line, now, reading, surface, record.entry));
                    assert(record == RecordView { reading, surface, entry: record.entry });
                    assert(learning::learned(after, reading, surface) == Some(record.entry));
                } else {
                    assert(learning::learned(after, reading, surface) == known);
                    assert forall|entry: LearnEntry| !is_young_line(
                        line,
                        now,
                        reading,
                        surface,
                        entry,
                    ) by {}
                }
            },
            None => {},
        }
        if let Some(entry) = learning::learned(after, reading, surface) {
            if is_young_line(line, now, reading, surface, entry) {
                assert(is_young_line(lines[n - 1], now, reading, surface, entry));
            } else {
                let i = choose|i: int|
                    0 <= i < n - 1 && is_young_line(
                        #[trigger] lines[i],
                        now,
                        reading,
                        surface,
                        entry,
                    );
                assert(is_young_line(lines[i], now, reading, surface, entry));
            }
        }
        assert forall|i: int, entry: LearnEntry|
            #![trigger is_young_line(lines[i], now, reading, surface, entry)]
            0 <= i < n && is_young_line(lines[i], now, reading, surface, entry) && (forall|
                j: int,
                later: LearnEntry,
            |
                #![trigger is_young_line(lines[j], now, reading, surface, later)]
                i < j < n ==> !is_young_line(
                    lines[j],
                    now,
                    reading,
                    surface,
                    later,
                )) implies learning::learned(after, reading, surface) == Some(entry) by {
            if i < n - 1 {
                if let Some(record) = learning::record_of(line) {
                    if record.reading == reading && record.surface == surface {
                        assert(!is_young_line(
                            lines[n - 1],
                            now,
                            reading,
                            surface,
                            record.entry,
                        ));
                    }
                }
            }
        }
    }
}

/// A load keeps nothing that is older than 90 days: what it knows of a pair stands in
/// a line of the text, whose time lies at most 90 days before `now`.
pub proof fn lemma_loaded_entry_is_young(
    text: Seq<char>,
    now: u64,
    reading: Seq<char>,
    surface: Seq<char>,
    entry: LearnEntry,
)
    requires
        learning::learned(learning::records_of_text(text, now), reading, surface) == Some(entry),
    ensures
        now - entry.last_used <= 90 * 24 * 60 * 60,
        exists|i: int|
            0 <= i < text::lines_of(text).len() && learning::record_of(
                #[trigger] text::lines_of(text)[i],
            ) == Some(RecordView { reading, surface, entry }),
{
    let lines = text::lines_of(text);
    lemma_young_lines(lines, lines.len() as int, now, reading, surface);
    let i = choose|i: int|
        0 <= i < lines.len() && is_young_line(#[trigger] lines[i], now, reading, surface, entry);
    assert(learning::record_of(lines[i]) == Some(RecordView { reading, surface, entry }));
}

/// A load loses nothing that is young: a line whose time lies at most 90 days before
/// `now` is known, unless a later such line is of the same pair.
pub proof fn lemma_young_entry_is_loaded(
    text: Seq<char>,
    now: u64,
    i: int,
    record: RecordView,
)
    requires
        0 <= i < text::lines_of(text).len(),
        learning::record_of(text::lines_of(text)[i]) == Some(record),
        now - record.entry.last_used <= 90 * 24 * 60 * 60,
        forall|j: int, later: RecordView|
            i < j < text::lines_of(text).len() && #[trigger] learning::record_of(
                text::lines_of(text)[j],
            ) == Some(later) && now - (#[trigger] later.entry).last_used <= 90 * 24 * 60 * 60
                ==> later.reading != record.reading || later.surface != record.surface,
    ensures
        learning::learned(
            learning::records_of_text(text, now),
            record.reading,
            record.surface,
        ) == Some(record.entry),
{
    let lines = text::lines_of(text);
    let reading = record.reading;
    let surface = record.surface;
    lemma_young_lines(lines, lines.len() as int, now, reading, surface);
    assert(is_young_line(lines[i], now, reading, surface, record.entry));
    assert forall|j: int, later: LearnEntry|
        #![trigger is_young_line(lines[j], now, reading, surface, later)]
        i < j < lines.len() implies !is_young_line(lines[j], now, reading, surface, later) by {
        let whole = RecordView { reading, surface, entry: later };
        assert(whole.entry == later);
        if is_young_line(lines[j], now, reading, surface, later) {
            assert(learning::record_of(lines[j]) == Some(whole));
            assert(now - whole.entry.last_used <= 90 * 24 * 60 * 60);
        }
    }
}

/// The age of an entry is counted from what the system clock read: where a store was
/// loaded from a text, there is a result of `SystemTime::now` so many seconds after
/// the start of Unix time that the text was read at that time, and no loaded entry
/// lies more than 90 days before it.
pub proof fn lemma_load_reads_the_clock(text: Seq<char>, store: LearningView)
    requires
        exists|now: u64|
            learning::clock_reads(now) && store == learning::saved(
                #[trigger] learning::records_of_text(text, now),
            ),
    ensures
        exists|
            time: SystemTime,
            start: SystemTime,
            span: Result<Duration, SystemTimeError>,
            now: u64,
        |
            #![trigger
                call_ensures(SystemTime::duration_since, (&time, start), span),
                learning::records_of_text(text, now)]
            {
                &&& call_ensures(SystemTime::now, (), time)
                &&& learning::starts_unix_time(start)
                &&& call_ensures(SystemTime::duration_since, (&time, start), span)
                &&& match span {
                    Ok(d) => call_ensures(Duration::as_secs, (&d,), now),
                    Err(_) => now == 0,
                }
                &&& store.records == learning::records_of_text(text, now)
                &&& forall|reading: Seq<char>, surface: Seq<char>|
                    (#[trigger] learning::learned(store.records, reading, surface)) matches Some(
                        entry,
                    ) ==> now - entry.last_used <= 90 * 24 * 60 * 60
            },
{
    let now = choose|now: u64|
        learning::clock_reads(now) && store == learning::saved(
            #[trigger] learning::records_of_text(text, now),
        );
    assert forall|reading: Seq<char>, surface: Seq<char>| (#[trigger] learning::learned(
        store.records,
        reading,
        surface,
    )) matches Some(entry) implies now - learning::learned(
        store.records,
        reading,
        surface,
    )->0.last_used <= 90 * 24 * 60 * 60 by {
        lemma_loaded_entry_is_young(
            text,
            now,
            reading,
            surface,
            learning::learned(store.records, reading, surface)->0,
        );
    }
    let (time, start, span) = choose|
        time: SystemTime,
        start: SystemTime,
        span: Result<Duration, SystemTimeError>,
    |
        call_ensures(SystemTime::now, (), time) && learning::starts_unix_time(start)
            && #[trigger] call_ensures(SystemTime::duration_since, (&time, start), span)
            && match span {
            Ok(d) => call_ensures(Duration::as_secs, (&d,), now),
            Err(_) => now == 0,
        };
    assert(call_ensures(SystemTime::duration_since, (&time, start), span));
    assert(store.records == learning::records_of_text(text, now));
}

/// The text of a history has the lines of its records, each ended by a newline, and a
/// line has the four fields of its record between tabs.
pub proof fn lemma_history_format(records: Seq<RecordView>, i: int)
    requires
        writable(records),
        0 <= i < records.len(),
    ensures
        text::lines_of(learning::history_text(records)) == learning::record_lines(records),
        learning::history_text(records).last() == '\n',
        text::lines_of(learning::history_text(records)).contains(
            learning::record_line(records[i]),
        ),
        text::pieces(learning::record_line(records[i]), '\t') == seq![
            records[i].reading,
            records[i].surface,
            number::decimal(records[i].entry.count as int),
            number::decimal(records[i].entry.last_used as int),
        ],
{
    let raw = records.map_values(|r: RecordView| learning::record_line(r));
    let lines = learning::record_lines(records);
    assert forall|k: int| 0 <= k < lines.len() implies exists|q: int|
        0 <= q < records.len() && #[trigger] learning::record_line(records[q])
            == #[trigger] lines[k] by {
        order::lemma_arranged_member(raw, order::text_order(), lines[k]);
        assert(lines.contains(lines[k]));
        let q = choose|q: int| 0 <= q < raw.len() && raw[q] == lines[k];
        assert(learning::record_line(records[q]) == lines[k]);
    }
    assert forall|k: int| 0 <= k < lines.len() implies (#[trigger] lines[k]).len() > 0
        && lines[k].last() != '\r' by {
        let q = choose|q: int|
            0 <= q < records.len() && #[trigger] learning::record_line(records[q]) == lines[k];
        lemma_record_line(records[q]);
    }
    assert forall|k: int, c: int| 0 <= k < lines.len() && 0 <= c < lines[k].len() implies
        #[trigger] lines[k][c] != '\n' by {
        let q = choose|q: int|
            0 <= q < records.len() && #[trigger] learning::record_line(records[q]) == lines[k];
        lemma_record_line(records[q]);
    }
    lemma_lines_joined(lines);
    assert(raw[i] == learning::record_line(records[i]));
    assert(raw.contains(raw[i]));
    order::lemma_arranged_member(raw, order::text_order(), raw[i]);
    assert(lines.len() > 0) by {
        assert(lines.contains(raw[i]));
    }
    lemma_joined_ends(lines);
    let record = records[i];
    let count = number::decimal(record.entry.count as int);
    let last = number::decimal(record.entry.last_used as int);
    lemma_decimal_field(record.entry.count as int);
    lemma_decimal_field(record.entry.last_used as int);
    let tab = seq!['\t'];
    let rest3 = count + tab + last;
    let rest2 = record.surface + tab + rest3;
    let line = learning::record_line(record);
    assert(line =~= record.reading + tab + rest2);
    text::lemma_pieces_join(record.reading, rest2, '\t');
    text::lemma_pieces_join(record.surface, rest3, '\t');
    text::lemma_pieces_join(count, last, '\t');
    text::lemma_pieces_single(last, '\t');
    assert(text::pieces(line, '\t') =~= seq![record.reading, record.surface, count, last]);
}

proof fn lemma_joined_ends(lines: Seq<Seq<char>>)
    requires
        lines.len() > 0,
    ensures
        text::joined(lines).len() > 0,
        text::joined(lines).last() == '\n',
    decreases lines.len(),
{
    let rest = lines.drop_first();
    let first = lines[0] + seq!['\n'];
    if rest.len() > 0 {
        lemma_joined_ends(rest);
    } else {
        assert(text::joined(rest) =~= Seq::<char>::empty());
    }
    assert(first.last() == '\n');
}

/// Being this pair.
pub open spec fn is_pair(pair: (Seq<char>, Seq<char>)) -> spec_fn(
    (Seq<char>, Seq<char>),
) -> bool {
    |p: (Seq<char>, Seq<char>)| p == pair
}

/// How often a pair occurs in a list is the number of its places there.
pub proof fn lemma_occurs(
    pairs: Seq<(Seq<char>, Seq<char>)>,
    pair: (Seq<char>, Seq<char>),
)
    ensures
        learning::occurs(pairs, pair) == pairs.filter(is_pair(pair)).len(),
    decreases pairs.len(),
{
    reveal(Seq::filter);
    if pairs.len() > 0 {
        lemma_occurs(pairs.drop_last(), pair);
    }
}

/// There is something to save exactly if something was selected since the last save, and
/// it is the whole history.
pub proof fn lemma_unsaved(store: LearningView)
    ensures
        store.dirty ==> learning::unsaved_text(store) == Some(
            learning::history_text(store.records),
        ),
        !store.dirty ==> learning::unsaved_text(store) is None,
{
}

/// The counts have room for a list of pairs exactly if none of them goes above what 32
/// bits hold.
pub proof fn lemma_room(records: Seq<RecordView>, pairs: Seq<(Seq<char>, Seq<char>)>)
    ensures
        learning::room_for(records, pairs) <==> (forall|k: int|
            0 <= k < pairs.len() ==> learning::times_selected(
                records,
                (#[trigger] pairs[k]).0,
                pairs[k].1,
            ) + pairs.filter(is_pair(pairs[k])).len() <= 0xffff_ffff),
{
    assert forall|k: int| 0 <= k < pairs.len() implies learning::occurs(
        pairs,
        #[trigger] pairs[k],
    ) == pairs.filter(is_pair(pairs[k])).len() by {
        lemma_occurs(pairs, pairs[k]);
    }
}

} // verus!
