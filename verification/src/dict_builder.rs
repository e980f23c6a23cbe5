//! Compiling the system dictionary from an SKK dictionary in EUC-JP.
//!
//! Entries whose reading is not pure hiragana are left out; comments and blank
//! lines stay.

use crate::candidate::CandidateSource;
use crate::dictionary;
use crate::dictionary_laws;
use crate::skk;
use crate::text;
use crate::text::{chars_of, find, join_lines, split_lines, trim};
use vstd::prelude::*;

verus! {

// ---------------------------------------------------------------------------
// Hiragana
// ---------------------------------------------------------------------------

/// Whether `c` is hiragana: a standard hiragana, an iteration mark or the digraph.
pub open spec fn is_hiragana(c: char) -> bool {
    '\u{3041}' <= c <= '\u{3096}' || '\u{309D}' <= c <= '\u{309F}'
}

/// Whether a text is not empty and has only hiragana.
pub open spec fn all_hiragana(s: Seq<char>) -> bool {
    &&& s.len() > 0
    &&& forall|i: int| 0 <= i < s.len() ==> is_hiragana(#[trigger] s[i])
}

/// Whether `c` is hiragana.
pub fn is_hiragana_char(c: char) -> (yes: bool)
    ensures
        yes == is_hiragana(c),
{
    ('\u{3041}' <= c && c <= '\u{3096}') || ('\u{309D}' <= c && c <= '\u{309F}')
}

fn only_hiragana(s: &[char]) -> (yes: bool)
    ensures
        yes == all_hiragana(s@),
{
    if s.len() == 0 {
        return false;
    }
    for i in 0..s.len()
        invariant
            forall|k: int| 0 <= k < i ==> is_hiragana(#[trigger] s@[k]),
    {
        if !is_hiragana_char(s[i]) {
            return false;
        }
    }
    true
}

/// Whether every character of a reading is hiragana. An empty reading is rejected.
pub fn is_all_hiragana(s: &str) -> (yes: bool)
    ensures
        yes == all_hiragana(s@),
{
    let chars = chars_of(s);
    only_hiragana(chars.as_slice())
}

// ---------------------------------------------------------------------------
// Filtering
// ---------------------------------------------------------------------------

/// Whether a line is an entry: it is neither blank nor a comment.
pub open spec fn is_entry(line: Seq<char>) -> bool {
    let body = text::trimmed(line);
    body.len() > 0 && body[0] != ';'
}

/// Whether a line is an entry whose reading, the text before the first space, is
/// pure hiragana.
pub open spec fn is_kept_entry(line: Seq<char>) -> bool {
    let body = text::trimmed(line);
    let n = text::first_of(body, ' ');
    is_entry(line) && n < body.len() && all_hiragana(body.take(n))
}

/// Whether a line stays in the dictionary.
pub open spec fn stays(line: Seq<char>) -> bool {
    !is_entry(line) || is_kept_entry(line)
}

/// The lines that stay.
pub open spec fn remaining(lines: Seq<Seq<char>>) -> Seq<Seq<char>>
    decreases lines.len(),
{
    if lines.len() == 0 {
        Seq::empty()
    } else {
        let before = remaining(lines.drop_last());
        if stays(lines.last()) {
            before.push(lines.last())
        } else {
            before
        }
    }
}

/// How many of the lines are entries.
pub open spec fn entry_total(lines: Seq<Seq<char>>) -> nat
    decreases lines.len(),
{
    if lines.len() == 0 {
        0
    } else {
        entry_total(lines.drop_last()) + if is_entry(lines.last()) {
            1nat
        } else {
            0
        }
    }
}

/// How many of the lines are entries that stay.
pub open spec fn kept_total(lines: Seq<Seq<char>>) -> nat
    decreases lines.len(),
{
    if lines.len() == 0 {
        0
    } else {
        kept_total(lines.drop_last()) + if is_kept_entry(lines.last()) {
            1nat
        } else {
            0
        }
    }
}

/// A compiled dictionary.
#[derive(Debug)]
pub struct BuiltDictionary {
    /// The text of the dictionary.
    pub text: String,
    /// Entries seen.
    pub total_entries: usize,
    /// Entries with a hiragana reading.
    pub kept_entries: usize,
    /// Entries left out.
    pub filtered_entries: usize,
    /// Whether some bytes of the source could not be decoded.
    pub had_errors: bool,
}

/// What a [`BuiltDictionary`] holds.
pub struct BuiltView {
    pub text: Seq<char>,
    pub total_entries: int,
    pub kept_entries: int,
    pub filtered_entries: int,
    pub had_errors: bool,
}

impl View for BuiltDictionary {
    type V = BuiltView;

    open spec fn view(&self) -> BuiltView {
        BuiltView {
            text: self.text@,
            total_entries: self.total_entries as int,
            kept_entries: self.kept_entries as int,
            filtered_entries: self.filtered_entries as int,
            had_errors: self.had_errors,
        }
    }
}

/// The dictionary compiled from a decoded source.
pub open spec fn built_of(source: Seq<char>, had_errors: bool) -> BuiltView {
    let lines = text::lines_of(source);
    BuiltView {
        text: text::joined(remaining(lines)),
        total_entries: entry_total(lines) as int,
        kept_entries: kept_total(lines) as int,
        filtered_entries: entry_total(lines) - kept_total(lines),
        had_errors,
    }
}

/// Compiles a dictionary from a decoded source.
pub fn build_from_text(source: &str, had_errors: bool) -> (built: BuiltDictionary)
    ensures
        built@ == built_of(source@, had_errors),
{
    let chars = chars_of(source);
    let lines = split_lines(chars.as_slice());
    let ghost all = text::lines_of(source@);
    let mut out: Vec<Vec<char>> = Vec::new();
    let mut total_entries: usize = 0;
    let mut kept_entries: usize = 0;
    assert(text::views(out@) =~= remaining(all.take(0)));
    for i in 0..lines.len()
        invariant
            all == text::views(lines@),
            text::views(out@) == remaining(all.take(i as int)),
            total_entries == entry_total(all.take(i as int)),
            kept_entries == kept_total(all.take(i as int)),
            kept_entries <= total_entries <= i,
    {
        let line = lines[i].as_slice();
        let ghost head = all.take(i + 1);
        proof {
            assert(head.drop_last() =~= all.take(i as int));
            assert(head.last() == line@);
        }
        let body = trim(line);
        let ghost before = text::views(out@);
        if body.len() == 0 || body[0] == ';' {
            let copy = text::copy_of(line);
            out.push(copy);
            assert(text::views(out@) =~= before.push(line@));
        } else {
            total_entries = total_entries + 1;
            let n = find(body, ' ');
            if n < body.len() {
                let reading = &body[0..n];
                assert(reading@ =~= body@.take(n as int));
                if only_hiragana(reading) {
                    let copy = text::copy_of(line);
                    out.push(copy);
                    assert(text::views(out@) =~= before.push(line@));
                    kept_entries = kept_entries + 1;
                }
            }
        }
    }
    assert(all.take(all.len() as int) =~= all);
    BuiltDictionary {
        text: join_lines(&out),
        total_entries,
        kept_entries,
        filtered_entries: total_entries - kept_entries,
        had_errors,
    }
}

// ---------------------------------------------------------------------------
// Decoding
// ---------------------------------------------------------------------------

/// What `encoding_rs` decodes from bytes as EUC-JP: the text, and whether some of
/// the bytes were malformed and replaced.
pub uninterp spec fn euc_jp_decoded(bytes: Seq<u8>) -> (Seq<char>, bool);

/// `Encoding::decode` of `encoding_rs`, on its `EUC_JP`, decodes a complete input.
/// A byte order mark at the start of the input makes it decode UTF-8 or UTF-16
/// instead. The text and the error flag depend on the bytes alone. It
/// panics where the size of its buffer, at most three bytes for each byte of the
/// input and a few more, overflows.
#[verifier::external_body]
fn decode_euc_jp(bytes: &[u8]) -> (decoded: (String, bool))
    requires
        (bytes@.len() + 2) * 3 <= isize::MAX,
    ensures
        (decoded.0@, decoded.1) == euc_jp_decoded(bytes@),
{
    let (text, _, had_errors) = encoding_rs::EUC_JP.decode(bytes);
    (text.into_owned(), had_errors)
}

/// Compiles a dictionary from an EUC-JP source.
pub fn build_dictionary(bytes: &[u8]) -> (built: BuiltDictionary)
    requires
        (bytes@.len() + 2) * 3 <= isize::MAX,
    ensures
        built@ == built_of(euc_jp_decoded(bytes@).0, euc_jp_decoded(bytes@).1),
{
    let (source, had_errors) = decode_euc_jp(bytes);
    build_from_text(source.as_str(), had_errors)
}

// ---------------------------------------------------------------------------
// Laws
// ---------------------------------------------------------------------------

/// A compiled dictionary has no line that would be left out, its entries are those
/// that were counted, and compiling its lines again changes nothing.
pub proof fn lemma_remaining(lines: Seq<Seq<char>>)
    ensures
        forall|i: int| 0 <= i < remaining(lines).len() ==> stays(#[trigger] remaining(lines)[i]),
        remaining(remaining(lines)) == remaining(lines),
        entry_total(remaining(lines)) == kept_total(lines),
        kept_total(remaining(lines)) == kept_total(lines),
        kept_total(lines) <= entry_total(lines) <= lines.len(),
    decreases lines.len(),
{
    if lines.len() > 0 {
        lemma_remaining(lines.drop_last());
        let before = remaining(lines.drop_last());
        if stays(lines.last()) {
            assert(before.push(lines.last()).drop_last() =~= before);
        }
    }
}

/// The reading of every entry of a compiled dictionary that a dictionary loads is
/// pure hiragana.
pub proof fn lemma_kept_reading(line: Seq<char>)
    requires
        stays(line),
    ensures
        skk::line_of(line) matches skk::LineView::Entry { reading, .. } ==> all_hiragana(reading),
{
}

/// The hiragana, by their code points: from small a to small ke, the two iteration
/// marks and the digraph yori.
pub proof fn lemma_hiragana(c: char)
    ensures
        is_hiragana(c) <==> 0x3041 <= c as int <= 0x3096 || 0x309d <= c as int <= 0x309f,
{
}

/// Whether a line, without white space around it, starts with a hiragana or more and
/// then a space.
pub open spec fn has_hiragana_reading(line: Seq<char>) -> bool {
    let body = text::trimmed(line);
    exists|n: int|
        0 < n < body.len() && #[trigger] body[n] == ' ' && (forall|k: int|
            0 <= k < n ==> (0x3041 <= #[trigger] body[k] as int <= 0x3096 || 0x309d
                <= body[k] as int <= 0x309f))
}

/// Whether a line is blank or a comment.
pub open spec fn is_remark(line: Seq<char>) -> bool {
    text::trimmed(line).len() == 0 || text::trimmed(line)[0] == ';'
}

proof fn lemma_kept_entry(line: Seq<char>)
    ensures
        is_entry(line) <==> !is_remark(line),
        is_kept_entry(line) <==> has_hiragana_reading(line),
        has_hiragana_reading(line) ==> !is_remark(line),
{
    let body = text::trimmed(line);
    let first = text::first_of(body, ' ');
    text::lemma_first_of(body, ' ');
    if is_kept_entry(line) {
        assert(body[first] == ' ');
        assert forall|k: int| 0 <= k < first implies (0x3041 <= #[trigger] body[k] as int <= 0x3096
            || 0x309d <= body[k] as int <= 0x309f) by {
            assert(is_hiragana(body.take(first)[k]));
        }
    }
    if has_hiragana_reading(line) {
        let n = choose|n: int|
            0 < n < body.len() && #[trigger] body[n] == ' ' && (forall|k: int|
                0 <= k < n ==> (0x3041 <= #[trigger] body[k] as int <= 0x3096 || 0x309d
                    <= body[k] as int <= 0x309f));
        assert forall|k: int| 0 <= k < n implies body[k] != ' ' by {
            assert(0x3041 <= body[k] as int);
        }
        text::lemma_first_of_is(body, ' ', n);
        assert(0x3041 <= body[0] as int);
        let reading = body.take(n);
        assert forall|k: int| 0 <= k < reading.len() implies is_hiragana(#[trigger] reading[k]) by {
            assert(reading[k] == body[k]);
        }
    }
}

/// What compiling keeps: the blank lines, the comments, and every line with a hiragana
/// reading, all of them, as they are and in order, and no other line. The entries that
/// are counted are the lines that are no remark, those that are kept and those that are
/// not.
pub proof fn lemma_built_lines(source: Seq<char>, had_errors: bool)
    ensures
        ({
            let lines = text::lines_of(source);
            let built = built_of(source, had_errors);
            let kept = lines.filter(
                |line: Seq<char>| is_remark(line) || has_hiragana_reading(line),
            );
            &&& built.text == text::joined(kept)
            &&& built.total_entries == lines.filter(|line: Seq<char>| !is_remark(line)).len()
            &&& built.kept_entries == lines.filter(
                |line: Seq<char>| has_hiragana_reading(line),
            ).len()
            &&& built.filtered_entries == lines.filter(
                |line: Seq<char>| !is_remark(line) && !has_hiragana_reading(line),
            ).len()
            &&& built.had_errors == had_errors
        }),
{
    lemma_filtered(text::lines_of(source));
}

proof fn lemma_filtered(lines: Seq<Seq<char>>)
    ensures
        remaining(lines) == lines.filter(
            |line: Seq<char>| is_remark(line) || has_hiragana_reading(line),
        ),
        entry_total(lines) == lines.filter(|line: Seq<char>| !is_remark(line)).len(),
        kept_total(lines) == lines.filter(|line: Seq<char>| has_hiragana_reading(line)).len(),
        entry_total(lines) - kept_total(lines) == lines.filter(
            |line: Seq<char>| !is_remark(line) && !has_hiragana_reading(line),
        ).len(),
    decreases lines.len(),
{
    reveal(Seq::filter);
    if lines.len() > 0 {
        lemma_filtered(lines.drop_last());
        lemma_kept_entry(lines.last());
    }
}

/// A compiled dictionary is complete: for every hiragana reading it lists the same as
/// the source, in the same order. For any other reading it lists nothing.
pub proof fn lemma_built_lists(source: Seq<char>, had_errors: bool, reading: Seq<char>)
    ensures
        ({
            let before = dictionary_laws::entries(text::lines_of(source), reading);
            let after = dictionary_laws::entries(
                text::lines_of(built_of(source, had_errors).text),
                reading,
            );
            if reading.len() > 0 && forall|i: int|
                0 <= i < reading.len() ==> (0x3041 <= #[trigger] reading[i] as int <= 0x3096
                    || 0x309d <= reading[i] as int <= 0x309f) {
                after == before
            } else {
                after.len() == 0
            }
        }),
{
    let lines = text::lines_of(source);
    dictionary_laws::lemma_are_lines(source);
    lemma_remaining_lines(lines);
    dictionary_laws::lemma_written_lines(remaining(lines), reading);
    lemma_remaining_lists(lines, reading);
    if all_hiragana(reading) {
        assert forall|i: int| 0 <= i < reading.len() implies (0x3041 <= #[trigger] reading[i] as int
            <= 0x3096 || 0x309d <= reading[i] as int <= 0x309f) by {
            assert(is_hiragana(reading[i]));
        }
    } else if reading.len() > 0 {
        let i = choose|i: int| 0 <= i < reading.len() && !is_hiragana(#[trigger] reading[i]);
        assert(!(0x3041 <= reading[i] as int <= 0x3096 || 0x309d <= reading[i] as int <= 0x309f));
    }
}

/// Where the source loads as a dictionary, so does what is compiled from it, and a
/// lookup of a hiragana reading gives the same.
pub proof fn lemma_built_loads(
    source: Seq<char>,
    had_errors: bool,
    reading: Seq<char>,
    origin: CandidateSource,
)
    requires
        dictionary::rows_of_text(source) is Ok,
    ensures
        dictionary::rows_of_text(built_of(source, had_errors).text) is Ok,
        all_hiragana(reading) ==> dictionary::rows_content(
            dictionary::rows_of_text(built_of(source, had_errors).text)->Ok_0,
            origin,
        )(reading) == dictionary::rows_content(
            dictionary::rows_of_text(source)->Ok_0,
            origin,
        )(reading),
{
    let lines = text::lines_of(source);
    let kept = remaining(lines);
    let again = text::lines_of(text::joined(kept));
    lemma_built_lists(source, had_errors, reading);
    dictionary_laws::lemma_are_lines(source);
    lemma_remaining_lines(lines);
    dictionary_laws::lemma_written_lines(kept, reading);
    dictionary_laws::lemma_loads(lines, lines.len() as int);
    dictionary_laws::lemma_loads(again, again.len() as int);
    assert(lines.take(lines.len() as int) =~= lines);
    assert(again.take(again.len() as int) =~= again);
    assert(dictionary_laws::well_formed(kept)) by {
        lemma_remaining_member(lines);
        assert forall|i: int| 0 <= i < kept.len() implies !(skk::line_of(
            #[trigger] kept[i],
        ) is Malformed) by {
            let k = choose|k: int| 0 <= k < lines.len() && lines[k] == kept[i];
            assert(!(skk::line_of(lines[k]) is Malformed));
        }
    }
    dictionary::lemma_rows_of(lines, lines.len() as int, reading);
    dictionary::lemma_rows_of(again, again.len() as int, reading);
    if all_hiragana(reading) {
        assert forall|i: int| 0 <= i < reading.len() implies (0x3041 <= #[trigger] reading[i] as int
            <= 0x3096 || 0x309d <= reading[i] as int <= 0x309f) by {
            assert(is_hiragana(reading[i]));
        }
    }
}

proof fn lemma_remaining_member(lines: Seq<Seq<char>>)
    ensures
        forall|i: int| 0 <= i < remaining(lines).len() ==> lines.contains(
            #[trigger] remaining(lines)[i],
        ),
    decreases lines.len(),
{
    if lines.len() > 0 {
        let rest = lines.drop_last();
        let kept = remaining(lines);
        lemma_remaining_member(rest);
        assert forall|i: int| 0 <= i < kept.len() implies lines.contains(#[trigger] kept[i]) by {
            if i < remaining(rest).len() {
                assert(kept[i] == remaining(rest)[i]);
                let k = choose|k: int| 0 <= k < rest.len() && rest[k] == kept[i];
                assert(lines[k] == kept[i]);
            } else {
                assert(lines[lines.len() - 1] == kept[i]);
            }
        }
    }
}

proof fn lemma_remaining_lines(lines: Seq<Seq<char>>)
    requires
        dictionary_laws::are_lines(lines),
    ensures
        dictionary_laws::are_lines(remaining(lines)),
{
    let kept = remaining(lines);
    lemma_remaining_member(lines);
    assert forall|k: int, i: int| 0 <= k < kept.len() && 0 <= i < kept[k].len() implies
        #[trigger] kept[k][i] != '\n' by {
        let j = choose|j: int| 0 <= j < lines.len() && lines[j] == kept[k];
        assert(lines[j][i] != '\n');
    }
}

proof fn lemma_remaining_lists(lines: Seq<Seq<char>>, reading: Seq<char>)
    ensures
        dictionary_laws::entries(remaining(lines), reading) == if all_hiragana(reading) {
            dictionary_laws::entries(lines, reading)
        } else {
            Seq::empty()
        },
    decreases lines.len(),
{
    if lines.len() > 0 {
        let rest = lines.drop_last();
        let line = lines.last();
        let one = seq![line];
        lemma_remaining_lists(rest, reading);
        assert(rest + one =~= lines);
        dictionary_laws::lemma_concat(rest, one, reading);
        dictionary_laws::lemma_concat(remaining(rest), one, reading);
        let own = dictionary_laws::entries(one, reading);
        reveal_with_fuel(dictionary::listed_for, 2);
        assert(one[0] == line);
        if stays(line) {
            lemma_kept_reading(line);
            assert(remaining(rest) + one =~= remaining(lines));
            if !all_hiragana(reading) {
                assert(own =~= Seq::empty());
                assert(Seq::<skk::DictEntryView>::empty() + own =~= Seq::empty());
            }
        } else {
            if all_hiragana(reading) {
                lemma_left_out(line, reading);
                assert(own =~= Seq::empty());
                assert(dictionary_laws::entries(rest, reading) + own =~= dictionary_laws::entries(
                    rest,
                    reading,
                ));
            }
        }
    }
}

proof fn lemma_left_out(line: Seq<char>, reading: Seq<char>)
    requires
        !stays(line),
        all_hiragana(reading),
    ensures
        skk::line_of(line) matches skk::LineView::Entry { reading: own, .. } ==> own != reading,
{
    text::lemma_first_of(text::trimmed(line), ' ');
}

} // verus!
