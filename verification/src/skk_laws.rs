//! What holds of the lines of an SKK dictionary.

use crate::number;
use crate::skk;
use crate::skk::{DictEntryView, LineView};
use crate::text;
use crate::text_laws;
use vstd::arithmetic::power2;
use vstd::prelude::*;

verus! {

// ---------------------------------------------------------------------------
// Lines
// ---------------------------------------------------------------------------

/// A line holds nothing exactly if it is blank or a comment: there is only white space
/// in it, or its first other character is `;`. Such a line is no error.
pub proof fn lemma_comment(raw: Seq<char>)
    ensures
        skk::line_of(raw) is Blank <==> (forall|i: int|
            0 <= i < raw.len() && !text::is_space(#[trigger] raw[i]) && (forall|k: int|
                0 <= k < i ==> text::is_space(#[trigger] raw[k])) ==> raw[i] == ';'),
        skk::line_of(raw) is Blank <==> text::trimmed(raw).len() == 0 || text::trimmed(raw)[0]
            == ';',
{
    let (from, to) = text_laws::lemma_trimmed(raw);
    if from < to {
        assert(text::trimmed(raw)[0] == raw[from]);
        assert forall|i: int|
            0 <= i < raw.len() && !text::is_space(#[trigger] raw[i]) && (forall|k: int|
                0 <= k < i ==> text::is_space(#[trigger] raw[k])) implies i == from by {
            if i > from {
                assert(text::is_space(raw[from]));
            }
        }
        if skk::line_of(raw) is Blank {
        } else {
            assert(!text::is_space(raw[from]));
        }
    } else {
        assert forall|i: int| 0 <= i < raw.len() implies text::is_space(#[trigger] raw[i]) by {}
    }
}

/// A line that is neither blank nor a comment needs a space between the reading and
/// the candidates.
pub proof fn lemma_missing_space(raw: Seq<char>)
    requires
        !(skk::line_of(raw) is Blank),
    ensures
        (forall|i: int| 0 <= i < text::trimmed(raw).len() ==> #[trigger] text::trimmed(raw)[i] != ' ')
            ==> skk::line_of(raw) == (LineView::Malformed {
            detail: "missing space separator between reading and candidates"@,
        }),
{
    text::lemma_first_of(text::trimmed(raw), ' ');
}

/// What follows the first space of such a line, without white space around it, is the
/// candidate list. It must start with `/` and end with `/`, and something other than
/// slashes and white space must stand in it; then the line is an entry of the text
/// before the space, whose candidates are what stands between the slashes, without
/// white space around it and without what is blank, in order.
pub proof fn lemma_entry_line(raw: Seq<char>, reading: Seq<char>, rest: Seq<char>)
    requires
        !(skk::line_of(raw) is Blank),
        text::trimmed(raw) == reading + seq![' '] + rest,
        forall|i: int| 0 <= i < reading.len() ==> #[trigger] reading[i] != ' ',
    ensures
        ({
            let list = text::trimmed(rest);
            let parts = text::pieces(list.drop_first(), '/').map_values(
                |part: Seq<char>| text::trimmed(part),
            );
            let candidates = parts.filter(|part: Seq<char>| part.len() > 0);
            skk::line_of(raw) == if list.len() == 0 || list[0] != '/' {
                LineView::Malformed { detail: "candidate list must start with '/'"@ }
            } else if list.last() != '/' {
                LineView::Malformed { detail: "candidate list must end with '/'"@ }
            } else if candidates.len() == 0 {
                LineView::Malformed { detail: "no candidates found in candidate list"@ }
            } else {
                LineView::Entry { reading, candidates }
            }
        }),
{
    let line = text::trimmed(raw);
    let n = reading.len() as int;
    assert forall|i: int| 0 <= i < n implies line[i] != ' ' by {
        assert(line[i] == reading[i]);
    }
    assert(line[n] == ' ');
    text::lemma_first_of_is(line, ' ', n);
    assert(line.skip(n + 1) =~= rest);
    assert(line.take(n) =~= reading);
    let list = text::trimmed(rest);
    if list.len() > 0 {
        lemma_filled(text::pieces(list.drop_first(), '/'));
    }
}

proof fn lemma_filled(parts: Seq<Seq<char>>)
    ensures
        skk::filled(parts) == parts.map_values(|part: Seq<char>| text::trimmed(part)).filter(
            |part: Seq<char>| part.len() > 0,
        ),
    decreases parts.len(),
{
    reveal(Seq::filter);
    let all = parts.map_values(|part: Seq<char>| text::trimmed(part));
    if parts.len() > 0 {
        let before = parts.drop_last();
        lemma_filled(before);
        assert(all.drop_last() =~= before.map_values(|part: Seq<char>| text::trimmed(part)));
        assert(all.last() == text::trimmed(parts.last()));
    } else {
        assert(all =~= Seq::<Seq<char>>::empty());
    }
}

// ---------------------------------------------------------------------------
// Scores
// ---------------------------------------------------------------------------

/// A candidate without an annotation is its surface as it stands. Its score is ten for
/// itself and for each candidate that is listed after it.
pub proof fn lemma_plain_candidate(candidates: Seq<Seq<char>>, i: int)
    requires
        0 <= i < candidates.len(),
        forall|k: int| 0 <= k < candidates[i].len() ==> #[trigger] candidates[i][k] != ';',
    ensures
        skk::entries_of(candidates).len() == candidates.len(),
        skk::entries_of(candidates)[i] == (DictEntryView {
            surface: candidates[i],
            score: (candidates.len() - i) * 10,
            frequency: None,
        }),
{
    let raw = candidates[i];
    text::lemma_first_of(raw, ';');
    assert(raw.take(raw.len() as int) =~= raw);
}

/// An annotation `freq=N` is kept and raises the score by three for each doubling that
/// leads from one to `N` or stays below it; zero raises nothing. The surface is what
/// stands before the first `;`.
pub proof fn lemma_frequency(
    candidates: Seq<Seq<char>>,
    i: int,
    surface: Seq<char>,
    digits: Seq<char>,
    n: u32,
    k: nat,
)
    requires
        0 <= i < candidates.len(),
        candidates[i] == surface + seq![';'] + (seq!['f', 'r', 'e', 'q', '='] + digits),
        forall|j: int| 0 <= j < surface.len() ==> #[trigger] surface[j] != ';',
        number::parsed(digits, u32::MAX as int) == Some(n as int),
        n == 0 && k == 0 || power2::pow2(k) <= n < power2::pow2(k + 1),
    ensures
        skk::entries_of(candidates)[i] == (DictEntryView {
            surface,
            score: (candidates.len() - i) * 10 + 3 * k,
            frequency: Some(n),
        }),
{
    let mark = seq!['f', 'r', 'e', 'q', '='];
    lemma_annotation(candidates, i, surface, mark + digits);
    assert(mark.len() == 5);
    assert((mark + digits).subrange(0, 5) =~= mark);
    assert(skk::frequency_mark().is_prefix_of(mark + digits));
    assert((mark + digits).skip(5) =~= digits);
    assert(skk::annotated_frequency(mark + digits) == Some(n));
    power2::lemma_pow2_pos(k);
    if n == 0 {
        text_laws::lemma_log2_of_zero();
    } else {
        lemma_log2_is(n as int, k);
    }
}

/// Any other annotation counts for nothing: one that does not start with `freq=`, or
/// goes on with no number of 32 bits.
pub proof fn lemma_other_annotation(
    candidates: Seq<Seq<char>>,
    i: int,
    surface: Seq<char>,
    annotation: Seq<char>,
)
    requires
        0 <= i < candidates.len(),
        candidates[i] == surface + seq![';'] + annotation,
        forall|j: int| 0 <= j < surface.len() ==> #[trigger] surface[j] != ';',
        annotation.len() < 5 || annotation.take(5) != seq!['f', 'r', 'e', 'q', '=']
            || number::parsed(annotation.skip(5), u32::MAX as int) is None,
    ensures
        skk::entries_of(candidates)[i] == (DictEntryView {
            surface,
            score: (candidates.len() - i) * 10,
            frequency: None,
        }),
{
    let mark = seq!['f', 'r', 'e', 'q', '='];
    lemma_annotation(candidates, i, surface, annotation);
    assert(mark.len() == 5);
    if mark.is_prefix_of(annotation) {
        assert(annotation.take(5) =~= annotation.subrange(0, 5));
    }
}

proof fn lemma_annotation(
    candidates: Seq<Seq<char>>,
    i: int,
    surface: Seq<char>,
    annotation: Seq<char>,
)
    requires
        0 <= i < candidates.len(),
        candidates[i] == surface + seq![';'] + annotation,
        forall|j: int| 0 <= j < surface.len() ==> #[trigger] surface[j] != ';',
    ensures
        ({
            let frequency = skk::annotated_frequency(annotation);
            skk::entries_of(candidates)[i] == (DictEntryView {
                surface,
                score: (candidates.len() - i) * 10 + skk::frequency_bonus(frequency),
                frequency,
            })
        }),
{
    let raw = candidates[i];
    let n = surface.len() as int;
    assert forall|k: int| 0 <= k < n implies raw[k] != ';' by {
        assert(raw[k] == surface[k]);
    }
    assert(raw[n] == ';');
    text::lemma_first_of_is(raw, ';', n);
    assert(raw.take(n) =~= surface);
    assert(raw.skip(n + 1) =~= annotation);
}

/// The logarithm is where a number stands between powers of two.
proof fn lemma_log2_is(n: int, k: nat)
    requires
        power2::pow2(k) <= n < power2::pow2(k + 1),
    ensures
        number::floor_log2(n) == k,
{
    power2::lemma_pow2_pos(k);
    number::lemma_floor_log2(n);
    let m = number::floor_log2(n) as nat;
    if m < k {
        lemma_pow2_grows(m + 1, k);
    } else if m > k {
        lemma_pow2_grows(k + 1, m);
    }
}

proof fn lemma_pow2_grows(a: nat, b: nat)
    requires
        a <= b,
    ensures
        power2::pow2(a) <= power2::pow2(b),
    decreases b - a,
{
    if a < b {
        lemma_pow2_grows(a, (b - 1) as nat);
        power2::lemma_pow2_unfold(b);
        power2::lemma_pow2_pos((b - 1) as nat);
    }
}

} // verus!
