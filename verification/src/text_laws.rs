//! What holds of lines, fields, white space, numbers, kana and the order of texts.

use crate::kana;
use crate::number;
use crate::order;
use crate::text;
use vstd::prelude::*;

verus! {

// ---------------------------------------------------------------------------
// Lines and white space
// ---------------------------------------------------------------------------

/// A text without a newline is one line as it stands, and the empty text has none.
pub proof fn lemma_last_line(s: Seq<char>)
    requires
        forall|i: int| 0 <= i < s.len() ==> #[trigger] s[i] != '\n',
    ensures
        text::lines_of(s) == if s.len() == 0 {
            Seq::<Seq<char>>::empty()
        } else {
            seq![s]
        },
{
    text::lemma_first_of(s, '\n');
}

/// A line ends at the first newline; a carriage return before it belongs to the end.
pub proof fn lemma_first_line(line: Seq<char>, rest: Seq<char>)
    requires
        forall|i: int| 0 <= i < line.len() ==> #[trigger] line[i] != '\n',
    ensures
        text::lines_of(line + seq!['\r', '\n'] + rest) == seq![line] + text::lines_of(rest),
        line.len() == 0 || line.last() != '\r' ==> text::lines_of(line + seq!['\n'] + rest)
            == seq![line] + text::lines_of(rest),
{
    let ended = line.push('\r');
    let all = line + seq!['\r', '\n'] + rest;
    let n = ended.len() as int;
    assert forall|i: int| 0 <= i < n implies all[i] != '\n' by {
        if i < line.len() {
            assert(all[i] == line[i]);
        }
    }
    assert(all[n] == '\n');
    text::lemma_first_of_is(all, '\n', n);
    assert(all.take(n) =~= ended);
    assert(ended.drop_last() =~= line);
    assert(all.skip(n + 1) =~= rest);
    if line.len() == 0 || line.last() != '\r' {
        text::lemma_lines_join(line, rest);
    }
}

/// The white space characters are those of Unicode, by their code points.
pub proof fn lemma_white_space(c: char)
    ensures
        text::is_space(c) <==> {
            let n = c as int;
            ||| 0x9 <= n <= 0xd
            ||| n == 0x20
            ||| n == 0x85
            ||| n == 0xa0
            ||| n == 0x1680
            ||| 0x2000 <= n <= 0x200a
            ||| n == 0x2028
            ||| n == 0x2029
            ||| n == 0x202f
            ||| n == 0x205f
            ||| n == 0x3000
        },
{
}

/// Trimming takes away white space and nothing else, and all of it: what is left is
/// the text between two places, around which there is only white space, and which
/// neither starts nor ends with any.
pub proof fn lemma_trimmed(s: Seq<char>) -> (place: (int, int))
    ensures
        0 <= place.0 <= place.1 <= s.len(),
        text::trimmed(s) == s.subrange(place.0, place.1),
        forall|k: int| 0 <= k < place.0 ==> text::is_space(#[trigger] s[k]),
        forall|k: int| place.1 <= k < s.len() ==> text::is_space(#[trigger] s[k]),
        place.0 < place.1 ==> !text::is_space(s[place.0]) && !text::is_space(s[place.1 - 1]),
{
    let i = lemma_trimmed_start(s);
    let j = lemma_trimmed_end(s.skip(i));
    assert(s.skip(i).take(j) =~= s.subrange(i, i + j));
    if j > 0 {
        assert(s.skip(i)[j - 1] == s[i + j - 1]);
        assert(s.skip(i)[0] == s[i]);
    }
    assert forall|k: int| i + j <= k < s.len() implies text::is_space(#[trigger] s[k]) by {
        assert(s[k] == s.skip(i)[k - i]);
    }
    (i, i + j)
}

proof fn lemma_trimmed_start(s: Seq<char>) -> (i: int)
    ensures
        0 <= i <= s.len(),
        text::trimmed_start(s) == s.skip(i),
        forall|k: int| 0 <= k < i ==> text::is_space(#[trigger] s[k]),
        i < s.len() ==> !text::is_space(s[i]),
    decreases s.len(),
{
    if s.len() > 0 && text::is_space(s[0]) {
        let rest = s.drop_first();
        let i = lemma_trimmed_start(rest);
        assert(rest.skip(i) =~= s.skip(i + 1));
        assert forall|k: int| 0 <= k < i + 1 implies text::is_space(#[trigger] s[k]) by {
            if k > 0 {
                assert(s[k] == rest[k - 1]);
            }
        }
        if i < rest.len() {
            assert(rest[i] == s[i + 1]);
        }
        i + 1
    } else {
        assert(s.skip(0) =~= s);
        0
    }
}

proof fn lemma_trimmed_end(s: Seq<char>) -> (j: int)
    ensures
        0 <= j <= s.len(),
        text::trimmed_end(s) == s.take(j),
        forall|k: int| j <= k < s.len() ==> text::is_space(#[trigger] s[k]),
        j > 0 ==> !text::is_space(s[j - 1]),
    decreases s.len(),
{
    if s.len() > 0 && text::is_space(s.last()) {
        let rest = s.drop_last();
        let j = lemma_trimmed_end(rest);
        assert(rest.take(j) =~= s.take(j));
        assert forall|k: int| j <= k < s.len() implies text::is_space(#[trigger] s[k]) by {
            if k < rest.len() {
                assert(s[k] == rest[k]);
            }
        }
        if j > 0 {
            assert(rest[j - 1] == s[j - 1]);
        }
        j
    } else {
        assert(s.take(s.len() as int) =~= s);
        s.len() as int
    }
}

/// A text that neither starts nor ends with white space is what trimming leaves of
/// it with white space around.
pub proof fn lemma_trimmed_around(before: Seq<char>, s: Seq<char>, after: Seq<char>)
    requires
        s.len() > 0,
        !text::is_space(s[0]),
        !text::is_space(s.last()),
        forall|k: int| 0 <= k < before.len() ==> text::is_space(#[trigger] before[k]),
        forall|k: int| 0 <= k < after.len() ==> text::is_space(#[trigger] after[k]),
    ensures
        text::trimmed(before + s + after) == s,
{
    let all = before + s + after;
    let (i, j) = lemma_trimmed(all);
    let from = before.len() as int;
    let to = from + s.len();
    assert(all[from] == s[0]);
    assert(all[to - 1] == s.last());
    if i > from {
        assert(text::is_space(all[from]));
    }
    if j < to {
        assert(text::is_space(all[to - 1]));
    }
    if i < from {
        assert(all[i] == before[i]);
    }
    if j > to {
        assert(all[j - 1] == after[j - 1 - to]);
    }
    assert(all.subrange(from, to) =~= s);
}

// ---------------------------------------------------------------------------
// Numbers
// ---------------------------------------------------------------------------

/// Whether `s` is a digit or more, and nothing else.
pub open spec fn all_digits(s: Seq<char>) -> bool {
    &&& s.len() > 0
    &&& forall|i: int| 0 <= i < s.len() ==> '0' <= #[trigger] s[i] <= '9'
}

proof fn lemma_digits(s: Seq<char>)
    requires
        all_digits(s),
    ensures
        0 <= number::digits_value(s),
        number::unsigned_part(s) == s,
    decreases s.len(),
{
    assert('0' <= s[0] <= '9');
    assert('0' <= s[s.len() - 1] <= '9');
    let rest = s.drop_last();
    if rest.len() > 0 {
        assert forall|i: int| 0 <= i < rest.len() implies '0' <= #[trigger] rest[i] <= '9' by {
            assert(rest[i] == s[i]);
        }
        lemma_digits(rest);
    } else {
        assert(number::digits_value(rest) == 0);
    }
}

/// Reading a number goes digit by digit: a digit behind others, or behind none, adds
/// its value to ten times theirs. Numbers above `max` are refused.
pub proof fn lemma_parsed_digit(s: Seq<char>, n: int, c: char, max: int)
    requires
        s.len() == 0 && n == 0 || all_digits(s) && number::parsed(s, n) == Some(n),
        '0' <= c <= '9',
    ensures
        ({
            let value = n * 10 + (c as int - '0' as int);
            number::parsed(s.push(c), max) == if value <= max {
                Some(value)
            } else {
                None
            }
        }),
{
    let longer = s.push(c);
    assert(longer.drop_last() =~= s);
    assert forall|i: int| 0 <= i < longer.len() implies '0' <= #[trigger] longer[i] <= '9' by {
        if i < s.len() {
            assert(longer[i] == s[i]);
        }
    }
    lemma_digits(longer);
    assert forall|i: int| 0 <= i < longer.len() implies number::is_digit(#[trigger] longer[i]) by {
        assert('0' <= longer[i] <= '9');
    }
    if s.len() > 0 {
        lemma_digits(s);
    } else {
        assert(number::digits_value(s) == 0);
    }
}

/// One plus sign before a number changes nothing; any other text is no number.
pub proof fn lemma_parsed_refuses(s: Seq<char>, max: int)
    ensures
        all_digits(s) ==> number::parsed(seq!['+'] + s, max) == number::parsed(s, max),
        !all_digits(s) && !(s.len() > 0 && s[0] == '+' && all_digits(s.drop_first()))
            ==> number::parsed(s, max) is None,
{
    if all_digits(s) {
        lemma_digits(s);
        assert((seq!['+'] + s).drop_first() =~= s);
        assert((seq!['+'] + s)[0] == '+');
    } else {
        let digits = number::unsigned_part(s);
        if number::parsed(s, max) is Some {
            assert forall|i: int| 0 <= i < digits.len() implies '0' <= #[trigger] digits[i]
                <= '9' by {
                assert(number::is_digit(digits[i]));
            }
            assert(all_digits(digits));
        }
    }
}

/// A number is written with digits only, reads back, and has no zero in front unless
/// it is zero.
pub proof fn lemma_decimal(n: int)
    requires
        0 <= n,
    ensures
        all_digits(number::decimal(n)),
        number::parsed(number::decimal(n), n) == Some(n),
        n > 0 ==> number::decimal(n)[0] != '0',
        n == 0 ==> number::decimal(n) == seq!['0'],
    decreases n,
{
    number::lemma_decimal_reads_back(n);
    number::lemma_parsed_decimal(n, n);
    let d = number::decimal(n);
    assert forall|i: int| 0 <= i < d.len() implies '0' <= #[trigger] d[i] <= '9' by {
        assert(number::is_digit(d[i]));
    }
    if n >= 10 {
        lemma_decimal(n / 10);
        assert(d[0] == number::decimal(n / 10)[0]);
    }
}

/// The logarithm of zero counts as zero.
pub proof fn lemma_log2_of_zero()
    ensures
        number::floor_log2(0) == 0,
{
}

// ---------------------------------------------------------------------------
// Order
// ---------------------------------------------------------------------------

/// Texts are ordered by the first place where they differ: there the earlier one has
/// the smaller code point, or has ended.
pub proof fn lemma_text_before(a: Seq<char>, b: Seq<char>, k: int)
    requires
        0 <= k <= a.len(),
        k <= b.len(),
        forall|i: int| 0 <= i < k ==> #[trigger] a[i] == b[i],
        k < a.len() && k < b.len() ==> a[k] != b[k],
    ensures
        order::text_before(a, b) <==> if k < a.len() && k < b.len() {
            (a[k] as int) < b[k] as int
        } else {
            a.len() < b.len()
        },
    decreases k,
{
    if k > 0 {
        let x = a.drop_first();
        let y = b.drop_first();
        assert(a[0] == b[0]);
        assert forall|i: int| 0 <= i < k - 1 implies #[trigger] x[i] == y[i] by {
            assert(a[i + 1] == b[i + 1]);
        }
        lemma_text_before(x, y, k - 1);
    }
}

// ---------------------------------------------------------------------------
// Kana
// ---------------------------------------------------------------------------

/// Katakana stand 0x60 code points behind the hiragana of the same sound, from small
/// a to small ke and for the two iteration marks; nothing else is changed.
pub proof fn lemma_katakana(s: Seq<char>, i: int)
    requires
        0 <= i < s.len(),
    ensures
        kana::katakana(s).len() == s.len(),
        ({
            let n = s[i] as int;
            kana::katakana(s)[i] as int == if 0x3041 <= n <= 0x3096 || n == 0x309d || n == 0x309e {
                n + 0x60
            } else {
                n
            }
        }),
{
}

// ---------------------------------------------------------------------------
// Lists of texts
// ---------------------------------------------------------------------------

/// What a list of strings, of pairs of strings or of characters holds is what each of
/// them holds, in order.
pub proof fn lemma_list_views(
    strings: Seq<String>,
    pairs: Seq<(String, String)>,
    vectors: Seq<Vec<char>>,
)
    ensures
        text::string_views(strings).len() == strings.len(),
        forall|i: int|
            0 <= i < strings.len() ==> #[trigger] text::string_views(strings)[i] == strings[i]@,
        text::pair_views(pairs).len() == pairs.len(),
        forall|i: int|
            0 <= i < pairs.len() ==> #[trigger] text::pair_views(pairs)[i] == (
                pairs[i].0@,
                pairs[i].1@,
            ),
        text::views(vectors).len() == vectors.len(),
        forall|i: int| 0 <= i < vectors.len() ==> #[trigger] text::views(vectors)[i] == vectors[i]@,
{
}

/// Joined lines are the lines one after the other, each with a newline at its end.
pub proof fn lemma_joined_lines(lines: Seq<Seq<char>>)
    ensures
        text::joined(lines) == lines.map_values(|line: Seq<char>| line.push('\n')).flatten(),
    decreases lines.len(),
{
    let all = lines.map_values(|line: Seq<char>| line.push('\n'));
    if lines.len() > 0 {
        let rest = lines.drop_first();
        lemma_joined_lines(rest);
        assert(all.drop_first() =~= rest.map_values(|line: Seq<char>| line.push('\n')));
        assert(lines[0] + seq!['\n'] =~= all.first());
    } else {
        assert(all =~= Seq::<Seq<char>>::empty());
    }
}

/// Sorted texts are the same texts, none of which comes before an earlier one.
pub proof fn lemma_sorted_texts(list: Seq<Seq<char>>)
    ensures
        order::arranged(list, order::text_order()).len() == list.len(),
        order::arranged(list, order::text_order()).to_multiset() == list.to_multiset(),
        forall|i: int, j: int|
            0 <= i < j < list.len() ==> !order::text_before(
                #[trigger] order::arranged(list, order::text_order())[j],
                #[trigger] order::arranged(list, order::text_order())[i],
            ),
{
    let before = order::text_order();
    order::lemma_text_order_strict();
    order::lemma_arranged_keeps(list, before);
    order::lemma_arranged_in_order(list, before);
    let sorted = order::arranged(list, before);
    assert forall|i: int, j: int| 0 <= i < j < list.len() implies !order::text_before(
        #[trigger] sorted[j],
        #[trigger] sorted[i],
    ) by {
        assert(!before(sorted[j], sorted[i]));
    }
}

} // verus!
