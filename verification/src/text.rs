//! Character-level text operations shared by the other modules.
//!
//! Text is modelled as `Seq<char>`, the sequence of its Unicode scalar values.

use vstd::prelude::*;
use vstd::string::StringExecFns;

verus! {

/// `String::push` appends one character to the end of the string.
pub assume_specification[ String::push ](s: &mut String, c: char)
    ensures
        final(s)@ == old(s)@.push(c),
;

/// Whether `n` is the code point of a character: it is neither a surrogate nor
/// above the last code point.
pub open spec fn is_code_point(n: u32) -> bool {
    n < 0xD800 || 0xE000 <= n <= 0x10FFFF
}

/// `char::from_u32` gives the character of a code point, and nothing for a
/// surrogate or a number above the last code point.
pub assume_specification[ char::from_u32 ](i: u32) -> (c: Option<char>)
    ensures
        match c {
            Some(ch) => is_code_point(i) && ch as int == i,
            None => !is_code_point(i),
        },
;

/// What a list of strings holds.
pub open spec fn string_views(list: Seq<String>) -> Seq<Seq<char>> {
    list.map_values(|s: String| s@)
}

/// What a list of pairs holds.
pub open spec fn pair_views(list: Seq<(String, String)>) -> Seq<(Seq<char>, Seq<char>)> {
    list.map_values(|p: (String, String)| (p.0@, p.1@))
}

/// The characters of `s`, in order.
pub fn chars_of(s: &str) -> (chars: Vec<char>)
    ensures
        chars@ == s@,
{
    let mut chars: Vec<char> = Vec::new();
    for c in it: s.chars()
        invariant
            it.seq() == s@,
            chars@ == s@.take(it.index() as int),
    {
        chars.push(c);
        assert(s@.take(it.index() as int).push(c) =~= s@.take(it.index() + 1));
    }
    assert(s@.take(s@.len() as int) =~= s@);
    chars
}

/// The string made of the characters of `chars`, in order.
pub fn string_of(chars: &[char]) -> (s: String)
    ensures
        s@ == chars@,
{
    let mut s = String::new();
    for i in 0..chars.len()
        invariant
            s@ == chars@.take(i as int),
    {
        s.push(chars[i]);
        assert(chars@.take(i as int).push(chars@[i as int]) =~= chars@.take(i + 1));
    }
    assert(chars@.take(chars@.len() as int) =~= chars@);
    s
}

/// A copy of `chars`.
pub fn copy_of(chars: &[char]) -> (copy: Vec<char>)
    ensures
        copy@ == chars@,
{
    let mut copy: Vec<char> = Vec::new();
    for i in 0..chars.len()
        invariant
            copy@ == chars@.take(i as int),
    {
        copy.push(chars[i]);
        assert(chars@.take(i as int).push(chars@[i as int]) =~= chars@.take(i + 1));
    }
    assert(chars@.take(chars@.len() as int) =~= chars@);
    copy
}

/// Whether two character sequences are equal.
pub fn same_chars(a: &[char], b: &[char]) -> (same: bool)
    ensures
        same == (a@ == b@),
{
    if a.len() != b.len() {
        return false;
    }
    for i in 0..a.len()
        invariant
            a@.len() == b@.len(),
            forall|k: int| 0 <= k < i ==> a@[k] == b@[k],
    {
        if a[i] != b[i] {
            return false;
        }
    }
    assert(a@ =~= b@);
    true
}

/// Whether two strings hold the same text.
pub fn same_text(a: &str, b: &str) -> (same: bool)
    ensures
        same == (a@ == b@),
{
    let x = chars_of(a);
    let y = chars_of(b);
    same_chars(x.as_slice(), y.as_slice())
}

// ---------------------------------------------------------------------------
// Searching and splitting
// ---------------------------------------------------------------------------

/// The position of the first `c` in `s`, or `s.len()` when there is none.
pub open spec fn first_of(s: Seq<char>, c: char) -> int
    decreases s.len(),
{
    if s.len() == 0 || s[0] == c {
        0
    } else {
        1 + first_of(s.drop_first(), c)
    }
}

/// `first_of` is a position in `s` or its end, no earlier character is `c`, and
/// a position before the end holds `c`.
pub proof fn lemma_first_of(s: Seq<char>, c: char)
    ensures
        0 <= first_of(s, c) <= s.len(),
        forall|i: int| 0 <= i < first_of(s, c) ==> s[i] != c,
        first_of(s, c) < s.len() ==> s[first_of(s, c)] == c,
    decreases s.len(),
{
    if s.len() > 0 && s[0] != c {
        let rest = s.drop_first();
        lemma_first_of(rest, c);
        assert forall|i: int| 0 <= i < first_of(s, c) implies s[i] != c by {
            if i > 0 {
                assert(s[i] == rest[i - 1]);
            }
        }
    }
}

/// A position with no earlier `c` that is the end or holds `c` is `first_of`.
pub proof fn lemma_first_of_is(s: Seq<char>, c: char, n: int)
    requires
        0 <= n <= s.len(),
        forall|i: int| 0 <= i < n ==> s[i] != c,
        n < s.len() ==> s[n] == c,
    ensures
        first_of(s, c) == n,
{
    lemma_first_of(s, c);
    let m = first_of(s, c);
    if m < n {
        assert(s[m] == c);
    } else if n < m {
        assert(s[n] == c);
    }
}

/// Finds the first `c` in `s`.
pub fn find(s: &[char], c: char) -> (n: usize)
    ensures
        n == first_of(s@, c),
        n <= s@.len(),
{
    let mut n: usize = 0;
    while n < s.len() && s[n] != c
        invariant
            n <= s@.len(),
            forall|i: int| 0 <= i < n ==> s@[i] != c,
        decreases s@.len() - n,
    {
        n = n + 1;
    }
    proof {
        lemma_first_of_is(s@, c, n as int);
    }
    n
}

/// The pieces of `s` between occurrences of `sep`; one piece when there is none.
pub open spec fn pieces(s: Seq<char>, sep: char) -> Seq<Seq<char>>
    decreases s.len(),
    via pieces_decreases
{
    let n = first_of(s, sep);
    if n < s.len() {
        seq![s.take(n)] + pieces(s.skip(n + 1), sep)
    } else {
        seq![s]
    }
}

#[via_fn]
proof fn pieces_decreases(s: Seq<char>, sep: char) {
    lemma_first_of(s, sep);
}

/// A text without `sep` is one piece.
pub proof fn lemma_pieces_single(s: Seq<char>, sep: char)
    requires
        forall|i: int| 0 <= i < s.len() ==> #[trigger] s[i] != sep,
    ensures
        pieces(s, sep) == seq![s],
{
    lemma_first_of(s, sep);
}

/// The first piece ends at the first `sep`.
pub proof fn lemma_pieces_join(s: Seq<char>, rest: Seq<char>, sep: char)
    requires
        forall|i: int| 0 <= i < s.len() ==> #[trigger] s[i] != sep,
    ensures
        pieces(s + seq![sep] + rest, sep) == seq![s] + pieces(rest, sep),
{
    let all = s + seq![sep] + rest;
    let n = s.len() as int;
    assert forall|i: int| 0 <= i < n implies all[i] != sep by {
        assert(all[i] == s[i]);
    }
    assert(all[n] == sep);
    lemma_first_of_is(all, sep, n);
    assert(all.take(n) =~= s);
    assert(all.skip(n + 1) =~= rest);
}

/// Views of a list of character vectors.
pub open spec fn views(list: Seq<Vec<char>>) -> Seq<Seq<char>> {
    list.map_values(|v: Vec<char>| v@)
}

/// Splits `s` at every `sep`.
pub fn split(s: &[char], sep: char) -> (parts: Vec<Vec<char>>)
    ensures
        views(parts@) == pieces(s@, sep),
{
    let mut parts: Vec<Vec<char>> = Vec::new();
    let mut from: usize = 0;
    assert(s@.skip(0) =~= s@);
    assert(views(parts@) + pieces(s@, sep) =~= pieces(s@, sep));
    loop
        invariant_except_break
            from <= s@.len(),
            pieces(s@, sep) == views(parts@) + pieces(s@.skip(from as int), sep),
        ensures
            views(parts@) == pieces(s@, sep),
        decreases s@.len() - from,
    {
        let rest = &s[from..s.len()];
        let ghost tail = s@.skip(from as int);
        assert(rest@ =~= tail);
        let n = find(rest, sep);
        let ghost before = parts@;
        let part = copy_of(&rest[0..n]);
        assert(part@ =~= tail.take(n as int));
        parts.push(part);
        assert(views(parts@) =~= views(before).push(part@));
        if n == rest.len() {
            assert(part@ =~= tail);
            assert(views(parts@) =~= views(before) + seq![tail]);
            break;
        }
        from = from + n + 1;
        assert(s@.skip(from as int) =~= tail.skip(n + 1));
        assert(views(before) + (seq![part@] + pieces(tail.skip(n + 1), sep)) =~= views(parts@)
            + pieces(tail.skip(n + 1), sep));
    }
    parts
}

/// `line` without one carriage return at its end.
pub open spec fn without_cr(line: Seq<char>) -> Seq<char> {
    if line.len() > 0 && line.last() == '\r' {
        line.drop_last()
    } else {
        line
    }
}

/// The lines of `s`. A line ends at a newline or at a carriage return followed
/// by a newline; the last line need not end so, and is then taken as it stands.
pub open spec fn lines_of(s: Seq<char>) -> Seq<Seq<char>>
    decreases s.len(),
    via lines_of_decreases
{
    let n = first_of(s, '\n');
    if n < s.len() {
        seq![without_cr(s.take(n))] + lines_of(s.skip(n + 1))
    } else if s.len() > 0 {
        seq![s]
    } else {
        Seq::empty()
    }
}

#[via_fn]
proof fn lines_of_decreases(s: Seq<char>) {
    lemma_first_of(s, '\n');
}

/// The first line ends at the first newline.
pub proof fn lemma_lines_join(line: Seq<char>, rest: Seq<char>)
    requires
        forall|i: int| 0 <= i < line.len() ==> #[trigger] line[i] != '\n',
        line.len() > 0 ==> line.last() != '\r',
    ensures
        lines_of(line + seq!['\n'] + rest) == seq![line] + lines_of(rest),
{
    let all = line + seq!['\n'] + rest;
    let n = line.len() as int;
    assert forall|i: int| 0 <= i < n implies all[i] != '\n' by {
        assert(all[i] == line[i]);
    }
    assert(all[n] == '\n');
    lemma_first_of_is(all, '\n', n);
    assert(all.take(n) =~= line);
    assert(all.skip(n + 1) =~= rest);
}

/// The number of characters in all parts together.
pub open spec fn total_len(parts: Seq<Seq<char>>) -> nat
    decreases parts.len(),
{
    if parts.len() == 0 {
        0
    } else {
        parts[0].len() + total_len(parts.drop_first())
    }
}

/// No part is longer than all parts together.
pub proof fn lemma_total_len(parts: Seq<Seq<char>>, i: int)
    requires
        0 <= i < parts.len(),
    ensures
        parts[i].len() <= total_len(parts),
    decreases parts.len(),
{
    if i > 0 {
        lemma_total_len(parts.drop_first(), i - 1);
    }
}

/// The lines of `s` hold no more characters than `s`.
pub proof fn lemma_lines_total(s: Seq<char>)
    ensures
        total_len(lines_of(s)) <= s.len(),
    decreases s.len(),
{
    lemma_first_of(s, '\n');
    let n = first_of(s, '\n');
    let lines = lines_of(s);
    if n < s.len() {
        lemma_lines_total(s.skip(n + 1));
        assert(lines[0] == without_cr(s.take(n)));
        assert(lines.drop_first() =~= lines_of(s.skip(n + 1)));
    } else if s.len() > 0 {
        assert(lines[0] == s);
        assert(lines.drop_first() =~= Seq::<Seq<char>>::empty());
        assert(total_len(Seq::<Seq<char>>::empty()) == 0);
    }
}

/// A text has at most one more piece than characters.
pub proof fn lemma_pieces_count(s: Seq<char>, sep: char)
    ensures
        1 <= pieces(s, sep).len() <= s.len() + 1,
    decreases s.len(),
{
    lemma_first_of(s, sep);
    let n = first_of(s, sep);
    if n < s.len() {
        lemma_pieces_count(s.skip(n + 1), sep);
    }
}

/// Splits `s` into lines.
pub fn split_lines(s: &[char]) -> (lines: Vec<Vec<char>>)
    ensures
        views(lines@) == lines_of(s@),
{
    let mut lines: Vec<Vec<char>> = Vec::new();
    let mut from: usize = 0;
    assert(s@.skip(0) =~= s@);
    assert(views(lines@) + lines_of(s@) =~= lines_of(s@));
    while from < s.len()
        invariant
            from <= s@.len(),
            lines_of(s@) == views(lines@) + lines_of(s@.skip(from as int)),
        decreases s@.len() - from,
    {
        let rest = &s[from..s.len()];
        let ghost tail = s@.skip(from as int);
        assert(rest@ =~= tail);
        let n = find(rest, '\n');
        let ghost before = lines@;
        if n == rest.len() {
            let line = copy_of(rest);
            lines.push(line);
            assert(views(lines@) =~= views(before).push(tail));
            from = s.len();
            assert(s@.skip(from as int) =~= Seq::<char>::empty());
            assert(views(before) + seq![tail] =~= views(lines@) + Seq::<Seq<char>>::empty());
        } else {
            let end: usize = if n > 0 && rest[n - 1] == '\r' {
                n - 1
            } else {
                n
            };
            let line = copy_of(&rest[0..end]);
            assert(line@ =~= without_cr(tail.take(n as int)));
            lines.push(line);
            assert(views(lines@) =~= views(before).push(line@));
            from = from + n + 1;
            assert(s@.skip(from as int) =~= tail.skip(n + 1));
            assert(views(before) + (seq![line@] + lines_of(tail.skip(n + 1))) =~= views(lines@)
                + lines_of(tail.skip(n + 1)));
        }
    }
    assert(s@.skip(from as int) =~= Seq::<char>::empty());
    assert(views(lines@) + Seq::<Seq<char>>::empty() =~= views(lines@));
    lines
}

// ---------------------------------------------------------------------------
// White space
// ---------------------------------------------------------------------------

/// Whether `c` has the Unicode property `White_Space`.
pub open spec fn is_space(c: char) -> bool {
    ||| '\u{9}' <= c <= '\u{d}'
    ||| c == '\u{20}'
    ||| c == '\u{85}'
    ||| c == '\u{a0}'
    ||| c == '\u{1680}'
    ||| '\u{2000}' <= c <= '\u{200a}'
    ||| c == '\u{2028}'
    ||| c == '\u{2029}'
    ||| c == '\u{202f}'
    ||| c == '\u{205f}'
    ||| c == '\u{3000}'
}

/// Whether `c` is white space.
pub fn space(c: char) -> (yes: bool)
    ensures
        yes == is_space(c),
{
    ('\u{9}' <= c && c <= '\u{d}') || c == '\u{20}' || c == '\u{85}' || c == '\u{a0}' || c
        == '\u{1680}' || ('\u{2000}' <= c && c <= '\u{200a}') || c == '\u{2028}' || c == '\u{2029}'
        || c == '\u{202f}' || c == '\u{205f}' || c == '\u{3000}'
}

/// `s` without the white space at its start.
pub open spec fn trimmed_start(s: Seq<char>) -> Seq<char>
    decreases s.len(),
{
    if s.len() > 0 && is_space(s[0]) {
        trimmed_start(s.drop_first())
    } else {
        s
    }
}

/// `s` without the white space at its end.
pub open spec fn trimmed_end(s: Seq<char>) -> Seq<char>
    decreases s.len(),
{
    if s.len() > 0 && is_space(s.last()) {
        trimmed_end(s.drop_last())
    } else {
        s
    }
}

/// Trimming adds nothing.
pub proof fn lemma_trimmed_len(s: Seq<char>)
    ensures
        trimmed(s).len() <= s.len(),
{
    lemma_trimmed_start_len(s);
    lemma_trimmed_end_len(trimmed_start(s));
}

proof fn lemma_trimmed_start_len(s: Seq<char>)
    ensures
        trimmed_start(s).len() <= s.len(),
    decreases s.len(),
{
    if s.len() > 0 && is_space(s[0]) {
        lemma_trimmed_start_len(s.drop_first());
    }
}

proof fn lemma_trimmed_end_len(s: Seq<char>)
    ensures
        trimmed_end(s).len() <= s.len(),
    decreases s.len(),
{
    if s.len() > 0 && is_space(s.last()) {
        lemma_trimmed_end_len(s.drop_last());
    }
}

/// `s` without the white space at its start and end.
pub open spec fn trimmed(s: Seq<char>) -> Seq<char> {
    trimmed_end(trimmed_start(s))
}

/// The part of `s` between its first and last characters that are not white space.
pub fn trim(s: &[char]) -> (t: &[char])
    ensures
        t@ == trimmed(s@),
{
    let mut from: usize = 0;
    assert(s@.skip(0) =~= s@);
    while from < s.len() && space(s[from])
        invariant
            from <= s@.len(),
            trimmed_start(s@) == trimmed_start(s@.skip(from as int)),
        decreases s@.len() - from,
    {
        assert(s@.skip(from as int).drop_first() =~= s@.skip(from + 1));
        from = from + 1;
    }
    let ghost t = s@.skip(from as int);
    let mut to: usize = s.len();
    assert(t.take(to - from) =~= t);
    while to > from && space(s[to - 1])
        invariant
            from <= to <= s@.len(),
            t == s@.skip(from as int),
            trimmed_end(t) == trimmed_end(t.take(to - from)),
        decreases to,
    {
        assert(t.take(to - from).drop_last() =~= t.take(to - 1 - from));
        to = to - 1;
    }
    assert(s@.subrange(from as int, to as int) =~= t.take(to - from));
    &s[from..to]
}

/// A text that trimming leaves unchanged at its start does not begin with white
/// space, and what is trimmed does not either.
pub proof fn lemma_trimmed_first(s: Seq<char>)
    ensures
        trimmed(s).len() > 0 ==> !is_space(trimmed(s)[0]),
{
    lemma_trimmed_start_first(s);
    lemma_trimmed_end_prefix(trimmed_start(s));
}

proof fn lemma_trimmed_start_first(s: Seq<char>)
    ensures
        trimmed_start(s).len() > 0 ==> !is_space(trimmed_start(s)[0]),
    decreases s.len(),
{
    if s.len() > 0 && is_space(s[0]) {
        lemma_trimmed_start_first(s.drop_first());
    }
}

proof fn lemma_trimmed_end_prefix(s: Seq<char>)
    ensures
        trimmed_end(s).len() <= s.len(),
        trimmed_end(s) == s.take(trimmed_end(s).len() as int),
    decreases s.len(),
{
    if s.len() > 0 && is_space(s.last()) {
        lemma_trimmed_end_prefix(s.drop_last());
        assert(s.drop_last().take(trimmed_end(s).len() as int) =~= s.take(
            trimmed_end(s).len() as int,
        ));
    } else {
        assert(s.take(s.len() as int) =~= s);
    }
}

proof fn lemma_trimmed_start_push(s: Seq<char>, c: char)
    requires
        is_space(c),
    ensures
        trimmed_start(s.push(c)) == if trimmed_start(s).len() > 0 {
            trimmed_start(s).push(c)
        } else {
            Seq::empty()
        },
    decreases s.len(),
{
    let longer = s.push(c);
    if s.len() == 0 {
        assert(longer.drop_first() =~= Seq::<char>::empty());
        assert(trimmed_start(Seq::<char>::empty()) =~= Seq::<char>::empty());
    } else if is_space(s[0]) {
        assert(longer.drop_first() =~= s.drop_first().push(c));
        lemma_trimmed_start_push(s.drop_first(), c);
    }
}

/// A carriage return at the end of a line is white space like any other.
pub proof fn lemma_without_cr_trimmed(line: Seq<char>)
    ensures
        trimmed(without_cr(line)) == trimmed(line),
{
    if line.len() > 0 && line.last() == '\r' {
        let rest = line.drop_last();
        assert(rest.push('\r') =~= line);
        lemma_trimmed_start_push(rest, '\r');
        let start = trimmed_start(rest);
        if start.len() > 0 {
            assert(start.push('\r').drop_last() =~= start);
        } else {
            assert(start =~= Seq::<char>::empty());
        }
    }
}

/// Lines, each with a newline at its end.
pub open spec fn joined(lines: Seq<Seq<char>>) -> Seq<char>
    decreases lines.len(),
{
    if lines.len() == 0 {
        Seq::empty()
    } else {
        lines[0] + seq!['\n'] + joined(lines.drop_first())
    }
}

/// Joins lines.
pub fn join_lines(lines: &Vec<Vec<char>>) -> (text: String)
    ensures
        text@ == joined(views(lines@)),
{
    let mut text: Vec<char> = Vec::new();
    let ghost all = views(lines@);
    assert(all.skip(0) =~= all);
    assert(text@ + joined(all) =~= joined(all));
    for i in 0..lines.len()
        invariant
            all == views(lines@),
            joined(all) == text@ + joined(all.skip(i as int)),
    {
        let ghost before = text@;
        let ghost rest = all.skip(i as int);
        let mut line = copy_of(lines[i].as_slice());
        assert(rest[0] == line@);
        assert(rest.drop_first() =~= all.skip(i + 1));
        text.append(&mut line);
        text.push('\n');
        assert(text@ + joined(all.skip(i + 1)) =~= before + (rest[0] + seq!['\n'] + joined(
            rest.drop_first(),
        )));
    }
    assert(text@ + joined(all.skip(lines@.len() as int)) =~= text@);
    string_of(text.as_slice())
}

} // verus!
