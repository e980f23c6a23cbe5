//! The order of texts by code points, and stable sorting by a strict order.

use crate::text;
use vstd::prelude::*;

verus! {

/// Whether `a` comes before `b`: at the first position where they differ, `a`
/// has the smaller code point or has already ended.
pub open spec fn text_before(a: Seq<char>, b: Seq<char>) -> bool
    decreases a.len(),
{
    if b.len() == 0 {
        false
    } else if a.len() == 0 {
        true
    } else if a[0] == b[0] {
        text_before(a.drop_first(), b.drop_first())
    } else {
        a[0] < b[0]
    }
}

/// No text comes before itself.
pub proof fn lemma_text_before_irreflexive(a: Seq<char>)
    ensures
        !text_before(a, a),
    decreases a.len(),
{
    if a.len() > 0 {
        lemma_text_before_irreflexive(a.drop_first());
    }
}

/// Of two different texts exactly one comes before the other.
pub proof fn lemma_text_before_total(a: Seq<char>, b: Seq<char>)
    ensures
        a != b ==> (text_before(a, b) <==> !text_before(b, a)),
        a == b ==> !text_before(a, b),
    decreases a.len(),
{
    if a == b {
        lemma_text_before_irreflexive(a);
    } else if a.len() == 0 || b.len() == 0 {
        assert(!(a.len() == 0 && b.len() == 0)) by {
            if a.len() == 0 && b.len() == 0 {
                assert(a =~= b);
            }
        }
    } else if a[0] == b[0] {
        lemma_text_before_total(a.drop_first(), b.drop_first());
        if a.drop_first() == b.drop_first() {
            assert(a =~= seq![a[0]] + a.drop_first());
            assert(b =~= seq![b[0]] + b.drop_first());
        }
    }
}

/// The order of texts is transitive.
pub proof fn lemma_text_before_transitive(a: Seq<char>, b: Seq<char>, c: Seq<char>)
    requires
        text_before(a, b),
        text_before(b, c),
    ensures
        text_before(a, c),
    decreases a.len(),
{
    if a.len() > 0 {
        if a[0] == b[0] && b[0] == c[0] {
            lemma_text_before_transitive(a.drop_first(), b.drop_first(), c.drop_first());
        }
    }
}

/// Whether `a` comes before `b`.
pub fn chars_before(a: &[char], b: &[char]) -> (before: bool)
    ensures
        before == text_before(a@, b@),
{
    let mut i: usize = 0;
    assert(a@.skip(0) =~= a@);
    assert(b@.skip(0) =~= b@);
    while i < a.len() && i < b.len()
        invariant
            i <= a@.len(),
            i <= b@.len(),
            text_before(a@, b@) == text_before(a@.skip(i as int), b@.skip(i as int)),
        decreases a@.len() - i,
    {
        if a[i] != b[i] {
            return a[i] < b[i];
        }
        assert(a@.skip(i as int).drop_first() =~= a@.skip(i + 1));
        assert(b@.skip(i as int).drop_first() =~= b@.skip(i + 1));
        i = i + 1;
    }
    i < b.len()
}

// ---------------------------------------------------------------------------
// Stable sorting
// ---------------------------------------------------------------------------

/// `s` with `x` put in from the end, past the elements that `x` goes before.
pub open spec fn inserted<A>(s: Seq<A>, x: A, before: spec_fn(A, A) -> bool) -> Seq<A>
    decreases s.len(),
{
    if s.len() > 0 && before(x, s.last()) {
        inserted(s.drop_last(), x, before).push(s.last())
    } else {
        s.push(x)
    }
}

/// The elements of `s` in the order `before`; elements that neither goes before
/// the other keep the order they have in `s`.
pub open spec fn arranged<A>(s: Seq<A>, before: spec_fn(A, A) -> bool) -> Seq<A>
    decreases s.len(),
{
    if s.len() == 0 {
        s
    } else {
        inserted(arranged(s.drop_last(), before), s.last(), before)
    }
}

/// Whether no element of `s` goes before one that stands earlier.
pub open spec fn in_order<A>(s: Seq<A>, before: spec_fn(A, A) -> bool) -> bool {
    forall|i: int, j: int| 0 <= i < j < s.len() ==> !before(#[trigger] s[j], #[trigger] s[i])
}

/// Whether `before` is a strict weak order.
pub open spec fn strict_order<A>(before: spec_fn(A, A) -> bool) -> bool {
    &&& forall|a: A, b: A| #[trigger] before(a, b) ==> !before(b, a)
    &&& forall|a: A, b: A, c: A|
        !#[trigger] before(b, a) && !#[trigger] before(c, b) ==> !before(c, a)
}

proof fn lemma_inserted<A>(s: Seq<A>, x: A, before: spec_fn(A, A) -> bool)
    ensures
        inserted(s, x, before).len() == s.len() + 1,
        inserted(s, x, before).to_multiset() == s.to_multiset().insert(x),
        forall|i: int|
            0 <= i <= s.len() ==> #[trigger] inserted(s, x, before)[i] == x || s.contains(
                inserted(s, x, before)[i],
            ),
    decreases s.len(),
{
    broadcast use vstd::seq_lib::group_to_multiset_ensures;

    let t = inserted(s, x, before);
    if s.len() > 0 && before(x, s.last()) {
        let head = s.drop_last();
        lemma_inserted(head, x, before);
        assert(s =~= head.push(s.last()));
        assert forall|i: int| 0 <= i <= s.len() implies #[trigger] t[i] == x || s.contains(
            t[i],
        ) by {
            if i < s.len() {
                assert(t[i] == inserted(head, x, before)[i]);
                if t[i] != x {
                    let k = choose|k: int| 0 <= k < head.len() && head[k] == t[i];
                    assert(s[k] == t[i]);
                }
            } else {
                assert(s[s.len() - 1] == t[i]);
            }
        }
    } else {
        assert forall|i: int| 0 <= i <= s.len() implies #[trigger] t[i] == x || s.contains(
            t[i],
        ) by {
            if i < s.len() {
                assert(s[i] == t[i]);
            }
        }
    }
}

/// Sorting keeps the elements and how often each occurs.
pub proof fn lemma_arranged_keeps<A>(s: Seq<A>, before: spec_fn(A, A) -> bool)
    ensures
        arranged(s, before).len() == s.len(),
        arranged(s, before).to_multiset() == s.to_multiset(),
    decreases s.len(),
{
    broadcast use vstd::seq_lib::group_to_multiset_ensures;

    if s.len() > 0 {
        lemma_arranged_keeps(s.drop_last(), before);
        lemma_inserted(arranged(s.drop_last(), before), s.last(), before);
        assert(s =~= s.drop_last().push(s.last()));
    }
}

/// Sorting keeps what occurs in a list.
pub proof fn lemma_arranged_member<A>(s: Seq<A>, before: spec_fn(A, A) -> bool, x: A)
    ensures
        arranged(s, before).contains(x) <==> s.contains(x),
{
    broadcast use vstd::seq_lib::group_to_multiset_ensures;

    lemma_arranged_keeps(s, before);
    assert(arranged(s, before).contains(x) <==> arranged(s, before).to_multiset().count(x) > 0);
    assert(s.contains(x) <==> s.to_multiset().count(x) > 0);
}

/// Whether no two elements are alike.
pub open spec fn unlike<A>(s: Seq<A>, same: spec_fn(A, A) -> bool) -> bool {
    forall|i: int, j: int|
        0 <= i < s.len() && 0 <= j < s.len() && i != j ==> !same(#[trigger] s[i], #[trigger] s[j])
}

proof fn lemma_inserted_unlike<A>(
    s: Seq<A>,
    x: A,
    before: spec_fn(A, A) -> bool,
    same: spec_fn(A, A) -> bool,
)
    requires
        unlike(s, same),
        forall|y: A| #[trigger] s.contains(y) ==> !same(x, y) && !same(y, x),
    ensures
        unlike(inserted(s, x, before), same),
    decreases s.len(),
{
    assert forall|i: int| 0 <= i < s.len() implies !same(x, #[trigger] s[i]) && !same(s[i], x) by {
        assert(s.contains(s[i]));
    }
    if s.len() > 0 && before(x, s.last()) {
        let head = s.drop_last();
        let u = inserted(head, x, before);
        let t = inserted(s, x, before);
        assert forall|i: int, j: int|
            0 <= i < head.len() && 0 <= j < head.len() && i != j implies !same(
            #[trigger] head[i],
            #[trigger] head[j],
        ) by {
            assert(head[i] == s[i] && head[j] == s[j]);
        }
        assert forall|y: A| #[trigger] head.contains(y) implies !same(x, y) && !same(y, x) by {
            let k = choose|k: int| 0 <= k < head.len() && head[k] == y;
            assert(s[k] == y);
        }
        lemma_inserted_unlike(head, x, before, same);
        lemma_inserted(head, x, before);
        assert forall|i: int| 0 <= i < u.len() implies !same(#[trigger] u[i], s.last()) && !same(
            s.last(),
            u[i],
        ) by {
            if u[i] != x {
                let k = choose|k: int| 0 <= k < head.len() && head[k] == u[i];
                assert(s[k] == u[i]);
                assert(s[s.len() - 1] == s.last());
            }
        }
        assert forall|i: int, j: int|
            0 <= i < t.len() && 0 <= j < t.len() && i != j implies !same(
            #[trigger] t[i],
            #[trigger] t[j],
        ) by {
            if i < u.len() {
                assert(t[i] == u[i]);
            }
            if j < u.len() {
                assert(t[j] == u[j]);
            }
        }
    }
}

/// Sorting a list in which no two elements are alike gives such a list.
pub proof fn lemma_arranged_unlike<A>(
    s: Seq<A>,
    before: spec_fn(A, A) -> bool,
    same: spec_fn(A, A) -> bool,
)
    requires
        unlike(s, same),
    ensures
        unlike(arranged(s, before), same),
    decreases s.len(),
{
    if s.len() > 0 {
        let head = s.drop_last();
        assert forall|i: int, j: int|
            0 <= i < head.len() && 0 <= j < head.len() && i != j implies !same(
            #[trigger] head[i],
            #[trigger] head[j],
        ) by {
            assert(head[i] == s[i] && head[j] == s[j]);
        }
        lemma_arranged_unlike(head, before, same);
        assert forall|y: A| #[trigger] arranged(head, before).contains(y) implies !same(
            s.last(),
            y,
        ) && !same(y, s.last()) by {
            lemma_arranged_member(head, before, y);
            let k = choose|k: int| 0 <= k < head.len() && head[k] == y;
            assert(s[k] == y);
            assert(s[s.len() - 1] == s.last());
        }
        lemma_inserted_unlike(arranged(head, before), s.last(), before, same);
    }
}

proof fn lemma_inserted_in_order<A>(s: Seq<A>, x: A, before: spec_fn(A, A) -> bool)
    requires
        in_order(s, before),
        strict_order(before),
    ensures
        in_order(inserted(s, x, before), before),
    decreases s.len(),
{
    let t = inserted(s, x, before);
    if s.len() > 0 && before(x, s.last()) {
        let head = s.drop_last();
        let u = inserted(head, x, before);
        assert(in_order(head, before)) by {
            assert forall|i: int, j: int| 0 <= i < j < head.len() implies !before(
                #[trigger] head[j],
                #[trigger] head[i],
            ) by {
                assert(head[j] == s[j] && head[i] == s[i]);
            }
        }
        lemma_inserted_in_order(head, x, before);
        lemma_inserted(head, x, before);
        assert forall|i: int, j: int| 0 <= i < j < t.len() implies !before(
            #[trigger] t[j],
            #[trigger] t[i],
        ) by {
            assert(t[i] == u[i]);
            if j < u.len() {
                assert(t[j] == u[j]);
            } else if u[i] != x {
                let k = choose|k: int| 0 <= k < head.len() && head[k] == u[i];
                assert(s[k] == u[i]);
                assert(!before(s[s.len() - 1], s[k]));
            }
        }
    } else {
        assert forall|i: int, j: int| 0 <= i < j < t.len() implies !before(
            #[trigger] t[j],
            #[trigger] t[i],
        ) by {
            assert(t[i] == s[i]);
            if j < s.len() {
                assert(t[j] == s[j]);
            } else if i < s.len() - 1 {
                assert(!before(s[s.len() - 1], s[i]));
                assert(!before(x, s[s.len() - 1]));
            }
        }
    }
}

/// Sorting by a strict order puts the elements in order.
pub proof fn lemma_arranged_in_order<A>(s: Seq<A>, before: spec_fn(A, A) -> bool)
    requires
        strict_order(before),
    ensures
        in_order(arranged(s, before), before),
    decreases s.len(),
{
    if s.len() > 0 {
        lemma_arranged_in_order(s.drop_last(), before);
        lemma_inserted_in_order(arranged(s.drop_last(), before), s.last(), before);
    }
}

/// Filtering a longer sequence keeps the last element or leaves it out.
pub proof fn lemma_filter_push<A>(s: Seq<A>, x: A, pred: spec_fn(A) -> bool)
    ensures
        s.push(x).filter(pred) == if pred(x) {
            s.filter(pred).push(x)
        } else {
            s.filter(pred)
        },
{
    reveal(Seq::filter);
    assert(s.push(x).drop_last() =~= s);
}

proof fn lemma_inserted_filter<A>(
    s: Seq<A>,
    x: A,
    before: spec_fn(A, A) -> bool,
    pred: spec_fn(A) -> bool,
)
    requires
        forall|a: A, b: A| pred(a) && pred(b) ==> !#[trigger] before(a, b),
    ensures
        inserted(s, x, before).filter(pred) == s.push(x).filter(pred),
    decreases s.len(),
{
    if s.len() > 0 && before(x, s.last()) {
        let head = s.drop_last();
        lemma_inserted_filter(head, x, before, pred);
        lemma_filter_push(head, x, pred);
        lemma_filter_push(head, s.last(), pred);
        assert(head.push(s.last()) =~= s);
        lemma_filter_push(s, x, pred);
        lemma_filter_push(inserted(head, x, before), s.last(), pred);
    }
}

/// Sorting is stable: elements of which none comes before another keep their order.
pub proof fn lemma_arranged_stable<A>(
    s: Seq<A>,
    before: spec_fn(A, A) -> bool,
    pred: spec_fn(A) -> bool,
)
    requires
        forall|a: A, b: A| pred(a) && pred(b) ==> !#[trigger] before(a, b),
    ensures
        arranged(s, before).filter(pred) == s.filter(pred),
    decreases s.len(),
{
    if s.len() > 0 {
        let head = s.drop_last();
        lemma_arranged_stable(head, before, pred);
        lemma_inserted_filter(arranged(head, before), s.last(), before, pred);
        lemma_filter_push(arranged(head, before), s.last(), pred);
        lemma_filter_push(head, s.last(), pred);
        assert(head.push(s.last()) =~= s);
    }
}

/// The order of texts, as a relation.
pub open spec fn text_order() -> spec_fn(Seq<char>, Seq<char>) -> bool {
    |a: Seq<char>, b: Seq<char>| text_before(a, b)
}

/// The order of texts is a strict order.
pub proof fn lemma_text_order_strict()
    ensures
        strict_order(text_order()),
{
    let before = text_order();
    assert forall|a: Seq<char>, b: Seq<char>| #[trigger] before(a, b) implies !before(b, a) by {
        lemma_text_before_total(a, b);
    }
    assert forall|a: Seq<char>, b: Seq<char>, c: Seq<char>|
        !#[trigger] before(b, a) && !#[trigger] before(c, b) implies !before(c, a) by {
        lemma_text_before_total(a, b);
        lemma_text_before_total(b, c);
        lemma_text_before_total(a, c);
        if text_before(a, b) && text_before(b, c) {
            lemma_text_before_transitive(a, b, c);
        }
    }
}

/// Puts `text` into the list past the texts that it comes before.
fn insert_text(list: &mut Vec<Vec<char>>, text: Vec<char>)
    ensures
        text::views(final(list)@) == inserted(text::views(old(list)@), text@, text_order()),
{
    let mut pos: usize = list.len();
    let ghost all = text::views(list@);
    let ghost before = text_order();
    assert(all.take(pos as int) =~= all);
    assert(inserted(all, text@, before) =~= inserted(all, text@, before) + all.skip(pos as int));
    while pos > 0 && chars_before(text.as_slice(), list[pos - 1].as_slice())
        invariant
            pos <= list@.len(),
            all == text::views(list@),
            before == text_order(),
            inserted(all, text@, before) == inserted(all.take(pos as int), text@, before)
                + all.skip(pos as int),
        decreases pos,
    {
        let ghost head = all.take(pos as int);
        assert(head.last() == list@[pos - 1]@);
        assert(before(text@, head.last()));
        assert(head.drop_last() =~= all.take(pos - 1));
        assert(inserted(all.take(pos - 1), text@, before).push(head.last()) + all.skip(pos as int)
            =~= inserted(all.take(pos - 1), text@, before) + all.skip(pos - 1));
        pos = pos - 1;
    }
    proof {
        let head = all.take(pos as int);
        if pos > 0 {
            assert(head.last() == list@[pos - 1]@);
            assert(!before(text@, head.last()));
        }
        assert(inserted(head, text@, before) == head.push(text@));
        assert(all.insert(pos as int, text@) =~= head.push(text@) + all.skip(pos as int));
    }
    list.insert(pos, text);
    assert(text::views(list@) =~= all.insert(pos as int, text@));
}

/// Sorts texts.
pub fn sort_texts(list: Vec<Vec<char>>) -> (sorted: Vec<Vec<char>>)
    ensures
        text::views(sorted@) == arranged(text::views(list@), text_order()),
{
    let ghost all = text::views(list@);
    let mut sorted: Vec<Vec<char>> = Vec::new();
    assert(text::views(sorted@) =~= arranged(all.take(0), text_order()));
    for t in it: list.into_iter()
        invariant
            it.seq() == list@,
            all == text::views(list@),
            text::views(sorted@) == arranged(all.take(it.index() as int), text_order()),
    {
        let ghost i = it.index() as int;
        insert_text(&mut sorted, t);
        proof {
            let head = all.take(i + 1);
            assert(head.drop_last() =~= all.take(i));
            assert(head.last() == t@);
        }
    }
    assert(all.take(list@.len() as int) =~= all);
    sorted
}

} // verus!
