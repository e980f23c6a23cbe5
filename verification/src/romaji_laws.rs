//! What holds of romaji conversion as a whole.

use crate::romaji;
use crate::romaji::{RomajiOutput, RomajiState, RomajiStep};
use crate::romaji_table;
use vstd::prelude::*;

verus! {

/// The states a converter can be in: the pending romaji starts a spelling, it is
/// not a spelling that could have been confirmed, and only an `n` is remembered
/// as the second of `nn`.
pub open spec fn live(state: RomajiState) -> bool {
    &&& romaji_table::begins_spelling(state.pending)
    &&& romaji_table::kana_for(state.pending) is Some ==> state.pending == seq!['n']
    &&& state.nn ==> state.pending.len() > 0 && state.pending[0] == 'n'
}

/// A fresh converter is live.
pub proof fn lemma_fresh_live()
    ensures
        live(romaji::fresh()),
{
    romaji_table::lemma_empty_start();
}

proof fn lemma_resolved_live(pending: Seq<char>, nn: bool)
    requires
        nn ==> pending.len() > 0 && pending[0] == 'n',
    ensures
        live(romaji::resolved(pending, nn).state),
    decreases pending.len(),
{
    romaji_table::lemma_empty_start();
    romaji_table::lemma_n();
    romaji_table::lemma_spelling(seq!['n']);
    if pending == seq!['n', 'n'] {
        assert(seq!['n'][0] == 'n');
    } else if romaji_table::kana_for(pending) is Some && pending != seq!['n'] {
    } else if pending.len() == 0 || romaji_table::begins_spelling(pending) {
        if pending.len() == 0 {
            assert(pending =~= Seq::<char>::empty());
        }
    } else {
        lemma_resolved_live(pending.drop_first(), false);
    }
}

/// Whatever is typed, the converter stays live.
pub proof fn lemma_fed_live(state: RomajiState, ch: char)
    requires
        live(state),
    ensures
        live(romaji::fed(state, ch).state),
{
    lemma_fresh_live();
    if !romaji::is_symbol(ch) {
        let pending = state.pending.push(ch);
        assert(state.nn ==> pending[0] == state.pending[0]);
        lemma_resolved_live(pending, state.nn);
    }
}

/// Deleting the last pending character keeps the converter live.
pub proof fn lemma_backed_live(state: RomajiState)
    requires
        live(state),
    ensures
        live(romaji::backed(state)),
{
    if state.pending.len() > 0 {
        let n = state.pending.len() - 1;
        let shorter = state.pending.take(n);
        assert(state.pending.drop_last() =~= shorter);
        romaji_table::lemma_shorter_start(state.pending, n);
        let key = romaji_table::lemma_begins_spelling(state.pending);
        romaji_table::lemma_spelling(key);
        romaji_table::lemma_spelling(shorter);
        romaji_table::lemma_empty_start();
        if romaji_table::kana_for(shorter) is Some && shorter != seq!['n'] {
            assert(shorter.len() > 0) by {
                if shorter.len() == 0 {
                    assert(shorter =~= Seq::<char>::empty());
                }
            }
            assert(key.len() > 1);
            assert(seq!['-'].len() == 1 && seq!['.'].len() == 1 && seq![','].len() == 1
                && seq!['n'].len() == 1);
            assert(shorter.last() == key[n - 1]) by {
                assert(state.pending =~= key.subrange(0, state.pending.len() as int));
            }
            assert(seq!['-'].last() == '-' && seq!['.'].last() == '.' && seq![','].last() == ',');
            assert(false);
        }
        if state.nn && state.pending.len() > 1 {
            assert(shorter[0] == state.pending[0]);
        }
    }
}

/// Deleting a character that only joined the pending romaji undoes typing it.
pub proof fn lemma_backspace_undoes_typing(state: RomajiState, ch: char)
    requires
        live(state),
        romaji::fed(state, ch).state.pending == state.pending.push(ch),
    ensures
        romaji::backed(romaji::fed(state, ch).state) == state,
{
    let pending = state.pending.push(ch);
    assert(pending.len() > 0);
    assert(!romaji::is_symbol(ch));
    assert(pending.drop_last() =~= state.pending);
    lemma_resolved_length(pending, state.nn);
    if pending == seq!['n', 'n'] {
        assert(seq!['n'].len() == 1);
    }
}

/// Resolving never leaves more romaji pending than there was, and leaves all of
/// it only by leaving it untouched.
proof fn lemma_resolved_length(pending: Seq<char>, nn: bool)
    ensures
        romaji::resolved(pending, nn).state.pending.len() <= pending.len(),
        pending.len() > 0 && romaji::resolved(pending, nn).state.pending == pending
            ==> romaji::resolved(pending, nn).state.nn == nn,
    decreases pending.len(),
{
    if pending == seq!['n', 'n'] {
        assert(seq!['n'].len() == 1);
    } else if romaji_table::kana_for(pending) is Some && pending != seq!['n'] {
    } else if pending.len() == 0 || romaji_table::begins_spelling(pending) {
    } else {
        lemma_resolved_length(pending.drop_first(), false);
    }
}

// ---------------------------------------------------------------------------
// Typing in pieces
// ---------------------------------------------------------------------------

/// Typing `a` and then `b` is typing `a + b`.
pub proof fn lemma_fed_all_concat(state: RomajiState, a: Seq<char>, b: Seq<char>)
    ensures
        romaji::fed_all(state, a + b).state == romaji::fed_all(
            romaji::fed_all(state, a).state,
            b,
        ).state,
        romaji::fed_all(state, a + b).confirmed == romaji::fed_all(state, a).confirmed
            + romaji::fed_all(romaji::fed_all(state, a).state, b).confirmed,
    decreases b.len(),
{
    let first = romaji::fed_all(state, a);
    if b.len() == 0 {
        assert(a + b =~= a);
        assert(first.confirmed + Seq::<char>::empty() =~= first.confirmed);
    } else {
        lemma_fed_all_concat(state, a, b.drop_last());
        assert((a + b).drop_last() =~= a + b.drop_last());
        assert((a + b).last() == b.last());
        let mid = romaji::fed_all(first.state, b.drop_last());
        let step = romaji::fed(mid.state, b.last());
        assert((first.confirmed + mid.confirmed) + step.confirmed =~= first.confirmed + (
        mid.confirmed + step.confirmed));
    }
}

/// Where a text leaves no romaji pending, what follows it converts on its own.
pub proof fn lemma_converted_concat(a: Seq<char>, b: Seq<char>)
    requires
        romaji::fed_all(romaji::fresh(), a).state == romaji::fresh(),
    ensures
        romaji::converted(a + b) == romaji::converted(a) + romaji::converted(b),
{
    lemma_fed_all_concat(romaji::fresh(), a, b);
    let first = romaji::fed_all(romaji::fresh(), a);
    let second = romaji::fed_all(romaji::fresh(), b);
    assert(romaji::fresh().pending.len() == 0);
    assert(seq!['n'].len() == 1);
    assert(romaji::converted(a) =~= first.confirmed);
    assert((first.confirmed + second.confirmed) + romaji::flushed(second.state)
        =~= first.confirmed + (second.confirmed + romaji::flushed(second.state)));
}

// ---------------------------------------------------------------------------
// Spellings
// ---------------------------------------------------------------------------

/// A spelling of more than one character, which ends in its only vowel.
spec fn long_spelling(key: Seq<char>) -> bool {
    &&& romaji_table::kana_for(key) is Some
    &&& key.len() > 1
}

proof fn lemma_long_spelling(key: Seq<char>)
    requires
        long_spelling(key),
    ensures
        romaji_table::is_vowel(key.last()),
        forall|k: int|
            0 <= k < key.len() - 1 ==> 'a' <= #[trigger] key[k] <= 'z' && !romaji_table::is_vowel(
                key[k],
            ),
        key[0] != key[1],
        romaji_table::begins_spelling(key),
{
    romaji_table::lemma_spelling(key);
    assert(seq!['-'].len() == 1 && seq!['.'].len() == 1 && seq![','].len() == 1 && seq!['n'].len()
        == 1);
}

/// No text with a doubled letter at its start starts a spelling.
proof fn lemma_doubled_start(pending: Seq<char>)
    requires
        pending.len() > 1,
        pending[0] == pending[1],
    ensures
        !romaji_table::begins_spelling(pending),
        romaji_table::kana_for(pending) is None,
{
    if romaji_table::begins_spelling(pending) {
        let key = romaji_table::lemma_begins_spelling(pending);
        assert(pending =~= key.subrange(0, pending.len() as int));
        assert(key[0] == pending[0] && key[1] == pending[1]);
        lemma_long_spelling(key);
    }
    romaji_table::lemma_spelling(pending);
}

/// While a spelling is being typed, nothing is handed out and all of it is pending.
proof fn lemma_typing(key: Seq<char>, from: int, to: int, nn: bool)
    requires
        long_spelling(key),
        0 <= from <= to < key.len(),
    ensures
        romaji::fed_all(RomajiState { pending: key.take(from), nn }, key.subrange(from, to)) == (
        RomajiStep { confirmed: Seq::empty(), state: RomajiState { pending: key.take(to), nn } }),
    decreases to - from,
{
    lemma_long_spelling(key);
    let start = RomajiState { pending: key.take(from), nn };
    let typed = key.subrange(from, to);
    if from == to {
        assert(typed =~= Seq::<char>::empty());
    } else {
        lemma_typing(key, from, to - 1, nn);
        let ch = key[to - 1];
        let pending = key.take(to);
        assert(typed.drop_last() =~= key.subrange(from, to - 1));
        assert(typed.last() == ch);
        assert(key.take(to - 1).push(ch) =~= pending);
        assert(!romaji::is_symbol(ch));
        assert(pending != seq!['n', 'n']) by {
            if pending == seq!['n', 'n'] {
                assert(seq!['n', 'n'].len() == 2);
                assert(pending[0] == key[0] && pending[1] == key[1]);
                assert(seq!['n', 'n'][0] == seq!['n', 'n'][1]);
            }
        }
        assert(romaji_table::kana_for(pending) is Some ==> pending == seq!['n']) by {
            romaji_table::lemma_spelling(pending);
            assert(pending.last() == ch);
            assert(seq!['-'].last() == '-' && seq!['.'].last() == '.' && seq![','].last() == ',');
        }
        romaji_table::lemma_shorter_start(key, to);
        assert(Seq::<char>::empty() + Seq::<char>::empty() =~= Seq::<char>::empty());
    }
}

/// The last letter of a spelling hands out its kana and leaves nothing pending.
proof fn lemma_completing(key: Seq<char>, from: int, nn: bool)
    requires
        long_spelling(key),
        0 <= from < key.len(),
    ensures
        romaji::fed_all(RomajiState { pending: key.take(from), nn }, key.skip(from)) == (RomajiStep {
            confirmed: romaji_table::kana_for(key)->0,
            state: romaji::fresh(),
        }),
{
    lemma_long_spelling(key);
    let end = key.len() - 1;
    lemma_typing(key, from, end, nn);
    let rest = key.skip(from);
    assert(rest.drop_last() =~= key.subrange(from, end));
    assert(rest.last() == key.last());
    assert(key.take(end).push(key.last()) =~= key);
    assert(key != seq!['n', 'n']) by {
        if key == seq!['n', 'n'] {
            assert(seq!['n', 'n'].last() == 'n');
        }
    }
    assert(key != seq!['n']) by {
        assert(seq!['n'].len() == 1);
    }
    let kana = romaji_table::kana_for(key)->0;
    assert(Seq::<char>::empty() + kana =~= kana);
}

/// A first consonant is kept, as it starts a spelling and is none.
proof fn lemma_first_letter(key: Seq<char>)
    requires
        long_spelling(key),
    ensures
        romaji::resolved(seq![key[0]], false) == (RomajiStep {
            confirmed: Seq::empty(),
            state: RomajiState { pending: seq![key[0]], nn: false },
        }),
        romaji::fed_all(romaji::fresh(), seq![key[0]]) == (RomajiStep {
            confirmed: Seq::empty(),
            state: RomajiState { pending: seq![key[0]], nn: false },
        }),
{
    lemma_typing(key, 0, 1, false);
    assert(key.take(0) =~= Seq::<char>::empty());
    assert(key.subrange(0, 1) =~= seq![key[0]]);
    assert(key.take(1) =~= seq![key[0]]);
    let one = seq![key[0]];
    assert(one.drop_last() =~= Seq::<char>::empty());
    assert(Seq::<char>::empty().push(key[0]) =~= one);
    lemma_long_spelling(key);
    let step = romaji::fed(romaji::fresh(), key[0]);
    assert(!romaji::is_symbol(key[0]));
    assert(romaji::fed_all(romaji::fresh(), Seq::<char>::empty()).state == romaji::fresh());
    assert(Seq::<char>::empty() + step.confirmed =~= step.confirmed);
}

/// Every spelling of the table converts to its kana, and leaves nothing pending
/// unless it is a single `n`.
pub proof fn lemma_spelling_converts(key: Seq<char>)
    requires
        romaji_table::kana_for(key) is Some,
    ensures
        romaji::converted(key) == romaji_table::kana_for(key)->0,
        key != seq!['n'] ==> romaji::fed_all(romaji::fresh(), key) == (RomajiStep {
            confirmed: romaji_table::kana_for(key)->0,
            state: romaji::fresh(),
        }),
{
    let kana = romaji_table::kana_for(key)->0;
    romaji_table::lemma_spelling(key);
    if key.len() > 1 {
        lemma_completing(key, 0, false);
        assert(key.take(0) =~= Seq::<char>::empty());
        assert(key.skip(0) =~= key);
        assert(seq!['n'].len() == 1);
        assert(kana + Seq::<char>::empty() =~= kana);
    } else {
        let ch = key.last();
        let step = romaji::fed(romaji::fresh(), ch);
        assert(seq!['-'][0] == '-' && seq!['.'][0] == '.' && seq![','][0] == ',' && seq!['n'][0]
            == 'n');
        assert(key =~= seq![ch]);
        assert(key.drop_last() =~= Seq::<char>::empty());
        assert(romaji::fed_all(romaji::fresh(), key.drop_last()) == (RomajiStep {
            confirmed: Seq::empty(),
            state: romaji::fresh(),
        }));
        assert(Seq::<char>::empty() + step.confirmed =~= step.confirmed);
        assert(Seq::<char>::empty().push(ch) =~= key);
        assert(seq!['n', 'n'].len() == 2);
        if romaji::is_symbol(ch) {
            assert(step.confirmed =~= kana);
            assert(kana + Seq::<char>::empty() =~= kana);
        } else if ch == 'n' {
            assert(step.state.pending == seq!['n']);
            assert(Seq::<char>::empty() + kana =~= kana);
        } else {
            assert(key != seq!['n']);
            assert(kana + Seq::<char>::empty() =~= kana);
        }
    }
}

/// A complete syllable leaves what follows it alone: a spelling other than `n` with
/// a text after it converts to its kana and that text's.
pub proof fn lemma_spelling_then_text(key: Seq<char>, rest: Seq<char>)
    requires
        romaji_table::kana_for(key) is Some,
        key != seq!['n'],
    ensures
        romaji::converted(key + rest) == romaji_table::kana_for(key)->0 + romaji::converted(rest),
{
    lemma_spelling_converts(key);
    lemma_converted_concat(key, rest);
}

/// A consonant typed twice is `っ` and the syllable it starts.
pub proof fn lemma_double_consonant(key: Seq<char>)
    requires
        romaji_table::kana_for(key) is Some,
        key.len() > 1,
        key[0] != 'n',
    ensures
        romaji::converted(seq![key[0]] + key) == seq!['っ'] + romaji_table::kana_for(key)->0,
{
    let c = key[0];
    let twice = seq![c, c];
    let kana = romaji_table::kana_for(key)->0;
    lemma_long_spelling(key);
    lemma_first_letter(key);
    lemma_doubled_start(twice);
    assert(twice.drop_first() =~= seq![c]);
    assert(seq![c].push(c) =~= twice);
    assert(twice != seq!['n', 'n']) by {
        assert(twice[0] == c && seq!['n', 'n'][0] == 'n');
    }
    let step = romaji::resolved(twice, false);
    assert(step.confirmed =~= seq!['っ']);
    assert(twice.drop_last() =~= seq![c]);
    let two = romaji::fed_all(romaji::fresh(), twice);
    assert(two.confirmed =~= seq!['っ']);
    lemma_completing(key, 1, false);
    assert(key.take(1) =~= seq![c]);
    lemma_fed_all_concat(romaji::fresh(), twice, key.skip(1));
    assert(seq![c] + key =~= twice + key.skip(1));
    assert((seq!['っ'] + kana) + Seq::<char>::empty() =~= seq!['っ'] + kana);
    assert(seq!['n'].len() == 1);
}

/// An `n` before a consonant other than `n` and `y` is `ん`, unless that `ん` was
/// handed out already; the consonant is taken as after nothing.
pub proof fn lemma_n_then_consonant(c: char, nn: bool)
    requires
        romaji_table::is_consonant_letter(c),
        c != 'n',
        c != 'y',
    ensures
        romaji::fed(RomajiState { pending: seq!['n'], nn }, c) == (RomajiStep {
            confirmed: (if nn {
                Seq::<char>::empty()
            } else {
                seq!['ん']
            }) + romaji::fed(romaji::fresh(), c).confirmed,
            state: romaji::fed(romaji::fresh(), c).state,
        }),
{
    let both = seq!['n', c];
    romaji_table::lemma_after_n(c);
    assert(seq!['n'].push(c) =~= both);
    assert(both.drop_first() =~= seq![c]);
    assert(Seq::<char>::empty().push(c) =~= seq![c]);
    assert(both != seq!['n', 'n']) by {
        assert(both[1] == c && seq!['n', 'n'][1] == 'n');
    }
    assert(both != seq!['n']) by {
        assert(both.len() == 2 && seq!['n'].len() == 1);
    }
    assert(!romaji::is_symbol(c));
}

/// After a single `n`, a spelling that starts with a consonant other than `n` and
/// `y` makes `ん`, unless that was handed out already, and its own kana.
proof fn lemma_n_then_spelling(key: Seq<char>, nn: bool)
    requires
        romaji_table::kana_for(key) is Some,
        key.len() > 1,
        key[0] != 'n',
        key[0] != 'y',
    ensures
        romaji::fed_all(RomajiState { pending: seq!['n'], nn }, key) == (RomajiStep {
            confirmed: (if nn {
                Seq::<char>::empty()
            } else {
                seq!['ん']
            }) + romaji_table::kana_for(key)->0,
            state: romaji::fresh(),
        }),
{
    let c = key[0];
    let kana = romaji_table::kana_for(key)->0;
    let start = RomajiState { pending: seq!['n'], nn };
    let mark = if nn {
        Seq::<char>::empty()
    } else {
        seq!['ん']
    };
    lemma_long_spelling(key);
    lemma_first_letter(key);
    lemma_n_then_consonant(c, nn);
    let one = seq![c];
    assert(one.drop_last() =~= Seq::<char>::empty());
    assert(one.last() == c);
    assert(Seq::<char>::empty().push(c) =~= one);
    let step = romaji::fed(start, c);
    assert(romaji::fed_all(start, Seq::<char>::empty()).state == start);
    assert(Seq::<char>::empty() + step.confirmed =~= step.confirmed);
    assert(romaji::fed_all(start, one) == step);
    assert(step.confirmed =~= mark);
    lemma_completing(key, 1, false);
    assert(key.take(1) =~= one);
    lemma_fed_all_concat(start, one, key.skip(1));
    assert(one + key.skip(1) =~= key);
}

/// An `n` before a syllable that starts with a consonant other than `n` and `y` is
/// `ん` and that syllable.
pub proof fn lemma_n_before_consonant(key: Seq<char>)
    requires
        romaji_table::kana_for(key) is Some,
        key.len() > 1,
        key[0] != 'n',
        key[0] != 'y',
    ensures
        romaji::converted(seq!['n'] + key) == seq!['ん'] + romaji_table::kana_for(key)->0,
{
    let kana = romaji_table::kana_for(key)->0;
    lemma_n_pending();
    lemma_n_then_spelling(key, false);
    lemma_fed_all_concat(romaji::fresh(), seq!['n'], key);
    assert(Seq::<char>::empty() + (seq!['ん'] + kana) =~= seq!['ん'] + kana);
    assert((seq!['ん'] + kana) + Seq::<char>::empty() =~= seq!['ん'] + kana);
    assert(seq!['n'].len() == 1);
}

/// So is `nn` before such a syllable: the `ん` comes once.
pub proof fn lemma_nn_before_consonant(key: Seq<char>)
    requires
        romaji_table::kana_for(key) is Some,
        key.len() > 1,
        key[0] != 'n',
        key[0] != 'y',
    ensures
        romaji::converted(seq!['n', 'n'] + key) == seq!['ん'] + romaji_table::kana_for(key)->0,
{
    let kana = romaji_table::kana_for(key)->0;
    lemma_nn();
    lemma_n_then_spelling(key, true);
    lemma_fed_all_concat(romaji::fresh(), seq!['n', 'n'], key);
    assert(Seq::<char>::empty() + kana =~= kana);
    assert((seq!['ん'] + kana) + Seq::<char>::empty() =~= seq!['ん'] + kana);
    assert(seq!['n'].len() == 1);
}

/// A single `n` is kept pending.
proof fn lemma_n_pending()
    ensures
        romaji::fed_all(romaji::fresh(), seq!['n']) == (RomajiStep {
            confirmed: Seq::empty(),
            state: RomajiState { pending: seq!['n'], nn: false },
        }),
{
    let n = seq!['n'];
    romaji_table::lemma_n();
    romaji_table::lemma_spelling(n);
    assert(n.drop_last() =~= Seq::<char>::empty());
    assert(n.last() == 'n');
    assert(Seq::<char>::empty().push('n') =~= n);
    assert(seq!['n', 'n'].len() == 2 && n.len() == 1);
    let step = romaji::fed(romaji::fresh(), 'n');
    assert(romaji::fed_all(romaji::fresh(), Seq::<char>::empty()).state == romaji::fresh());
    assert(Seq::<char>::empty() + step.confirmed =~= step.confirmed);
}

/// Typing `nn` hands out one `ん`; at the end of input it is all that comes.
pub proof fn lemma_nn()
    ensures
        romaji::fed_all(romaji::fresh(), seq!['n', 'n']) == (RomajiStep {
            confirmed: seq!['ん'],
            state: RomajiState { pending: seq!['n'], nn: true },
        }),
        romaji::converted(seq!['n', 'n']) == seq!['ん'],
{
    let nn = seq!['n', 'n'];
    lemma_n_pending();
    assert(nn.drop_last() =~= seq!['n']);
    assert(seq!['n'].push('n') =~= nn);
    assert(Seq::<char>::empty() + seq!['ん'] =~= seq!['ん']);
    assert(seq!['ん'] + Seq::<char>::empty() =~= seq!['ん']);
}

/// `c`, `k` times.
pub open spec fn repeated(c: char, k: int) -> Seq<char> {
    Seq::new(k as nat, |i: int| c)
}

/// A run of `n` makes one `ん` for every two of them, and one more for a last one
/// that stands alone.
pub proof fn lemma_run_of_n(k: int)
    requires
        k > 0,
    ensures
        romaji::fed_all(romaji::fresh(), repeated('n', k)) == (RomajiStep {
            confirmed: repeated('ん', k / 2),
            state: RomajiState { pending: seq!['n'], nn: k % 2 == 0 },
        }),
        romaji::converted(repeated('n', k)) == repeated('ん', (k + 1) / 2),
    decreases k,
{
    let run = repeated('n', k);
    if k == 1 {
        lemma_n_pending();
        assert(run =~= seq!['n']);
        assert(repeated('ん', 0) =~= Seq::<char>::empty());
    } else {
        lemma_run_of_n(k - 1);
        let before = romaji::fed_all(romaji::fresh(), repeated('n', k - 1));
        assert(run.drop_last() =~= repeated('n', k - 1));
        assert(run.last() == 'n');
        assert(seq!['n'].push('n') =~= seq!['n', 'n']);
        if k % 2 == 0 {
            assert(before.confirmed + seq!['ん'] =~= repeated('ん', k / 2));
        } else {
            assert(before.confirmed + Seq::<char>::empty() =~= repeated('ん', k / 2));
        }
    }
    let all = romaji::fed_all(romaji::fresh(), run);
    assert(all.confirmed + romaji::flushed(all.state) =~= repeated('ん', (k + 1) / 2));
}

/// An `n` before a syllable that starts with `n` is `ん` and that syllable.
pub proof fn lemma_nn_before_syllable(key: Seq<char>)
    requires
        romaji_table::kana_for(key) is Some,
        key.len() > 1,
        key[0] == 'n',
    ensures
        romaji::converted(seq!['n'] + key) == seq!['ん'] + romaji_table::kana_for(key)->0,
{
    let kana = romaji_table::kana_for(key)->0;
    lemma_nn();
    lemma_completing(key, 1, true);
    assert(key.take(1) =~= seq!['n']);
    lemma_fed_all_concat(romaji::fresh(), seq!['n', 'n'], key.skip(1));
    assert(seq!['n'] + key =~= seq!['n', 'n'] + key.skip(1));
    assert((seq!['ん'] + kana) + Seq::<char>::empty() =~= seq!['ん'] + kana);
    assert(seq!['n'].len() == 1);
}

/// A character that starts no spelling comes out as it is when nothing is pending.
pub proof fn lemma_unknown_character(ch: char)
    requires
        !romaji_table::begins_spelling(seq![ch]),
        !romaji::is_symbol(ch),
    ensures
        romaji::fed(romaji::fresh(), ch) == (RomajiStep {
            confirmed: seq![ch],
            state: romaji::fresh(),
        }),
{
    let one = seq![ch];
    romaji_table::lemma_spelling(one);
    assert(Seq::<char>::empty().push(ch) =~= one);
    assert(one.drop_first() =~= Seq::<char>::empty());
    romaji_table::lemma_empty_start();
    assert(seq!['n', 'n'].len() == 2 && seq!['n'].len() == 1);
    assert(romaji::let_go(one, false) =~= one);
    assert(romaji::resolved(Seq::<char>::empty(), false).state == romaji::fresh());
    assert(one + Seq::<char>::empty() =~= one);
}

// ---------------------------------------------------------------------------
// Rows of the table
// ---------------------------------------------------------------------------

/// Nothing converts to nothing; the spelling of every row converts to its kana and,
/// unless it is `n`, leaves what follows it alone.
pub proof fn lemma_row_converts(i: int, rest: Seq<char>)
    requires
        0 <= i < romaji_table::ROMAJI_TABLE@.len(),
    ensures
        romaji::converted(Seq::empty()) == Seq::<char>::empty(),
        ({
            let key = romaji_table::ROMAJI_TABLE@[i].0@;
            let kana = romaji_table::ROMAJI_TABLE@[i].1@;
            &&& romaji::converted(key) == kana
            &&& key != seq!['n'] ==> romaji::converted(key + rest) == kana + romaji::converted(
                rest,
            )
        }),
{
    let key = romaji_table::ROMAJI_TABLE@[i].0@;
    romaji_table::lemma_rows();
    assert(romaji_table::kana_for(key) is Some);
    lemma_spelling_converts(key);
    if key != seq!['n'] {
        lemma_spelling_then_text(key, rest);
    }
    assert(romaji::fresh().pending != seq!['n']) by {
        assert(seq!['n'].len() == 1);
    }
    assert(romaji::converted(Seq::empty()) =~= Seq::<char>::empty());
}

/// Before the spelling of a row that starts with a consonant other than `n`, the
/// same consonant is `っ`; and unless that consonant is `y`, both `n` and `nn` are
/// one `ん`.
pub proof fn lemma_row_after_consonant(i: int)
    requires
        0 <= i < romaji_table::ROMAJI_TABLE@.len(),
        romaji_table::is_consonant_letter(romaji_table::ROMAJI_TABLE@[i].0@[0]),
        romaji_table::ROMAJI_TABLE@[i].0@[0] != 'n',
    ensures
        ({
            let key = romaji_table::ROMAJI_TABLE@[i].0@;
            let kana = romaji_table::ROMAJI_TABLE@[i].1@;
            &&& romaji::converted(seq![key[0]] + key) == seq!['っ'] + kana
            &&& key[0] != 'y' ==> romaji::converted(seq!['n'] + key) == seq!['ん'] + kana
            &&& key[0] != 'y' ==> romaji::converted(seq!['n', 'n'] + key) == seq!['ん'] + kana
        }),
{
    let key = romaji_table::ROMAJI_TABLE@[i].0@;
    romaji_table::lemma_rows();
    assert(romaji_table::kana_for(key) is Some);
    romaji_table::lemma_spelling(key);
    assert(key.len() > 1) by {
        assert(seq!['-'][0] == '-' && seq!['.'][0] == '.' && seq![','][0] == ',' && seq!['n'][0]
            == 'n');
        if key.len() == 1 {
            assert(key.last() == key[0]);
        }
    }
    lemma_double_consonant(key);
    if key[0] != 'y' {
        lemma_n_before_consonant(key);
        lemma_nn_before_consonant(key);
    }
}

// ---------------------------------------------------------------------------
// One keystroke
// ---------------------------------------------------------------------------

/// Whether some row of the table has the spelling `p`.
pub open spec fn is_row(p: Seq<char>) -> bool {
    exists|i: int|
        0 <= i < romaji_table::ROMAJI_TABLE@.len() && (#[trigger] romaji_table::ROMAJI_TABLE@[i]).0@
            == p
}

/// Whether the spelling of some row starts with `p`.
pub open spec fn starts_row(p: Seq<char>) -> bool {
    exists|i: int|
        0 <= i < romaji_table::ROMAJI_TABLE@.len() && p.len() <= (
        #[trigger] romaji_table::ROMAJI_TABLE@[i]).0@.len() && romaji_table::ROMAJI_TABLE@[i].0@.take(
            p.len() as int,
        ) == p
}

proof fn lemma_rows_of_spellings(p: Seq<char>)
    ensures
        romaji_table::kana_for(p) is Some <==> is_row(p),
        romaji_table::begins_spelling(p) <==> starts_row(p),
{
    romaji_table::lemma_rows();
    romaji_table::lemma_kana_is_listed(p);
    if is_row(p) {
        let i = choose|i: int|
            0 <= i < romaji_table::ROMAJI_TABLE@.len() && (
            #[trigger] romaji_table::ROMAJI_TABLE@[i]).0@ == p;
        assert(romaji_table::kana_for(romaji_table::ROMAJI_TABLE@[i].0@) is Some);
    }
    if romaji_table::begins_spelling(p) {
        let i = choose|i: int|
            0 <= i < romaji_table::ROMAJI_TABLE@.len() && p.is_prefix_of(
                #[trigger] romaji_table::ROMAJI_TABLE@[i].0@,
            );
        assert(romaji_table::ROMAJI_TABLE@[i].0@.take(p.len() as int) =~= p);
    }
    if starts_row(p) {
        let i = choose|i: int|
            0 <= i < romaji_table::ROMAJI_TABLE@.len() && p.len() <= (
            #[trigger] romaji_table::ROMAJI_TABLE@[i]).0@.len()
                && romaji_table::ROMAJI_TABLE@[i].0@.take(p.len() as int) == p;
        assert(p =~= romaji_table::ROMAJI_TABLE@[i].0@.subrange(0, p.len() as int));
        assert(p.is_prefix_of(romaji_table::ROMAJI_TABLE@[i].0@));
    }
}

/// A hyphen, a full stop and a comma come out at once as their Japanese forms, behind
/// the pending romaji as it stands.
pub proof fn lemma_symbol_key(state: RomajiState, ch: char)
    ensures
        ({
            let step = romaji::fed(state, ch);
            &&& ch == '-' ==> step.confirmed == state.pending.push('ー')
            &&& ch == '.' ==> step.confirmed == state.pending.push('。')
            &&& ch == ',' ==> step.confirmed == state.pending.push('、')
            &&& ch == '-' || ch == '.' || ch == ',' ==> step.state.pending.len() == 0
                && !step.state.nn
        }),
{
}

/// A letter that makes the pending romaji a row of the table confirms the kana of that
/// row, except for `n`, and leaves nothing pending.
pub proof fn lemma_completing_key(state: RomajiState, ch: char, i: int)
    requires
        ch != '-' && ch != '.' && ch != ',',
        0 <= i < romaji_table::ROMAJI_TABLE@.len(),
        romaji_table::ROMAJI_TABLE@[i].0@ == state.pending.push(ch),
        state.pending.push(ch) != seq!['n'],
    ensures
        ({
            let step = romaji::fed(state, ch);
            &&& step.confirmed == romaji_table::ROMAJI_TABLE@[i].1@
            &&& step.state.pending.len() == 0
            &&& !step.state.nn
        }),
{
    let p = state.pending.push(ch);
    romaji_table::lemma_rows();
    assert(romaji_table::kana_for(romaji_table::ROMAJI_TABLE@[i].0@) is Some);
    if p == seq!['n', 'n'] {
        assert(p[0] == p[1] && p.len() == 2);
        lemma_doubled_start(p);
    }
}

/// A letter that leads on to a row of the table, without being one, only joins the
/// pending romaji; and so does a first `n`.
pub proof fn lemma_waiting_key(state: RomajiState, ch: char)
    requires
        ch != '-' && ch != '.' && ch != ',',
        starts_row(state.pending.push(ch)),
        !is_row(state.pending.push(ch)) || state.pending.push(ch) == seq!['n'],
    ensures
        ({
            let step = romaji::fed(state, ch);
            &&& step.confirmed.len() == 0
            &&& step.state.pending == state.pending.push(ch)
            &&& step.state.nn == state.nn
        }),
{
    let p = state.pending.push(ch);
    lemma_rows_of_spellings(p);
    if p == seq!['n', 'n'] {
        assert(p[0] == p[1] && p.len() == 2);
        lemma_doubled_start(p);
    }
}

/// A second `n` confirms one `ん` and stays; a third takes its place as a first one.
pub proof fn lemma_second_n(state: RomajiState)
    requires
        state.pending == seq!['n'],
    ensures
        ({
            let step = romaji::fed(state, 'n');
            &&& step.confirmed == if state.nn {
                Seq::<char>::empty()
            } else {
                seq!['ん']
            }
            &&& step.state.pending == seq!['n']
            &&& step.state.nn == !state.nn
        }),
{
    assert(seq!['n'].push('n') =~= seq!['n', 'n']);
}

/// A letter with which the pending romaji leads to no row lets the first character go:
/// an `n` before another consonant is `ん`, unless that came out already, a consonant
/// before itself is `っ`, and anything else comes out as it is. What is left is taken as
/// if it were typed anew.
pub proof fn lemma_releasing_key(state: RomajiState, ch: char)
    requires
        live(state),
        ch != '-' && ch != '.' && ch != ',',
        !starts_row(state.pending.push(ch)),
        state.pending != seq!['n'] || ch != 'n',
    ensures
        ({
            let step = romaji::fed(state, ch);
            let p = state.pending.push(ch);
            let rest = romaji::fed_all(romaji::fresh(), p.skip(1));
            let consonant = |c: char|
                ('a' <= c <= 'z' || 'A' <= c <= 'Z') && c != 'a' && c != 'i' && c != 'u' && c != 'e'
                    && c != 'o';
            let first = if p.len() > 1 && p[0] == 'n' && consonant(p[1]) {
                if state.nn {
                    Seq::<char>::empty()
                } else {
                    seq!['ん']
                }
            } else if p.len() > 1 && p[0] == p[1] && consonant(p[0]) {
                seq!['っ']
            } else {
                seq![p[0]]
            };
            &&& step.confirmed == first + rest.confirmed
            &&& step.state == rest.state
        }),
{
    let p = state.pending.push(ch);
    lemma_rows_of_spellings(p);
    romaji_table::lemma_spelling(p);
    assert(p != seq!['n', 'n']) by {
        if p == seq!['n', 'n'] {
            assert(p.drop_last() =~= state.pending);
            assert(seq!['n', 'n'].drop_last() =~= seq!['n']);
            assert(p.last() == ch && seq!['n', 'n'].last() == 'n');
        }
    }
    assert(p != seq!['n']) by {
        if p == seq!['n'] {
            romaji_table::lemma_n();
            romaji_table::lemma_spelling(p);
        }
    }
    assert(p.drop_first() =~= p.skip(1));
    lemma_retyped(state, ch);
    if p.len() > 1 && p[0] == 'n' && p[1] == 'n' {
        lemma_n_is_alone(state);
        assert(state.pending[0] == p[0]);
        if state.pending.len() > 1 {
            assert(state.pending[1] == p[1]);
        } else {
            assert(state.pending =~= seq!['n']);
            assert(p[1] == ch);
        }
    }
}

/// No pending romaji starts with `nn`.
proof fn lemma_n_is_alone(state: RomajiState)
    requires
        live(state),
    ensures
        state.pending.len() > 1 ==> state.pending[0] != state.pending[1],
{
    if state.pending.len() > 1 && state.pending[0] == state.pending[1] {
        lemma_doubled_start(state.pending);
    }
}

/// What is left of the pending romaji without its first character is pending when it is
/// typed anew.
proof fn lemma_retyped(state: RomajiState, ch: char)
    requires
        live(state),
        !romaji::is_symbol(ch),
    ensures
        romaji::fed_all(romaji::fresh(), state.pending.push(ch).skip(1)) == romaji::resolved(
            state.pending.push(ch).drop_first(),
            false,
        ),
{
    let p = state.pending.push(ch);
    let q = p.skip(1);
    assert(p.drop_first() =~= q);
    let fresh = romaji::fresh();
    let none = Seq::<char>::empty();
    romaji_table::lemma_empty_start();
    assert(romaji::fed_all(fresh, none) == (RomajiStep { confirmed: none, state: fresh }));
    if state.pending.len() == 0 {
        assert(q =~= none);
        assert(none != seq!['n', 'n']) by {
            assert(seq!['n', 'n'].len() == 2);
        }
    } else {
        let t = state.pending.skip(1);
        assert(q.drop_last() =~= t);
        assert(q.last() == ch);
        assert(t.push(ch) =~= q);
        lemma_tail_pending(state);
        let step = romaji::fed(RomajiState { pending: t, nn: false }, ch);
        assert(none + step.confirmed =~= step.confirmed);
    }
}

proof fn lemma_tail_pending(state: RomajiState)
    requires
        live(state),
        state.pending.len() > 0,
    ensures
        romaji::fed_all(romaji::fresh(), state.pending.skip(1)) == (RomajiStep {
            confirmed: Seq::empty(),
            state: RomajiState { pending: state.pending.skip(1), nn: false },
        }),
{
    let t = state.pending.skip(1);
    let none = Seq::<char>::empty();
    let key = romaji_table::lemma_begins_spelling(state.pending);
    romaji_table::lemma_spelling(key);
    assert(state.pending =~= key.subrange(0, state.pending.len() as int));
    assert(seq!['-'].len() == 1 && seq!['.'].len() == 1 && seq![','].len() == 1 && seq!['n'].len()
        == 1);
    if t.len() == 0 {
        assert(t =~= none);
    } else {
        assert(state.pending.len() < key.len()) by {
            if state.pending.len() == key.len() {
                assert(state.pending =~= key);
                assert(key == seq!['n']);
            }
        }
        assert(key.len() > 2);
        romaji_table::lemma_second_letter(key[1]);
        lemma_wait_for_one(key[1]);
        assert(t[0] == key[1]);
        if t.len() == 1 {
            assert(t =~= seq![key[1]]);
        } else {
            assert(t[1] == key[2]);
            assert(t =~= seq!['t', 's']);
            assert(t.drop_last() =~= seq!['t']);
            assert(seq!['t'].push('s') =~= t);
            romaji_table::lemma_spelling(t);
            assert(t != seq!['n', 'n']) by {
                assert(seq!['n', 'n'][0] == 'n' && t[0] == 't');
            }
            assert(none + none =~= none);
        }
    }
}

proof fn lemma_wait_for_one(c: char)
    requires
        romaji_table::is_second_letter(c),
    ensures
        romaji::fed_all(romaji::fresh(), seq![c]) == (RomajiStep {
            confirmed: Seq::empty(),
            state: RomajiState { pending: seq![c], nn: false },
        }),
{
    let one = seq![c];
    let none = Seq::<char>::empty();
    romaji_table::lemma_second_letter(c);
    romaji_table::lemma_spelling(one);
    assert(seq!['-'][0] == '-' && seq!['.'][0] == '.' && seq![','][0] == ',' && seq!['n'][0]
        == 'n');
    assert(one[0] == c && one.last() == c && one.len() == 1);
    assert(one.drop_last() =~= none);
    assert(none.push(c) =~= one);
    assert(seq!['n', 'n'].len() == 2);
    assert(romaji::fed_all(romaji::fresh(), none).state == romaji::fresh());
    assert(none + none =~= none);
}

/// Typing one character is feeding it, and a whole text converts to what its typing
/// confirms and what the romaji that is left then stands for: `ん` for an `n` alone, or
/// nothing if it is the second of `nn`.
pub proof fn lemma_typed_and_converted(state: RomajiState, ch: char, text: Seq<char>)
    ensures
        romaji::fed_all(state, seq![ch]) == romaji::fed(state, ch),
        ({
            let all = romaji::fed_all(romaji::fresh(), text);
            romaji::converted(text) == all.confirmed + if all.state.pending == seq!['n'] {
                if all.state.nn {
                    Seq::<char>::empty()
                } else {
                    seq!['ん']
                }
            } else {
                all.state.pending
            }
        }),
{
    let one = seq![ch];
    assert(one.drop_last() =~= Seq::<char>::empty());
    assert(one.last() == ch);
    assert(romaji::fed_all(state, Seq::<char>::empty()).state == state);
    let step = romaji::fed(state, ch);
    assert(Seq::<char>::empty() + step.confirmed =~= step.confirmed);
}

/// Deleting takes away the last pending character and nothing else; the second of `nn`
/// is forgotten with the `n`.
pub proof fn lemma_deleted(state: RomajiState)
    ensures
        ({
            let after = romaji::backed(state);
            let n = state.pending.len();
            if n == 0 {
                after == state
            } else {
                &&& after.pending == state.pending.take(n - 1)
                &&& after.nn == (state.nn && n > 1)
            }
        }),
{
}

/// What a keystroke reports is what it did: the romaji that is pending, and the kana
/// that it confirmed, where there are any.
pub proof fn lemma_reported(out: RomajiOutput, step: RomajiStep)
    requires
        romaji::reports(out, step),
    ensures
        out.pending@ == step.state.pending,
        out.confirmed is Some <==> step.confirmed.len() > 0,
        out.confirmed matches Some(kana) ==> kana@ == step.confirmed,
{
}

} // verus!
