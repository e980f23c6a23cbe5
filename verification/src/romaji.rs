//! Romaji-to-kana conversion.
//!
//! [`RomajiConverter`] takes one character at a time. It keeps the romaji that
//! may still grow into a spelling and hands out kana as soon as they are certain.

use crate::romaji_table;
use crate::romaji_table::{is_consonant, is_valid_prefix, lookup};
use crate::text::{chars_of, copy_of, string_of};
use vstd::prelude::*;
use vstd::string::StringExecFns;

verus! {

/// Output produced by a single [`RomajiConverter::feed`] call.
///
/// After each keystroke the caller should append `confirmed` (if `Some`) to the
/// running kana string and replace the displayed romaji suffix with `pending`.
#[derive(Debug, PartialEq, Eq)]
pub struct RomajiOutput {
    /// Kana that has been fully resolved. `None` when the keystroke only
    /// extended the pending buffer.
    pub confirmed: Option<String>,
    /// Romaji characters still waiting for more input. May be empty.
    pub pending: String,
}

impl Clone for RomajiOutput {
    fn clone(&self) -> (out: Self)
        ensures
            out.pending@ == self.pending@,
            match self.confirmed {
                Some(kana) => out.confirmed matches Some(k) && k@ == kana@,
                None => out.confirmed is None,
            },
    {
        RomajiOutput {
            confirmed: match &self.confirmed {
                Some(kana) => Some(kana.clone()),
                None => None,
            },
            pending: self.pending.clone(),
        }
    }
}

/// What a converter holds between keystrokes.
pub struct RomajiState {
    /// The romaji still waiting for more input.
    pub pending: Seq<char>,
    /// Whether the `n` at the start of `pending` is the second of `nn`, whose
    /// `ん` has been handed out already.
    pub nn: bool,
}

/// What one keystroke yields: the kana handed out and the state it leaves.
pub struct RomajiStep {
    pub confirmed: Seq<char>,
    pub state: RomajiState,
}

// ---------------------------------------------------------------------------
// The rules
// ---------------------------------------------------------------------------

/// The state with nothing typed.
pub open spec fn fresh() -> RomajiState {
    RomajiState { pending: Seq::empty(), nn: false }
}

/// What becomes of the first character of romaji that starts no spelling:
/// an `n` before another consonant is `ん` (unless that `ん` was handed out
/// already), a doubled consonant is `っ`, and anything else stands as it is.
pub open spec fn let_go(pending: Seq<char>, nn: bool) -> Seq<char> {
    if pending.len() > 1 && pending[0] == 'n' && pending[1] != 'n'
        && romaji_table::is_consonant_letter(pending[1]) {
        if nn {
            Seq::empty()
        } else {
            seq!['ん']
        }
    } else if pending.len() > 1 && pending[0] == pending[1] && pending[0] != 'n'
        && romaji_table::is_consonant_letter(pending[0]) {
        seq!['っ']
    } else {
        seq![pending[0]]
    }
}

/// Resolves pending romaji as far as possible.
pub open spec fn resolved(pending: Seq<char>, nn: bool) -> RomajiStep
    decreases pending.len(),
{
    if pending == seq!['n', 'n'] {
        // The second `n` stays, as it may start a syllable of its own.
        RomajiStep {
            confirmed: if nn {
                Seq::empty()
            } else {
                seq!['ん']
            },
            state: RomajiState { pending: seq!['n'], nn: !nn },
        }
    } else if romaji_table::kana_for(pending) is Some && pending != seq!['n'] {
        RomajiStep { confirmed: romaji_table::kana_for(pending)->0, state: fresh() }
    } else if pending.len() == 0 || romaji_table::begins_spelling(pending) {
        RomajiStep { confirmed: Seq::empty(), state: RomajiState { pending, nn } }
    } else {
        let rest = resolved(pending.drop_first(), false);
        RomajiStep { confirmed: let_go(pending, nn) + rest.confirmed, state: rest.state }
    }
}

/// Whether `ch` is one of the symbols that are confirmed at once.
pub open spec fn is_symbol(ch: char) -> bool {
    ch == '-' || ch == '.' || ch == ','
}

/// The Japanese form of a symbol.
pub open spec fn symbol_kana(ch: char) -> char {
    if ch == '-' {
        'ー'
    } else if ch == '.' {
        '。'
    } else {
        '、'
    }
}

/// Typing `ch`: a symbol is confirmed at once after the pending romaji as it
/// stands; any other character joins the pending romaji, which is resolved.
pub open spec fn fed(state: RomajiState, ch: char) -> RomajiStep {
    if is_symbol(ch) {
        RomajiStep { confirmed: state.pending.push(symbol_kana(ch)), state: fresh() }
    } else {
        resolved(state.pending.push(ch), state.nn)
    }
}

/// Deleting the last pending character.
pub open spec fn backed(state: RomajiState) -> RomajiState {
    if state.pending.len() == 0 {
        state
    } else {
        RomajiState {
            pending: state.pending.drop_last(),
            nn: state.nn && state.pending.len() > 1,
        }
    }
}

/// What the pending romaji stands for at the end of input: an `n` is `ん`,
/// unless it is the second of `nn`; anything else stands as it is.
pub open spec fn flushed(state: RomajiState) -> Seq<char> {
    if state.pending == seq!['n'] {
        if state.nn {
            Seq::empty()
        } else {
            seq!['ん']
        }
    } else {
        state.pending
    }
}

/// Typing all of `romaji`, one character after the other.
pub open spec fn fed_all(state: RomajiState, romaji: Seq<char>) -> RomajiStep
    decreases romaji.len(),
{
    if romaji.len() == 0 {
        RomajiStep { confirmed: Seq::empty(), state }
    } else {
        let before = fed_all(state, romaji.drop_last());
        let step = fed(before.state, romaji.last());
        RomajiStep { confirmed: before.confirmed + step.confirmed, state: step.state }
    }
}

/// The kana for a whole romaji text.
pub open spec fn converted(romaji: Seq<char>) -> Seq<char> {
    let all = fed_all(fresh(), romaji);
    all.confirmed + flushed(all.state)
}

// ---------------------------------------------------------------------------
// The converter
// ---------------------------------------------------------------------------

/// Stateful romaji-to-kana converter.
#[derive(Debug)]
pub struct RomajiConverter {
    /// Romaji characters typed so far that have not yet resolved to kana.
    pending: String,
    /// `true` when the pending `"n"` is the second of an `"nn"` sequence. At the
    /// end of input this `"n"` yields nothing, because the first `ん` already
    /// accounts for the double n.
    nn_pending: bool,
}

impl View for RomajiConverter {
    type V = RomajiState;

    closed spec fn view(&self) -> RomajiState {
        RomajiState { pending: self.pending@, nn: self.nn_pending }
    }
}

impl Clone for RomajiConverter {
    fn clone(&self) -> (c: Self)
        ensures
            c@ == self@,
    {
        RomajiConverter { pending: self.pending.clone(), nn_pending: self.nn_pending }
    }
}

/// Whether `out` reports `step`.
pub open spec fn reports(out: RomajiOutput, step: RomajiStep) -> bool {
    &&& out.pending@ == step.state.pending
    &&& match out.confirmed {
        Some(kana) => kana@ == step.confirmed && kana@.len() > 0,
        None => step.confirmed.len() == 0,
    }
}

impl RomajiConverter {
    /// Creates a new converter with an empty pending buffer.
    pub fn new() -> (c: Self)
        ensures
            c@ == fresh(),
    {
        let c = RomajiConverter { pending: String::new(), nn_pending: false };
        assert(c@.pending =~= Seq::<char>::empty());
        c
    }

    /// Returns the current pending romaji.
    pub fn pending(&self) -> (p: &str)
        ensures
            p@ == self@.pending,
    {
        self.pending.as_str()
    }

    /// Returns `true` if the pending `"n"` is the second of an `"nn"` sequence
    /// and yields nothing at the end of input.
    pub fn is_nn_pending(&self) -> (nn: bool)
        ensures
            nn == self@.nn,
    {
        self.nn_pending
    }

    /// Clears all internal state.
    pub fn reset(&mut self)
        ensures
            final(self)@ == fresh(),
    {
        self.pending = String::new();
        self.nn_pending = false;
        assert(self@.pending =~= Seq::<char>::empty());
    }

    /// Removes the last character from the pending buffer.
    ///
    /// Returns a [`RomajiOutput`] with `confirmed = None` and `pending` equal to
    /// the buffer after deletion.
    pub fn backspace(&mut self) -> (out: RomajiOutput)
        ensures
            final(self)@ == backed(old(self)@),
            out.confirmed is None,
            out.pending@ == final(self)@.pending,
    {
        let mut chars = chars_of(self.pending.as_str());
        if chars.len() > 0 {
            if chars.len() == 1 {
                self.nn_pending = false;
            }
            let _ = chars.pop();
            self.pending = string_of(chars.as_slice());
            assert(self@.pending =~= old(self)@.pending.drop_last());
        }
        RomajiOutput { confirmed: None, pending: self.pending.clone() }
    }

    /// Feeds one character into the converter and returns the resulting output.
    pub fn feed(&mut self, ch: char) -> (out: RomajiOutput)
        ensures
            final(self)@ == fed(old(self)@, ch).state,
            reports(out, fed(old(self)@, ch)),
    {
        if ch == '-' || ch == '.' || ch == ',' {
            let mut confirmed = self.pending.clone();
            let symbol = match ch {
                '-' => 'ー',
                '.' => '。',
                _ => '、',
            };
            confirmed.push(symbol);
            self.reset();
            return RomajiOutput { confirmed: Some(confirmed), pending: String::new() };
        }
        self.pending.push(ch);
        self.resolve()
    }

    /// Resolves the pending buffer as far as possible.
    fn resolve(&mut self) -> (out: RomajiOutput)
        ensures
            final(self)@ == resolved(old(self)@.pending, old(self)@.nn).state,
            reports(out, resolved(old(self)@.pending, old(self)@.nn)),
    {
        let mut confirmed = String::new();
        let mut pending = chars_of(self.pending.as_str());
        let mut nn = self.nn_pending;
        let ghost whole = resolved(pending@, nn);
        assert(confirmed@ + whole.confirmed =~= whole.confirmed);
        loop
            invariant_except_break
                whole == resolved(old(self)@.pending, old(self)@.nn),
                whole.confirmed == confirmed@ + resolved(pending@, nn).confirmed,
                whole.state == resolved(pending@, nn).state,
            ensures
                whole == resolved(old(self)@.pending, old(self)@.nn),
                whole.confirmed == confirmed@,
                whole.state == (RomajiState { pending: pending@, nn }),
            decreases pending@.len(),
        {
            let ghost here = resolved(pending@, nn);
            if pending.len() == 2 && pending[0] == 'n' && pending[1] == 'n' {
                assert(pending@ =~= seq!['n', 'n']);
                if !nn {
                    confirmed.push('ん');
                }
                assert(confirmed@ =~= whole.confirmed);
                let _ = pending.pop();
                assert(pending@ =~= seq!['n']);
                nn = !nn;
                break;
            }
            assert(pending@ != seq!['n', 'n']) by {
                if pending@ == seq!['n', 'n'] {
                    assert(pending@[0] == 'n' && pending@[1] == 'n');
                }
            }
            let only_n = pending.len() == 1 && pending[0] == 'n';
            assert(only_n == (pending@ == seq!['n'])) by {
                if only_n {
                    assert(pending@ =~= seq!['n']);
                }
            }
            if let Some(kana) = lookup(pending.as_slice()) {
                if !only_n {
                    confirmed.append(kana);
                    pending.clear();
                    nn = false;
                    assert(pending@ =~= Seq::<char>::empty());
                    break;
                }
            }
            if pending.len() == 0 || is_valid_prefix(pending.as_slice()) {
                assert(confirmed@ =~= whole.confirmed);
                break;
            }
            let first = pending[0];
            let ghost gone = let_go(pending@, nn);
            let ghost so_far = confirmed@;
            if pending.len() > 1 && first == 'n' && pending[1] != 'n' && is_consonant(pending[1]) {
                if !nn {
                    confirmed.push('ん');
                }
            } else if pending.len() > 1 && first == pending[1] && first != 'n' && is_consonant(
                first,
            ) {
                confirmed.push('っ');
            } else {
                confirmed.push(first);
            }
            assert(confirmed@ =~= so_far + gone);
            let ghost rest = pending@.drop_first();
            pending = copy_of(&pending.as_slice()[1..pending.len()]);
            assert(pending@ =~= rest);
            nn = false;
            assert(so_far + here.confirmed =~= confirmed@ + resolved(rest, false).confirmed);
        }
        self.pending = string_of(pending.as_slice());
        self.nn_pending = nn;
        let handed = if confirmed.as_str().is_empty() {
            None
        } else {
            Some(confirmed)
        };
        RomajiOutput { confirmed: handed, pending: self.pending.clone() }
    }
}

impl Default for RomajiConverter {
    fn default() -> (c: Self)
        ensures
            c@ == fresh(),
    {
        Self::new()
    }
}

/// Converts a complete romaji text to hiragana.
pub fn convert(romaji: &str) -> (kana: String)
    ensures
        kana@ == converted(romaji@),
{
    let mut conv = RomajiConverter::new();
    let mut result = String::new();
    let chars = chars_of(romaji);
    assert(chars@.take(0) =~= Seq::<char>::empty());
    for i in 0..chars.len()
        invariant
            chars@ == romaji@,
            result@ == fed_all(fresh(), chars@.take(i as int)).confirmed,
            conv@ == fed_all(fresh(), chars@.take(i as int)).state,
    {
        let ghost head = chars@.take(i + 1);
        assert(head.drop_last() =~= chars@.take(i as int));
        assert(head.last() == chars@[i as int]);
        let out = conv.feed(chars[i]);
        if let Some(kana) = out.confirmed {
            result.append(kana.as_str());
        } else {
            assert(fed_all(fresh(), head).confirmed =~= result@);
        }
    }
    assert(chars@.take(chars@.len() as int) =~= romaji@);
    flush_into(&conv, &mut result);
    result
}

/// Appends to `kana` what the pending romaji of `conv` stands for.
pub fn flush_into(conv: &RomajiConverter, kana: &mut String)
    ensures
        final(kana)@ == old(kana)@ + flushed(conv@),
{
    let pending = chars_of(conv.pending());
    if pending.len() == 1 && pending[0] == 'n' {
        assert(pending@ =~= seq!['n']);
        if !conv.is_nn_pending() {
            kana.push('ん');
            assert(kana@ =~= old(kana)@ + seq!['ん']);
        } else {
            assert(kana@ =~= old(kana)@ + Seq::<char>::empty());
        }
    } else {
        assert(pending@ != seq!['n']) by {
            if pending@ == seq!['n'] {
                assert(pending@[0] == 'n' && pending@.len() == 1);
            }
        }
        kana.append(conv.pending());
    }
}

} // verus!
