//! Hiragana and katakana.

use crate::text::{chars_of, string_of};
use vstd::prelude::*;

verus! {

/// Whether `c` is a hiragana that has a katakana of the same sound.
pub open spec fn has_katakana(c: char) -> bool {
    'ぁ' <= c <= 'ゖ' || c == 'ゝ' || c == 'ゞ'
}

/// The katakana of a hiragana; any other character as it is.
pub open spec fn katakana_char(c: char) -> char {
    if has_katakana(c) {
        (c as int + 0x60) as char
    } else {
        c
    }
}

/// A kana text in katakana.
pub open spec fn katakana(s: Seq<char>) -> Seq<char> {
    s.map_values(|c: char| katakana_char(c))
}

fn katakana_of(c: char) -> (k: char)
    ensures
        k == katakana_char(c),
{
    if ('ぁ' <= c && c <= 'ゖ') || c == 'ゝ' || c == 'ゞ' {
        match char::from_u32(c as u32 + 0x60) {
            Some(k) => k,
            None => c,
        }
    } else {
        c
    }
}

/// Writes a kana text in katakana.
pub fn to_katakana(s: &str) -> (k: String)
    ensures
        k@ == katakana(s@),
{
    let chars = chars_of(s);
    let mut out: Vec<char> = Vec::new();
    for i in 0..chars.len()
        invariant
            chars@ == s@,
            out@ == katakana(s@).take(i as int),
    {
        out.push(katakana_of(chars[i]));
        assert(out@ =~= katakana(s@).take(i + 1));
    }
    assert(katakana(s@).take(s@.len() as int) =~= katakana(s@));
    string_of(out.as_slice())
}

} // verus!
