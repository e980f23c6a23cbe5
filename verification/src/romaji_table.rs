//! The romaji spellings of kana.

use crate::text::{chars_of, same_chars};
use vstd::prelude::*;

verus! {

/// The romaji spellings and their kana.
pub const ROMAJI_TABLE: [(&'static str, &'static str); 192] = [
    // Special symbols
    ("-", "ー"),
    (".", "。"),
    (",", "、"),
    // Vowels
    ("a", "あ"),
    ("i", "い"),
    ("u", "う"),
    ("e", "え"),
    ("o", "お"),
    // K-row
    ("ka", "か"),
    ("ki", "き"),
    ("ku", "く"),
    ("ke", "け"),
    ("ko", "こ"),
    // KY-combo
    ("kya", "きゃ"),
    ("kyi", "きぃ"),
    ("kyu", "きゅ"),
    ("kye", "きぇ"),
    ("kyo", "きょ"),
    // S-row
    ("sa", "さ"),
    ("si", "し"),
    ("su", "す"),
    ("se", "せ"),
    ("so", "そ"),
    // SY-combo
    ("sya", "しゃ"),
    ("syi", "しぃ"),
    ("syu", "しゅ"),
    ("sye", "しぇ"),
    ("syo", "しょ"),
    // SH-combo
    ("sha", "しゃ"),
    ("shi", "し"),
    ("shu", "しゅ"),
    ("she", "しぇ"),
    ("sho", "しょ"),
    // T-row
    ("ta", "た"),
    ("ti", "ち"),
    ("chi", "ち"),
    ("tsu", "つ"),
    ("tu", "つ"),
    ("te", "て"),
    ("to", "と"),
    // TY-combo
    ("tya", "ちゃ"),
    ("tyi", "ちぃ"),
    ("tyu", "ちゅ"),
    ("tye", "ちぇ"),
    ("tyo", "ちょ"),
    // CY-combo
    ("cya", "ちゃ"),
    ("cyi", "ちぃ"),
    ("cyu", "ちゅ"),
    ("cye", "ちぇ"),
    ("cyo", "ちょ"),
    // CH-combo
    ("cha", "ちゃ"),
    ("chi", "ち"),
    ("chu", "ちゅ"),
    ("che", "ちぇ"),
    ("cho", "ちょ"),
    // N-row
    ("na", "な"),
    ("ni", "に"),
    ("nu", "ぬ"),
    ("ne", "ね"),
    ("no", "の"),
    // NY-combo
    ("nya", "にゃ"),
    ("nyi", "にぃ"),
    ("nyu", "にゅ"),
    ("nye", "にぇ"),
    ("nyo", "にょ"),
    // H-row
    ("ha", "は"),
    ("hi", "ひ"),
    ("hu", "ふ"),
    ("fu", "ふ"),
    ("he", "へ"),
    ("ho", "ほ"),
    // HY-combo
    ("hya", "ひゃ"),
    ("hyi", "ひぃ"),
    ("hyu", "ひゅ"),
    ("hye", "ひぇ"),
    ("hyo", "ひょ"),
    // M-row
    ("ma", "ま"),
    ("mi", "み"),
    ("mu", "む"),
    ("me", "め"),
    ("mo", "も"),
    // MY-combo
    ("mya", "みゃ"),
    ("myi", "みぃ"),
    ("myu", "みゅ"),
    ("mye", "みぇ"),
    ("myo", "みょ"),
    // Y-row
    ("ya", "や"),
    ("yu", "ゆ"),
    ("yo", "よ"),
    // R-row
    ("ra", "ら"),
    ("ri", "り"),
    ("ru", "る"),
    ("re", "れ"),
    ("ro", "ろ"),
    // RY-combo
    ("rya", "りゃ"),
    ("ryi", "りぃ"),
    ("ryu", "りゅ"),
    ("rye", "りぇ"),
    ("ryo", "りょ"),
    // W-row
    ("wa", "わ"),
    ("wi", "ゐ"),
    ("we", "ゑ"),
    ("wo", "を"),
    // G-row
    ("ga", "が"),
    ("gi", "ぎ"),
    ("gu", "ぐ"),
    ("ge", "げ"),
    ("go", "ご"),
    // GY-combo
    ("gya", "ぎゃ"),
    ("gyi", "ぎぃ"),
    ("gyu", "ぎゅ"),
    ("gye", "ぎぇ"),
    ("gyo", "ぎょ"),
    // Z-row
    ("za", "ざ"),
    ("zi", "じ"),
    ("ji", "じ"),
    ("zu", "ず"),
    ("ze", "ぜ"),
    ("zo", "ぞ"),
    // JY/ZY-combo
    ("ja", "じゃ"),
    ("ji", "じ"),
    ("ju", "じゅ"),
    ("je", "じぇ"),
    ("jo", "じょ"),
    ("jya", "じゃ"),
    ("jyi", "じぃ"),
    ("jyu", "じゅ"),
    ("jye", "じぇ"),
    ("jyo", "じょ"),
    ("zya", "じゃ"),
    ("zyi", "じぃ"),
    ("zyu", "じゅ"),
    ("zye", "じぇ"),
    ("zyo", "じょ"),
    // DY-combo
    ("dya", "ぢゃ"),
    ("dyi", "ぢぃ"),
    ("dyu", "ぢゅ"),
    ("dye", "ぢぇ"),
    ("dyo", "ぢょ"),
    // D-row
    ("da", "だ"),
    ("di", "ぢ"),
    ("du", "づ"),
    ("dzu", "づ"),
    ("de", "で"),
    ("do", "ど"),
    // B-row
    ("ba", "ば"),
    ("bi", "び"),
    ("bu", "ぶ"),
    ("be", "べ"),
    ("bo", "ぼ"),
    // BY-combo
    ("bya", "びゃ"),
    ("byi", "びぃ"),
    ("byu", "びゅ"),
    ("bye", "びぇ"),
    ("byo", "びょ"),
    // P-row
    ("pa", "ぱ"),
    ("pi", "ぴ"),
    ("pu", "ぷ"),
    ("pe", "ぺ"),
    ("po", "ぽ"),
    // PY-combo
    ("pya", "ぴゃ"),
    ("pyi", "ぴぃ"),
    ("pyu", "ぴゅ"),
    ("pye", "ぴぇ"),
    ("pyo", "ぴょ"),
    // Small kana (x-prefix)
    ("xa", "ぁ"),
    ("xi", "ぃ"),
    ("xu", "ぅ"),
    ("xe", "ぇ"),
    ("xo", "ぉ"),
    ("xtu", "っ"),
    ("xtsu", "っ"),
    ("xya", "ゃ"),
    ("xyu", "ゅ"),
    ("xyo", "ょ"),
    ("xwa", "ゎ"),
    ("xka", "ゕ"),
    ("xke", "ゖ"),
    // Small kana (l-prefix, alias for x-prefix)
    ("la", "ぁ"),
    ("li", "ぃ"),
    ("lu", "ぅ"),
    ("le", "ぇ"),
    ("lo", "ぉ"),
    ("ltu", "っ"),
    ("ltsu", "っ"),
    ("lya", "ゃ"),
    ("lyu", "ゅ"),
    ("lyo", "ょ"),
    ("lwa", "ゎ"),
    ("lka", "ゕ"),
    ("lke", "ゖ"),
    // ん (standalone, must be last so more-specific rules win)
    ("n", "ん"),
];

// ---------------------------------------------------------------------------
// The table
// ---------------------------------------------------------------------------

/// The kana of the first entry from position `i` on whose spelling is `romaji`.
pub open spec fn kana_from(romaji: Seq<char>, i: int) -> Option<Seq<char>>
    decreases ROMAJI_TABLE@.len() - i,
{
    if i < 0 || i >= ROMAJI_TABLE@.len() {
        None
    } else if ROMAJI_TABLE@[i].0@ == romaji {
        Some(ROMAJI_TABLE@[i].1@)
    } else {
        kana_from(romaji, i + 1)
    }
}

/// The kana that the spelling `romaji` stands for.
pub open spec fn kana_for(romaji: Seq<char>) -> Option<Seq<char>> {
    kana_from(romaji, 0)
}

/// Whether some spelling of the table starts with `prefix`.
pub open spec fn begins_spelling(prefix: Seq<char>) -> bool {
    exists|i: int|
        0 <= i < ROMAJI_TABLE@.len() && prefix.is_prefix_of(#[trigger] ROMAJI_TABLE@[i].0@)
}

/// Whether `c` is a lower-case vowel.
pub open spec fn is_vowel(c: char) -> bool {
    c == 'a' || c == 'i' || c == 'u' || c == 'e' || c == 'o'
}

/// Whether `c` is an ASCII letter other than a lower-case vowel.
pub open spec fn is_consonant_letter(c: char) -> bool {
    ('a' <= c <= 'z' || 'A' <= c <= 'Z') && !is_vowel(c)
}

/// Returns the kana for a complete spelling, or `None`.
pub fn lookup(romaji: &[char]) -> (kana: Option<&'static str>)
    ensures
        (match kana {
            Some(k) => kana_for(romaji@) == Some(k@),
            None => kana_for(romaji@) is None,
        }),
{
    let mut i: usize = 0;
    while i < ROMAJI_TABLE.len()
        invariant
            i <= ROMAJI_TABLE@.len(),
            kana_for(romaji@) == kana_from(romaji@, i as int),
        decreases ROMAJI_TABLE@.len() - i,
    {
        let key = chars_of(ROMAJI_TABLE[i].0);
        if same_chars(key.as_slice(), romaji) {
            return Some(ROMAJI_TABLE[i].1);
        }
        i = i + 1;
    }
    None
}

/// Whether `prefix` is the start of `s`.
fn starts_with(s: &[char], prefix: &[char]) -> (yes: bool)
    ensures
        yes == prefix@.is_prefix_of(s@),
{
    if prefix.len() > s.len() {
        return false;
    }
    let head = &s[0..prefix.len()];
    assert(head@ =~= s@.subrange(0, prefix@.len() as int));
    same_chars(head, prefix)
}

/// Returns `true` if `prefix` is the start of at least one spelling.
pub fn is_valid_prefix(prefix: &[char]) -> (yes: bool)
    ensures
        yes == begins_spelling(prefix@),
{
    let mut i: usize = 0;
    while i < ROMAJI_TABLE.len()
        invariant
            i <= ROMAJI_TABLE@.len(),
            forall|k: int|
                0 <= k < i ==> !prefix@.is_prefix_of(#[trigger] ROMAJI_TABLE@[k].0@),
        decreases ROMAJI_TABLE@.len() - i,
    {
        let key = chars_of(ROMAJI_TABLE[i].0);
        if starts_with(key.as_slice(), prefix) {
            assert(prefix@.is_prefix_of(ROMAJI_TABLE@[i as int].0@));
            return true;
        }
        i = i + 1;
    }
    false
}

/// Returns `true` if `ch` is an ASCII letter that is not a lower-case vowel.
pub fn is_consonant(ch: char) -> (yes: bool)
    ensures
        yes == is_consonant_letter(ch),
{
    let letter = ('a' <= ch && ch <= 'z') || ('A' <= ch && ch <= 'Z');
    let vowel = ch == 'a' || ch == 'i' || ch == 'u' || ch == 'e' || ch == 'o';
    letter && !vowel
}

/// Whether `c` can be the second of three or more letters of a spelling.
pub open spec fn is_second_letter(c: char) -> bool {
    c == 'y' || c == 'h' || c == 's' || c == 'z' || c == 't' || c == 'w' || c == 'k'
}

/// What is known of every entry: a spelling is one of the single characters
/// `-`, `.`, `,`, `n`, or it is made of lower-case letters with exactly one
/// vowel, at the end, does not double its first letter, has a vowel or `y` after an
/// `n` at its start, and what stands between its first letter and its vowel starts a
/// spelling too.
pub open spec fn well_spelled(key: Seq<char>, kana: Seq<char>) -> bool {
    ||| key == seq!['-'] && kana == seq!['ー']
    ||| key == seq!['.'] && kana == seq!['。']
    ||| key == seq![','] && kana == seq!['、']
    ||| key == seq!['n'] && kana == seq!['ん']
    ||| {
        &&& key.len() > 0
        &&& is_vowel(key.last())
        &&& forall|k: int|
            0 <= k < key.len() - 1 ==> 'a' <= #[trigger] key[k] <= 'z' && !is_vowel(key[k])
        &&& key.len() > 1 ==> key[0] != key[1]
        &&& key.len() > 1 && key[0] == 'n' ==> is_vowel(key[1]) || key[1] == 'y'
        &&& key.len() <= 4
        &&& key.len() > 2 ==> is_second_letter(key[1])
        &&& key.len() > 3 ==> key[1] == 't' && key[2] == 's'
    }
}

/// The place of a vowel in the order of the kana rows.
spec fn vowel_place(c: char) -> int {
    if c == 'a' {
        0
    } else if c == 'i' {
        1
    } else if c == 'u' {
        2
    } else if c == 'e' {
        3
    } else {
        4
    }
}

/// Where a spelling of one character stands in the table.
spec fn place_of_one(c: char) -> int {
    if c == '-' {
        0
    } else if c == '.' {
        1
    } else if c == ',' {
        2
    } else if c == 'n' {
        191
    } else {
        3 + vowel_place(c)
    }
}

/// Where a spelling of a consonant and the vowel of place `v` stands in the table.
spec fn place_of_two(c: char, v: int) -> int {
    if c == 'k' {
        8 + v
    } else if c == 's' {
        18 + v
    } else if c == 't' {
        33 + v + if v >= 2 {
            2int
        } else {
            0
        }
    } else if c == 'n' {
        55 + v
    } else if c == 'h' {
        65 + v + if v >= 3 {
            1int
        } else {
            0
        }
    } else if c == 'f' {
        68
    } else if c == 'm' {
        76 + v
    } else if c == 'y' {
        86 + v / 2
    } else if c == 'r' {
        89 + v
    } else if c == 'w' {
        99 + v - if v >= 3 {
            1int
        } else {
            0
        }
    } else if c == 'g' {
        103 + v
    } else if c == 'z' {
        113 + v + if v >= 2 {
            1int
        } else {
            0
        }
    } else if c == 'j' {
        119 + v
    } else if c == 'd' {
        139 + v + if v >= 3 {
            1int
        } else {
            0
        }
    } else if c == 'b' {
        145 + v
    } else if c == 'p' {
        155 + v
    } else if c == 'x' {
        165 + v
    } else {
        178 + v
    }
}

/// Where a spelling of a consonant, `y` and the vowel of place `v` stands in the
/// table.
spec fn place_with_y(c: char, v: int) -> int {
    if c == 'k' {
        13 + v
    } else if c == 's' {
        23 + v
    } else if c == 't' {
        40 + v
    } else if c == 'c' {
        45 + v
    } else if c == 'n' {
        60 + v
    } else if c == 'h' {
        71 + v
    } else if c == 'm' {
        81 + v
    } else if c == 'r' {
        94 + v
    } else if c == 'g' {
        108 + v
    } else if c == 'j' {
        124 + v
    } else if c == 'z' {
        129 + v
    } else if c == 'd' {
        134 + v
    } else if c == 'b' {
        150 + v
    } else if c == 'p' {
        160 + v
    } else if c == 'x' {
        172 + v / 2
    } else {
        185 + v / 2
    }
}

/// Where a spelling of two other consonants and the vowel of place `v` stands in
/// the table.
spec fn place_of_three(c: char, d: char, v: int) -> int {
    if c == 's' {
        28 + v
    } else if c == 't' {
        36
    } else if c == 'c' {
        50 + v
    } else if c == 'd' {
        142
    } else {
        (if c == 'x' {
            170int
        } else {
            183
        }) + if d == 't' {
            0int
        } else if d == 'w' {
            5
        } else if v == 0 {
            6
        } else {
            7
        }
    }
}

/// Where a spelling stands in the table, by its letters.
spec fn place(key: Seq<char>) -> int {
    let v = vowel_place(key.last());
    if key.len() == 1 {
        place_of_one(key[0])
    } else if key.len() == 2 {
        place_of_two(key[0], v)
    } else if key.len() == 3 {
        if key[1] == 'y' {
            place_with_y(key[0], v)
        } else {
            place_of_three(key[0], key[1], v)
        }
    } else if key[0] == 'x' {
        171
    } else {
        184
    }
}

/// Whether every row from `i` on is well spelled and has the kana of the row where
/// its spelling stands.
spec fn well_spelled_from(i: int) -> bool
    decreases ROMAJI_TABLE@.len() - i,
{
    i < 0 || i >= ROMAJI_TABLE@.len() || (well_spelled(
        ROMAJI_TABLE@[i].0@,
        ROMAJI_TABLE@[i].1@,
    ) && ROMAJI_TABLE@[place(ROMAJI_TABLE@[i].0@)].1@ == ROMAJI_TABLE@[i].1@ && well_spelled_from(
        i + 1,
    ))
}

proof fn lemma_table_from_0()
    requires
        well_spelled_from(24),
    ensures
        well_spelled_from(0),
{
    reveal_strlit("-");
    reveal_strlit("ー");
    assert("-"@ =~= seq!['-']);
    assert("ー"@ =~= seq!['ー']);
    reveal_strlit(".");
    reveal_strlit("。");
    assert("."@ =~= seq!['.']);
    assert("。"@ =~= seq!['。']);
    reveal_strlit(",");
    reveal_strlit("、");
    assert(","@ =~= seq![',']);
    assert("、"@ =~= seq!['、']);
    reveal_strlit("a");
    reveal_strlit("i");
    reveal_strlit("u");
    reveal_strlit("e");
    reveal_strlit("o");
    reveal_strlit("ka");
    reveal_strlit("ki");
    reveal_strlit("ku");
    reveal_strlit("ke");
    reveal_strlit("ko");
    reveal_strlit("kya");
    reveal_strlit("kyi");
    reveal_strlit("kyu");
    reveal_strlit("kye");
    reveal_strlit("kyo");
    reveal_strlit("sa");
    reveal_strlit("si");
    reveal_strlit("su");
    reveal_strlit("se");
    reveal_strlit("so");
    reveal_strlit("sya");
    reveal_with_fuel(well_spelled_from, 25);
}

proof fn lemma_table_from_24()
    requires
        well_spelled_from(48),
    ensures
        well_spelled_from(24),
{
    reveal_strlit("syi");
    reveal_strlit("syu");
    reveal_strlit("sye");
    reveal_strlit("syo");
    reveal_strlit("sha");
    reveal_strlit("shi");
    reveal_strlit("shu");
    reveal_strlit("she");
    reveal_strlit("sho");
    reveal_strlit("ta");
    reveal_strlit("ti");
    reveal_strlit("chi");
    reveal_strlit("tsu");
    reveal_strlit("tu");
    reveal_strlit("te");
    reveal_strlit("to");
    reveal_strlit("tya");
    reveal_strlit("tyi");
    reveal_strlit("tyu");
    reveal_strlit("tye");
    reveal_strlit("tyo");
    reveal_strlit("cya");
    reveal_strlit("cyi");
    reveal_strlit("cyu");
    reveal_with_fuel(well_spelled_from, 25);
}

proof fn lemma_table_from_48()
    requires
        well_spelled_from(72),
    ensures
        well_spelled_from(48),
{
    reveal_strlit("cye");
    reveal_strlit("cyo");
    reveal_strlit("cha");
    reveal_strlit("chi");
    reveal_strlit("chu");
    reveal_strlit("che");
    reveal_strlit("cho");
    reveal_strlit("na");
    reveal_strlit("ni");
    reveal_strlit("nu");
    reveal_strlit("ne");
    reveal_strlit("no");
    reveal_strlit("nya");
    reveal_strlit("nyi");
    reveal_strlit("nyu");
    reveal_strlit("nye");
    reveal_strlit("nyo");
    reveal_strlit("ha");
    reveal_strlit("hi");
    reveal_strlit("hu");
    reveal_strlit("fu");
    reveal_strlit("he");
    reveal_strlit("ho");
    reveal_strlit("hya");
    reveal_with_fuel(well_spelled_from, 25);
}

proof fn lemma_table_from_72()
    requires
        well_spelled_from(96),
    ensures
        well_spelled_from(72),
{
    reveal_strlit("hyi");
    reveal_strlit("hyu");
    reveal_strlit("hye");
    reveal_strlit("hyo");
    reveal_strlit("ma");
    reveal_strlit("mi");
    reveal_strlit("mu");
    reveal_strlit("me");
    reveal_strlit("mo");
    reveal_strlit("mya");
    reveal_strlit("myi");
    reveal_strlit("myu");
    reveal_strlit("mye");
    reveal_strlit("myo");
    reveal_strlit("ya");
    reveal_strlit("yu");
    reveal_strlit("yo");
    reveal_strlit("ra");
    reveal_strlit("ri");
    reveal_strlit("ru");
    reveal_strlit("re");
    reveal_strlit("ro");
    reveal_strlit("rya");
    reveal_strlit("ryi");
    reveal_with_fuel(well_spelled_from, 25);
}

proof fn lemma_table_from_96()
    requires
        well_spelled_from(120),
    ensures
        well_spelled_from(96),
{
    reveal_strlit("ryu");
    reveal_strlit("rye");
    reveal_strlit("ryo");
    reveal_strlit("wa");
    reveal_strlit("wi");
    reveal_strlit("we");
    reveal_strlit("wo");
    reveal_strlit("ga");
    reveal_strlit("gi");
    reveal_strlit("gu");
    reveal_strlit("ge");
    reveal_strlit("go");
    reveal_strlit("gya");
    reveal_strlit("gyi");
    reveal_strlit("gyu");
    reveal_strlit("gye");
    reveal_strlit("gyo");
    reveal_strlit("za");
    reveal_strlit("zi");
    reveal_strlit("ji");
    reveal_strlit("zu");
    reveal_strlit("ze");
    reveal_strlit("zo");
    reveal_strlit("ja");
    reveal_with_fuel(well_spelled_from, 25);
}

proof fn lemma_table_from_120()
    requires
        well_spelled_from(144),
    ensures
        well_spelled_from(120),
{
    reveal_strlit("ji");
    reveal_strlit("ju");
    reveal_strlit("je");
    reveal_strlit("jo");
    reveal_strlit("jya");
    reveal_strlit("jyi");
    reveal_strlit("jyu");
    reveal_strlit("jye");
    reveal_strlit("jyo");
    reveal_strlit("zya");
    reveal_strlit("zyi");
    reveal_strlit("zyu");
    reveal_strlit("zye");
    reveal_strlit("zyo");
    reveal_strlit("dya");
    reveal_strlit("dyi");
    reveal_strlit("dyu");
    reveal_strlit("dye");
    reveal_strlit("dyo");
    reveal_strlit("da");
    reveal_strlit("di");
    reveal_strlit("du");
    reveal_strlit("dzu");
    reveal_strlit("de");
    reveal_with_fuel(well_spelled_from, 25);
}

proof fn lemma_table_from_144()
    requires
        well_spelled_from(168),
    ensures
        well_spelled_from(144),
{
    reveal_strlit("do");
    reveal_strlit("ba");
    reveal_strlit("bi");
    reveal_strlit("bu");
    reveal_strlit("be");
    reveal_strlit("bo");
    reveal_strlit("bya");
    reveal_strlit("byi");
    reveal_strlit("byu");
    reveal_strlit("bye");
    reveal_strlit("byo");
    reveal_strlit("pa");
    reveal_strlit("pi");
    reveal_strlit("pu");
    reveal_strlit("pe");
    reveal_strlit("po");
    reveal_strlit("pya");
    reveal_strlit("pyi");
    reveal_strlit("pyu");
    reveal_strlit("pye");
    reveal_strlit("pyo");
    reveal_strlit("xa");
    reveal_strlit("xi");
    reveal_strlit("xu");
    reveal_with_fuel(well_spelled_from, 25);
}

proof fn lemma_table_from_168()
    requires
        well_spelled_from(192),
    ensures
        well_spelled_from(168),
{
    reveal_strlit("xe");
    reveal_strlit("xo");
    reveal_strlit("xtu");
    reveal_strlit("xtsu");
    reveal_strlit("xya");
    reveal_strlit("xyu");
    reveal_strlit("xyo");
    reveal_strlit("xwa");
    reveal_strlit("xka");
    reveal_strlit("xke");
    reveal_strlit("la");
    reveal_strlit("li");
    reveal_strlit("lu");
    reveal_strlit("le");
    reveal_strlit("lo");
    reveal_strlit("ltu");
    reveal_strlit("ltsu");
    reveal_strlit("lya");
    reveal_strlit("lyu");
    reveal_strlit("lyo");
    reveal_strlit("lwa");
    reveal_strlit("lka");
    reveal_strlit("lke");
    reveal_strlit("n");
    reveal_strlit("ん");
    assert("n"@ =~= seq!['n']);
    assert("ん"@ =~= seq!['ん']);
    reveal_with_fuel(well_spelled_from, 25);
}

proof fn lemma_table()
    ensures
        well_spelled_from(0),
{
    lemma_table_from_168();
    lemma_table_from_144();
    lemma_table_from_120();
    lemma_table_from_96();
    lemma_table_from_72();
    lemma_table_from_48();
    lemma_table_from_24();
    lemma_table_from_0();
}

proof fn lemma_well_spelled_at(from: int, i: int)
    requires
        0 <= from <= i < ROMAJI_TABLE@.len(),
        well_spelled_from(from),
    ensures
        well_spelled(ROMAJI_TABLE@[i].0@, ROMAJI_TABLE@[i].1@),
        ROMAJI_TABLE@[place(ROMAJI_TABLE@[i].0@)].1@ == ROMAJI_TABLE@[i].1@,
    decreases i - from,
{
    if from < i {
        lemma_well_spelled_at(from + 1, i);
    }
}

proof fn lemma_kana_from(romaji: Seq<char>, from: int)
    requires
        0 <= from <= ROMAJI_TABLE@.len(),
    ensures
        kana_from(romaji, from) matches Some(kana) ==> exists|i: int|
            from <= i < ROMAJI_TABLE@.len() && #[trigger] ROMAJI_TABLE@[i].0@ == romaji
                && ROMAJI_TABLE@[i].1@ == kana,
        kana_from(romaji, from) is None ==> forall|i: int|
            from <= i < ROMAJI_TABLE@.len() ==> #[trigger] ROMAJI_TABLE@[i].0@ != romaji,
    decreases ROMAJI_TABLE@.len() - from,
{
    if from < ROMAJI_TABLE@.len() {
        lemma_kana_from(romaji, from + 1);
        if kana_from(romaji, from) is None {
            assert forall|i: int| from <= i < ROMAJI_TABLE@.len() implies #[trigger] ROMAJI_TABLE@[i].0@
                != romaji by {
                if i == from {
                    assert(ROMAJI_TABLE@[from].0@ != romaji);
                }
            }
        }
    }
}

/// Every row of the table gives the kana of its spelling, also where a spelling is
/// listed twice.
pub proof fn lemma_rows()
    ensures
        forall|i: int|
            0 <= i < ROMAJI_TABLE@.len() ==> kana_for(#[trigger] ROMAJI_TABLE@[i].0@) == Some(
                ROMAJI_TABLE@[i].1@,
            ),
{
    lemma_table();
    assert forall|i: int| 0 <= i < ROMAJI_TABLE@.len() implies kana_for(
        #[trigger] ROMAJI_TABLE@[i].0@,
    ) == Some(ROMAJI_TABLE@[i].1@) by {
        let key = ROMAJI_TABLE@[i].0@;
        lemma_kana_from(key, 0);
        let kana = kana_for(key)->0;
        let j = choose|j: int|
            0 <= j < ROMAJI_TABLE@.len() && #[trigger] ROMAJI_TABLE@[j].0@ == key
                && ROMAJI_TABLE@[j].1@ == kana;
        lemma_well_spelled_at(0, i);
        lemma_well_spelled_at(0, j);
    }
}

/// Every spelling that has a kana is well spelled and starts itself.
pub proof fn lemma_spelling(romaji: Seq<char>)
    ensures
        kana_for(romaji) matches Some(kana) ==> well_spelled(romaji, kana) && begins_spelling(
            romaji,
        ),
{
    lemma_table();
    lemma_kana_from(romaji, 0);
    if let Some(kana) = kana_for(romaji) {
        let i = choose|i: int|
            0 <= i < ROMAJI_TABLE@.len() && #[trigger] ROMAJI_TABLE@[i].0@ == romaji
                && ROMAJI_TABLE@[i].1@ == kana;
        lemma_well_spelled_at(0, i);
        assert(romaji.is_prefix_of(ROMAJI_TABLE@[i].0@));
    }
}

/// A start of a spelling is the start of a well-spelled entry with a kana.
pub proof fn lemma_begins_spelling(prefix: Seq<char>) -> (key: Seq<char>)
    requires
        begins_spelling(prefix),
    ensures
        prefix.is_prefix_of(key),
        kana_for(key) is Some,
{
    let i = choose|i: int|
        0 <= i < ROMAJI_TABLE@.len() && prefix.is_prefix_of(#[trigger] ROMAJI_TABLE@[i].0@);
    lemma_kana_from(ROMAJI_TABLE@[i].0@, 0);
    ROMAJI_TABLE@[i].0@
}

/// After an `n`, only a vowel or `y` goes on with a spelling.
pub proof fn lemma_after_n(c: char)
    requires
        !is_vowel(c),
        c != 'y',
    ensures
        !begins_spelling(seq!['n', c]),
        kana_for(seq!['n', c]) is None,
{
    let both = seq!['n', c];
    if begins_spelling(both) {
        let key = lemma_begins_spelling(both);
        lemma_spelling(key);
        assert(both =~= key.subrange(0, 2));
        assert(key[0] == both[0] && key[1] == both[1]);
        assert(seq!['-'].len() == 1 && seq!['.'].len() == 1 && seq![','].len() == 1
            && seq!['n'].len() == 1);
    }
    lemma_spelling(both);
}

/// A second letter starts spellings of its own, and so does `ts`.
pub proof fn lemma_second_letter(c: char)
    requires
        is_second_letter(c),
    ensures
        begins_spelling(seq![c]),
        begins_spelling(seq!['t', 's']),
{
    reveal_strlit("ka");
    reveal_strlit("sa");
    reveal_strlit("ta");
    reveal_strlit("tsu");
    reveal_strlit("ha");
    reveal_strlit("ya");
    reveal_strlit("wa");
    reveal_strlit("za");
    let i = if c == 'k' {
        8int
    } else if c == 's' {
        18
    } else if c == 't' {
        33
    } else if c == 'h' {
        65
    } else if c == 'y' {
        86
    } else if c == 'w' {
        99
    } else {
        113
    };
    assert(ROMAJI_TABLE@[i].0@.subrange(0, 1) =~= seq![c]);
    assert(seq![c].is_prefix_of(ROMAJI_TABLE@[i].0@));
    assert(ROMAJI_TABLE@[36].0@.subrange(0, 2) =~= seq!['t', 's']);
    assert(seq!['t', 's'].is_prefix_of(ROMAJI_TABLE@[36].0@));
}

/// Only what stands in the table has a kana.
pub proof fn lemma_kana_is_listed(romaji: Seq<char>)
    ensures
        kana_for(romaji) matches Some(kana) ==> exists|i: int|
            0 <= i < ROMAJI_TABLE@.len() && (#[trigger] ROMAJI_TABLE@[i]).0@ == romaji
                && ROMAJI_TABLE@[i].1@ == kana,
{
    lemma_kana_from(romaji, 0);
    if let Some(kana) = kana_for(romaji) {
        let i = choose|i: int|
            0 <= i < ROMAJI_TABLE@.len() && #[trigger] ROMAJI_TABLE@[i].0@ == romaji
                && ROMAJI_TABLE@[i].1@ == kana;
        assert(ROMAJI_TABLE@[i].0@ == romaji);
    }
}

/// What starts a start of a spelling starts that spelling.
pub proof fn lemma_shorter_start(prefix: Seq<char>, n: int)
    requires
        begins_spelling(prefix),
        0 <= n <= prefix.len(),
    ensures
        begins_spelling(prefix.take(n)),
{
    let i = choose|i: int|
        0 <= i < ROMAJI_TABLE@.len() && prefix.is_prefix_of(#[trigger] ROMAJI_TABLE@[i].0@);
    let key = ROMAJI_TABLE@[i].0@;
    assert(prefix.take(n) =~= key.subrange(0, n)) by {
        assert(prefix =~= key.subrange(0, prefix.len() as int));
    }
    assert(prefix.take(n).is_prefix_of(key));
}

/// Nothing typed yet starts every spelling and is none.
pub proof fn lemma_empty_start()
    ensures
        begins_spelling(Seq::empty()),
        kana_for(Seq::empty()) is None,
{
    let none = Seq::<char>::empty();
    assert(none =~= ROMAJI_TABLE@[0].0@.subrange(0, 0));
    assert(none.is_prefix_of(ROMAJI_TABLE@[0].0@));
    lemma_spelling(none);
}

/// The letter `n` alone is a spelling, of `ん`.
pub proof fn lemma_n()
    ensures
        kana_for(seq!['n']) == Some(seq!['ん']),
{
    let n = seq!['n'];
    reveal_strlit("n");
    assert(ROMAJI_TABLE@[191].0@ =~= n);
    lemma_kana_from(n, 0);
    lemma_spelling(n);
    assert(n[0] == 'n');
    assert(seq!['-'][0] == '-' && seq!['.'][0] == '.' && seq![','][0] == ',');
}

} // verus!
