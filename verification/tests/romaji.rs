//! Romaji-to-kana conversion.

use myme::romaji::{convert, flush_into, RomajiConverter};
use myme::romaji_table::ROMAJI_TABLE;

// ── Convenience helper ────────────────────────────────────────────────────

/// Feed every character of `romaji` into a fresh converter and collect all
/// confirmed kana, then flush pending.
fn feed_all(romaji: &str) -> String {
    convert(romaji)
}

// ── Full-word integration tests ───────────────────────────────────────────

#[test]
fn test_konnichiha() {
    assert_eq!(feed_all("konnichiha"), "こんにちは");
}

#[test]
fn test_toukyou() {
    assert_eq!(feed_all("toukyou"), "とうきょう");
}

#[test]
fn test_shinkansen() {
    assert_eq!(feed_all("shinkansen"), "しんかんせん");
}

#[test]
fn test_kekka_double_consonant() {
    assert_eq!(feed_all("kekka"), "けっか");
}

#[test]
fn test_sanpo_n_before_consonant() {
    assert_eq!(feed_all("sanpo"), "さんぽ");
}

#[test]
fn test_onna() {
    assert_eq!(feed_all("onna"), "おんな");
}

#[test]
fn test_densha() {
    assert_eq!(feed_all("densha"), "でんしゃ");
}

#[test]
fn test_single_vowels() {
    assert_eq!(feed_all("aiueo"), "あいうえお");
}

// ── Row-by-row correctness ────────────────────────────────────────────────

#[test]
fn test_k_row() {
    assert_eq!(feed_all("kakikukeko"), "かきくけこ");
}

#[test]
fn test_s_row() {
    assert_eq!(feed_all("sasisuseso"), "さしすせそ");
}

#[test]
fn test_s_row_shi() {
    assert_eq!(feed_all("shi"), "し");
}

#[test]
fn test_t_row() {
    assert_eq!(feed_all("tatituteto"), "たちつてと");
}

#[test]
fn test_tsu() {
    assert_eq!(feed_all("tsu"), "つ");
}

#[test]
fn test_chi() {
    assert_eq!(feed_all("chi"), "ち");
}

#[test]
fn test_n_row() {
    assert_eq!(feed_all("naninuneno"), "なにぬねの");
}

#[test]
fn test_h_row() {
    assert_eq!(feed_all("hahihuheho"), "はひふへほ");
}

#[test]
fn test_fu() {
    assert_eq!(feed_all("fu"), "ふ");
    assert_eq!(feed_all("hu"), "ふ");
}

#[test]
fn test_m_row() {
    assert_eq!(feed_all("mamimumemo"), "まみむめも");
}

#[test]
fn test_y_row() {
    assert_eq!(feed_all("yayuyo"), "やゆよ");
}

#[test]
fn test_r_row() {
    assert_eq!(feed_all("rarirurero"), "らりるれろ");
}

#[test]
fn test_w_row() {
    assert_eq!(feed_all("wawo"), "わを");
}

#[test]
fn test_g_row() {
    assert_eq!(feed_all("gagigugego"), "がぎぐげご");
}

#[test]
fn test_z_row() {
    // zi → じ, others standard
    assert_eq!(feed_all("zazizuzezo"), "ざじずぜぞ");
}

#[test]
fn test_ji() {
    assert_eq!(feed_all("ji"), "じ");
}

#[test]
fn test_d_row() {
    assert_eq!(feed_all("dadidudeado"), "だぢづであど");
    // Note: "dea" is "de"+"a" = でぁ – let's test cleaner sequences.
}

#[test]
fn test_dzu() {
    assert_eq!(feed_all("dzu"), "づ");
}

// ── Small kana ──────────────────────────────────────────────────────────

#[test]
fn test_small_kana_x_prefix() {
    assert_eq!(feed_all("xtu"), "っ");
    assert_eq!(feed_all("xtsu"), "っ");
    assert_eq!(feed_all("xya"), "ゃ");
    assert_eq!(feed_all("xyu"), "ゅ");
    assert_eq!(feed_all("xyo"), "ょ");
    assert_eq!(feed_all("xa"), "ぁ");
    assert_eq!(feed_all("xi"), "ぃ");
    assert_eq!(feed_all("xu"), "ぅ");
    assert_eq!(feed_all("xe"), "ぇ");
    assert_eq!(feed_all("xo"), "ぉ");
    assert_eq!(feed_all("xwa"), "ゎ");
}

#[test]
fn test_small_kana_l_prefix() {
    assert_eq!(feed_all("ltu"), "っ");
    assert_eq!(feed_all("ltsu"), "っ");
    assert_eq!(feed_all("lya"), "ゃ");
    assert_eq!(feed_all("lyu"), "ゅ");
    assert_eq!(feed_all("lyo"), "ょ");
    assert_eq!(feed_all("la"), "ぁ");
    assert_eq!(feed_all("li"), "ぃ");
    assert_eq!(feed_all("lu"), "ぅ");
    assert_eq!(feed_all("le"), "ぇ");
    assert_eq!(feed_all("lo"), "ぉ");
    assert_eq!(feed_all("lwa"), "ゎ");
}

#[test]
fn test_b_row() {
    assert_eq!(feed_all("babibubebo"), "ばびぶべぼ");
}

#[test]
fn test_p_row() {
    assert_eq!(feed_all("papipupepo"), "ぱぴぷぺぽ");
}

// ── Combo / digraph tests ─────────────────────────────────────────────────

#[test]
fn test_kya_kyu_kyo() {
    assert_eq!(feed_all("kyakyukyo"), "きゃきゅきょ");
}

#[test]
fn test_sha_shu_sho() {
    assert_eq!(feed_all("shashu"), "しゃしゅ");
    assert_eq!(feed_all("sho"), "しょ");
}

#[test]
fn test_cha_chu_cho() {
    assert_eq!(feed_all("chachu"), "ちゃちゅ");
    assert_eq!(feed_all("cho"), "ちょ");
}

#[test]
fn test_nya_nyu_nyo() {
    assert_eq!(feed_all("nyanyu"), "にゃにゅ");
    assert_eq!(feed_all("nyo"), "にょ");
}

#[test]
fn test_ja_ju_jo() {
    assert_eq!(feed_all("jajujo"), "じゃじゅじょ");
}

#[test]
fn test_rya_ryu_ryo() {
    assert_eq!(feed_all("ryaryuryo"), "りゃりゅりょ");
}

#[test]
fn test_gya_gyu_gyo() {
    assert_eq!(feed_all("gyagyugyo"), "ぎゃぎゅぎょ");
}

#[test]
fn test_bya_pya() {
    assert_eq!(feed_all("bya"), "びゃ");
    assert_eq!(feed_all("pya"), "ぴゃ");
}

// ── Double consonant (っ insertion) ───────────────────────────────────────

#[test]
fn test_double_k() {
    assert_eq!(feed_all("kka"), "っか");
}

#[test]
fn test_double_s() {
    assert_eq!(feed_all("ssa"), "っさ");
}

#[test]
fn test_double_t() {
    assert_eq!(feed_all("tte"), "って");
}

#[test]
fn test_double_p() {
    assert_eq!(feed_all("ppo"), "っぽ");
}

#[test]
fn test_double_in_word() {
    // "kekka" → け + っか
    assert_eq!(feed_all("kekka"), "けっか");
    // "zassou" → ざっそう
    assert_eq!(feed_all("zassou"), "ざっそう");
}

// ── n rules ───────────────────────────────────────────────────────────────

#[test]
fn test_nn() {
    // "nn" emits exactly one ん.  The second 'n' is kept pending (so that
    // "onna" → おんな works) but is suppressed on flush because it
    // originated from the "nn" sequence.
    assert_eq!(feed_all("nn"), "ん");
}

#[test]
fn test_n_standalone_flush() {
    // A single trailing 'n' flushes as ん.
    assert_eq!(feed_all("n"), "ん");
}

#[test]
fn test_n_before_consonant() {
    // 'n' followed by 'k' → ん + か
    assert_eq!(feed_all("nka"), "んか");
    // 'n' followed by 'p' → ん + ぽ
    assert_eq!(feed_all("npo"), "んぽ");
}

#[test]
fn test_n_not_swallowed_by_vowel() {
    // "na" should be な, NOT ん + あ
    assert_eq!(feed_all("na"), "な");
    assert_eq!(feed_all("ni"), "に");
    assert_eq!(feed_all("nu"), "ぬ");
    assert_eq!(feed_all("ne"), "ね");
    assert_eq!(feed_all("no"), "の");
}

#[test]
fn test_n_end_of_input() {
    // A trailing 'n' should flush as ん
    assert_eq!(feed_all("hon"), "ほん");
    assert_eq!(feed_all("n"), "ん");
}

#[test]
fn test_nin() {
    // "nin" → に + n(pending) → flush → にん
    assert_eq!(feed_all("nin"), "にん");
}

#[test]
fn test_onnna_ambiguous_nn() {
    // "onna" → o(お) + nn(ん) + na(な) = おんな
    assert_eq!(feed_all("onna"), "おんな");
}

// ── Special symbols ───────────────────────────────────────────────────────

#[test]
fn test_hyphen_to_chouonpu() {
    assert_eq!(feed_all("-"), "ー");
    assert_eq!(feed_all("to-kyou"), "とーきょう");
}

#[test]
fn test_period_to_kuten() {
    assert_eq!(feed_all("."), "。");
}

#[test]
fn test_comma_to_touten() {
    assert_eq!(feed_all(","), "、");
}

// ── Backspace handling ────────────────────────────────────────────────────

#[test]
fn test_backspace_removes_pending() {
    let mut conv = RomajiConverter::new();
    conv.feed('k');
    assert_eq!(conv.pending(), "k");
    let out = conv.backspace();
    assert_eq!(out.pending, "");
    assert_eq!(out.confirmed, None);
    assert_eq!(conv.pending(), "");
}

#[test]
fn test_backspace_on_empty_is_noop() {
    let mut conv = RomajiConverter::new();
    let out = conv.backspace();
    assert_eq!(out.pending, "");
    assert_eq!(out.confirmed, None);
}

#[test]
fn test_backspace_then_continue() {
    let mut conv = RomajiConverter::new();
    conv.feed('k');
    conv.backspace();
    // After erasing 'k', typing 's' + 'a' should give さ
    conv.feed('s');
    let out = conv.feed('a');
    assert_eq!(out.confirmed.as_deref(), Some("さ"));
    assert_eq!(out.pending, "");
}

#[test]
fn test_backspace_multi_char_pending() {
    let mut conv = RomajiConverter::new();
    conv.feed('s');
    conv.feed('h');
    assert_eq!(conv.pending(), "sh");
    let out = conv.backspace();
    assert_eq!(out.pending, "s");
    // Now complete with 'a' → さ (since "sa" matches, not "sha")
    let out2 = conv.feed('a');
    assert_eq!(out2.confirmed.as_deref(), Some("さ"));
}

// ── Reset ─────────────────────────────────────────────────────────────────

#[test]
fn test_reset_clears_state() {
    let mut conv = RomajiConverter::new();
    conv.feed('k');
    conv.feed('y');
    assert_eq!(conv.pending(), "ky");
    conv.reset();
    assert_eq!(conv.pending(), "");
    // After reset, normal input should work
    let out = conv.feed('a');
    assert_eq!(out.confirmed.as_deref(), Some("あ"));
}

// ── Per-character output verification ────────────────────────────────────

#[test]
fn test_feed_incremental_ka() {
    let mut conv = RomajiConverter::new();
    let out1 = conv.feed('k');
    assert_eq!(out1.confirmed, None);
    assert_eq!(out1.pending, "k");

    let out2 = conv.feed('a');
    assert_eq!(out2.confirmed.as_deref(), Some("か"));
    assert_eq!(out2.pending, "");
}

#[test]
fn test_feed_incremental_tsu() {
    let mut conv = RomajiConverter::new();
    let out1 = conv.feed('t');
    assert_eq!(out1.confirmed, None);
    assert_eq!(out1.pending, "t");

    let out2 = conv.feed('s');
    assert_eq!(out2.confirmed, None);
    assert_eq!(out2.pending, "ts");

    let out3 = conv.feed('u');
    assert_eq!(out3.confirmed.as_deref(), Some("つ"));
    assert_eq!(out3.pending, "");
}

#[test]
fn test_feed_double_consonant_incremental() {
    let mut conv = RomajiConverter::new();
    // First 'k' – valid prefix
    let out1 = conv.feed('k');
    assert_eq!(out1.confirmed, None);
    assert_eq!(out1.pending, "k");

    // Second 'k' – triggers っ, new pending is "k"
    let out2 = conv.feed('k');
    assert_eq!(out2.confirmed.as_deref(), Some("っ"));
    assert_eq!(out2.pending, "k");

    // 'a' completes か
    let out3 = conv.feed('a');
    assert_eq!(out3.confirmed.as_deref(), Some("か"));
    assert_eq!(out3.pending, "");
}

// ── Miscellaneous real words ───────────────────────────────────────────────

#[test]
fn test_nihongo() {
    assert_eq!(feed_all("nihongo"), "にほんご");
}

#[test]
fn test_gakkou() {
    // "gakkou" → が + っ + こ + う
    assert_eq!(feed_all("gakkou"), "がっこう");
}

#[test]
fn test_tabemono() {
    assert_eq!(feed_all("tabemono"), "たべもの");
}

#[test]
fn test_watashi() {
    assert_eq!(feed_all("watashi"), "わたし");
}

#[test]
fn test_ookii() {
    // "ookii" → お + お + き + い
    assert_eq!(feed_all("ookii"), "おおきい");
}

#[test]
fn typing_in_two_parts_is_typing_at_once() {
    for text in ["kyouto", "sannka", "honnyaku", "kk-tta"] {
        for cut in 0..=text.len() {
            let mut conv = RomajiConverter::new();
            let mut kana = String::new();
            for ch in text[..cut].chars().chain(text[cut..].chars()) {
                if let Some(part) = conv.feed(ch).confirmed {
                    kana.push_str(&part);
                }
            }
            flush_into(&conv, &mut kana);
            assert_eq!(kana, convert(text));
        }
    }
}

#[test]
fn backspace_undoes_a_pending_character() {
    let mut conv = RomajiConverter::new();
    conv.feed('s');
    let before = conv.pending().to_string();
    conv.feed('h');
    let out = conv.backspace();
    assert_eq!(out.pending, before);
    assert_eq!(out.confirmed, None);
}

#[test]
fn every_spelling_converts_to_its_kana() {
    for (spelling, kana) in ROMAJI_TABLE {
        assert_eq!(convert(spelling), kana, "{spelling}");
    }
    assert_eq!(ROMAJI_TABLE.len(), 192);
}

#[test]
fn unknown_characters_stand_as_they_are() {
    assert_eq!(convert("あ変"), "あ変");
    assert_eq!(convert("k変a"), "k変あ");
}

#[test]
fn nn_is_forgotten_with_its_n() {
    let mut conv = RomajiConverter::new();
    conv.feed('n');
    conv.feed('n');
    assert!(conv.is_nn_pending());
    conv.backspace();
    assert!(!conv.is_nn_pending());
    conv.feed('n');
    let mut kana = String::new();
    flush_into(&conv, &mut kana);
    assert_eq!(kana, "ん");
}

#[test]
fn runs_of_n_pair_up() {
    for (run, kana) in [("n", "ん"), ("nn", "ん"), ("nnn", "んん"), ("nnnn", "んん"), ("nnnnn", "んんん")]
    {
        assert_eq!(convert(run), kana, "{run}");
    }
}

#[test]
fn n_and_nn_before_a_consonant_are_one_kana() {
    for c in "bcdfghjklmpqrstvwxz".chars() {
        let mut conv = RomajiConverter::new();
        conv.feed('n');
        assert!(conv.feed(c).confirmed.unwrap().starts_with('ん'), "{c}");
    }
    assert_eq!(convert("nka"), "んか");
    assert_eq!(convert("nnka"), "んか");
    assert_eq!(convert("nya"), "にゃ");
}

#[test]
fn a_syllable_leaves_what_follows_alone() {
    for rest in ["n", "kya", "tta", "-", ""] {
        assert_eq!(convert(&format!("sha{rest}")), format!("しゃ{}", convert(rest)));
    }
}

#[test]
fn every_row_after_its_consonant_or_n() {
    assert_eq!(convert(""), "");
    for (spelling, kana) in ROMAJI_TABLE {
        let first = spelling.chars().next().unwrap();
        if !first.is_ascii_alphabetic() || "aiueon".contains(first) {
            continue;
        }
        assert_eq!(convert(&format!("{first}{spelling}")), format!("っ{kana}"));
        if first != 'y' {
            assert_eq!(convert(&format!("n{spelling}")), format!("ん{kana}"));
            assert_eq!(convert(&format!("nn{spelling}")), format!("ん{kana}"));
        }
    }
}
