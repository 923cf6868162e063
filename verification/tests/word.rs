use bn_normalize_rs::word::ops::{clean_invalid_unicodes, fix_no_space_char_bangla};
use bn_normalize_rs::word::{
    default_legacy_maps, normalize, normalize_batch, normalize_with_options, LegacyMap, NormCtx, NormalizeOptions,
};

#[test]
fn test_basic_normalization() {
    // Repeated fola: গ্র্রামকে → গ্রামকে
    assert_eq!(normalize("গ্র্রামকে"), Some("গ্রামকে".to_string()));
}

#[test]
fn test_invalid_start() {
    // াটোবাকো → টোবাকো (leading vowel diacritic removed)
    assert_eq!(normalize("াটোবাকো"), Some("টোবাকো".to_string()));
}

#[test]
fn test_english_rejected() {
    assert_eq!(normalize("ASD123"), None);
}

#[test]
fn test_english_allowed() {
    let opts = NormalizeOptions {
        allow_english: true,
        ..Default::default()
    };
    assert_eq!(normalize_with_options("ASD123", &opts), Some("ASD123".to_string()));
}

#[test]
fn test_to_hosonto() {
    // উত্স → উৎস
    assert_eq!(normalize("উত্স"), Some("উৎস".to_string()));
}

#[test]
fn test_double_diacritics() {
    // যুুদ্ধ → যুদ্ধ
    assert_eq!(normalize("যুুদ্ধ"), Some("যুদ্ধ".to_string()));
}

#[test]
fn test_invalid_hosonto() {
    // দুই্টি → দুইটি
    assert_eq!(normalize("দুই্টি"), Some("দুইটি".to_string()));
}

#[test]
fn test_vowel_diacritic_after_vowel() {
    // উুলু → উলু
    assert_eq!(normalize("উুলু"), Some("উলু".to_string()));
}

#[test]
fn test_ending_hosonto() {
    // অজানা্ → অজানা
    assert_eq!(normalize("অজানা্"), Some("অজানা".to_string()));
}

#[test]
fn test_broken_connector() {
    // সং্যুক্তি → সংযুক্তি
    assert_eq!(normalize("সং্যুক্তি"), Some("সংযুক্তি".to_string()));
}

// ─── Further cases ─────────────────────────────────────────────────────────

#[test]
fn legacy_map_default_maps_anji_to_seven() {
    let opts = NormalizeOptions {
        legacy_maps: Some(default_legacy_maps()),
        ..Default::default()
    };
    assert_eq!(normalize_with_options("ঀ", &opts), Some("৭".to_string()));
}

#[test]
fn legacy_symbol_removed_without_map() {
    assert_eq!(normalize("ঀ"), None);
}

#[test]
fn legacy_symbol_kept_when_asked() {
    let opts = NormalizeOptions {
        keep_legacy_symbols: true,
        ..Default::default()
    };
    assert_eq!(normalize_with_options("ঀ", &opts), Some("ঀ".to_string()));
}

#[test]
fn legacy_map_insert_replaces_in_place() {
    let mut m = LegacyMap::new();
    assert_eq!(m.insert('ঀ', "x".to_string()), None);
    assert_eq!(m.insert('ঌ', "y".to_string()), None);
    assert_eq!(m.insert('ঀ', "z".to_string()), Some("x".to_string()));
    assert_eq!(m.len(), 2);
    assert_eq!(m.get('ঀ'), Some("z".to_string()));
    assert_eq!(m.get('ৡ'), None);
}

#[test]
fn default_legacy_maps_has_seven_entries() {
    let m = default_legacy_maps();
    assert_eq!(m.len(), 7);
    assert_eq!(m.get('ৠ'), Some("ঋ".to_string()));
    assert_eq!(m.get('ঽ'), Some("ই".to_string()));
}

#[test]
fn broken_vowel_sign_two_parts() {
    // আরো written as আ র ে া → আরো with ো (U+09CB)
    assert_eq!(normalize("\u{0986}\u{09B0}\u{09C7}\u{09BE}"), Some("\u{0986}\u{09B0}\u{09CB}".to_string()));
}

#[test]
fn broken_au_sign_two_parts() {
    // পৌঁছে written as প ে ৗ ঁ ছ ে → প ৌ ঁ ছ ে
    assert_eq!(
        normalize("\u{09AA}\u{09C7}\u{09D7}\u{0981}\u{099B}\u{09C7}"),
        Some("\u{09AA}\u{09CC}\u{0981}\u{099B}\u{09C7}".to_string())
    );
}

#[test]
fn vocalic_rr_sign_fixed() {
    // সংস্কৄতি → সংস্কৃতি
    assert_eq!(normalize("সংস্কৄতি"), Some("সংস্কৃতি".to_string()));
}

#[test]
fn nukta_composes() {
    // কেন্দ্রীয + nukta → কেন্দ্রীয় (U+09DF)
    assert_eq!(
        normalize("\u{0995}\u{09C7}\u{09A8}\u{09CD}\u{09A6}\u{09CD}\u{09B0}\u{09C0}\u{09AF}\u{09BC}"),
        Some("\u{0995}\u{09C7}\u{09A8}\u{09CD}\u{09A6}\u{09CD}\u{09B0}\u{09C0}\u{09DF}".to_string())
    );
}

#[test]
fn stray_nukta_dropped() {
    // জ + nukta + ন্য → জন্য
    assert_eq!(normalize("\u{099C}\u{09BC}\u{09A8}\u{09CD}\u{09AF}"), Some("\u{099C}\u{09A8}\u{09CD}\u{09AF}".to_string()));
}

#[test]
fn to_hosonto_before_pa() {
    // বুত্পত্তি → বুৎপত্তি
    assert_eq!(normalize("বুত্পত্তি"), Some("বুৎপত্তি".to_string()));
}

#[test]
fn doubled_ri_sign() {
    // প্রকৃৃতির → প্রকৃতির
    assert_eq!(normalize("প্রকৃৃতির"), Some("প্রকৃতির".to_string()));
}

#[test]
fn e_before_vowel_sign_becomes_tra() {
    // একএে → একত্রে
    assert_eq!(normalize("একএে"), Some("একত্রে".to_string()));
}

#[test]
fn hosonto_after_u_sign() {
    // যু্ক্ত → যুক্ত
    assert_eq!(normalize("যু্ক্ত"), Some("যুক্ত".to_string()));
}

#[test]
fn isolated_diacritic_is_none() {
    assert_eq!(normalize("ৄ"), None);
}

#[test]
fn empty_word_is_none() {
    assert_eq!(normalize(""), None);
}

#[test]
fn assamese_ra_replaced() {
    assert_eq!(normalize("ৰ"), Some("র".to_string()));
}

#[test]
fn legacy_danda_replaced() {
    assert_eq!(normalize("ক৷"), Some("ক।".to_string()));
}

#[test]
fn en_dash_replaced() {
    assert_eq!(normalize("ক–খ"), Some("ক-খ".to_string()));
}

#[test]
fn diacritic_after_digit_removed() {
    assert_eq!(normalize("১া"), Some("১".to_string()));
}

#[test]
fn candrabindu_moves_first() {
    // ং before ঁ swap: কংঁ → কঁং
    assert_eq!(normalize("কংঁ"), Some("কঁং".to_string()));
}

#[test]
fn batch_pairs_words_with_results() {
    let words = vec!["গ্র্রামকে".to_string(), "উত্স".to_string(), "ASD123".to_string()];
    let r = normalize_batch(words, false);
    assert_eq!(
        r,
        vec![
            ("গ্র্রামকে".to_string(), Some("গ্রামকে".to_string())),
            ("উত্স".to_string(), Some("উৎস".to_string())),
            ("ASD123".to_string(), None),
        ]
    );
}

#[test]
fn invalid_only_word_is_none() {
    // Law: a word with no valid character normalizes to None.
    assert_eq!(normalize("xyz@#"), None);
}

#[test]
fn invalid_characters_inside_a_word_are_removed() {
    // Law: every character of a normalized word is valid under the options.
    assert_eq!(normalize("কxখ€গ"), Some("কখগ".to_string()));
    let opts = NormalizeOptions { allow_english: true, ..Default::default() };
    assert_eq!(normalize_with_options("কx€", &opts), Some("কx".to_string()));
}

#[test]
fn legacy_symbols_inside_a_word_removed_unless_kept() {
    // Law: without keep_legacy_symbols, unmapped legacy symbols are removed.
    assert_eq!(normalize("ক৺খ"), Some("কখ".to_string()));
    let opts = NormalizeOptions {
        keep_legacy_symbols: true,
        ..Default::default()
    };
    assert_eq!(normalize_with_options("ক৺খ", &opts), Some("ক৺খ".to_string()));
}

#[test]
fn legacy_symbol_is_a_root_when_kept() {
    let ctx = NormCtx {
        word: String::new(),
        decomp: Vec::new(),
        allow_english: false,
        keep_legacy: true,
        legacy_maps: None,
    };
    assert!(ctx.is_valid_root("ঌ"));
    assert!(ctx.is_valid_root("ক\u{09CD}ষ"));
    assert!(!ctx.is_valid_root("ক\u{09CD}খ"));
    assert!(!ctx.is_valid_root("A"));
    let plain = NormCtx { keep_legacy: false, ..ctx };
    assert!(!plain.is_valid_root("ঌ"));
}

#[test]
fn legacy_danda_kept_when_legacy_symbols_kept() {
    let opts = NormalizeOptions {
        keep_legacy_symbols: true,
        ..Default::default()
    };
    assert_eq!(normalize_with_options("৷", &opts), Some("৷".to_string()));
    assert_eq!(normalize("৷"), Some("।".to_string()));
}

#[test]
fn every_legacy_symbol_kept_alone_when_asked() {
    let opts = NormalizeOptions {
        keep_legacy_symbols: true,
        ..Default::default()
    };
    for c in ['৺', '৻', 'ঀ', 'ঌ', 'ৡ', 'ঽ', 'ৠ', '৲', '৴', '৵', '৶', '৷', '৸', '৹'] {
        assert_eq!(normalize_with_options(&c.to_string(), &opts), Some(c.to_string()), "{}", c);
    }
}

fn ctx_of(word: &str) -> NormCtx<'static> {
    NormCtx {
        word: word.to_string(),
        decomp: word.chars().map(Some).collect(),
        allow_english: false,
        keep_legacy: false,
        legacy_maps: None,
    }
}

fn chars_of(ctx: &NormCtx) -> String {
    ctx.decomp.iter().flatten().collect()
}

#[test]
fn invalid_unicode_cleanup_closed_form() {
    // Law: strip the invalid-start prefix, then trailing hosontos, then keep the valid characters.
    let mut ctx = ctx_of("ি্কxখ্্");
    clean_invalid_unicodes(&mut ctx);
    assert_eq!(chars_of(&ctx), "কখ");
}

#[test]
fn legacy_map_order_does_not_matter() {
    // Law: with no value holding a key, the map replaces each character by its image.
    let mut a = LegacyMap::new();
    a.insert('ঀ', "৭".to_string());
    a.insert('ঌ', "৯".to_string());
    let mut b = LegacyMap::new();
    b.insert('ঌ', "৯".to_string());
    b.insert('ঀ', "৭".to_string());
    let w: Vec<char> = "কঀঌঀ".chars().collect();
    let expected: Vec<char> = "ক৭৯৭".chars().collect();
    assert_eq!(a.apply_to(&w), expected);
    assert_eq!(b.apply_to(&w), expected);
}

#[test]
fn joiner_pass_shape() {
    // Law: no ZWNJ left, ZWJ only after র, a subsequence of the input.
    let mut ctx = ctx_of("ক\u{200C}খর\u{200D}্য\u{200D}");
    fix_no_space_char_bangla(&mut ctx);
    assert_eq!(chars_of(&ctx), "কখর\u{200D}্য");
}

#[test]
fn legacy_danda_from_a_map_is_replaced() {
    // Law: without keep_legacy_symbols no legacy symbol is left, whatever the map gives.
    let mut m = LegacyMap::new();
    m.insert('ঀ', "৷".to_string());
    let opts = NormalizeOptions {
        legacy_maps: Some(m),
        ..Default::default()
    };
    assert_eq!(normalize_with_options("কঀ", &opts), Some("ক।".to_string()));
    assert_eq!(normalize("ক৷৺"), Some("ক।".to_string()));
}
