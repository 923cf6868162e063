use bn_normalize_rs::sentence::{none_policy_from_name, normalize, NoneTokenPolicy, SentenceNormalizeError, SentenceNormalizeOptions, SentenceNormalizeResult};

fn norm(text: &str) -> String {
    normalize(text, &SentenceNormalizeOptions::default())
        .unwrap()
        .text
}

fn norm_drop(text: &str) -> String {
    let opts = SentenceNormalizeOptions {
        none_policy: NoneTokenPolicy::Drop,
        ..Default::default()
    };
    normalize(text, &opts).unwrap().text
}

fn norm_collect(text: &str) -> SentenceNormalizeResult {
    let opts = SentenceNormalizeOptions {
        none_policy: NoneTokenPolicy::Collect,
        ..Default::default()
    };
    normalize(text, &opts).unwrap()
}

#[test]
fn test_pure_bangla_sentence() {
    // Each Bangla word gets normalized individually
    let input = "গ্র্রামকে ভালো লাগে";
    let result = norm(input);
    // গ্র্রামকে → গ্রামকে (repeated fola removed)
    assert_eq!(result, "গ্রামকে ভালো লাগে");
}

#[test]
fn mod_test_mixed_bangla_english() {
    // English words pass through unchanged
    let input = "আমি Python শিখছি";
    let result = norm(input);
    assert_eq!(result, "আমি Python শিখছি");
}

#[test]
fn test_punctuation_preserved() {
    let input = "হ্যালো, কেমন আছো?";
    let result = norm(input);
    assert_eq!(result, "হ্যালো, কেমন আছো?");
}

#[test]
fn test_emoji_passthrough() {
    let input = "ভালো 😊 লাগছে";
    let result = norm(input);
    assert_eq!(result, "ভালো 😊 লাগছে");
}

#[test]
fn test_multiple_spaces_preserved() {
    let input = "শব্দ   শব্দ";
    let result = norm(input);
    assert_eq!(result, "শব্দ   শব্দ");
}

#[test]
fn test_digits_passthrough() {
    let input = "২০২৪ সালে 2024";
    let result = norm(input);
    assert_eq!(result, "২০২৪ সালে 2024");
}

#[test]
fn test_empty_string() {
    assert_eq!(norm(""), "");
}

#[test]
fn test_whitespace_only() {
    assert_eq!(norm("   "), "   ");
}

#[test]
fn test_none_policy_error() {
    let opts = SentenceNormalizeOptions {
        none_policy: NoneTokenPolicy::Error,
        ..Default::default()
    };
    // "ASD123" with allow_english=false normalizes to None
    let result = normalize("এটি ASD123 একটি", &opts);
    // ASD123 is not Bangla, so it's classified as NonBangla and passed through
    // It won't trigger error since it's not classified as BanglaWord
    assert!(result.is_ok());
}

#[test]
fn test_none_policy_collect() {
    // Force a Bangla-script word that normalizes to None
    // (all-diacritics input that gets cleaned to empty)
    let result = norm_collect("ভালো াা লাগে");
    // "াা" is all invalid starts, normalizes to None
    assert!(!result.text.is_empty());
}

#[test]
fn test_url_passthrough() {
    let input = "দেখো https://example.com এই সাইট";
    let result = norm(input);
    assert!(result.contains("https://example.com"));
}

#[test]
fn test_mixed_script_sentence() {
    let input = "বাংলা text মিশ্র 123 🎉 end";
    let result = norm(input);
    assert!(result.contains("বাংলা"));
    assert!(result.contains("text"));
    assert!(result.contains("মিশ্র"));
    assert!(result.contains("123"));
    assert!(result.contains("🎉"));
    assert!(result.contains("end"));
}

// ─── Further cases ─────────────────────────────────────────────────────────

#[test]
fn collect_reports_failed_token_and_keeps_it() {
    let result = norm_collect("ভালো াা লাগে");
    assert_eq!(result.text, "ভালো াা লাগে");
    assert_eq!(result.failed_tokens, vec![(2, "াা".to_string())]);
}

#[test]
fn drop_removes_failed_token() {
    assert_eq!(norm_drop("ভালো াা লাগে"), "ভালো  লাগে");
}

#[test]
fn drop_and_collect_removes_and_reports() {
    let opts = SentenceNormalizeOptions {
        none_policy: NoneTokenPolicy::DropAndCollect,
        ..Default::default()
    };
    let result = normalize("ভালো াা লাগে", &opts).unwrap();
    assert_eq!(result.text, "ভালো  লাগে");
    assert_eq!(result.failed_tokens, vec![(2, "াা".to_string())]);
}

#[test]
fn placeholder_replaces_failed_token() {
    let opts = SentenceNormalizeOptions {
        none_policy: NoneTokenPolicy::Placeholder("<?>".to_string()),
        ..Default::default()
    };
    let result = normalize("ভালো াা লাগে", &opts).unwrap();
    assert_eq!(result.text, "ভালো <?> লাগে");
    assert!(result.failed_tokens.is_empty());
}

#[test]
fn error_policy_reports_first_failure() {
    let opts = SentenceNormalizeOptions {
        none_policy: NoneTokenPolicy::Error,
        ..Default::default()
    };
    let err = normalize("ভালো াা লাগে ৗ", &opts).unwrap_err();
    assert_eq!(err.position, 2);
    assert_eq!(err.token, "াা");
    assert_eq!(err.message(), "Bangla word at position 2 normalized to None: 'াা'");
}

#[test]
fn error_message_with_large_position() {
    let err = SentenceNormalizeError { token: "x".to_string(), position: 1207 };
    assert_eq!(err.message(), "Bangla word at position 1207 normalized to None: 'x'");
}

#[test]
fn keep_original_leaves_failed_token() {
    assert_eq!(norm("ভালো াা লাগে"), "ভালো াা লাগে");
}

#[test]
fn text_without_bangla_is_unchanged() {
    // Law: text with no Bangla-block character comes back unchanged.
    let input = "Hello, world! 123 😊\tend";
    for policy in [NoneTokenPolicy::Drop, NoneTokenPolicy::Error, NoneTokenPolicy::Collect] {
        let opts = SentenceNormalizeOptions { none_policy: policy, allow_english: false };
        let r = normalize(input, &opts).unwrap();
        assert_eq!(r.text, input);
        assert!(r.failed_tokens.is_empty());
    }
}

#[test]
fn policy_names() {
    assert!(matches!(none_policy_from_name("drop"), Some(NoneTokenPolicy::Drop)));
    assert!(matches!(none_policy_from_name("keep_original"), Some(NoneTokenPolicy::KeepOriginal)));
    assert!(matches!(none_policy_from_name("error"), Some(NoneTokenPolicy::Error)));
    assert!(matches!(none_policy_from_name("collect"), Some(NoneTokenPolicy::Collect)));
    assert!(matches!(none_policy_from_name("drop_and_collect"), Some(NoneTokenPolicy::DropAndCollect)));
    assert!(none_policy_from_name("dropp").is_none());
    assert!(none_policy_from_name("").is_none());
}

#[test]
fn readme_sentence_example() {
    assert_eq!(norm("আমি Python 😊 শিখছি"), "আমি Python 😊 শিখছি");
}
