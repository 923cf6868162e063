use bn_normalize_rs::sentence::tokenizer::{
    classify_char, classify_with, is_decimal_digit, is_white_space, tokenize, TokenKind, DECIMAL_DIGIT_STARTS,
};

#[test]
fn test_pure_bangla() {
    let tokens = tokenize("আমি ভালো");
    assert_eq!(tokens.len(), 3);
    assert_eq!(tokens[0].kind, TokenKind::BanglaWord);
    assert_eq!(tokens[0].text, "আমি");
    assert_eq!(tokens[1].kind, TokenKind::Whitespace);
    assert_eq!(tokens[2].kind, TokenKind::BanglaWord);
    assert_eq!(tokens[2].text, "ভালো");
}

#[test]
fn tokenizer_test_mixed_bangla_english() {
    let tokens = tokenize("আমি love বাংলা");
    assert_eq!(tokens.len(), 5);
    assert_eq!(tokens[0].kind, TokenKind::BanglaWord);
    assert_eq!(tokens[1].kind, TokenKind::Whitespace);
    assert_eq!(tokens[2].kind, TokenKind::NonBangla);
    assert_eq!(tokens[2].text, "love");
    assert_eq!(tokens[3].kind, TokenKind::Whitespace);
    assert_eq!(tokens[4].kind, TokenKind::BanglaWord);
}

#[test]
fn test_punctuation() {
    let tokens = tokenize("হ্যালো, কেমন?");
    // হ্যালো | , | (space) | কেমন | ?
    assert_eq!(tokens.len(), 5);
    assert_eq!(tokens[1].kind, TokenKind::Punctuation);
    assert_eq!(tokens[1].text, ",");
    assert_eq!(tokens[4].kind, TokenKind::Punctuation);
    assert_eq!(tokens[4].text, "?");
}

#[test]
fn test_emoji() {
    let tokens = tokenize("ভালো 😊 লাগছে");
    assert_eq!(tokens.len(), 5);
    assert_eq!(tokens[2].kind, TokenKind::Emoji);
    assert_eq!(tokens[2].text, "😊");
}

#[test]
fn test_digits() {
    let tokens = tokenize("২০২৪ and 2024");
    // ২০২৪ is Bangla digits (U+09E6–U+09EF) → BanglaWord
    // 2024 is ASCII digits → Digit
    assert_eq!(tokens[0].kind, TokenKind::BanglaWord);
    assert_eq!(tokens[0].text, "২০২৪");
    let digit_token = tokens.iter().find(|t| t.kind == TokenKind::Digit).unwrap();
    assert_eq!(digit_token.text, "2024");
}

#[test]
fn test_multiple_spaces() {
    let tokens = tokenize("a   b");
    assert_eq!(tokens.len(), 3);
    assert_eq!(tokens[1].kind, TokenKind::Whitespace);
    assert_eq!(tokens[1].text, "   ");
}

#[test]
fn test_empty() {
    assert!(tokenize("").is_empty());
}

#[test]
fn test_url_like() {
    let tokens = tokenize("see https://example.com here");
    // URLs break into multiple tokens (letters, punct, digits)
    // The important thing is they don't get classified as BanglaWord
    for t in &tokens {
        if t.text.contains("example") || t.text.contains("https") {
            assert_ne!(t.kind, TokenKind::BanglaWord);
        }
    }
}

#[test]
fn test_roundtrip() {
    // All tokens concatenated should equal the original text
    let input = "আমি 😊 love বাংলা 123, হ্যাঁ!";
    let tokens = tokenize(input);
    let reconstructed: String = tokens.iter().map(|t| t.text.as_str()).collect();
    assert_eq!(reconstructed, input);
}

// ─── Further cases ─────────────────────────────────────────────────────────

#[test]
fn classify_with_order_of_checks() {
    assert_eq!(classify_with('ক', true), TokenKind::BanglaWord);
    assert_eq!(classify_with(' ', true), TokenKind::Whitespace);
    assert_eq!(classify_with('7', false), TokenKind::Digit);
    assert_eq!(classify_with('😊', false), TokenKind::Emoji);
    assert_eq!(classify_with('!', false), TokenKind::Punctuation);
    assert_eq!(classify_with('\u{2014}', false), TokenKind::Punctuation);
    assert_eq!(classify_with('x', true), TokenKind::NonBangla);
    assert_eq!(classify_with('x', false), TokenKind::Punctuation);
}

#[test]
fn adjacent_tokens_differ_in_kind() {
    let tokens = tokenize("ab  cd!!১২ x");
    for w in tokens.windows(2) {
        assert_ne!(w[0].kind, w[1].kind);
    }
    let texts: Vec<&str> = tokens.iter().map(|t| t.text.as_str()).collect();
    assert_eq!(texts, vec!["ab", "  ", "cd", "!!", "১২", " ", "x"]);
}

#[test]
fn zwj_outside_bangla_is_emoji() {
    let tokens = tokenize("a\u{200D}b");
    assert_eq!(tokens.len(), 3);
    assert_eq!(tokens[1].kind, TokenKind::Emoji);
}

#[test]
fn digits_of_other_scripts_are_digits() {
    assert_eq!(classify_char('\u{0967}'), TokenKind::Digit);
    assert_eq!(classify_char('\u{0661}'), TokenKind::Digit);
    assert_eq!(classify_char('\u{FF15}'), TokenKind::Digit);
    assert_eq!(classify_char('\u{00BD}'), TokenKind::Punctuation);
    let tokens = tokenize("१२ ab");
    assert_eq!(tokens[0].kind, TokenKind::Digit);
    assert_eq!(tokens[0].text, "१२");
}

#[test]
fn white_space_agrees_with_std() {
    for cp in 0u32..=0x10FFFF {
        if let Some(c) = char::from_u32(cp) {
            assert_eq!(is_white_space(c), c.is_whitespace(), "U+{:04X}", cp);
        }
    }
}

#[test]
fn decimal_digit_table_is_numeric() {
    for &start in DECIMAL_DIGIT_STARTS.iter() {
        for d in 0..10u32 {
            let c = char::from_u32(start + d).unwrap();
            assert!(c.is_numeric(), "U+{:04X}", start + d);
            assert!(is_decimal_digit(c));
        }
    }
    assert!(!is_decimal_digit('a'));
    assert!(!is_decimal_digit('\u{00B2}'));
}
