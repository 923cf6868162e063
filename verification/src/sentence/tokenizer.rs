//! Tokenizer for sentence-level normalization.
//!
//! Each character is classified, and adjacent characters of the same class
//! are merged into one token, so that the tokens put together give back the
//! input exactly.

use vstd::prelude::*;

use crate::text::chars_of;

verus! {

/// The kind of a token.
#[derive(Debug, Clone, PartialEq, Eq, Structural)]
pub enum TokenKind {
    /// Characters of the Bangla block (U+0980–U+09FF).
    BanglaWord,
    /// Whitespace (spaces, tabs, newlines).
    Whitespace,
    /// Punctuation characters.
    Punctuation,
    /// Emoji and emoticons.
    Emoji,
    /// Digit characters (any script).
    Digit,
    /// Letters of other scripts (Latin, Devanagari, …).
    NonBangla,
}

/// A token with its text and classification.
#[derive(Debug, Clone)]
pub struct Token {
    pub text: String,
    pub kind: TokenKind,
}

/// Whether `c` has the Unicode Alphabetic property, as std's
/// `char::is_alphabetic` decides it.
pub uninterp spec fn unicode_alphabetic(c: char) -> bool;

/// std's `char::is_alphabetic`.  Its result is named `unicode_alphabetic`;
/// nothing more of it is stated here (the property is defined by the
/// Unicode Character Database).
#[verifier::external_body]
fn char_is_alphabetic(c: char) -> (r: bool)
    ensures
        r == unicode_alphabetic(c),
{
    c.is_alphabetic()
}

/// The Unicode White_Space property: U+0009–U+000D, U+0020, U+0085,
/// U+00A0, U+1680, U+2000–U+200A, U+2028, U+2029, U+202F, U+205F, U+3000.
pub open spec fn spec_is_white_space(c: char) -> bool {
    let cp = c as u32;
    ||| (0x9 <= cp && cp <= 0xD)
    ||| cp == 0x20
    ||| cp == 0x85
    ||| cp == 0xA0
    ||| cp == 0x1680
    ||| (0x2000 <= cp && cp <= 0x200A)
    ||| cp == 0x2028
    ||| cp == 0x2029
    ||| cp == 0x202F
    ||| cp == 0x205F
    ||| cp == 0x3000
}

/// Whether `c` has the Unicode White_Space property.
pub fn is_white_space(c: char) -> (r: bool)
    ensures
        r == spec_is_white_space(c),
{
    let cp = c as u32;
    (0x9 <= cp && cp <= 0xD) || cp == 0x20 || cp == 0x85 || cp == 0xA0 || cp == 0x1680 || (0x2000
        <= cp && cp <= 0x200A) || cp == 0x2028 || cp == 0x2029 || cp == 0x202F || cp == 0x205F
        || cp == 0x3000
}

/// Number of entries of `DECIMAL_DIGIT_STARTS`.
pub const DECIMAL_DIGIT_BLOCKS: usize = 75;

/// The first code point of each run of ten decimal digits (Unicode general
/// category Nd), zero to nine, across all scripts.
pub const DECIMAL_DIGIT_STARTS: [u32; 75] = [
    0x0030, 0x0660, 0x06F0, 0x07C0, 0x0966, 0x09E6, 0x0A66, 0x0AE6, 0x0B66, 0x0BE6, 0x0C66,
    0x0CE6, 0x0D66, 0x0DE6, 0x0E50, 0x0ED0, 0x0F20, 0x1040, 0x1090, 0x17E0, 0x1810, 0x1946,
    0x19D0, 0x1A80, 0x1A90, 0x1B50, 0x1BB0, 0x1C40, 0x1C50, 0xA620, 0xA8D0, 0xA900, 0xA9D0,
    0xA9F0, 0xAA50, 0xABF0, 0xFF10, 0x104A0, 0x10D30, 0x10D40, 0x11066, 0x110F0, 0x11136,
    0x111D0, 0x112F0, 0x11450, 0x114D0, 0x11650, 0x116C0, 0x116D0, 0x116DA, 0x11730, 0x118E0,
    0x11950, 0x11BF0, 0x11C50, 0x11D50, 0x11DA0, 0x11F50, 0x16130, 0x16A60, 0x16AC0, 0x16B50,
    0x16D70, 0x1CCF0, 0x1D7CE, 0x1D7D8, 0x1D7E2, 0x1D7EC, 0x1D7F6, 0x1E140, 0x1E2F0, 0x1E4F0,
    0x1E950, 0x1FBF0,
];

/// `c` is a decimal digit of some script.
pub open spec fn spec_is_decimal_digit(c: char) -> bool {
    exists|i: int|
        0 <= i < DECIMAL_DIGIT_BLOCKS && #[trigger] DECIMAL_DIGIT_STARTS@[i] <= (c as u32) && (c as u32)
            < DECIMAL_DIGIT_STARTS@[i] + 10
}

/// Whether `c` is a decimal digit of some script.
pub fn is_decimal_digit(c: char) -> (r: bool)
    ensures
        r == spec_is_decimal_digit(c),
{
    let cp = c as u32;
    let mut i: usize = 0;
    while i < DECIMAL_DIGIT_BLOCKS
        invariant
            i <= DECIMAL_DIGIT_BLOCKS,
            cp == c as u32,
            forall|k: int|
                0 <= k < i ==> !(#[trigger] DECIMAL_DIGIT_STARTS@[k] <= cp && cp
                    < DECIMAL_DIGIT_STARTS@[k] + 10),
        decreases DECIMAL_DIGIT_BLOCKS - i,
    {
        let start = DECIMAL_DIGIT_STARTS[i];
        if start <= cp && cp - start < 10 {
            return true;
        }
        i = i + 1;
    }
    false
}

/// The Bangla block U+0980–U+09FF.
pub open spec fn spec_is_bangla_block(c: char) -> bool {
    '\u{0980}' <= c && c <= '\u{09FF}'
}

/// ASCII punctuation: U+0021–U+002F, U+003A–U+0040, U+005B–U+0060,
/// U+007B–U+007E.
pub open spec fn spec_is_ascii_punctuation(c: char) -> bool {
    ('!' <= c && c <= '/') || (':' <= c && c <= '@') || ('[' <= c && c <= '`') || ('{' <= c && c
        <= '~')
}

/// The common emoji ranges, variation selectors and the zero width joiner.
pub open spec fn spec_is_emoji(c: char) -> bool {
    let cp = c as u32;
    ||| (0x1F600 <= cp && cp <= 0x1F64F)
    ||| (0x1F300 <= cp && cp <= 0x1F5FF)
    ||| (0x1F680 <= cp && cp <= 0x1F6FF)
    ||| (0x1F900 <= cp && cp <= 0x1F9FF)
    ||| (0x1FA00 <= cp && cp <= 0x1FA6F)
    ||| (0x1FA70 <= cp && cp <= 0x1FAFF)
    ||| (0x2600 <= cp && cp <= 0x26FF)
    ||| (0x2700 <= cp && cp <= 0x27BF)
    ||| (0x1F1E0 <= cp && cp <= 0x1F1FF)
    ||| cp == 0xFE0F
    ||| cp == 0xFE0E
    ||| cp == 0x200D
}

/// Unicode punctuation beyond ASCII: General Punctuation, CJK symbols and
/// punctuation, fullwidth punctuation, and the dandas । ॥.
pub open spec fn spec_is_unicode_punctuation(c: char) -> bool {
    let cp = c as u32;
    ||| (0x2000 <= cp && cp <= 0x206F)
    ||| (0x3000 <= cp && cp <= 0x303F)
    ||| (0xFF00 <= cp && cp <= 0xFF0F)
    ||| (0xFF1A <= cp && cp <= 0xFF20)
    ||| (0xFF3B <= cp && cp <= 0xFF40)
    ||| (0xFF5B <= cp && cp <= 0xFF65)
    ||| cp == 0x0964
    ||| cp == 0x0965
}

/// Whether `c` is one of the common emoji characters.
pub fn is_emoji(c: char) -> (r: bool)
    ensures
        r == spec_is_emoji(c),
{
    let cp = c as u32;
    (0x1F600 <= cp && cp <= 0x1F64F) || (0x1F300 <= cp && cp <= 0x1F5FF) || (0x1F680 <= cp && cp
        <= 0x1F6FF) || (0x1F900 <= cp && cp <= 0x1F9FF) || (0x1FA00 <= cp && cp <= 0x1FA6F) || (
    0x1FA70 <= cp && cp <= 0x1FAFF) || (0x2600 <= cp && cp <= 0x26FF) || (0x2700 <= cp && cp
        <= 0x27BF) || (0x1F1E0 <= cp && cp <= 0x1F1FF) || cp == 0xFE0F || cp == 0xFE0E || cp
        == 0x200D
}

/// Whether `c` is Unicode punctuation beyond ASCII.
pub fn is_unicode_punctuation(c: char) -> (r: bool)
    ensures
        r == spec_is_unicode_punctuation(c),
{
    let cp = c as u32;
    (0x2000 <= cp && cp <= 0x206F) || (0x3000 <= cp && cp <= 0x303F) || (0xFF00 <= cp && cp
        <= 0xFF0F) || (0xFF1A <= cp && cp <= 0xFF20) || (0xFF3B <= cp && cp <= 0xFF40) || (0xFF5B
        <= cp && cp <= 0xFF65) || cp == 0x0964 || cp == 0x0965
}

/// The kind of `c`, given whether it is alphabetic: Bangla block first,
/// then whitespace, decimal digits of any script, emoji, punctuation,
/// letters of other scripts, and punctuation for the rest.
pub open spec fn spec_classify_with(c: char, alphabetic: bool) -> TokenKind {
    if spec_is_bangla_block(c) {
        TokenKind::BanglaWord
    } else if spec_is_white_space(c) {
        TokenKind::Whitespace
    } else if spec_is_decimal_digit(c) {
        TokenKind::Digit
    } else if spec_is_emoji(c) {
        TokenKind::Emoji
    } else if spec_is_ascii_punctuation(c) || spec_is_unicode_punctuation(c) {
        TokenKind::Punctuation
    } else if alphabetic {
        TokenKind::NonBangla
    } else {
        TokenKind::Punctuation
    }
}

/// The kind of `c`.
pub open spec fn spec_classify_char(c: char) -> TokenKind {
    spec_classify_with(c, unicode_alphabetic(c))
}

/// Classifies `c` given its Alphabetic property.
pub fn classify_with(c: char, alphabetic: bool) -> (r: TokenKind)
    ensures
        r == spec_classify_with(c, alphabetic),
{
    if '\u{0980}' <= c && c <= '\u{09FF}' {
        return TokenKind::BanglaWord;
    }
    if is_white_space(c) {
        return TokenKind::Whitespace;
    }
    if is_decimal_digit(c) {
        return TokenKind::Digit;
    }
    if is_emoji(c) {
        return TokenKind::Emoji;
    }
    if (('!' <= c && c <= '/') || (':' <= c && c <= '@') || ('[' <= c && c <= '`') || ('{' <= c
        && c <= '~')) || is_unicode_punctuation(c) {
        return TokenKind::Punctuation;
    }
    if alphabetic {
        return TokenKind::NonBangla;
    }
    TokenKind::Punctuation
}

/// Classifies a single character.
pub fn classify_char(c: char) -> (r: TokenKind)
    ensures
        r == spec_classify_char(c),
{
    let alphabetic = char_is_alphabetic(c);
    classify_with(c, alphabetic)
}

/// The tokens of the first `n` characters of `text`, each as its text and
/// kind.
pub open spec fn tokenize_prefix(text: Seq<char>, n: nat) -> Seq<(Seq<char>, TokenKind)>
    decreases n,
{
    if n == 0 {
        Seq::empty()
    } else {
        let prev = tokenize_prefix(text, (n - 1) as nat);
        let c = text[n - 1];
        let k = spec_classify_char(c);
        if prev.len() > 0 && prev.last().1 == k {
            prev.update(prev.len() - 1, (prev.last().0.push(c), k))
        } else {
            prev.push((seq![c], k))
        }
    }
}

/// The tokens of `text`.
pub open spec fn spec_tokenize(text: Seq<char>) -> Seq<(Seq<char>, TokenKind)> {
    tokenize_prefix(text, text.len())
}

/// The tokens as pairs of text and kind.
pub open spec fn tokens_view(tokens: Seq<Token>) -> Seq<(Seq<char>, TokenKind)> {
    Seq::new(tokens.len(), |i: int| (tokens[i].text@, tokens[i].kind))
}

/// Splits `text` into tokens: runs of adjacent characters of the same kind.
pub fn tokenize(text: &str) -> (r: Vec<Token>)
    ensures
        tokens_view(r@) == spec_tokenize(text@),
{
    let chars = chars_of(text);
    let mut tokens: Vec<Token> = Vec::new();
    let mut i: usize = 0;
    assert(tokens_view(tokens@) =~= tokenize_prefix(chars@, 0));
    while i < chars.len()
        invariant
            i <= chars.len(),
            chars@ == text@,
            tokens_view(tokens@) == tokenize_prefix(chars@, i as nat),
        decreases chars.len() - i,
    {
        let c = chars[i];
        let kind = classify_char(c);
        let ghost prev = tokens_view(tokens@);
        let n = tokens.len();
        if n > 0 && tokens[n - 1].kind == kind {
            let mut last = tokens.pop().unwrap();
            let ghost last_text = last.text@;
            crate::text::push_chars(&mut last.text, &vec![c]);
            assert(last.text@ =~= last_text.push(c));
            tokens.push(last);
            assert(tokens_view(tokens@) =~= prev.update(prev.len() - 1, (prev.last().0.push(c), kind)));
        } else {
            let mut t = String::new();
            crate::text::push_chars(&mut t, &vec![c]);
            assert(t@ =~= seq![c]);
            tokens.push(Token { text: t, kind });
            assert(tokens_view(tokens@) =~= prev.push((seq![c], kind)));
        }
        i = i + 1;
    }
    tokens
}


// ─── Laws of the tokenizer ──────────────────────────────────────────────────

/// The texts of the tokens, put together.
pub open spec fn concat_texts(tokens: Seq<(Seq<char>, TokenKind)>) -> Seq<char>
    decreases tokens.len(),
{
    if tokens.len() == 0 {
        Seq::empty()
    } else {
        concat_texts(tokens.drop_last()) + tokens.last().0
    }
}

/// The tokens are maximal runs of characters of one kind: none is empty,
/// every character of a token has the token's kind, and neighbouring tokens
/// differ in kind.
pub open spec fn maximal_runs(tokens: Seq<(Seq<char>, TokenKind)>) -> bool {
    &&& forall|i: int| 0 <= i < tokens.len() ==> (#[trigger] tokens[i]).0.len() > 0
    &&& forall|i: int, j: int|
        0 <= i < tokens.len() && 0 <= j < tokens[i].0.len() ==> spec_classify_char(
            #[trigger] tokens[i].0[j],
        ) == tokens[i].1
    &&& forall|i: int| 0 <= i < tokens.len() - 1 ==> (#[trigger] tokens[i]).1 != tokens[i + 1].1
}

proof fn lemma_tokenize_prefix(text: Seq<char>, n: nat)
    requires
        n <= text.len(),
    ensures
        concat_texts(tokenize_prefix(text, n)) == text.take(n as int),
        maximal_runs(tokenize_prefix(text, n)),
    decreases n,
{
    if n > 0 {
        lemma_tokenize_prefix(text, (n - 1) as nat);
        let prev = tokenize_prefix(text, (n - 1) as nat);
        let c = text[n - 1];
        let k = spec_classify_char(c);
        let cur = tokenize_prefix(text, n);
        assert(text.take(n as int) =~= text.take(n - 1).push(c));
        if prev.len() > 0 && prev.last().1 == k {
            assert(cur.drop_last() =~= prev.drop_last());
            assert(concat_texts(prev) == concat_texts(prev.drop_last()) + prev.last().0);
            assert(concat_texts(cur) =~= concat_texts(prev).push(c));
            assert forall|i: int, j: int|
                0 <= i < cur.len() && 0 <= j < cur[i].0.len() implies spec_classify_char(
                #[trigger] cur[i].0[j],
            ) == cur[i].1 by {
                if i == cur.len() - 1 && j == cur[i].0.len() - 1 {
                    assert(cur[i].0[j] == c);
                } else if i == cur.len() - 1 {
                    assert(cur[i].0[j] == prev[i].0[j]);
                }
            }
        } else {
            assert(cur.drop_last() =~= prev);
            assert(concat_texts(cur) =~= concat_texts(prev) + seq![c]);
            assert forall|i: int, j: int|
                0 <= i < cur.len() && 0 <= j < cur[i].0.len() implies spec_classify_char(
                #[trigger] cur[i].0[j],
            ) == cur[i].1 by {
                if i == cur.len() - 1 {
                    assert(cur[i].0[j] == c);
                } else {
                    assert(cur[i] == prev[i]);
                }
            }
        }
    } else {
        assert(text.take(0) =~= Seq::<char>::empty());
    }
}

/// Putting the tokens' texts together gives back the input exactly.
pub proof fn law_tokens_rebuild_text(text: Seq<char>)
    ensures
        concat_texts(spec_tokenize(text)) == text,
{
    lemma_tokenize_prefix(text, text.len());
    assert(text.take(text.len() as int) =~= text);
}

/// The tokens are maximal runs of characters of one kind.
pub proof fn law_tokens_are_maximal_runs(text: Seq<char>)
    ensures
        maximal_runs(spec_tokenize(text)),
{
    lemma_tokenize_prefix(text, text.len());
}

} // verus!
