//! Character tables of the Bangla script and the membership tests that the
//! normalizer is built on.  Each table is a spec predicate together with an
//! executable test that is proved to agree with it.

use vstd::prelude::*;

use crate::text::{chars_match_str};

verus! {

/// The nukta sign (U+09BC).
pub const NUKTA: char = '\u{09BC}';

/// The hosonto / virama (U+09CD), which joins consonants into conjuncts.
pub const CONNECTOR: char = '\u{09CD}';

/// The khanda ta (U+09CE).
pub const KHANDOTA: char = 'ৎ';

/// Zero width joiner (U+200D).
pub const ZWJ: char = '\u{200D}';

/// Zero width non-joiner (U+200C).
pub const ZWNJ: char = '\u{200C}';

// ─── Core character classes ──────────────────────────────────────────────

/// Independent vowels: অ আ ই ঈ উ ঊ ঋ এ ঐ ও ঔ.
pub open spec fn spec_is_vowel(c: char) -> bool {
    ('\u{0985}' <= c && c <= '\u{098B}') || c == '\u{098F}' || c == '\u{0990}' || c == '\u{0993}'
        || c == '\u{0994}'
}

#[verifier::when_used_as_spec(spec_is_vowel)]
pub fn is_vowel(c: char) -> (r: bool)
    ensures
        r == spec_is_vowel(c),
{
    ('\u{0985}' <= c && c <= '\u{098B}') || c == '\u{098F}' || c == '\u{0990}' || c == '\u{0993}'
        || c == '\u{0994}'
}

/// Single-codepoint consonants ক … হ, ৎ, and the pre-composed ড় ঢ় য়.
pub open spec fn spec_is_consonant(c: char) -> bool {
    ('\u{0995}' <= c && c <= '\u{09A8}') || ('\u{09AA}' <= c && c <= '\u{09B0}') || c == '\u{09B2}'
        || ('\u{09B6}' <= c && c <= '\u{09B9}') || c == '\u{09CE}' || c == '\u{09DC}' || c
        == '\u{09DD}' || c == '\u{09DF}'
}

#[verifier::when_used_as_spec(spec_is_consonant)]
pub fn is_consonant(c: char) -> (r: bool)
    ensures
        r == spec_is_consonant(c),
{
    ('\u{0995}' <= c && c <= '\u{09A8}') || ('\u{09AA}' <= c && c <= '\u{09B0}') || c == '\u{09B2}'
        || ('\u{09B6}' <= c && c <= '\u{09B9}') || c == '\u{09CE}' || c == '\u{09DC}' || c
        == '\u{09DD}' || c == '\u{09DF}'
}

/// Vowel signs: া ি ী ু ূ ৃ ে ৈ ো ৌ.
pub open spec fn spec_is_vowel_diacritic(c: char) -> bool {
    ('\u{09BE}' <= c && c <= '\u{09C3}') || c == '\u{09C7}' || c == '\u{09C8}' || c == '\u{09CB}'
        || c == '\u{09CC}'
}

#[verifier::when_used_as_spec(spec_is_vowel_diacritic)]
pub fn is_vowel_diacritic(c: char) -> (r: bool)
    ensures
        r == spec_is_vowel_diacritic(c),
{
    ('\u{09BE}' <= c && c <= '\u{09C3}') || c == '\u{09C7}' || c == '\u{09C8}' || c == '\u{09CB}'
        || c == '\u{09CC}'
}

/// Consonant signs: ঁ ং ঃ.
pub open spec fn spec_is_consonant_diacritic(c: char) -> bool {
    '\u{0981}' <= c && c <= '\u{0983}'
}

#[verifier::when_used_as_spec(spec_is_consonant_diacritic)]
pub fn is_consonant_diacritic(c: char) -> (r: bool)
    ensures
        r == spec_is_consonant_diacritic(c),
{
    '\u{0981}' <= c && c <= '\u{0983}'
}

/// All diacritics: the vowel signs and the consonant signs.
pub open spec fn spec_is_diacritic(c: char) -> bool {
    spec_is_vowel_diacritic(c) || spec_is_consonant_diacritic(c)
}

#[verifier::when_used_as_spec(spec_is_diacritic)]
pub fn is_diacritic(c: char) -> (r: bool)
    ensures
        r == spec_is_diacritic(c),
{
    is_vowel_diacritic(c) || is_consonant_diacritic(c)
}

/// Bangla digits ০ … ৯.
pub open spec fn spec_is_number(c: char) -> bool {
    '\u{09E6}' <= c && c <= '\u{09EF}'
}

#[verifier::when_used_as_spec(spec_is_number)]
pub fn is_number(c: char) -> (r: bool)
    ensures
        r == spec_is_number(c),
{
    '\u{09E6}' <= c && c <= '\u{09EF}'
}

/// Codepoints of the Bangla block that carry no glyph of their own.
pub open spec fn spec_is_non_glyph(c: char) -> bool {
    c == '\u{0984}' || c == '\u{098D}' || c == '\u{098E}' || c == '\u{0991}' || c == '\u{0992}'
        || c == '\u{09A9}' || c == '\u{09B1}' || ('\u{09B3}' <= c && c <= '\u{09B5}') || c
        == '\u{09BA}' || c == '\u{09BB}' || c == '\u{09C5}' || c == '\u{09C6}' || c == '\u{09C9}'
        || c == '\u{09CA}' || ('\u{09CF}' <= c && c <= '\u{09D6}') || ('\u{09D8}' <= c && c
        <= '\u{09DB}') || c == '\u{09DE}' || c == '\u{09E4}' || c == '\u{09E5}' || ('\u{09FC}'
        <= c && c <= '\u{09FF}')
}

#[verifier::when_used_as_spec(spec_is_non_glyph)]
pub fn is_non_glyph(c: char) -> (r: bool)
    ensures
        r == spec_is_non_glyph(c),
{
    c == '\u{0984}' || c == '\u{098D}' || c == '\u{098E}' || c == '\u{0991}' || c == '\u{0992}'
        || c == '\u{09A9}' || c == '\u{09B1}' || ('\u{09B3}' <= c && c <= '\u{09B5}') || c
        == '\u{09BA}' || c == '\u{09BB}' || c == '\u{09C5}' || c == '\u{09C6}' || c == '\u{09C9}'
        || c == '\u{09CA}' || ('\u{09CF}' <= c && c <= '\u{09D6}') || ('\u{09D8}' <= c && c
        <= '\u{09DB}') || c == '\u{09DE}' || c == '\u{09E4}' || c == '\u{09E5}' || ('\u{09FC}'
        <= c && c <= '\u{09FF}')
}

/// Legacy symbols: ৺ ৻ ঀ ঌ ৡ ঽ ৠ ৲ ৴ ৵ ৶ ৷ ৸ ৹.
pub open spec fn spec_is_legacy_symbol(c: char) -> bool {
    c == '\u{09FA}' || c == '\u{09FB}' || c == '\u{0980}' || c == '\u{098C}' || c == '\u{09E1}'
        || c == '\u{09BD}' || c == '\u{09E0}' || c == '\u{09F2}' || ('\u{09F4}' <= c && c
        <= '\u{09F9}')
}

#[verifier::when_used_as_spec(spec_is_legacy_symbol)]
pub fn is_legacy_symbol(c: char) -> (r: bool)
    ensures
        r == spec_is_legacy_symbol(c),
{
    c == '\u{09FA}' || c == '\u{09FB}' || c == '\u{0980}' || c == '\u{098C}' || c == '\u{09E1}'
        || c == '\u{09BD}' || c == '\u{09E0}' || c == '\u{09F2}' || ('\u{09F4}' <= c && c
        <= '\u{09F9}')
}

/// The punctuation marks that the normalizer knows:
/// ! " ' ( ) , - . : ; < = > ? [ ] { } । ৷ – — ” √
pub open spec fn spec_is_punctuation(c: char) -> bool {
    c == '!' || c == '"' || c == '\'' || c == '(' || c == ')' || c == ',' || c == '-' || c == '.'
        || c == ':' || c == ';' || c == '<' || c == '=' || c == '>' || c == '?' || c == '[' || c
        == ']' || c == '{' || c == '}' || c == '\u{0964}' || c == '\u{09F7}' || c == '\u{2013}'
        || c == '\u{2014}' || c == '\u{201D}' || c == '\u{221A}'
}

#[verifier::when_used_as_spec(spec_is_punctuation)]
pub fn is_punctuation(c: char) -> (r: bool)
    ensures
        r == spec_is_punctuation(c),
{
    c == '!' || c == '"' || c == '\'' || c == '(' || c == ')' || c == ',' || c == '-' || c == '.'
        || c == ':' || c == ';' || c == '<' || c == '=' || c == '>' || c == '?' || c == '[' || c
        == ']' || c == '{' || c == '}' || c == '\u{0964}' || c == '\u{09F7}' || c == '\u{2013}'
        || c == '\u{2014}' || c == '\u{201D}' || c == '\u{221A}'
}

/// The taka sign ৳.
pub const TAKA: char = '\u{09F3}';

// ─── Composed classes ───────────────────────────────────────────────────

/// Characters after which a diacritic cannot stand: digits, punctuation,
/// the taka sign, glyph-less codepoints and legacy symbols.
pub open spec fn spec_is_non_char(c: char) -> bool {
    spec_is_number(c) || spec_is_punctuation(c) || c == TAKA || spec_is_non_glyph(c)
        || spec_is_legacy_symbol(c)
}

#[verifier::when_used_as_spec(spec_is_non_char)]
pub fn is_non_char(c: char) -> (r: bool)
    ensures
        r == spec_is_non_char(c),
{
    is_number(c) || is_punctuation(c) || c == TAKA || is_non_glyph(c) || is_legacy_symbol(c)
}

/// Characters that a normalized Bangla word may hold: the space, vowels,
/// consonants, diacritics, digits, punctuation, the hosonto, ZWJ and ZWNJ.
pub open spec fn spec_is_valid_char(c: char) -> bool {
    c == ' ' || spec_is_vowel(c) || spec_is_consonant(c) || spec_is_vowel_diacritic(c)
        || spec_is_consonant_diacritic(c) || spec_is_number(c) || spec_is_punctuation(c) || c
        == CONNECTOR || c == ZWJ || c == ZWNJ
}

#[verifier::when_used_as_spec(spec_is_valid_char)]
pub fn is_valid_char(c: char) -> (r: bool)
    ensures
        r == spec_is_valid_char(c),
{
    c == ' ' || is_vowel(c) || is_consonant(c) || is_vowel_diacritic(c) || is_consonant_diacritic(
        c,
    ) || is_number(c) || is_punctuation(c) || c == CONNECTOR || c == ZWJ || c == ZWNJ
}

/// Characters that cannot begin a word: diacritics and the hosonto.
pub open spec fn spec_is_invalid_start(c: char) -> bool {
    spec_is_diacritic(c) || c == CONNECTOR
}

#[verifier::when_used_as_spec(spec_is_invalid_start)]
pub fn is_invalid_start(c: char) -> (r: bool)
    ensures
        r == spec_is_invalid_start(c),
{
    is_diacritic(c) || c == CONNECTOR
}

/// Characters that cannot stand on either side of a hosonto.
pub open spec fn spec_is_invalid_connector(c: char) -> bool {
    spec_is_invalid_start(c) || spec_is_vowel(c) || c == KHANDOTA || spec_is_number(c)
        || spec_is_punctuation(c)
}

#[verifier::when_used_as_spec(spec_is_invalid_connector)]
pub fn is_invalid_connector(c: char) -> (r: bool)
    ensures
        r == spec_is_invalid_connector(c),
{
    is_invalid_start(c) || is_vowel(c) || c == KHANDOTA || is_number(c) || is_punctuation(c)
}

/// English letters, digits and ASCII punctuation: the printable ASCII range
/// without the space.
pub open spec fn spec_is_english_valid(c: char) -> bool {
    '!' <= c && c <= '~'
}

#[verifier::when_used_as_spec(spec_is_english_valid)]
pub fn is_english_valid(c: char) -> (r: bool)
    ensures
        r == spec_is_english_valid(c),
{
    '!' <= c && c <= '~'
}

/// Consonants that may follow ত্ without it becoming ৎ: ত থ ন ব ম য র.
pub open spec fn spec_is_valid_after_to_hosonto(c: char) -> bool {
    c == '\u{09A4}' || c == '\u{09A5}' || c == '\u{09A8}' || c == '\u{09AC}' || c == '\u{09AE}'
        || c == '\u{09AF}' || c == '\u{09B0}'
}

#[verifier::when_used_as_spec(spec_is_valid_after_to_hosonto)]
pub fn is_valid_after_to_hosonto(c: char) -> (r: bool)
    ensures
        r == spec_is_valid_after_to_hosonto(c),
{
    c == '\u{09A4}' || c == '\u{09A5}' || c == '\u{09A8}' || c == '\u{09AC}' || c == '\u{09AE}'
        || c == '\u{09AF}' || c == '\u{09B0}'
}

/// A character is valid under the word options when it is a valid Bangla
/// character, or an English one with English allowed, or a legacy symbol
/// with legacy symbols kept.
pub open spec fn spec_valid_with(c: char, allow_english: bool, keep_legacy: bool) -> bool {
    spec_is_valid_char(c) || (allow_english && spec_is_english_valid(c)) || (keep_legacy
        && spec_is_legacy_symbol(c))
}

#[verifier::when_used_as_spec(spec_valid_with)]
pub fn valid_with(c: char, allow_english: bool, keep_legacy: bool) -> (r: bool)
    ensures
        r == spec_valid_with(c, allow_english, keep_legacy),
{
    is_valid_char(c) || (allow_english && is_english_valid(c)) || (keep_legacy
        && is_legacy_symbol(c))
}

// ─── Nukta map ──────────────────────────────────────────────────────────

/// The consonant that a base consonant followed by a nukta composes to:
/// য → য় (U+09DF), ব → র, ড → ড় (U+09DC), ঢ → ঢ় (U+09DD).
pub open spec fn spec_nukta_target(c: char) -> Option<char> {
    if c == '\u{09AF}' {
        Some('\u{09DF}')
    } else if c == '\u{09AC}' {
        Some('\u{09B0}')
    } else if c == '\u{09A1}' {
        Some('\u{09DC}')
    } else if c == '\u{09A2}' {
        Some('\u{09DD}')
    } else {
        None
    }
}

#[verifier::when_used_as_spec(spec_nukta_target)]
pub fn nukta_target(c: char) -> (r: Option<char>)
    ensures
        r == spec_nukta_target(c),
{
    if c == '\u{09AF}' {
        Some('\u{09DF}')
    } else if c == '\u{09AC}' {
        Some('\u{09B0}')
    } else if c == '\u{09A1}' {
        Some('\u{09DC}')
    } else if c == '\u{09A2}' {
        Some('\u{09DD}')
    } else {
        None
    }
}

// ─── Conjuncts and complex roots ───────────────────────────────────────

/// Number of entries of `CONJUNCTS`.
pub const CONJUNCT_COUNT: usize = 350;

/// The conjunct formations accepted by the normalizer.
pub const CONJUNCTS: [&'static str; 350] = [
    "এ্য", "অ্য", "ক্ক", "ক্ট", "ক্ট্য", "ক্ট্র", "ক্ত", "ক্ত্র", "ক্ব", "ক্ম",
    "ক্য", "ক্র", "ক্র্য", "ক্ল", "ক্ল্য", "ক্ষ", "ক্ষ্ণ", "ক্ষ্ব", "ক্ষ্ম", "ক্ষ্ম্য",
    "ক্ষ্য", "ক্স", "ক্স্য", "খ্য", "খ্র", "গ্ণ", "গ্ধ", "গ্ধ্য", "গ্ধ্র", "গ্ন",
    "গ্ন্য", "গ্ব", "গ্ম", "গ্য", "গ্র", "গ্র্য", "গ্ল", "গ্ল্য", "ঘ্ন", "ঘ্য",
    "ঘ্র", "ঙ্ক", "ঙ্ক্ত", "ঙ্ক্য", "ঙ্ক্ষ", "ঙ্খ", "ঙ্খ্য", "ঙ্গ", "ঙ্গ্য", "ঙ্ঘ",
    "ঙ্ঘ্য", "ঙ্ঘ্র", "ঙ্ম", "চ্চ", "চ্ছ", "চ্ছ্ব", "চ্ছ্র", "চ্ঞ", "চ্ব", "চ্য",
    "জ্জ", "জ্জ্ব", "জ্ঝ", "জ্ঞ", "জ্ব", "জ্য", "জ্র", "ঞ্চ", "ঞ্ছ", "ঞ্জ",
    "ঞ্ঝ", "ট্ট", "ট্ব", "ট্ম", "ট্য", "ট্র", "ট্র্য", "ড্ড", "ড্ব", "ড্য",
    "ড্র", "ড্র্য", "ঢ্য", "ঢ্র", "ণ্ট", "ণ্ঠ", "ণ্ঠ্য", "ণ্ড", "ণ্ড্য", "ণ্ড্র",
    "ণ্ঢ", "ণ্ণ", "ণ্ব", "ণ্ম", "ণ্য", "ত্ত", "ত্ত্ব", "ত্ত্য", "ত্থ", "ত্ন",
    "ত্ব", "ত্ম", "ত্ম্য", "ত্য", "ত্র", "ত্র্য", "থ্ব", "থ্য", "থ্র", "থ্র্য",
    "দ্গ", "দ্ঘ", "দ্দ", "দ্দ্ব", "দ্ধ", "দ্ব", "দ্ভ", "দ্ভ্র", "দ্ম", "দ্য",
    "দ্র", "দ্র্য", "ধ্ন", "ধ্ব", "ধ্ম", "ধ্য", "ধ্র", "ন্ক", "ন্ট", "ন্ট্য",
    "ন্ট্র", "ন্ট্র্য", "ন্ঠ", "ন্ড", "ন্ড্ব", "ন্ড্য", "ন্ড্র", "ন্ত", "ন্ত্ব", "ন্ত্য",
    "ন্ত্র", "ন্ত্র্য", "ন্থ", "ন্থ্য", "ন্থ্র", "ন্দ", "ন্দ্ব", "ন্দ্য", "ন্দ্র", "ন্ধ",
    "ন্ধ্য", "ন্ধ্র", "ন্ন", "ন্ব", "ন্ম", "ন্য", "ন্শ্য", "ন্স", "ন্স্য", "প্ট",
    "প্ট্য", "প্ত", "প্ন", "প্প", "প্য", "প্র", "প্র্য", "প্ল", "প্ল্য", "প্স",
    "ফ্য", "ফ্র", "ফ্র্য", "ফ্ল", "ফ্ল্য", "ব্জ", "ব্দ", "ব্ধ", "ব্ব", "ব্য",
    "ব্র", "ব্র্য", "ব্ল", "ভ্ব", "ভ্য", "ভ্র", "ম্ন", "ম্ন্য", "ম্প", "ম্প্য",
    "ম্প্র", "ম্ফ", "ম্ব", "ম্ব্র", "ম্ভ", "ম্ভ্র", "ম্ম", "ম্য", "ম্র", "ম্ল",
    "য্য", "র্ক", "র্ক্ট", "র্ক্য", "র্খ", "র্গ", "র্গ্য", "র্গ্র", "র্ঘ", "র্ঘ্য",
    "র্চ", "র্চ্য", "র্ছ", "র্জ", "র্জ্ঞ", "র্জ্য", "র্ঝ", "র্ট", "র্ট্য", "র্ট্র",
    "র্ড", "র্ড্র", "র্ঢ্য", "র্ণ", "র্ণ্য", "র্ত", "র্ত্ম", "র্ত্য", "র্ত্র", "র্থ",
    "র্থ্য", "র্দ", "র্দ্ব", "র্দ্র", "র্ধ", "র্ধ্ব", "র্ন", "র্ন্ড", "র্প", "র্প্ট",
    "র্প্ল", "র্ফ", "র্ব", "র্ব্য", "র্ভ", "র্ম", "র্ম্থ", "র্ম্প", "র্ম্য", "র্য",
    "র্ল", "র্ল্ড", "র্ল্য", "র্শ", "র্শ্ব", "র্শ্য", "র্ষ", "র্ষ্য", "র্স", "র্স্ট",
    "র্স্ম", "র্স্য", "র্হ", "র্হ্য", "র\u{200D}্য", "ল্ক", "ল্ক্য", "ল্গ", "ল্চ", "ল্ট",
    "ল্ট্য", "ল্ট্র", "ল্ড", "ল্ড্য", "ল্ড্র", "ল্প", "ল্ফ", "ল্ব", "ল্ব্য", "ল্ভ",
    "ল্ম", "ল্য", "ল্ল", "শ্চ", "শ্ছ", "শ্ন", "শ্ব", "শ্ম", "শ্য", "শ্র",
    "শ্র্য", "শ্ল", "ষ্ক", "ষ্ক্র", "ষ্ট", "ষ্ট্য", "ষ্ট্র", "ষ্ঠ", "ষ্ঠ্য", "ষ্ণ",
    "ষ্প", "ষ্প্র", "ষ্ফ", "ষ্ব", "ষ্ম", "ষ্য", "স্ক", "স্ক্য", "স্ক্র", "স্ক্র্য",
    "স্খ", "স্চ", "স্ট", "স্ট্য", "স্ট্র", "স্ট্র্য", "স্ত", "স্ত্ব", "স্ত্য", "স্ত্র",
    "স্থ", "স্থ্য", "স্ন", "স্ন্য", "স্প", "স্প্য", "স্প্র", "স্প্র্য", "স্প্ল", "স্প্ল্য",
    "স্ফ", "স্ব", "স্ম", "স্ম্য", "স্য", "স্র", "স্ল", "স্ল্য", "হ্ণ", "হ্ন",
    "হ্ব", "হ্ম", "হ্য", "হ্র", "হ্ল", "\u{09DF}্য", "ব্ল্য", "র্ন্ত", "ঠ্য", "ভ্ল",
];

/// `t` is one of the accepted conjuncts.
pub open spec fn is_conjunct(t: Seq<char>) -> bool {
    exists|i: int| 0 <= i < CONJUNCT_COUNT && #[trigger] CONJUNCTS@[i]@ == t
}

/// Tests whether `t` is one of the accepted conjuncts.
pub fn conjunct_contains(t: &Vec<char>) -> (r: bool)
    ensures
        r == is_conjunct(t@),
{
    let mut i: usize = 0;
    while i < CONJUNCT_COUNT
        invariant
            i <= CONJUNCT_COUNT,
            forall|k: int| 0 <= k < i ==> #[trigger] CONJUNCTS@[k]@ != t@,
        decreases CONJUNCT_COUNT - i,
    {
        if chars_match_str(t, CONJUNCTS[i]) {
            return true;
        }
        i = i + 1;
    }
    false
}

/// Single characters that form a root on their own besides vowels,
/// consonants and digits: the space, the known punctuation and the taka sign.
pub open spec fn spec_is_root_symbol(c: char) -> bool {
    c == ' ' || spec_is_punctuation(c) || c == TAKA
}

/// The complex roots: single vowels, consonants, digits and symbols, the
/// strings "..." and ":-", and the conjuncts.
pub open spec fn is_complex_root(t: Seq<char>) -> bool {
    ||| (t.len() == 1 && (spec_is_vowel(t[0]) || spec_is_consonant(t[0]) || spec_is_number(t[0])
        || spec_is_root_symbol(t[0])))
    ||| t == seq!['.', '.', '.']
    ||| t == seq![':', '-']
    ||| is_conjunct(t)
}

/// Tests whether `t` is a complex root.
pub fn complex_root_contains(t: &Vec<char>) -> (r: bool)
    ensures
        r == is_complex_root(t@),
{
    let n = t.len();
    if n == 1 {
        let c = t[0];
        if is_vowel(c) || is_consonant(c) || is_number(c) || c == ' ' || is_punctuation(c) || c
            == TAKA {
            return true;
        }
    }
    if n == 3 && t[0] == '.' && t[1] == '.' && t[2] == '.' {
        assert(t@ =~= seq!['.', '.', '.']);
        return true;
    }
    if n == 2 && t[0] == ':' && t[1] == '-' {
        assert(t@ =~= seq![':', '-']);
        return true;
    }
    conjunct_contains(t)
}

/// `t` is a valid root under the word options: a complex root, or (with
/// English allowed) a single English character, or (with legacy symbols
/// kept) a single legacy symbol.
pub open spec fn spec_valid_root_with(t: Seq<char>, allow_english: bool, keep_legacy: bool) -> bool {
    ||| is_complex_root(t)
    ||| (allow_english && t.len() == 1 && spec_is_english_valid(t[0]))
    ||| (keep_legacy && t.len() == 1 && spec_is_legacy_symbol(t[0]))
}

/// Tests whether `t` is a valid root under the word options.
pub fn valid_root_with(t: &Vec<char>, allow_english: bool, keep_legacy: bool) -> (r: bool)
    ensures
        r == spec_valid_root_with(t@, allow_english, keep_legacy),
{
    if complex_root_contains(t) {
        return true;
    }
    if t.len() != 1 {
        return false;
    }
    let c = t[0];
    (allow_english && is_english_valid(c)) || (keep_legacy && is_legacy_symbol(c))
}

} // verus!
