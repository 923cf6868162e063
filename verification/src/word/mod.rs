//! Word-level Bangla Unicode normalization.
//!
//! A word first goes through string replacements, is then split into a
//! buffer of optional characters, and passes through a fixed pipeline of
//! clean-up operations (see `ops`).  Each operation is stated as a spec
//! function over the buffer; `spec_normalize_word` composes them.

pub mod laws;
pub mod op_laws;
pub mod ops;

use vstd::prelude::*;

use crate::langs::{spec_valid_with, spec_valid_root_with, valid_with, valid_root_with};
use crate::text::{
    all_some, at, chars_of, flatten, kept, lemma_kept, lift, lift_chars, replace_all, replace_chars, retain_some, somes,
    string_of,
};
use ops::{
    base_compose, clean_consonant_diacritics_bangla, clean_invalid_conjunct_diacritics,
    clean_invalid_connector_bangla, clean_invalid_unicodes, clean_non_char_diacs,
    clean_vowel_diacritic_after_vowel_bangla, clean_vowel_diacritics, convert_complex_roots,
    fix_broken_diacritics, fix_broken_nukta, fix_diacritic_order, map_legacy_symbols,
    normalize_to_and_hosonto, replace_assamese, replace_punctuations, spec_base_compose,
    spec_clean_consonant_diacritics, spec_clean_invalid_conjunct_diacritics,
    spec_clean_invalid_connector, spec_clean_invalid_unicodes, spec_clean_non_char_diacs,
    spec_clean_vowel_diacritic_after_vowel, spec_clean_vowel_diacritics, spec_convert_complex_roots,
    spec_fix_broken_diacritics, spec_fix_broken_nukta, spec_fix_diacritic_order,
    spec_map_legacy_symbols, spec_normalize_to_and_hosonto, spec_replace_assamese,
    spec_replace_punctuations,
};
use vstd::string::StringExecFns;

verus! {

// ─── Legacy maps ──────────────────────────────────────────────────────────

/// An ordered map from legacy symbols to replacement strings.  No key
/// occurs twice; the replacements are applied in the order of the entries.
#[derive(Debug)]
pub struct LegacyMap {
    entries: Vec<(char, String)>,
}

/// No key occurs twice among the entries.
pub open spec fn keys_distinct(pairs: Seq<(char, Seq<char>)>) -> bool {
    forall|i: int, j: int| 0 <= i < j < pairs.len() ==> pairs[i].0 != pairs[j].0
}

/// The position of the first entry with key `k`, if any.
pub open spec fn key_position(pairs: Seq<(char, Seq<char>)>, k: char) -> Option<int>
    decreases pairs.len(),
{
    if pairs.len() == 0 {
        None
    } else if pairs.last().0 == k && key_position(pairs.drop_last(), k) is None {
        Some(pairs.len() - 1)
    } else {
        key_position(pairs.drop_last(), k)
    }
}

/// The entries with each replacement string taken by its characters.
spec fn entries_view(entries: Seq<(char, String)>) -> Seq<(char, Seq<char>)> {
    Seq::new(entries.len(), |i: int| (entries[i].0, entries[i].1@))
}

impl View for LegacyMap {
    type V = Seq<(char, Seq<char>)>;

    closed spec fn view(&self) -> Seq<(char, Seq<char>)> {
        entries_view(self.entries@)
    }
}

impl LegacyMap {
    #[verifier::type_invariant]
    closed spec fn distinct_keys(self) -> bool {
        keys_distinct(self@)
    }

    /// An empty map.
    pub fn new() -> (r: Self)
        ensures
            r@ == Seq::<(char, Seq<char>)>::empty(),
    {
        let r = LegacyMap { entries: Vec::new() };
        assert(r@ =~= Seq::<(char, Seq<char>)>::empty());
        r
    }

    /// The number of entries.
    pub fn len(&self) -> (r: usize)
        ensures
            r == self@.len(),
    {
        self.entries.len()
    }

    /// Maps `k` to `v`.  An existing entry for `k` keeps its place and gets
    /// the new value, which is returned with the old one; otherwise the
    /// entry is added at the end and `None` is returned.
    pub fn insert(&mut self, k: char, v: String) -> (r: Option<String>)
        ensures
            keys_distinct(final(self)@),
            match key_position(old(self)@, k) {
                Some(i) => {
                    &&& final(self)@ == old(self)@.update(i, (k, v@))
                    &&& r matches Some(prev) && prev@ == old(self)@[i].1
                },
                None => {
                    &&& final(self)@ == old(self)@.push((k, v@))
                    &&& r is None
                },
            },
    {
        proof {
            use_type_invariant(&*self);
        }
        let ghost pairs = self@;
        let mut i: usize = 0;
        while i < self.entries.len()
            invariant
                i <= self.entries.len(),
                pairs == self@,
                pairs == old(self)@,
                keys_distinct(pairs),
                forall|m: int| 0 <= m < i ==> pairs[m].0 != k,
            decreases self.entries.len() - i,
        {
            if self.entries[i].0 == k {
                proof {
                    lemma_key_position_unique(pairs, k, i as int);
                }
                let mut entries = Vec::new();
                std::mem::swap(&mut entries, &mut self.entries);
                assert(pairs[i as int] == (entries@[i as int].0, entries@[i as int].1@));
                let prev = entries[i].1.clone();
                entries.set(i, (k, v));
                assert(entries_view(entries@) =~= pairs.update(
                    i as int,
                    (k, v@),
                ));
                assert(keys_distinct(pairs.update(i as int, (k, v@))));
                self.entries = entries;
                assert(self@ =~= pairs.update(i as int, (k, v@)));
                return Some(prev);
            }
            i = i + 1;
        }
        proof {
            lemma_key_position_absent(pairs, k);
        }
        let mut entries = Vec::new();
        std::mem::swap(&mut entries, &mut self.entries);
        entries.push((k, v));
        assert(entries_view(entries@) =~= pairs.push((k, v@)));
        assert(keys_distinct(pairs.push((k, v@))));
        self.entries = entries;
        assert(self@ =~= pairs.push((k, v@)));
        None
    }

    /// The replacement for `k`, if the map holds one.
    pub fn get(&self, k: char) -> (r: Option<String>)
        ensures
            match key_position(self@, k) {
                Some(i) => r matches Some(v) && v@ == self@[i].1,
                None => r is None,
            },
    {
        proof {
            use_type_invariant(self);
        }
        let mut i: usize = 0;
        while i < self.entries.len()
            invariant
                i <= self.entries.len(),
                keys_distinct(self@),
                forall|m: int| 0 <= m < i ==> self@[m].0 != k,
            decreases self.entries.len() - i,
        {
            if self.entries[i].0 == k {
                proof {
                    lemma_key_position_unique(self@, k, i as int);
                }
                return Some(self.entries[i].1.clone());
            }
            i = i + 1;
        }
        proof {
            lemma_key_position_absent(self@, k);
        }
        None
    }

    /// `w` after each entry's key has been replaced by its value, entry by
    /// entry in order.
    pub fn apply_to(&self, w: &Vec<char>) -> (r: Vec<char>)
        ensures
            r@ == apply_legacy(w@, self@),
    {
        let mut cur = w.clone();
        let mut i: usize = 0;
        while i < self.entries.len()
            invariant
                i <= self.entries.len(),
                cur@ == apply_legacy_upto(w@, self@, i as nat),
            decreases self.entries.len() - i,
        {
            let key = vec![self.entries[i].0];
            let value = chars_of(self.entries[i].1.as_str());
            cur = replace_chars(&cur, &key, &value);
            assert(key@ =~= seq![self@[i as int].0]);
            i = i + 1;
        }
        cur
    }
}

impl Clone for LegacyMap {
    fn clone(&self) -> (r: Self)
        ensures
            r@ == self@,
    {
        proof {
            use_type_invariant(self);
        }
        let mut entries: Vec<(char, String)> = Vec::new();
        let mut i: usize = 0;
        while i < self.entries.len()
            invariant
                i <= self.entries.len(),
                keys_distinct(self@),
                entries_view(entries@) == self@.take(i as int),
            decreases self.entries.len() - i,
        {
            assert(self@[i as int] == (self.entries@[i as int].0, self.entries@[i as int].1@));
            let k = self.entries[i].0;
            let v = self.entries[i].1.clone();
            assert(v@ == self@[i as int].1);
            let ghost before = entries@;
            entries.push((k, v));
            assert(entries@ == before.push((k, v)));
            assert(entries_view(before).len() == before.len());
            assert(before.len() == i);
            assert(entries_view(entries@).len() == entries@.len());
            assert(entries_view(entries@)[i as int] == self@[i as int]);
            i = i + 1;
            assert(entries_view(entries@) =~= self@.take(i as int));
        }
        assert(self@.take(i as int) =~= self@);
        LegacyMap { entries }
    }
}

/// In a map without repeated keys, an entry with key `k` at `i` is the one
/// `key_position` finds.
proof fn lemma_key_position_unique(pairs: Seq<(char, Seq<char>)>, k: char, i: int)
    requires
        keys_distinct(pairs),
        0 <= i < pairs.len(),
        pairs[i].0 == k,
    ensures
        key_position(pairs, k) == Some(i),
    decreases pairs.len(),
{
    if i < pairs.len() - 1 {
        lemma_key_position_unique(pairs.drop_last(), k, i);
    } else {
        lemma_key_position_absent_prefix(pairs.drop_last(), k);
    }
}

proof fn lemma_key_position_absent_prefix(pairs: Seq<(char, Seq<char>)>, k: char)
    requires
        forall|m: int| 0 <= m < pairs.len() ==> pairs[m].0 != k,
    ensures
        key_position(pairs, k) is None,
    decreases pairs.len(),
{
    if pairs.len() > 0 {
        lemma_key_position_absent_prefix(pairs.drop_last(), k);
    }
}

proof fn lemma_key_position_absent(pairs: Seq<(char, Seq<char>)>, k: char)
    requires
        keys_distinct(pairs),
        forall|m: int| 0 <= m < pairs.len() ==> pairs[m].0 != k,
    ensures
        key_position(pairs, k) is None,
{
    lemma_key_position_absent_prefix(pairs, k);
}

/// The first `n` entries of the map applied to `w`, in order.
pub open spec fn apply_legacy_upto(w: Seq<char>, pairs: Seq<(char, Seq<char>)>, n: nat) -> Seq<
    char,
>
    decreases n,
{
    if n == 0 {
        w
    } else {
        let prev = apply_legacy_upto(w, pairs, (n - 1) as nat);
        replace_all(prev, seq![pairs[n - 1].0], pairs[n - 1].1)
    }
}

/// All entries of the map applied to `w`, in order.
pub open spec fn apply_legacy(w: Seq<char>, pairs: Seq<(char, Seq<char>)>) -> Seq<char> {
    apply_legacy_upto(w, pairs, pairs.len())
}

/// The upstream default legacy maps, in this order:
/// ঀ → ৭, ঌ → ৯, ৡ → ৯, ৵ → ৯, ৻ → ৎ, ৠ → ঋ, ঽ → ই.
pub open spec fn default_legacy_pairs() -> Seq<(char, Seq<char>)> {
    seq![
        ('\u{0980}', seq!['\u{09ED}']),
        ('\u{098C}', seq!['\u{09EF}']),
        ('\u{09E1}', seq!['\u{09EF}']),
        ('\u{09F5}', seq!['\u{09EF}']),
        ('\u{09FB}', seq!['\u{09CE}']),
        ('\u{09E0}', seq!['\u{098B}']),
        ('\u{09BD}', seq!['\u{0987}']),
    ]
}


/// Returns the default legacy maps of the upstream library.
pub fn default_legacy_maps() -> (r: LegacyMap)
    ensures
        r@ == default_legacy_pairs(),
{
    let mut entries: Vec<(char, String)> = Vec::new();
    entries.push(('\u{0980}', String::from_str("\u{09ED}")));
    entries.push(('\u{098C}', String::from_str("\u{09EF}")));
    entries.push(('\u{09E1}', String::from_str("\u{09EF}")));
    entries.push(('\u{09F5}', String::from_str("\u{09EF}")));
    entries.push(('\u{09FB}', String::from_str("\u{09CE}")));
    entries.push(('\u{09E0}', String::from_str("\u{098B}")));
    entries.push(('\u{09BD}', String::from_str("\u{0987}")));
    proof {
        reveal_strlit("\u{09ED}");
        reveal_strlit("\u{09EF}");
        reveal_strlit("\u{09CE}");
        reveal_strlit("\u{098B}");
        reveal_strlit("\u{0987}");
    }
    let ghost view = entries_view(entries@);
    assert(view.len() == 7);
    assert(view[0] == default_legacy_pairs()[0]);
    assert(view[1] == default_legacy_pairs()[1]);
    assert(view[2] == default_legacy_pairs()[2]);
    assert(view[3] == default_legacy_pairs()[3]);
    assert(view[4] == default_legacy_pairs()[4]);
    assert(view[5] == default_legacy_pairs()[5]);
    assert(view[6] == default_legacy_pairs()[6]);
    assert(view =~= default_legacy_pairs());
    let m = LegacyMap { entries };
    assert(m@ =~= default_legacy_pairs());
    m
}

// ─── Options and context ──────────────────────────────────────────────────

/// Options for word normalization.
#[derive(Debug, Clone)]
pub struct NormalizeOptions {
    pub allow_english: bool,
    pub keep_legacy_symbols: bool,
    /// `None`: no legacy mapping; `Some(map)`: a custom map.  Use
    /// `default_legacy_maps()` for the upstream default.
    pub legacy_maps: Option<LegacyMap>,
}

impl Default for NormalizeOptions {
    fn default() -> (r: Self)
        ensures
            !r.allow_english,
            !r.keep_legacy_symbols,
            r.legacy_maps is None,
    {
        NormalizeOptions { allow_english: false, keep_legacy_symbols: false, legacy_maps: None }
    }
}

/// The state of one normalization: the word, its decomposition buffer and
/// the options that the operations consult.
pub struct NormCtx<'a> {
    pub word: String,
    /// The decomposition buffer.  Operations clear an entry by setting it to
    /// `None`; the pipeline removes cleared entries between operations.
    pub decomp: Vec<Option<char>>,
    pub allow_english: bool,
    pub keep_legacy: bool,
    pub legacy_maps: Option<&'a LegacyMap>,
}

impl<'a> NormCtx<'a> {
    /// Whether every entry of the buffer is cleared.
    pub fn decomp_empty(&self) -> (r: bool)
        ensures
            r == (forall|i: int| 0 <= i < self.decomp@.len() ==> (#[trigger] self.decomp@[i]) is None),
    {
        let mut i: usize = 0;
        while i < self.decomp.len()
            invariant
                i <= self.decomp.len(),
                forall|k: int| 0 <= k < i ==> (#[trigger] self.decomp@[k]) is None,
            decreases self.decomp.len() - i,
        {
            if self.decomp[i].is_some() {
                return false;
            }
            i = i + 1;
        }
        true
    }

    /// Whether `c` is valid under the context's options.
    pub fn is_valid(&self, c: char) -> (r: bool)
        ensures
            r == spec_valid_with(c, self.allow_english, self.keep_legacy),
    {
        valid_with(c, self.allow_english, self.keep_legacy)
    }

    /// Whether `s` is a valid root under the context's options.
    pub fn is_valid_root(&self, s: &str) -> (r: bool)
        ensures
            r == spec_valid_root_with(s@, self.allow_english, self.keep_legacy),
    {
        valid_root_with(&chars_of(s), self.allow_english, self.keep_legacy)
    }

    /// The character at `idx`, or `None` when the entry is cleared or out of
    /// range.
    pub fn get_char(&self, idx: usize) -> (r: Option<char>)
        ensures
            r == at(self.decomp@, idx as int),
    {
        if idx < self.decomp.len() {
            self.decomp[idx]
        } else {
            None
        }
    }
}


// ─── The pipeline ───────────────────────────────────────────────────────────

/// The legacy map of the options, as a sequence of pairs.
pub open spec fn legacy_pairs(maps: Option<LegacyMap>) -> Option<Seq<(char, Seq<char>)>> {
    match maps {
        Some(m) => Some(m@),
        None => None,
    }
}

/// The word after the word-level operations: legacy symbols, broken
/// diacritics, Assamese letters and punctuation.
pub open spec fn spec_word_level(
    w: Seq<char>,
    legacy: Option<Seq<(char, Seq<char>)>>,
    keep_legacy: bool,
) -> Seq<char> {
    spec_replace_punctuations(
        spec_replace_assamese(spec_fix_broken_diacritics(spec_map_legacy_symbols(w, legacy))),
        keep_legacy,
    )
}

/// The buffer operations of the pipeline up to the complex-root stage, each
/// run on a buffer without cleared entries and followed by the removal of
/// its cleared entries.
#[verifier::opaque]
pub open spec fn spec_decomp_stages(d: Seq<Option<char>>, allow_english: bool, keep_legacy: bool) -> Seq<
    Option<char>,
> {
    let d1 = kept(spec_fix_broken_nukta(kept(d)));
    let d2 = kept(spec_clean_invalid_unicodes(kept(d1), allow_english, keep_legacy));
    let d3 = kept(spec_clean_invalid_connector(kept(d2)));
    let d4 = kept(spec_clean_vowel_diacritics(kept(d3)));
    let d5 = kept(spec_clean_consonant_diacritics(kept(d4)));
    let d6 = kept(spec_fix_diacritic_order(kept(d5)));
    let d7 = kept(spec_clean_non_char_diacs(kept(d6)));
    let d8 = kept(spec_clean_vowel_diacritic_after_vowel(kept(d7)));
    let d9 = kept(spec_base_compose(kept(d8), allow_english, keep_legacy));
    let d10 = kept(spec_normalize_to_and_hosonto(kept(d9), allow_english, keep_legacy));
    let d11 = kept(spec_clean_invalid_conjunct_diacritics(kept(d10), allow_english, keep_legacy));
    kept(spec_convert_complex_roots(kept(d11), allow_english, keep_legacy))
}

/// The whole buffer pipeline: the stages, then a final base clean-up.
pub open spec fn spec_decomp_pipeline(d: Seq<Option<char>>, allow_english: bool, keep_legacy: bool) -> Seq<
    Option<char>,
> {
    kept(
        spec_base_compose(kept(spec_decomp_stages(d, allow_english, keep_legacy)), allow_english, keep_legacy),
    )
}

/// The normalized word: the characters left after the word-level
/// operations and the buffer pipeline, or `None` when none is left.
pub open spec fn spec_normalize_word(
    w: Seq<char>,
    allow_english: bool,
    keep_legacy: bool,
    legacy: Option<Seq<(char, Seq<char>)>>,
) -> Option<Seq<char>> {
    let r = somes(spec_decomp_pipeline(lift(spec_word_level(w, legacy, keep_legacy)), allow_english, keep_legacy));
    if r.len() == 0 {
        None
    } else {
        Some(r)
    }
}

/// The characters of an optional string.
pub open spec fn opt_chars(r: Option<String>) -> Option<Seq<char>> {
    match r {
        Some(s) => Some(s@),
        None => None,
    }
}

/// Normalizes a single Bangla word with the default options.  Returns `None`
/// when nothing of the word is left.
pub fn normalize(word: &str) -> (r: Option<String>)
    ensures
        opt_chars(r) == spec_normalize_word(word@, false, false, None),
{
    normalize_with_options(word, &NormalizeOptions::default())
}

/// Removes the cleared entries of the buffer.
fn rejoin_resplit(ctx: &mut NormCtx)
    ensures
        final(ctx).decomp@ == kept(old(ctx).decomp@),
        all_some(final(ctx).decomp@),
        ops::same_word_and_options(*old(ctx), *final(ctx)),
{
    retain_some(&mut ctx.decomp);
    proof {
        lemma_kept(old(ctx).decomp@);
    }
}

/// Normalizes a single Bangla word with the given options.  Returns `None`
/// when nothing of the word is left.
pub fn normalize_with_options(word: &str, opts: &NormalizeOptions) -> (r: Option<String>)
    ensures
        opt_chars(r) == spec_normalize_word(
            word@,
            opts.allow_english,
            opts.keep_legacy_symbols,
            legacy_pairs(opts.legacy_maps),
        ),
{
    let legacy_maps = match &opts.legacy_maps {
        Some(m) => Some(m),
        None => None,
    };
    let mut ctx = NormCtx {
        word: String::from_str(word),
        decomp: Vec::new(),
        allow_english: opts.allow_english,
        keep_legacy: opts.keep_legacy_symbols,
        legacy_maps,
    };
    let ghost ae = opts.allow_english;
    let ghost kl = opts.keep_legacy_symbols;

    // Word-level operations.
    map_legacy_symbols(&mut ctx);
    fix_broken_diacritics(&mut ctx);
    replace_assamese(&mut ctx);
    replace_punctuations(&mut ctx);
    assert(ctx.word@ == spec_word_level(word@, legacy_pairs(opts.legacy_maps), opts.keep_legacy_symbols));

    // Decompose.
    ctx.decomp = lift_chars(&chars_of(ctx.word.as_str()));
    let ghost d = ctx.decomp@;
    proof {
        ops::lemma_ops_keep_empty(ae, kl);
        reveal(spec_decomp_stages);
    }

    rejoin_resplit(&mut ctx);
    fix_broken_nukta(&mut ctx);
    rejoin_resplit(&mut ctx);
    if ctx.decomp_empty() {
        proof {
            lemma_cleared_is_empty(ctx.decomp@);
        }
        return None;
    }
    rejoin_resplit(&mut ctx);
    clean_invalid_unicodes(&mut ctx);
    rejoin_resplit(&mut ctx);
    if ctx.decomp_empty() {
        proof {
            lemma_cleared_is_empty(ctx.decomp@);
        }
        return None;
    }
    rejoin_resplit(&mut ctx);
    clean_invalid_connector_bangla(&mut ctx);
    rejoin_resplit(&mut ctx);
    if ctx.decomp_empty() {
        proof {
            lemma_cleared_is_empty(ctx.decomp@);
        }
        return None;
    }
    // The four steps of FixDiacritics.
    rejoin_resplit(&mut ctx);
    clean_vowel_diacritics(&mut ctx);
    rejoin_resplit(&mut ctx);
    rejoin_resplit(&mut ctx);
    clean_consonant_diacritics_bangla(&mut ctx);
    rejoin_resplit(&mut ctx);
    rejoin_resplit(&mut ctx);
    fix_diacritic_order(&mut ctx);
    rejoin_resplit(&mut ctx);
    rejoin_resplit(&mut ctx);
    clean_non_char_diacs(&mut ctx);
    rejoin_resplit(&mut ctx);
    if ctx.decomp_empty() {
        proof {
            lemma_cleared_is_empty(ctx.decomp@);
        }
        return None;
    }
    rejoin_resplit(&mut ctx);
    clean_vowel_diacritic_after_vowel_bangla(&mut ctx);
    rejoin_resplit(&mut ctx);
    if ctx.decomp_empty() {
        proof {
            lemma_cleared_is_empty(ctx.decomp@);
        }
        return None;
    }
    rejoin_resplit(&mut ctx);
    base_compose(&mut ctx);
    rejoin_resplit(&mut ctx);
    if ctx.decomp_empty() {
        proof {
            lemma_cleared_is_empty(ctx.decomp@);
        }
        return None;
    }
    rejoin_resplit(&mut ctx);
    normalize_to_and_hosonto(&mut ctx);
    rejoin_resplit(&mut ctx);
    if ctx.decomp_empty() {
        proof {
            lemma_cleared_is_empty(ctx.decomp@);
        }
        return None;
    }
    rejoin_resplit(&mut ctx);
    clean_invalid_conjunct_diacritics(&mut ctx);
    rejoin_resplit(&mut ctx);
    if ctx.decomp_empty() {
        proof {
            lemma_cleared_is_empty(ctx.decomp@);
        }
        return None;
    }
    rejoin_resplit(&mut ctx);
    convert_complex_roots(&mut ctx);
    rejoin_resplit(&mut ctx);
    if ctx.decomp_empty() {
        proof {
            lemma_cleared_is_empty(ctx.decomp@);
        }
        return None;
    }
    // Final compose.
    rejoin_resplit(&mut ctx);
    base_compose(&mut ctx);
    rejoin_resplit(&mut ctx);

    let result = flatten(&ctx.decomp);
    if result.len() == 0 {
        None
    } else {
        Some(string_of(&result))
    }
}

/// The words paired with their normalized forms.
pub open spec fn batch_matches(
    words: Seq<String>,
    r: Seq<(String, Option<String>)>,
    allow_english: bool,
) -> bool {
    &&& r.len() == words.len()
    &&& forall|i: int|
        0 <= i < words.len() ==> {
            &&& (#[trigger] r[i]).0@ == words[i]@
            &&& opt_chars(r[i].1) == spec_normalize_word(words[i]@, allow_english, false, None)
        }
}

/// Normalizes each word of a batch, pairing it with its normalized form
/// (English allowed or not, no legacy handling).
pub fn normalize_batch(words: Vec<String>, allow_english: bool) -> (r: Vec<(String, Option<String>)>)
    ensures
        batch_matches(words@, r@, allow_english),
{
    let opts = NormalizeOptions { allow_english, keep_legacy_symbols: false, legacy_maps: None };
    let mut out: Vec<(String, Option<String>)> = Vec::new();
    let mut i: usize = 0;
    while i < words.len()
        invariant
            i <= words.len(),
            opts.allow_english == allow_english,
            !opts.keep_legacy_symbols,
            opts.legacy_maps is None,
            out@.len() == i,
            forall|k: int|
                0 <= k < i ==> {
                    &&& (#[trigger] out@[k]).0@ == words@[k]@
                    &&& opt_chars(out@[k].1) == spec_normalize_word(
                        words@[k]@,
                        allow_english,
                        false,
                        None,
                    )
                },
        decreases words.len() - i,
    {
        let normalized = normalize_with_options(words[i].as_str(), &opts);
        out.push((words[i].clone(), normalized));
        i = i + 1;
    }
    out
}

/// A buffer without cleared entries in which every entry is cleared is
/// empty.
proof fn lemma_cleared_is_empty(s: Seq<Option<char>>)
    requires
        all_some(s),
        forall|i: int| 0 <= i < s.len() ==> (#[trigger] s[i]) is None,
    ensures
        s == Seq::<Option<char>>::empty(),
{
    if s.len() > 0 {
        assert(s[0] is Some);
    }
    assert(s =~= Seq::<Option<char>>::empty());
}

} // verus!
