//! The individual normalization operations.
//!
//! Word-level operations rewrite `ctx.word`; the others rewrite the
//! decomposition buffer `ctx.decomp`.  Each one is stated by a spec function
//! (`spec_…`) over the buffer, and most of them are a left-to-right sweep
//! whose single step is its own spec function (`…_step`, iterated by
//! `…_upto`).

use vstd::prelude::*;

use super::{apply_legacy, NormCtx};
use crate::langs::{
    is_consonant, is_consonant_diacritic, is_diacritic, is_invalid_connector, is_invalid_start,
    is_non_char, is_valid_after_to_hosonto, is_vowel, is_vowel_diacritic, nukta_target,
    spec_is_consonant, spec_is_consonant_diacritic, spec_is_diacritic, spec_is_invalid_connector,
    spec_is_invalid_start, spec_is_non_char, spec_is_valid_after_to_hosonto, spec_is_vowel,
    spec_is_vowel_diacritic, spec_nukta_target, spec_valid_root_with, spec_valid_with,
    valid_root_with, CONNECTOR, NUKTA, ZWJ, ZWNJ,
};
use crate::text::{
    all_some, at, chars_contain, holds, chars_of, flatten, kept, lemma_kept, lemma_somes_lift, lift,
    lift_chars, replace_all, replace_chars, retain_some, somes, string_of,
};

verus! {

/// `b` has the same word and options as `a`.
pub open spec fn same_word_and_options(a: NormCtx, b: NormCtx) -> bool {
    &&& a.word == b.word
    &&& a.allow_english == b.allow_english
    &&& a.keep_legacy == b.keep_legacy
    &&& a.legacy_maps == b.legacy_maps
}

/// `b` has the same buffer and options as `a`.
pub open spec fn same_decomp_and_options(a: NormCtx, b: NormCtx) -> bool {
    &&& a.decomp == b.decomp
    &&& a.allow_english == b.allow_english
    &&& a.keep_legacy == b.keep_legacy
    &&& a.legacy_maps == b.legacy_maps
}

// ═══════════════════════════════════════════════════════════════════════════
// Word-level operations
// ═══════════════════════════════════════════════════════════════════════════

/// The word after the legacy map (if any) has been applied.
pub open spec fn spec_map_legacy_symbols(w: Seq<char>, maps: Option<Seq<(char, Seq<char>)>>) -> Seq<
    char,
> {
    match maps {
        Some(pairs) => apply_legacy(w, pairs),
        None => w,
    }
}

/// Broken vowel signs: ে+া → ো, ে+ৗ → ৌ, অ+া → আ, ৄ → ৃ (in this order).
pub open spec fn spec_fix_broken_diacritics(w: Seq<char>) -> Seq<char> {
    let w1 = replace_all(w, seq!['\u{09C7}', '\u{09BE}'], seq!['\u{09CB}']);
    let w2 = replace_all(w1, seq!['\u{09C7}', '\u{09D7}'], seq!['\u{09CC}']);
    let w3 = replace_all(w2, seq!['\u{0985}', '\u{09BE}'], seq!['\u{0986}']);
    replace_all(w3, seq!['\u{09C4}'], seq!['\u{09C3}'])
}

/// Assamese letters: ৰ → র, ৱ → ব.
pub open spec fn spec_replace_assamese(w: Seq<char>) -> Seq<char> {
    replace_all(replace_all(w, seq!['\u{09F0}'], seq!['\u{09B0}']), seq!['\u{09F1}'], seq!['\u{09AC}'])
}

/// Punctuation: ৷ → । (unless legacy symbols, among them ৷, are kept),
/// – → -.
pub open spec fn spec_replace_punctuations(w: Seq<char>, keep_legacy: bool) -> Seq<char> {
    let w1 = if keep_legacy {
        w
    } else {
        replace_all(w, seq!['\u{09F7}'], seq!['\u{0964}'])
    };
    replace_all(w1, seq!['\u{2013}'], seq!['-'])
}

/// The legacy map of the context, as a sequence of pairs.
pub open spec fn legacy_pairs_of(ctx: NormCtx) -> Option<Seq<(char, Seq<char>)>> {
    match ctx.legacy_maps {
        Some(m) => Some(m@),
        None => None,
    }
}

/// Replaces each legacy symbol that the context's legacy map holds.
pub fn map_legacy_symbols(ctx: &mut NormCtx)
    ensures
        final(ctx).word@ == spec_map_legacy_symbols(old(ctx).word@, legacy_pairs_of(*old(ctx))),
        same_decomp_and_options(*old(ctx), *final(ctx)),
{
    if let Some(maps) = ctx.legacy_maps {
        let w = chars_of(ctx.word.as_str());
        let out = maps.apply_to(&w);
        ctx.word = string_of(&out);
    }
}

/// `w` with every `a` replaced by `b`.
fn replace_single(w: &Vec<char>, a: char, b: char) -> (r: Vec<char>)
    ensures
        r@ == replace_all(w@, seq![a], seq![b]),
{
    let from = vec![a];
    let to = vec![b];
    assert(from@ =~= seq![a]);
    assert(to@ =~= seq![b]);
    replace_chars(w, &from, &to)
}

/// `w` with every `a` `b` replaced by `c`.
fn replace_pair(w: &Vec<char>, a: char, b: char, c: char) -> (r: Vec<char>)
    ensures
        r@ == replace_all(w@, seq![a, b], seq![c]),
{
    let from = vec![a, b];
    let to = vec![c];
    assert(from@ =~= seq![a, b]);
    assert(to@ =~= seq![c]);
    replace_chars(w, &from, &to)
}

/// Fixes vowel signs written in two parts or with the wrong codepoint.
pub fn fix_broken_diacritics(ctx: &mut NormCtx)
    ensures
        final(ctx).word@ == spec_fix_broken_diacritics(old(ctx).word@),
        same_decomp_and_options(*old(ctx), *final(ctx)),
{
    let w = chars_of(ctx.word.as_str());
    let w = replace_pair(&w, '\u{09C7}', '\u{09BE}', '\u{09CB}');
    let w = replace_pair(&w, '\u{09C7}', '\u{09D7}', '\u{09CC}');
    let w = replace_pair(&w, '\u{0985}', '\u{09BE}', '\u{0986}');
    let w = replace_single(&w, '\u{09C4}', '\u{09C3}');
    ctx.word = string_of(&w);
}

/// Replaces the Assamese letters ৰ and ৱ by their Bangla forms.
pub fn replace_assamese(ctx: &mut NormCtx)
    ensures
        final(ctx).word@ == spec_replace_assamese(old(ctx).word@),
        same_decomp_and_options(*old(ctx), *final(ctx)),
{
    let w = chars_of(ctx.word.as_str());
    let w = replace_single(&w, '\u{09F0}', '\u{09B0}');
    let w = replace_single(&w, '\u{09F1}', '\u{09AC}');
    ctx.word = string_of(&w);
}

/// Replaces the legacy danda ৷ by । (unless the context keeps legacy
/// symbols) and the en dash by a hyphen.
pub fn replace_punctuations(ctx: &mut NormCtx)
    ensures
        final(ctx).word@ == spec_replace_punctuations(old(ctx).word@, old(ctx).keep_legacy),
        same_decomp_and_options(*old(ctx), *final(ctx)),
{
    let w = chars_of(ctx.word.as_str());
    let w = if ctx.keep_legacy {
        w
    } else {
        replace_single(&w, '\u{09F7}', '\u{0964}')
    };
    let w = replace_single(&w, '\u{2013}', '-');
    ctx.word = string_of(&w);
}

// ═══════════════════════════════════════════════════════════════════════════
// Buffer operations
// ═══════════════════════════════════════════════════════════════════════════

// ─── fixBrokenNukta ─────────────────────────────────────────────────────────

/// The last position before `k` whose character has a nukta form.
pub open spec fn nukta_base_before(s: Seq<Option<char>>, k: int) -> Option<int>
    decreases k,
{
    if k <= 0 {
        None
    } else if at(s, k - 1) matches Some(c) && spec_nukta_target(c) is Some {
        Some(k - 1)
    } else {
        nukta_base_before(s, k - 1)
    }
}

/// A nukta at `idx` composes with the nearest earlier base consonant, which
/// takes its nukta form; the nukta itself is cleared.
pub open spec fn nukta_step(s: Seq<Option<char>>, idx: int) -> Seq<Option<char>> {
    if at(s, idx) == Some(NUKTA) && idx > 0 {
        match nukta_base_before(s, idx) {
            Some(b) => s.update(b, spec_nukta_target(s[b]->0)).update(idx, None),
            None => s,
        }
    } else {
        s
    }
}

/// The first `k` steps of the nukta sweep.
pub open spec fn nukta_upto(s: Seq<Option<char>>, k: nat) -> Seq<Option<char>>
    decreases k,
{
    if k == 0 {
        s
    } else {
        nukta_step(nukta_upto(s, (k - 1) as nat), k - 1)
    }
}

pub open spec fn spec_fix_broken_nukta(s: Seq<Option<char>>) -> Seq<Option<char>> {
    nukta_upto(s, s.len())
}

pub(crate) proof fn lemma_nukta_base_range(s: Seq<Option<char>>, k: int)
    ensures
        nukta_base_before(s, k) matches Some(b) ==> {
            &&& 0 <= b < k
            &&& b < s.len()
            &&& s[b] is Some
            &&& spec_nukta_target(s[b]->0) is Some
        },
    decreases k,
{
    if k > 0 {
        lemma_nukta_base_range(s, k - 1);
    }
}

/// The last position before `k` in `d` whose character has a nukta form.
fn find_nukta_base(d: &Vec<Option<char>>, k: usize) -> (r: Option<usize>)
    requires
        k <= d.len(),
    ensures
        match r {
            Some(i) => nukta_base_before(d@, k as int) == Some(i as int),
            None => nukta_base_before(d@, k as int) is None,
        },
{
    let mut j = k;
    while j > 0
        invariant
            j <= k <= d.len(),
            nukta_base_before(d@, k as int) == nukta_base_before(d@, j as int),
        decreases j,
    {
        if let Some(c) = d[j - 1] {
            if nukta_target(c).is_some() {
                return Some(j - 1);
            }
        }
        j = j - 1;
    }
    None
}

/// Composes each nukta with the nearest earlier base consonant.
pub fn fix_broken_nukta(ctx: &mut NormCtx)
    ensures
        final(ctx).decomp@ == spec_fix_broken_nukta(old(ctx).decomp@),
        same_word_and_options(*old(ctx), *final(ctx)),
{
    let len = ctx.decomp.len();
    let mut idx: usize = 0;
    while idx < len
        invariant
            idx <= len,
            len == old(ctx).decomp@.len(),
            ctx.decomp@.len() == len,
            ctx.decomp@ == nukta_upto(old(ctx).decomp@, idx as nat),
            same_word_and_options(*old(ctx), *ctx),
        decreases len - idx,
    {
        if ctx.get_char(idx) == Some(NUKTA) && idx > 0 {
            proof {
                lemma_nukta_base_range(ctx.decomp@, idx as int);
            }
            if let Some(b) = find_nukta_base(&ctx.decomp, idx) {
                let c = ctx.decomp[b].unwrap();
                ctx.decomp.set(b, nukta_target(c));
                ctx.decomp.set(idx, None);
            }
        }
        idx = idx + 1;
    }
}

// ─── cleanInvalidUnicodes ───────────────────────────────────────────────────

/// Drops leading entries that are cleared or cannot start a word.
pub open spec fn strip_front(s: Seq<Option<char>>) -> Seq<Option<char>>
    decreases s.len(),
{
    if s.len() > 0 && (s[0] is None || spec_is_invalid_start(s[0]->0)) {
        strip_front(s.drop_first())
    } else {
        s
    }
}

/// Drops trailing hosontos.
pub open spec fn strip_back(s: Seq<Option<char>>) -> Seq<Option<char>>
    decreases s.len(),
{
    if s.len() > 0 && s.last() == Some(CONNECTOR) {
        strip_back(s.drop_last())
    } else {
        s
    }
}

/// Clears a character that is not valid under the options.
pub open spec fn keep_valid(x: Option<char>, allow_english: bool, keep_legacy: bool) -> Option<
    char,
> {
    match x {
        Some(c) => if spec_valid_with(c, allow_english, keep_legacy) {
            Some(c)
        } else {
            None
        },
        None => None,
    }
}

pub open spec fn spec_clean_invalid_unicodes(
    s: Seq<Option<char>>,
    allow_english: bool,
    keep_legacy: bool,
) -> Seq<Option<char>> {
    let t = strip_back(strip_front(s));
    Seq::new(t.len(), |i: int| keep_valid(t[i], allow_english, keep_legacy))
}

/// Whether a leading entry `x` is dropped: cleared, or unable to start a word.
fn strippable_start(x: Option<char>) -> (r: bool)
    ensures
        r == (x is None || spec_is_invalid_start(x->0)),
{
    match x {
        Some(c) => is_invalid_start(c),
        None => true,
    }
}

/// Removes invalid starts and trailing hosontos, and clears invalid
/// characters.
pub fn clean_invalid_unicodes(ctx: &mut NormCtx)
    ensures
        final(ctx).decomp@ == spec_clean_invalid_unicodes(
            old(ctx).decomp@,
            old(ctx).allow_english,
            old(ctx).keep_legacy,
        ),
        same_word_and_options(*old(ctx), *final(ctx)),
{
    let n = ctx.decomp.len();
    let ghost s = ctx.decomp@;
    let mut k: usize = 0;
    assert(s.skip(0) =~= s);
    while k < n && strippable_start(ctx.decomp[k])
        invariant
            k <= n,
            n == s.len(),
            s == ctx.decomp@,
            strip_front(s) == strip_front(s.skip(k as int)),
        decreases n - k,
    {
        assert(s.skip(k as int).drop_first() =~= s.skip(k + 1));
        k = k + 1;
    }
    let ghost front = s.skip(k as int);
    assert(strip_front(s) == front);
    let mut e: usize = n;
    assert(front.subrange(0, (e - k) as int) =~= front);
    while e > k && holds(ctx.decomp[e - 1], CONNECTOR)
        invariant
            k <= e <= n,
            n == s.len(),
            s == ctx.decomp@,
            front == s.skip(k as int),
            strip_back(front) == strip_back(front.subrange(0, (e - k) as int)),
        decreases e,
    {
        assert(front.subrange(0, (e - k) as int).drop_last() =~= front.subrange(
            0,
            (e - 1 - k) as int,
        ));
        e = e - 1;
    }
    let ghost t = front.subrange(0, (e - k) as int);
    assert(strip_back(front) == t);
    let mut out: Vec<Option<char>> = Vec::new();
    let mut i: usize = k;
    while i < e
        invariant
            k <= i <= e <= n,
            n == s.len(),
            s == ctx.decomp@,
            t == s.subrange(k as int, e as int),
            out@.len() == i - k,
            forall|m: int|
                0 <= m < i - k ==> out@[m] == keep_valid(
                    t[m],
                    ctx.allow_english,
                    ctx.keep_legacy,
                ),
        decreases e - i,
    {
        let x = match ctx.decomp[i] {
            Some(c) => if ctx.is_valid(c) {
                Some(c)
            } else {
                None
            },
            None => None,
        };
        out.push(x);
        i = i + 1;
    }
    assert(out@ =~= spec_clean_invalid_unicodes(s, ctx.allow_english, ctx.keep_legacy));
    ctx.decomp = out;
}

// ─── cleanInvalidConnector ─────────────────────────────────────────────────

/// A hosonto between `p` and `n` is dropped.
pub open spec fn connector_dropped(p: char, n: char) -> bool {
    ||| (n != '\u{09AF}' && p != '\u{0985}' && p != '\u{098F}' && (spec_is_invalid_connector(p)
        || spec_is_invalid_connector(n)))
    ||| (p == '\u{09AF}' && n != '\u{09AF}')
    ||| (p == '\u{09AC}' && !(n == '\u{099C}' || n == '\u{09A6}' || n == '\u{09A7}' || n
        == '\u{09AC}' || n == '\u{09AF}' || n == '\u{09B0}' || n == '\u{09B2}'))
}

/// A hosonto at `idx` with characters on both sides is cleared when it may
/// not join them.
pub open spec fn connector_step(s: Seq<Option<char>>, idx: int) -> Seq<Option<char>> {
    if at(s, idx) == Some(CONNECTOR) && idx > 0 && at(s, idx - 1) is Some && at(s, idx + 1) is Some
        && connector_dropped(at(s, idx - 1)->0, at(s, idx + 1)->0) {
        s.update(idx, None)
    } else {
        s
    }
}

pub open spec fn connector_upto(s: Seq<Option<char>>, k: nat) -> Seq<Option<char>>
    decreases k,
{
    if k == 0 {
        s
    } else {
        connector_step(connector_upto(s, (k - 1) as nat), k - 1)
    }
}

/// এ্যা
pub open spec fn e_ya_aa() -> Seq<char> {
    seq!['\u{098F}', '\u{09CD}', '\u{09AF}', '\u{09BE}']
}

/// অ্যা
pub open spec fn o_ya_aa() -> Seq<char> {
    seq!['\u{0985}', '\u{09CD}', '\u{09AF}', '\u{09BE}']
}

/// অ্য
pub open spec fn o_ya() -> Seq<char> {
    seq!['\u{0985}', '\u{09CD}', '\u{09AF}']
}

pub open spec fn spec_clean_invalid_connector(s: Seq<Option<char>>) -> Seq<Option<char>> {
    let w = somes(connector_upto(s, s.len()));
    lift(replace_all(replace_all(w, e_ya_aa(), o_ya_aa()), o_ya(), o_ya_aa()))
}

/// Clears hosontos that cannot join their neighbours, then spells
/// এ্যা as অ্যা and অ্য as অ্যা.
pub fn clean_invalid_connector_bangla(ctx: &mut NormCtx)
    ensures
        final(ctx).decomp@ == spec_clean_invalid_connector(old(ctx).decomp@),
        same_word_and_options(*old(ctx), *final(ctx)),
{
    let len = ctx.decomp.len();
    let mut idx: usize = 0;
    while idx < len
        invariant
            idx <= len,
            len == old(ctx).decomp@.len(),
            ctx.decomp@.len() == len,
            ctx.decomp@ == connector_upto(old(ctx).decomp@, idx as nat),
            same_word_and_options(*old(ctx), *ctx),
        decreases len - idx,
    {
        if ctx.get_char(idx) == Some(CONNECTOR) && idx < len - 1 && idx > 0 {
            let prev = ctx.get_char(idx - 1);
            let next = ctx.get_char(idx + 1);
            if let (Some(p), Some(n)) = (prev, next) {
                let mut drop = false;
                if n != '\u{09AF}' && p != '\u{0985}' && p != '\u{098F}' {
                    if is_invalid_connector(p) || is_invalid_connector(n) {
                        drop = true;
                    }
                }
                if p == '\u{09AF}' && n != '\u{09AF}' {
                    drop = true;
                }
                if p == '\u{09AC}' && !(n == '\u{099C}' || n == '\u{09A6}' || n == '\u{09A7}' || n
                    == '\u{09AC}' || n == '\u{09AF}' || n == '\u{09B0}' || n == '\u{09B2}') {
                    drop = true;
                }
                if drop {
                    ctx.decomp.set(idx, None);
                }
            }
        }
        idx = idx + 1;
    }
    let word = flatten(&ctx.decomp);
    let word = replace_chars(
        &word,
        &vec!['\u{098F}', '\u{09CD}', '\u{09AF}', '\u{09BE}'],
        &vec!['\u{0985}', '\u{09CD}', '\u{09AF}', '\u{09BE}'],
    );
    let word = replace_chars(
        &word,
        &vec!['\u{0985}', '\u{09CD}', '\u{09AF}'],
        &vec!['\u{0985}', '\u{09CD}', '\u{09AF}', '\u{09BE}'],
    );
    ctx.decomp = lift_chars(&word);
    proof {
        assert(seq!['\u{098F}', '\u{09CD}', '\u{09AF}', '\u{09BE}'] =~= e_ya_aa());
    }
}


// ─── cleanVowelDiacritics ───────────────────────────────────────────────────

/// Two vowel signs in a row: a repeated one loses its first copy, otherwise
/// the second sign is cleared.
pub open spec fn vowel_diacritics_step(s: Seq<Option<char>>, idx: int) -> Seq<Option<char>> {
    match (at(s, idx), at(s, idx + 1)) {
        (Some(d), Some(n)) => if spec_is_vowel_diacritic(d) && spec_is_vowel_diacritic(n) {
            if d == n {
                s.update(idx, None)
            } else {
                s.update(idx + 1, None)
            }
        } else {
            s
        },
        _ => s,
    }
}

pub open spec fn vowel_diacritics_upto(s: Seq<Option<char>>, k: nat) -> Seq<Option<char>>
    decreases k,
{
    if k == 0 {
        s
    } else {
        vowel_diacritics_step(vowel_diacritics_upto(s, (k - 1) as nat), k - 1)
    }
}

/// `len - 1`, or 0 for an empty buffer.
pub open spec fn pairs_in(len: nat) -> nat {
    if len > 0 {
        (len - 1) as nat
    } else {
        0
    }
}

pub open spec fn spec_clean_vowel_diacritics(s: Seq<Option<char>>) -> Seq<Option<char>> {
    vowel_diacritics_upto(s, pairs_in(s.len()))
}

/// Removes doubled vowel signs.
pub fn clean_vowel_diacritics(ctx: &mut NormCtx)
    ensures
        final(ctx).decomp@ == spec_clean_vowel_diacritics(old(ctx).decomp@),
        same_word_and_options(*old(ctx), *final(ctx)),
{
    let len = ctx.decomp.len();
    let bound = if len > 0 { len - 1 } else { 0 };
    let mut idx: usize = 0;
    while idx < bound
        invariant
            idx <= bound,
            bound == pairs_in(len as nat),
            len == old(ctx).decomp@.len(),
            ctx.decomp@.len() == len,
            ctx.decomp@ == vowel_diacritics_upto(old(ctx).decomp@, idx as nat),
            same_word_and_options(*old(ctx), *ctx),
        decreases bound - idx,
    {
        if let (Some(d), Some(n)) = (ctx.get_char(idx), ctx.get_char(idx + 1)) {
            if is_vowel_diacritic(d) && is_vowel_diacritic(n) {
                if d == n {
                    ctx.decomp.set(idx, None);
                } else {
                    ctx.decomp.set(idx + 1, None);
                }
            }
        }
        idx = idx + 1;
    }
}

// ─── cleanConsonantDiacritics ───────────────────────────────────────────────

/// Two consonant signs in a row: a repeated one loses its first copy, ং or ঃ
/// before ঁ swap places, and of ং and ঃ together the second is cleared.
pub open spec fn consonant_diacritics_step(s: Seq<Option<char>>, idx: int) -> Seq<Option<char>> {
    match (at(s, idx), at(s, idx + 1)) {
        (Some(d), Some(n)) => if spec_is_consonant_diacritic(d) && spec_is_consonant_diacritic(n) {
            if d == n {
                s.update(idx, None)
            } else if (d == '\u{0982}' || d == '\u{0983}') && n == '\u{0981}' {
                s.update(idx, Some(n)).update(idx + 1, Some(d))
            } else if d == '\u{0982}' && n == '\u{0983}' {
                s.update(idx + 1, None)
            } else if d == '\u{0983}' && n == '\u{0982}' {
                s.update(idx + 1, None)
            } else {
                s
            }
        } else {
            s
        },
        _ => s,
    }
}

pub open spec fn consonant_diacritics_upto(s: Seq<Option<char>>, k: nat) -> Seq<Option<char>>
    decreases k,
{
    if k == 0 {
        s
    } else {
        consonant_diacritics_step(consonant_diacritics_upto(s, (k - 1) as nat), k - 1)
    }
}

pub open spec fn spec_clean_consonant_diacritics(s: Seq<Option<char>>) -> Seq<Option<char>> {
    consonant_diacritics_upto(s, pairs_in(s.len()))
}

/// Removes doubled consonant signs and orders ঁ first.
pub fn clean_consonant_diacritics_bangla(ctx: &mut NormCtx)
    ensures
        final(ctx).decomp@ == spec_clean_consonant_diacritics(old(ctx).decomp@),
        same_word_and_options(*old(ctx), *final(ctx)),
{
    let len = ctx.decomp.len();
    let bound = if len > 0 { len - 1 } else { 0 };
    let mut idx: usize = 0;
    while idx < bound
        invariant
            idx <= bound,
            bound == pairs_in(len as nat),
            len == old(ctx).decomp@.len(),
            ctx.decomp@.len() == len,
            ctx.decomp@ == consonant_diacritics_upto(old(ctx).decomp@, idx as nat),
            same_word_and_options(*old(ctx), *ctx),
        decreases bound - idx,
    {
        if let (Some(d), Some(n)) = (ctx.get_char(idx), ctx.get_char(idx + 1)) {
            if is_consonant_diacritic(d) && is_consonant_diacritic(n) {
                if d == n {
                    ctx.decomp.set(idx, None);
                } else if (d == '\u{0982}' || d == '\u{0983}') && n == '\u{0981}' {
                    ctx.decomp.set(idx, Some(n));
                    ctx.decomp.set(idx + 1, Some(d));
                } else if d == '\u{0982}' && n == '\u{0983}' {
                    ctx.decomp.set(idx + 1, None);
                } else if d == '\u{0983}' && n == '\u{0982}' {
                    ctx.decomp.set(idx + 1, None);
                }
            }
        }
        idx = idx + 1;
    }
}

// ─── fixDiacriticOrder ──────────────────────────────────────────────────────

/// A consonant sign before a vowel sign: the two swap places.
pub open spec fn diacritic_order_step(s: Seq<Option<char>>, idx: int) -> Seq<Option<char>> {
    match (at(s, idx), at(s, idx + 1)) {
        (Some(d), Some(n)) => if spec_is_consonant_diacritic(d) && spec_is_vowel_diacritic(n) {
            s.update(idx, Some(n)).update(idx + 1, Some(d))
        } else {
            s
        },
        _ => s,
    }
}

pub open spec fn diacritic_order_upto(s: Seq<Option<char>>, k: nat) -> Seq<Option<char>>
    decreases k,
{
    if k == 0 {
        s
    } else {
        diacritic_order_step(diacritic_order_upto(s, (k - 1) as nat), k - 1)
    }
}

pub open spec fn spec_fix_diacritic_order(s: Seq<Option<char>>) -> Seq<Option<char>> {
    diacritic_order_upto(s, pairs_in(s.len()))
}

/// Puts vowel signs before consonant signs.
pub fn fix_diacritic_order(ctx: &mut NormCtx)
    ensures
        final(ctx).decomp@ == spec_fix_diacritic_order(old(ctx).decomp@),
        same_word_and_options(*old(ctx), *final(ctx)),
{
    let len = ctx.decomp.len();
    let bound = if len > 0 { len - 1 } else { 0 };
    let mut idx: usize = 0;
    while idx < bound
        invariant
            idx <= bound,
            bound == pairs_in(len as nat),
            len == old(ctx).decomp@.len(),
            ctx.decomp@.len() == len,
            ctx.decomp@ == diacritic_order_upto(old(ctx).decomp@, idx as nat),
            same_word_and_options(*old(ctx), *ctx),
        decreases bound - idx,
    {
        if let (Some(d), Some(n)) = (ctx.get_char(idx), ctx.get_char(idx + 1)) {
            if is_consonant_diacritic(d) && is_vowel_diacritic(n) {
                ctx.decomp.set(idx, Some(n));
                ctx.decomp.set(idx + 1, Some(d));
            }
        }
        idx = idx + 1;
    }
}

// ─── cleanNonCharDiacs ──────────────────────────────────────────────────────

/// A diacritic right after a digit, punctuation or other non-letter is
/// cleared.
pub open spec fn non_char_diacs_step(s: Seq<Option<char>>, idx: int) -> Seq<Option<char>> {
    match (at(s, idx), at(s, idx - 1)) {
        (Some(d), Some(p)) => if spec_is_diacritic(d) && spec_is_non_char(p) {
            s.update(idx, None)
        } else {
            s
        },
        _ => s,
    }
}

pub open spec fn non_char_diacs_upto(s: Seq<Option<char>>, k: nat) -> Seq<Option<char>>
    decreases k,
{
    if k == 0 {
        s
    } else {
        non_char_diacs_step(non_char_diacs_upto(s, (k - 1) as nat), k - 1)
    }
}

pub open spec fn spec_clean_non_char_diacs(s: Seq<Option<char>>) -> Seq<Option<char>> {
    non_char_diacs_upto(s, s.len())
}

/// Removes diacritics that follow digits, punctuation and other non-letters.
pub fn clean_non_char_diacs(ctx: &mut NormCtx)
    ensures
        final(ctx).decomp@ == spec_clean_non_char_diacs(old(ctx).decomp@),
        same_word_and_options(*old(ctx), *final(ctx)),
{
    let len = ctx.decomp.len();
    let mut idx: usize = 0;
    while idx < len
        invariant
            idx <= len,
            len == old(ctx).decomp@.len(),
            ctx.decomp@.len() == len,
            ctx.decomp@ == non_char_diacs_upto(old(ctx).decomp@, idx as nat),
            same_word_and_options(*old(ctx), *ctx),
        decreases len - idx,
    {
        if idx >= 1 {
            if let (Some(d), Some(p)) = (ctx.get_char(idx), ctx.get_char(idx - 1)) {
                if is_diacritic(d) && is_non_char(p) {
                    ctx.decomp.set(idx, None);
                }
            }
        }
        idx = idx + 1;
    }
}

// ─── cleanVowelDiacriticComingAfterVowel ────────────────────────────────────

/// The vowel sign at `i` follows a vowel other than এ, and is cleared.
pub open spec fn sign_after_vowel_dropped(s: Seq<Option<char>>, i: int) -> bool {
    &&& i > 0
    &&& at(s, i) matches Some(d) && spec_is_vowel_diacritic(d)
    &&& at(s, i - 1) matches Some(p) && spec_is_vowel(p) && p != '\u{098F}'
}

/// The vowel এ at `i` is followed by a vowel sign, and becomes ত্র.
pub open spec fn vowel_e_expanded(s: Seq<Option<char>>, i: int) -> bool {
    &&& at(s, i) == Some('\u{098F}')
    &&& at(s, i + 1) matches Some(d) && spec_is_vowel_diacritic(d)
}

/// What the entry at `i` turns into.
pub open spec fn after_vowel_piece(s: Seq<Option<char>>, i: int) -> Seq<Option<char>> {
    if vowel_e_expanded(s, i) {
        seq![Some('\u{09A4}'), Some(CONNECTOR), Some('\u{09B0}')]
    } else if sign_after_vowel_dropped(s, i) {
        seq![None]
    } else {
        seq![s[i]]
    }
}

/// The pieces of the first `n` entries, concatenated.
pub open spec fn after_vowel_prefix(s: Seq<Option<char>>, n: nat) -> Seq<Option<char>>
    decreases n,
{
    if n == 0 {
        Seq::empty()
    } else {
        after_vowel_prefix(s, (n - 1) as nat) + after_vowel_piece(s, n - 1)
    }
}

pub open spec fn spec_clean_vowel_diacritic_after_vowel(s: Seq<Option<char>>) -> Seq<Option<char>> {
    after_vowel_prefix(s, s.len())
}

/// Vowel signs directly after a vowel: cleared after most vowels, while
/// এ followed by a vowel sign is read as ত্র.
pub fn clean_vowel_diacritic_after_vowel_bangla(ctx: &mut NormCtx)
    ensures
        final(ctx).decomp@ == spec_clean_vowel_diacritic_after_vowel(old(ctx).decomp@),
        same_word_and_options(*old(ctx), *final(ctx)),
{
    let ghost s = ctx.decomp@;
    let len = ctx.decomp.len();
    // First pass: clear the signs and mark the positions to expand.
    let mut expand: Vec<bool> = Vec::new();
    let mut idx: usize = 0;
    while idx < len
        invariant
            idx <= len,
            len == s.len(),
            ctx.decomp@.len() == len,
            expand@.len() == idx,
            forall|m: int|
                0 <= m < idx ==> #[trigger] ctx.decomp@[m] == (if sign_after_vowel_dropped(s, m) {
                    None
                } else {
                    s[m]
                }),
            forall|m: int| idx <= m < len ==> #[trigger] ctx.decomp@[m] == s[m],
            forall|m: int|
                0 <= m < idx ==> #[trigger] expand@[m] == (m + 1 < idx && vowel_e_expanded(s, m)),
            same_word_and_options(*old(ctx), *ctx),
            s == old(ctx).decomp@,
        decreases len - idx,
    {
        expand.push(false);
        if idx > 0 {
            if let Some(d) = ctx.get_char(idx) {
                if is_vowel_diacritic(d) {
                    if let Some(p) = ctx.get_char(idx - 1) {
                        if is_vowel(p) {
                            if p != '\u{098F}' {
                                ctx.decomp.set(idx, None);
                            } else {
                                expand.set(idx - 1, true);
                            }
                        }
                    }
                }
            }
        }
        idx = idx + 1;
    }
    assert forall|m: int| 0 <= m < len implies #[trigger] expand@[m] == vowel_e_expanded(s, m) by {
        if m + 1 == len {
            assert(at(s, m + 1) is None);
        }
    }
    // Second pass: build the result, expanding the marked vowels.
    let mut out: Vec<Option<char>> = Vec::new();
    let mut i: usize = 0;
    while i < len
        invariant
            i <= len,
            len == s.len(),
            ctx.decomp@.len() == len,
            expand@.len() == len,
            forall|m: int| 0 <= m < len ==> #[trigger] expand@[m] == vowel_e_expanded(s, m),
            forall|m: int|
                0 <= m < len ==> #[trigger] ctx.decomp@[m] == (if sign_after_vowel_dropped(s, m) {
                    None
                } else {
                    s[m]
                }),
            out@ == after_vowel_prefix(s, i as nat),
        decreases len - i,
    {
        assert(vowel_e_expanded(s, i as int) ==> !sign_after_vowel_dropped(s, i as int));
        if expand[i] {
            out.push(Some('\u{09A4}'));
            out.push(Some(CONNECTOR));
            out.push(Some('\u{09B0}'));
        } else {
            out.push(ctx.decomp[i]);
        }
        i = i + 1;
    }
    ctx.decomp = out;
}


// ─── fixNoSpaceChar ─────────────────────────────────────────────────────────

/// First pass: a joiner or non-joiner at the start is cleared, and every
/// other non-joiner becomes a joiner.
pub open spec fn no_space_first_pass(s: Seq<Option<char>>) -> Seq<Option<char>> {
    Seq::new(
        s.len(),
        |i: int|
            match s[i] {
                Some(c) => if i == 0 && (c == ZWNJ || c == ZWJ) {
                    None
                } else if c == ZWNJ {
                    Some(ZWJ)
                } else {
                    Some(c)
                },
                None => None,
            },
    )
}

/// Second pass, at a joiner: it is kept only inside র‍্য-like spellings,
/// that is after a র not preceded by a hosonto and before a hosonto; a
/// joiner after a hosonto is cleared with the hosonto.
pub open spec fn no_space_step(s: Seq<Option<char>>, idx: int) -> Seq<Option<char>> {
    if idx >= 1 && at(s, idx) == Some(ZWJ) {
        if idx == s.len() - 1 {
            s.update(idx, None)
        } else if at(s, idx - 1) == Some(CONNECTOR) {
            s.update(idx, None).update(idx - 1, None)
        } else if at(s, idx - 1) != Some('\u{09B0}') {
            s.update(idx, None)
        } else if idx > 1 && at(s, idx - 2) == Some(CONNECTOR) {
            s.update(idx, None)
        } else if idx < s.len() - 1 && at(s, idx + 1) != Some(CONNECTOR) {
            s.update(idx, None)
        } else if idx < s.len() - 2 && at(s, idx + 2) != Some('\u{09AF}') && at(s, idx + 1) != Some(
            CONNECTOR,
        ) {
            s.update(idx, None)
        } else {
            s
        }
    } else {
        s
    }
}

pub open spec fn no_space_upto(s: Seq<Option<char>>, k: nat) -> Seq<Option<char>>
    decreases k,
{
    if k == 0 {
        s
    } else {
        no_space_step(no_space_upto(s, (k - 1) as nat), k - 1)
    }
}

pub open spec fn spec_fix_no_space_char(s: Seq<Option<char>>) -> Seq<Option<char>> {
    let t = kept(no_space_first_pass(s));
    kept(no_space_upto(t, t.len()))
}

/// Normalizes zero width joiners and non-joiners.
pub fn fix_no_space_char_bangla(ctx: &mut NormCtx)
    ensures
        final(ctx).decomp@ == spec_fix_no_space_char(old(ctx).decomp@),
        same_word_and_options(*old(ctx), *final(ctx)),
{
    let ghost s = ctx.decomp@;
    let n = ctx.decomp.len();
    let mut idx: usize = 0;
    while idx < n
        invariant
            idx <= n,
            n == s.len(),
            s == old(ctx).decomp@,
            ctx.decomp@.len() == n,
            forall|m: int| 0 <= m < idx ==> #[trigger] ctx.decomp@[m] == no_space_first_pass(s)[m],
            forall|m: int| idx <= m < n ==> #[trigger] ctx.decomp@[m] == s[m],
            same_word_and_options(*old(ctx), *ctx),
        decreases n - idx,
    {
        if let Some(c) = ctx.decomp[idx] {
            if idx == 0 && (c == ZWNJ || c == ZWJ) {
                ctx.decomp.set(idx, None);
            } else if c == ZWNJ {
                ctx.decomp.set(idx, Some(ZWJ));
            }
        }
        idx = idx + 1;
    }
    assert(ctx.decomp@ =~= no_space_first_pass(s));
    retain_some(&mut ctx.decomp);
    let ghost t = ctx.decomp@;
    let len = ctx.decomp.len();
    let mut idx: usize = 0;
    while idx < len
        invariant
            idx <= len,
            len == t.len(),
            ctx.decomp@.len() == len,
            ctx.decomp@ == no_space_upto(t, idx as nat),
            same_word_and_options(*old(ctx), *ctx),
        decreases len - idx,
    {
        if idx >= 1 && holds(ctx.get_char(idx), ZWJ) {
            if idx == len - 1 {
                ctx.decomp.set(idx, None);
            } else {
                let prev = ctx.get_char(idx - 1);
                if holds(prev, CONNECTOR) {
                    ctx.decomp.set(idx, None);
                    ctx.decomp.set(idx - 1, None);
                } else if !holds(prev, '\u{09B0}') {
                    ctx.decomp.set(idx, None);
                } else if idx > 1 && holds(ctx.get_char(idx - 2), CONNECTOR) {
                    ctx.decomp.set(idx, None);
                } else if idx < len - 1 && !holds(ctx.get_char(idx + 1), CONNECTOR) {
                    ctx.decomp.set(idx, None);
                } else if idx < len - 2 && !holds(ctx.get_char(idx + 2), '\u{09AF}') && !holds(
                    ctx.get_char(idx + 1),
                    CONNECTOR,
                ) {
                    ctx.decomp.set(idx, None);
                }
            }
        }
        idx = idx + 1;
    }
    retain_some(&mut ctx.decomp);
}

// ─── baseCompose ────────────────────────────────────────────────────────────

/// The fixed clean-up pipeline that follows each structural change; every
/// operation runs on a buffer without cleared entries, and its cleared
/// entries are removed afterwards.
pub open spec fn spec_base_compose(s: Seq<Option<char>>, allow_english: bool, keep_legacy: bool) -> Seq<
    Option<char>,
> {
    let a = kept(spec_clean_invalid_unicodes(kept(s), allow_english, keep_legacy));
    let b = kept(spec_clean_invalid_connector(kept(a)));
    let c = kept(spec_clean_vowel_diacritics(kept(b)));
    let d = kept(spec_clean_consonant_diacritics(kept(c)));
    let e = kept(spec_fix_diacritic_order(kept(d)));
    let f = kept(spec_clean_non_char_diacs(kept(e)));
    let g = kept(spec_clean_vowel_diacritic_after_vowel(kept(f)));
    kept(spec_fix_no_space_char(kept(g)))
}

/// Runs the base clean-up pipeline.
pub(crate) fn base_compose(ctx: &mut NormCtx)
    ensures
        final(ctx).decomp@ == spec_base_compose(
            old(ctx).decomp@,
            old(ctx).allow_english,
            old(ctx).keep_legacy,
        ),
        same_word_and_options(*old(ctx), *final(ctx)),
{
    retain_some(&mut ctx.decomp);
    clean_invalid_unicodes(ctx);
    retain_some(&mut ctx.decomp);
    retain_some(&mut ctx.decomp);
    clean_invalid_connector_bangla(ctx);
    retain_some(&mut ctx.decomp);
    retain_some(&mut ctx.decomp);
    clean_vowel_diacritics(ctx);
    retain_some(&mut ctx.decomp);
    retain_some(&mut ctx.decomp);
    clean_consonant_diacritics_bangla(ctx);
    retain_some(&mut ctx.decomp);
    retain_some(&mut ctx.decomp);
    fix_diacritic_order(ctx);
    retain_some(&mut ctx.decomp);
    retain_some(&mut ctx.decomp);
    clean_non_char_diacs(ctx);
    retain_some(&mut ctx.decomp);
    retain_some(&mut ctx.decomp);
    clean_vowel_diacritic_after_vowel_bangla(ctx);
    retain_some(&mut ctx.decomp);
    retain_some(&mut ctx.decomp);
    fix_no_space_char_bangla(ctx);
    retain_some(&mut ctx.decomp);
}

// ─── To + hosonto ───────────────────────────────────────────────────────────

/// ত্ followed by a consonant outside ত থ ন ব ম য র becomes ৎ; in ত্ত্
/// followed by a character, ত্ becomes ৎ unless that character is ব, য or র,
/// and the second hosonto is cleared before র.
pub open spec fn to_hosonto_step(s: Seq<Option<char>>, idx: int) -> Seq<Option<char>> {
    if at(s, idx) == Some('\u{09A4}') && at(s, idx + 1) == Some(CONNECTOR) {
        match at(s, idx + 2) {
            Some(n2) => if !spec_is_valid_after_to_hosonto(n2) {
                s.update(idx, Some('\u{09CE}')).update(idx + 1, None)
            } else if n2 == '\u{09A4}' && at(s, idx + 3) == Some(CONNECTOR) {
                match at(s, idx + 4) {
                    Some(n4) => {
                        let s1 = if !(n4 == '\u{09AC}' || n4 == '\u{09AF}' || n4 == '\u{09B0}') {
                            s.update(idx, Some('\u{09CE}')).update(idx + 1, None)
                        } else {
                            s
                        };
                        if n4 == '\u{09B0}' {
                            s1.update(idx + 3, None)
                        } else {
                            s1
                        }
                    },
                    None => s,
                }
            } else {
                s
            },
            None => s,
        }
    } else {
        s
    }
}

pub open spec fn to_hosonto_upto(s: Seq<Option<char>>, k: nat) -> Seq<Option<char>>
    decreases k,
{
    if k == 0 {
        s
    } else {
        to_hosonto_step(to_hosonto_upto(s, (k - 1) as nat), k - 1)
    }
}

pub open spec fn spec_convert_to_and_hosonto(s: Seq<Option<char>>) -> Seq<Option<char>> {
    to_hosonto_upto(s, s.len())
}

fn convert_to_and_hosonto(ctx: &mut NormCtx)
    ensures
        final(ctx).decomp@ == spec_convert_to_and_hosonto(old(ctx).decomp@),
        same_word_and_options(*old(ctx), *final(ctx)),
{
    let len = ctx.decomp.len();
    let mut idx: usize = 0;
    while idx < len
        invariant
            idx <= len,
            len == old(ctx).decomp@.len(),
            ctx.decomp@.len() == len,
            ctx.decomp@ == to_hosonto_upto(old(ctx).decomp@, idx as nat),
            same_word_and_options(*old(ctx), *ctx),
        decreases len - idx,
    {
        if holds(ctx.get_char(idx), '\u{09A4}') && holds(ctx.get_char(idx + 1), CONNECTOR) {
            if let Some(n2) = ctx.get_char(idx + 2) {
                if !is_valid_after_to_hosonto(n2) {
                    ctx.decomp.set(idx, Some('\u{09CE}'));
                    ctx.decomp.set(idx + 1, None);
                } else if n2 == '\u{09A4}' && holds(ctx.get_char(idx + 3), CONNECTOR) {
                    if let Some(n4) = ctx.get_char(idx + 4) {
                        if !(n4 == '\u{09AC}' || n4 == '\u{09AF}' || n4 == '\u{09B0}') {
                            ctx.decomp.set(idx, Some('\u{09CE}'));
                            ctx.decomp.set(idx + 1, None);
                        }
                        if n4 == '\u{09B0}' {
                            ctx.decomp.set(idx + 3, None);
                        }
                    }
                }
            }
        }
        idx = idx + 1;
    }
}

/// A diacritic after ৎ moves before it.
pub open spec fn to_hosonto_swap_step(s: Seq<Option<char>>, idx: int) -> Seq<Option<char>> {
    if at(s, idx) == Some('\u{09CE}') && at(s, idx + 1) is Some && spec_is_diacritic(
        at(s, idx + 1)->0,
    ) {
        s.update(idx, at(s, idx + 1)).update(idx + 1, Some('\u{09CE}'))
    } else {
        s
    }
}

pub open spec fn to_hosonto_swap_upto(s: Seq<Option<char>>, k: nat) -> Seq<Option<char>>
    decreases k,
{
    if k == 0 {
        s
    } else {
        to_hosonto_swap_step(to_hosonto_swap_upto(s, (k - 1) as nat), k - 1)
    }
}

pub open spec fn spec_swap_to_and_hosonto_diacritics(s: Seq<Option<char>>) -> Seq<Option<char>> {
    to_hosonto_swap_upto(s, pairs_in(s.len()))
}

fn swap_to_and_hosonto_diacritics(ctx: &mut NormCtx)
    ensures
        final(ctx).decomp@ == spec_swap_to_and_hosonto_diacritics(old(ctx).decomp@),
        same_word_and_options(*old(ctx), *final(ctx)),
{
    let len = ctx.decomp.len();
    let bound = if len > 0 { len - 1 } else { 0 };
    let mut idx: usize = 0;
    while idx < bound
        invariant
            idx <= bound,
            bound == pairs_in(len as nat),
            len == old(ctx).decomp@.len(),
            ctx.decomp@.len() == len,
            ctx.decomp@ == to_hosonto_swap_upto(old(ctx).decomp@, idx as nat),
            same_word_and_options(*old(ctx), *ctx),
        decreases bound - idx,
    {
        if holds(ctx.get_char(idx), '\u{09CE}') {
            if let Some(n) = ctx.get_char(idx + 1) {
                if is_diacritic(n) {
                    ctx.decomp.set(idx, Some(n));
                    ctx.decomp.set(idx + 1, Some('\u{09CE}'));
                }
            }
        }
        idx = idx + 1;
    }
}

pub open spec fn spec_normalize_to_and_hosonto(
    s: Seq<Option<char>>,
    allow_english: bool,
    keep_legacy: bool,
) -> Seq<Option<char>> {
    let a = kept(spec_convert_to_and_hosonto(kept(s)));
    let b = kept(spec_swap_to_and_hosonto_diacritics(kept(a)));
    spec_base_compose(b, allow_english, keep_legacy)
}

/// Converts ত্ to ৎ where it stands before a consonant it cannot join, puts
/// diacritics before ৎ, and reruns the base clean-up.
pub fn normalize_to_and_hosonto(ctx: &mut NormCtx)
    ensures
        final(ctx).decomp@ == spec_normalize_to_and_hosonto(
            old(ctx).decomp@,
            old(ctx).allow_english,
            old(ctx).keep_legacy,
        ),
        same_word_and_options(*old(ctx), *final(ctx)),
{
    retain_some(&mut ctx.decomp);
    convert_to_and_hosonto(ctx);
    retain_some(&mut ctx.decomp);
    retain_some(&mut ctx.decomp);
    swap_to_and_hosonto_diacritics(ctx);
    retain_some(&mut ctx.decomp);
    base_compose(ctx);
}

// ─── Conjunct diacritics ───────────────────────────────────────────────────

/// `len - k`, or 0 when `len < k`.
pub open spec fn saturating_minus(len: nat, k: nat) -> nat {
    if len >= k {
        (len - k) as nat
    } else {
        0
    }
}

/// A য় (U+09DF) after a hosonto becomes য.
pub open spec fn jo_fola_typo_step(s: Seq<Option<char>>, idx: int) -> Seq<Option<char>> {
    if at(s, idx) == Some(CONNECTOR) && at(s, idx + 1) == Some('\u{09DF}') {
        s.update(idx + 1, Some('\u{09AF}'))
    } else {
        s
    }
}

pub open spec fn jo_fola_typo_upto(s: Seq<Option<char>>, k: nat) -> Seq<Option<char>>
    decreases k,
{
    if k == 0 {
        s
    } else {
        jo_fola_typo_step(jo_fola_typo_upto(s, (k - 1) as nat), k - 1)
    }
}

pub open spec fn spec_fix_typo_for_jo_fola(s: Seq<Option<char>>) -> Seq<Option<char>> {
    jo_fola_typo_upto(s, saturating_minus(s.len(), 1))
}

fn fix_typo_for_jo_fola(ctx: &mut NormCtx)
    ensures
        final(ctx).decomp@ == spec_fix_typo_for_jo_fola(old(ctx).decomp@),
        same_word_and_options(*old(ctx), *final(ctx)),
{
    let len = ctx.decomp.len();
    let bound = if len >= 1 { len - 1 } else { 0 };
    let mut idx: usize = 0;
    while idx < bound
        invariant
            idx <= bound,
            bound == saturating_minus(len as nat, 1),
            len == old(ctx).decomp@.len(),
            ctx.decomp@.len() == len,
            ctx.decomp@ == jo_fola_typo_upto(old(ctx).decomp@, idx as nat),
            same_word_and_options(*old(ctx), *ctx),
        decreases bound - idx,
    {
        if holds(ctx.get_char(idx), CONNECTOR) && holds(ctx.get_char(idx + 1), '\u{09DF}') {
            ctx.decomp.set(idx + 1, Some('\u{09AF}'));
        }
        idx = idx + 1;
    }
}

/// ্X্X with the same consonant X twice: the first ্X is cleared.
pub open spec fn double_cc_step(s: Seq<Option<char>>, idx: int) -> Seq<Option<char>> {
    if at(s, idx) == Some(CONNECTOR) && at(s, idx + 2) == Some(CONNECTOR) && at(s, idx + 1) is Some
        && at(s, idx + 3) is Some && spec_is_consonant(at(s, idx + 1)->0) && spec_is_consonant(
        at(s, idx + 3)->0,
    ) && at(s, idx + 1) == at(s, idx + 3) {
        s.update(idx, None).update(idx + 1, None)
    } else {
        s
    }
}

pub open spec fn double_cc_upto(s: Seq<Option<char>>, k: nat) -> Seq<Option<char>>
    decreases k,
{
    if k == 0 {
        s
    } else {
        double_cc_step(double_cc_upto(s, (k - 1) as nat), k - 1)
    }
}

pub open spec fn spec_clean_double_cc(s: Seq<Option<char>>) -> Seq<Option<char>> {
    double_cc_upto(s, saturating_minus(s.len(), 3))
}

fn clean_double_cc(ctx: &mut NormCtx)
    ensures
        final(ctx).decomp@ == spec_clean_double_cc(old(ctx).decomp@),
        same_word_and_options(*old(ctx), *final(ctx)),
{
    let len = ctx.decomp.len();
    let bound = if len >= 3 { len - 3 } else { 0 };
    let mut idx: usize = 0;
    while idx < bound
        invariant
            idx <= bound,
            bound == saturating_minus(len as nat, 3),
            len == old(ctx).decomp@.len(),
            ctx.decomp@.len() == len,
            ctx.decomp@ == double_cc_upto(old(ctx).decomp@, idx as nat),
            same_word_and_options(*old(ctx), *ctx),
        decreases bound - idx,
    {
        if holds(ctx.get_char(idx), CONNECTOR) && holds(ctx.get_char(idx + 2), CONNECTOR) {
            if let (Some(c1), Some(c2)) = (ctx.get_char(idx + 1), ctx.get_char(idx + 3)) {
                if is_consonant(c1) && is_consonant(c2) && c1 == c2 {
                    ctx.decomp.set(idx, None);
                    ctx.decomp.set(idx + 1, None);
                }
            }
        }
        idx = idx + 1;
    }
}

/// র্র্: the first র্ is cleared.
pub open spec fn double_ref_step(s: Seq<Option<char>>, idx: int) -> Seq<Option<char>> {
    if at(s, idx) == Some('\u{09B0}') && at(s, idx + 1) == Some(CONNECTOR) && at(s, idx + 2) == Some(
        '\u{09B0}',
    ) && at(s, idx + 3) == Some(CONNECTOR) {
        s.update(idx, None).update(idx + 1, None)
    } else {
        s
    }
}

pub open spec fn double_ref_upto(s: Seq<Option<char>>, k: nat) -> Seq<Option<char>>
    decreases k,
{
    if k == 0 {
        s
    } else {
        double_ref_step(double_ref_upto(s, (k - 1) as nat), k - 1)
    }
}

pub open spec fn spec_clean_double_ref(s: Seq<Option<char>>) -> Seq<Option<char>> {
    double_ref_upto(s, saturating_minus(s.len(), 3))
}

fn clean_double_ref(ctx: &mut NormCtx)
    ensures
        final(ctx).decomp@ == spec_clean_double_ref(old(ctx).decomp@),
        same_word_and_options(*old(ctx), *final(ctx)),
{
    let len = ctx.decomp.len();
    let bound = if len >= 3 { len - 3 } else { 0 };
    let mut idx: usize = 0;
    while idx < bound
        invariant
            idx <= bound,
            bound == saturating_minus(len as nat, 3),
            len == old(ctx).decomp@.len(),
            ctx.decomp@.len() == len,
            ctx.decomp@ == double_ref_upto(old(ctx).decomp@, idx as nat),
            same_word_and_options(*old(ctx), *ctx),
        decreases bound - idx,
    {
        if holds(ctx.get_char(idx), '\u{09B0}') && holds(ctx.get_char(idx + 1), CONNECTOR) && holds(
            ctx.get_char(idx + 2),
            '\u{09B0}',
        ) && holds(ctx.get_char(idx + 3), CONNECTOR) {
            ctx.decomp.set(idx, None);
            ctx.decomp.set(idx + 1, None);
        }
        idx = idx + 1;
    }
}

/// ্য্: the hosonto after the য-fola is cleared.
pub open spec fn connector_jo_fola_step(s: Seq<Option<char>>, idx: int) -> Seq<Option<char>> {
    if at(s, idx) == Some(CONNECTOR) && at(s, idx + 1) == Some('\u{09AF}') && at(s, idx + 2) == Some(
        CONNECTOR,
    ) {
        s.update(idx + 2, None)
    } else {
        s
    }
}

pub open spec fn connector_jo_fola_upto(s: Seq<Option<char>>, k: nat) -> Seq<Option<char>>
    decreases k,
{
    if k == 0 {
        s
    } else {
        connector_jo_fola_step(connector_jo_fola_upto(s, (k - 1) as nat), k - 1)
    }
}

pub open spec fn spec_clean_connector_for_jo_fola(s: Seq<Option<char>>) -> Seq<Option<char>> {
    connector_jo_fola_upto(s, saturating_minus(s.len(), 2))
}

fn clean_connector_for_jo_fola(ctx: &mut NormCtx)
    ensures
        final(ctx).decomp@ == spec_clean_connector_for_jo_fola(old(ctx).decomp@),
        same_word_and_options(*old(ctx), *final(ctx)),
{
    let len = ctx.decomp.len();
    let bound = if len >= 2 { len - 2 } else { 0 };
    let mut idx: usize = 0;
    while idx < bound
        invariant
            idx <= bound,
            bound == saturating_minus(len as nat, 2),
            len == old(ctx).decomp@.len(),
            ctx.decomp@.len() == len,
            ctx.decomp@ == connector_jo_fola_upto(old(ctx).decomp@, idx as nat),
            same_word_and_options(*old(ctx), *ctx),
        decreases bound - idx,
    {
        if holds(ctx.get_char(idx), CONNECTOR) && holds(ctx.get_char(idx + 1), '\u{09AF}') && holds(
            ctx.get_char(idx + 2),
            CONNECTOR,
        ) {
            ctx.decomp.set(idx + 2, None);
        }
        idx = idx + 1;
    }
}

pub open spec fn spec_clean_invalid_conjunct_diacritics(
    s: Seq<Option<char>>,
    allow_english: bool,
    keep_legacy: bool,
) -> Seq<Option<char>> {
    let a = kept(spec_fix_typo_for_jo_fola(kept(s)));
    let b = kept(spec_clean_double_cc(kept(a)));
    let c = kept(spec_clean_double_ref(kept(b)));
    let d = kept(spec_clean_connector_for_jo_fola(kept(c)));
    spec_base_compose(d, allow_english, keep_legacy)
}

/// Fixes the য-fola typo, repeated folas and repeated refs, and reruns the
/// base clean-up.
pub fn clean_invalid_conjunct_diacritics(ctx: &mut NormCtx)
    ensures
        final(ctx).decomp@ == spec_clean_invalid_conjunct_diacritics(
            old(ctx).decomp@,
            old(ctx).allow_english,
            old(ctx).keep_legacy,
        ),
        same_word_and_options(*old(ctx), *final(ctx)),
{
    retain_some(&mut ctx.decomp);
    fix_typo_for_jo_fola(ctx);
    retain_some(&mut ctx.decomp);
    retain_some(&mut ctx.decomp);
    clean_double_cc(ctx);
    retain_some(&mut ctx.decomp);
    retain_some(&mut ctx.decomp);
    clean_double_ref(ctx);
    retain_some(&mut ctx.decomp);
    retain_some(&mut ctx.decomp);
    clean_connector_for_jo_fola(ctx);
    retain_some(&mut ctx.decomp);
    base_compose(ctx);
}


// ─── Complex roots ───────────────────────────────────────────────────────────

/// A hosonto at `c` with a character on each side.
pub open spec fn inner_connector(t: Seq<char>, c: int) -> bool {
    0 < c < t.len() - 1 && t[c] == CONNECTOR
}

/// The first position of the span of the hosonto at `c`: the character
/// before it, or the two before it when the one before is a joiner.
pub open spec fn span_start(t: Seq<char>, c: int) -> int {
    if c >= 2 && t[c - 1] == ZWJ {
        c - 2
    } else {
        c - 1
    }
}

/// The conjunct groups of `t` from position `c` on: every inner hosonto
/// spans from `span_start` to the character after it, and spans that share
/// a position are merged.  `cur` is the group being built and `acc` the
/// groups already closed, each as its first and last position.
pub open spec fn groups_from(t: Seq<char>, c: int, cur: Option<(int, int)>, acc: Seq<(int, int)>) -> Seq<
    (int, int),
>
    decreases t.len() - c,
{
    if c >= t.len() {
        match cur {
            Some(g) => acc.push(g),
            None => acc,
        }
    } else if inner_connector(t, c) {
        let start = span_start(t, c);
        match cur {
            Some(g) => if start <= g.1 {
                groups_from(t, c + 1, Some((g.0, c + 1)), acc)
            } else {
                groups_from(t, c + 1, Some((start, c + 1)), acc.push(g))
            },
            None => groups_from(t, c + 1, Some((start, c + 1)), acc),
        }
    } else {
        groups_from(t, c + 1, cur, acc)
    }
}

/// The conjunct groups of `t`, from left to right.
pub open spec fn conjunct_groups(t: Seq<char>) -> Seq<(int, int)> {
    groups_from(t, 0, None, Seq::empty())
}

/// The groups as pairs of integers.
pub open spec fn groups_view(r: Seq<(usize, usize)>) -> Seq<(int, int)> {
    Seq::new(r.len(), |i: int| (r[i].0 as int, r[i].1 as int))
}

/// Every group lies inside `t` and starts no later than it ends.
pub open spec fn groups_in_range(gs: Seq<(int, int)>, n: int) -> bool {
    forall|i: int| 0 <= i < gs.len() ==> 0 <= (#[trigger] gs[i]).0 <= gs[i].1 < n
}

/// Computes the conjunct groups of `t`.
fn find_conjunct_groups(t: &Vec<char>) -> (r: Vec<(usize, usize)>)
    ensures
        groups_view(r@) == conjunct_groups(t@),
        groups_in_range(groups_view(r@), t@.len() as int),
{
    let n = t.len();
    let mut acc: Vec<(usize, usize)> = Vec::new();
    let mut has_cur = false;
    let mut lo: usize = 0;
    let mut hi: usize = 0;
    let mut c: usize = 0;
    assert(groups_view(acc@) =~= Seq::<(int, int)>::empty());
    while c < n
        invariant
            c <= n,
            n == t@.len(),
            has_cur ==> lo <= hi < n && hi <= c,
            groups_in_range(groups_view(acc@), n as int),
            conjunct_groups(t@) == groups_from(
                t@,
                c as int,
                if has_cur {
                    Some((lo as int, hi as int))
                } else {
                    None
                },
                groups_view(acc@),
            ),
        decreases n - c,
    {
        if c > 0 && c < n - 1 && t[c] == CONNECTOR {
            let start = if c >= 2 && t[c - 1] == ZWJ { c - 2 } else { c - 1 };
            if has_cur {
                if start <= hi {
                    hi = c + 1;
                } else {
                    let ghost before = acc@;
                    acc.push((lo, hi));
                    assert(groups_view(acc@) =~= groups_view(before).push((lo as int, hi as int)));
                    lo = start;
                    hi = c + 1;
                }
            } else {
                has_cur = true;
                lo = start;
                hi = c + 1;
            }
        }
        c = c + 1;
    }
    if has_cur {
        let ghost before = acc@;
        acc.push((lo, hi));
        assert(groups_view(acc@) =~= groups_view(before).push((lo as int, hi as int)));
    }
    acc
}

/// Builds a root from position `j` on: while `r` + hosonto + `t[j]` is a
/// valid root it is taken and `j` moves two places on.  Returns the root and
/// the positions used, with the positions used before.
pub open spec fn root_chain(
    t: Seq<char>,
    r: Seq<char>,
    j: int,
    used: Set<int>,
    allow_english: bool,
    keep_legacy: bool,
) -> (Seq<char>, Set<int>)
    decreases t.len() - j,
{
    if j >= t.len() || j < 0 {
        (r, used)
    } else {
        let k = r + seq![CONNECTOR, t[j]];
        if !spec_valid_root_with(k, allow_english, keep_legacy) {
            (r, used)
        } else if j != t.len() - 1 {
            root_chain(t, k, j + 2, used.insert(j), allow_english, keep_legacy)
        } else {
            (k, used.insert(j))
        }
    }
}

/// Scans `t` from `i` on: each character that is neither a hosonto nor used
/// by an earlier root starts a root (see `root_chain`), which is appended to
/// `formed`.
pub open spec fn root_scan(
    t: Seq<char>,
    i: int,
    used: Set<int>,
    formed: Seq<char>,
    allow_english: bool,
    keep_legacy: bool,
) -> Seq<char>
    decreases t.len() - i,
{
    if i >= t.len() || i < 0 {
        formed
    } else if t[i] != CONNECTOR && !used.contains(i) {
        let (piece, used2) = root_chain(t, seq![t[i]], i + 2, used, allow_english, keep_legacy);
        root_scan(t, i + 1, used2, formed + piece, allow_english, keep_legacy)
    } else {
        root_scan(t, i + 1, used, formed, allow_english, keep_legacy)
    }
}

/// A conjunct group rebuilt from the longest valid roots, left to right.
pub open spec fn spec_check_complex_root(t: Seq<char>, allow_english: bool, keep_legacy: bool) -> Seq<
    char,
> {
    root_scan(t, 0, Set::empty(), Seq::empty(), allow_english, keep_legacy)
}

/// Rebuilds a conjunct group from the longest valid roots.
fn check_complex_root(root: &Vec<char>, allow_english: bool, keep_legacy: bool) -> (r: Vec<char>)
    ensures
        r@ == spec_check_complex_root(root@, allow_english, keep_legacy),
{
    let n = root.len();
    let mut used: Vec<bool> = Vec::new();
    while used.len() < n
        invariant
            used@.len() <= n,
            forall|k: int| 0 <= k < used@.len() ==> !used@[k],
        decreases n - used@.len(),
    {
        used.push(false);
    }
    let ghost mut used_set: Set<int> = Set::empty();
    let mut formed: Vec<char> = Vec::new();
    let mut i: usize = 0;
    while i < n
        invariant
            i <= n,
            n == root@.len(),
            used@.len() == n,
            forall|k: int| 0 <= k < n ==> (used@[k] <==> used_set.contains(k)),
            spec_check_complex_root(root@, allow_english, keep_legacy) == root_scan(
                root@,
                i as int,
                used_set,
                formed@,
                allow_english,
                keep_legacy,
            ),
        decreases n - i,
    {
        if root[i] != CONNECTOR && !used[i] {
            let ghost used0 = used_set;
            let mut r: Vec<char> = Vec::new();
            r.push(root[i]);
            assert(r@ =~= seq![root@[i as int]]);
            let mut j: usize = if n - i >= 2 { i + 2 } else { n };
            let mut done = false;
            while j < n && !done
                invariant
                    i < n,
                    j <= n,
                    n == root@.len(),
                    used@.len() == n,
                    forall|k: int| 0 <= k < n ==> (used@[k] <==> used_set.contains(k)),
                    root_chain(root@, seq![root@[i as int]], i + 2, used0, allow_english, keep_legacy)
                        == if done {
                        (r@, used_set)
                    } else {
                        root_chain(root@, r@, j as int, used_set, allow_english, keep_legacy)
                    },
                decreases n - j + (if done {
                    0int
                } else {
                    1int
                }),
            {
                let mut k = r.clone();
                k.push(CONNECTOR);
                k.push(root[j]);
                assert(k@ =~= r@ + seq![CONNECTOR, root@[j as int]]);
                if !valid_root_with(&k, allow_english, keep_legacy) {
                    done = true;
                } else if j != n - 1 {
                    r = k;
                    used.set(j, true);
                    proof {
                        used_set = used_set.insert(j as int);
                    }
                    j = if n - j >= 2 { j + 2 } else { n };
                } else {
                    r = k;
                    used.set(j, true);
                    proof {
                        used_set = used_set.insert(j as int);
                    }
                    done = true;
                }
            }
            let ghost before = formed@;
            let mut m: usize = 0;
            while m < r.len()
                invariant
                    m <= r.len(),
                    formed@ == before + r@.take(m as int),
                decreases r.len() - m,
            {
                formed.push(r[m]);
                m = m + 1;
                assert(formed@ =~= before + r@.take(m as int));
            }
            assert(r@.take(r.len() as int) =~= r@);
        }
        i = i + 1;
    }
    formed
}

/// The entries that replace a group of `size` positions by the rebuilt
/// characters `nc`: the characters, then cleared entries for the positions
/// left over.
pub open spec fn group_replacement(nc: Seq<char>, size: int) -> Seq<Option<char>> {
    lift(nc) + Seq::new(
        if size > nc.len() {
            (size - nc.len()) as nat
        } else {
            0
        },
        |i: int| None,
    )
}

/// One group applied to the result buffer `rc`: a group that is not a valid
/// root is rebuilt by `spec_check_complex_root` at its positions.
pub open spec fn apply_group(
    rc: Seq<Option<char>>,
    t: Seq<char>,
    g: (int, int),
    allow_english: bool,
    keep_legacy: bool,
) -> Seq<Option<char>> {
    let grp = t.subrange(g.0, g.1 + 1);
    if spec_valid_root_with(grp, allow_english, keep_legacy) || !grp.contains(CONNECTOR) {
        rc
    } else {
        rc.subrange(0, g.0) + group_replacement(
            spec_check_complex_root(grp, allow_english, keep_legacy),
            g.1 - g.0 + 1,
        ) + rc.subrange(g.1 + 1, rc.len() as int)
    }
}

/// The first `k` groups applied in order.
pub open spec fn apply_groups_upto(
    rc: Seq<Option<char>>,
    t: Seq<char>,
    gs: Seq<(int, int)>,
    k: nat,
    allow_english: bool,
    keep_legacy: bool,
) -> Seq<Option<char>>
    decreases k,
{
    if k == 0 {
        rc
    } else {
        apply_group(
            apply_groups_upto(rc, t, gs, (k - 1) as nat, allow_english, keep_legacy),
            t,
            gs[k - 1],
            allow_english,
            keep_legacy,
        )
    }
}

pub open spec fn spec_convert_complex_roots(
    s: Seq<Option<char>>,
    allow_english: bool,
    keep_legacy: bool,
) -> Seq<Option<char>> {
    let t = somes(spec_fix_no_space_char(s));
    if !t.contains(CONNECTOR) {
        lift(t)
    } else {
        let gs = conjunct_groups(t);
        apply_groups_upto(lift(t), t, gs, gs.len(), allow_english, keep_legacy)
    }
}

/// Rewrites the conjunct groups of the buffer with their own characters.
/// The characters keep their order: the buffer comes out with its cleared
/// entries removed and nothing else changed.
fn construct_complex_decomp(ctx: &mut NormCtx)
    ensures
        final(ctx).decomp@ == kept(old(ctx).decomp@),
        same_word_and_options(*old(ctx), *final(ctx)),
{
    retain_some(&mut ctx.decomp);
    proof {
        lemma_kept(old(ctx).decomp@);
        lemma_kept(ctx.decomp@);
    }
    let ghost s = ctx.decomp@;
    let flat = flatten(&ctx.decomp);
    proof {
        lemma_kept(s);
        lemma_somes_lift(flat@);
    }
    assert(s == lift(flat@));
    if !chars_contain(&flat, CONNECTOR) {
        return;
    }
    let groups = find_conjunct_groups(&flat);
    let mut g: usize = 0;
    while g < groups.len()
        invariant
            g <= groups.len(),
            groups_in_range(groups_view(groups@), flat@.len() as int),
            ctx.decomp@ == s,
            s == lift(flat@),
            same_word_and_options(*old(ctx), *ctx),
        decreases groups.len() - g,
    {
        let (lo, hi) = groups[g];
        assert(groups_view(groups@)[g as int] == (lo as int, hi as int));
        let mut comb: Vec<char> = Vec::new();
        let mut i = lo;
        while i <= hi
            invariant
                lo <= i <= hi + 1,
                hi < flat.len(),
                ctx.decomp@ == s,
                s == lift(flat@),
                comb@ == flat@.subrange(lo as int, i as int),
            decreases hi + 1 - i,
        {
            if let Some(c) = ctx.decomp[i] {
                comb.push(c);
            }
            i = i + 1;
            assert(comb@ =~= flat@.subrange(lo as int, i as int));
        }
        let mut j: usize = 0;
        while j <= hi - lo
            invariant
                lo <= hi < flat@.len(),
                j <= hi - lo + 1,
                comb@ == flat@.subrange(lo as int, hi + 1),
                ctx.decomp@ == s,
                s == lift(flat@),
                same_word_and_options(*old(ctx), *ctx),
            decreases hi - lo + 1 - j,
        {
            if j < comb.len() {
                ctx.decomp.set(lo + j, Some(comb[j]));
            } else {
                ctx.decomp.set(lo + j, None);
            }
            assert(ctx.decomp@ =~= s);
            j = j + 1;
        }
        g = g + 1;
    }
    retain_some(&mut ctx.decomp);
}

/// `rc` with the positions `lo..=hi` replaced by `group_replacement(nc, ..)`.
fn replace_group(rc: &Vec<Option<char>>, lo: usize, hi: usize, nc: &Vec<char>) -> (r: Vec<
    Option<char>,
>)
    requires
        lo <= hi < rc.len(),
    ensures
        r@ == rc@.subrange(0, lo as int) + group_replacement(nc@, hi - lo + 1) + rc@.subrange(
            hi + 1,
            rc@.len() as int,
        ),
{
    let mut out: Vec<Option<char>> = Vec::new();
    let mut i: usize = 0;
    while i < lo
        invariant
            i <= lo <= hi < rc@.len(),
            out@ == rc@.subrange(0, i as int),
        decreases lo - i,
    {
        out.push(rc[i]);
        i = i + 1;
        assert(out@ =~= rc@.subrange(0, i as int));
    }
    let ghost head = out@;
    let mut k: usize = 0;
    while k < nc.len()
        invariant
            k <= nc.len(),
            out@ == head + lift(nc@.take(k as int)),
        decreases nc.len() - k,
    {
        out.push(Some(nc[k]));
        k = k + 1;
        assert(out@ =~= head + lift(nc@.take(k as int)));
    }
    assert(nc@.take(nc.len() as int) =~= nc@);
    let size = hi - lo + 1;
    let pad = if size > nc.len() { size - nc.len() } else { 0 };
    let ghost mid = out@;
    let mut p: usize = 0;
    while p < pad
        invariant
            p <= pad,
            out@.len() == mid.len() + p,
            forall|m: int| 0 <= m < mid.len() ==> #[trigger] out@[m] == mid[m],
            forall|m: int| mid.len() <= m < out@.len() ==> (#[trigger] out@[m]) is None,
        decreases pad - p,
    {
        out.push(None);
        p = p + 1;
    }
    assert(out@ =~= head + group_replacement(nc@, hi - lo + 1));
    let ghost body = out@;
    let mut q: usize = hi + 1;
    while q < rc.len()
        invariant
            hi + 1 <= q <= rc@.len(),
            out@ == body + rc@.subrange(hi + 1, q as int),
        decreases rc.len() - q,
    {
        out.push(rc[q]);
        q = q + 1;
        assert(out@ =~= body + rc@.subrange(hi + 1, q as int));
    }
    out
}

/// The characters of `t` at positions `lo..=hi`.
fn chars_between(t: &Vec<char>, lo: usize, hi: usize) -> (r: Vec<char>)
    requires
        lo <= hi < t.len(),
    ensures
        r@ == t@.subrange(lo as int, hi + 1),
{
    let mut out: Vec<char> = Vec::new();
    let mut i = lo;
    while i <= hi
        invariant
            lo <= i <= hi + 1,
            hi < t.len(),
            out@ == t@.subrange(lo as int, i as int),
        decreases hi + 1 - i,
    {
        out.push(t[i]);
        i = i + 1;
        assert(out@ =~= t@.subrange(lo as int, i as int));
    }
    out
}

/// Checks each conjunct group and rebuilds the groups that are not valid
/// roots from their longest valid parts.
pub fn convert_complex_roots(ctx: &mut NormCtx)
    ensures
        final(ctx).decomp@ == spec_convert_complex_roots(
            old(ctx).decomp@,
            old(ctx).allow_english,
            old(ctx).keep_legacy,
        ),
        same_word_and_options(*old(ctx), *final(ctx)),
{
    let ghost s = ctx.decomp@;
    fix_no_space_char_bangla(ctx);
    retain_some(&mut ctx.decomp);
    proof {
        lemma_kept(spec_fix_no_space_char(s));
        lemma_kept(ctx.decomp@);
    }
    construct_complex_decomp(ctx);
    let chars = flatten(&ctx.decomp);
    proof {
        lemma_kept(kept(spec_fix_no_space_char(s)));
        lemma_somes_lift(somes(spec_fix_no_space_char(s)));
    }
    assert(chars@ == somes(spec_fix_no_space_char(s)));
    if !chars_contain(&chars, CONNECTOR) {
        return;
    }
    let groups = find_conjunct_groups(&chars);
    let mut rc = lift_chars(&chars);
    let allow_english = ctx.allow_english;
    let keep_legacy = ctx.keep_legacy;
    let mut g: usize = 0;
    while g < groups.len()
        invariant
            g <= groups.len(),
            groups_view(groups@) == conjunct_groups(chars@),
            groups_in_range(groups_view(groups@), chars@.len() as int),
            rc@.len() >= chars@.len(),
            rc@ == apply_groups_upto(
                lift(chars@),
                chars@,
                groups_view(groups@),
                g as nat,
                allow_english,
                keep_legacy,
            ),
        decreases groups.len() - g,
    {
        let (lo, hi) = groups[g];
        assert(groups_view(groups@)[g as int] == (lo as int, hi as int));
        let grp = chars_between(&chars, lo, hi);
        if !valid_root_with(&grp, allow_english, keep_legacy) && chars_contain(&grp, CONNECTOR) {
            let nc = check_complex_root(&grp, allow_english, keep_legacy);
            rc = replace_group(&rc, lo, hi, &nc);
        }
        g = g + 1;
    }
    ctx.decomp = rc;
}


// ─── The empty buffer ────────────────────────────────────────────────────────

/// Every operation leaves an empty buffer empty.
pub proof fn lemma_ops_keep_empty(allow_english: bool, keep_legacy: bool)
    ensures
        ({
            let e = Seq::<Option<char>>::empty();
            &&& kept(e) == e
            &&& spec_fix_broken_nukta(e) == e
            &&& spec_clean_invalid_unicodes(e, allow_english, keep_legacy) == e
            &&& spec_clean_invalid_connector(e) == e
            &&& spec_clean_vowel_diacritics(e) == e
            &&& spec_clean_consonant_diacritics(e) == e
            &&& spec_fix_diacritic_order(e) == e
            &&& spec_clean_non_char_diacs(e) == e
            &&& spec_clean_vowel_diacritic_after_vowel(e) == e
            &&& spec_fix_no_space_char(e) == e
            &&& spec_base_compose(e, allow_english, keep_legacy) == e
            &&& spec_normalize_to_and_hosonto(e, allow_english, keep_legacy) == e
            &&& spec_clean_invalid_conjunct_diacritics(e, allow_english, keep_legacy) == e
            &&& spec_convert_complex_roots(e, allow_english, keep_legacy) == e
        }),
{
    let e = Seq::<Option<char>>::empty();
    let w = Seq::<char>::empty();
    assert(kept(e) == e);
    assert(strip_back(strip_front(e)) == e);
    assert(spec_clean_invalid_unicodes(e, allow_english, keep_legacy) =~= e);
    assert(somes(e) == w);
    assert(replace_all(w, e_ya_aa(), o_ya_aa()) == w);
    assert(replace_all(w, o_ya(), o_ya_aa()) == w);
    assert(lift(w) =~= e);
    assert(spec_clean_invalid_connector(e) == e);
    assert(no_space_first_pass(e) =~= e);
    assert(spec_fix_no_space_char(e) == e);
    assert(spec_clean_vowel_diacritic_after_vowel(e) =~= e);
    assert(spec_base_compose(e, allow_english, keep_legacy) == e);
    assert(spec_normalize_to_and_hosonto(e, allow_english, keep_legacy) == e);
    assert(spec_clean_invalid_conjunct_diacritics(e, allow_english, keep_legacy) == e);
    assert(!w.contains(CONNECTOR));
    assert(spec_convert_complex_roots(e, allow_english, keep_legacy) == e);
}

} // verus!
