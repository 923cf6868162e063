//! Laws of single normalization operations, stated by what they do to
//! their input: which base a nukta composes with, when ত্ becomes ৎ, that
//! reordering signs loses none, what the word-level replacements leave
//! behind, and how conjunct groups cover their hosontos.

use vstd::prelude::*;

use super::ops::{
    conjunct_groups, diacritic_order_step, diacritic_order_upto, groups_from, span_start, nukta_base_before, nukta_step, spec_fix_broken_diacritics,
    spec_fix_diacritic_order, spec_replace_assamese, spec_replace_punctuations, to_hosonto_step,
};
use super::spec_word_level;
use crate::langs::{spec_nukta_target, CONNECTOR, NUKTA, ZWJ};
use crate::text::{at, replace_all};

verus! {

// ─── Nukta composition ──────────────────────────────────────────────────────

/// `c` is a character that has a nukta form (য, ব, ড, ঢ).
pub open spec fn has_nukta_form(x: Option<char>) -> bool {
    x matches Some(c) && spec_nukta_target(c) is Some
}

proof fn lemma_nukta_base_is(s: Seq<Option<char>>, k: int, b: int)
    requires
        0 <= b < k <= s.len(),
        has_nukta_form(s[b]),
        forall|j: int| b < j < k ==> !has_nukta_form(#[trigger] s[j]),
    ensures
        nukta_base_before(s, k) == Some(b),
    decreases k,
{
    if k - 1 > b {
        assert(!has_nukta_form(s[k - 1]));
        lemma_nukta_base_is(s, k - 1, b);
    } else {
        assert(at(s, k - 1) == s[b]);
    }
}

proof fn lemma_nukta_base_none(s: Seq<Option<char>>, k: int)
    requires
        0 <= k <= s.len(),
        forall|j: int| 0 <= j < k ==> !has_nukta_form(#[trigger] s[j]),
    ensures
        nukta_base_before(s, k) is None,
    decreases k,
{
    if k > 0 {
        assert(!has_nukta_form(s[k - 1]));
        lemma_nukta_base_none(s, k - 1);
    }
}

/// A nukta at position `i` composes with the nearest earlier character that
/// has a nukta form, at `b`: that character takes its nukta form, the nukta
/// is cleared, and every other entry is unchanged.
pub proof fn law_nukta_composes_with_nearest_base(s: Seq<Option<char>>, i: int, b: int)
    requires
        0 <= b < i < s.len(),
        s[i] == Some(NUKTA),
        has_nukta_form(s[b]),
        forall|j: int| b < j < i ==> !has_nukta_form(#[trigger] s[j]),
    ensures
        nukta_step(s, i) == s.update(b, spec_nukta_target(s[b]->0)).update(i, None),
        nukta_step(s, i)[b] == spec_nukta_target(s[b]->0),
        nukta_step(s, i)[i] is None,
        forall|j: int| 0 <= j < s.len() && j != b && j != i ==> #[trigger] nukta_step(s, i)[j] == s[j],
{
    lemma_nukta_base_is(s, i, b);
}

/// A nukta with no earlier character that has a nukta form is left alone.
pub proof fn law_nukta_without_base_unchanged(s: Seq<Option<char>>, i: int)
    requires
        0 <= i < s.len(),
        s[i] == Some(NUKTA),
        forall|j: int| 0 <= j < i ==> !has_nukta_form(#[trigger] s[j]),
    ensures
        nukta_step(s, i) == s,
{
    lemma_nukta_base_none(s, i);
}

// ─── ত্ and ৎ ─────────────────────────────────────────────────────────────

/// The consonants that ত্ joins: ত থ ন ব ম য র.
pub open spec fn joins_after_ta_hosonto(c: char) -> bool {
    c == '\u{09A4}' || c == '\u{09A5}' || c == '\u{09A8}' || c == '\u{09AC}' || c == '\u{09AE}' || c == '\u{09AF}' || c == '\u{09B0}'
}

/// ত্ before a consonant that it joins (ত্থ ত্ন ত্ব ত্ম ত্য ত্র, and ত্ত
/// when no hosonto follows) is never turned into ৎ: the buffer is left as
/// it is.
pub proof fn law_ta_hosonto_kept_before_joining_consonant(s: Seq<Option<char>>, idx: int)
    requires
        at(s, idx) == Some('\u{09A4}'),
        at(s, idx + 1) == Some(CONNECTOR),
        at(s, idx + 2) matches Some(n2) && joins_after_ta_hosonto(n2),
        !(at(s, idx + 2) == Some('\u{09A4}') && at(s, idx + 3) == Some(CONNECTOR)),
    ensures
        to_hosonto_step(s, idx) == s,
{
}

/// ত্ before a character that it does not join becomes ৎ, with the hosonto
/// cleared and every other entry unchanged.
pub proof fn law_ta_hosonto_becomes_khanda_ta(s: Seq<Option<char>>, idx: int)
    requires
        at(s, idx) == Some('\u{09A4}'),
        at(s, idx + 1) == Some(CONNECTOR),
        at(s, idx + 2) matches Some(n2) && !joins_after_ta_hosonto(n2),
    ensures
        to_hosonto_step(s, idx) == s.update(idx, Some('\u{09CE}')).update(idx + 1, None),
{
}

/// ত্ত্ followed by a character: before ব or য the buffer is left as it is;
/// before র the second hosonto is cleared (ত্ত্র becomes ত্তর); before any
/// other character the first ত্ becomes ৎ.
pub proof fn law_double_ta_hosonto(s: Seq<Option<char>>, idx: int, n4: char)
    requires
        at(s, idx) == Some('\u{09A4}'),
        at(s, idx + 1) == Some(CONNECTOR),
        at(s, idx + 2) == Some('\u{09A4}'),
        at(s, idx + 3) == Some(CONNECTOR),
        at(s, idx + 4) == Some(n4),
    ensures
        n4 == '\u{09AC}' || n4 == '\u{09AF}' ==> to_hosonto_step(s, idx) == s,
        n4 == '\u{09B0}' ==> to_hosonto_step(s, idx) == s.update(idx + 3, None),
        !(n4 == '\u{09AC}' || n4 == '\u{09AF}' || n4 == '\u{09B0}') ==> to_hosonto_step(s, idx) == s.update(
            idx,
            Some('\u{09CE}'),
        ).update(idx + 1, None),
{
}

// ─── Diacritic order ────────────────────────────────────────────────────────

proof fn lemma_diacritic_order_step_permutes(s: Seq<Option<char>>, idx: int)
    ensures
        diacritic_order_step(s, idx).to_multiset() == s.to_multiset(),
        diacritic_order_step(s, idx).len() == s.len(),
{
    broadcast use vstd::seq_lib::to_multiset_update;
    broadcast use vstd::multiset::group_multiset_axioms;

    let q = diacritic_order_step(s, idx);
    if q != s {
        let a = s[idx];
        let b = s[idx + 1];
        let s1 = s.update(idx, b);
        assert(s1[idx + 1] == b);
        assert(s1.to_multiset() == s.to_multiset().insert(b).remove(a));
        assert(q == s1.update(idx + 1, a));
        assert(q.to_multiset() == s1.to_multiset().insert(a).remove(b));
        assert(s.to_multiset().count(a) > 0) by {
            vstd::seq_lib::to_multiset_contains(s, a);
            assert(s.contains(a)) by {
                assert(s[idx] == a);
            }
        }
        assert(q.to_multiset() =~= s.to_multiset());
    }
}

proof fn lemma_diacritic_order_upto_permutes(s: Seq<Option<char>>, k: nat)
    ensures
        diacritic_order_upto(s, k).to_multiset() == s.to_multiset(),
        diacritic_order_upto(s, k).len() == s.len(),
    decreases k,
{
    if k > 0 {
        lemma_diacritic_order_upto_permutes(s, (k - 1) as nat);
        lemma_diacritic_order_step_permutes(diacritic_order_upto(s, (k - 1) as nat), k - 1);
    }
}

/// Putting vowel signs before consonant signs only reorders the buffer: it
/// holds the same entries, each as often, so no sign is lost.
pub proof fn law_diacritic_order_is_a_permutation(s: Seq<Option<char>>)
    ensures
        spec_fix_diacritic_order(s).to_multiset() == s.to_multiset(),
        spec_fix_diacritic_order(s).len() == s.len(),
{
    lemma_diacritic_order_upto_permutes(s, super::ops::pairs_in(s.len()));
}

/// ঁ ং ঃ.
pub open spec fn consonant_sign(c: char) -> bool {
    '\u{0981}' <= c && c <= '\u{0983}'
}

/// া ি ী ু ূ ৃ ে ৈ ো ৌ.
pub open spec fn vowel_sign(c: char) -> bool {
    ('\u{09BE}' <= c && c <= '\u{09C3}') || c == '\u{09C7}' || c == '\u{09C8}' || c == '\u{09CB}' || c
        == '\u{09CC}'
}

/// A consonant sign followed by a vowel sign.
pub open spec fn sign_pair(a: Option<char>, b: Option<char>) -> bool {
    match (a, b) {
        (Some(d), Some(n)) => consonant_sign(d) && vowel_sign(n),
        _ => false,
    }
}

/// A consonant sign right before a vowel sign changes places with it.
pub proof fn law_diacritic_order_swaps_signs(s: Seq<Option<char>>, idx: int, d: char, n: char)
    requires
        0 <= idx,
        idx + 1 < s.len(),
        s[idx] == Some(d),
        s[idx + 1] == Some(n),
        consonant_sign(d),
        vowel_sign(n),
    ensures
        diacritic_order_step(s, idx) == s.update(idx, Some(n)).update(idx + 1, Some(d)),
{
}

/// Anywhere else the step leaves the buffer as it is.
pub proof fn law_diacritic_order_leaves_other_pairs(s: Seq<Option<char>>, idx: int)
    requires
        !(0 <= idx && idx + 1 < s.len() && sign_pair(s[idx], s[idx + 1])),
    ensures
        diacritic_order_step(s, idx) == s,
{
}


// ─── Word-level replacements ────────────────────────────────────────────────

/// No `a` in `w` is immediately followed by `b`.
pub open spec fn no_pair(w: Seq<char>, a: char, b: char) -> bool {
    forall|i: int| 0 <= i < w.len() - 1 ==> !(#[trigger] w[i] == a && w[i + 1] == b)
}

proof fn lemma_replace_head(x: Seq<char>, from: Seq<char>, c: char)
    requires
        x.len() > 0,
    ensures
        replace_all(x, from, seq![c]).len() > 0,
        replace_all(x, from, seq![c])[0] == c || replace_all(x, from, seq![c])[0] == x[0],
{
    if !(from.len() == 0 || x.len() < from.len()) {
        let rest = if x.take(from.len() as int) == from {
            replace_all(x.skip(from.len() as int), from, seq![c])
        } else {
            replace_all(x.skip(1), from, seq![c])
        };
        if x.take(from.len() as int) == from {
            assert((seq![c] + rest)[0] == c);
        } else {
            assert((seq![x[0]] + rest)[0] == x[0]);
        }
    }
}

proof fn lemma_no_pair_skip(w: Seq<char>, k: int, a: char, b: char)
    requires
        0 <= k <= w.len(),
        no_pair(w, a, b),
    ensures
        no_pair(w.skip(k), a, b),
{
    assert forall|i: int| 0 <= i < w.skip(k).len() - 1 implies !(#[trigger] w.skip(k)[i] == a && w.skip(
        k,
    )[i + 1] == b) by {
        assert(w.skip(k)[i] == w[i + k] && w.skip(k)[i + 1] == w[i + k + 1]);
    }
}

proof fn lemma_no_pair_cons(h: char, r: Seq<char>, a: char, b: char)
    requires
        no_pair(r, a, b),
        r.len() > 0 ==> !(h == a && r[0] == b),
    ensures
        no_pair(seq![h] + r, a, b),
{
    let x = seq![h] + r;
    assert forall|i: int| 0 <= i < x.len() - 1 implies !(#[trigger] x[i] == a && x[i + 1] == b) by {
        if i > 0 {
            assert(x[i] == r[i - 1] && x[i + 1] == r[i]);
        } else {
            assert(x[0] == h && x[1] == r[0]);
        }
    }
}

/// Replacing `a b` by `c` (neither `a` nor `b`) leaves no `a` followed by `b`.
proof fn lemma_replace_removes_pair(w: Seq<char>, a: char, b: char, c: char)
    requires
        c != a,
        c != b,
    ensures
        no_pair(replace_all(w, seq![a, b], seq![c]), a, b),
    decreases w.len(),
{
    let from = seq![a, b];
    if w.len() >= 2 {
        if w.take(2) == from {
            lemma_replace_removes_pair(w.skip(2), a, b, c);
            lemma_no_pair_cons(c, replace_all(w.skip(2), from, seq![c]), a, b);
        } else {
            let w1 = w.skip(1);
            lemma_replace_removes_pair(w1, a, b, c);
            lemma_replace_head(w1, from, c);
            assert(!(w[0] == a && w[1] == b)) by {
                if w[0] == a && w[1] == b {
                    assert(w.take(2) =~= from);
                }
            }
            assert(w1[0] == w[1]);
            lemma_no_pair_cons(w[0], replace_all(w1, from, seq![c]), a, b);
        }
    }
}

/// Replacing anything by a single `c` (neither `a` nor `b`) creates no `a`
/// followed by `b`.
proof fn lemma_replace_keeps_no_pair(w: Seq<char>, from: Seq<char>, c: char, a: char, b: char)
    requires
        no_pair(w, a, b),
        c != a,
        c != b,
    ensures
        no_pair(replace_all(w, from, seq![c]), a, b),
    decreases w.len(),
{
    if !(from.len() == 0 || w.len() < from.len()) {
        if w.take(from.len() as int) == from {
            lemma_no_pair_skip(w, from.len() as int, a, b);
            lemma_replace_keeps_no_pair(w.skip(from.len() as int), from, c, a, b);
            lemma_no_pair_cons(c, replace_all(w.skip(from.len() as int), from, seq![c]), a, b);
        } else {
            let w1 = w.skip(1);
            lemma_no_pair_skip(w, 1, a, b);
            lemma_replace_keeps_no_pair(w1, from, c, a, b);
            if w1.len() > 0 {
                lemma_replace_head(w1, from, c);
                assert(w1[0] == w[1]);
            }
            lemma_no_pair_cons(w[0], replace_all(w1, from, seq![c]), a, b);
        }
    }
}

/// Replacing the character `x` by `c` (not `x`) leaves no `x`.
proof fn lemma_replace_removes_char(w: Seq<char>, x: char, c: char)
    requires
        c != x,
    ensures
        !replace_all(w, seq![x], seq![c]).contains(x),
    decreases w.len(),
{
    if w.len() >= 1 {
        lemma_replace_removes_char(w.skip(1), x, c);
        let rest = replace_all(w.skip(1), seq![x], seq![c]);
        let h = if w.take(1) == seq![x] { c } else { w[0] };
        if w.take(1) != seq![x] {
            assert(w[0] != x) by {
                if w[0] == x {
                    assert(w.take(1) =~= seq![x]);
                }
            }
        }
        assert(replace_all(w, seq![x], seq![c]) == seq![h] + rest);
        if (seq![h] + rest).contains(x) {
            let j = choose|j: int| 0 <= j < (seq![h] + rest).len() && (seq![h] + rest)[j] == x;
            if j > 0 {
                assert(rest[j - 1] == x);
            }
        }
    }
}

/// Replacing anything by a single `c` (not `x`) in a word without `x`
/// leaves a word without `x`.
proof fn lemma_replace_keeps_absent(w: Seq<char>, from: Seq<char>, c: char, x: char)
    requires
        !w.contains(x),
        c != x,
    ensures
        !replace_all(w, from, seq![c]).contains(x),
    decreases w.len(),
{
    if !(from.len() == 0 || w.len() < from.len()) {
        let k: int = if w.take(from.len() as int) == from { from.len() as int } else { 1 };
        let h = if w.take(from.len() as int) == from { c } else { w[0] };
        assert(!w.skip(k).contains(x)) by {
            if w.skip(k).contains(x) {
                let j = choose|j: int| 0 <= j < w.skip(k).len() && w.skip(k)[j] == x;
                assert(w[j + k] == x);
            }
        }
        lemma_replace_keeps_absent(w.skip(k), from, c, x);
        let rest = replace_all(w.skip(k), from, seq![c]);
        assert(replace_all(w, from, seq![c]) == seq![h] + rest);
        if h == w[0] {
            assert(w[0] != x) by {
                assert(w.contains(w[0]) || w.len() == 0);
            }
        }
        if (seq![h] + rest).contains(x) {
            let j = choose|j: int| 0 <= j < (seq![h] + rest).len() && (seq![h] + rest)[j] == x;
            if j > 0 {
                assert(rest[j - 1] == x);
            }
        }
    }
}

/// The word has no broken vowel sign left: no ে followed by া or ৗ, no অ
/// followed by া, and no ৄ.
pub open spec fn no_broken_signs(w: Seq<char>) -> bool {
    &&& no_pair(w, '\u{09C7}', '\u{09BE}')
    &&& no_pair(w, '\u{09C7}', '\u{09D7}')
    &&& no_pair(w, '\u{0985}', '\u{09BE}')
    &&& !w.contains('\u{09C4}')
}

proof fn lemma_single_keeps_no_broken_signs(w: Seq<char>, from: Seq<char>, c: char)
    requires
        no_broken_signs(w),
        c != '\u{09C7}' && c != '\u{09BE}' && c != '\u{09D7}' && c != '\u{0985}' && c != '\u{09C4}',
    ensures
        no_broken_signs(replace_all(w, from, seq![c])),
{
    lemma_replace_keeps_no_pair(w, from, c, '\u{09C7}', '\u{09BE}');
    lemma_replace_keeps_no_pair(w, from, c, '\u{09C7}', '\u{09D7}');
    lemma_replace_keeps_no_pair(w, from, c, '\u{0985}', '\u{09BE}');
    lemma_replace_keeps_absent(w, from, c, '\u{09C4}');
}

/// After the broken-diacritic fix the word has no broken vowel sign left:
/// no ে followed by া or ৗ, no অ followed by া, and no ৄ.
pub proof fn law_broken_diacritics_fixed(w: Seq<char>)
    ensures
        no_broken_signs(spec_fix_broken_diacritics(w)),
{
    let w1 = replace_all(w, seq!['\u{09C7}', '\u{09BE}'], seq!['\u{09CB}']);
    lemma_replace_removes_pair(w, '\u{09C7}', '\u{09BE}', '\u{09CB}');
    let w2 = replace_all(w1, seq!['\u{09C7}', '\u{09D7}'], seq!['\u{09CC}']);
    lemma_replace_removes_pair(w1, '\u{09C7}', '\u{09D7}', '\u{09CC}');
    lemma_replace_keeps_no_pair(w1, seq!['\u{09C7}', '\u{09D7}'], '\u{09CC}', '\u{09C7}', '\u{09BE}');
    let w3 = replace_all(w2, seq!['\u{0985}', '\u{09BE}'], seq!['\u{0986}']);
    lemma_replace_removes_pair(w2, '\u{0985}', '\u{09BE}', '\u{0986}');
    lemma_replace_keeps_no_pair(w2, seq!['\u{0985}', '\u{09BE}'], '\u{0986}', '\u{09C7}', '\u{09BE}');
    lemma_replace_keeps_no_pair(w2, seq!['\u{0985}', '\u{09BE}'], '\u{0986}', '\u{09C7}', '\u{09D7}');
    let w4 = replace_all(w3, seq!['\u{09C4}'], seq!['\u{09C3}']);
    lemma_replace_keeps_no_pair(w3, seq!['\u{09C4}'], '\u{09C3}', '\u{09C7}', '\u{09BE}');
    lemma_replace_keeps_no_pair(w3, seq!['\u{09C4}'], '\u{09C3}', '\u{09C7}', '\u{09D7}');
    lemma_replace_keeps_no_pair(w3, seq!['\u{09C4}'], '\u{09C3}', '\u{0985}', '\u{09BE}');
    lemma_replace_removes_char(w3, '\u{09C4}', '\u{09C3}');
}

/// After all the word-level replacements the word still has no broken vowel
/// sign, whatever the legacy map and options.
pub proof fn law_word_level_has_no_broken_signs(
    w: Seq<char>,
    legacy: Option<Seq<(char, Seq<char>)>>,
    keep_legacy: bool,
)
    ensures
        no_broken_signs(spec_word_level(w, legacy, keep_legacy)),
{
    let f = spec_fix_broken_diacritics(super::ops::spec_map_legacy_symbols(w, legacy));
    law_broken_diacritics_fixed(super::ops::spec_map_legacy_symbols(w, legacy));
    let a1 = replace_all(f, seq!['\u{09F0}'], seq!['\u{09B0}']);
    lemma_single_keeps_no_broken_signs(f, seq!['\u{09F0}'], '\u{09B0}');
    let a2 = replace_all(a1, seq!['\u{09F1}'], seq!['\u{09AC}']);
    lemma_single_keeps_no_broken_signs(a1, seq!['\u{09F1}'], '\u{09AC}');
    assert(a2 == spec_replace_assamese(f));
    let p1 = if keep_legacy {
        a2
    } else {
        replace_all(a2, seq!['\u{09F7}'], seq!['\u{0964}'])
    };
    if !keep_legacy {
        lemma_single_keeps_no_broken_signs(a2, seq!['\u{09F7}'], '\u{0964}');
    }
    lemma_single_keeps_no_broken_signs(p1, seq!['\u{2013}'], '-');
    assert(spec_word_level(w, legacy, keep_legacy) == replace_all(p1, seq!['\u{2013}'], seq!['-']));
}

// ─── Conjunct groups ────────────────────────────────────────────────────────

/// The group `g` (first and last position) holds the whole conjunct around
/// the hosonto at `c`: the character before it, the character after it, and,
/// when the character before is a ZWJ, the character before the ZWJ too.
pub open spec fn holds_conjunct(g: (int, int), t: Seq<char>, c: int) -> bool {
    &&& g.0 <= c - 1
    &&& c + 1 <= g.1
    &&& (c >= 2 && t[c - 1] == ZWJ ==> g.0 <= c - 2)
}

/// Some group of `gs` holds the whole conjunct around the hosonto at `c`.
pub open spec fn conjunct_held(gs: Seq<(int, int)>, t: Seq<char>, c: int) -> bool {
    exists|i: int| 0 <= i < gs.len() && holds_conjunct(#[trigger] gs[i], t, c)
}

/// `c` is a hosonto with a character on each side.
pub open spec fn joining_hosonto(t: Seq<char>, c: int) -> bool {
    0 < c < t.len() - 1 && t[c] == CONNECTOR
}

proof fn lemma_held_push(gs: Seq<(int, int)>, g: (int, int), t: Seq<char>, c: int)
    requires
        conjunct_held(gs, t, c),
    ensures
        conjunct_held(gs.push(g), t, c),
{
    let i = choose|i: int| 0 <= i < gs.len() && holds_conjunct(#[trigger] gs[i], t, c);
    assert(gs.push(g)[i] == gs[i]);
}

proof fn lemma_held_last(gs: Seq<(int, int)>, g: (int, int), t: Seq<char>, c: int)
    requires
        holds_conjunct(g, t, c),
    ensures
        conjunct_held(gs.push(g), t, c),
{
    assert(gs.push(g)[gs.len() as int] == g);
}

proof fn lemma_groups_from_hold(t: Seq<char>, c: int, cur: Option<(int, int)>, acc: Seq<(int, int)>)
    requires
        c >= 0,
        cur matches Some(g) ==> g.0 <= c - 2 && g.1 <= c,
        forall|d: int|
            #![trigger joining_hosonto(t, d)]
            0 <= d < c && joining_hosonto(t, d) ==> conjunct_held(acc, t, d) || (cur matches Some(g)
                && holds_conjunct(g, t, d)),
    ensures
        forall|d: int|
            #![trigger joining_hosonto(t, d)]
            joining_hosonto(t, d) ==> conjunct_held(groups_from(t, c, cur, acc), t, d),
    decreases t.len() - c,
{
    if c >= t.len() {
        assert forall|d: int| #![trigger joining_hosonto(t, d)] joining_hosonto(t, d) implies conjunct_held(
            groups_from(t, c, cur, acc),
            t,
            d,
        ) by {
            match cur {
                Some(g) => {
                    if conjunct_held(acc, t, d) {
                        lemma_held_push(acc, g, t, d);
                    } else {
                        lemma_held_last(acc, g, t, d);
                    }
                },
                None => {},
            }
        }
    } else if 0 < c < t.len() - 1 && t[c] == CONNECTOR {
        let start = span_start(t, c);
        match cur {
            Some(g) => {
                if start <= g.1 {
                    let ng = (g.0, c + 1);
                    assert forall|d: int|
                        #![trigger joining_hosonto(t, d)]
                        0 <= d < c + 1 && joining_hosonto(t, d) implies conjunct_held(acc, t, d)
                        || holds_conjunct(ng, t, d) by {
                        if d < c && !conjunct_held(acc, t, d) {
                            assert(holds_conjunct(g, t, d));
                        }
                    }
                    lemma_groups_from_hold(t, c + 1, Some(ng), acc);
                } else {
                    let ng = (start, c + 1);
                    let nacc = acc.push(g);
                    assert forall|d: int|
                        #![trigger joining_hosonto(t, d)]
                        0 <= d < c + 1 && joining_hosonto(t, d) implies conjunct_held(nacc, t, d)
                        || holds_conjunct(ng, t, d) by {
                        if d < c {
                            if conjunct_held(acc, t, d) {
                                lemma_held_push(acc, g, t, d);
                            } else {
                                lemma_held_last(acc, g, t, d);
                            }
                        }
                    }
                    lemma_groups_from_hold(t, c + 1, Some(ng), nacc);
                }
            },
            None => {
                let ng = (start, c + 1);
                lemma_groups_from_hold(t, c + 1, Some(ng), acc);
            },
        }
    } else {
        assert forall|d: int|
            #![trigger joining_hosonto(t, d)]
            0 <= d < c + 1 && joining_hosonto(t, d) implies conjunct_held(acc, t, d) || (cur matches Some(
            g,
        ) && holds_conjunct(g, t, d)) by {
            if d == c {
                assert(!joining_hosonto(t, d));
            }
        }
        lemma_groups_from_hold(t, c + 1, cur, acc);
    }
}

/// Every hosonto with a character on each side lies in a conjunct group
/// that holds its whole conjunct: the character before it, the character
/// after it, and the র (or other character) before a ZWJ that precedes it,
/// as in র‍্য.
pub proof fn law_conjunct_groups_hold_whole_conjuncts(t: Seq<char>)
    ensures
        forall|c: int| #![trigger joining_hosonto(t, c)] joining_hosonto(t, c) ==> conjunct_held(conjunct_groups(t), t, c),
{
    lemma_groups_from_hold(t, 0, None, Seq::empty());
}

/// The groups are in order and apart: each one ends before the next begins.
pub open spec fn groups_apart(gs: Seq<(int, int)>) -> bool {
    forall|i: int, j: int| 0 <= i < j < gs.len() ==> (#[trigger] gs[i]).1 < (#[trigger] gs[j]).0
}

proof fn lemma_groups_from_apart(t: Seq<char>, c: int, cur: Option<(int, int)>, acc: Seq<(int, int)>)
    requires
        groups_apart(acc),
        cur is None ==> acc.len() == 0,
        cur matches Some(g) ==> g.0 <= g.1 && forall|i: int| 0 <= i < acc.len() ==> (#[trigger] acc[i]).1 < g.0,
        cur matches Some(g) ==> g.1 <= c,
    ensures
        groups_apart(groups_from(t, c, cur, acc)),
    decreases t.len() - c,
{
    if c >= t.len() {
        if let Some(g) = cur {
            assert forall|i: int, j: int| 0 <= i < j < acc.push(g).len() implies (#[trigger] acc.push(
                g,
            )[i]).1 < (#[trigger] acc.push(g)[j]).0 by {
                assert(acc.push(g)[i] == acc[i]);
                if j < acc.len() {
                    assert(acc.push(g)[j] == acc[j]);
                }
            }
        }
    } else if 0 < c < t.len() - 1 && t[c] == CONNECTOR {
        let start = span_start(t, c);
        match cur {
            Some(g) => {
                if start <= g.1 {
                    lemma_groups_from_apart(t, c + 1, Some((g.0, c + 1)), acc);
                } else {
                    let nacc = acc.push(g);
                    assert forall|i: int, j: int| 0 <= i < j < nacc.len() implies (#[trigger] nacc[i]).1
                        < (#[trigger] nacc[j]).0 by {
                        assert(nacc[i] == acc[i]);
                        if j < acc.len() {
                            assert(nacc[j] == acc[j]);
                        }
                    }
                    assert forall|i: int| 0 <= i < nacc.len() implies (#[trigger] nacc[i]).1 < start by {
                        if i < acc.len() {
                            assert(nacc[i] == acc[i]);
                        }
                    }
                    lemma_groups_from_apart(t, c + 1, Some((start, c + 1)), nacc);
                }
            },
            None => {
                lemma_groups_from_apart(t, c + 1, Some((start, c + 1)), acc);
            },
        }
    } else {
        lemma_groups_from_apart(t, c + 1, cur, acc);
    }
}

/// Conjunct groups that would share a position are merged: the groups are
/// in order, and each one ends before the next begins.
pub proof fn law_conjunct_groups_apart(t: Seq<char>)
    ensures
        groups_apart(conjunct_groups(t)),
{
    lemma_groups_from_apart(t, 0, None, Seq::empty());
}

} // verus!
