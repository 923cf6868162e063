//! Laws of word normalization and of the legacy map.

use vstd::prelude::*;

use super::ops::{
    after_vowel_piece, after_vowel_prefix, lemma_nukta_base_range, connector_step, connector_upto, consonant_diacritics_step,
    consonant_diacritics_upto, diacritic_order_step, diacritic_order_upto, e_ya_aa, keep_valid,
    lemma_ops_keep_empty, no_space_first_pass, no_space_step, no_space_upto, non_char_diacs_step,
    non_char_diacs_upto, nukta_base_before, nukta_upto, o_ya, o_ya_aa, pairs_in, spec_base_compose,
    spec_clean_consonant_diacritics, spec_clean_invalid_connector, spec_clean_invalid_unicodes,
    spec_clean_non_char_diacs, spec_clean_vowel_diacritic_after_vowel, spec_clean_vowel_diacritics,
    spec_fix_broken_nukta, spec_fix_diacritic_order, spec_fix_no_space_char, strip_back,
    strip_front, vowel_diacritics_step, vowel_diacritics_upto,
};
use super::ops::{
    apply_group, apply_groups_upto, conjunct_groups, connector_jo_fola_step, connector_jo_fola_upto,
    double_cc_step, double_cc_upto, double_ref_step, double_ref_upto, group_replacement, groups_from,
    groups_in_range, inner_connector, jo_fola_typo_step, jo_fola_typo_upto, nukta_step, root_chain,
    root_scan, span_start, spec_check_complex_root, spec_clean_double_cc, spec_clean_double_ref,
    spec_clean_connector_for_jo_fola, spec_clean_invalid_conjunct_diacritics, spec_convert_complex_roots,
    spec_convert_to_and_hosonto, spec_fix_typo_for_jo_fola, spec_map_legacy_symbols, spec_replace_assamese,
    spec_fix_broken_diacritics,
    spec_normalize_to_and_hosonto, spec_swap_to_and_hosonto_diacritics, to_hosonto_step,
    to_hosonto_swap_step, to_hosonto_swap_upto, to_hosonto_upto, saturating_minus,
};
use super::{
    apply_legacy_upto, key_position, keys_distinct, lemma_key_position_unique, spec_decomp_stages, spec_normalize_word,
    spec_word_level,
};
use crate::langs::{
    spec_is_invalid_start, CONNECTOR, spec_is_consonant, spec_is_consonant_diacritic, spec_is_english_valid, spec_is_legacy_symbol, spec_is_number,
    spec_is_punctuation, spec_is_vowel, spec_is_vowel_diacritic, spec_nukta_target, spec_valid_root_with, spec_valid_with, NUKTA, ZWJ, ZWNJ,
};
use crate::text::{all_some, at, kept, lemma_kept, lemma_somes_lift, lift, replace_all, somes};

verus! {

// ─── The legacy map ─────────────────────────────────────────────────────────

/// The pairs after mapping `k` to `v`: an existing entry for `k` gets the
/// new value in place, otherwise the entry is added at the end.
pub open spec fn map_insert(pairs: Seq<(char, Seq<char>)>, k: char, v: Seq<char>) -> Seq<
    (char, Seq<char>),
> {
    match key_position(pairs, k) {
        Some(i) => pairs.update(i, (k, v)),
        None => pairs.push((k, v)),
    }
}

/// `key_position` finds the first entry with the key, or none when no entry
/// has it.
pub proof fn lemma_key_position(pairs: Seq<(char, Seq<char>)>, k: char)
    ensures
        match key_position(pairs, k) {
            Some(i) => 0 <= i < pairs.len() && pairs[i].0 == k && forall|j: int|
                0 <= j < i ==> #[trigger] pairs[j].0 != k,
            None => forall|j: int| 0 <= j < pairs.len() ==> #[trigger] pairs[j].0 != k,
        },
    decreases pairs.len(),
{
    if pairs.len() > 0 {
        lemma_key_position(pairs.drop_last(), k);
        assert forall|j: int| 0 <= j < pairs.len() - 1 implies pairs[j] == pairs.drop_last()[j] by {}
    }
}

/// The position `key_position` gives is determined by the first entry with
/// the key.
proof fn lemma_key_position_of(pairs: Seq<(char, Seq<char>)>, k: char, i: int)
    requires
        0 <= i < pairs.len(),
        pairs[i].0 == k,
        forall|j: int| 0 <= j < i ==> #[trigger] pairs[j].0 != k,
    ensures
        key_position(pairs, k) == Some(i),
{
    lemma_key_position(pairs, k);
    match key_position(pairs, k) {
        Some(p) => {
            if p < i {
                assert(pairs[p].0 != k);
            } else if p > i {
                assert(pairs[i].0 != k);
            }
        },
        None => {
            assert(pairs[i].0 != k);
        },
    }
}

/// After mapping `k` to `v`, looking `k` up gives `v`, and every other key
/// keeps its entry.
pub proof fn law_insert_then_get(pairs: Seq<(char, Seq<char>)>, k: char, v: Seq<char>, other: char)
    requires
        other != k,
    ensures
        key_position(map_insert(pairs, k, v), k) matches Some(i) && map_insert(pairs, k, v)[i] == (
            k,
            v,
        ),
        match key_position(pairs, other) {
            Some(i) => key_position(map_insert(pairs, k, v), other) == Some(i) && map_insert(
                pairs,
                k,
                v,
            )[i] == pairs[i],
            None => key_position(map_insert(pairs, k, v), other) is None,
        },
{
    let m = map_insert(pairs, k, v);
    lemma_key_position(pairs, k);
    lemma_key_position(pairs, other);
    lemma_key_position(m, other);
    match key_position(pairs, k) {
        Some(i) => {
            assert forall|j: int| 0 <= j < i implies #[trigger] m[j].0 != k by {
                assert(m[j] == pairs[j]);
            }
            lemma_key_position_of(m, k, i);
            match key_position(pairs, other) {
                Some(o) => {
                    assert forall|j: int| 0 <= j < o implies #[trigger] m[j].0 != other by {
                        if j != i {
                            assert(m[j] == pairs[j]);
                        }
                    }
                    lemma_key_position_of(m, other, o);
                },
                None => {
                    assert forall|j: int| 0 <= j < m.len() implies #[trigger] m[j].0 != other by {
                        if j != i {
                            assert(m[j] == pairs[j]);
                        }
                    }
                },
            }
        },
        None => {
            assert forall|j: int| 0 <= j < pairs.len() implies #[trigger] m[j].0 != k by {
                assert(m[j] == pairs[j]);
            }
            lemma_key_position_of(m, k, pairs.len() as int);
            match key_position(pairs, other) {
                Some(o) => {
                    assert forall|j: int| 0 <= j < o implies #[trigger] m[j].0 != other by {
                        assert(m[j] == pairs[j]);
                    }
                    lemma_key_position_of(m, other, o);
                },
                None => {
                    assert forall|j: int| 0 <= j < m.len() implies #[trigger] m[j].0 != other by {
                        if j < pairs.len() {
                            assert(m[j] == pairs[j]);
                        }
                    }
                },
            }
        },
    }
}

// ─── Words without valid characters ────────────────────────────────────────

/// The characters that the word-level replacements turn into valid ones
/// although they are not valid themselves: ৄ, ৰ and ৱ.
pub open spec fn becomes_valid_by_replacement(c: char) -> bool {
    c == '\u{09C4}' || c == '\u{09F0}' || c == '\u{09F1}'
}

/// No character of `w` is valid under the options, and none is turned into
/// a valid one by the word-level replacements.
pub open spec fn without_valid_chars(w: Seq<char>, allow_english: bool, keep_legacy: bool) -> bool {
    forall|i: int|
        0 <= i < w.len() ==> !spec_valid_with(#[trigger] w[i], allow_english, keep_legacy)
            && !becomes_valid_by_replacement(w[i])
}

proof fn lemma_replace_absent(w: Seq<char>, from: Seq<char>, to: Seq<char>)
    requires
        from.len() > 0,
        !w.contains(from[0]),
    ensures
        replace_all(w, from, to) == w,
    decreases w.len(),
{
    if w.len() >= from.len() {
        assert(w.take(from.len() as int)[0] == w[0]);
        assert(w.take(from.len() as int) != from);
        assert(!w.skip(1).contains(from[0])) by {
            if w.skip(1).contains(from[0]) {
                let j = choose|j: int| 0 <= j < w.skip(1).len() && w.skip(1)[j] == from[0];
                assert(w[j + 1] == from[0]);
            }
        }
        lemma_replace_absent(w.skip(1), from, to);
        assert(seq![w[0]] + w.skip(1) =~= w);
    }
}

proof fn lemma_absent_char(w: Seq<char>, c: char, allow_english: bool, keep_legacy: bool)
    requires
        without_valid_chars(w, allow_english, keep_legacy),
        spec_valid_with(c, allow_english, keep_legacy) || becomes_valid_by_replacement(c),
    ensures
        !w.contains(c),
{
    if w.contains(c) {
        let j = choose|j: int| 0 <= j < w.len() && w[j] == c;
        assert(!spec_valid_with(w[j], allow_english, keep_legacy));
    }
}

proof fn lemma_word_level_identity(w: Seq<char>, allow_english: bool, keep_legacy: bool)
    requires
        without_valid_chars(w, allow_english, keep_legacy),
    ensures
        spec_word_level(w, None, keep_legacy) == w,
{
    lemma_absent_char(w, '\u{09C7}', allow_english, keep_legacy);
    lemma_absent_char(w, '\u{0985}', allow_english, keep_legacy);
    lemma_absent_char(w, '\u{09C4}', allow_english, keep_legacy);
    lemma_absent_char(w, '\u{09F0}', allow_english, keep_legacy);
    lemma_absent_char(w, '\u{09F1}', allow_english, keep_legacy);
    lemma_absent_char(w, '\u{09F7}', allow_english, keep_legacy);
    lemma_absent_char(w, '\u{2013}', allow_english, keep_legacy);
    lemma_replace_absent(w, seq!['\u{09C7}', '\u{09BE}'], seq!['\u{09CB}']);
    lemma_replace_absent(w, seq!['\u{09C7}', '\u{09D7}'], seq!['\u{09CC}']);
    lemma_replace_absent(w, seq!['\u{0985}', '\u{09BE}'], seq!['\u{0986}']);
    lemma_replace_absent(w, seq!['\u{09C4}'], seq!['\u{09C3}']);
    lemma_replace_absent(w, seq!['\u{09F0}'], seq!['\u{09B0}']);
    lemma_replace_absent(w, seq!['\u{09F1}'], seq!['\u{09AC}']);
    lemma_replace_absent(w, seq!['\u{09F7}'], seq!['\u{0964}']);
    lemma_replace_absent(w, seq!['\u{2013}'], seq!['-']);
}

/// Every entry is cleared or holds a character that is not valid.
spec fn only_invalid(s: Seq<Option<char>>, allow_english: bool, keep_legacy: bool) -> bool {
    forall|i: int|
        0 <= i < s.len() ==> (#[trigger] s[i]) is None || !spec_valid_with(
            s[i]->0,
            allow_english,
            keep_legacy,
        )
}

proof fn lemma_nukta_identity(s: Seq<Option<char>>, k: nat, allow_english: bool, keep_legacy: bool)
    requires
        only_invalid(s, allow_english, keep_legacy),
    ensures
        nukta_upto(s, k) == s,
    decreases k,
{
    if k > 0 {
        lemma_nukta_identity(s, (k - 1) as nat, allow_english, keep_legacy);
        lemma_no_nukta_base(s, k - 1, allow_english, keep_legacy);
    }
}

proof fn lemma_no_nukta_base(s: Seq<Option<char>>, k: int, allow_english: bool, keep_legacy: bool)
    requires
        only_invalid(s, allow_english, keep_legacy),
    ensures
        nukta_base_before(s, k) is None,
    decreases k,
{
    if k > 0 {
        lemma_no_nukta_base(s, k - 1, allow_english, keep_legacy);
        if at(s, k - 1) is Some {
            let c = at(s, k - 1)->0;
            assert(s[k - 1] is None || !spec_valid_with(s[k - 1]->0, allow_english, keep_legacy));
            assert(spec_nukta_target(c) is None);
        }
    }
}

proof fn lemma_strip_keeps_invalid(s: Seq<Option<char>>, allow_english: bool, keep_legacy: bool)
    requires
        only_invalid(s, allow_english, keep_legacy),
    ensures
        only_invalid(strip_front(s), allow_english, keep_legacy),
        only_invalid(strip_back(strip_front(s)), allow_english, keep_legacy),
    decreases s.len(),
{
    lemma_strip_front_invalid(s, allow_english, keep_legacy);
    lemma_strip_back_invalid(strip_front(s), allow_english, keep_legacy);
}

proof fn lemma_strip_front_invalid(s: Seq<Option<char>>, allow_english: bool, keep_legacy: bool)
    requires
        only_invalid(s, allow_english, keep_legacy),
    ensures
        only_invalid(strip_front(s), allow_english, keep_legacy),
    decreases s.len(),
{
    if s.len() > 0 {
        assert(only_invalid(s.drop_first(), allow_english, keep_legacy)) by {
            assert forall|i: int| 0 <= i < s.drop_first().len() implies (#[trigger] s.drop_first()[i])
                is None || !spec_valid_with(s.drop_first()[i]->0, allow_english, keep_legacy) by {
                assert(s.drop_first()[i] == s[i + 1]);
            }
        }
        lemma_strip_front_invalid(s.drop_first(), allow_english, keep_legacy);
    }
}

proof fn lemma_strip_back_invalid(s: Seq<Option<char>>, allow_english: bool, keep_legacy: bool)
    requires
        only_invalid(s, allow_english, keep_legacy),
    ensures
        only_invalid(strip_back(s), allow_english, keep_legacy),
    decreases s.len(),
{
    if s.len() > 0 {
        assert(only_invalid(s.drop_last(), allow_english, keep_legacy)) by {
            assert forall|i: int| 0 <= i < s.drop_last().len() implies (#[trigger] s.drop_last()[i])
                is None || !spec_valid_with(s.drop_last()[i]->0, allow_english, keep_legacy) by {
                assert(s.drop_last()[i] == s[i]);
            }
        }
        lemma_strip_back_invalid(s.drop_last(), allow_english, keep_legacy);
    }
}

proof fn lemma_kept_all_cleared(s: Seq<Option<char>>)
    requires
        forall|i: int| 0 <= i < s.len() ==> (#[trigger] s[i]) is None,
    ensures
        kept(s) == Seq::<Option<char>>::empty(),
    decreases s.len(),
{
    if s.len() > 0 {
        lemma_kept_all_cleared(s.drop_last());
    }
}

/// A word none of whose characters is valid under the options (nor turned
/// into a valid one by the replacements ৄ → ৃ, ৰ → র, ৱ → ব) normalizes to
/// `None` when no legacy map is given.
pub proof fn law_word_without_valid_chars_is_none(
    w: Seq<char>,
    allow_english: bool,
    keep_legacy: bool,
)
    requires
        without_valid_chars(w, allow_english, keep_legacy),
    ensures
        spec_normalize_word(w, allow_english, keep_legacy, None) is None,
{
    reveal(spec_decomp_stages);
    lemma_ops_keep_empty(allow_english, keep_legacy);
    lemma_word_level_identity(w, allow_english, keep_legacy);
    let d = lift(w);
    assert(all_some(d));
    lemma_kept(d);
    assert(only_invalid(d, allow_english, keep_legacy));
    lemma_nukta_identity(d, d.len(), allow_english, keep_legacy);
    assert(spec_fix_broken_nukta(kept(d)) == d);
    let t = strip_back(strip_front(d));
    lemma_strip_keeps_invalid(d, allow_english, keep_legacy);
    let cleaned = Seq::new(t.len(), |i: int| keep_valid(t[i], allow_english, keep_legacy));
    assert forall|i: int| 0 <= i < cleaned.len() implies (#[trigger] cleaned[i]) is None by {
        assert(t[i] is None || !spec_valid_with(t[i]->0, allow_english, keep_legacy));
    }
    lemma_kept_all_cleared(cleaned);
    assert(somes(Seq::<Option<char>>::empty()) == Seq::<char>::empty());
}


// ─── The characters of a normalized word ────────────────────────────────────

/// Every character of `t` is valid under the options.
pub open spec fn chars_valid(t: Seq<char>, allow_english: bool, keep_legacy: bool) -> bool {
    forall|i: int| 0 <= i < t.len() ==> spec_valid_with(#[trigger] t[i], allow_english, keep_legacy)
}

/// Every character held by the buffer satisfies `p`.
pub open spec fn entries_ok(s: Seq<Option<char>>, p: spec_fn(char) -> bool) -> bool {
    forall|i: int| 0 <= i < s.len() && (#[trigger] s[i]) is Some ==> p(s[i]->0)
}

/// Every character of `t` satisfies `p`.
pub open spec fn chars_ok(t: Seq<char>, p: spec_fn(char) -> bool) -> bool {
    forall|i: int| 0 <= i < t.len() ==> p(#[trigger] t[i])
}

/// `p` holds of every character that an operation of the pipeline may put
/// into the buffer: ZWJ, the hosonto, ত, র, অ, য, া, ৎ and the nukta forms
/// য়, ড়, ঢ়.
pub open spec fn inserted_ok(p: spec_fn(char) -> bool) -> bool {
    &&& p(ZWJ)
    &&& p(CONNECTOR)
    &&& p('\u{09A4}')
    &&& p('\u{09B0}')
    &&& p('\u{0985}')
    &&& p('\u{09AF}')
    &&& p('\u{09BE}')
    &&& p('\u{09CE}')
    &&& p('\u{09DF}')
    &&& p('\u{09DC}')
    &&& p('\u{09DD}')
}

/// Validity under the options, as a predicate.
pub open spec fn valid_pred(allow_english: bool, keep_legacy: bool) -> spec_fn(char) -> bool {
    |c: char| spec_valid_with(c, allow_english, keep_legacy)
}

proof fn lemma_kept_keeps(s: Seq<Option<char>>, p: spec_fn(char) -> bool)
    requires
        inserted_ok(p),
        entries_ok(s, p),
    ensures
        entries_ok(kept(s), p),
        chars_ok(somes(s), p),
    decreases s.len(),
{
    if s.len() > 0 {
        assert(entries_ok(s.drop_last(), p)) by {
            assert forall|i: int| 0 <= i < s.drop_last().len() && (#[trigger] s.drop_last()[i]) is Some
                implies p(s.drop_last()[i]->0) by {
                assert(s.drop_last()[i] == s[i]);
            }
        }
        lemma_kept_keeps(s.drop_last(), p);
        assert(s[s.len() - 1] == s.last());
    }
}

proof fn lemma_replace_keeps(w: Seq<char>, from: Seq<char>, to: Seq<char>, p: spec_fn(char) -> bool)
    requires
        inserted_ok(p),
        chars_ok(w, p),
        chars_ok(to, p),
    ensures
        chars_ok(replace_all(w, from, to), p),
    decreases w.len(),
{
    if from.len() > 0 && w.len() >= from.len() {
        if w.take(from.len() as int) == from {
            assert(chars_ok(w.skip(from.len() as int), p)) by {
                assert forall|i: int| 0 <= i < w.skip(from.len() as int).len() implies p(#[trigger] w.skip(from.len() as int)[i]) by {
                    assert(w.skip(from.len() as int)[i] == w[i + from.len()]);
                }
            }
            lemma_replace_keeps(w.skip(from.len() as int), from, to, p);
        } else {
            assert(chars_ok(w.skip(1), p)) by {
                assert forall|i: int| 0 <= i < w.skip(1).len() implies p(#[trigger] w.skip(1)[i]) by {
                    assert(w.skip(1)[i] == w[i + 1]);
                }
            }
            lemma_replace_keeps(w.skip(1), from, to, p);
        }
    }
}

proof fn lemma_strip_front_keeps(s: Seq<Option<char>>, p: spec_fn(char) -> bool)
    requires
        entries_ok(s, p),
    ensures
        entries_ok(strip_front(s), p),
    decreases s.len(),
{
    if s.len() > 0 && (s[0] is None || spec_is_invalid_start(s[0]->0)) {
        assert forall|i: int| 0 <= i < s.drop_first().len() && (#[trigger] s.drop_first()[i]) is Some
            implies p(s.drop_first()[i]->0) by {
            assert(s.drop_first()[i] == s[i + 1]);
        }
        lemma_strip_front_keeps(s.drop_first(), p);
    }
}

proof fn lemma_strip_back_keeps(s: Seq<Option<char>>, p: spec_fn(char) -> bool)
    requires
        entries_ok(s, p),
    ensures
        entries_ok(strip_back(s), p),
    decreases s.len(),
{
    if s.len() > 0 && s.last() == Some(CONNECTOR) {
        assert forall|i: int| 0 <= i < s.drop_last().len() && (#[trigger] s.drop_last()[i]) is Some
            implies p(s.drop_last()[i]->0) by {
            assert(s.drop_last()[i] == s[i]);
        }
        lemma_strip_back_keeps(s.drop_last(), p);
    }
}

proof fn lemma_clean_invalid_unicodes_keeps(
    s: Seq<Option<char>>,
    p: spec_fn(char) -> bool,
    ae: bool,
    kl: bool,
)
    requires
        entries_ok(s, p),
    ensures
        entries_ok(spec_clean_invalid_unicodes(s, ae, kl), p),
{
    lemma_strip_front_keeps(s, p);
    lemma_strip_back_keeps(strip_front(s), p);
}

proof fn lemma_clean_invalid_unicodes_valid(s: Seq<Option<char>>, ae: bool, kl: bool)
    ensures
        entries_ok(spec_clean_invalid_unicodes(s, ae, kl), valid_pred(ae, kl)),
{
}

proof fn lemma_connector_keeps(s: Seq<Option<char>>, k: nat, p: spec_fn(char) -> bool)
    requires
        inserted_ok(p),
        entries_ok(s, p),
    ensures
        entries_ok(connector_upto(s, k), p),
    decreases k,
{
    if k > 0 {
        lemma_connector_keeps(s, (k - 1) as nat, p);
        let pv = connector_upto(s, (k - 1) as nat);
        assert(entries_ok(connector_step(pv, k - 1), p)) by {
            assert forall|i: int| 0 <= i < connector_step(pv, k - 1).len() && (#[trigger] connector_step(
                pv,
                k - 1,
            )[i]) is Some implies p(connector_step(pv, k - 1)[i]->0) by {
                assert(connector_step(pv, k - 1)[i] == pv[i] || connector_step(pv, k - 1)[i] is None);
            }
        }
    }
}

proof fn lemma_clean_invalid_connector_keeps(s: Seq<Option<char>>, p: spec_fn(char) -> bool)
    requires
        inserted_ok(p),
        entries_ok(s, p),
    ensures
        entries_ok(spec_clean_invalid_connector(s), p),
{
    lemma_connector_keeps(s, s.len(), p);
    let w = somes(connector_upto(s, s.len()));
    lemma_kept_keeps(connector_upto(s, s.len()), p);
    lemma_replace_keeps(w, e_ya_aa(), o_ya_aa(), p);
    lemma_replace_keeps(replace_all(w, e_ya_aa(), o_ya_aa()), o_ya(), o_ya_aa(), p);
}

proof fn lemma_vowel_diacritics_keeps(s: Seq<Option<char>>, k: nat, p: spec_fn(char) -> bool)
    requires
        inserted_ok(p),
        entries_ok(s, p),
    ensures
        entries_ok(vowel_diacritics_upto(s, k), p),
    decreases k,
{
    if k > 0 {
        lemma_vowel_diacritics_keeps(s, (k - 1) as nat, p);
        let pv = vowel_diacritics_upto(s, (k - 1) as nat);
        let q = vowel_diacritics_step(pv, k - 1);
        assert forall|i: int| 0 <= i < q.len() && (#[trigger] q[i]) is Some implies p(q[i]->0) by {
            assert(q[i] == pv[i] || q[i] is None);
        }
    }
}

proof fn lemma_consonant_diacritics_keeps(s: Seq<Option<char>>, k: nat, p: spec_fn(char) -> bool)
    requires
        inserted_ok(p),
        entries_ok(s, p),
    ensures
        entries_ok(consonant_diacritics_upto(s, k), p),
    decreases k,
{
    if k > 0 {
        lemma_consonant_diacritics_keeps(s, (k - 1) as nat, p);
        let pv = consonant_diacritics_upto(s, (k - 1) as nat);
        let j = k - 1;
        let q = consonant_diacritics_step(pv, j);
        assert forall|i: int| 0 <= i < q.len() && (#[trigger] q[i]) is Some implies p(q[i]->0) by {
            if at(pv, j) is Some && at(pv, j + 1) is Some {
                assert(pv[j] is Some && pv[j + 1] is Some);
                assert(q[i] == pv[i] || q[i] is None || q[i] == pv[j] || q[i] == pv[j + 1]);
            } else {
                assert(q[i] == pv[i]);
            }
        }
    }
}

proof fn lemma_diacritic_order_keeps(s: Seq<Option<char>>, k: nat, p: spec_fn(char) -> bool)
    requires
        inserted_ok(p),
        entries_ok(s, p),
    ensures
        entries_ok(diacritic_order_upto(s, k), p),
    decreases k,
{
    if k > 0 {
        lemma_diacritic_order_keeps(s, (k - 1) as nat, p);
        let pv = diacritic_order_upto(s, (k - 1) as nat);
        let j = k - 1;
        let q = diacritic_order_step(pv, j);
        assert forall|i: int| 0 <= i < q.len() && (#[trigger] q[i]) is Some implies p(q[i]->0) by {
            if at(pv, j) is Some && at(pv, j + 1) is Some {
                assert(pv[j] is Some && pv[j + 1] is Some);
                assert(q[i] == pv[i] || q[i] == pv[j] || q[i] == pv[j + 1]);
            } else {
                assert(q[i] == pv[i]);
            }
        }
    }
}

proof fn lemma_non_char_diacs_keeps(s: Seq<Option<char>>, k: nat, p: spec_fn(char) -> bool)
    requires
        inserted_ok(p),
        entries_ok(s, p),
    ensures
        entries_ok(non_char_diacs_upto(s, k), p),
    decreases k,
{
    if k > 0 {
        lemma_non_char_diacs_keeps(s, (k - 1) as nat, p);
        let pv = non_char_diacs_upto(s, (k - 1) as nat);
        let q = non_char_diacs_step(pv, k - 1);
        assert forall|i: int| 0 <= i < q.len() && (#[trigger] q[i]) is Some implies p(q[i]->0) by {
            assert(q[i] == pv[i] || q[i] is None);
        }
    }
}

proof fn lemma_after_vowel_keeps(s: Seq<Option<char>>, n: nat, p: spec_fn(char) -> bool)
    requires
        inserted_ok(p),
        entries_ok(s, p),
        n <= s.len(),
    ensures
        entries_ok(after_vowel_prefix(s, n), p),
    decreases n,
{
    if n > 0 {
        lemma_after_vowel_keeps(s, (n - 1) as nat, p);
        let pv = after_vowel_prefix(s, (n - 1) as nat);
        let piece = after_vowel_piece(s, n - 1);
        assert(entries_ok(piece, p));
        let q = pv + piece;
        assert forall|i: int| 0 <= i < q.len() && (#[trigger] q[i]) is Some implies p(q[i]->0) by {
            if i < pv.len() {
                assert(q[i] == pv[i]);
            } else {
                assert(q[i] == piece[i - pv.len()]);
            }
        }
    }
}

proof fn lemma_no_space_keeps(s: Seq<Option<char>>, k: nat, p: spec_fn(char) -> bool)
    requires
        inserted_ok(p),
        entries_ok(s, p),
    ensures
        entries_ok(no_space_upto(s, k), p),
    decreases k,
{
    if k > 0 {
        lemma_no_space_keeps(s, (k - 1) as nat, p);
        let pv = no_space_upto(s, (k - 1) as nat);
        let q = no_space_step(pv, k - 1);
        assert forall|i: int| 0 <= i < q.len() && (#[trigger] q[i]) is Some implies p(q[i]->0) by {
            assert(q[i] == pv[i] || q[i] is None);
        }
    }
}

proof fn lemma_fix_no_space_keeps(s: Seq<Option<char>>, p: spec_fn(char) -> bool)
    requires
        inserted_ok(p),
        entries_ok(s, p),
    ensures
        entries_ok(spec_fix_no_space_char(s), p),
{
    let f = no_space_first_pass(s);
    assert(entries_ok(f, p)) by {
        assert forall|i: int| 0 <= i < f.len() && (#[trigger] f[i]) is Some implies p(f[i]->0) by {
            assert(f[i] == s[i] || f[i] == Some(ZWJ));
        }
    }
    lemma_kept_keeps(f, p);
    let t = kept(f);
    lemma_no_space_keeps(t, t.len(), p);
    lemma_kept_keeps(no_space_upto(t, t.len()), p);
}

/// Once its first step leaves characters satisfying `p`, the base clean-up
/// leaves only such characters.
proof fn lemma_base_compose_tail_keeps(s: Seq<Option<char>>, p: spec_fn(char) -> bool, ae: bool, kl: bool)
    requires
        inserted_ok(p),
        entries_ok(spec_clean_invalid_unicodes(kept(s), ae, kl), p),
    ensures
        entries_ok(spec_base_compose(s, ae, kl), p),
{
    let a0 = spec_clean_invalid_unicodes(kept(s), ae, kl);
    lemma_kept_keeps(a0, p);
    let a = kept(a0);
    lemma_kept_keeps(a, p);
    lemma_clean_invalid_connector_keeps(kept(a), p);
    let b0 = spec_clean_invalid_connector(kept(a));
    lemma_kept_keeps(b0, p);
    let b = kept(b0);
    lemma_kept_keeps(b, p);
    lemma_vowel_diacritics_keeps(kept(b), pairs_in(kept(b).len()), p);
    let c0 = spec_clean_vowel_diacritics(kept(b));
    lemma_kept_keeps(c0, p);
    let c = kept(c0);
    lemma_kept_keeps(c, p);
    lemma_consonant_diacritics_keeps(kept(c), pairs_in(kept(c).len()), p);
    let d0 = spec_clean_consonant_diacritics(kept(c));
    lemma_kept_keeps(d0, p);
    let d = kept(d0);
    lemma_kept_keeps(d, p);
    lemma_diacritic_order_keeps(kept(d), pairs_in(kept(d).len()), p);
    let e0 = spec_fix_diacritic_order(kept(d));
    lemma_kept_keeps(e0, p);
    let e = kept(e0);
    lemma_kept_keeps(e, p);
    lemma_non_char_diacs_keeps(kept(e), kept(e).len(), p);
    let f0 = spec_clean_non_char_diacs(kept(e));
    lemma_kept_keeps(f0, p);
    let f = kept(f0);
    lemma_kept_keeps(f, p);
    lemma_after_vowel_keeps(kept(f), kept(f).len(), p);
    let g0 = spec_clean_vowel_diacritic_after_vowel(kept(f));
    lemma_kept_keeps(g0, p);
    let g = kept(g0);
    lemma_kept_keeps(g, p);
    lemma_fix_no_space_keeps(kept(g), p);
    lemma_kept_keeps(spec_fix_no_space_char(kept(g)), p);
}

/// The base clean-up keeps a predicate that the inserted characters meet.
proof fn lemma_base_compose_keeps(s: Seq<Option<char>>, p: spec_fn(char) -> bool, ae: bool, kl: bool)
    requires
        inserted_ok(p),
        entries_ok(s, p),
    ensures
        entries_ok(spec_base_compose(s, ae, kl), p),
{
    lemma_kept_keeps(s, p);
    lemma_clean_invalid_unicodes_keeps(kept(s), p, ae, kl);
    lemma_base_compose_tail_keeps(s, p, ae, kl);
}

/// The base clean-up leaves only valid characters, whatever it starts from.
proof fn lemma_base_compose_valid(s: Seq<Option<char>>, ae: bool, kl: bool)
    ensures
        entries_ok(spec_base_compose(s, ae, kl), valid_pred(ae, kl)),
{
    lemma_clean_invalid_unicodes_valid(kept(s), ae, kl);
    lemma_base_compose_tail_keeps(s, valid_pred(ae, kl), ae, kl);
}

/// Every character of a normalized word is valid under the options: a
/// Bangla letter, sign, digit, hosonto, joiner or known punctuation, an
/// English character only when English is allowed, and a legacy symbol
/// only when legacy symbols are kept.
pub proof fn law_normalized_chars_are_valid(
    w: Seq<char>,
    allow_english: bool,
    keep_legacy: bool,
    legacy: Option<Seq<(char, Seq<char>)>>,
)
    ensures
        spec_normalize_word(w, allow_english, keep_legacy, legacy) matches Some(r) ==> chars_valid(
            r,
            allow_english,
            keep_legacy,
        ),
{
    let d = lift(spec_word_level(w, legacy, keep_legacy));
    let x = kept(spec_decomp_stages(d, allow_english, keep_legacy));
    let vp = valid_pred(allow_english, keep_legacy);
    lemma_base_compose_valid(x, allow_english, keep_legacy);
    let b = spec_base_compose(x, allow_english, keep_legacy);
    lemma_kept_keeps(b, vp);
    lemma_kept_keeps(kept(b), vp);
    let r = somes(kept(b));
    assert forall|i: int| 0 <= i < r.len() implies spec_valid_with(#[trigger] r[i], allow_english, keep_legacy) by {
        assert(vp(r[i]));
    }
}

proof fn lemma_replace_single_removes(w: Seq<char>, k: char, v: Seq<char>)
    requires
        !v.contains(k),
    ensures
        !replace_all(w, seq![k], v).contains(k),
    decreases w.len(),
{
    if w.len() >= 1 {
        lemma_replace_single_removes(w.skip(1), k, v);
        let rest = replace_all(w.skip(1), seq![k], v);
        if w.take(1) == seq![k] {
            if (v + rest).contains(k) {
                let j = choose|j: int| 0 <= j < (v + rest).len() && (v + rest)[j] == k;
                if j < v.len() {
                    assert(v[j] == k);
                } else {
                    assert(rest[j - v.len()] == k);
                }
            }
        } else {
            assert(w[0] != k) by {
                if w[0] == k {
                    assert(w.take(1) =~= seq![k]);
                }
            }
            if (seq![w[0]] + rest).contains(k) {
                let j = choose|j: int| 0 <= j < (seq![w[0]] + rest).len() && (seq![w[0]] + rest)[j] == k;
                if j >= 1 {
                    assert(rest[j - 1] == k);
                }
            }
        }
    }
}

/// Unless legacy symbols are kept, no legacy symbol is left in a normalized
/// word: those that the legacy map does not replace are removed, and the
/// legacy danda ৷ becomes the danda ।.
pub proof fn law_legacy_symbols_removed_unless_kept(
    w: Seq<char>,
    allow_english: bool,
    legacy: Option<Seq<(char, Seq<char>)>>,
)
    ensures
        spec_normalize_word(w, allow_english, false, legacy) matches Some(r) ==> forall|i: int|
            0 <= i < r.len() ==> !spec_is_legacy_symbol(#[trigger] r[i]),
{
    law_normalized_chars_are_valid(w, allow_english, false, legacy);
    let pd = |c: char| c != '\u{09F7}';
    let x0 = spec_replace_assamese(spec_fix_broken_diacritics(spec_map_legacy_symbols(w, legacy)));
    let y = replace_all(x0, seq!['\u{09F7}'], seq!['\u{0964}']);
    lemma_replace_single_removes(x0, '\u{09F7}', seq!['\u{0964}']);
    assert(chars_ok(y, pd)) by {
        assert forall|i: int| 0 <= i < y.len() implies pd(#[trigger] y[i]) by {
            if y[i] == '\u{09F7}' {
                assert(y.contains('\u{09F7}'));
            }
        }
    }
    lemma_replace_keeps(y, seq!['\u{2013}'], seq!['-'], pd);
    let ww = spec_word_level(w, legacy, false);
    assert(ww == replace_all(y, seq!['\u{2013}'], seq!['-']));
    let d = lift(ww);
    assert(entries_ok(d, pd));
    lemma_decomp_stages_keeps(d, pd, allow_english, false);
    let x = kept(spec_decomp_stages(d, allow_english, false));
    lemma_base_compose_keeps(x, pd, allow_english, false);
    let b = spec_base_compose(x, allow_english, false);
    lemma_kept_keeps(b, pd);
    lemma_kept_keeps(kept(b), pd);
    if let Some(r) = spec_normalize_word(w, allow_english, false, legacy) {
        assert(r == somes(kept(b)));
        assert forall|i: int| 0 <= i < r.len() implies !spec_is_legacy_symbol(#[trigger] r[i]) by {
            assert(pd(r[i]));
            lemma_legacy_symbol_not_valid(r[i], allow_english);
        }
    }
}

/// A legacy symbol other than the legacy danda is valid only where legacy
/// symbols are kept.
proof fn lemma_legacy_symbol_not_valid(c: char, allow_english: bool)
    ensures
        spec_is_legacy_symbol(c) && c != '\u{09F7}' ==> !spec_valid_with(c, allow_english, false),
{
    if spec_is_legacy_symbol(c) && c != '\u{09F7}' {
        assert(!spec_is_vowel(c));
        assert(!spec_is_consonant(c));
        assert(!spec_is_vowel_diacritic(c));
        assert(!spec_is_consonant_diacritic(c));
        assert(!spec_is_number(c));
        assert(!spec_is_punctuation(c));
        assert(!spec_is_english_valid(c));
    }
}

// ─── Invalid-character cleanup ─────────────────────────────────────────────

proof fn lemma_strip_front_lift(w: Seq<char>) -> (p: int)
    ensures
        0 <= p <= w.len(),
        forall|i: int| 0 <= i < p ==> spec_is_invalid_start(#[trigger] w[i]),
        p < w.len() ==> !spec_is_invalid_start(w[p]),
        strip_front(lift(w)) == lift(w.subrange(p, w.len() as int)),
    decreases w.len(),
{
    if w.len() > 0 && spec_is_invalid_start(w[0]) {
        assert(lift(w)[0] == Some(w[0]));
        assert(lift(w).drop_first() =~= lift(w.drop_first()));
        let p1 = lemma_strip_front_lift(w.drop_first());
        assert(w.drop_first().subrange(p1, w.drop_first().len() as int) =~= w.subrange(
            p1 + 1,
            w.len() as int,
        ));
        assert forall|i: int| 0 <= i < p1 + 1 implies spec_is_invalid_start(#[trigger] w[i]) by {
            if i > 0 {
                assert(w[i] == w.drop_first()[i - 1]);
            }
        }
        p1 + 1
    } else {
        assert(w.subrange(0, w.len() as int) =~= w);
        if w.len() > 0 {
            assert(lift(w)[0] == Some(w[0]));
        }
        0
    }
}

proof fn lemma_strip_back_lift(u: Seq<char>) -> (q: int)
    ensures
        0 <= q <= u.len(),
        forall|i: int| q <= i < u.len() ==> #[trigger] u[i] == CONNECTOR,
        q > 0 ==> u[q - 1] != CONNECTOR,
        strip_back(lift(u)) == lift(u.subrange(0, q)),
    decreases u.len(),
{
    if u.len() > 0 && u.last() == CONNECTOR {
        assert(lift(u).last() == Some(CONNECTOR));
        assert(lift(u).drop_last() =~= lift(u.drop_last()));
        let q1 = lemma_strip_back_lift(u.drop_last());
        assert(u.drop_last().subrange(0, q1) =~= u.subrange(0, q1));
        assert forall|i: int| q1 <= i < u.len() implies #[trigger] u[i] == CONNECTOR by {
            if i < u.len() - 1 {
                assert(u[i] == u.drop_last()[i]);
            }
        }
        q1
    } else {
        assert(u.subrange(0, u.len() as int) =~= u);
        if u.len() > 0 {
            assert(lift(u).last() == Some(u.last()));
        }
        u.len() as int
    }
}

/// The valid characters of `u`, in order.
pub open spec fn valid_chars(u: Seq<char>, allow_english: bool, keep_legacy: bool) -> Seq<char> {
    u.filter(|c: char| spec_valid_with(c, allow_english, keep_legacy))
}

proof fn lemma_keep_valid_filter(u: Seq<char>, ae: bool, kl: bool)
    ensures
        somes(Seq::new(lift(u).len(), |i: int| keep_valid(lift(u)[i], ae, kl))) == valid_chars(
            u,
            ae,
            kl,
        ),
    decreases u.len(),
{
    reveal(Seq::filter);
    let m = Seq::new(lift(u).len(), |i: int| keep_valid(lift(u)[i], ae, kl));
    if u.len() > 0 {
        let u1 = u.drop_last();
        lemma_keep_valid_filter(u1, ae, kl);
        assert(m.drop_last() =~= Seq::new(lift(u1).len(), |i: int| keep_valid(lift(u1)[i], ae, kl)));
        assert(m.last() == keep_valid(Some(u.last()), ae, kl));
    } else {
        assert(m =~= Seq::<Option<char>>::empty());
    }
}

/// On a buffer of characters `w`, the invalid-character cleanup keeps
/// exactly the valid characters of `w[p..q]`, where `w[..p]` is the longest
/// prefix of characters that cannot start a word and `w[q..]` the longest
/// run of trailing hosontos after it.
pub proof fn law_clean_invalid_unicodes_closed_form(w: Seq<char>, allow_english: bool, keep_legacy: bool)
    ensures
        exists|p: int, q: int|
            {
                &&& 0 <= p <= q <= w.len()
                &&& forall|i: int| 0 <= i < p ==> spec_is_invalid_start(#[trigger] w[i])
                &&& p < w.len() ==> !spec_is_invalid_start(w[p])
                &&& forall|i: int| q <= i < w.len() ==> #[trigger] w[i] == CONNECTOR
                &&& p < q ==> w[q - 1] != CONNECTOR
                &&& somes(spec_clean_invalid_unicodes(lift(w), allow_english, keep_legacy))
                    == valid_chars(w.subrange(p, q), allow_english, keep_legacy)
            },
{
    let p = lemma_strip_front_lift(w);
    let u = w.subrange(p, w.len() as int);
    let q1 = lemma_strip_back_lift(u);
    let q = p + q1;
    assert(u.subrange(0, q1) =~= w.subrange(p, q));
    assert forall|i: int| q <= i < w.len() implies #[trigger] w[i] == CONNECTOR by {
        assert(w[i] == u[i - p]);
    }
    if p < q {
        assert(w[q - 1] == u[q1 - 1]);
    }
    lemma_keep_valid_filter(w.subrange(p, q), allow_english, keep_legacy);
    assert(spec_clean_invalid_unicodes(lift(w), allow_english, keep_legacy) == Seq::new(
        lift(w.subrange(p, q)).len(),
        |i: int| keep_valid(lift(w.subrange(p, q))[i], allow_english, keep_legacy),
    ));
}

// ─── The legacy map as a per-character mapping ─────────────────────────────

/// What the legacy map turns the character `c` into: the value of the entry
/// whose key is `c`, or `c` itself when no entry has that key.
pub open spec fn legacy_image(c: char, pairs: Seq<(char, Seq<char>)>) -> Seq<char> {
    match key_position(pairs, c) {
        Some(i) => pairs[i].1,
        None => seq![c],
    }
}

/// `w` with each character replaced by its image under the legacy map.
pub open spec fn map_each_char(w: Seq<char>, pairs: Seq<(char, Seq<char>)>) -> Seq<char>
    decreases w.len(),
{
    if w.len() == 0 {
        Seq::empty()
    } else {
        legacy_image(w[0], pairs) + map_each_char(w.skip(1), pairs)
    }
}

/// No value of the map holds a key of the map.
pub open spec fn values_free_of_keys(pairs: Seq<(char, Seq<char>)>) -> bool {
    forall|i: int, j: int|
        0 <= i < pairs.len() && 0 <= j < pairs.len() ==> !(#[trigger] pairs[i].1).contains(
            #[trigger] pairs[j].0,
        )
}

proof fn lemma_replace_single_concat(a: Seq<char>, b: Seq<char>, k: char, v: Seq<char>)
    ensures
        replace_all(a + b, seq![k], v) == replace_all(a, seq![k], v) + replace_all(b, seq![k], v),
    decreases a.len(),
{
    if a.len() == 0 {
        assert(a + b =~= b);
        assert(replace_all(a, seq![k], v) =~= Seq::<char>::empty());
        assert(Seq::<char>::empty() + replace_all(b, seq![k], v) =~= replace_all(b, seq![k], v));
    } else {
        let ab = a + b;
        assert(ab.skip(1) =~= a.skip(1) + b);
        assert(ab.take(1) =~= a.take(1));
        assert(ab[0] == a[0]);
        lemma_replace_single_concat(a.skip(1), b, k, v);
        if a.take(1) == seq![k] {
            assert(replace_all(ab, seq![k], v) == v + replace_all(ab.skip(1), seq![k], v));
            assert(replace_all(a, seq![k], v) == v + replace_all(a.skip(1), seq![k], v));
            assert(v + (replace_all(a.skip(1), seq![k], v) + replace_all(b, seq![k], v)) =~= (v
                + replace_all(a.skip(1), seq![k], v)) + replace_all(b, seq![k], v));
        } else {
            assert(replace_all(ab, seq![k], v) == seq![ab[0]] + replace_all(ab.skip(1), seq![k], v));
            assert(replace_all(a, seq![k], v) == seq![a[0]] + replace_all(a.skip(1), seq![k], v));
            assert(seq![a[0]] + (replace_all(a.skip(1), seq![k], v) + replace_all(b, seq![k], v))
                =~= (seq![a[0]] + replace_all(a.skip(1), seq![k], v)) + replace_all(
                b,
                seq![k],
                v,
            ));
        }
    }
}

proof fn lemma_map_each_char_empty(w: Seq<char>)
    ensures
        map_each_char(w, Seq::empty()) == w,
    decreases w.len(),
{
    if w.len() > 0 {
        lemma_map_each_char_empty(w.skip(1));
        assert(seq![w[0]] + w.skip(1) =~= w);
    }
}

proof fn lemma_key_position_push(pairs: Seq<(char, Seq<char>)>, k: char, v: Seq<char>, c: char)
    ensures
        key_position(pairs.push((k, v)), c) == if key_position(pairs, c) is Some {
            key_position(pairs, c)
        } else if c == k {
            Some(pairs.len() as int)
        } else {
            None::<int>
        },
{
    assert(pairs.push((k, v)).drop_last() =~= pairs);
}

proof fn lemma_replace_single_one(c: char, k: char, v: Seq<char>)
    ensures
        replace_all(seq![c], seq![k], v) == if c == k {
            v
        } else {
            seq![c]
        },
{
    let s = seq![c];
    assert(s.skip(1) =~= Seq::<char>::empty());
    assert(s.take(1) =~= s);
    assert(replace_all(Seq::<char>::empty(), seq![k], v) == Seq::<char>::empty());
    if c == k {
        assert(v + Seq::<char>::empty() =~= v);
    } else {
        assert(s != seq![k]) by {
            assert(s[0] != seq![k][0]);
        }
        assert(seq![c] + Seq::<char>::empty() =~= seq![c]);
    }
}

proof fn lemma_map_each_char_step(w: Seq<char>, pairs: Seq<(char, Seq<char>)>, k: char, v: Seq<char>)
    requires
        forall|i: int| 0 <= i < pairs.len() ==> !(#[trigger] pairs[i].1).contains(k),
    ensures
        replace_all(map_each_char(w, pairs), seq![k], v) == map_each_char(w, pairs.push((k, v))),
    decreases w.len(),
{
    if w.len() == 0 {
        assert(replace_all(Seq::<char>::empty(), seq![k], v) == Seq::<char>::empty());
    } else {
        let c = w[0];
        lemma_map_each_char_step(w.skip(1), pairs, k, v);
        lemma_replace_single_concat(legacy_image(c, pairs), map_each_char(w.skip(1), pairs), k, v);
        lemma_key_position_push(pairs, k, v, c);
        match key_position(pairs, c) {
            Some(i) => {
                lemma_key_position_of_some(pairs, c);
                lemma_replace_absent(pairs[i].1, seq![k], v);
                assert(pairs.push((k, v))[i] == pairs[i]);
            },
            None => {
                lemma_replace_single_one(c, k, v);
                if c == k {
                    assert(pairs.push((k, v))[pairs.len() as int] == (k, v));
                }
            },
        }
    }
}

proof fn lemma_key_position_of_some(pairs: Seq<(char, Seq<char>)>, c: char)
    ensures
        key_position(pairs, c) matches Some(i) ==> 0 <= i < pairs.len() && pairs[i].0 == c,
    decreases pairs.len(),
{
    if pairs.len() > 0 {
        lemma_key_position_of_some(pairs.drop_last(), c);
    }
}

proof fn lemma_apply_legacy_upto_each(w: Seq<char>, pairs: Seq<(char, Seq<char>)>, n: nat)
    requires
        n <= pairs.len(),
        values_free_of_keys(pairs),
    ensures
        apply_legacy_upto(w, pairs, n) == map_each_char(w, pairs.take(n as int)),
    decreases n,
{
    if n == 0 {
        assert(pairs.take(0) =~= Seq::<(char, Seq<char>)>::empty());
        lemma_map_each_char_empty(w);
    } else {
        let m = (n - 1) as nat;
        lemma_apply_legacy_upto_each(w, pairs, m);
        let pm = pairs.take(m as int);
        assert forall|i: int| 0 <= i < pm.len() implies !(#[trigger] pm[i].1).contains(pairs[m as int].0) by {
            assert(pm[i] == pairs[i]);
        }
        lemma_map_each_char_step(w, pm, pairs[m as int].0, pairs[m as int].1);
        assert(pm.push((pairs[m as int].0, pairs[m as int].1)) =~= pairs.take(n as int));
    }
}

/// When no value of the legacy map holds one of its keys, applying the map
/// replaces each character of the word by its image, and each key's image
/// is the value of its own entry, wherever that entry stands in the map.
pub proof fn law_legacy_map_is_per_character(w: Seq<char>, pairs: Seq<(char, Seq<char>)>)
    requires
        keys_distinct(pairs),
        values_free_of_keys(pairs),
    ensures
        spec_map_legacy_symbols(w, Some(pairs)) == map_each_char(w, pairs),
        forall|i: int| 0 <= i < pairs.len() ==> legacy_image(#[trigger] pairs[i].0, pairs) == pairs[i].1,
{
    lemma_apply_legacy_upto_each(w, pairs, pairs.len());
    assert(pairs.take(pairs.len() as int) =~= pairs);
    assert forall|i: int| 0 <= i < pairs.len() implies legacy_image(#[trigger] pairs[i].0, pairs)
        == pairs[i].1 by {
        lemma_key_position_unique(pairs, pairs[i].0, i);
    }
}

// ─── The joiner pass ───────────────────────────────────────────────────────

/// `a` is a subsequence of `b`: `b` with some characters left out.
pub open spec fn is_subsequence(a: Seq<char>, b: Seq<char>) -> bool
    decreases b.len(),
{
    if a.len() == 0 {
        true
    } else if b.len() == 0 {
        false
    } else {
        (a.last() == b.last() && is_subsequence(a.drop_last(), b.drop_last())) || is_subsequence(
            a,
            b.drop_last(),
        )
    }
}

/// A non-joiner read as a joiner; any other character as itself.
pub open spec fn joiner_image(c: char) -> char {
    if c == ZWNJ {
        ZWJ
    } else {
        c
    }
}

proof fn lemma_subsequence_trans(a: Seq<char>, b: Seq<char>, c: Seq<char>)
    requires
        is_subsequence(a, b),
        is_subsequence(b, c),
    ensures
        is_subsequence(a, c),
    decreases c.len(),
{
    if a.len() > 0 {
        if b.last() == c.last() && is_subsequence(b.drop_last(), c.drop_last()) {
            if a.last() == b.last() && is_subsequence(a.drop_last(), b.drop_last()) {
                lemma_subsequence_trans(a.drop_last(), b.drop_last(), c.drop_last());
            } else {
                lemma_subsequence_trans(a, b.drop_last(), c.drop_last());
            }
        } else {
            lemma_subsequence_trans(a, b, c.drop_last());
        }
    }
}

proof fn lemma_subsequence_absent(a: Seq<char>, b: Seq<char>, c: char)
    requires
        is_subsequence(a, b),
        !b.contains(c),
    ensures
        !a.contains(c),
    decreases b.len(),
{
    if a.len() > 0 {
        assert(!b.drop_last().contains(c)) by {
            if b.drop_last().contains(c) {
                let j = choose|j: int| 0 <= j < b.drop_last().len() && b.drop_last()[j] == c;
                assert(b[j] == c);
            }
        }
        if a.last() == b.last() && is_subsequence(a.drop_last(), b.drop_last()) {
            lemma_subsequence_absent(a.drop_last(), b.drop_last(), c);
            assert(b[b.len() - 1] == b.last());
            if a.contains(c) {
                let j = choose|j: int| 0 <= j < a.len() && a[j] == c;
                if j < a.len() - 1 {
                    assert(a.drop_last()[j] == c);
                }
            }
        } else {
            lemma_subsequence_absent(a, b.drop_last(), c);
        }
    }
}

/// Clearing entries of a buffer leaves a subsequence of its characters.
proof fn lemma_subsequence_cleared(u: Seq<Option<char>>, v: Seq<Option<char>>)
    requires
        u.len() == v.len(),
        forall|m: int| 0 <= m < u.len() ==> (#[trigger] u[m]) is None || u[m] == v[m],
    ensures
        is_subsequence(somes(u), somes(v)),
    decreases u.len(),
{
    if u.len() > 0 {
        let u1 = u.drop_last();
        let v1 = v.drop_last();
        assert forall|m: int| 0 <= m < u1.len() implies (#[trigger] u1[m]) is None || u1[m] == v1[m] by {
            assert(u1[m] == u[m] && v1[m] == v[m]);
        }
        lemma_subsequence_cleared(u1, v1);
        let a = somes(u1);
        let b = somes(v1);
        assert(u.last() == u[u.len() - 1]);
        match u.last() {
            Some(c) => {
                assert(somes(u) == a.push(c));
                assert(somes(v) == b.push(c));
                assert(a.push(c).drop_last() =~= a);
                assert(b.push(c).drop_last() =~= b);
            },
            None => {
                match v.last() {
                    Some(c) => {
                        assert(somes(v) == b.push(c));
                        assert(b.push(c).drop_last() =~= b);
                    },
                    None => {},
                }
            },
        }
    }
}

proof fn lemma_somes_kept(x: Seq<Option<char>>)
    ensures
        somes(kept(x)) == somes(x),
{
    lemma_kept(x);
    lemma_somes_lift(somes(x));
}

proof fn lemma_somes_absent(x: Seq<Option<char>>, c: char)
    requires
        forall|m: int| 0 <= m < x.len() ==> #[trigger] x[m] != Some(c),
    ensures
        !somes(x).contains(c),
    decreases x.len(),
{
    if x.len() > 0 {
        let x1 = x.drop_last();
        assert forall|m: int| 0 <= m < x1.len() implies #[trigger] x1[m] != Some(c) by {
            assert(x1[m] == x[m]);
        }
        lemma_somes_absent(x1, c);
        assert(x.last() == x[x.len() - 1]);
        let a = somes(x1);
        if let Some(d) = x.last() {
            assert(somes(x) == a.push(d));
            if a.push(d).contains(c) {
                let j = choose|j: int| 0 <= j < a.push(d).len() && a.push(d)[j] == c;
                if j < a.len() {
                    assert(a[j] == c);
                }
            }
        }
    }
}

/// The buffer with each non-joiner read as a joiner.
pub open spec fn joiner_images(s: Seq<Option<char>>) -> Seq<Option<char>> {
    Seq::new(
        s.len(),
        |i: int|
            match s[i] {
                Some(c) => Some(joiner_image(c)),
                None => None,
            },
    )
}

proof fn lemma_somes_joiner_images(s: Seq<Option<char>>)
    ensures
        somes(joiner_images(s)) == somes(s).map_values(|c: char| joiner_image(c)),
    decreases s.len(),
{
    if s.len() > 0 {
        let s1 = s.drop_last();
        lemma_somes_joiner_images(s1);
        assert(joiner_images(s).drop_last() =~= joiner_images(s1));
        assert(joiner_images(s).last() == joiner_images(s)[s.len() - 1]);
        assert(s.last() == s[s.len() - 1]);
        let a = somes(s1);
        match s.last() {
            Some(c) => {
                assert(a.push(c).map_values(|c: char| joiner_image(c)) =~= a.map_values(
                    |c: char| joiner_image(c),
                ).push(joiner_image(c)));
            },
            None => {},
        }
    } else {
        assert(somes(s).map_values(|c: char| joiner_image(c)) =~= Seq::<char>::empty());
    }
}

/// The second pass only clears entries, leaves the unvisited ones alone,
/// and keeps a joiner only right after a র.
proof fn lemma_no_space_upto_shape(t: Seq<Option<char>>, k: nat)
    requires
        k <= t.len(),
    ensures
        no_space_upto(t, k).len() == t.len(),
        forall|m: int|
            0 <= m < t.len() ==> (#[trigger] no_space_upto(t, k)[m]) is None || no_space_upto(t, k)[m]
                == t[m],
        forall|m: int| k <= m < t.len() ==> #[trigger] no_space_upto(t, k)[m] == t[m],
        forall|m: int|
            1 <= m < k && #[trigger] no_space_upto(t, k)[m] == Some(ZWJ) ==> no_space_upto(t, k)[m - 1]
                == Some('\u{09B0}'),
    decreases k,
{
    if k > 0 {
        let j = k - 1;
        lemma_no_space_upto_shape(t, j as nat);
        let u = no_space_upto(t, j as nat);
        let w = no_space_step(u, j);
        assert(no_space_upto(t, k) == w);
        assert(forall|m: int| 0 <= m < t.len() && m != j && m != j - 1 ==> w[m] == u[m]);
        assert(forall|m: int| 0 <= m < t.len() ==> (#[trigger] w[m]) is None || w[m] == u[m]);
        assert(w.len() == u.len());
        if j >= 1 && at(u, j) == Some(ZWJ) && w[j] == Some(ZWJ) {
            assert(w[j - 1] == u[j - 1]);
            assert(at(u, j - 1) == Some('\u{09B0}'));
        }
        assert forall|m: int| 1 <= m < k && #[trigger] w[m] == Some(ZWJ) implies w[m - 1] == Some(
            '\u{09B0}',
        ) by {
            if m < j {
                assert(u[m] == Some(ZWJ));
                assert(u[m - 1] == Some('\u{09B0}'));
                assert(w[m - 1] == u[m - 1]);
            } else {
                assert(m == j);
                assert(u[j] == t[j]);
                if j - 1 >= 0 {
                    assert(w[j - 1] == u[j - 1] || at(u, j - 1) == Some(CONNECTOR));
                }
            }
        }
    }
}

proof fn lemma_zwj_after_ra(u: Seq<Option<char>>)
    requires
        forall|m: int| 1 <= m < u.len() && #[trigger] u[m] == Some(ZWJ) ==> u[m - 1] == Some('\u{09B0}'),
    ensures
        forall|i: int|
            1 <= i < somes(u).len() && #[trigger] somes(u)[i] == ZWJ ==> somes(u)[i - 1] == '\u{09B0}',
    decreases u.len(),
{
    if u.len() > 0 {
        let u1 = u.drop_last();
        assert forall|m: int| 1 <= m < u1.len() && #[trigger] u1[m] == Some(ZWJ) implies u1[m - 1] == Some(
            '\u{09B0}',
        ) by {
            assert(u1[m] == u[m] && u1[m - 1] == u[m - 1]);
        }
        lemma_zwj_after_ra(u1);
        let a = somes(u1);
        assert(u.last() == u[u.len() - 1]);
        if let Some(c) = u.last() {
            assert(somes(u) == a.push(c));
            assert forall|i: int| 1 <= i < a.push(c).len() && #[trigger] a.push(c)[i] == ZWJ implies a.push(
                c,
            )[i - 1] == '\u{09B0}' by {
                if i < a.len() {
                    assert(a.push(c)[i] == a[i] && a.push(c)[i - 1] == a[i - 1]);
                } else {
                    assert(c == ZWJ);
                    if u.len() >= 2 {
                        assert(u[u.len() - 2] == Some('\u{09B0}'));
                        assert(u1.last() == u[u.len() - 2]);
                        assert(somes(u1) == somes(u1.drop_last()).push('\u{09B0}'));
                    } else {
                        assert(u1.len() == 0);
                        assert(a.len() == 0);
                    }
                }
            }
        }
    }
}

/// The joiner pass leaves no non-joiner, keeps a joiner (after the first
/// character) only right after a র, and leaves a subsequence of the input's
/// characters with every non-joiner read as a joiner.
pub proof fn law_joiner_pass(s: Seq<Option<char>>)
    ensures
        ({
            let r = somes(spec_fix_no_space_char(s));
            &&& !r.contains(ZWNJ)
            &&& forall|i: int| 1 <= i < r.len() && #[trigger] r[i] == ZWJ ==> r[i - 1] == '\u{09B0}'
            &&& is_subsequence(r, somes(s).map_values(|c: char| joiner_image(c)))
        }),
{
    let fp = no_space_first_pass(s);
    let t = kept(fp);
    let u = no_space_upto(t, t.len());
    lemma_no_space_upto_shape(t, t.len());
    lemma_somes_kept(u);
    lemma_somes_kept(fp);
    lemma_zwj_after_ra(u);
    lemma_subsequence_cleared(u, t);
    assert forall|m: int| 0 <= m < fp.len() implies (#[trigger] fp[m]) is None || fp[m] == joiner_images(
        s,
    )[m] by {}
    lemma_subsequence_cleared(fp, joiner_images(s));
    lemma_somes_joiner_images(s);
    lemma_subsequence_trans(somes(u), somes(fp), somes(joiner_images(s)));
    assert forall|m: int| 0 <= m < fp.len() implies #[trigger] fp[m] != Some(ZWNJ) by {}
    lemma_somes_absent(fp, ZWNJ);
    lemma_subsequence_absent(somes(u), somes(fp), ZWNJ);
}

// ─── What the later stages put into the buffer ─────────────────────────────

proof fn lemma_nukta_keeps(s: Seq<Option<char>>, k: nat, p: spec_fn(char) -> bool)
    requires
        inserted_ok(p),
        entries_ok(s, p),
    ensures
        entries_ok(nukta_upto(s, k), p),
    decreases k,
{
    if k > 0 {
        lemma_nukta_keeps(s, (k - 1) as nat, p);
        let pv = nukta_upto(s, (k - 1) as nat);
        let q = nukta_step(pv, k - 1);
        assert forall|i: int| 0 <= i < q.len() && (#[trigger] q[i]) is Some implies p(q[i]->0) by {
            if at(pv, k - 1) == Some(NUKTA) && k - 1 > 0 {
                lemma_nukta_base_range(pv, k - 1);
                if let Some(b) = nukta_base_before(pv, k - 1) {
                    assert(q[i] == pv[i] || q[i] is None || q[i] == spec_nukta_target(pv[b]->0));
                }
            }
        }
    }
}

proof fn lemma_to_hosonto_keeps(s: Seq<Option<char>>, k: nat, p: spec_fn(char) -> bool)
    requires
        inserted_ok(p),
        entries_ok(s, p),
    ensures
        entries_ok(to_hosonto_upto(s, k), p),
    decreases k,
{
    if k > 0 {
        lemma_to_hosonto_keeps(s, (k - 1) as nat, p);
        let pv = to_hosonto_upto(s, (k - 1) as nat);
        let q = to_hosonto_step(pv, k - 1);
        assert forall|i: int| 0 <= i < q.len() && (#[trigger] q[i]) is Some implies p(q[i]->0) by {
            assert(q[i] == pv[i] || q[i] is None || q[i] == Some('\u{09CE}'));
        }
    }
}

proof fn lemma_to_hosonto_swap_keeps(s: Seq<Option<char>>, k: nat, p: spec_fn(char) -> bool)
    requires
        inserted_ok(p),
        entries_ok(s, p),
    ensures
        entries_ok(to_hosonto_swap_upto(s, k), p),
    decreases k,
{
    if k > 0 {
        lemma_to_hosonto_swap_keeps(s, (k - 1) as nat, p);
        let pv = to_hosonto_swap_upto(s, (k - 1) as nat);
        let j = k - 1;
        let q = to_hosonto_swap_step(pv, j);
        assert forall|i: int| 0 <= i < q.len() && (#[trigger] q[i]) is Some implies p(q[i]->0) by {
            if at(pv, j + 1) is Some {
                assert(pv[j + 1] is Some);
            }
            assert(q[i] == pv[i] || q[i] == at(pv, j + 1) || q[i] == Some('\u{09CE}'));
        }
    }
}

proof fn lemma_jo_fola_typo_keeps(s: Seq<Option<char>>, k: nat, p: spec_fn(char) -> bool)
    requires
        inserted_ok(p),
        entries_ok(s, p),
    ensures
        entries_ok(jo_fola_typo_upto(s, k), p),
    decreases k,
{
    if k > 0 {
        lemma_jo_fola_typo_keeps(s, (k - 1) as nat, p);
        let pv = jo_fola_typo_upto(s, (k - 1) as nat);
        let q = jo_fola_typo_step(pv, k - 1);
        assert forall|i: int| 0 <= i < q.len() && (#[trigger] q[i]) is Some implies p(q[i]->0) by {
            assert(q[i] == pv[i] || q[i] == Some('\u{09AF}'));
        }
    }
}

proof fn lemma_double_cc_keeps(s: Seq<Option<char>>, k: nat, p: spec_fn(char) -> bool)
    requires
        entries_ok(s, p),
    ensures
        entries_ok(double_cc_upto(s, k), p),
    decreases k,
{
    if k > 0 {
        lemma_double_cc_keeps(s, (k - 1) as nat, p);
        let pv = double_cc_upto(s, (k - 1) as nat);
        let q = double_cc_step(pv, k - 1);
        assert forall|i: int| 0 <= i < q.len() && (#[trigger] q[i]) is Some implies p(q[i]->0) by {
            assert(q[i] == pv[i] || q[i] is None);
        }
    }
}

proof fn lemma_double_ref_keeps(s: Seq<Option<char>>, k: nat, p: spec_fn(char) -> bool)
    requires
        entries_ok(s, p),
    ensures
        entries_ok(double_ref_upto(s, k), p),
    decreases k,
{
    if k > 0 {
        lemma_double_ref_keeps(s, (k - 1) as nat, p);
        let pv = double_ref_upto(s, (k - 1) as nat);
        let q = double_ref_step(pv, k - 1);
        assert forall|i: int| 0 <= i < q.len() && (#[trigger] q[i]) is Some implies p(q[i]->0) by {
            assert(q[i] == pv[i] || q[i] is None);
        }
    }
}

proof fn lemma_connector_jo_fola_keeps(s: Seq<Option<char>>, k: nat, p: spec_fn(char) -> bool)
    requires
        entries_ok(s, p),
    ensures
        entries_ok(connector_jo_fola_upto(s, k), p),
    decreases k,
{
    if k > 0 {
        lemma_connector_jo_fola_keeps(s, (k - 1) as nat, p);
        let pv = connector_jo_fola_upto(s, (k - 1) as nat);
        let q = connector_jo_fola_step(pv, k - 1);
        assert forall|i: int| 0 <= i < q.len() && (#[trigger] q[i]) is Some implies p(q[i]->0) by {
            assert(q[i] == pv[i] || q[i] is None);
        }
    }
}

/// `kept(op(kept(s)))`: a stage of the pipeline keeps `p` when its
/// operation does.
proof fn lemma_kept_twice_keeps(s: Seq<Option<char>>, p: spec_fn(char) -> bool)
    requires
        inserted_ok(p),
        entries_ok(s, p),
    ensures
        entries_ok(kept(s), p),
        chars_ok(somes(s), p),
{
    lemma_kept_keeps(s, p);
}

proof fn lemma_normalize_to_and_hosonto_keeps(s: Seq<Option<char>>, p: spec_fn(char) -> bool, ae: bool, kl: bool)
    requires
        inserted_ok(p),
        entries_ok(s, p),
    ensures
        entries_ok(spec_normalize_to_and_hosonto(s, ae, kl), p),
{
    lemma_kept_keeps(s, p);
    lemma_to_hosonto_keeps(kept(s), kept(s).len(), p);
    let a0 = spec_convert_to_and_hosonto(kept(s));
    lemma_kept_keeps(a0, p);
    let a = kept(a0);
    lemma_kept_keeps(a, p);
    lemma_to_hosonto_swap_keeps(kept(a), pairs_in(kept(a).len()), p);
    let b0 = spec_swap_to_and_hosonto_diacritics(kept(a));
    lemma_kept_keeps(b0, p);
    lemma_base_compose_keeps(kept(b0), p, ae, kl);
}

proof fn lemma_conjunct_diacritics_keeps(s: Seq<Option<char>>, p: spec_fn(char) -> bool, ae: bool, kl: bool)
    requires
        inserted_ok(p),
        entries_ok(s, p),
    ensures
        entries_ok(spec_clean_invalid_conjunct_diacritics(s, ae, kl), p),
{
    lemma_kept_keeps(s, p);
    lemma_jo_fola_typo_keeps(kept(s), saturating_minus(kept(s).len(), 1), p);
    let a0 = spec_fix_typo_for_jo_fola(kept(s));
    lemma_kept_keeps(a0, p);
    let a = kept(a0);
    lemma_kept_keeps(a, p);
    lemma_double_cc_keeps(kept(a), saturating_minus(kept(a).len(), 3), p);
    let b0 = spec_clean_double_cc(kept(a));
    lemma_kept_keeps(b0, p);
    let b = kept(b0);
    lemma_kept_keeps(b, p);
    lemma_double_ref_keeps(kept(b), saturating_minus(kept(b).len(), 3), p);
    let c0 = spec_clean_double_ref(kept(b));
    lemma_kept_keeps(c0, p);
    let c = kept(c0);
    lemma_kept_keeps(c, p);
    lemma_connector_jo_fola_keeps(kept(c), saturating_minus(kept(c).len(), 2), p);
    let d0 = spec_clean_connector_for_jo_fola(kept(c));
    lemma_kept_keeps(d0, p);
    lemma_base_compose_keeps(kept(d0), p, ae, kl);
}

proof fn lemma_root_chain_keeps(
    t: Seq<char>,
    r: Seq<char>,
    j: int,
    used: Set<int>,
    ae: bool,
    kl: bool,
    p: spec_fn(char) -> bool,
)
    requires
        p(CONNECTOR),
        chars_ok(t, p),
        chars_ok(r, p),
    ensures
        chars_ok(root_chain(t, r, j, used, ae, kl).0, p),
    decreases t.len() - j,
{
    if !(j >= t.len() || j < 0) {
        let k = r + seq![CONNECTOR, t[j]];
        assert forall|i: int| 0 <= i < k.len() implies p(#[trigger] k[i]) by {
            if i < r.len() {
                assert(k[i] == r[i]);
            }
        }
        if spec_valid_root_with(k, ae, kl) && j != t.len() - 1 {
            lemma_root_chain_keeps(t, k, j + 2, used.insert(j), ae, kl, p);
        }
    }
}

proof fn lemma_root_scan_keeps(
    t: Seq<char>,
    i: int,
    used: Set<int>,
    formed: Seq<char>,
    ae: bool,
    kl: bool,
    p: spec_fn(char) -> bool,
)
    requires
        p(CONNECTOR),
        chars_ok(t, p),
        chars_ok(formed, p),
    ensures
        chars_ok(root_scan(t, i, used, formed, ae, kl), p),
    decreases t.len() - i,
{
    if !(i >= t.len() || i < 0) {
        if t[i] != CONNECTOR && !used.contains(i) {
            lemma_root_chain_keeps(t, seq![t[i]], i + 2, used, ae, kl, p);
            let (piece, used2) = root_chain(t, seq![t[i]], i + 2, used, ae, kl);
            let f2 = formed + piece;
            assert forall|m: int| 0 <= m < f2.len() implies p(#[trigger] f2[m]) by {
                if m < formed.len() {
                    assert(f2[m] == formed[m]);
                } else {
                    assert(f2[m] == piece[m - formed.len()]);
                }
            }
            lemma_root_scan_keeps(t, i + 1, used2, f2, ae, kl, p);
        } else {
            lemma_root_scan_keeps(t, i + 1, used, formed, ae, kl, p);
        }
    }
}

proof fn lemma_groups_from_in_range(t: Seq<char>, c: int, cur: Option<(int, int)>, acc: Seq<(int, int)>)
    requires
        c >= 0,
        groups_in_range(acc, t.len() as int),
        cur matches Some(g) ==> 0 <= g.0 <= g.1 < t.len() && g.1 <= c,
    ensures
        groups_in_range(groups_from(t, c, cur, acc), t.len() as int),
    decreases t.len() - c,
{
    if c >= t.len() {
        if let Some(g) = cur {
            assert(groups_in_range(acc.push(g), t.len() as int)) by {
                assert forall|i: int| 0 <= i < acc.push(g).len() implies 0 <= (#[trigger] acc.push(
                    g,
                )[i]).0 <= acc.push(g)[i].1 < t.len() by {
                    if i < acc.len() {
                        assert(acc.push(g)[i] == acc[i]);
                    }
                }
            }
        }
    } else if inner_connector(t, c) {
        let start = span_start(t, c);
        match cur {
            Some(g) => {
                if start <= g.1 {
                    lemma_groups_from_in_range(t, c + 1, Some((g.0, c + 1)), acc);
                } else {
                    assert(groups_in_range(acc.push(g), t.len() as int)) by {
                        assert forall|i: int| 0 <= i < acc.push(g).len() implies 0 <= (
                        #[trigger] acc.push(g)[i]).0 <= acc.push(g)[i].1 < t.len() by {
                            if i < acc.len() {
                                assert(acc.push(g)[i] == acc[i]);
                            }
                        }
                    }
                    lemma_groups_from_in_range(t, c + 1, Some((start, c + 1)), acc.push(g));
                }
            },
            None => {
                lemma_groups_from_in_range(t, c + 1, Some((start, c + 1)), acc);
            },
        }
    } else {
        lemma_groups_from_in_range(t, c + 1, cur, acc);
    }
}

proof fn lemma_apply_groups_keeps(
    rc: Seq<Option<char>>,
    t: Seq<char>,
    gs: Seq<(int, int)>,
    k: nat,
    ae: bool,
    kl: bool,
    p: spec_fn(char) -> bool,
)
    requires
        p(CONNECTOR),
        k <= gs.len(),
        chars_ok(t, p),
        entries_ok(rc, p),
        rc.len() >= t.len(),
        groups_in_range(gs, t.len() as int),
    ensures
        entries_ok(apply_groups_upto(rc, t, gs, k, ae, kl), p),
        apply_groups_upto(rc, t, gs, k, ae, kl).len() >= t.len(),
    decreases k,
{
    if k > 0 {
        lemma_apply_groups_keeps(rc, t, gs, (k - 1) as nat, ae, kl, p);
        let prev = apply_groups_upto(rc, t, gs, (k - 1) as nat, ae, kl);
        let g = gs[k - 1];
        let grp = t.subrange(g.0, g.1 + 1);
        if !(spec_valid_root_with(grp, ae, kl) || !grp.contains(CONNECTOR)) {
            assert forall|m: int| 0 <= m < grp.len() implies p(#[trigger] grp[m]) by {
                assert(grp[m] == t[m + g.0]);
            }
            lemma_root_scan_keeps(grp, 0, Set::empty(), Seq::empty(), ae, kl, p);
            let nc = spec_check_complex_root(grp, ae, kl);
            let rep = group_replacement(nc, g.1 - g.0 + 1);
            let left = prev.subrange(0, g.0);
            let right = prev.subrange(g.1 + 1, prev.len() as int);
            let q = left + rep + right;
            assert(q == apply_group(prev, t, g, ae, kl));
            assert forall|m: int| 0 <= m < q.len() && (#[trigger] q[m]) is Some implies p(q[m]->0) by {
                if m < left.len() {
                    assert(q[m] == prev[m]);
                } else if m < left.len() + rep.len() {
                    let r = m - left.len();
                    assert(q[m] == rep[r]);
                    if r < nc.len() {
                        assert(rep[r] == Some(nc[r]));
                    } else {
                        assert(rep[r] is None);
                    }
                } else {
                    assert(q[m] == prev[m - left.len() - rep.len() + g.1 + 1]);
                }
            }
        }
    }
}

proof fn lemma_convert_complex_roots_keeps(s: Seq<Option<char>>, p: spec_fn(char) -> bool, ae: bool, kl: bool)
    requires
        inserted_ok(p),
        entries_ok(s, p),
    ensures
        entries_ok(spec_convert_complex_roots(s, ae, kl), p),
{
    lemma_fix_no_space_keeps(s, p);
    let f = spec_fix_no_space_char(s);
    lemma_kept_keeps(f, p);
    let t = somes(f);
    assert(entries_ok(lift(t), p));
    if t.contains(CONNECTOR) {
        let gs = conjunct_groups(t);
        lemma_groups_from_in_range(t, 0, None, Seq::empty());
        lemma_apply_groups_keeps(lift(t), t, gs, gs.len(), ae, kl, p);
    }
}

/// The stages of the pipeline keep a predicate that the inserted characters
/// meet.
proof fn lemma_decomp_stages_keeps(d: Seq<Option<char>>, p: spec_fn(char) -> bool, ae: bool, kl: bool)
    requires
        inserted_ok(p),
        entries_ok(d, p),
    ensures
        entries_ok(kept(spec_decomp_stages(d, ae, kl)), p),
{
    reveal(spec_decomp_stages);
    lemma_kept_keeps(d, p);
    lemma_nukta_keeps(kept(d), kept(d).len(), p);
    let d1 = kept(spec_fix_broken_nukta(kept(d)));
    lemma_kept_keeps(spec_fix_broken_nukta(kept(d)), p);
    lemma_kept_keeps(d1, p);
    lemma_clean_invalid_unicodes_keeps(kept(d1), p, ae, kl);
    let d2 = kept(spec_clean_invalid_unicodes(kept(d1), ae, kl));
    lemma_kept_keeps(spec_clean_invalid_unicodes(kept(d1), ae, kl), p);
    lemma_kept_keeps(d2, p);
    lemma_clean_invalid_connector_keeps(kept(d2), p);
    let d3 = kept(spec_clean_invalid_connector(kept(d2)));
    lemma_kept_keeps(spec_clean_invalid_connector(kept(d2)), p);
    lemma_kept_keeps(d3, p);
    lemma_vowel_diacritics_keeps(kept(d3), pairs_in(kept(d3).len()), p);
    let d4 = kept(spec_clean_vowel_diacritics(kept(d3)));
    lemma_kept_keeps(spec_clean_vowel_diacritics(kept(d3)), p);
    lemma_kept_keeps(d4, p);
    lemma_consonant_diacritics_keeps(kept(d4), pairs_in(kept(d4).len()), p);
    let d5 = kept(spec_clean_consonant_diacritics(kept(d4)));
    lemma_kept_keeps(spec_clean_consonant_diacritics(kept(d4)), p);
    lemma_kept_keeps(d5, p);
    lemma_diacritic_order_keeps(kept(d5), pairs_in(kept(d5).len()), p);
    let d6 = kept(spec_fix_diacritic_order(kept(d5)));
    lemma_kept_keeps(spec_fix_diacritic_order(kept(d5)), p);
    lemma_kept_keeps(d6, p);
    lemma_non_char_diacs_keeps(kept(d6), kept(d6).len(), p);
    let d7 = kept(spec_clean_non_char_diacs(kept(d6)));
    lemma_kept_keeps(spec_clean_non_char_diacs(kept(d6)), p);
    lemma_kept_keeps(d7, p);
    lemma_after_vowel_keeps(kept(d7), kept(d7).len(), p);
    let d8 = kept(spec_clean_vowel_diacritic_after_vowel(kept(d7)));
    lemma_kept_keeps(spec_clean_vowel_diacritic_after_vowel(kept(d7)), p);
    lemma_kept_keeps(d8, p);
    lemma_base_compose_keeps(kept(d8), p, ae, kl);
    let d9 = kept(spec_base_compose(kept(d8), ae, kl));
    lemma_kept_keeps(spec_base_compose(kept(d8), ae, kl), p);
    lemma_kept_keeps(d9, p);
    lemma_normalize_to_and_hosonto_keeps(kept(d9), p, ae, kl);
    let d10 = kept(spec_normalize_to_and_hosonto(kept(d9), ae, kl));
    lemma_kept_keeps(spec_normalize_to_and_hosonto(kept(d9), ae, kl), p);
    lemma_kept_keeps(d10, p);
    lemma_conjunct_diacritics_keeps(kept(d10), p, ae, kl);
    let d11 = kept(spec_clean_invalid_conjunct_diacritics(kept(d10), ae, kl));
    lemma_kept_keeps(spec_clean_invalid_conjunct_diacritics(kept(d10), ae, kl), p);
    lemma_kept_keeps(d11, p);
    lemma_convert_complex_roots_keeps(kept(d11), p, ae, kl);
    let d12 = kept(spec_convert_complex_roots(kept(d11), ae, kl));
    lemma_kept_keeps(spec_convert_complex_roots(kept(d11), ae, kl), p);
    lemma_kept_keeps(d12, p);
}

} // verus!
