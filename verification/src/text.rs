//! Sequences of characters: conversions between strings and character
//! vectors, the decomposition buffer of optional characters, and
//! left-to-right substring replacement.

use vstd::prelude::*;

verus! {

// ─── Strings and character vectors ────────────────────────────────────────

/// The characters of `s`, in order.
pub fn chars_of(s: &str) -> (r: Vec<char>)
    ensures
        r@ == s@,
{
    broadcast use vstd::string::group_string_axioms;

    let mut out: Vec<char> = Vec::new();
    for c in it: s.chars()
        invariant
            out@ == it.seq().take(it.index() as int),
    {
        out.push(c);
    }
    out
}

/// Appends `c` to `s` (std's `String::push`).
#[verifier::external_body]
fn push_char(s: &mut String, c: char)
    ensures
        final(s)@ == old(s)@.push(c),
{
    s.push(c);
}

/// Appends the characters of `v` to `s`.
pub fn push_chars(s: &mut String, v: &Vec<char>)
    ensures
        final(s)@ == old(s)@ + v@,
{
    let ghost start = s@;
    let mut i: usize = 0;
    while i < v.len()
        invariant
            i <= v.len(),
            s@ == start + v@.take(i as int),
        decreases v.len() - i,
    {
        push_char(s, v[i]);
        i = i + 1;
        assert(s@ =~= start + v@.take(i as int));
    }
    assert(v@.take(v.len() as int) =~= v@);
}

/// The string made of the characters of `v`.
pub fn string_of(v: &Vec<char>) -> (r: String)
    ensures
        r@ == v@,
{
    let mut s = String::new();
    push_chars(&mut s, v);
    assert(s@ =~= v@);
    s
}

/// Whether the characters of `t` are those of `s`.
pub fn chars_match_str(t: &Vec<char>, s: &str) -> (r: bool)
    ensures
        r == (t@ == s@),
{
    let n = s.unicode_len();
    if n != t.len() {
        return false;
    }
    let mut i: usize = 0;
    while i < n
        invariant
            n == s@.len(),
            n == t@.len(),
            i <= n,
            forall|k: int| 0 <= k < i ==> s@[k] == t@[k],
        decreases n - i,
    {
        if s.get_char(i) != t[i] {
            return false;
        }
        i = i + 1;
    }
    assert(s@ =~= t@);
    true
}

/// Whether `t` holds `c`.
pub fn chars_contain(t: &Vec<char>, c: char) -> (r: bool)
    ensures
        r == t@.contains(c),
{
    let mut i: usize = 0;
    while i < t.len()
        invariant
            i <= t.len(),
            forall|k: int| 0 <= k < i ==> t@[k] != c,
        decreases t.len() - i,
    {
        if t[i] == c {
            assert(t@[i as int] == c);
            return true;
        }
        i = i + 1;
    }
    false
}

// ─── The decomposition buffer ─────────────────────────────────────────────

/// The entry at `i`, or `None` outside the buffer.
pub open spec fn at(s: Seq<Option<char>>, i: int) -> Option<char> {
    if 0 <= i < s.len() {
        s[i]
    } else {
        None
    }
}

/// Whether the entry `x` holds the character `c`.
pub fn holds(x: Option<char>, c: char) -> (r: bool)
    ensures
        r == (x == Some(c)),
{
    match x {
        Some(d) => d == c,
        None => false,
    }
}

/// The buffer without its `None` entries.
pub open spec fn kept(s: Seq<Option<char>>) -> Seq<Option<char>>
    decreases s.len(),
{
    if s.len() == 0 {
        s
    } else if s.last() is Some {
        kept(s.drop_last()).push(s.last())
    } else {
        kept(s.drop_last())
    }
}

/// The characters held by the buffer, in order.
pub open spec fn somes(s: Seq<Option<char>>) -> Seq<char>
    decreases s.len(),
{
    if s.len() == 0 {
        Seq::empty()
    } else {
        match s.last() {
            Some(c) => somes(s.drop_last()).push(c),
            None => somes(s.drop_last()),
        }
    }
}

/// The buffer that holds each character of `t`.
pub open spec fn lift(t: Seq<char>) -> Seq<Option<char>> {
    t.map_values(|c: char| Some(c))
}

/// Every entry of the buffer holds a character.
pub open spec fn all_some(s: Seq<Option<char>>) -> bool {
    forall|i: int| 0 <= i < s.len() ==> (#[trigger] s[i]) is Some
}

/// Facts about `kept`: it holds only characters, exactly those of the
/// buffer, and leaves a buffer without `None` as it is.
pub proof fn lemma_kept(s: Seq<Option<char>>)
    ensures
        all_some(kept(s)),
        kept(s) == lift(somes(s)),
        kept(s).len() <= s.len(),
        all_some(s) ==> kept(s) == s,
    decreases s.len(),
{
    if s.len() > 0 {
        lemma_kept(s.drop_last());
        if all_some(s) {
            assert(all_some(s.drop_last()));
            assert(s.drop_last().push(s.last()) =~= s);
        }
        assert(kept(s) =~= lift(somes(s)));
    } else {
        assert(kept(s) =~= lift(somes(s)));
    }
}

/// `lift` and `somes` undo each other.
pub proof fn lemma_somes_lift(t: Seq<char>)
    ensures
        somes(lift(t)) == t,
        all_some(lift(t)),
    decreases t.len(),
{
    if t.len() > 0 {
        lemma_somes_lift(t.drop_last());
        assert(lift(t).drop_last() =~= lift(t.drop_last()));
    }
    assert(somes(lift(t)) =~= t);
}

/// Removes the `None` entries of `v`.
pub fn retain_some(v: &mut Vec<Option<char>>)
    ensures
        final(v)@ == kept(old(v)@),
{
    let mut out: Vec<Option<char>> = Vec::new();
    let mut i: usize = 0;
    while i < v.len()
        invariant
            i <= v.len(),
            out@ == kept(v@.take(i as int)),
        decreases v.len() - i,
    {
        assert(v@.take(i + 1).drop_last() =~= v@.take(i as int));
        if v[i].is_some() {
            out.push(v[i]);
        }
        i = i + 1;
    }
    assert(v@.take(v.len() as int) =~= v@);
    *v = out;
}

/// The characters held by `v`.
pub fn flatten(v: &Vec<Option<char>>) -> (r: Vec<char>)
    ensures
        r@ == somes(v@),
{
    let mut out: Vec<char> = Vec::new();
    let mut i: usize = 0;
    while i < v.len()
        invariant
            i <= v.len(),
            out@ == somes(v@.take(i as int)),
        decreases v.len() - i,
    {
        assert(v@.take(i + 1).drop_last() =~= v@.take(i as int));
        match v[i] {
            Some(c) => out.push(c),
            None => {},
        }
        i = i + 1;
    }
    assert(v@.take(v.len() as int) =~= v@);
    out
}

/// The buffer holding each character of `t`.
pub fn lift_chars(t: &Vec<char>) -> (r: Vec<Option<char>>)
    ensures
        r@ == lift(t@),
{
    let mut out: Vec<Option<char>> = Vec::new();
    let mut i: usize = 0;
    while i < t.len()
        invariant
            i <= t.len(),
            out@ == lift(t@.take(i as int)),
        decreases t.len() - i,
    {
        out.push(Some(t[i]));
        i = i + 1;
        assert(out@ =~= lift(t@.take(i as int)));
    }
    assert(t@.take(t.len() as int) =~= t@);
    out
}

// ─── Replacement ──────────────────────────────────────────────────────────

/// `s` with every occurrence of `from` replaced by `to`, scanning left to
/// right and never reusing a replaced stretch (std's `str::replace`).
pub open spec fn replace_all(s: Seq<char>, from: Seq<char>, to: Seq<char>) -> Seq<char>
    decreases s.len(),
{
    if from.len() == 0 || s.len() < from.len() {
        s
    } else if s.take(from.len() as int) == from {
        to + replace_all(s.skip(from.len() as int), from, to)
    } else {
        seq![s[0]] + replace_all(s.skip(1), from, to)
    }
}

/// Whether `s` holds `from` at position `i`.
fn occurs_at(s: &Vec<char>, from: &Vec<char>, i: usize) -> (r: bool)
    requires
        i <= s.len(),
    ensures
        r == (s@.len() - i >= from@.len() && s@.skip(i as int).take(from@.len() as int) == from@),
{
    if s.len() - i < from.len() {
        return false;
    }
    let mut k: usize = 0;
    while k < from.len()
        invariant
            k <= from.len(),
            s@.len() - i >= from@.len(),
            i + from@.len() <= s@.len(),
            forall|m: int| 0 <= m < k ==> s@[i + m] == from@[m],
        decreases from.len() - k,
    {
        assert(i + k < s.len());
        if s[i + k] != from[k] {
            assert(s@.skip(i as int).take(from@.len() as int)[k as int] != from@[k as int]);
            return false;
        }
        k = k + 1;
    }
    assert(s@.skip(i as int).take(from@.len() as int) =~= from@);
    true
}

/// `s` with every occurrence of `from` replaced by `to`.
pub fn replace_chars(s: &Vec<char>, from: &Vec<char>, to: &Vec<char>) -> (r: Vec<char>)
    ensures
        r@ == replace_all(s@, from@, to@),
{
    if from.len() == 0 {
        return s.clone();
    }
    let mut out: Vec<char> = Vec::new();
    let mut i: usize = 0;
    assert(s@.skip(0) =~= s@);
    while i < s.len()
        invariant
            i <= s.len(),
            from@.len() > 0,
            replace_all(s@, from@, to@) == out@ + replace_all(s@.skip(i as int), from@, to@),
        decreases s.len() - i,
    {
        let ghost rest = s@.skip(i as int);
        if occurs_at(s, from, i) {
            let mut k: usize = 0;
            let ghost before = out@;
            while k < to.len()
                invariant
                    k <= to.len(),
                    out@ == before + to@.take(k as int),
                decreases to.len() - k,
            {
                out.push(to[k]);
                k = k + 1;
                assert(out@ =~= before + to@.take(k as int));
            }
            assert(to@.take(to.len() as int) =~= to@);
            assert(rest.skip(from@.len() as int) =~= s@.skip(i + from.len()));
            assert(out@ + replace_all(s@.skip(i + from.len()), from@, to@) =~= before + (to@
                + replace_all(rest.skip(from@.len() as int), from@, to@)));
            i = i + from.len();
        } else {
            let ghost before = out@;
            out.push(s[i]);
            if s.len() - i >= from.len() {
                assert(rest.skip(1) =~= s@.skip(i + 1));
                assert(rest[0] == s@[i as int]);
                assert(out@ + replace_all(s@.skip(i + 1), from@, to@) =~= before + (seq![rest[0]]
                    + replace_all(rest.skip(1), from@, to@)));
            } else {
                // Too short for another occurrence: the rest stays as it is.
                assert(replace_all(rest, from@, to@) == rest);
                assert(rest.skip(1) =~= s@.skip(i + 1));
                assert(replace_all(rest.skip(1), from@, to@) == rest.skip(1));
                assert(out@ + rest.skip(1) =~= before + rest);
            }
            i = i + 1;
        }
    }
    assert(s@.skip(s.len() as int) =~= Seq::<char>::empty());
    assert(out@ + Seq::<char>::empty() =~= out@);
    out
}

} // verus!
