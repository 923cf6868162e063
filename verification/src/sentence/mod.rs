//! Sentence-level Bangla Unicode normalization.
//!
//! The input is split into tokens that preserve its exact structure; Bangla
//! words are normalized with `word::normalize_with_options`, and every other
//! token is passed through unchanged.

pub mod tokenizer;

use vstd::prelude::*;
use vstd::string::StringExecFns;

use crate::text::{chars_match_str, chars_of, push_chars};
use crate::word::{normalize_with_options, spec_normalize_word, NormalizeOptions};
use tokenizer::{
    concat_texts, law_tokens_rebuild_text, spec_classify_char, spec_is_bangla_block, spec_tokenize,
    tokenize, tokenize_prefix, TokenKind,
};

verus! {

/// Policy for Bangla words that normalize to `None`.
#[derive(Debug, Clone)]
pub enum NoneTokenPolicy {
    /// Remove the token entirely, closing the gap.
    Drop,
    /// Leave the original un-normalized text in place.
    KeepOriginal,
    /// Replace the token with a caller-supplied marker string.
    Placeholder(String),
    /// Fail on the first such word.
    Error,
    /// Keep the original text and report the token in `failed_tokens`.
    Collect,
    /// Remove the token from the text and report it in `failed_tokens`.
    DropAndCollect,
}

/// Options for sentence-level normalization.
#[derive(Debug, Clone)]
pub struct SentenceNormalizeOptions {
    pub none_policy: NoneTokenPolicy,
    pub allow_english: bool,
}

impl Default for SentenceNormalizeOptions {
    fn default() -> (r: Self)
        ensures
            r.none_policy is KeepOriginal,
            !r.allow_english,
    {
        SentenceNormalizeOptions { none_policy: NoneTokenPolicy::KeepOriginal, allow_english: false }
    }
}

/// Result of sentence-level normalization.
#[derive(Debug, Clone)]
pub struct SentenceNormalizeResult {
    /// The normalized text.
    pub text: String,
    /// The tokens that normalized to `None`, each with its position in the
    /// token stream.  Filled only by the collecting policies.
    pub failed_tokens: Vec<(usize, String)>,
}

/// Error of sentence-level normalization under `NoneTokenPolicy::Error`.
#[derive(Debug, Clone)]
pub struct SentenceNormalizeError {
    /// The token that failed normalization.
    pub token: String,
    /// Position of the token in the token stream of the input.
    pub position: usize,
}

// ─── Error message ──────────────────────────────────────────────────────────

/// The decimal digit `d`.
pub open spec fn digit_char(d: nat) -> char {
    ((48 + d) as u8) as char
}

/// The decimal representation of `n`.
pub open spec fn decimal(n: nat) -> Seq<char>
    decreases n,
{
    if n < 10 {
        seq![digit_char(n)]
    } else {
        decimal(n / 10).push(digit_char(n % 10))
    }
}

/// The decimal representation of `n`.
fn decimal_digits(n: usize) -> (r: Vec<char>)
    ensures
        r@ == decimal(n as nat),
    decreases n,
{
    if n < 10 {
        let d = (48 + n as u8) as char;
        let v = vec![d];
        assert(v@ =~= seq![digit_char(n as nat)]);
        v
    } else {
        let mut v = decimal_digits(n / 10);
        let d = (48 + (n % 10) as u8) as char;
        v.push(d);
        v
    }
}

/// The message of the error for the token `token` at `position`.
pub open spec fn error_message(position: nat, token: Seq<char>) -> Seq<char> {
    "Bangla word at position "@ + decimal(position) + " normalized to None: '"@ + token + "'"@
}

impl SentenceNormalizeError {
    /// The error message: "Bangla word at position {position} normalized to
    /// None: '{token}'".
    pub fn message(&self) -> (r: String)
        ensures
            r@ == error_message(self.position as nat, self.token@),
    {
        let mut s = String::from_str("Bangla word at position ");
        push_chars(&mut s, &decimal_digits(self.position));
        s.append(" normalized to None: '");
        s.append(self.token.as_str());
        s.append("'");
        s
    }
}

// ─── Policy names ───────────────────────────────────────────────────────────

/// The policy named `name`: "drop", "keep_original", "error", "collect" or
/// "drop_and_collect"; `None` for any other name.
pub fn none_policy_from_name(name: &str) -> (r: Option<NoneTokenPolicy>)
    ensures
        r == if name@ == "drop"@ {
            Some(NoneTokenPolicy::Drop)
        } else if name@ == "keep_original"@ {
            Some(NoneTokenPolicy::KeepOriginal)
        } else if name@ == "error"@ {
            Some(NoneTokenPolicy::Error)
        } else if name@ == "collect"@ {
            Some(NoneTokenPolicy::Collect)
        } else if name@ == "drop_and_collect"@ {
            Some(NoneTokenPolicy::DropAndCollect)
        } else {
            None::<NoneTokenPolicy>
        },
{
    let chars = chars_of(name);
    if chars_match_str(&chars, "drop") {
        Some(NoneTokenPolicy::Drop)
    } else if chars_match_str(&chars, "keep_original") {
        Some(NoneTokenPolicy::KeepOriginal)
    } else if chars_match_str(&chars, "error") {
        Some(NoneTokenPolicy::Error)
    } else if chars_match_str(&chars, "collect") {
        Some(NoneTokenPolicy::Collect)
    } else if chars_match_str(&chars, "drop_and_collect") {
        Some(NoneTokenPolicy::DropAndCollect)
    } else {
        None
    }
}

// ─── Normalization ──────────────────────────────────────────────────────────

/// The normalized form of a Bangla word token.
pub open spec fn normalized_token(text: Seq<char>, allow_english: bool) -> Option<Seq<char>> {
    spec_normalize_word(text, allow_english, false, None)
}

/// The token is a Bangla word that normalizes to `None`.
pub open spec fn token_fails(tok: (Seq<char>, TokenKind), allow_english: bool) -> bool {
    tok.1 == TokenKind::BanglaWord && normalized_token(tok.0, allow_english) is None
}

/// What the token contributes to the output text.
pub open spec fn token_output(
    tok: (Seq<char>, TokenKind),
    policy: NoneTokenPolicy,
    allow_english: bool,
) -> Seq<char> {
    if tok.1 != TokenKind::BanglaWord {
        tok.0
    } else {
        match normalized_token(tok.0, allow_english) {
            Some(w) => w,
            None => match policy {
                NoneTokenPolicy::KeepOriginal => tok.0,
                NoneTokenPolicy::Collect => tok.0,
                NoneTokenPolicy::Placeholder(marker) => marker@,
                _ => Seq::empty(),
            },
        }
    }
}

/// The output of the first `n` tokens.
pub open spec fn output_prefix(
    toks: Seq<(Seq<char>, TokenKind)>,
    n: nat,
    policy: NoneTokenPolicy,
    allow_english: bool,
) -> Seq<char>
    decreases n,
{
    if n == 0 {
        Seq::empty()
    } else {
        output_prefix(toks, (n - 1) as nat, policy, allow_english) + token_output(
            toks[n - 1],
            policy,
            allow_english,
        )
    }
}

/// The failing tokens among the first `n`, each with its position.
pub open spec fn failures_prefix(toks: Seq<(Seq<char>, TokenKind)>, n: nat, allow_english: bool) -> Seq<
    (int, Seq<char>),
>
    decreases n,
{
    if n == 0 {
        Seq::empty()
    } else {
        let prev = failures_prefix(toks, (n - 1) as nat, allow_english);
        if token_fails(toks[n - 1], allow_english) {
            prev.push((n - 1, toks[n - 1].0))
        } else {
            prev
        }
    }
}

/// The failing tokens among the first `k` start those among the first `m`.
proof fn lemma_failures_prefix_extends(
    toks: Seq<(Seq<char>, TokenKind)>,
    k: nat,
    m: nat,
    allow_english: bool,
)
    requires
        k <= m,
    ensures
        failures_prefix(toks, m, allow_english).len() >= failures_prefix(
            toks,
            k,
            allow_english,
        ).len(),
        forall|j: int|
            0 <= j < failures_prefix(toks, k, allow_english).len() ==> #[trigger] failures_prefix(
                toks,
                m,
                allow_english,
            )[j] == failures_prefix(toks, k, allow_english)[j],
    decreases m,
{
    if m > k {
        lemma_failures_prefix_extends(toks, k, (m - 1) as nat, allow_english);
    }
}

/// The policy reports failing tokens.
pub open spec fn collects(policy: NoneTokenPolicy) -> bool {
    policy is Collect || policy is DropAndCollect
}

/// The failed tokens as pairs of integers and characters.
pub open spec fn failures_view(f: Seq<(usize, String)>) -> Seq<(int, Seq<char>)> {
    Seq::new(f.len(), |i: int| (f[i].0 as int, f[i].1@))
}

/// The output text of `text` under the policy.
pub open spec fn sentence_output(text: Seq<char>, policy: NoneTokenPolicy, allow_english: bool) -> Seq<
    char,
> {
    let toks = spec_tokenize(text);
    output_prefix(toks, toks.len(), policy, allow_english)
}

/// The failing tokens of `text`, in order, with their positions.
pub open spec fn sentence_failures(text: Seq<char>, allow_english: bool) -> Seq<(int, Seq<char>)> {
    let toks = spec_tokenize(text);
    failures_prefix(toks, toks.len(), allow_english)
}

/// Normalizes a sentence or paragraph of mixed Bangla and other text.
///
/// The input is tokenized preserving its exact structure; Bangla words are
/// normalized, other tokens pass through unchanged, and Bangla words that
/// normalize to `None` are handled by the options' policy.
pub fn normalize(text: &str, opts: &SentenceNormalizeOptions) -> (r: Result<
    SentenceNormalizeResult,
    SentenceNormalizeError,
>)
    ensures
        ({
            let fails = sentence_failures(text@, opts.allow_english);
            &&& r is Err <==> (opts.none_policy is Error && fails.len() > 0)
            &&& r matches Err(e) ==> e.position == fails[0].0 && e.token@ == fails[0].1
            &&& r matches Ok(res) ==> {
                &&& res.text@ == sentence_output(text@, opts.none_policy, opts.allow_english)
                &&& failures_view(res.failed_tokens@) == if collects(opts.none_policy) {
                    fails
                } else {
                    Seq::empty()
                }
            }
        }),
{
    let tokens = tokenize(text);
    let ghost toks = spec_tokenize(text@);
    let word_opts = NormalizeOptions {
        allow_english: opts.allow_english,
        keep_legacy_symbols: false,
        legacy_maps: None,
    };
    let mut result = String::new();
    let mut failed_tokens: Vec<(usize, String)> = Vec::new();
    let mut i: usize = 0;
    assert(failures_view(failed_tokens@) =~= Seq::<(int, Seq<char>)>::empty());
    while i < tokens.len()
        invariant
            i <= tokens.len(),
            tokenizer::tokens_view(tokens@) == toks,
            toks == spec_tokenize(text@),
            !word_opts.allow_english == !opts.allow_english,
            !word_opts.keep_legacy_symbols,
            word_opts.legacy_maps is None,
            result@ == output_prefix(toks, i as nat, opts.none_policy, opts.allow_english),
            failures_view(failed_tokens@) == if collects(opts.none_policy) {
                failures_prefix(toks, i as nat, opts.allow_english)
            } else {
                Seq::empty()
            },
            opts.none_policy is Error ==> failures_prefix(toks, i as nat, opts.allow_english).len()
                == 0,
        decreases tokens.len() - i,
    {
        let token = &tokens[i];
        assert(toks[i as int] == (token.text@, token.kind));
        let ghost before = failed_tokens@;
        match token.kind {
            TokenKind::BanglaWord => {
                match normalize_with_options(token.text.as_str(), &word_opts) {
                    Some(normalized) => {
                        result.append(normalized.as_str());
                    },
                    None => {
                        match &opts.none_policy {
                            NoneTokenPolicy::Drop => {},
                            NoneTokenPolicy::KeepOriginal => {
                                result.append(token.text.as_str());
                            },
                            NoneTokenPolicy::Placeholder(marker) => {
                                result.append(marker.as_str());
                            },
                            NoneTokenPolicy::Error => {
                                assert(failures_prefix(toks, (i + 1) as nat, opts.allow_english)
                                    =~= seq![(i as int, token.text@)]);
                                proof {
                                    lemma_failures_prefix_extends(
                                        toks,
                                        (i + 1) as nat,
                                        toks.len(),
                                        opts.allow_english,
                                    );
                                }
                                return Err(
                                    SentenceNormalizeError {
                                        token: token.text.clone(),
                                        position: i,
                                    },
                                );
                            },
                            NoneTokenPolicy::Collect => {
                                failed_tokens.push((i, token.text.clone()));
                                result.append(token.text.as_str());
                            },
                            NoneTokenPolicy::DropAndCollect => {
                                failed_tokens.push((i, token.text.clone()));
                            },
                        }
                    },
                }
            },
            _ => {
                result.append(token.text.as_str());
            },
        }
        assert(failures_view(failed_tokens@) =~= if collects(opts.none_policy) {
            failures_prefix(toks, (i + 1) as nat, opts.allow_english)
        } else {
            Seq::empty()
        });
        i = i + 1;
    }
    Ok(SentenceNormalizeResult { text: result, failed_tokens })
}


// ─── Laws ───────────────────────────────────────────────────────────────────

/// No character of `text` lies in the Bangla block.
pub open spec fn without_bangla(text: Seq<char>) -> bool {
    forall|i: int| 0 <= i < text.len() ==> !spec_is_bangla_block(#[trigger] text[i])
}

proof fn lemma_no_bangla_tokens(text: Seq<char>, n: nat)
    requires
        n <= text.len(),
        without_bangla(text),
    ensures
        forall|i: int|
            0 <= i < tokenize_prefix(text, n).len() ==> (#[trigger] tokenize_prefix(text, n)[i]).1
                != TokenKind::BanglaWord,
    decreases n,
{
    if n > 0 {
        lemma_no_bangla_tokens(text, (n - 1) as nat);
        assert(!spec_is_bangla_block(text[n - 1]));
        assert(spec_classify_char(text[n - 1]) != TokenKind::BanglaWord);
    }
}

proof fn lemma_output_of_plain_tokens(
    toks: Seq<(Seq<char>, TokenKind)>,
    n: nat,
    policy: NoneTokenPolicy,
    allow_english: bool,
)
    requires
        n <= toks.len(),
        forall|i: int| 0 <= i < toks.len() ==> (#[trigger] toks[i]).1 != TokenKind::BanglaWord,
    ensures
        output_prefix(toks, n, policy, allow_english) == concat_texts(toks.take(n as int)),
        failures_prefix(toks, n, allow_english).len() == 0,
    decreases n,
{
    if n > 0 {
        lemma_output_of_plain_tokens(toks, (n - 1) as nat, policy, allow_english);
        assert(toks.take(n as int).drop_last() =~= toks.take(n - 1));
    }
}

/// Text without any character of the Bangla block comes back unchanged,
/// with no failed token, whatever the policy.
pub proof fn law_text_without_bangla_is_unchanged(
    text: Seq<char>,
    policy: NoneTokenPolicy,
    allow_english: bool,
)
    requires
        without_bangla(text),
    ensures
        sentence_output(text, policy, allow_english) == text,
        sentence_failures(text, allow_english).len() == 0,
{
    let toks = spec_tokenize(text);
    lemma_no_bangla_tokens(text, text.len());
    lemma_output_of_plain_tokens(toks, toks.len(), policy, allow_english);
    assert(toks.take(toks.len() as int) =~= toks);
    law_tokens_rebuild_text(text);
}

proof fn lemma_outputs_agree(
    toks: Seq<(Seq<char>, TokenKind)>,
    n: nat,
    p: NoneTokenPolicy,
    q: NoneTokenPolicy,
    allow_english: bool,
)
    requires
        n <= toks.len(),
        forall|i: int|
            0 <= i < n ==> token_output(#[trigger] toks[i], p, allow_english) == token_output(
                toks[i],
                q,
                allow_english,
            ),
    ensures
        output_prefix(toks, n, p, allow_english) == output_prefix(toks, n, q, allow_english),
    decreases n,
{
    if n > 0 {
        lemma_outputs_agree(toks, (n - 1) as nat, p, q, allow_english);
    }
}

/// `Collect` leaves the same text as `KeepOriginal`, and `DropAndCollect`
/// the same text as `Drop`.
pub proof fn law_collecting_policies_keep_the_text(text: Seq<char>, allow_english: bool)
    ensures
        sentence_output(text, NoneTokenPolicy::Collect, allow_english) == sentence_output(
            text,
            NoneTokenPolicy::KeepOriginal,
            allow_english,
        ),
        sentence_output(text, NoneTokenPolicy::DropAndCollect, allow_english) == sentence_output(
            text,
            NoneTokenPolicy::Drop,
            allow_english,
        ),
{
    let toks = spec_tokenize(text);
    lemma_outputs_agree(
        toks,
        toks.len(),
        NoneTokenPolicy::Collect,
        NoneTokenPolicy::KeepOriginal,
        allow_english,
    );
    lemma_outputs_agree(
        toks,
        toks.len(),
        NoneTokenPolicy::DropAndCollect,
        NoneTokenPolicy::Drop,
        allow_english,
    );
}

proof fn lemma_no_failures_prefix(toks: Seq<(Seq<char>, TokenKind)>, n: nat, allow_english: bool)
    requires
        n <= toks.len(),
        failures_prefix(toks, n, allow_english).len() == 0,
    ensures
        forall|i: int| 0 <= i < n ==> !token_fails(#[trigger] toks[i], allow_english),
    decreases n,
{
    if n > 0 {
        lemma_no_failures_prefix(toks, (n - 1) as nat, allow_english);
    }
}

/// When no Bangla word of the text fails, every policy gives the same text.
pub proof fn law_policies_agree_without_failures(
    text: Seq<char>,
    p: NoneTokenPolicy,
    q: NoneTokenPolicy,
    allow_english: bool,
)
    requires
        sentence_failures(text, allow_english).len() == 0,
    ensures
        sentence_output(text, p, allow_english) == sentence_output(text, q, allow_english),
{
    let toks = spec_tokenize(text);
    lemma_no_failures_prefix(toks, toks.len(), allow_english);
    lemma_outputs_agree(toks, toks.len(), p, q, allow_english);
}

} // verus!
