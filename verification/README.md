# bn-normalize-rs

Bangla Unicode text normalization, written in Verus and proved against its
specification.

- `src/langs.rs` — the character classes of the Bangla script, the nukta
  map and the table of accepted conjuncts.
- `src/text.rs` — strings as character sequences, the decomposition buffer
  of optional characters, and left-to-right replacement.
- `src/word/` — word normalization.  `ops.rs` holds each operation with a
  spec function that states it; `mod.rs` composes them into
  `spec_normalize_word` and holds the options, the legacy map and the
  normalization context; `laws.rs` holds properties proved of them.
- `src/sentence/` — the tokenizer (whose tokens rebuild the input exactly)
  and sentence normalization with its policies for words that normalize to
  `None`.
- `app/` — the Python bindings (PyO3).
- `tests/` — the test suite.
