# CSS tokenization, verified

Splits CSS text into tokens following the tokenization states of CSS Syntax
Level 3, with every state proved against a mathematical model.

- `src/spec.rs` — the model: one spec function per tokenization state, over
  the preprocessed input as a sequence of characters. `tokenization(input,
  flag)` gives the tokens and the parse errors.
- `src/lexer.rs` — the executable state machine and `tokenize`, each function
  proved to do what its state in the model says.
- `src/preprocess.rs` — carriage returns and NUL are replaced before
  tokenization; preprocessing is idempotent and never lengthens the text.
- `src/laws.rs` — properties of tokenization as a whole: no more tokens than
  characters (and none only for empty input), at most one parse error per
  token, no parse error without a backslash, quote, `/` or `(`, well-formed
  token values, no two whitespace tokens in a row.
- `src/chars.rs`, `src/token.rs`, `src/text.rs` — character classes, the
  token type, and building strings.
