# koto_parser

A parser for the Koto language, written and proved in Verus.

- `src/lexer.rs` cuts a source into tokens, with the lexer of the `koto_lexer` crate. That lexer has
  no token for a backslash at the end of a line, behind which the line goes on; `src/lexer.rs` adds
  it.
- `src/grammar.rs` says what a script is read as, one function for each form of the language;
  `src/script.rs` has what these functions have in common.
- `src/parser.rs` has the parser's state, its invariant and its steps. The forms of the language
  are read by the files around it, one for each group of forms; every function there is proved to
  give the outcome that the grammar gives, the error and its place included.
- `src/tree.rs` says what holds of every tree; `src/laws.rs`, `src/grouping.rs`, `src/literals.rs`
  and `src/lines.rs` what holds of tokens, constants, operators, lists and lines; `src/scopes.rs`
  and the files below it what reading does to the scopes.
- `src/koto.rs` makes the `koto` module that a script finds at run time.
- `app/` is the entry point for programs. Numbers are doubles there and bits in the library.
