# lox

Scanning, parsing and scoped variable storage for the Lox language from
*Crafting Interpreters*, written in Verus and proved against their
specifications.

## Layout

- `src/lexer.rs` — the scanner. Its meaning is the spec function
  `scan_token`/`scan_all`; `Lexer` and `tokenize` are proved to follow it.
  Laws: whitespace and comments are skipped, and the tokens from a position
  depend only on the text from there on.
- `src/syntax.rs` — the grammar as spec functions over token sequences, and
  the mathematical form of syntax trees (`SpecExpr`, `SpecStmt`, `SpecDecl`).
  A `for` loop stands for `{ init; while (cond) { body; incr; } }`.
- `src/parser.rs` — the recursive-descent parser. Each parsing function is
  proved to give, seen through the view functions, what the grammar gives.
- `src/value.rs` — runtime values (generic over the number type), truthiness
  and number conversion.
- `src/environment.rs` — nested scopes of variables, with laws on reading,
  declaring, updating and opening child scopes.
- `app/` — the command-line interpreter: file, stdin and REPL handling, and
  the evaluator, which computes with floating-point numbers and is therefore
  not verified.
- `tests/` — tests of the library on concrete inputs.
