# lib — a verified front end for a small scripting language

The library turns source text into tokens (`lexer`), tokens into statements
(`parser`, which interns identifiers with an `agent`), and runs bytecode that
loads constants onto a stack (`interpreter`). Each of these is stated as a
mathematical function over sequences (`scan`, `token_stream`,
`statement_spec`, `run`), and the executable code is proved by Verus to
compute exactly that.

Layout:

- `src/text.rs` — decimal numbers, `i64` parsing, which texts `f64` parsing
  accepts, strings from characters.
- `src/token.rs` — token kinds, positions, tokens.
- `src/lexer.rs` — the lexer and its laws (progress, when input ends, token
  text and positions over a whole run, texts against the input).
- `src/agent.rs` — the string interner and its laws.
- `src/ast.rs` — the syntax tree and its view.
- `src/parser.rs` — the grammar and the recursive-descent parser.
- `src/positions.rs` — every statement, nested ones included, sits at its
  first token.
- `src/interpreter.rs` — the bytecode evaluator.
- `app/` — iterators over tokens and statements, the stops the parser and
  interpreter make on input they have no answer for, and floating-point
  values.
