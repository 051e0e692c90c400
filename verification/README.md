# pil_analyzer

The analyzer of PIL, the polynomial identity language. It takes the statements of
a parsed file and produces the constants, the definitions, the public declarations
and the identities of the program, with absolute names and an id for every
column. It also inlines intermediate polynomials into the identities.

- `src/parsed.rs` is the syntax tree that goes in, `src/analyzed.rs` the program
  that comes out, `src/error.rs` the rules that a program can break.
- `src/pil_analyzer.rs` holds the state of the analyzer. Below it,
  `statements.rs` says what each statement does to that state, `handlers.rs` and
  `files.rs` do it, `expressions.rs`, `arrays.rs` and `evaluation.rs` deal with
  the parts of statements, and `resolution.rs` assigns ids at the end.
- `src/inliner.rs` inlines intermediate polynomials; `inliner/cache.rs` says what
  its cache does, and `inliner/circles.rs` finds out whether inlining is possible.
- `src/number.rs`, `src/lines.rs` and `src/name_map.rs` are field elements, line
  numbers and maps by name.
- `src/laws.rs` and the modules below it state and prove what holds of all this
  together.
- `app/` reads files from disk. The parser and the macro expander of the language
  are handed to it.
