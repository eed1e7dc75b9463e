# flexiglob

A wildcard query engine: patterns such as `REVERSE(SORT(.text*))` are parsed
into an operator pipeline around a compiled wildcard, and run against
caller-supplied candidates.  The library is written in Verus.  Every
function in `src/` carries a contract that Verus proves, except five small
wrappers around std whose contracts are trusted: `char::is_alphabetic` and
`char::is_alphanumeric` (with the two spec functions that name their
results), `String::push` (in `text.rs`), and, in `globber.rs`, the boxing of
an operator into a trait object and `Rc::clone`.

- `src/text.rs` — characters, UTF-8 byte offsets, whitespace trimming.
- `src/token.rs` — compiled wildcard tokens and their model.
- `src/compile.rs` — the wildcard grammar (`compile_pattern`).
- `src/parser.rs` — the operator layer (`ParsedPattern::parse`).
- `src/matcher.rs` — the glob semantics and the NFA matcher (`wildcard_match`).
- `src/operator.rs` — the operator trait, `ReverseOp`, `FnOperator`.  An
  operator may describe what `apply` does through the spec function
  `transforms`; one that does not admits any result.
- `src/globber.rs` — the registry, compilation, evaluation and scan hints.
- `src/paths.rs` — path helpers for filesystem traversal.
- `src/shift.rs` — a pattern parses the same wherever it stands in its input.
- `src/render.rs` — a parsed pattern written back as text parses to itself.
- `src/laws.rs` — properties of the language, the grammar and the operators.
- `app/lib.rs` — filesystem traversal (`run_fs`) and a fuzzing entry point.
