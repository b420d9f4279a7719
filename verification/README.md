# skript_parser

A verified library for the lossless front end of a Skript parser.

- `src/text.rs`, `src/expansion.rs`, `src/source_map.rs`: UTF-8 ranges, the
  macro-expansion graph, and source maps from generated text back to the
  original document.
- `src/raw_tree.rs`, `src/tree_edit.rs`: the indentation tree of a document and
  validated edits of it.
- `src/pattern_syntax.rs`, `src/pattern_match.rs`: registration patterns, their
  static analyses, literal matching and the tail prefixes that bound where a
  dynamic element may end.
- `src/matcher.rs`, `src/match_engine.rs`, `src/candidates.rs`: the matcher.
  Regex elements run through `fancy-regex` behind two trusted calls; typed
  elements take their answers from a table the caller supplies; candidates run
  in rank order under one shared budget.
- `src/function*.rs`, `src/expression*.rs`, `src/arithmetic.rs`: Function call
  syntax, the transactional Function registry, expression lists and operators.
- `src/failure*.rs`: ranking of competing parse failures.

`app/` holds what the library leaves to its host: error types with
`thiserror` derives and a process-wide transaction counter.
