# rforsp

The front end of a compiler for rForsp, a small Forth and Lisp hybrid:
sources, lexer, parser, printer, binding resolution and diagnostics, written
in Verus and proved against their contracts.

- `src/source` holds source text, byte spans, line and column positions and
  the append-only source table.
- `src/lexer` states the lexical grammar as specification functions and
  proves the tokeniser produces exactly what they describe, with laws about
  byte order marks, line endings and lexing a suffix.
- `src/parser` states parsing as a pushdown machine over shapes, proves the
  parser and the printer against it, and proves that printing a clean parse
  is a fixpoint (`parser/reprint.rs`).
- `src/resolution` resolves bindings to slots and captures over a walk
  model, with laws about scopes and shadowing.
- `src/diagnostics` classifies, orders and renders diagnostics.
- `src/drivers.rs` runs the phases, gating after each one.
- `app/` is the command line program: it reads files and prints what the
  library returns.
- `tests/` holds the tests.
