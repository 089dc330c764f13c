# nailhammer

NailHammer turns a `.nh` grammar — tokens, rules with labelled
alternatives, an operator table, reserved words — into a pest grammar,
handler stubs and a small register VM program format. This crate is the
library, written in Verus: each function states what it computes in
`requires`/`ensures`, and Verus proves it.

## Layout

- `src/syntax/` — sources and spans, diagnostics, the lexer (`lex`, stated
  exactly by `lex_spec`), the parser, rendering and import merging.
- `src/operators/` — operator roles, presets, precedence blocks and the
  resolved table, and its `explain` listing.
- `src/lower/` — name resolution (`resolve`), node shapes, pest syntax
  helpers, name allocation, and lowering to pest text.
- `src/codegen/` — generated AST, handler stubs, drift checks, VM operator
  tables.
- `src/runtime/` — the runtime pieces generated code links against:
  contexts, diagnostics, precedence climbing (`ops::build`).
- `src/vm/` — instructions, the wire format and the emitter.
- `tests/` — ordinary Rust tests of the library.
- `app/` — what Verus does not check: loading files, the atomic store, and the
  floating-point interpreter.

Laws that hold across functions are public proof functions, for example
`lower::resolve::lemma_emitted_names_distinct`,
`lower::pest_syntax::grouping_twice_changes_nothing`,
`operators::roles::builtin_roles_are_known` and
`vm::wire::programs_read_back`.
