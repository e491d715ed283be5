# annotation_core

Parsing of triple-dash annotation comments (`<!--- n: __ | body --->`) in
Markdown documents. Its functions are proved against their contracts in
Verus, apart from four small trusted wrappers around outside crates and std.

## Layout

- `src/text.rs`: character-level helpers (whitespace, searching, trimming,
  UTF-16 lengths) and their specifications.
- `src/types.rs`: annotation types, certainty marks, scopes and their
  spellings; laws on scope spellings.
- `src/scanner.rs`: code fences and comment scanning with UTF-16 offsets.
- `src/id.rs`, `src/marks.rs`, `src/date.rs`: leading `[id]`, mark codes
  (built-in and from `marks.toml`), `@date` recognition.
- `src/block.rs`, `src/compact.rs`, `src/parser.rs`: the two annotation forms
  and document parsing.
- `src/migrate.rs`, `src/insertion.rs`: conversion of legacy `<!-- -->`
  annotations, and the proof that running it twice changes nothing more.
- `src/scope_resolver.rs`: the text range a scope refers to.
- `app/`: the `migrate` command-line tool and the functions the editor
  plugin calls through WebAssembly (JSON in and out, sentence splitting).

The library reaches the `toml` crate (mark definitions) and the `regex`
crate (decimal digits in dates) through small trusted wrappers whose
contracts are stated next to them.
