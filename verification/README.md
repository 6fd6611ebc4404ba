# slopcop

A Python linter that flags anti-patterns common in generated code. The
library in `src/` is written in Verus: every function carries a contract
that the verifier proves, and the laws of the library stand beside them as
proof functions.

- `config`: `[tool.slopcop]` settings, exclusions per path, the upward
  search for `pyproject.toml` (one decision step at a time).
- `glob`: the path patterns of per-file ignores (`*`, `**/`, `**`, `?`).
- `version`: the minimum Python version of `requires-python`.
- `parse`: parsing Python with tree-sitter into syntax trees.
- `syntax`: syntax trees as the rules read them.
- `rules`: the rule interface, the rules `no-redundant-none-check` and
  `no-str-empty-default`, the rule set and its help texts.
- `suppress`: inline `# slopcop: ignore` and `# slopcop: ignore[ids]`.
- `engine`: running the rule set over a parsed source.
- `report`: listing order, grouping by rule, counts, exit status, text
  wrapping.
- `text`: splitting, trimming and comparing strings.

`app/main.rs` is the command-line program: arguments, file discovery,
reading files and `pyproject.toml`, and printing.
