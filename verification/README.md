# snail_core

The engine of SnailDB: a small SQL database over a redb key-value file,
written in Verus so that its lexer, parser, catalog and executor carry
machine-checked contracts.

## Layout

- `src/sql/` — tokens, the lexer (`Lexer::tokenize`), the AST and the
  recursive-descent parser (`Parser::parse`). Both are specified by spec
  functions over `Seq<char>` and token sequences.
- `src/storage.rs` — `Storage`, a byte-keyed table in a redb file. Its
  contents are modelled as a `Map<Seq<u8>, Seq<u8>>`; prefix scans return
  the keys in byte order.
- `src/json.rs` — the JSON values that rows and schemas are stored as, and
  the thin layer over serde_json that reads and writes them.
- `src/catalog.rs` — table schemas, kept under `catalog:` keys.
- `src/executor/` — `Engine`, which runs statements against storage:
  row keys and counters (`mod.rs`), value coercion and comparison
  (`values.rs`), row building (`rows.rs`), SELECT with joins, filters,
  ordering and limits (`select.rs`), and the laws that tie the operations
  together (`properties.rs`).
- `src/text.rs` — string and decimal helpers shared by the above.
- `app/` — the Python binding (pyo3) and the error types with `Display`.
- `tests/` — scenario tests for each module.
