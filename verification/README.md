# inis

A small INI parser whose behaviour is specified and proved with Verus.

- `src/text.rs`: character-level pieces (Unicode whitespace, searching, trimming, string order).
- `src/parser.rs`: the document model (`KeyValue`, `Section`, `Ini`), its abstract views, the
  line grammar as spec functions, and `parse`, proved to produce exactly the document the
  grammar describes or the error naming the first invalid line.
- `src/laws.rs`: properties relating the operations (lookups over merged sections, the
  root fallback of `Ini::get`, incremental reading, comments, well-formedness).
- `app/lib.rs`: serde deserialisation (`from_str`) and an error type with `Display`.
