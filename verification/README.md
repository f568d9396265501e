# wiki

The core of an Obsidian-vault knowledge base, written in Verus: every
function under `src/` carries a contract that Verus proves.

- `src/` — the library. Text and path utilities (`text`, `slashpath`,
  `unicode`), the code index (`code`: the Rust and Python splitters, the
  rendered markdown, body listings, call trees, index validation, the source
  watcher's decisions), the per-root cache (`cache`, `keyed`), the vault store's
  naming and parsing rules (`store`, `sanitize`), configuration (`config`,
  `settings`), search helpers (`smart`, `walk`, `pool`), the learn passes'
  decisions, step by step (`learn`), the hooks and the command line (`hooks`, `cli`), and the
  tool handlers' decisions (`tools`, `docs`).
- `app/` — the `wiki` command: configuration loading, file I/O (the
  store, the ingest log, linking a document) and the commands that run on
  the library.
- `tests/` — tests of the library on concrete values.

Calls into `regex` and `glob` go through a few trusted wrappers in
`src/pattern.rs` (escaping literal text for a pattern is written and proved
there); `String::from_utf8_lossy`, lowercasing and `{:?}`
formatting have wrappers in `src/text.rs` and `src/unicode.rs`; reading an
RFC 3339 time through `chrono` has one in `src/learn/qa.rs`.
