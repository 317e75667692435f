# memory_system_v2

A memory in four layers for agents, verified with Verus.

- **L0**, working memory: a cache in the process that drops what was used
  longest ago (`src/l0.rs`).
- **L1**, short-term memory: rows, their numbering and their time to live
  (`src/l1.rs`).
- **L2**, semantic memory: a keyword index with BM25 statistics, embedding
  vectors, the fusion of the two scores, and a breaker for the embedding service
  (`src/l2.rs`, `src/bm25.rs`, `src/fusion.rs`, `src/embed.rs`).
- **L3**, archive: daily Markdown files (`src/l3.rs`, `src/roundtrip.rs`).

`src/system.rs` puts the layers together. `src/wal.rs` is a write-ahead log,
`src/notes.rs`, `src/migrate.rs` and `src/openclaw.rs` read and write the files of
a workspace, and `src/api.rs` holds the rules of the HTTP interface.

Every function of `src/` states what it returns and is proved to do so. Calls
into `chrono`, `uuid`, `dashmap` and the parts of `std` that the verifier does not
know stand behind small functions in `src/clock.rs`, `src/ident.rs`,
`src/table.rs`, `src/common/encoding.rs` and `src/text.rs`, whose contracts are
trusted.

`app/` is the program around the library: the command line, the HTTP server, the
database, the files, the embedding service and the two formulas in floating
point. Scores are whole numbers in the library, with 10^12 for one. Points in
time are seconds and nanoseconds; the table of the short-term layer keeps
milliseconds.
