# wegdort

A small in-memory vector store with exact top-k search and a versioned binary
snapshot format, written in Verus.

## Layout

- `src/` — the verified library.
  - `storage.rs`: ids and row-major vectors with an id-to-row index;
    insert, upsert, swap-remove, lookup.
  - `store.rs`: the user-facing `Store` (fixed dimension and metric, every
    stored vector valid) and the laws that read back a write.
  - `metrics.rs`: metrics, vector validation and the score order (IEEE-754
    total order on bit patterns).
  - `search.rs`: top-k ranking, search over a store or an owned snapshot,
    and determinism of the result.
  - `persistence.rs`: the snapshot format as spec functions, the encoder and
    decoder, and the round-trip law.
  - `text.rs`: decimal text of numbers, for ids and error messages.
  - `index.rs`: the demo's flat-index ranking (stable, smaller or larger first).
  - `memory.rs`, `vector.rs`, `file_persistence.rs`: the hash-map storage
    and helper types of the demo program.
- `tests/` — tests run against the compiled library.
- `app/` — the demo program and everything that needs floating point or
  files: score computation, the demo's distance functions, saving and
  loading snapshot files, and `Display` for errors (through the library's
  `Error::to_string`).

Vector values and scores are single-precision floats carried as their bit
patterns (`f32::to_bits`). The library never does float arithmetic: callers
compute the score of a query against every row and pass those scores to
`Store::search`, which validates the query and ranks the rows.
