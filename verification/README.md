# cdf — Cognitive Data Fabric core, verified

A Verus library crate holding the logic of the Cognitive Data Fabric: the
parts that decide and compute, each with a contract proved by Verus.

## Layout

- `src/` — the verified library.
  - `lib.rs`: identifiers (`FabricId`), content hashes, shared enums.
  - `error.rs`: the unified error type and its exact messages.
  - `temporal.rs`, `temporal_index.rs`: bitemporal timestamps, bounds and
    the time-slice index.
  - `rbac.rs`, `acl.rs`, `principal.rs`, `jwt.rs`: role hierarchy, access
    control entries and permission summaries, principals and policy rules,
    token lifetimes and refresh.
  - `schema.rs`, `data.rs`, `vector.rs`, `prob.rs`: table schemas and the
    data-service vocabulary.
  - `graph.rs`, `traversal.rs`: the CSR adjacency index, breadth-first
    search and shortest paths.
  - `storage.rs`, `memtable.rs`, `bytes_order.rs`, `engine.rs`, `wal.rs`:
    row keys, the ordered write buffer, reads across buffers, and the
    write-ahead log's record framing.
  - `keyed.rs`: a small string-to-string map.
- `tests/` — tests run against the compiled library.
- `app/` — the storage node program and what the library cannot hold:
  file I/O for the write-ahead log, the async engine service with its
  locks, JWT signing with `jsonwebtoken`, serde forms of library types,
  and the floating-point parts (embeddings, distributions, distance
  metrics, the HNSW index).

Laws of the library stand as public proof functions (`lemma_*`) beside the
functions they relate, or as clauses of the functions' own contracts.
