# rig_memory_policy

Backend-agnostic memory-policy primitives for memory-store adapters, written
in Verus: every function in `src/` carries a contract that Verus proves,
except the seven small `external_body` wrappers around BLAKE3 and the
standard library (`BTreeMap`, `char::is_alphanumeric`, `str::to_lowercase`,
`String::push`), whose contracts are believed, not proved.

- `src/` — the verified library: content-hash dedup keys, the dedup set and
  its snapshots, SimHash fingerprints, the metadata envelope and its map form,
  scope normalization and matching, retention rules, policies and batch
  evaluation, exact-hash reconciliation, and the lexical in-memory store.
  The laws of the library (round trips, orderings, partitions) are public
  proof functions beside the code they speak of.
- `tests/` — executable tests of the library.
- `app/` — the host-facing layer that Verus does not check: `serde` and
  `thiserror` forms of the library types, floating-point salience and rank
  fusion, the async store traits, and a shared async front of the store.
