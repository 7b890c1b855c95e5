# pointdexter

A hierarchical key/value registry of named points, verified with Verus.

Each point holds a multi-valued store of string entries, kept in key order
(by key, then by insertion). Points can be attached under one another to form
trees; attaching a point under itself or under one of its descendants is
refused. A key can be searched within a subtree or across all registered
points, and a point with its subtree can be purged.

## Layout

- `src/` — the verified library.
  - `point.rs`: the registry (`PointDexter`), point handles (`Point`) and every
    operation, each with its contract.
  - `model.rs`: the mathematical model the contracts speak of (`DexterView`,
    `NodeView`) and what each operation makes of it.
  - `laws.rs`: properties proved across operations (idempotent `point`,
    reads after writes and over whole write histories, `entries` agreeing
    with `get`, acyclicity, agreement of parent links and child lists,
    subtree purging, the roots' subtrees splitting the registry, the scoped
    search covering exactly the subtree).
  - `order.rs`: the order of entries (key text by code point, then sequence).
  - `skip.rs`, `dash.rs`: the trusted declarations through which the library
    uses `crossbeam_skiplist::SkipMap` (entry stores) and `dashmap::DashMap`
    (the name registry and child lists).
- `tests/` — tests of the library.
- `app/` — the process-wide registry behind a `parking_lot::RwLock`, the
  handle API on top of it, and the C interface (`pd_*` functions).
