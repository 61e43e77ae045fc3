# vector_clock_rs

Vector clocks and causality tracking — Lamport timestamps, vector clocks,
conflict detection, causal ordering and clock merging — written in Verus, with
every function proved against its contract.

- `src/lamport.rs` — Lamport clocks (`increment`, `send`, `receive`, `compare`).
- `src/vector.rs` — vector clocks over a `HashMap<u64, u64>`, viewed as a
  `Map<u64, u64>`; the spec functions `clock_value`, `precedes`, `concurrent`,
  `merge_maps`, and the laws of merging (commutative, associative, idempotent,
  least upper bound).
- `src/ordering.rs` — `compare_clocks`, `happens_before`, `are_concurrent`,
  `causal_sort` (a topological sort, smallest ready index first), and the laws of happens-before
  (irreflexive, asymmetric, transitive).
- `src/conflict.rs` — `ConflictDetector`.
- `src/merge.rs` — `merge_clocks`, `merge_with_dominance`, `merge_all`,
  `clock_difference`.
- `tests/` — the scenarios, run against the compiled library.
