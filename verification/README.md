# jc_computation

A kernel for replicated computation in which state is never stored: it is
derived, on demand, from a causal history of content-addressed events.

```text
σ(nf(H))        state = meaning of the normal form of the history
merge(A, B)     = nf(A ∪ B)
```

The library is written in Verus. Verus proves every function in `src/`
against its contract, except a few small trusted wrappers, marked
`#[verifier::external_body]`, that call SHA-256, hex encoding, serde_json and
the system clock; their contracts are believed, not proved.

## Layout

- `src/ids.rs` — event identifiers and sorted identifier sets.
- `src/idmap.rs` — maps keyed by identifier, in key order.
- `src/digest.rs`, `src/json.rs` — SHA-256 / hex and JSON, behind small
  trusted wrappers whose contracts name what the outside crates return.
- `src/event.rs` — events, payloads, and content addressing.
- `src/dag.rs` — the causal DAG: insertion, removal, tombstone compaction,
  ancestors, frontier, topological order.
- `src/cone.rs` — Merkle-style cone hashes, full and incremental.
- `src/nf.rs` — the normal-form operator (no-op elimination, cone merging,
  chain contraction).
- `src/kernel.rs` — the kernel and the semantic functors (key-value, log,
  counter).
- `src/merge.rs` — merging histories and replicated nodes; the merge laws.
- `src/persistence.rs` — event stores, snapshots, and the incremental kernel.
- `src/network.rs` — the anti-entropy sync protocol as state machines.
- `tests/` — tests run against the compiled library.
- `app/` — the command-line program: demos, file and TCP I/O, JSON wire
  formats.
