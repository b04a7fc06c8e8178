# crdts

State-based conflict-free replicated data types with machine-checked contracts:

- `src/crdt/g_counter.rs`: grow-only counter (pointwise-maximum merge).
- `src/crdt/lww_set.rs`: last-writer-wins set over hybrid-logical-clock stamps, with an
  addition or removal bias for ties.
- `src/crdt/or_set.rs`: observed-remove set with unique addition tags.
- `src/crdt/rga.rs`: replicated growable array (tree of nodes, siblings listed latest
  identifier first, tombstones for removals).
- `src/crdt/enums.rs`: the four kinds behind one type, as they travel between replicas.
- `src/store.rs`: the registry of named variables that a client or a server keeps.
- `src/ids.rs`: the clock stamps and random identifiers the replicas draw.

Each data type has a mathematical model (its `View`), and its operations are specified
over that model. The merge laws (commutativity, associativity, idempotence, convergence
after an exchange, and the merge being the least upper bound) are stated and proved as
proof functions beside each type.

`app/` holds the networked client and server (gRPC streams, serialization), which call
the library for every decision about state.
