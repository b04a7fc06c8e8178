//! State-based conflict-free replicated data types (CRDTs) with machine-checked
//! contracts: a grow-only counter, a last-writer-wins set, an observed-remove set
//! and a replicated growable array, together with the replica registry that a
//! client or a server keeps of named variables.
pub mod crdt;
pub mod ids;
pub mod store;
