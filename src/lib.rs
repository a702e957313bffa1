//! A concurrent Merkle roll: a fixed-depth, append-and-update Merkle tree
//! that accepts updates made against recent but stale proofs, by keeping a
//! ring of the latest change-logs and fast-forwarding proofs through it.
//!
//! - `node`: 32-byte nodes, the keccak256 pair hash and path recomputation.
//! - `roll`: the engine: initialize, append, set and prove leaves, subtree appends.
//! - `layout`: the engine's packed little-endian byte layout.
//! - `reference`: the full Merkle tree that a roll stands for.
//! - `laws`: what holds across operations, proved over the contracts.
//! - `leaf_schema`, `metadata`: the leaf hashing of assets and their metadata.

pub mod node;
pub mod roll;
pub mod layout;
pub mod reference;
pub mod laws;
pub mod leaf_schema;
pub mod metadata;
