//! A dynamic hash-based accumulator that represents a set of values as a
//! forest of perfect binary Merkle trees (a "Utreexo").
//!
//! [`MemoryForest`] keeps the full trees and can produce inclusion proofs;
//! [`MemoryAccumulator`] keeps only the per-height root hashes and can verify
//! and apply such proofs. Both mutate their roots in lock-step when driven by
//! the same operations.

pub mod accumulator;
pub mod forest;
pub mod hash;
pub mod path;
pub mod proofs;
pub mod prover;
pub mod tree;
pub mod utreexo;

pub use accumulator::{
    hash_options_of, roots_accept, roots_after_delete, roots_after_insert, MemoryAccumulator,
};
pub use forest::{
    forest_ok, roots_of, slots_accept, slots_after_delete, slots_after_insert, slots_contain,
    slots_content, MemoryForest,
};
pub use hash::{blake3_of, hash_intermediate, hash_leaf, leaf_hash_of, node_hash_of};
pub use path::{path_bits, Direction, Path};
pub use proofs::{fold_root, proof_verifies, Proof};
pub use prover::Prover;
pub use tree::{merge, Tree};
pub use utreexo::Utreexo;
