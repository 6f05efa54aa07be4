//! An append-only Merkle accumulator: a forest of perfect binary subtrees
//! ("frozen peaks") that commits to a growing log of pre-hashed leaves and
//! produces compact inclusion proofs for any historical leaf.

pub mod accounts;
pub mod accumulator;
pub mod chain;
pub mod equivalence;
pub mod error;
pub mod hash_value;
pub mod inclusion_proof;
pub mod laws;
pub mod model;
pub mod naive;
pub mod node;
pub mod node_index;
pub mod store;

pub use accumulator::{AccumulatorInfo, LeafCount, MerkleAccumulator, NodeCount};
pub use hash_value::HashValue;
