//! Merkle trees over fixed-width byte elements, with pluggable backing
//! stores, inclusion proofs, and compaction into a level cache from which
//! proofs are rebuilt through partial trees.
//!
//! - `element`: the fixed-width values a tree holds, seen as bytes.
//! - `hash`: the hash algorithm a tree is built with, and a XOR digest.
//! - `store`: positional storage of elements; `vec_store` and
//!   `mmap_store` hold it in a vector or an anonymous memory map.
//! - `model`: the tree as a mathematical object (padded levels, proof
//!   siblings, folding a proof up), with the lemmas about it.
//! - `merkle`: building a tree, reading it, proofs, compaction and
//!   partial-tree proofs, each stated against the model.
//! - `inclusion`: inclusion proofs and their validation.
//! - `sizes`: powers of two, node counts and level positions.

pub mod element;
pub mod error;
pub mod hash;
pub mod inclusion;
pub mod merkle;
pub mod mmap_store;
pub mod model;
mod par;
pub mod sizes;
pub mod store;
pub mod vec_store;

pub use element::Element;
pub use error::MerkleError;
pub use hash::{Algorithm, Xor128};
pub use inclusion::Proof;
pub use merkle::{MerkleTree, ProofAndTree};
pub use mmap_store::MmapStore;
pub use store::Store;
pub use vec_store::VecStore;
