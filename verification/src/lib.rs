//! A binary hash tree (Merkle tree) over an ordered list of byte blobs.
//!
//! The tree supports three operations: computing a single SHA-256
//! commitment over all blobs (the root hash), generating a compact
//! membership proof for any single blob, and verifying such a proof
//! against a root digest without access to the tree.

pub mod digest;
pub mod laws;
pub mod model;
pub mod tree;

pub use tree::MerkleTree;
