//! A Merkle tree over a sequence of bytes, with inclusion proofs.

pub mod hash;
pub mod node;
pub mod path;
pub mod tamper;
pub mod theorems;
pub mod tree;

pub use node::Node;
pub use path::verify;
pub use tree::{EmptyInputError, MerkleTree};
