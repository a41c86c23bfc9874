//! A sealable Merkle trie over bit paths, with membership proofs, and the
//! tagged encoding of the consensus states that are committed to it.

pub mod bits;
pub mod canonical;
pub mod consensus_state;
pub mod hash;
pub mod nodes;
pub mod proofs;
pub mod trie;

pub use trie::{Error, Trie};
