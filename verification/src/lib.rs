//! Merkle trees over Keccak-256 digests, with inclusion proofs.
//!
//! A tree is built once from a list of items. Every item is hashed, the
//! digests are sorted, and each layer above is obtained by hashing the
//! nodes of the layer below in pairs, each pair in ascending order. The
//! tree therefore depends on the items only, never on the order in which
//! they were supplied.
pub mod digest;
pub mod hash;
pub mod index;
pub mod layers;
pub mod sort;
pub mod theorems;
pub mod tree;

pub use crate::digest::{digest_eq, digest_le};
pub use crate::hash::{hash_pair, keccak256};
pub use crate::sort::sort_digests;
pub use crate::tree::{MerkleError, MerkleTree};
