//! Multi-message commitment scheme built on a Merkle tree.
//!
//! A single 32-byte digest commits to a set of (protocol id, message) pairs.
//! Any subset of the bindings can later be revealed selectively, partial
//! proofs about the same commitment can be merged, and a verifier holding a
//! single revealed leaf plus its sibling path can recompute the root digest.

pub mod block;

pub mod commit;
pub mod tree;
pub mod hashes;

pub use block::{LeafNotKnown, MerkleBlock, MerkleProof, TreeNode, UnrelatedProof};
pub use commit::{CommitVerify, CommitmentProtocol, PrehashedProtocol, TryCommitVerify};
pub use hashes::{Lnpbp4Tag, Message, MerkleNode, MultiCommitment, ProtocolId};
pub use tree::{Error, MerkleTree, MessageMap, MultiSource};

use vstd::prelude::*;

verus! {

/// Maximal depth of the commitment tree.
pub const MAX_TREE_DEPTH: u8 = 16;

} // verus!
