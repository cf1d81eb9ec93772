//! A binary hash tree ("Merkle tree") over an ordered collection of byte
//! records: build once, then query the root digest and derive inclusion
//! proofs that a record belongs to a tree with a given root.

use vstd::prelude::*;

mod codec;
mod digest;
mod inclusion;
mod transaction;
mod tree;

pub use codec::encode_entries;
pub use codec::encode_entry;
pub use codec::encode_proof;
pub use codec::is_encoding;
pub use codec::wire_sized;
pub use digest::LEAF_TAG;
pub use digest::NODE_TAG;
pub use digest::combine;
pub use digest::combine_spec;
pub use digest::digest_eq;
pub use digest::hash_leaf;
pub use digest::hash_leaf_spec;
pub use digest::sha256_of;
pub use inclusion::MerkleProof;
pub use inclusion::ProofEntry;
pub use inclusion::entry_at;
pub use inclusion::fold_chain;
pub use inclusion::lemma_fold_push;
pub use inclusion::lemma_prescribed_proof_verifies;
pub use inclusion::spec_proof_entries;
pub use inclusion::verify_proof;
pub use transaction::Transaction;
pub use transaction::Transactions;
pub use transaction::encode_record;
pub use transaction::le_bytes;
pub use tree::MerkleNode;
pub use tree::MerkleTree;
pub use tree::lemma_build_deterministic;
pub use tree::lemma_chain_height;
pub use tree::lemma_single_leaf;
pub use tree::next_layer;
pub use tree::pad_layer;
pub use tree::root_of;
pub use tree::spec_height;
pub use tree::tree_shape_ok;

verus! {

/// Why a tree operation was refused: a build over no records at all, or a
/// leaf or layer index outside the tree.
#[derive(Clone, Copy, Debug, PartialEq, Eq)]
pub enum MerkleError {
    EmptyInputError,
    IndexOutOfRange,
}

} // verus!
