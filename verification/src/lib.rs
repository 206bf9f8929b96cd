//! A sparse commitment accumulator: a three-tier append-only hash tree that
//! witnesses up to 65,536 epochs, each of up to 65,536 blocks, each of up to
//! 65,536 commitments, with selective forgetting that never changes any hash.

use vstd::prelude::*;

pub mod block;
pub mod epoch;
pub mod eternity;
mod hash;
mod index_map;
pub mod proofs;
pub mod tier;
pub mod view;

pub use hash::{
    combine_hashes, fold_hashes, lemma_pack_fields, lemma_pos_fields_bounded, lemma_unpack_fields,
    mix, pack, pos_block, pos_block_exec, pos_epoch, pos_epoch_exec, pos_offset, pos_offset_exec,
    spec_hash_commitment, spec_mix, spec_pack, Commitment, EMPTY_SEED, LEAF_SEED, POSITION_LIMIT,
    TIER_CAPACITY,
};

verus! {

/// A fixed-width digest summarizing the contents of a subtree.
///
/// The digest of a subtree depends only on the hashes its children contribute,
/// never on whether a child is materialized or elided, which is what makes
/// forgetting root-transparent.
#[derive(Debug, Clone, Copy, PartialEq, Eq, Structural)]
pub struct Hash(pub u64);

impl Hash {
    /// The leaf-hashing function: the digest a commitment contributes to the
    /// block containing it.
    pub fn of(commitment: Commitment) -> (h: Hash)
        ensures
            h.0 == spec_hash_commitment(commitment.0),
    {
        Hash(mix(commitment.0, LEAF_SEED))
    }
}

/// Whether a newly inserted commitment must remain witnessable (`Keep`) or
/// may be immediately reduced to its bare hash contribution (`Forget`).
#[derive(Debug, Clone, Copy, PartialEq, Eq, Structural)]
pub enum Witness {
    /// Retain the authentication data for the new leaf.
    Keep,
    /// Store only the hash contribution of the new leaf.
    Forget,
}

/// A subtree that is either fully materialized (witnessable) or elided to its
/// root hash alone (not witnessable). Eliding never changes the hash the
/// subtree contributes to its parent.
#[derive(Debug, Clone, Copy, PartialEq, Eq)]
pub enum Insert<T> {
    /// The subtree is materialized.
    Keep(T),
    /// Only the root hash of the subtree is retained.
    Hash(Hash),
}

} // verus!
