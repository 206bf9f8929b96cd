//! Inclusion proofs: the authentication path of one leaf, and the
//! independent re-derivation of a root from such a path.
//!
//! A proof carries, for each of the three tiers on the leaf's path, the
//! digests of every sibling slot, in order; verification recombines the leaf
//! digest upward with the same combining function the tiers use, slotting
//! the running digest in at each tier's own coordinate, and compares the
//! outcome with the claimed root.

use vstd::prelude::*;

use crate::view::{lemma_fold_push, lemma_take_succ};
use crate::{
    combine_hashes, fold_hashes, mix, pos_block, pos_epoch, pos_offset, spec_hash_commitment,
    Commitment, EMPTY_SEED, POSITION_LIMIT,
};

verus! {

/// An authentication path for one commitment: its packed position, the
/// commitment itself, and the ordered sibling digests at each tier.
pub struct Proof {
    /// The packed position of the leaf.
    pub position: u64,
    /// The commitment whose inclusion the proof shows.
    pub leaf: Commitment,
    /// Digests of the other leaf slots of the leaf's block, in order.
    pub block_siblings: Vec<crate::Hash>,
    /// Digests of the other block slots of the leaf's epoch, in order.
    pub epoch_siblings: Vec<crate::Hash>,
    /// Digests of the other epoch slots of the top tier, in order.
    pub top_siblings: Vec<crate::Hash>,
}

/// Why verification rejected a proof.
#[derive(Debug, Clone, Copy, PartialEq, Eq, Structural)]
pub enum VerifyError {
    /// The sibling counts or the position do not describe a possible tree.
    Shape,
    /// The path is well formed but recombines to a different root digest.
    Digest,
}

/// The digests a sibling list carries.
pub open spec fn sibling_hashes(v: Seq<crate::Hash>) -> Seq<u64> {
    v.map_values(|h: crate::Hash| h.0)
}

/// Whether the sibling counts and the position describe a possible tree.
pub open spec fn proof_shape_ok(p: Proof) -> bool {
    &&& p.position < POSITION_LIMIT
    &&& p.block_siblings@.len() < 65536
    &&& p.epoch_siblings@.len() < 65536
    &&& p.top_siblings@.len() < 65536
    &&& pos_offset(p.position) <= p.block_siblings@.len()
    &&& pos_block(p.position) <= p.epoch_siblings@.len()
    &&& pos_epoch(p.position) <= p.top_siblings@.len()
}

/// The root digest a proof recombines to: the leaf digest is slotted in
/// among its block siblings, the block digest among its epoch siblings, and
/// the epoch digest among the top-tier siblings.
pub open spec fn recombined_root(p: Proof) -> u64 {
    let lh = spec_hash_commitment(p.leaf.0);
    let bh = combine_hashes(
        sibling_hashes(p.block_siblings@).insert(pos_offset(p.position) as int, lh),
    );
    let eh = combine_hashes(
        sibling_hashes(p.epoch_siblings@).insert(pos_block(p.position) as int, bh),
    );
    combine_hashes(sibling_hashes(p.top_siblings@).insert(pos_epoch(p.position) as int, eh))
}

/// Whether a proof passes verification against a claimed root digest.
pub open spec fn verify_ok(p: Proof, root_hash: u64) -> bool {
    proof_shape_ok(p) && recombined_root(p) == root_hash
}

/// A proof together with the root it was checked against; it certifies
/// nothing beyond that inclusion.
pub struct VerifiedProof {
    inner: Proof,
    root: crate::eternity::Root,
}

impl VerifiedProof {
    /// The underlying proof.
    pub fn inclusion_proof(&self) -> (p: &Proof)
        ensures
            p == self.proof_spec(),
    {
        &self.inner
    }

    /// The root the proof was verified against.
    pub fn verified_root(&self) -> (r: crate::eternity::Root)
        ensures
            r == self.root_spec(),
    {
        self.root
    }

    /// The proof this certificate was made from.
    pub closed spec fn proof_spec(self) -> Proof {
        self.inner
    }

    /// The root this certificate was checked against.
    pub closed spec fn root_spec(self) -> crate::eternity::Root {
        self.root
    }
}

/// Witness correctness: a proof assembled from the structure's own sibling
/// digests at a position holding the kept commitment recombines exactly to
/// the structure's root, so it passes verification against that root.
pub proof fn lemma_witness_correct(v: Seq<crate::view::EpochV>, p: Proof)
    requires
        crate::view::tree_shape_wf(v),
        p.position < POSITION_LIMIT,
        crate::view::leaf_pos_valid(v, p.position),
        crate::view::leaf_at(v, p.position) == crate::view::LeafV::Kept(p.leaf.0),
        sibling_hashes(p.block_siblings@) == v[pos_epoch(p.position) as int]->Kept_0[pos_block(
            p.position,
        ) as int]->Kept_0.map_values(|l: crate::view::LeafV| crate::view::leaf_v_hash(l)).remove(
            pos_offset(p.position) as int,
        ),
        sibling_hashes(p.epoch_siblings@) == v[pos_epoch(p.position) as int]->Kept_0.map_values(
            |x: crate::view::BlockV| crate::view::block_v_hash(x),
        ).remove(pos_block(p.position) as int),
        sibling_hashes(p.top_siblings@) == v.map_values(
            |x: crate::view::EpochV| crate::view::epoch_v_hash(x),
        ).remove(pos_epoch(p.position) as int),
    ensures
        verify_ok(p, crate::view::tree_hash(v)),
{
    let e = pos_epoch(p.position) as int;
    let b = pos_block(p.position) as int;
    let o = pos_offset(p.position) as int;
    let blocks = v[e]->Kept_0;
    let leaves = blocks[b]->Kept_0;
    let lhs = leaves.map_values(|l: crate::view::LeafV| crate::view::leaf_v_hash(l));
    let bhs = blocks.map_values(|x: crate::view::BlockV| crate::view::block_v_hash(x));
    let ths = v.map_values(|x: crate::view::EpochV| crate::view::epoch_v_hash(x));
    assert(lhs[o] == spec_hash_commitment(p.leaf.0));
    crate::view::lemma_remove_insert(lhs, o);
    assert(sibling_hashes(p.block_siblings@).insert(o, spec_hash_commitment(p.leaf.0)) == lhs);
    assert(combine_hashes(lhs) == crate::view::block_hash(leaves));
    assert(bhs[b] == crate::view::block_hash(leaves));
    crate::view::lemma_remove_insert(bhs, b);
    assert(sibling_hashes(p.epoch_siblings@).insert(b, crate::view::block_hash(leaves)) == bhs);
    assert(ths[e] == crate::view::epoch_hash(blocks));
    crate::view::lemma_remove_insert(ths, e);
    assert(sibling_hashes(p.top_siblings@).insert(e, crate::view::epoch_hash(blocks)) == ths);
}

/// Recombine one tier: fold the sibling digests with `own` slotted in at
/// index `k`, and tag with the tier's width.
fn combine_level(siblings: &Vec<crate::Hash>, k: usize, own: u64) -> (h: u64)
    requires
        k <= siblings@.len(),
        siblings@.len() < 65536,
    ensures
        h == combine_hashes(sibling_hashes(siblings@).insert(k as int, own)),
{
    let ghost hs = sibling_hashes(siblings@).insert(k as int, own);
    proof {
        sibling_hashes(siblings@).insert_ensures(k as int, own);
    }
    let n = siblings.len() + 1;
    let mut acc: u64 = EMPTY_SEED;
    let mut i: usize = 0;
    while i < n
        invariant
            0 <= i <= n,
            n == siblings@.len() + 1,
            k <= siblings@.len(),
            hs == sibling_hashes(siblings@).insert(k as int, own),
            hs.len() == n,
            forall|j: int| 0 <= j < k ==> #[trigger] hs[j] == sibling_hashes(siblings@)[j],
            forall|j: int|
                k <= j < siblings@.len() ==> #[trigger] hs[j + 1] == sibling_hashes(siblings@)[j],
            hs[k as int] == own,
            acc == fold_hashes(hs.take(i as int)),
        decreases n - i,
    {
        let x: u64 = if i < k {
            siblings[i].0
        } else if i == k {
            own
        } else {
            siblings[i - 1].0
        };
        proof {
            lemma_take_succ(hs, i as int);
            lemma_fold_push(hs.take(i as int), hs[i as int]);
            assert(hs[i as int] == x);
        }
        acc = mix(acc, x);
        i = i + 1;
    }
    proof {
        assert(hs.take(n as int) =~= hs);
    }
    mix(acc, n as u64)
}

/// Check a proof against a claimed root: recombine the leaf digest upward
/// and compare. Succeeds exactly when the path has a possible shape and
/// recombines to the claimed root; rejecting never confuses the two causes.
pub fn verify(proof: Proof, root: crate::eternity::Root) -> (r: Result<VerifiedProof, VerifyError>)
    ensures
        match r {
            Ok(vp) => verify_ok(vp.proof_spec(), root.0.0) && vp.proof_spec() == proof
                && vp.root_spec() == root,
            Err(VerifyError::Shape) => !proof_shape_ok(proof),
            Err(VerifyError::Digest) => proof_shape_ok(proof) && recombined_root(proof)
                != root.0.0,
        },
{
    if proof.position >= POSITION_LIMIT {
        return Err(VerifyError::Shape);
    }
    if proof.block_siblings.len() >= 65536 || proof.epoch_siblings.len() >= 65536
        || proof.top_siblings.len() >= 65536 {
        return Err(VerifyError::Shape);
    }
    let o = crate::pos_offset_exec(proof.position) as usize;
    let b = crate::pos_block_exec(proof.position) as usize;
    let e = crate::pos_epoch_exec(proof.position) as usize;
    proof {
        crate::lemma_pos_fields_bounded(proof.position);
    }
    if o > proof.block_siblings.len() || b > proof.epoch_siblings.len() || e
        > proof.top_siblings.len() {
        return Err(VerifyError::Shape);
    }
    let lh = crate::Hash::of(proof.leaf);
    let bh = combine_level(&proof.block_siblings, o, lh.0);
    let eh = combine_level(&proof.epoch_siblings, b, bh);
    let th = combine_level(&proof.top_siblings, e, eh);
    if th == root.0.0 {
        Ok(VerifiedProof { inner: proof, root })
    } else {
        Err(VerifyError::Digest)
    }
}

} // verus!
