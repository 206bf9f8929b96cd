//! The top-level accumulator: a tier of epochs of blocks of commitments,
//! with a global index from commitment values to packed 48-bit positions.

use vstd::prelude::*;

use crate::epoch::Epoch;
use crate::index_map::{index_entries, index_get, index_insert, index_new, index_remove};
use crate::tier::{
    block_inner_view, close_open_block, close_open_epoch, epoch_inner_append_leaf,
    epoch_inner_view, forget_at, hash_tree, BlockSlot, EpochInner, EpochSlot, LeafAppendError,
};
use crate::view::{
    append_block_view, append_leaf_view, blocks_shape_wf, bulk_evicted, can_append_block,
    can_append_leaf, distinct_keys, epoch_kept_at, epoch_leaf_at, evicted_upto, kept_at, leaf_at,
    leaf_pos_valid,
    lemma_append_block_view_pointwise, lemma_append_epoch_pointwise,
    lemma_append_leaf_view_pointwise, lemma_merged_map_pointwise, lemma_prune_where_compose,
    lemma_prune_where_empty, lemma_prune_where_pointwise, merged_map, next_leaf_pos, prune_leaf,
    prune_where, spec_len, tree_hash, tree_shape_wf, BlockV, EpochV, LeafV,
};
use crate::{
    lemma_pack_fields, lemma_pos_fields_bounded, lemma_unpack_fields, pack, pos_block,
    pos_block_exec, pos_epoch, pos_epoch_exec, pos_offset, pos_offset_exec, spec_pack, Commitment,
    Insert, Witness, POSITION_LIMIT, TIER_CAPACITY,
};

verus! {

/// The root hash of the whole accumulator.
#[derive(Debug, Clone, Copy, PartialEq, Eq, Structural)]
pub struct Root(pub crate::Hash);

/// An error when inserting a commitment.
#[derive(Debug, Clone, Copy, PartialEq, Eq, Structural)]
pub enum InsertError {
    /// The accumulator was full.
    Full,
    /// The most recent epoch was full.
    EpochFull,
    /// The most recent epoch was inserted as a summary, so it cannot take
    /// further commitments.
    EpochForgotten,
    /// The most recent block of the most recent epoch was full.
    BlockFull,
    /// The most recent block of the most recent epoch was inserted as a
    /// summary, so it cannot take further commitments.
    BlockForgotten,
}

/// An error when inserting a block: the rejected block is returned unchanged.
pub enum InsertBlockError {
    /// The accumulator was full.
    Full(crate::block::Block),
    /// The most recent epoch was full.
    EpochFull(crate::block::Block),
    /// The most recent epoch was inserted as a summary.
    EpochForgotten(crate::block::Block),
}

/// An error when inserting the root hash of a block.
#[derive(Debug, Clone, Copy, PartialEq, Eq, Structural)]
pub enum InsertBlockRootError {
    /// The accumulator was full.
    Full,
    /// The most recent epoch was full.
    EpochFull,
    /// The most recent epoch was inserted as a summary.
    EpochForgotten,
}

/// The accumulator was full when trying to insert an epoch: the rejected
/// epoch is returned unchanged.
pub struct InsertEpochError(pub Epoch);

/// The accumulator was full when trying to insert an epoch root.
#[derive(Debug, Clone, Copy, PartialEq, Eq, Structural)]
pub struct InsertEpochRootError;

/// A sparse commitment accumulator witnessing up to 65,536 epochs, each of
/// up to 65,536 blocks, each of up to 65,536 commitments or their hashes.
pub struct Eternity {
    /// Maps each witnessable commitment value to its packed position.
    pub index: hash_hasher::HashedMap<u64, u64>,
    /// The epoch slots.
    pub slots: Vec<EpochSlot>,
}

impl Eternity {
    /// The whole structure, as its model.
    pub open spec fn view_spec(self) -> Seq<EpochV> {
        crate::tier::tree_view(self.slots@)
    }

    /// The global index as a mathematical map.
    pub open spec fn index_spec(self) -> Map<u64, u64> {
        self.index@
    }

    /// Well-formedness: capacities respected, every digest memo true, and
    /// the index holds exactly the commitments kept witnessable, each at its
    /// true packed position.
    pub open spec fn wf(self) -> bool {
        let v = self.view_spec();
        &&& tree_shape_wf(v)
        &&& crate::tier::tree_caches_ok(self.slots@)
        &&& forall|k: u64| #[trigger]
            self.index@.contains_key(k) ==> self.index@[k] < POSITION_LIMIT && kept_at(
                v,
                self.index@[k],
                k,
            )
        &&& forall|q: u64, c: u64|
            q < POSITION_LIMIT && #[trigger] kept_at(v, q, c) ==> self.index@.contains_key(c)
                && self.index@[c] == q
    }

    /// A new, empty accumulator.
    pub fn new() -> (t: Eternity)
        ensures
            t.wf(),
            t.view_spec() == Seq::<EpochV>::empty(),
            t.index_spec() == Map::<u64, u64>::empty(),
    {
        let t = Eternity { index: index_new(), slots: Vec::new() };
        proof {
            assert(t.view_spec() =~= Seq::<EpochV>::empty());
        }
        t
    }

    /// The root hash. Recomputed lazily: closed slots answer from their
    /// memoized digests, only the open spine is recombined.
    pub fn root(&self) -> (r: Root)
        requires
            self.wf(),
        ensures
            r.0.0 == tree_hash(self.view_spec()),
    {
        Root(crate::Hash(hash_tree(&self.slots)))
    }

    /// Whether nothing has been inserted yet.
    pub fn is_empty(&self) -> (r: bool)
        ensures
            r <==> self.view_spec().len() == 0,
    {
        self.slots.len() == 0
    }

    /// The conservative logical size, in leaves: closed slots count at
    /// capacity and summarized open slots count at capacity too, since their
    /// true occupancy is unknowable once elided. Never decreases, and
    /// forgetting never changes it.
    pub fn len(&self) -> (n: u64)
        requires
            self.wf(),
        ensures
            n as int == spec_len(self.view_spec()),
    {
        let ghost v = self.view_spec();
        if self.slots.len() == 0 {
            return 0;
        }
        let last_i = self.slots.len() - 1;
        let e_count = last_i as u64;
        let open_units: u64 = match &self.slots[last_i] {
            EpochSlot::Summary(_) => 0x1_0000_0000u64,
            EpochSlot::Full(_, einner) => {
                proof {
                    assert(v.last() == EpochV::Kept(epoch_inner_view(*einner)));
                }
                if einner.slots.len() == 0 {
                    0u64
                } else {
                    let blast_i = einner.slots.len() - 1;
                    let b_count = blast_i as u64;
                    let bc: u64 = match &einner.slots[blast_i] {
                        BlockSlot::Summary(_) => 0x1_0000u64,
                        BlockSlot::Full(_, binner) => {
                            proof {
                                assert(epoch_inner_view(*einner).last() == BlockV::Kept(
                                    block_inner_view(*binner),
                                ));
                            }
                            binner.slots.len() as u64
                        },
                    };
                    b_count * 0x1_0000u64 + bc
                }
            },
        };
        e_count * 0x1_0000_0000u64 + open_units
    }

    /// Add a commitment to the open block of the open epoch, opening the
    /// first epoch and block on demand. On failure the commitment comes back
    /// unchanged and nothing is modified.
    pub fn insert(&mut self, witness: Witness, commitment: Commitment) -> (r: Result<
        (),
        Commitment,
    >)
        requires
            old(self).wf(),
        ensures
            final(self).wf(),
            match r {
                Ok(()) => {
                    &&& can_append_leaf(old(self).view_spec())
                    &&& ({
                        let l = match witness {
                            Witness::Keep => LeafV::Kept(commitment.0),
                            Witness::Forget => LeafV::Pruned(
                                crate::spec_hash_commitment(commitment.0),
                            ),
                        };
                        let base = append_leaf_view(old(self).view_spec(), l);
                        let npos = next_leaf_pos(old(self).view_spec());
                        match witness {
                            Witness::Forget => {
                                &&& final(self).view_spec() == base
                                &&& final(self).index_spec() == old(self).index_spec()
                            },
                            Witness::Keep => {
                                &&& final(self).index_spec() == old(self).index_spec().insert(
                                    commitment.0,
                                    npos,
                                )
                                &&& final(self).view_spec() == if old(self).index_spec().contains_key(commitment.0) {
                                    prune_where(
                                        base,
                                        Set::empty().insert(old(self).index_spec()[commitment.0]),
                                    )
                                } else {
                                    base
                                }
                                &&& tree_hash(final(self).view_spec()) == tree_hash(base)
                            },
                        }
                    })
                },
                Err(c) => {
                    &&& c == commitment
                    &&& !can_append_leaf(old(self).view_spec())
                    &&& final(self).view_spec() == old(self).view_spec()
                    &&& final(self).index_spec() == old(self).index_spec()
                },
            },
    {
        match self.insert_item(witness, commitment) {
            Ok(()) => Ok(()),
            Err(_) => Err(commitment),
        }
    }

    /// Add a commitment, reporting exactly which open slot refused it.
    fn insert_item(&mut self, witness: Witness, commitment: Commitment) -> (r: Result<
        (),
        InsertError,
    >)
        requires
            old(self).wf(),
        ensures
            final(self).wf(),
            match r {
                Ok(()) => {
                    &&& can_append_leaf(old(self).view_spec())
                    &&& ({
                        let l = match witness {
                            Witness::Keep => LeafV::Kept(commitment.0),
                            Witness::Forget => LeafV::Pruned(
                                crate::spec_hash_commitment(commitment.0),
                            ),
                        };
                        let base = append_leaf_view(old(self).view_spec(), l);
                        let npos = next_leaf_pos(old(self).view_spec());
                        match witness {
                            Witness::Forget => {
                                &&& final(self).view_spec() == base
                                &&& final(self).index_spec() == old(self).index_spec()
                            },
                            Witness::Keep => {
                                &&& final(self).index_spec() == old(self).index_spec().insert(
                                    commitment.0,
                                    npos,
                                )
                                &&& final(self).view_spec() == if old(self).index_spec().contains_key(commitment.0) {
                                    prune_where(
                                        base,
                                        Set::empty().insert(old(self).index_spec()[commitment.0]),
                                    )
                                } else {
                                    base
                                }
                                &&& tree_hash(final(self).view_spec()) == tree_hash(base)
                            },
                        }
                    })
                },
                Err(k) => {
                    &&& !can_append_leaf(old(self).view_spec())
                    &&& final(self).view_spec() == old(self).view_spec()
                    &&& final(self).index_spec() == old(self).index_spec()
                    &&& (k is EpochForgotten <==> old(self).view_spec().last() is Pruned)
                    &&& (k is BlockForgotten <==> (old(self).view_spec().last() is Kept && old(
                        self,
                    ).view_spec().last()->Kept_0.last() is Pruned))
                    &&& (k is BlockFull <==> (old(self).view_spec().last() is Kept && old(
                        self,
                    ).view_spec().last()->Kept_0.last() is Kept))
                },
            },
    {
        let ghost v0 = self.view_spec();
        let ghost om = self.index@;
        if self.slots.len() == 0 {
            self.slots.push(EpochSlot::Full(None, EpochInner { slots: Vec::new() }));
            proof {
                assert(epoch_inner_view(self.slots@.last()->Full_1) =~= Seq::<BlockV>::empty());
                assert(self.view_spec() =~~= v0.push(EpochV::Kept(Seq::empty())));
            }
        }
        let e = self.slots.len() - 1;
        let eslot = self.slots.pop().unwrap();
        match eslot {
            EpochSlot::Summary(h) => {
                self.slots.push(EpochSlot::Summary(h));
                proof {
                    assert(self.slots@ =~= old(self).slots@);
                }
                Err(InsertError::EpochForgotten)
            },
            EpochSlot::Full(cached, mut einner) => {
                let item = match witness {
                    Witness::Keep => Insert::Keep(commitment),
                    Witness::Forget => Insert::Hash(crate::Hash::of(commitment)),
                };
                let ghost l = crate::tier::leaf_view(item);
                match epoch_inner_append_leaf(&mut einner, item) {
                    Err(k) => {
                        self.slots.push(EpochSlot::Full(cached, einner));
                        proof {
                            assert(self.view_spec() =~~= v0);
                        }
                        match k {
                            LeafAppendError::BlockForgotten => Err(InsertError::BlockForgotten),
                            LeafAppendError::BlockFull => Err(InsertError::BlockFull),
                        }
                    },
                    Ok((b, o)) => {
                        self.slots.push(EpochSlot::Full(None, einner));
                        let ghost base = append_leaf_view(v0, l);
                        proof {
                            assert(self.view_spec() =~~= base);
                            lemma_append_leaf_view_pointwise(v0, l);
                        }
                        match witness {
                            Witness::Forget => {
                                proof {
                                    let pairs = Seq::<(u64, u64)>::empty();
                                    assert(evicted_upto(om, pairs, 0) =~= Set::<u64>::empty());
                                    lemma_prune_where_empty(base);
                                    assert(self.view_spec() =~~= prune_where(
                                        base,
                                        evicted_upto(om, pairs, 0),
                                    ));
                                    assert forall|q: u64, c: u64|
                                        q < POSITION_LIMIT && #[trigger] kept_at(
                                            base,
                                            q,
                                            c,
                                        ) implies (om.contains_key(c) && om[c] == q) || exists|
                                        j: int,
                                    |
                                        0 <= j < pairs.len() && (#[trigger] pairs[j]) == (
                                        c,
                                        q,
                                        ) by {
                                        if q != next_leaf_pos(v0) {
                                            assert(kept_at(v0, q, c));
                                        }
                                    }
                                    lemma_wf_after_merge(
                                        base,
                                        om,
                                        pairs,
                                        self.index@,
                                        self.view_spec(),
                                    );
                                }
                                Ok(())
                            },
                            Witness::Keep => {
                                let npos = pack(e as u64, b, o);
                                proof {
                                    lemma_pack_fields(e as u64, b, o);
                                    assert(npos == next_leaf_pos(v0));
                                }
                                let ghost pairs = seq![(commitment.0, npos)];
                                let evicted = index_insert(&mut self.index, commitment.0, npos);
                                proof {
                                    lemma_leaf_merge_obligations(v0, om, commitment.0);
                                    assert(pairs[0] == (commitment.0, npos));
                                }
                                match evicted {
                                    None => {
                                        proof {
                                            assert(evicted_upto(om, pairs, 1)
                                                =~= Set::<u64>::empty());
                                            lemma_prune_where_empty(base);
                                            assert(self.view_spec() =~~= prune_where(
                                                base,
                                                evicted_upto(om, pairs, 1),
                                            ));
                                            lemma_wf_after_merge(
                                                base,
                                                om,
                                                pairs,
                                                self.index@,
                                                self.view_spec(),
                                            );
                                        }
                                        Ok(())
                                    },
                                    Some(pold) => {
                                        proof {
                                            assert(kept_at(v0, pold, commitment.0));
                                            assert(om.contains_key(commitment.0) && om[commitment.0] == pold);
                                            assert(leaf_pos_valid(base, pold));
                                        }
                                        forget_at(&mut self.slots, pold);
                                        proof {
                                            assert(evicted_upto(om, pairs, 1) =~= Set::empty()
                                                .insert(pold));
                                            lemma_wf_after_merge(
                                                base,
                                                om,
                                                pairs,
                                                self.index@,
                                                self.view_spec(),
                                            );
                                            crate::view::lemma_prune_where_hash(
                                                base,
                                                Set::empty().insert(pold),
                                            );
                                        }
                                        Ok(())
                                    },
                                }
                            },
                        }
                    },
                }
            },
        }
    }
    /// Extract an inclusion proof for a commitment, if it is witnessable:
    /// its packed position and the sibling digests at each of the three
    /// tiers on its path. The proof recombines exactly to this structure's
    /// root, so it passes verification against it.
    pub fn witness(&self, commitment: Commitment) -> (r: Option<crate::proofs::Proof>)
        requires
            self.wf(),
        ensures
            r is Some <==> self.index_spec().contains_key(commitment.0),
            r matches Some(p) ==> {
                &&& p.position == self.index_spec()[commitment.0]
                &&& p.leaf == commitment
                &&& ({
                    let v = self.view_spec();
                    let e = pos_epoch(p.position) as int;
                    let b = pos_block(p.position) as int;
                    let o = pos_offset(p.position) as int;
                    &&& crate::proofs::sibling_hashes(p.block_siblings@)
                        == v[e]->Kept_0[b]->Kept_0.map_values(
                        |l: LeafV| crate::view::leaf_v_hash(l),
                    ).remove(o)
                    &&& crate::proofs::sibling_hashes(p.epoch_siblings@)
                        == v[e]->Kept_0.map_values(
                        |x: BlockV| crate::view::block_v_hash(x),
                    ).remove(b)
                    &&& crate::proofs::sibling_hashes(p.top_siblings@) == v.map_values(
                        |x: EpochV| crate::view::epoch_v_hash(x),
                    ).remove(e)
                })
                &&& crate::proofs::verify_ok(p, tree_hash(self.view_spec()))
            },
    {
        let ghost v = self.view_spec();
        match index_get(&self.index, commitment.0) {
            None => None,
            Some(pos) => {
                proof {
                    assert(kept_at(v, pos, commitment.0));
                    lemma_unpack_fields(pos);
                }
                let e = pos_epoch_exec(pos) as usize;
                let b = pos_block_exec(pos) as usize;
                let o = pos_offset_exec(pos) as usize;
                let top_siblings = crate::tier::top_siblings_of(&self.slots, e);
                match &self.slots[e] {
                    EpochSlot::Full(_, einner) => {
                        proof {
                            assert(v[e as int] == EpochV::Kept(epoch_inner_view(*einner)));
                        }
                        let epoch_siblings = crate::tier::epoch_siblings_of(einner, b);
                        match &einner.slots[b] {
                            BlockSlot::Full(_, binner) => {
                                proof {
                                    assert(epoch_inner_view(*einner)[b as int] == BlockV::Kept(
                                        block_inner_view(*binner),
                                    ));
                                }
                                let block_siblings = crate::tier::block_siblings_of(binner, o);
                                let p = crate::proofs::Proof {
                                    position: pos,
                                    leaf: commitment,
                                    block_siblings,
                                    epoch_siblings,
                                    top_siblings,
                                };
                                proof {
                                    crate::proofs::lemma_witness_correct(v, p);
                                }
                                Some(p)
                            },
                            BlockSlot::Summary(_) => {
                                proof {
                                    assert(false);
                                }
                                None
                            },
                        }
                    },
                    EpochSlot::Summary(_) => {
                        proof {
                            assert(false);
                        }
                        None
                    },
                }
            },
        }
    }

    /// Forget the witness for a commitment: remove it from the index and
    /// reduce its leaf slot to the digest it contributes. The root hash and
    /// the logical size never change. Returns whether the commitment was
    /// witnessed until now.
    pub fn forget(&mut self, commitment: Commitment) -> (r: bool)
        requires
            old(self).wf(),
        ensures
            final(self).wf(),
            r <==> old(self).index_spec().contains_key(commitment.0),
            final(self).index_spec() == old(self).index_spec().remove(commitment.0),
            final(self).view_spec() == if old(self).index_spec().contains_key(commitment.0) {
                prune_where(
                    old(self).view_spec(),
                    Set::empty().insert(old(self).index_spec()[commitment.0]),
                )
            } else {
                old(self).view_spec()
            },
            tree_hash(final(self).view_spec()) == tree_hash(old(self).view_spec()),
            spec_len(final(self).view_spec()) == spec_len(old(self).view_spec()),
    {
        let ghost v0 = self.view_spec();
        let ghost om = self.index@;
        match index_get(&self.index, commitment.0) {
            None => {
                proof {
                    assert(om.remove(commitment.0) =~= om);
                }
                false
            },
            Some(p) => {
                index_remove(&mut self.index, commitment.0);
                proof {
                    assert(kept_at(v0, p, commitment.0));
                }
                forget_at(&mut self.slots, p);
                proof {
                    let ps = Set::empty().insert(p);
                    crate::view::lemma_prune_where_hash(v0, ps);
                    crate::view::lemma_prune_where_spec_len(v0, ps);
                    lemma_prune_where_pointwise(v0, ps);
                    let fv = self.view_spec();
                    let fm = self.index@;
                    assert forall|k: u64| #[trigger] fm.contains_key(k) implies fm[k]
                        < POSITION_LIMIT && kept_at(fv, fm[k], k) by {
                        assert(kept_at(v0, om[k], k));
                        assert(om[k] != p) by {
                            assert(leaf_at(v0, p) == LeafV::Kept(commitment.0));
                            assert(leaf_at(v0, om[k]) == LeafV::Kept(k));
                        }
                    }
                    assert forall|q: u64, c: u64|
                        q < POSITION_LIMIT && #[trigger] kept_at(fv, q, c) implies fm.contains_key(
                        c,
                    ) && fm[c] == q by {
                        assert(q != p) by {
                            if q == p {
                                assert(leaf_at(fv, q) == prune_leaf(leaf_at(v0, q)));
                            }
                        }
                        assert(kept_at(v0, q, c));
                        assert(c != commitment.0) by {
                            if c == commitment.0 {
                                assert(om[c] == q);
                            }
                        }
                    }
                }
                true
            },
        }
    }

    /// Write pre-composed index entries over the global index; every
    /// position the writes overwrite is reduced to its digest.
    #[verifier::loop_isolation(false)]
    fn merge_pairs(&mut self, pairs: &Vec<(u64, u64)>)
        requires
            crate::tier::tree_caches_ok(old(self).slots@),
            tree_shape_wf(old(self).view_spec()),
            distinct_keys(pairs@),
            forall|j: int|
                0 <= j < pairs@.len() ==> (#[trigger] pairs@[j]).1 < POSITION_LIMIT && kept_at(
                    old(self).view_spec(),
                    pairs@[j].1,
                    pairs@[j].0,
                ),
            forall|k: u64| #[trigger]
                old(self).index@.contains_key(k) ==> old(self).index@[k] < POSITION_LIMIT
                    && kept_at(old(self).view_spec(), old(self).index@[k], k),
            forall|k: u64, j: int|
                #[trigger] old(self).index@.contains_key(k) && 0 <= j < pairs@.len() ==> old(
                    self,
                ).index@[k] != (#[trigger] pairs@[j]).1,
        ensures
            crate::tier::tree_caches_ok(final(self).slots@),
            final(self).view_spec() == prune_where(
                old(self).view_spec(),
                evicted_upto(old(self).index@, pairs@, pairs@.len() as int),
            ),
            forall|k: u64| #[trigger]
                final(self).index@.contains_key(k) ==> old(self).index@.contains_key(k) || exists|
                    j: int,
                |
                    0 <= j < pairs@.len() && (#[trigger] pairs@[j]).0 == k,
            forall|k: u64| #[trigger]
                old(self).index@.contains_key(k) ==> final(self).index@.contains_key(k),
            forall|j: int|
                0 <= j < pairs@.len() ==> final(self).index@.contains_key(
                    (#[trigger] pairs@[j]).0,
                ) && final(self).index@[pairs@[j].0] == pairs@[j].1,
            forall|k: u64| #[trigger]
                old(self).index@.contains_key(k) && !(exists|j: int|
                    0 <= j < pairs@.len() && (#[trigger] pairs@[j]).0 == k) ==> final(self).index@[k]
                    == old(self).index@[k],
    {
        let ghost om = self.index@;
        let ghost v0 = self.view_spec();
        let ghost f = |p: u64| p;
        proof {
            lemma_prune_where_empty(v0);
            assert(evicted_upto(om, pairs@, 0) =~= Set::<u64>::empty());
            assert(self.view_spec() =~~= prune_where(v0, evicted_upto(om, pairs@, 0)));
        }
        let mut i: usize = 0;
        while i < pairs.len()
            invariant
                0 <= i <= pairs@.len(),
                self.index@ == merged_map(om, pairs@, i as int, f),
                self.view_spec() == prune_where(v0, evicted_upto(om, pairs@, i as int)),
                crate::tier::tree_caches_ok(self.slots@),
            decreases pairs@.len() - i,
        {
            let pr = pairs[i];
            let c = pr.0;
            let p = pr.1;
            proof {
                lemma_merged_map_pointwise(om, pairs@, i as int, f);
                lemma_prune_where_pointwise(v0, evicted_upto(om, pairs@, i as int));
                assert(forall|j: int| 0 <= j < i ==> (#[trigger] pairs@[j]).0 != c);
            }
            let evicted = index_insert(&mut self.index, c, p);
            proof {
                assert(self.index@ == merged_map(om, pairs@, i as int + 1, f));
            }
            match evicted {
                None => {
                    proof {
                        assert(!om.contains_key(c));
                        assert(evicted_upto(om, pairs@, i as int + 1) =~= evicted_upto(
                            om,
                            pairs@,
                            i as int,
                        ));
                    }
                },
                Some(pold) => {
                    proof {
                        assert(om.contains_key(c) && pold == om[c]);
                        assert(kept_at(v0, pold, c));
                        assert(leaf_pos_valid(self.view_spec(), pold));
                    }
                    forget_at(&mut self.slots, pold);
                    proof {
                        lemma_prune_where_compose(
                            v0,
                            evicted_upto(om, pairs@, i as int),
                            Set::empty().insert(pold),
                        );
                        assert(evicted_upto(om, pairs@, i as int).union(
                            Set::empty().insert(pold),
                        ) =~= evicted_upto(om, pairs@, i as int + 1));
                    }
                },
            }
            i = i + 1;
        }
        proof {
            lemma_merged_map_pointwise(om, pairs@, pairs@.len() as int, f);
        }
    }

    /// Add a whole block to the open epoch, opening the first epoch on
    /// demand, and absorb the block's local index into the global one, every
    /// position composed with the fresh coordinates. Positions the merge
    /// silently overwrites are reduced to their digests. On failure the
    /// block comes back unchanged and nothing is modified.
    #[verifier::loop_isolation(false)]
    pub fn insert_block(&mut self, block: crate::block::Block) -> (r: Result<(), InsertBlockError>)
        requires
            old(self).wf(),
            block.wf(),
        ensures
            final(self).wf(),
            match r {
                Ok(()) => {
                    &&& can_append_block(old(self).view_spec())
                    &&& ({
                        let v0 = old(self).view_spec();
                        let base = append_block_view(v0, BlockV::Kept(block.view_spec()));
                        let e = if v0.len() == 0 {
                            0u64
                        } else {
                            (v0.len() - 1) as u64
                        };
                        let b = if v0.len() == 0 {
                            0u64
                        } else {
                            v0.last()->Kept_0.len() as u64
                        };
                        let fm = final(self).index_spec();
                        let om = old(self).index_spec();
                        let bm = block.index_spec();
                        &&& final(self).view_spec() == prune_where(base, bulk_evicted(om, bm))
                        &&& tree_hash(final(self).view_spec()) == tree_hash(base)
                        &&& forall|k: u64|
                            #[trigger] fm.contains_key(k) <==> om.contains_key(k)
                                || bm.contains_key(k)
                        &&& forall|k: u64| #[trigger]
                            bm.contains_key(k) ==> fm[k] == spec_pack(e, b, bm[k])
                        &&& forall|k: u64| #[trigger]
                            om.contains_key(k) && !bm.contains_key(k) ==> fm[k] == om[k]
                    })
                },
                Err(ebk) => {
                    &&& !can_append_block(old(self).view_spec())
                    &&& final(self).view_spec() == old(self).view_spec()
                    &&& final(self).index_spec() == old(self).index_spec()
                    &&& ebk == if old(self).view_spec().last() is Pruned {
                        InsertBlockError::EpochForgotten(block)
                    } else {
                        InsertBlockError::EpochFull(block)
                    }
                },
            },
    {
        let ghost v0 = self.view_spec();
        let ghost om = self.index@;
        let ghost bm = block.index@;
        if self.slots.len() == 0 {
            self.slots.push(EpochSlot::Full(None, EpochInner { slots: Vec::new() }));
            proof {
                assert(epoch_inner_view(self.slots@.last()->Full_1) =~= Seq::<BlockV>::empty());
                assert(self.view_spec() =~~= v0.push(EpochV::Kept(Seq::empty())));
            }
        }
        let e = self.slots.len() - 1;
        let eslot = self.slots.pop().unwrap();
        match eslot {
            EpochSlot::Summary(h) => {
                self.slots.push(EpochSlot::Summary(h));
                proof {
                    assert(self.slots@ =~= old(self).slots@);
                }
                Err(InsertBlockError::EpochForgotten(block))
            },
            EpochSlot::Full(cached, mut einner) => {
                if einner.slots.len() == TIER_CAPACITY {
                    self.slots.push(EpochSlot::Full(cached, einner));
                    proof {
                        assert(self.view_spec() =~~= v0);
                    }
                    Err(InsertBlockError::EpochFull(block))
                } else {
                    close_open_block(&mut einner);
                    let crate::block::Block { index: bindex, inner: binner } = block;
                    let ghost bv = block_inner_view(binner);
                    let b = einner.slots.len();
                    einner.slots.push(BlockSlot::Full(None, binner));
                    self.slots.push(EpochSlot::Full(None, einner));
                    let ghost base = append_block_view(v0, BlockV::Kept(bv));
                    proof {
                        assert(epoch_inner_view(self.slots@.last()->Full_1) =~= (if v0.len() == 0 {
                            Seq::<BlockV>::empty()
                        } else {
                            v0.last()->Kept_0
                        }).push(BlockV::Kept(bv)));
                        assert(self.view_spec() =~~= base);
                        lemma_append_block_view_pointwise(v0, BlockV::Kept(bv));
                    }
                    let entries = index_entries(&bindex);
                    let mut pairs: Vec<(u64, u64)> = Vec::new();
                    let mut j: usize = 0;
                    while j < entries.len()
                        invariant
                            0 <= j <= entries@.len(),
                            pairs@.len() == j,
                            forall|i2: int|
                                0 <= i2 < j ==> (#[trigger] pairs@[i2]) == (
                                (entries@[i2]).0,
                                spec_pack(e as u64, b as u64, (entries@[i2]).1),
                                ),
                        decreases entries@.len() - j,
                    {
                        let en = entries[j];
                        pairs.push((en.0, pack(e as u64, b as u64, en.1)));
                        j = j + 1;
                    }
                    proof {
                        lemma_block_merge_obligations(v0, om, bv, bm, entries@, pairs@);
                    }
                    self.merge_pairs(&pairs);
                    proof {
                        assert(evicted_upto(om, pairs@, pairs@.len() as int) =~= bulk_evicted(
                            om,
                            bm,
                        ));
                        let fm = self.index@;
                        assert forall|k: u64| #[trigger]
                            bm.contains_key(k) implies fm.contains_key(k) && fm[k] == spec_pack(
                            e as u64,
                            b as u64,
                            bm[k],
                        ) by {
                            let j2 = choose|j2: int|
                                0 <= j2 < entries@.len() && (#[trigger] entries@[j2]).0 == k;
                            assert(pairs@[j2] == (k, spec_pack(e as u64, b as u64, bm[k])));
                        }
                        assert forall|k: u64| #[trigger]
                            om.contains_key(k) && !bm.contains_key(k) implies fm[k] == om[k] by {
                            assert(!(exists|j2: int|
                                0 <= j2 < pairs@.len() && (#[trigger] pairs@[j2]).0 == k)) by {
                                if exists|j2: int|
                                    0 <= j2 < pairs@.len() && (#[trigger] pairs@[j2]).0 == k {
                                    let j2 = choose|j2: int|
                                        0 <= j2 < pairs@.len() && (#[trigger] pairs@[j2]).0 == k;
                                    assert(bm.contains_key((entries@[j2]).0));
                                }
                            }
                        }
                        assert forall|k: u64| #[trigger]
                            fm.contains_key(k) implies om.contains_key(k) || bm.contains_key(
                            k,
                        ) by {
                            if !om.contains_key(k) {
                                let j2 = choose|j2: int|
                                    0 <= j2 < pairs@.len() && (#[trigger] pairs@[j2]).0 == k;
                                assert(bm.contains_key((entries@[j2]).0));
                            }
                        }
                        lemma_wf_after_merge(base, om, pairs@, self.index@, self.view_spec());
                        crate::view::lemma_prune_where_hash(base, bulk_evicted(om, bm));
                    }
                    Ok(())
                }
            },
        }
    }

    /// Add the root hash of a block as a summary-only slot of the open
    /// epoch, opening the first epoch on demand. It contributes no index
    /// entries.
    pub fn insert_block_root(&mut self, block_root: crate::block::Root) -> (r: Result<
        (),
        InsertBlockRootError,
    >)
        requires
            old(self).wf(),
        ensures
            final(self).wf(),
            match r {
                Ok(()) => {
                    &&& can_append_block(old(self).view_spec())
                    &&& final(self).view_spec() == append_block_view(
                        old(self).view_spec(),
                        BlockV::Pruned(block_root.0.0),
                    )
                    &&& final(self).index_spec() == old(self).index_spec()
                },
                Err(k) => {
                    &&& !can_append_block(old(self).view_spec())
                    &&& final(self).view_spec() == old(self).view_spec()
                    &&& final(self).index_spec() == old(self).index_spec()
                    &&& k == if old(self).view_spec().last() is Pruned {
                        InsertBlockRootError::EpochForgotten
                    } else {
                        InsertBlockRootError::EpochFull
                    }
                },
            },
    {
        let ghost v0 = self.view_spec();
        if self.slots.len() == 0 {
            self.slots.push(EpochSlot::Full(None, EpochInner { slots: Vec::new() }));
            proof {
                assert(epoch_inner_view(self.slots@.last()->Full_1) =~= Seq::<BlockV>::empty());
                assert(self.view_spec() =~~= v0.push(EpochV::Kept(Seq::empty())));
            }
        }
        let eslot = self.slots.pop().unwrap();
        match eslot {
            EpochSlot::Summary(h) => {
                self.slots.push(EpochSlot::Summary(h));
                proof {
                    assert(self.slots@ =~= old(self).slots@);
                }
                Err(InsertBlockRootError::EpochForgotten)
            },
            EpochSlot::Full(cached, mut einner) => {
                if einner.slots.len() == TIER_CAPACITY {
                    self.slots.push(EpochSlot::Full(cached, einner));
                    proof {
                        assert(self.view_spec() =~~= v0);
                    }
                    Err(InsertBlockRootError::EpochFull)
                } else {
                    close_open_block(&mut einner);
                    einner.slots.push(BlockSlot::Summary(block_root.0));
                    self.slots.push(EpochSlot::Full(None, einner));
                    let ghost base = append_block_view(v0, BlockV::Pruned(block_root.0.0));
                    proof {
                        assert(epoch_inner_view(self.slots@.last()->Full_1) =~= (if v0.len() == 0 {
                            Seq::<BlockV>::empty()
                        } else {
                            v0.last()->Kept_0
                        }).push(BlockV::Pruned(block_root.0.0)));
                        assert(self.view_spec() =~~= base);
                        lemma_append_block_view_pointwise(v0, BlockV::Pruned(block_root.0.0));
                        assert forall|q: u64, c: u64|
                            q < POSITION_LIMIT && #[trigger] kept_at(base, q, c) implies self
                            .index@.contains_key(c) && self.index@[c] == q by {
                            assert(kept_at(v0, q, c));
                        }
                    }
                    Ok(())
                }
            },
        }
    }

    /// Add a whole epoch as the next epoch slot, closing the open one, and
    /// absorb the epoch's local index into the global one, every position
    /// composed with the fresh epoch coordinate. Positions the merge
    /// silently overwrites are reduced to their digests. Fails exactly when
    /// the accumulator is at capacity, returning the epoch unchanged.
    #[verifier::loop_isolation(false)]
    pub fn insert_epoch(&mut self, epoch: Epoch) -> (r: Result<(), InsertEpochError>)
        requires
            old(self).wf(),
            epoch.wf(),
        ensures
            final(self).wf(),
            match r {
                Ok(()) => {
                    &&& old(self).view_spec().len() < 65536
                    &&& ({
                        let v0 = old(self).view_spec();
                        let base = v0.push(EpochV::Kept(epoch.view_spec()));
                        let e = v0.len() as u64;
                        let fm = final(self).index_spec();
                        let om = old(self).index_spec();
                        let em = epoch.index_spec();
                        &&& final(self).view_spec() == prune_where(base, bulk_evicted(om, em))
                        &&& tree_hash(final(self).view_spec()) == tree_hash(base)
                        &&& forall|k: u64|
                            #[trigger] fm.contains_key(k) <==> om.contains_key(k)
                                || em.contains_key(k)
                        &&& forall|k: u64| #[trigger]
                            em.contains_key(k) ==> fm[k] == spec_pack(
                                e,
                                pos_block(em[k]),
                                pos_offset(em[k]),
                            )
                        &&& forall|k: u64| #[trigger]
                            om.contains_key(k) && !em.contains_key(k) ==> fm[k] == om[k]
                    })
                },
                Err(eek) => {
                    &&& old(self).view_spec().len() == 65536
                    &&& final(self).view_spec() == old(self).view_spec()
                    &&& final(self).index_spec() == old(self).index_spec()
                    &&& eek == InsertEpochError(epoch)
                },
            },
    {
        if self.slots.len() == TIER_CAPACITY {
            return Err(InsertEpochError(epoch));
        }
        let ghost v0 = self.view_spec();
        let ghost om = self.index@;
        let ghost em = epoch.index@;
        close_open_epoch(&mut self.slots);
        let Epoch { index: eindex, inner: einner } = epoch;
        let ghost evw = epoch_inner_view(einner);
        let e = self.slots.len();
        self.slots.push(EpochSlot::Full(None, einner));
        let ghost base = v0.push(EpochV::Kept(evw));
        proof {
            assert(self.view_spec() =~~= base);
            lemma_append_epoch_pointwise(v0, EpochV::Kept(evw));
        }
        let entries = index_entries(&eindex);
        let mut pairs: Vec<(u64, u64)> = Vec::new();
        let mut j: usize = 0;
        while j < entries.len()
            invariant
                0 <= j <= entries@.len(),
                pairs@.len() == j,
                forall|i2: int|
                    0 <= i2 < j ==> (#[trigger] pairs@[i2]) == (
                    (entries@[i2]).0,
                    spec_pack(
                        e as u64,
                        pos_block((entries@[i2]).1),
                        pos_offset((entries@[i2]).1),
                    ),
                    ),
            decreases entries@.len() - j,
        {
            let en = entries[j];
            pairs.push((en.0, pack(e as u64, pos_block_exec(en.1), pos_offset_exec(en.1))));
            j = j + 1;
        }
        proof {
            lemma_epoch_merge_obligations(v0, om, evw, em, entries@, pairs@);
        }
        self.merge_pairs(&pairs);
        proof {
            assert(evicted_upto(om, pairs@, pairs@.len() as int) =~= bulk_evicted(om, em));
            let fm = self.index@;
            assert forall|k: u64| #[trigger] em.contains_key(k) implies fm.contains_key(k) && fm[k]
                == spec_pack(e as u64, pos_block(em[k]), pos_offset(em[k])) by {
                let j2 = choose|j2: int|
                    0 <= j2 < entries@.len() && (#[trigger] entries@[j2]).0 == k;
                assert(pairs@[j2] == (
                    k,
                    spec_pack(e as u64, pos_block(em[k]), pos_offset(em[k])),
                ));
            }
            assert forall|k: u64| #[trigger]
                om.contains_key(k) && !em.contains_key(k) implies fm[k] == om[k] by {
                assert(!(exists|j2: int|
                    0 <= j2 < pairs@.len() && (#[trigger] pairs@[j2]).0 == k)) by {
                    if exists|j2: int| 0 <= j2 < pairs@.len() && (#[trigger] pairs@[j2]).0 == k {
                        let j2 = choose|j2: int|
                            0 <= j2 < pairs@.len() && (#[trigger] pairs@[j2]).0 == k;
                        assert(em.contains_key((entries@[j2]).0));
                    }
                }
            }
            assert forall|k: u64| #[trigger] fm.contains_key(k) implies om.contains_key(k)
                || em.contains_key(k) by {
                if !om.contains_key(k) {
                    let j2 = choose|j2: int|
                        0 <= j2 < pairs@.len() && (#[trigger] pairs@[j2]).0 == k;
                    assert(em.contains_key((entries@[j2]).0));
                }
            }
            lemma_wf_after_merge(base, om, pairs@, self.index@, self.view_spec());
            crate::view::lemma_prune_where_hash(base, bulk_evicted(om, em));
        }
        Ok(())
    }

    /// Add the root hash of an epoch as a summary-only slot, closing the
    /// open epoch. It contributes no index entries. Fails exactly when the
    /// accumulator is at capacity.
    pub fn insert_epoch_root(&mut self, epoch_root: crate::epoch::Root) -> (r: Result<
        (),
        InsertEpochRootError,
    >)
        requires
            old(self).wf(),
        ensures
            final(self).wf(),
            match r {
                Ok(()) => {
                    &&& old(self).view_spec().len() < 65536
                    &&& final(self).view_spec() == old(self).view_spec().push(
                        EpochV::Pruned(epoch_root.0.0),
                    )
                    &&& final(self).index_spec() == old(self).index_spec()
                },
                Err(_) => {
                    &&& old(self).view_spec().len() == 65536
                    &&& final(self).view_spec() == old(self).view_spec()
                    &&& final(self).index_spec() == old(self).index_spec()
                },
            },
    {
        if self.slots.len() == TIER_CAPACITY {
            return Err(InsertEpochRootError);
        }
        let ghost v0 = self.view_spec();
        close_open_epoch(&mut self.slots);
        self.slots.push(EpochSlot::Summary(epoch_root.0));
        let ghost base = v0.push(EpochV::Pruned(epoch_root.0.0));
        proof {
            assert(self.view_spec() =~~= base);
            lemma_append_epoch_pointwise(v0, EpochV::Pruned(epoch_root.0.0));
            assert forall|q: u64, c: u64|
                q < POSITION_LIMIT && #[trigger] kept_at(base, q, c) implies self.index@
                .contains_key(c) && self.index@[c] == q by {
                assert(kept_at(v0, q, c));
            }
        }
        Ok(())
    }
}

/// Determinism of lazy hashing: the root depends only on the logical
/// contents — which commitments and digests sit in which slots — never on
/// which digest memos happen to be populated, so any two accumulators with
/// the same model report the same root, however many reads were interleaved
/// with the mutations that built them.
pub proof fn lemma_root_deterministic(a: Eternity, b: Eternity)
    requires
        a.view_spec() == b.view_spec(),
    ensures
        tree_hash(a.view_spec()) == tree_hash(b.view_spec()),
{
}

/// Re-insertion eviction: when a commitment already indexed at some position
/// is inserted again with `Keep`, the index points only at the new position,
/// the old leaf slot is reduced to its digest, and both slots keep
/// contributing the same digest to the root.
pub proof fn lemma_reinsert_evicts(t: Eternity, c0: u64)
    requires
        t.wf(),
        can_append_leaf(t.view_spec()),
        t.index_spec().contains_key(c0),
    ensures
        ({
            let v = t.view_spec();
            let pold = t.index_spec()[c0];
            let npos = next_leaf_pos(v);
            let base = append_leaf_view(v, LeafV::Kept(c0));
            let fv = prune_where(base, Set::empty().insert(pold));
            let fm = t.index_spec().insert(c0, npos);
            &&& npos != pold
            &&& fm[c0] == npos
            &&& kept_at(fv, npos, c0)
            &&& leaf_at(fv, pold) == LeafV::Pruned(crate::spec_hash_commitment(c0))
            &&& crate::view::leaf_v_hash(leaf_at(fv, pold)) == crate::view::leaf_v_hash(
                LeafV::Kept(c0),
            )
        }),
{
    let v = t.view_spec();
    let pold = t.index_spec()[c0];
    let npos = next_leaf_pos(v);
    let base = append_leaf_view(v, LeafV::Kept(c0));
    let ps = Set::empty().insert(pold);
    assert(kept_at(v, pold, c0));
    lemma_append_leaf_view_pointwise(v, LeafV::Kept(c0));
    lemma_prune_where_pointwise(base, ps);
    assert(leaf_at(base, pold) == LeafV::Kept(c0));
    assert(leaf_at(prune_where(base, ps), pold) == prune_leaf(LeafV::Kept(c0)));
}

/// The obligations of merging a block's index into the global one: each
/// composed entry points at its leaf in the fresh block slot, no old entry
/// points there, and the evicted positions are exactly the bulk overlap.
proof fn lemma_block_merge_obligations(
    v0: Seq<EpochV>,
    om: Map<u64, u64>,
    bv: Seq<LeafV>,
    bm: Map<u64, u64>,
    entries: Seq<(u64, u64)>,
    pairs: Seq<(u64, u64)>,
)
    requires
        tree_shape_wf(v0),
        can_append_block(v0),
        bv.len() <= 65536,
        forall|k: u64| #[trigger]
            om.contains_key(k) ==> om[k] < POSITION_LIMIT && kept_at(v0, om[k], k),
        forall|q: u64, c: u64|
            q < POSITION_LIMIT && #[trigger] kept_at(v0, q, c) ==> om.contains_key(c) && om[c]
                == q,
        forall|k: u64| #[trigger]
            bm.contains_key(k) ==> bm[k] < bv.len() && bv[bm[k] as int] == LeafV::Kept(k),
        forall|o: int|
            0 <= o < bv.len() ==> (#[trigger] bv[o] matches LeafV::Kept(c) ==> bm.contains_key(c)
                && bm[c] == o as u64),
        forall|i: int|
            0 <= i < entries.len() ==> bm.contains_key((#[trigger] entries[i]).0) && entries[i].1
                == bm[entries[i].0],
        forall|k: u64| #[trigger]
            bm.contains_key(k) ==> exists|i: int|
                0 <= i < entries.len() && (#[trigger] entries[i]).0 == k,
        forall|i: int, j: int|
            0 <= i < entries.len() && 0 <= j < entries.len() && i != j ==> (#[trigger] entries[i]).0
                != (#[trigger] entries[j]).0,
        pairs.len() == entries.len(),
        forall|i: int|
            0 <= i < pairs.len() ==> (#[trigger] pairs[i]) == (
                (entries[i]).0,
                spec_pack(
                    (if v0.len() == 0 {
                        0u64
                    } else {
                        (v0.len() - 1) as u64
                    }),
                    (if v0.len() == 0 {
                        0u64
                    } else {
                        v0.last()->Kept_0.len() as u64
                    }),
                    (entries[i]).1,
                ),
            ),
    ensures
        ({
            let base = append_block_view(v0, BlockV::Kept(bv));
            &&& distinct_keys(pairs)
            &&& forall|j: int|
                0 <= j < pairs.len() ==> (#[trigger] pairs[j]).1 < POSITION_LIMIT && kept_at(
                    base,
                    pairs[j].1,
                    pairs[j].0,
                )
            &&& forall|k: u64| #[trigger]
                om.contains_key(k) ==> om[k] < POSITION_LIMIT && kept_at(base, om[k], k)
            &&& forall|k: u64, j: int|
                #[trigger] om.contains_key(k) && 0 <= j < pairs.len() ==> om[k] != (
                #[trigger] pairs[j]).1
            &&& forall|q: u64, c: u64|
                q < POSITION_LIMIT && #[trigger] kept_at(base, q, c) ==> (om.contains_key(c)
                    && om[c] == q) || exists|j: int|
                    0 <= j < pairs.len() && (#[trigger] pairs[j]) == (c, q)
            &&& evicted_upto(om, pairs, pairs.len() as int) =~= bulk_evicted(om, bm)
        }),
{
    let base = append_block_view(v0, BlockV::Kept(bv));
    let e = if v0.len() == 0 {
        0u64
    } else {
        (v0.len() - 1) as u64
    };
    let b = if v0.len() == 0 {
        0u64
    } else {
        v0.last()->Kept_0.len() as u64
    };
    lemma_append_block_view_pointwise(v0, BlockV::Kept(bv));
    assert forall|j: int| 0 <= j < pairs.len() implies (#[trigger] pairs[j]).1 < POSITION_LIMIT
        && kept_at(base, pairs[j].1, pairs[j].0) by {
        let off = entries[j].1;
        lemma_pack_fields(e, b, off);
        assert(leaf_pos_valid(base, pairs[j].1));
        assert(leaf_at(base, pairs[j].1) == bv[off as int]);
    }
    assert forall|k: u64, j: int|
        #[trigger] om.contains_key(k) && 0 <= j < pairs.len() implies om[k] != (
    #[trigger] pairs[j]).1 by {
        let off = entries[j].1;
        lemma_pack_fields(e, b, off);
        assert(kept_at(v0, om[k], k));
        if v0.len() == 0 {
        } else {
            if pos_epoch(om[k]) == e {
                assert(pos_block(om[k]) < v0.last()->Kept_0.len());
            }
        }
    }
    assert forall|q: u64, c: u64|
        q < POSITION_LIMIT && #[trigger] kept_at(base, q, c) implies (om.contains_key(c) && om[c]
        == q) || exists|j: int| 0 <= j < pairs.len() && (#[trigger] pairs[j]) == (c, q) by {
        if pos_epoch(q) == e && pos_block(q) == b {
            let off = pos_offset(q);
            assert(leaf_at(base, q) == bv[off as int]);
            assert(bm.contains_key(c) && bm[c] == off);
            lemma_unpack_fields(q);
            let j = choose|j: int| 0 <= j < entries.len() && (#[trigger] entries[j]).0 == c;
            assert(pairs[j] == (c, q));
        } else {
            assert(kept_at(v0, q, c));
        }
    }
    assert forall|p: u64| evicted_upto(om, pairs, pairs.len() as int).contains(
        p,
    ) implies bulk_evicted(om, bm).contains(p) by {
        let j = choose|j: int|
            0 <= j < pairs.len() && om.contains_key((#[trigger] pairs[j]).0) && om[pairs[j].0]
                == p;
        assert(bm.contains_key((entries[j]).0));
    }
    assert forall|p: u64| bulk_evicted(om, bm).contains(p) implies evicted_upto(
        om,
        pairs,
        pairs.len() as int,
    ).contains(p) by {
        let c = choose|c: u64| #[trigger]
            bm.contains_key(c) && om.contains_key(c) && om[c] == p;
        let j = choose|j: int| 0 <= j < entries.len() && (#[trigger] entries[j]).0 == c;
        assert(om.contains_key((pairs[j]).0) && om[(pairs[j]).0] == p);
    }
    assert(evicted_upto(om, pairs, pairs.len() as int) =~= bulk_evicted(om, bm));
}

/// The obligations of merging an epoch's index into the global one: each
/// composed entry points at its leaf in the fresh epoch slot, no old entry
/// points there, and the evicted positions are exactly the bulk overlap.
proof fn lemma_epoch_merge_obligations(
    v0: Seq<EpochV>,
    om: Map<u64, u64>,
    evw: Seq<BlockV>,
    em: Map<u64, u64>,
    entries: Seq<(u64, u64)>,
    pairs: Seq<(u64, u64)>,
)
    requires
        tree_shape_wf(v0),
        v0.len() < 65536,
        blocks_shape_wf(evw),
        forall|k: u64| #[trigger]
            om.contains_key(k) ==> om[k] < POSITION_LIMIT && kept_at(v0, om[k], k),
        forall|q: u64, c: u64|
            q < POSITION_LIMIT && #[trigger] kept_at(v0, q, c) ==> om.contains_key(c) && om[c]
                == q,
        forall|k: u64| #[trigger]
            em.contains_key(k) ==> em[k] < 0x1_0000_0000u64 && epoch_kept_at(evw, em[k], k),
        forall|q: u64, c: u64|
            q < POSITION_LIMIT && #[trigger] epoch_kept_at(evw, q, c) ==> em.contains_key(c)
                && em[c] == q,
        forall|i: int|
            0 <= i < entries.len() ==> em.contains_key((#[trigger] entries[i]).0) && entries[i].1
                == em[entries[i].0],
        forall|k: u64| #[trigger]
            em.contains_key(k) ==> exists|i: int|
                0 <= i < entries.len() && (#[trigger] entries[i]).0 == k,
        forall|i: int, j: int|
            0 <= i < entries.len() && 0 <= j < entries.len() && i != j ==> (#[trigger] entries[i]).0
                != (#[trigger] entries[j]).0,
        pairs.len() == entries.len(),
        forall|i: int|
            0 <= i < pairs.len() ==> (#[trigger] pairs[i]) == (
                (entries[i]).0,
                spec_pack(
                    v0.len() as u64,
                    pos_block((entries[i]).1),
                    pos_offset((entries[i]).1),
                ),
            ),
    ensures
        ({
            let base = v0.push(EpochV::Kept(evw));
            &&& distinct_keys(pairs)
            &&& forall|j: int|
                0 <= j < pairs.len() ==> (#[trigger] pairs[j]).1 < POSITION_LIMIT && kept_at(
                    base,
                    pairs[j].1,
                    pairs[j].0,
                )
            &&& forall|k: u64| #[trigger]
                om.contains_key(k) ==> om[k] < POSITION_LIMIT && kept_at(base, om[k], k)
            &&& forall|k: u64, j: int|
                #[trigger] om.contains_key(k) && 0 <= j < pairs.len() ==> om[k] != (
                #[trigger] pairs[j]).1
            &&& forall|q: u64, c: u64|
                q < POSITION_LIMIT && #[trigger] kept_at(base, q, c) ==> (om.contains_key(c)
                    && om[c] == q) || exists|j: int|
                    0 <= j < pairs.len() && (#[trigger] pairs[j]) == (c, q)
            &&& evicted_upto(om, pairs, pairs.len() as int) =~= bulk_evicted(om, em)
        }),
{
    let base = v0.push(EpochV::Kept(evw));
    let e = v0.len() as u64;
    lemma_append_epoch_pointwise(v0, EpochV::Kept(evw));
    assert forall|j: int| 0 <= j < pairs.len() implies (#[trigger] pairs[j]).1 < POSITION_LIMIT
        && kept_at(base, pairs[j].1, pairs[j].0) by {
        let rel = entries[j].1;
        assert(epoch_kept_at(evw, rel, entries[j].0));
        lemma_pos_fields_bounded(rel);
        lemma_pack_fields(e, pos_block(rel), pos_offset(rel));
        lemma_unpack_fields(rel);
        assert(spec_pack(0, pos_block(rel), pos_offset(rel)) == rel);
        assert(leaf_pos_valid(base, pairs[j].1));
        assert(leaf_at(base, pairs[j].1) == epoch_leaf_at(evw, rel));
    }
    assert forall|k: u64, j: int|
        #[trigger] om.contains_key(k) && 0 <= j < pairs.len() implies om[k] != (
    #[trigger] pairs[j]).1 by {
        let rel = entries[j].1;
        lemma_pos_fields_bounded(rel);
        lemma_pack_fields(e, pos_block(rel), pos_offset(rel));
        assert(kept_at(v0, om[k], k));
    }
    assert forall|q: u64, c: u64|
        q < POSITION_LIMIT && #[trigger] kept_at(base, q, c) implies (om.contains_key(c) && om[c]
        == q) || exists|j: int| 0 <= j < pairs.len() && (#[trigger] pairs[j]) == (c, q) by {
        if pos_epoch(q) == e {
            let rel = spec_pack(0, pos_block(q), pos_offset(q));
            assert(epoch_kept_at(evw, rel, c) && leaf_at(base, q) == epoch_leaf_at(evw, rel));
            lemma_pos_fields_bounded(q);
            lemma_pack_fields(0, pos_block(q), pos_offset(q));
            assert(em.contains_key(c) && em[c] == rel);
            lemma_unpack_fields(q);
            let j = choose|j: int| 0 <= j < entries.len() && (#[trigger] entries[j]).0 == c;
            assert(pairs[j] == (c, spec_pack(e, pos_block(rel), pos_offset(rel))));
            assert(spec_pack(e, pos_block(rel), pos_offset(rel)) == q);
        } else {
            assert(kept_at(v0, q, c));
        }
    }
    assert forall|p: u64| evicted_upto(om, pairs, pairs.len() as int).contains(
        p,
    ) implies bulk_evicted(om, em).contains(p) by {
        let j = choose|j: int|
            0 <= j < pairs.len() && om.contains_key((#[trigger] pairs[j]).0) && om[pairs[j].0]
                == p;
        assert(em.contains_key((entries[j]).0));
    }
    assert forall|p: u64| bulk_evicted(om, em).contains(p) implies evicted_upto(
        om,
        pairs,
        pairs.len() as int,
    ).contains(p) by {
        let c = choose|c: u64| #[trigger]
            em.contains_key(c) && om.contains_key(c) && om[c] == p;
        let j = choose|j: int| 0 <= j < entries.len() && (#[trigger] entries[j]).0 == c;
        assert(om.contains_key((pairs[j]).0) && om[(pairs[j]).0] == p);
    }
    assert(evicted_upto(om, pairs, pairs.len() as int) =~= bulk_evicted(om, em));
}

/// The obligations of merging the single entry for a freshly kept leaf: the
/// entry points at the new leaf, no old index entry points there, and every
/// kept leaf of the appended structure is covered by the old index or the
/// entry.
proof fn lemma_leaf_merge_obligations(v0: Seq<EpochV>, om: Map<u64, u64>, c0: u64)
    requires
        tree_shape_wf(v0),
        can_append_leaf(v0),
        forall|k: u64| #[trigger]
            om.contains_key(k) ==> om[k] < POSITION_LIMIT && kept_at(v0, om[k], k),
        forall|q: u64, c: u64|
            q < POSITION_LIMIT && #[trigger] kept_at(v0, q, c) ==> om.contains_key(c) && om[c]
                == q,
    ensures
        ({
            let base = append_leaf_view(v0, LeafV::Kept(c0));
            let npos = next_leaf_pos(v0);
            let pairs = seq![(c0, npos)];
            &&& distinct_keys(pairs)
            &&& forall|k: u64| #[trigger]
                om.contains_key(k) ==> om[k] < POSITION_LIMIT && kept_at(base, om[k], k)
            &&& forall|j: int|
                0 <= j < pairs.len() ==> (#[trigger] pairs[j]).1 < POSITION_LIMIT && kept_at(
                    base,
                    pairs[j].1,
                    pairs[j].0,
                )
            &&& forall|k: u64, j: int|
                #[trigger] om.contains_key(k) && 0 <= j < pairs.len() ==> om[k] != (
                #[trigger] pairs[j]).1
            &&& forall|q: u64, c: u64|
                q < POSITION_LIMIT && #[trigger] kept_at(base, q, c) ==> (om.contains_key(c)
                    && om[c] == q) || exists|j: int|
                    0 <= j < pairs.len() && (#[trigger] pairs[j]) == (c, q)
        }),
{
    lemma_append_leaf_view_pointwise(v0, LeafV::Kept(c0));
    let base = append_leaf_view(v0, LeafV::Kept(c0));
    let npos = next_leaf_pos(v0);
    let pairs = seq![(c0, npos)];
    assert forall|q: u64, c: u64|
        q < POSITION_LIMIT && #[trigger] kept_at(base, q, c) implies (om.contains_key(c) && om[c]
        == q) || exists|j: int| 0 <= j < pairs.len() && (#[trigger] pairs[j]) == (c, q) by {
        if q == npos {
            assert(pairs[0] == (c, q));
        } else {
            assert(kept_at(v0, q, c));
        }
    }
}

/// The well-formedness of the accumulator after appending and merging: every
/// merged key points at its new leaf, every untouched key still points at
/// its old leaf, every overwritten position was reduced to its digest, and
/// every kept leaf is indexed.
///
/// `base` is the structure after the append and before the merge's prunes,
/// `om` the index before the merge, and `pairs` the merged entries with
/// their positions already fully composed.
proof fn lemma_wf_after_merge(
    base: Seq<EpochV>,
    om: Map<u64, u64>,
    pairs: Seq<(u64, u64)>,
    fm: Map<u64, u64>,
    fv: Seq<EpochV>,
)
    requires
        tree_shape_wf(base),
        distinct_keys(pairs),
        forall|k: u64| #[trigger]
            om.contains_key(k) ==> om[k] < POSITION_LIMIT && kept_at(base, om[k], k),
        forall|j: int|
            0 <= j < pairs.len() ==> (#[trigger] pairs[j]).1 < POSITION_LIMIT && kept_at(
                base,
                pairs[j].1,
                pairs[j].0,
            ),
        forall|k: u64, j: int|
            #[trigger] om.contains_key(k) && 0 <= j < pairs.len() ==> om[k] != (#[trigger] pairs[j]).1,
        forall|q: u64, c: u64|
            q < POSITION_LIMIT && #[trigger] kept_at(base, q, c) ==> (om.contains_key(c) && om[c]
                == q) || exists|j: int| 0 <= j < pairs.len() && (#[trigger] pairs[j]) == (c, q),
        forall|k: u64| #[trigger]
            fm.contains_key(k) ==> om.contains_key(k) || exists|j: int|
                0 <= j < pairs.len() && (#[trigger] pairs[j]).0 == k,
        forall|k: u64| #[trigger] om.contains_key(k) ==> fm.contains_key(k),
        forall|j: int|
            0 <= j < pairs.len() ==> fm.contains_key((#[trigger] pairs[j]).0) && fm[pairs[j].0]
                == pairs[j].1,
        forall|k: u64| #[trigger]
            om.contains_key(k) && !(exists|j: int|
                0 <= j < pairs.len() && (#[trigger] pairs[j]).0 == k) ==> fm[k] == om[k],
        fv == prune_where(base, evicted_upto(om, pairs, pairs.len() as int)),
    ensures
        tree_shape_wf(fv),
        forall|k: u64| #[trigger]
            fm.contains_key(k) ==> fm[k] < POSITION_LIMIT && kept_at(fv, fm[k], k),
        forall|q: u64, c: u64|
            q < POSITION_LIMIT && #[trigger] kept_at(fv, q, c) ==> fm.contains_key(c) && fm[c]
                == q,
{
    let n = pairs.len() as int;
    let evs = evicted_upto(om, pairs, n);
    lemma_prune_where_pointwise(base, evs);
    assert(tree_shape_wf(fv));
    assert forall|k: u64| #[trigger] fm.contains_key(k) implies fm[k] < POSITION_LIMIT && kept_at(
        fv,
        fm[k],
        k,
    ) by {
        if exists|j: int| 0 <= j < n && (#[trigger] pairs[j]).0 == k {
            let j = choose|j: int| 0 <= j < n && (#[trigger] pairs[j]).0 == k;
            assert(fm[k] == pairs[j].1);
            assert(kept_at(base, fm[k], k));
            assert(!evs.contains(fm[k])) by {
                if evs.contains(fm[k]) {
                    let j2 = choose|j2: int|
                        0 <= j2 < n && om.contains_key((#[trigger] pairs[j2]).0)
                            && om[(pairs[j2]).0] == fm[k];
                    assert(om[(pairs[j2]).0] != pairs[j].1);
                }
            }
        } else {
            assert(om.contains_key(k) && fm[k] == om[k]);
            assert(kept_at(base, om[k], k));
            assert(!evs.contains(om[k])) by {
                if evs.contains(om[k]) {
                    let j2 = choose|j2: int|
                        0 <= j2 < n && om.contains_key((#[trigger] pairs[j2]).0)
                            && om[(pairs[j2]).0] == om[k];
                    let c2 = pairs[j2].0;
                    assert(kept_at(base, om[c2], c2));
                    assert(leaf_at(base, om[k]) == LeafV::Kept(k));
                    assert(c2 == k);
                }
            }
        }
    }
    assert forall|q: u64, c: u64|
        q < POSITION_LIMIT && #[trigger] kept_at(fv, q, c) implies fm.contains_key(c) && fm[c]
        == q by {
        assert(leaf_pos_valid(base, q));
        assert(!evs.contains(q)) by {
            if evs.contains(q) {
                assert(leaf_at(fv, q) == prune_leaf(leaf_at(base, q)));
            }
        }
        assert(kept_at(base, q, c));
        if exists|j: int| 0 <= j < n && (#[trigger] pairs[j]) == (c, q) {
            let j = choose|j: int| 0 <= j < n && (#[trigger] pairs[j]) == (c, q);
            assert(fm[c] == pairs[j].1);
        } else {
            assert(om.contains_key(c) && om[c] == q);
            assert(!(exists|j: int| 0 <= j < n && (#[trigger] pairs[j]).0 == c)) by {
                if exists|j: int| 0 <= j < n && (#[trigger] pairs[j]).0 == c {
                    let j = choose|j: int| 0 <= j < n && (#[trigger] pairs[j]).0 == c;
                    assert(evs.contains(q)) by {
                        assert(om.contains_key(pairs[j].0) && om[pairs[j].0] == q);
                    }
                }
            }
            assert(fm[c] == om[c]);
        }
    }
}

} // verus!
