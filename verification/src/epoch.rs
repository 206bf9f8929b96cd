//! An epoch: the middle tier plus a local index from commitment values to
//! the epoch-relative (block, offset) position of each witnessable
//! commitment, packed into the low 32 bits of a word.

use vstd::prelude::*;

use crate::block::Block;
use crate::index_map::{index_entries, index_insert, index_new};
use crate::tier::{
    block_inner_view, close_open_block, epoch_inner_append_leaf, epoch_inner_caches_ok,
    epoch_inner_view, forget_at_epoch, hash_epoch_inner, BlockSlot, EpochInner, LeafAppendError,
};
use crate::view::{
    append_leaf_blocks, blocks_shape_wf, bulk_evicted, can_append_leaf_blocks, distinct_keys,
    epoch_hash, epoch_kept_at, epoch_leaf_at, epoch_leaf_pos_valid, evicted_upto,
    lemma_append_block_pointwise, lemma_append_leaf_blocks_pointwise, lemma_merged_map_pointwise,
    lemma_prune_blocks_where_compose, lemma_prune_blocks_where_empty,
    lemma_prune_blocks_where_pointwise, merged_map, next_leaf_coords, prune_blocks_where,
    prune_leaf, BlockV, LeafV,
};
use crate::{
    lemma_pack_fields, pack, pos_block, pos_offset, spec_pack, Commitment, Insert, Witness,
    POSITION_LIMIT, TIER_CAPACITY,
};

verus! {

/// The root hash of an epoch.
#[derive(Debug, Clone, Copy, PartialEq, Eq, Structural)]
pub struct Root(pub crate::Hash);

/// An error when inserting a commitment into an epoch.
#[derive(Debug, Clone, Copy, PartialEq, Eq, Structural)]
pub enum InsertError {
    /// The epoch was full.
    Full,
    /// The most recent block of the epoch was full.
    BlockFull,
    /// The most recent block of the epoch was inserted as a summary, so it
    /// cannot take further commitments.
    BlockForgotten,
}

/// The epoch was full when trying to insert a block: the rejected block is
/// returned unchanged.
pub struct InsertBlockError(pub Block);

/// The epoch was full when trying to insert a block root.
#[derive(Debug, Clone, Copy, PartialEq, Eq, Structural)]
pub struct InsertBlockRootError;

/// An epoch: up to 65,536 block slots and an index of the commitments that
/// are still witnessable in it.
pub struct Epoch {
    /// Maps each witnessable commitment value to its packed epoch-relative
    /// position.
    pub index: hash_hasher::HashedMap<u64, u64>,
    /// The block slots.
    pub inner: EpochInner,
}

impl Epoch {
    /// The block slots this epoch holds, as their model.
    pub open spec fn view_spec(self) -> Seq<BlockV> {
        epoch_inner_view(self.inner)
    }

    /// The index as a mathematical map.
    pub open spec fn index_spec(self) -> Map<u64, u64> {
        self.index@
    }

    /// Well-formedness: capacities respected, every digest memo true, and
    /// the index holds exactly the commitments kept witnessable, each at its
    /// true epoch-relative position.
    pub open spec fn wf(self) -> bool {
        let ev = self.view_spec();
        &&& blocks_shape_wf(ev)
        &&& epoch_inner_caches_ok(self.inner)
        &&& forall|k: u64| #[trigger]
            self.index@.contains_key(k) ==> self.index@[k] < 0x1_0000_0000u64 && epoch_kept_at(
                ev,
                self.index@[k],
                k,
            )
        &&& forall|q: u64, c: u64|
            q < POSITION_LIMIT && #[trigger] epoch_kept_at(ev, q, c)
                ==> self.index@.contains_key(c) && self.index@[c] == q
    }

    /// A new, empty epoch.
    pub fn new() -> (e: Epoch)
        ensures
            e.wf(),
            e.view_spec() == Seq::<BlockV>::empty(),
            e.index_spec() == Map::<u64, u64>::empty(),
    {
        let e = Epoch { index: index_new(), inner: EpochInner { slots: Vec::new() } };
        proof {
            assert(e.view_spec() =~= Seq::<BlockV>::empty());
        }
        e
    }

    /// Append one commitment to the open block, either kept witnessable
    /// (`Keep`) or reduced at once to its digest (`Forget`). The first block
    /// opens on demand; a full or summarized open block rejects the
    /// insertion, and a kept commitment that was already present is
    /// re-pointed at its new position, its old leaf reduced to its digest.
    pub fn insert(&mut self, witness: Witness, commitment: Commitment) -> (r: Result<
        (),
        InsertError,
    >)
        requires
            old(self).wf(),
        ensures
            final(self).wf(),
            match r {
                Ok(()) => {
                    &&& can_append_leaf_blocks(old(self).view_spec())
                    &&& ({
                        let l = match witness {
                            Witness::Keep => LeafV::Kept(commitment.0),
                            Witness::Forget => LeafV::Pruned(
                                crate::spec_hash_commitment(commitment.0),
                            ),
                        };
                        let base = append_leaf_blocks(old(self).view_spec(), l);
                        let coords = next_leaf_coords(old(self).view_spec());
                        let npos = spec_pack(0, coords.0, coords.1);
                        match witness {
                            Witness::Forget => {
                                &&& final(self).view_spec() == base
                                &&& final(self).index_spec() == old(self).index_spec()
                            },
                            Witness::Keep => {
                                &&& final(self).index_spec() == old(self).index_spec().insert(
                                    commitment.0,
                                    npos,
                                )
                                &&& final(self).view_spec() == if old(self).index_spec().contains_key(commitment.0) {
                                    prune_blocks_where(
                                        base,
                                        Set::empty().insert(
                                            old(self).index_spec()[commitment.0],
                                        ),
                                    )
                                } else {
                                    base
                                }
                                &&& epoch_hash(final(self).view_spec()) == epoch_hash(base)
                            },
                        }
                    })
                },
                Err(k) => {
                    &&& !can_append_leaf_blocks(old(self).view_spec())
                    &&& final(self).view_spec() == old(self).view_spec()
                    &&& final(self).index_spec() == old(self).index_spec()
                    &&& (k is BlockForgotten <==> old(self).view_spec().last() is Pruned)
                    &&& (k is BlockFull <==> old(self).view_spec().last() is Kept)
                },
            },
    {
        let ghost ev = self.view_spec();
        let item = match witness {
            Witness::Keep => Insert::Keep(commitment),
            Witness::Forget => Insert::Hash(crate::Hash::of(commitment)),
        };
        let ghost l = crate::tier::leaf_view(item);
        match epoch_inner_append_leaf(&mut self.inner, item) {
            Err(LeafAppendError::BlockForgotten) => Err(InsertError::BlockForgotten),
            Err(LeafAppendError::BlockFull) => Err(InsertError::BlockFull),
            Ok((b, o)) => {
                proof {
                    lemma_append_leaf_blocks_pointwise(ev, l);
                }
                match witness {
                    Witness::Forget => {
                        proof {
                            lemma_wf_after_forget_append(*old(self), *self, l);
                        }
                        Ok(())
                    },
                    Witness::Keep => {
                        let npos = pack(0, b, o);
                        proof {
                            lemma_pack_fields(0, b, o);
                        }
                        let evicted = index_insert(&mut self.index, commitment.0, npos);
                        match evicted {
                            None => {
                                proof {
                                    lemma_wf_after_keep_append(*old(self), *self, commitment.0);
                                }
                                Ok(())
                            },
                            Some(rold) => {
                                proof {
                                    assert(epoch_kept_at(ev, rold, commitment.0));
                                    lemma_prune_blocks_where_pointwise(
                                        epoch_inner_view(self.inner),
                                        Set::empty().insert(rold),
                                    );
                                }
                                forget_at_epoch(&mut self.inner, rold);
                                proof {
                                    lemma_wf_after_keep_append_evict(
                                        *old(self),
                                        *self,
                                        commitment.0,
                                        rold,
                                    );
                                    crate::view::lemma_prune_blocks_where_hash(
                                        append_leaf_blocks(ev, l),
                                        Set::empty().insert(rold),
                                    );
                                }
                                Ok(())
                            },
                        }
                    },
                }
            },
        }
    }

    /// Append a whole block, closing the open block slot, and absorb the
    /// block's local index into this epoch's, every position composed with
    /// the fresh block coordinate. Positions the merge silently overwrites
    /// are reduced to their digests. Fails exactly when the epoch is at
    /// capacity, returning the block unchanged.
    #[verifier::loop_isolation(false)]
    pub fn insert_block(&mut self, block: Block) -> (r: Result<(), InsertBlockError>)
        requires
            old(self).wf(),
            block.wf(),
        ensures
            final(self).wf(),
            match r {
                Ok(()) => {
                    &&& old(self).view_spec().len() < 65536
                    &&& final(self).view_spec() == prune_blocks_where(
                        old(self).view_spec().push(BlockV::Kept(block.view_spec())),
                        bulk_evicted(old(self).index_spec(), block.index_spec()),
                    )
                    &&& epoch_hash(final(self).view_spec()) == epoch_hash(
                        old(self).view_spec().push(BlockV::Kept(block.view_spec())),
                    )
                    &&& ({
                        let b = old(self).view_spec().len() as u64;
                        let fm = final(self).index_spec();
                        let om = old(self).index_spec();
                        let bm = block.index_spec();
                        &&& forall|k: u64|
                            #[trigger] fm.contains_key(k) <==> om.contains_key(k)
                                || bm.contains_key(k)
                        &&& forall|k: u64| #[trigger]
                            bm.contains_key(k) ==> fm[k] == spec_pack(0, b, bm[k])
                        &&& forall|k: u64| #[trigger]
                            om.contains_key(k) && !bm.contains_key(k) ==> fm[k] == om[k]
                    })
                },
                Err(e) => {
                    &&& e == InsertBlockError(block)
                    &&& old(self).view_spec().len() == 65536
                    &&& final(self).view_spec() == old(self).view_spec()
                    &&& final(self).index_spec() == old(self).index_spec()
                },
            },
    {
        if self.inner.slots.len() == TIER_CAPACITY {
            return Err(InsertBlockError(block));
        }
        let ghost ev = self.view_spec();
        let ghost om = self.index@;
        let ghost bm = block.index@;
        let Block { index: bindex, inner: binner } = block;
        let ghost bv = block_inner_view(binner);
        close_open_block(&mut self.inner);
        let b = self.inner.slots.len();
        self.inner.slots.push(BlockSlot::Full(None, binner));
        let ghost base = ev.push(BlockV::Kept(bv));
        proof {
            assert(epoch_inner_view(self.inner) =~= base);
            lemma_append_block_pointwise(ev, BlockV::Kept(bv));
            lemma_prune_blocks_where_empty(base);
            assert(evicted_upto(om, Seq::<(u64, u64)>::empty(), 0) =~= Set::<u64>::empty());
        }
        let entries = index_entries(&bindex);
        let ghost f = |off: u64| spec_pack(0, b as u64, off);
        proof {
            assert(evicted_upto(om, entries@, 0) =~= Set::<u64>::empty());
            assert(epoch_inner_view(self.inner) == prune_blocks_where(
                base,
                evicted_upto(om, entries@, 0),
            ));
        }
        let mut i: usize = 0;
        while i < entries.len()
            invariant
                0 <= i <= entries@.len(),
                self.index@ == merged_map(om, entries@, i as int, f),
                epoch_inner_view(self.inner) == prune_blocks_where(
                    base,
                    evicted_upto(om, entries@, i as int),
                ),
                epoch_inner_caches_ok(self.inner),
            decreases entries@.len() - i,
        {
            let pair = entries[i];
            let c = pair.0;
            let off = pair.1;
            proof {
                assert(bm.contains_key(c) && bm[c] == off);
                assert(off < bv.len());
                lemma_merged_map_pointwise(om, entries@, i as int, f);
                lemma_prune_blocks_where_pointwise(base, evicted_upto(om, entries@, i as int));
            }
            let rel = pack(0, b as u64, off);
            proof {
                lemma_pack_fields(0, b as u64, off);
            }
            let evicted = index_insert(&mut self.index, c, rel);
            proof {
                assert(self.index@ == merged_map(om, entries@, i as int + 1, f));
                assert(forall|j: int| 0 <= j < i ==> (#[trigger] entries@[j]).0 != c);
            }
            match evicted {
                None => {
                    proof {
                        assert(!om.contains_key(c));
                        assert(evicted_upto(om, entries@, i as int + 1) =~= evicted_upto(
                            om,
                            entries@,
                            i as int,
                        ));
                    }
                },
                Some(rold) => {
                    proof {
                        assert(om.contains_key(c) && rold == om[c]);
                        assert(epoch_kept_at(ev, rold, c));
                        assert(epoch_leaf_pos_valid(base, rold));
                        assert(epoch_leaf_pos_valid(epoch_inner_view(self.inner), rold));
                        assert(blocks_shape_wf(epoch_inner_view(self.inner)));
                    }
                    forget_at_epoch(&mut self.inner, rold);
                    proof {
                        lemma_prune_blocks_where_compose(
                            base,
                            evicted_upto(om, entries@, i as int),
                            Set::empty().insert(rold),
                        );
                        assert(evicted_upto(om, entries@, i as int).union(
                            Set::empty().insert(rold),
                        ) =~= evicted_upto(om, entries@, i as int + 1));
                    }
                },
            }
            i = i + 1;
        }
        proof {
            let n = entries@.len() as int;
            assert(evicted_upto(om, entries@, n) =~= bulk_evicted(om, bm));
            lemma_merged_map_pointwise(om, entries@, n, f);
            lemma_prune_blocks_where_pointwise(base, bulk_evicted(om, bm));
            lemma_wf_after_insert_block(
                ev,
                om,
                bv,
                bm,
                self.index@,
                epoch_inner_view(self.inner),
                entries@,
            );
            crate::view::lemma_prune_blocks_where_hash(base, bulk_evicted(om, bm));
        }
        Ok(())
    }

    /// Append the root hash of a block as a summary-only slot, closing the
    /// open block slot. It contributes no index entries. Fails exactly when
    /// the epoch is at capacity.
    pub fn insert_block_root(&mut self, block_root: crate::block::Root) -> (r: Result<
        (),
        InsertBlockRootError,
    >)
        requires
            old(self).wf(),
        ensures
            final(self).wf(),
            match r {
                Ok(()) => {
                    &&& old(self).view_spec().len() < 65536
                    &&& final(self).view_spec() == old(self).view_spec().push(
                        BlockV::Pruned(block_root.0.0),
                    )
                    &&& final(self).index_spec() == old(self).index_spec()
                },
                Err(_) => {
                    &&& old(self).view_spec().len() == 65536
                    &&& final(self).view_spec() == old(self).view_spec()
                    &&& final(self).index_spec() == old(self).index_spec()
                },
            },
    {
        if self.inner.slots.len() == TIER_CAPACITY {
            return Err(InsertBlockRootError);
        }
        let ghost ev = self.view_spec();
        close_open_block(&mut self.inner);
        self.inner.slots.push(BlockSlot::Summary(block_root.0));
        proof {
            assert(epoch_inner_view(self.inner) =~= ev.push(BlockV::Pruned(block_root.0.0)));
            lemma_append_block_pointwise(ev, BlockV::Pruned(block_root.0.0));
            let base = epoch_inner_view(self.inner);
            assert forall|q: u64, c: u64|
                q < POSITION_LIMIT && #[trigger] epoch_kept_at(base, q, c) implies self.index@
                .contains_key(c) && self.index@[c] == q by {
                assert(epoch_leaf_pos_valid(base, q));
                assert(pos_block(q) != ev.len());
                assert(epoch_kept_at(ev, q, c));
            }
        }
        Ok(())
    }

    /// The root hash of this epoch.
    pub fn root(&self) -> (r: Root)
        requires
            self.wf(),
        ensures
            r.0.0 == epoch_hash(self.view_spec()),
    {
        Root(crate::Hash(hash_epoch_inner(&self.inner)))
    }

    /// Whether no block slot has been appended yet.
    pub fn is_empty(&self) -> (r: bool)
        ensures
            r <==> self.view_spec().len() == 0,
    {
        self.inner.slots.len() == 0
    }
}

/// The well-formedness of an epoch's index after a bulk block merge: every
/// merged key points at its leaf in the fresh block, every untouched key
/// still points at its old leaf, and every kept leaf is indexed.
proof fn lemma_wf_after_insert_block(
    ev: Seq<BlockV>,
    om: Map<u64, u64>,
    bv: Seq<LeafV>,
    bm: Map<u64, u64>,
    fm: Map<u64, u64>,
    fv: Seq<BlockV>,
    entries: Seq<(u64, u64)>,
)
    requires
        blocks_shape_wf(ev),
        ev.len() < 65536,
        bv.len() <= 65536,
        forall|k: u64| #[trigger]
            om.contains_key(k) ==> om[k] < 0x1_0000_0000u64 && epoch_kept_at(ev, om[k], k),
        forall|q: u64, c: u64|
            q < POSITION_LIMIT && #[trigger] epoch_kept_at(ev, q, c) ==> om.contains_key(c)
                && om[c] == q,
        forall|k: u64| #[trigger]
            bm.contains_key(k) ==> bm[k] < bv.len() && bv[bm[k] as int] == LeafV::Kept(k),
        forall|o: int|
            0 <= o < bv.len() ==> (#[trigger] bv[o] matches LeafV::Kept(c) ==> bm.contains_key(c)
                && bm[c] == o as u64),
        distinct_keys(entries),
        forall|i: int|
            0 <= i < entries.len() ==> bm.contains_key((#[trigger] entries[i]).0)
                && entries[i].1 == bm[entries[i].0],
        forall|k: u64| #[trigger]
            bm.contains_key(k) ==> exists|i: int|
                0 <= i < entries.len() && (#[trigger] entries[i]).0 == k,
        fm == merged_map(
            om,
            entries,
            entries.len() as int,
            |off: u64| spec_pack(0, ev.len() as u64, off),
        ),
        fv == prune_blocks_where(ev.push(BlockV::Kept(bv)), bulk_evicted(om, bm)),
    ensures
        blocks_shape_wf(fv),
        forall|k: u64| #[trigger]
            fm.contains_key(k) ==> fm[k] < 0x1_0000_0000u64 && epoch_kept_at(fv, fm[k], k),
        forall|q: u64, c: u64|
            q < POSITION_LIMIT && #[trigger] epoch_kept_at(fv, q, c) ==> fm.contains_key(c)
                && fm[c] == q,
{
    let b = ev.len() as u64;
    let f = |off: u64| spec_pack(0, b, off);
    let base = ev.push(BlockV::Kept(bv));
    let evs = bulk_evicted(om, bm);
    let n = entries.len() as int;
    lemma_merged_map_pointwise(om, entries, n, f);
    lemma_append_block_pointwise(ev, BlockV::Kept(bv));
    lemma_prune_blocks_where_pointwise(base, evs);
    assert(blocks_shape_wf(fv));
    assert forall|p: u64| evs.contains(p) implies pos_block(p) < b by {
        let c = choose|c: u64| #[trigger]
            bm.contains_key(c) && om.contains_key(c) && om[c] == p;
        assert(epoch_kept_at(ev, p, c));
    }
    assert forall|k: u64| #[trigger] fm.contains_key(k) implies fm[k] < 0x1_0000_0000u64
        && epoch_kept_at(fv, fm[k], k) by {
        if exists|j: int| 0 <= j < n && (#[trigger] entries[j]).0 == k {
            let j = choose|j: int| 0 <= j < n && (#[trigger] entries[j]).0 == k;
            let off = entries[j].1;
            assert(fm[k] == f(off));
            assert(off == bm[k] && off < bv.len());
            lemma_pack_fields(0, b, off);
            assert(epoch_leaf_pos_valid(base, fm[k]));
            assert(epoch_leaf_at(base, fm[k]) == LeafV::Kept(k));
            assert(!evs.contains(fm[k]));
        } else {
            assert(om.contains_key(k) && fm[k] == om[k]);
            assert(epoch_kept_at(ev, om[k], k));
            assert(epoch_leaf_at(base, om[k]) == LeafV::Kept(k));
            assert(!evs.contains(om[k])) by {
                if evs.contains(om[k]) {
                    let c = choose|c: u64| #[trigger]
                        bm.contains_key(c) && om.contains_key(c) && om[c] == om[k];
                    assert(epoch_kept_at(ev, om[c], c));
                    assert(epoch_leaf_at(ev, om[k]) == LeafV::Kept(k));
                    assert(c == k);
                }
            }
        }
    }
    assert forall|q: u64, c: u64|
        q < POSITION_LIMIT && #[trigger] epoch_kept_at(fv, q, c) implies fm.contains_key(c)
        && fm[c] == q by {
        assert(epoch_leaf_pos_valid(base, q));
        assert(!evs.contains(q)) by {
            if evs.contains(q) {
                assert(epoch_leaf_at(fv, q) == prune_leaf(epoch_leaf_at(base, q)));
            }
        }
        assert(epoch_leaf_at(base, q) == LeafV::Kept(c));
        if pos_block(q) == ev.len() {
            let off = pos_offset(q);
            assert(bv[off as int] == LeafV::Kept(c));
            assert(bm.contains_key(c) && bm[c] == off);
            crate::lemma_unpack_fields(q);
            assert(q == spec_pack(0, b, off));
            let j = choose|j: int| 0 <= j < n && (#[trigger] entries[j]).0 == c;
            assert(fm[c] == f(entries[j].1));
            assert(entries[j].1 == bm[c]);
        } else {
            assert(epoch_kept_at(ev, q, c));
            assert(om.contains_key(c) && om[c] == q);
            assert(!bm.contains_key(c)) by {
                if bm.contains_key(c) {
                    assert(evs.contains(q));
                }
            }
            assert(!(exists|j: int| 0 <= j < n && (#[trigger] entries[j]).0 == c));
            assert(fm[c] == om[c]);
        }
    }
}

/// The well-formedness of an epoch after appending a summarized leaf: the
/// index is untouched and no kept leaf moved.
proof fn lemma_wf_after_forget_append(pre: Epoch, post: Epoch, l: LeafV)
    requires
        pre.wf(),
        can_append_leaf_blocks(pre.view_spec()),
        l is Pruned,
        post.view_spec() == append_leaf_blocks(pre.view_spec(), l),
        post.index@ == pre.index@,
        epoch_inner_caches_ok(post.inner),
    ensures
        post.wf(),
{
    lemma_append_leaf_blocks_pointwise(pre.view_spec(), l);
    let base = post.view_spec();
    let coords = next_leaf_coords(pre.view_spec());
    let npos = spec_pack(0, coords.0, coords.1);
    assert forall|q: u64, c: u64|
        q < POSITION_LIMIT && #[trigger] epoch_kept_at(base, q, c) implies post.index@.contains_key(
        c,
    ) && post.index@[c] == q by {
        if q == npos {
            assert(epoch_leaf_at(base, q) == l);
        } else {
            assert(epoch_kept_at(pre.view_spec(), q, c));
        }
    }
}

/// The well-formedness of an epoch after appending a kept leaf that was not
/// previously indexed.
proof fn lemma_wf_after_keep_append(pre: Epoch, post: Epoch, c0: u64)
    requires
        pre.wf(),
        can_append_leaf_blocks(pre.view_spec()),
        !pre.index@.contains_key(c0),
        post.view_spec() == append_leaf_blocks(pre.view_spec(), LeafV::Kept(c0)),
        post.index@ == pre.index@.insert(
            c0,
            spec_pack(0, next_leaf_coords(pre.view_spec()).0, next_leaf_coords(pre.view_spec()).1),
        ),
        epoch_inner_caches_ok(post.inner),
    ensures
        post.wf(),
{
    lemma_append_leaf_blocks_pointwise(pre.view_spec(), LeafV::Kept(c0));
    let base = post.view_spec();
    let coords = next_leaf_coords(pre.view_spec());
    let npos = spec_pack(0, coords.0, coords.1);
    assert forall|q: u64, c: u64|
        q < POSITION_LIMIT && #[trigger] epoch_kept_at(base, q, c) implies post.index@.contains_key(
        c,
    ) && post.index@[c] == q by {
        if q != npos {
            assert(epoch_kept_at(pre.view_spec(), q, c));
            assert(c != c0);
        }
    }
}

/// The well-formedness of an epoch after appending a kept leaf that evicted
/// the older position of the same commitment.
proof fn lemma_wf_after_keep_append_evict(pre: Epoch, post: Epoch, c0: u64, rold: u64)
    requires
        pre.wf(),
        can_append_leaf_blocks(pre.view_spec()),
        pre.index@.contains_key(c0),
        rold == pre.index@[c0],
        post.view_spec() == prune_blocks_where(
            append_leaf_blocks(pre.view_spec(), LeafV::Kept(c0)),
            Set::empty().insert(rold),
        ),
        post.index@ == pre.index@.insert(
            c0,
            spec_pack(0, next_leaf_coords(pre.view_spec()).0, next_leaf_coords(pre.view_spec()).1),
        ),
        epoch_inner_caches_ok(post.inner),
    ensures
        post.wf(),
{
    lemma_append_leaf_blocks_pointwise(pre.view_spec(), LeafV::Kept(c0));
    let ev = pre.view_spec();
    let base = append_leaf_blocks(ev, LeafV::Kept(c0));
    let ps = Set::empty().insert(rold);
    lemma_prune_blocks_where_pointwise(base, ps);
    let coords = next_leaf_coords(ev);
    let npos = spec_pack(0, coords.0, coords.1);
    assert(epoch_kept_at(ev, rold, c0));
    assert(npos != rold) by {
        assert(epoch_leaf_pos_valid(ev, rold));
        lemma_pack_fields(0, coords.0, coords.1);
        assert(ev.len() > 0);
        assert(!epoch_leaf_pos_valid(ev, npos));
    }
    assert forall|k: u64| #[trigger] post.index@.contains_key(k) implies post.index@[k]
        < 0x1_0000_0000u64 && epoch_kept_at(post.view_spec(), post.index@[k], k) by {
        if k == c0 {
            assert(epoch_leaf_at(base, npos) == LeafV::Kept(c0));
        } else {
            assert(epoch_kept_at(ev, pre.index@[k], k));
            assert(pre.index@[k] != rold) by {
                assert(epoch_leaf_at(ev, pre.index@[k]) == LeafV::Kept(k));
                assert(epoch_leaf_at(ev, rold) == LeafV::Kept(c0));
            }
            assert(epoch_leaf_at(base, pre.index@[k]) == LeafV::Kept(k));
        }
    }
    assert forall|q: u64, c: u64|
        q < POSITION_LIMIT && #[trigger] epoch_kept_at(post.view_spec(), q, c) implies post.index@
        .contains_key(c) && post.index@[c] == q by {
        assert(epoch_leaf_pos_valid(base, q));
        if q == rold {
            assert(epoch_leaf_at(post.view_spec(), q) == prune_leaf(epoch_leaf_at(base, q)));
        } else {
            assert(epoch_leaf_at(post.view_spec(), q) == epoch_leaf_at(base, q));
            if q == npos {
                assert(c == c0);
            } else {
                assert(epoch_kept_at(ev, q, c));
                assert(c != c0) by {
                    if c == c0 {
                        assert(pre.index@[c0] == q);
                    }
                }
            }
        }
    }
}

} // verus!
