//! The concrete three-tier storage: fixed-capacity, append-only tiers of
//! slots with memoized digests on closed slots.
//!
//! Only the last slot of a tier is ever open for mutation; every earlier slot
//! is frozen, so its digest is computed once when it closes and cached beside
//! it. Forgetting replaces a leaf by the digest it already contributed, which
//! never invalidates any cache.

use vstd::prelude::*;

use crate::hash::{lemma_unpack_fields, LEAF_SEED, POSITION_LIMIT, TIER_CAPACITY};
use crate::view::{
    append_leaf_blocks, block_hash, block_v_hash, can_append_leaf_blocks, epoch_hash,
    epoch_v_hash, leaf_pos_valid, leaf_v_hash, lemma_fold_push, lemma_prune_single,
    lemma_take_succ, next_leaf_coords, prune_leaf, prune_where, tree_hash, tree_shape_wf, BlockV,
    EpochV, LeafV,
};
use crate::{mix, Commitment, Insert};
use vstd::slice::SliceAdditionalExecFns;

verus! {

/// The innermost tier: the ordered leaf slots of one block.
pub struct BlockInner {
    /// The appended leaf slots, oldest first.
    pub slots: Vec<Insert<Commitment>>,
}

/// One block slot of an epoch tier.
pub enum BlockSlot {
    /// A materialized block, with its digest memoized once the slot closes.
    Full(Option<crate::Hash>, BlockInner),
    /// An elided block: only the digest it contributes.
    Summary(crate::Hash),
}

/// The middle tier: the ordered block slots of one epoch.
pub struct EpochInner {
    /// The appended block slots, oldest first.
    pub slots: Vec<BlockSlot>,
}

/// One epoch slot of the top tier.
pub enum EpochSlot {
    /// A materialized epoch, with its digest memoized once the slot closes.
    Full(Option<crate::Hash>, EpochInner),
    /// An elided epoch: only the digest it contributes.
    Summary(crate::Hash),
}

/// The model of one leaf slot.
pub open spec fn leaf_view(s: Insert<Commitment>) -> LeafV {
    match s {
        Insert::Keep(c) => LeafV::Kept(c.0),
        Insert::Hash(h) => LeafV::Pruned(h.0),
    }
}

/// The model of a block: its ordered leaf slots.
pub open spec fn block_inner_view(b: BlockInner) -> Seq<LeafV> {
    b.slots@.map_values(|s: Insert<Commitment>| leaf_view(s))
}

/// The model of one block slot of an epoch.
pub open spec fn block_slot_view(s: BlockSlot) -> BlockV {
    match s {
        BlockSlot::Full(_, b) => BlockV::Kept(block_inner_view(b)),
        BlockSlot::Summary(h) => BlockV::Pruned(h.0),
    }
}

/// The model of an epoch: its ordered block slots.
pub open spec fn epoch_inner_view(e: EpochInner) -> Seq<BlockV> {
    e.slots@.map_values(|s: BlockSlot| block_slot_view(s))
}

/// The model of one epoch slot of the top tier.
pub open spec fn epoch_slot_view(s: EpochSlot) -> EpochV {
    match s {
        EpochSlot::Full(_, e) => EpochV::Kept(epoch_inner_view(e)),
        EpochSlot::Summary(h) => EpochV::Pruned(h.0),
    }
}

/// The model of the whole top tier.
pub open spec fn tree_view(slots: Seq<EpochSlot>) -> Seq<EpochV> {
    slots.map_values(|s: EpochSlot| epoch_slot_view(s))
}

/// A memoized block digest, when present, is the block's true digest.
pub open spec fn block_slot_cache_ok(s: BlockSlot) -> bool {
    s matches BlockSlot::Full(c, b) ==> (c matches Some(h) ==> h.0 == block_hash(
        block_inner_view(b),
    ))
}

/// Every memoized digest within an epoch is true.
pub open spec fn epoch_inner_caches_ok(e: EpochInner) -> bool {
    forall|i: int| 0 <= i < e.slots@.len() ==> block_slot_cache_ok(#[trigger] e.slots@[i])
}

/// Every memoized digest within an epoch slot is true, including the epoch's
/// own, when present.
pub open spec fn epoch_slot_cache_ok(s: EpochSlot) -> bool {
    s matches EpochSlot::Full(c, e) ==> {
        &&& epoch_inner_caches_ok(e)
        &&& (c matches Some(h) ==> h.0 == epoch_hash(epoch_inner_view(e)))
    }
}

/// Every memoized digest anywhere in the top tier is true.
pub open spec fn tree_caches_ok(slots: Seq<EpochSlot>) -> bool {
    forall|i: int| 0 <= i < slots.len() ==> epoch_slot_cache_ok(#[trigger] slots[i])
}

/// The digest one leaf slot contributes.
pub fn hash_leaf_slot(s: &Insert<Commitment>) -> (h: u64)
    ensures
        h == leaf_v_hash(leaf_view(*s)),
{
    match s {
        Insert::Keep(c) => mix(c.0, LEAF_SEED),
        Insert::Hash(hh) => hh.0,
    }
}

/// Recompute the digest of a materialized block from its leaf slots.
pub fn hash_block_inner(b: &BlockInner) -> (h: u64)
    ensures
        h == block_hash(block_inner_view(*b)),
{
    let ghost hs = block_inner_view(*b).map_values(|l: LeafV| leaf_v_hash(l));
    let mut acc: u64 = crate::EMPTY_SEED;
    let mut i: usize = 0;
    while i < b.slots.len()
        invariant
            0 <= i <= b.slots@.len(),
            hs == block_inner_view(*b).map_values(|l: LeafV| leaf_v_hash(l)),
            hs.len() == b.slots@.len(),
            acc == crate::fold_hashes(hs.take(i as int)),
        decreases b.slots@.len() - i,
    {
        let sh = hash_leaf_slot(&b.slots[i]);
        proof {
            lemma_take_succ(hs, i as int);
            lemma_fold_push(hs.take(i as int), hs[i as int]);
        }
        acc = mix(acc, sh);
        i = i + 1;
    }
    proof {
        assert(hs.take(b.slots@.len() as int) =~= hs);
    }
    mix(acc, b.slots.len() as u64)
}

/// The digest one block slot contributes, from its memo when present.
pub fn hash_block_slot(s: &BlockSlot) -> (h: u64)
    requires
        block_slot_cache_ok(*s),
    ensures
        h == block_v_hash(block_slot_view(*s)),
{
    match s {
        BlockSlot::Summary(hh) => hh.0,
        BlockSlot::Full(cached, b) => match cached {
            Some(hh) => hh.0,
            None => hash_block_inner(b),
        },
    }
}

/// Recompute the digest of a materialized epoch from its block slots.
pub fn hash_epoch_inner(e: &EpochInner) -> (h: u64)
    requires
        epoch_inner_caches_ok(*e),
    ensures
        h == epoch_hash(epoch_inner_view(*e)),
{
    let ghost hs = epoch_inner_view(*e).map_values(|b: BlockV| block_v_hash(b));
    let mut acc: u64 = crate::EMPTY_SEED;
    let mut i: usize = 0;
    while i < e.slots.len()
        invariant
            0 <= i <= e.slots@.len(),
            epoch_inner_caches_ok(*e),
            hs == epoch_inner_view(*e).map_values(|b: BlockV| block_v_hash(b)),
            hs.len() == e.slots@.len(),
            acc == crate::fold_hashes(hs.take(i as int)),
        decreases e.slots@.len() - i,
    {
        let sh = hash_block_slot(&e.slots[i]);
        proof {
            lemma_take_succ(hs, i as int);
            lemma_fold_push(hs.take(i as int), hs[i as int]);
        }
        acc = mix(acc, sh);
        i = i + 1;
    }
    proof {
        assert(hs.take(e.slots@.len() as int) =~= hs);
    }
    mix(acc, e.slots.len() as u64)
}

/// The digest one epoch slot contributes, from its memo when present.
pub fn hash_epoch_slot(s: &EpochSlot) -> (h: u64)
    requires
        epoch_slot_cache_ok(*s),
    ensures
        h == epoch_v_hash(epoch_slot_view(*s)),
{
    match s {
        EpochSlot::Summary(hh) => hh.0,
        EpochSlot::Full(cached, e) => match cached {
            Some(hh) => hh.0,
            None => hash_epoch_inner(e),
        },
    }
}

/// Recompute the root digest of the whole top tier.
pub fn hash_tree(slots: &Vec<EpochSlot>) -> (h: u64)
    requires
        tree_caches_ok(slots@),
    ensures
        h == tree_hash(tree_view(slots@)),
{
    let ghost hs = tree_view(slots@).map_values(|x: EpochV| epoch_v_hash(x));
    let mut acc: u64 = crate::EMPTY_SEED;
    let mut i: usize = 0;
    while i < slots.len()
        invariant
            0 <= i <= slots@.len(),
            tree_caches_ok(slots@),
            hs == tree_view(slots@).map_values(|x: EpochV| epoch_v_hash(x)),
            hs.len() == slots@.len(),
            acc == crate::fold_hashes(hs.take(i as int)),
        decreases slots@.len() - i,
    {
        let sh = hash_epoch_slot(&slots[i]);
        proof {
            lemma_take_succ(hs, i as int);
            lemma_fold_push(hs.take(i as int), hs[i as int]);
        }
        acc = mix(acc, sh);
        i = i + 1;
    }
    proof {
        assert(hs.take(slots@.len() as int) =~= hs);
    }
    mix(acc, slots.len() as u64)
}

/// The digests of every leaf slot of a block except the one at `o`, in
/// order.
pub(crate) fn block_siblings_of(b: &BlockInner, o: usize) -> (r: Vec<crate::Hash>)
    requires
        o < b.slots@.len(),
    ensures
        r@.map_values(|h: crate::Hash| h.0) == block_inner_view(*b).map_values(
            |l: LeafV| leaf_v_hash(l),
        ).remove(o as int),
{
    let ghost hs = block_inner_view(*b).map_values(|l: LeafV| leaf_v_hash(l));
    let mut out: Vec<crate::Hash> = Vec::new();
    let mut i: usize = 0;
    while i < b.slots.len()
        invariant
            0 <= i <= b.slots@.len(),
            o < b.slots@.len(),
            hs == block_inner_view(*b).map_values(|l: LeafV| leaf_v_hash(l)),
            hs.len() == b.slots@.len(),
            out@.map_values(|h: crate::Hash| h.0) == if i <= o {
                hs.take(i as int)
            } else {
                hs.take(i as int).remove(o as int)
            },
        decreases b.slots@.len() - i,
    {
        let ghost pre = out@.map_values(|h: crate::Hash| h.0);
        if i != o {
            let h = hash_leaf_slot(&b.slots[i]);
            out.push(crate::Hash(h));
            proof {
                assert(out@.map_values(|h2: crate::Hash| h2.0) =~= pre.push(hs[i as int]));
                if i < o {
                    assert(pre.push(hs[i as int]) =~= hs.take(i as int + 1));
                } else {
                    assert(pre.push(hs[i as int]) =~= hs.take(i as int + 1).remove(o as int));
                }
            }
        } else {
            proof {
                assert(hs.take(i as int + 1).remove(o as int) =~= hs.take(i as int));
            }
        }
        i = i + 1;
    }
    proof {
        assert(hs.take(b.slots@.len() as int) =~= hs);
        assert(hs.take(b.slots@.len() as int).remove(o as int) =~= hs.remove(o as int));
    }
    out
}

/// The digests of every block slot of an epoch except the one at `b`, in
/// order.
pub(crate) fn epoch_siblings_of(e: &EpochInner, b: usize) -> (r: Vec<crate::Hash>)
    requires
        b < e.slots@.len(),
        epoch_inner_caches_ok(*e),
    ensures
        r@.map_values(|h: crate::Hash| h.0) == epoch_inner_view(*e).map_values(
            |x: BlockV| block_v_hash(x),
        ).remove(b as int),
{
    let ghost hs = epoch_inner_view(*e).map_values(|x: BlockV| block_v_hash(x));
    let mut out: Vec<crate::Hash> = Vec::new();
    let mut i: usize = 0;
    while i < e.slots.len()
        invariant
            0 <= i <= e.slots@.len(),
            b < e.slots@.len(),
            epoch_inner_caches_ok(*e),
            hs == epoch_inner_view(*e).map_values(|x: BlockV| block_v_hash(x)),
            hs.len() == e.slots@.len(),
            out@.map_values(|h: crate::Hash| h.0) == if i <= b {
                hs.take(i as int)
            } else {
                hs.take(i as int).remove(b as int)
            },
        decreases e.slots@.len() - i,
    {
        let ghost pre = out@.map_values(|h: crate::Hash| h.0);
        if i != b {
            let h = hash_block_slot(&e.slots[i]);
            out.push(crate::Hash(h));
            proof {
                assert(out@.map_values(|h2: crate::Hash| h2.0) =~= pre.push(hs[i as int]));
                if i < b {
                    assert(pre.push(hs[i as int]) =~= hs.take(i as int + 1));
                } else {
                    assert(pre.push(hs[i as int]) =~= hs.take(i as int + 1).remove(b as int));
                }
            }
        } else {
            proof {
                assert(hs.take(i as int + 1).remove(b as int) =~= hs.take(i as int));
            }
        }
        i = i + 1;
    }
    proof {
        assert(hs.take(e.slots@.len() as int) =~= hs);
        assert(hs.take(e.slots@.len() as int).remove(b as int) =~= hs.remove(b as int));
    }
    out
}

/// The digests of every epoch slot of the top tier except the one at `e`,
/// in order.
pub(crate) fn top_siblings_of(slots: &Vec<EpochSlot>, e: usize) -> (r: Vec<crate::Hash>)
    requires
        e < slots@.len(),
        tree_caches_ok(slots@),
    ensures
        r@.map_values(|h: crate::Hash| h.0) == tree_view(slots@).map_values(
            |x: EpochV| epoch_v_hash(x),
        ).remove(e as int),
{
    let ghost hs = tree_view(slots@).map_values(|x: EpochV| epoch_v_hash(x));
    let mut out: Vec<crate::Hash> = Vec::new();
    let mut i: usize = 0;
    while i < slots.len()
        invariant
            0 <= i <= slots@.len(),
            e < slots@.len(),
            tree_caches_ok(slots@),
            hs == tree_view(slots@).map_values(|x: EpochV| epoch_v_hash(x)),
            hs.len() == slots@.len(),
            out@.map_values(|h: crate::Hash| h.0) == if i <= e {
                hs.take(i as int)
            } else {
                hs.take(i as int).remove(e as int)
            },
        decreases slots@.len() - i,
    {
        let ghost pre = out@.map_values(|h: crate::Hash| h.0);
        if i != e {
            let h = hash_epoch_slot(&slots[i]);
            out.push(crate::Hash(h));
            proof {
                assert(out@.map_values(|h2: crate::Hash| h2.0) =~= pre.push(hs[i as int]));
                if i < e {
                    assert(pre.push(hs[i as int]) =~= hs.take(i as int + 1));
                } else {
                    assert(pre.push(hs[i as int]) =~= hs.take(i as int + 1).remove(e as int));
                }
            }
        } else {
            proof {
                assert(hs.take(i as int + 1).remove(e as int) =~= hs.take(i as int));
            }
        }
        i = i + 1;
    }
    proof {
        assert(hs.take(slots@.len() as int) =~= hs);
        assert(hs.take(slots@.len() as int).remove(e as int) =~= hs.remove(e as int));
    }
    out
}

/// Why one more leaf cannot be appended to an epoch's open block.
pub enum LeafAppendError {
    /// The open block is at capacity.
    BlockFull,
    /// The open block was inserted as a summary and cannot take leaves.
    BlockForgotten,
}

/// Append one leaf slot to an epoch, opening its first block on demand, and
/// report the (block, offset) coordinates the leaf occupies.
pub(crate) fn epoch_inner_append_leaf(e: &mut EpochInner, item: Insert<Commitment>) -> (r: Result<
    (u64, u64),
    LeafAppendError,
>)
    requires
        epoch_inner_caches_ok(*old(e)),
        crate::view::blocks_shape_wf(epoch_inner_view(*old(e))),
    ensures
        epoch_inner_caches_ok(*final(e)),
        match r {
            Ok(coords) => {
                &&& can_append_leaf_blocks(epoch_inner_view(*old(e)))
                &&& epoch_inner_view(*final(e)) == append_leaf_blocks(
                    epoch_inner_view(*old(e)),
                    leaf_view(item),
                )
                &&& coords == next_leaf_coords(epoch_inner_view(*old(e)))
                &&& final(e).slots@.len() == if old(e).slots@.len() == 0 {
                    1int
                } else {
                    old(e).slots@.len() as int
                }
            },
            Err(k) => {
                &&& !can_append_leaf_blocks(epoch_inner_view(*old(e)))
                &&& final(e).slots@ == old(e).slots@
                &&& (k is BlockForgotten <==> epoch_inner_view(*old(e)).last() is Pruned)
            },
        },
{
    let ghost bv = epoch_inner_view(*e);
    if e.slots.len() == 0 {
        let mut nb = BlockInner { slots: Vec::new() };
        nb.slots.push(item);
        e.slots.push(BlockSlot::Full(None, nb));
        proof {
            assert(block_inner_view(e.slots@.last()->Full_1) =~= seq![leaf_view(item)]);
            assert(epoch_inner_view(*e) =~~= append_leaf_blocks(bv, leaf_view(item)));
        }
        Ok((0, 0))
    } else {
        let last = e.slots.pop().unwrap();
        let ghost popped = e.slots@;
        match last {
            BlockSlot::Summary(h) => {
                e.slots.push(BlockSlot::Summary(h));
                proof {
                    assert(e.slots@ =~= old(e).slots@);
                }
                Err(LeafAppendError::BlockForgotten)
            },
            BlockSlot::Full(cached, mut b) => {
                if b.slots.len() == TIER_CAPACITY {
                    e.slots.push(BlockSlot::Full(cached, b));
                    proof {
                        assert(e.slots@ =~= old(e).slots@);
                        assert(bv.last() matches BlockV::Kept(leaves) && leaves.len() == 65536);
                    }
                    Err(LeafAppendError::BlockFull)
                } else {
                    let o = b.slots.len();
                    let ghost lv = block_inner_view(b);
                    b.slots.push(item);
                    let bi = e.slots.len();
                    e.slots.push(BlockSlot::Full(None, b));
                    proof {
                        assert(block_inner_view(e.slots@.last()->Full_1) =~= lv.push(
                            leaf_view(item),
                        ));
                        assert(bv[bi as int] == BlockV::Kept(lv));
                        assert(epoch_inner_view(*e) =~= bv.update(
                            bi as int,
                            BlockV::Kept(lv.push(leaf_view(item))),
                        ));
                        assert(epoch_inner_view(*e) =~= append_leaf_blocks(bv, leaf_view(item)));
                    }
                    Ok((bi as u64, o as u64))
                }
            },
        }
    }
}

/// Memoize the digest of the open block slot of an epoch, if it has none.
/// Called when the slot is about to close; changes nothing observable.
pub(crate) fn close_open_block(e: &mut EpochInner)
    requires
        epoch_inner_caches_ok(*old(e)),
    ensures
        epoch_inner_caches_ok(*final(e)),
        epoch_inner_view(*final(e)) == epoch_inner_view(*old(e)),
        final(e).slots@.len() == old(e).slots@.len(),
{
    let ghost bv = epoch_inner_view(*e);
    if e.slots.len() > 0 {
        let last = e.slots.pop().unwrap();
        match last {
            BlockSlot::Full(cached, b) => {
                let h = match cached {
                    Some(h) => h,
                    None => crate::Hash(hash_block_inner(&b)),
                };
                e.slots.push(BlockSlot::Full(Some(h), b));
                proof {
                    assert(epoch_inner_view(*e) =~= bv);
                }
            },
            BlockSlot::Summary(h) => {
                e.slots.push(BlockSlot::Summary(h));
                proof {
                    assert(e.slots@ =~= old(e).slots@);
                }
            },
        }
    }
}

/// Memoize the digest of the open epoch slot of the top tier, if it has
/// none. Called when the slot is about to close; changes nothing observable.
pub(crate) fn close_open_epoch(slots: &mut Vec<EpochSlot>)
    requires
        tree_caches_ok(old(slots)@),
    ensures
        tree_caches_ok(final(slots)@),
        tree_view(final(slots)@) == tree_view(old(slots)@),
        final(slots)@.len() == old(slots)@.len(),
{
    let ghost tv = tree_view(slots@);
    if slots.len() > 0 {
        let last = slots.pop().unwrap();
        match last {
            EpochSlot::Full(cached, e) => {
                let h = match cached {
                    Some(h) => h,
                    None => crate::Hash(hash_epoch_inner(&e)),
                };
                slots.push(EpochSlot::Full(Some(h), e));
                proof {
                    assert(tree_view(slots@) =~= tv);
                }
            },
            EpochSlot::Summary(h) => {
                slots.push(EpochSlot::Summary(h));
                proof {
                    assert(slots@ =~= old(slots)@);
                }
            },
        }
    }
}

/// Reduce the leaf slot at epoch-relative position `rel` to the digest it
/// contributes. No digest anywhere changes, so every memo stays true.
pub(crate) fn forget_at_epoch(e: &mut EpochInner, rel: u64)
    requires
        epoch_inner_caches_ok(*old(e)),
        crate::view::blocks_shape_wf(epoch_inner_view(*old(e))),
        crate::view::epoch_leaf_pos_valid(epoch_inner_view(*old(e)), rel),
        rel < POSITION_LIMIT,
    ensures
        epoch_inner_caches_ok(*final(e)),
        epoch_inner_view(*final(e)) == crate::view::prune_blocks_where(
            epoch_inner_view(*old(e)),
            Set::empty().insert(rel),
        ),
        final(e).slots@.len() == old(e).slots@.len(),
{
    let ghost ev = epoch_inner_view(*e);
    proof {
        lemma_unpack_fields(rel);
        crate::view::lemma_prune_blocks_single(ev, rel);
    }
    let bi = (crate::pos_block_exec(rel)) as usize;
    let oi = (crate::pos_offset_exec(rel)) as usize;
    let bslot = e.slots.remove(bi);
    match bslot {
        BlockSlot::Full(bcache, mut binner) => {
            let ghost lv = block_inner_view(binner);
            let leaf = binner.slots[oi];
            match leaf {
                Insert::Keep(c) => {
                    let h = crate::Hash::of(c);
                    binner.slots.set(oi, Insert::Hash(h));
                },
                Insert::Hash(_) => {},
            }
            proof {
                assert(block_inner_view(binner) =~= lv.update(
                    oi as int,
                    prune_leaf(lv[oi as int]),
                ));
                assert(block_hash(block_inner_view(binner)) == block_hash(lv)) by {
                    crate::view::lemma_map_values_update(
                        lv,
                        oi as int,
                        prune_leaf(lv[oi as int]),
                        |l: LeafV| leaf_v_hash(l),
                    );
                }
            }
            let nb = BlockSlot::Full(bcache, binner);
            e.slots.insert(bi, nb);
            proof {
                assert(epoch_inner_view(*e) =~= ev.update(
                    bi as int,
                    BlockV::Kept(lv.update(oi as int, prune_leaf(lv[oi as int]))),
                ));
                assert(epoch_inner_view(*e) =~~= crate::view::prune_blocks_where(
                    ev,
                    Set::empty().insert(rel),
                ));
            }
        },
        BlockSlot::Summary(h) => {
            proof {
                assert(false);
            }
            e.slots.insert(bi, BlockSlot::Summary(h));
        },
    }
}

/// Reduce the leaf slot at packed position `p` to the digest it contributes.
/// No digest anywhere changes, so every memo stays true.
pub(crate) fn forget_at(slots: &mut Vec<EpochSlot>, p: u64)
    requires
        tree_caches_ok(old(slots)@),
        tree_shape_wf(tree_view(old(slots)@)),
        leaf_pos_valid(tree_view(old(slots)@), p),
        p < POSITION_LIMIT,
    ensures
        tree_caches_ok(final(slots)@),
        tree_view(final(slots)@) == prune_where(tree_view(old(slots)@), Set::empty().insert(p)),
        final(slots)@.len() == old(slots)@.len(),
{
    let ghost tv = tree_view(slots@);
    proof {
        lemma_unpack_fields(p);
        lemma_prune_single(tv, p);
    }
    let ei = (crate::pos_epoch_exec(p)) as usize;
    let bi = (crate::pos_block_exec(p)) as usize;
    let oi = (crate::pos_offset_exec(p)) as usize;
    let eslot = slots.remove(ei);
    match eslot {
        EpochSlot::Full(ecache, mut einner) => {
            let ghost ev = epoch_inner_view(einner);
            let bslot = einner.slots.remove(bi);
            match bslot {
                BlockSlot::Full(bcache, mut binner) => {
                    let ghost lv = block_inner_view(binner);
                    let leaf = binner.slots[oi];
                    match leaf {
                        Insert::Keep(c) => {
                            let h = crate::Hash::of(c);
                            binner.slots.set(oi, Insert::Hash(h));
                        },
                        Insert::Hash(_) => {},
                    }
                    proof {
                        assert(block_inner_view(binner) =~= lv.update(
                            oi as int,
                            prune_leaf(lv[oi as int]),
                        ));
                        assert(block_hash(block_inner_view(binner)) == block_hash(lv)) by {
                            crate::view::lemma_map_values_update(
                                lv,
                                oi as int,
                                prune_leaf(lv[oi as int]),
                                |l: LeafV| leaf_v_hash(l),
                            );
                        }
                    }
                    let nb = BlockSlot::Full(bcache, binner);
                    einner.slots.insert(bi, nb);
                    proof {
                        assert(epoch_inner_view(einner) =~= ev.update(
                            bi as int,
                            BlockV::Kept(lv.update(oi as int, prune_leaf(lv[oi as int]))),
                        ));
                        assert(epoch_hash(epoch_inner_view(einner)) == epoch_hash(ev)) by {
                            crate::view::lemma_map_values_update(
                                ev,
                                bi as int,
                                BlockV::Kept(lv.update(oi as int, prune_leaf(lv[oi as int]))),
                                |b: BlockV| block_v_hash(b),
                            );
                        }
                    }
                    let ns = EpochSlot::Full(ecache, einner);
                    slots.insert(ei, ns);
                    proof {
                        assert(tree_view(slots@) =~= tv.update(
                            ei as int,
                            epoch_slot_view(ns),
                        ));
                        assert(tree_view(slots@) =~~= prune_where(tv, Set::empty().insert(p)));
                    }
                },
                BlockSlot::Summary(h) => {
                    proof {
                        assert(false);
                    }
                    einner.slots.insert(bi, BlockSlot::Summary(h));
                    slots.insert(ei, EpochSlot::Full(ecache, einner));
                },
            }
        },
        EpochSlot::Summary(h) => {
            proof {
                assert(false);
            }
            slots.insert(ei, EpochSlot::Summary(h));
        },
    }
}

} // verus!
