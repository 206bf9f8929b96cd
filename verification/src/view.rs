//! The mathematical model of the three-tier structure.
//!
//! A tier is modelled as the ordered sequence of its appended slots, each slot
//! either materialized (`Kept`) or elided to the digest it contributes
//! (`Pruned`). The model strips every implementation artifact (hash caches,
//! indices), so two structures with the same model always have the same root.

use vstd::prelude::*;

use crate::hash::{
    combine_hashes, fold_hashes, pos_block, pos_epoch, pos_offset, spec_hash_commitment, spec_mix,
    spec_pack,
};

verus! {

/// One leaf slot: a commitment kept witnessable, or reduced to its digest.
pub enum LeafV {
    /// A witnessable commitment value.
    Kept(u64),
    /// Only the digest contributed by the leaf.
    Pruned(u64),
}

/// One block slot of an epoch: its leaf slots, or its digest alone.
pub enum BlockV {
    /// A materialized block: the ordered leaf slots appended to it.
    Kept(Seq<LeafV>),
    /// Only the digest contributed by the block.
    Pruned(u64),
}

/// One epoch slot of the top tier: its block slots, or its digest alone.
pub enum EpochV {
    /// A materialized epoch: the ordered block slots appended to it.
    Kept(Seq<BlockV>),
    /// Only the digest contributed by the epoch.
    Pruned(u64),
}

/// The digest one leaf slot contributes to its block.
pub open spec fn leaf_v_hash(l: LeafV) -> u64 {
    match l {
        LeafV::Kept(c) => spec_hash_commitment(c),
        LeafV::Pruned(h) => h,
    }
}

/// The digest of a block from its ordered leaf slots.
pub open spec fn block_hash(leaves: Seq<LeafV>) -> u64 {
    combine_hashes(leaves.map_values(|l: LeafV| leaf_v_hash(l)))
}

/// The digest one block slot contributes to its epoch.
pub open spec fn block_v_hash(b: BlockV) -> u64 {
    match b {
        BlockV::Kept(leaves) => block_hash(leaves),
        BlockV::Pruned(h) => h,
    }
}

/// The digest of an epoch from its ordered block slots.
pub open spec fn epoch_hash(blocks: Seq<BlockV>) -> u64 {
    combine_hashes(blocks.map_values(|b: BlockV| block_v_hash(b)))
}

/// The digest one epoch slot contributes to the top tier.
pub open spec fn epoch_v_hash(e: EpochV) -> u64 {
    match e {
        EpochV::Kept(blocks) => epoch_hash(blocks),
        EpochV::Pruned(h) => h,
    }
}

/// The root digest of the whole structure.
pub open spec fn tree_hash(epochs: Seq<EpochV>) -> u64 {
    combine_hashes(epochs.map_values(|e: EpochV| epoch_v_hash(e)))
}

/// Every tier within the structure respects the fixed slot capacity.
pub open spec fn tree_shape_wf(v: Seq<EpochV>) -> bool {
    &&& v.len() <= 65536
    &&& forall|e: int|
        0 <= e < v.len() ==> (#[trigger] v[e] matches EpochV::Kept(blocks) ==> {
            &&& blocks.len() <= 65536
            &&& forall|b: int|
                0 <= b < blocks.len() ==> (#[trigger] blocks[b] matches BlockV::Kept(leaves)
                    ==> leaves.len() <= 65536)
        })
}

/// Whether packed position `p` names a leaf slot reachable through an
/// unbroken chain of materialized nodes.
pub open spec fn leaf_pos_valid(v: Seq<EpochV>, p: u64) -> bool {
    &&& pos_epoch(p) < v.len()
    &&& v[pos_epoch(p) as int] matches EpochV::Kept(blocks)
    &&& pos_block(p) < blocks.len()
    &&& blocks[pos_block(p) as int] matches BlockV::Kept(leaves)
    &&& pos_offset(p) < leaves.len()
}

/// The leaf slot at packed position `p`.
pub open spec fn leaf_at(v: Seq<EpochV>, p: u64) -> LeafV
    recommends
        leaf_pos_valid(v, p),
{
    v[pos_epoch(p) as int]->Kept_0[pos_block(p) as int]->Kept_0[pos_offset(p) as int]
}

/// Whether position `p` holds the witnessable commitment `c`.
pub open spec fn kept_at(v: Seq<EpochV>, p: u64, c: u64) -> bool {
    leaf_pos_valid(v, p) && leaf_at(v, p) == LeafV::Kept(c)
}

/// Reduce one leaf slot to the digest it contributes.
pub open spec fn prune_leaf(l: LeafV) -> LeafV {
    match l {
        LeafV::Kept(c) => LeafV::Pruned(spec_hash_commitment(c)),
        LeafV::Pruned(h) => LeafV::Pruned(h),
    }
}

/// The structure with every leaf slot whose packed position lies in `ps`
/// reduced to its digest, and everything else unchanged.
pub open spec fn prune_where(v: Seq<EpochV>, ps: Set<u64>) -> Seq<EpochV> {
    Seq::new(
        v.len(),
        |e: int|
            match v[e] {
                EpochV::Pruned(h) => EpochV::Pruned(h),
                EpochV::Kept(blocks) => EpochV::Kept(
                    Seq::new(
                        blocks.len(),
                        |b: int|
                            match blocks[b] {
                                BlockV::Pruned(h) => BlockV::Pruned(h),
                                BlockV::Kept(leaves) => BlockV::Kept(
                                    Seq::new(
                                        leaves.len(),
                                        |o: int|
                                            if ps.contains(
                                                spec_pack(e as u64, b as u64, o as u64),
                                            ) {
                                                prune_leaf(leaves[o])
                                            } else {
                                                leaves[o]
                                            },
                                    ),
                                ),
                            },
                    ),
                ),
            },
    )
}

/// Every block slot of an epoch respects the fixed slot capacity.
pub open spec fn blocks_shape_wf(blocks: Seq<BlockV>) -> bool {
    &&& blocks.len() <= 65536
    &&& forall|b: int|
        0 <= b < blocks.len() ==> (#[trigger] blocks[b] matches BlockV::Kept(leaves)
            ==> leaves.len() <= 65536)
}

/// Whether one more leaf can be appended to an epoch's block slots: the
/// epoch is empty (its first block opens on demand), or its open block is
/// materialized and below capacity.
pub open spec fn can_append_leaf_blocks(blocks: Seq<BlockV>) -> bool {
    ||| blocks.len() == 0
    ||| (blocks.last() matches BlockV::Kept(leaves) && leaves.len() < 65536)
}

/// The (block, offset) coordinates the next appended leaf will occupy within
/// an epoch.
pub open spec fn next_leaf_coords(blocks: Seq<BlockV>) -> (u64, u64)
    recommends
        can_append_leaf_blocks(blocks),
{
    if blocks.len() == 0 {
        (0u64, 0u64)
    } else {
        ((blocks.len() - 1) as u64, blocks.last()->Kept_0.len() as u64)
    }
}

/// An epoch's block slots after appending one leaf, opening the first block
/// on demand.
pub open spec fn append_leaf_blocks(blocks: Seq<BlockV>, l: LeafV) -> Seq<BlockV>
    recommends
        can_append_leaf_blocks(blocks),
{
    if blocks.len() == 0 {
        seq![BlockV::Kept(seq![l])]
    } else {
        blocks.update(blocks.len() - 1, BlockV::Kept(blocks.last()->Kept_0.push(l)))
    }
}

/// Whether one more leaf can be appended: the structure is empty (the first
/// epoch and block open on demand), or the open epoch is materialized and its
/// open block, if any, is materialized and below capacity.
pub open spec fn can_append_leaf(v: Seq<EpochV>) -> bool {
    ||| v.len() == 0
    ||| (v.last() matches EpochV::Kept(blocks) && can_append_leaf_blocks(blocks))
}

/// The packed position the next appended leaf will occupy.
pub open spec fn next_leaf_pos(v: Seq<EpochV>) -> u64
    recommends
        can_append_leaf(v),
{
    if v.len() == 0 {
        spec_pack(0, 0, 0)
    } else {
        let e = (v.len() - 1) as u64;
        let coords = next_leaf_coords(v.last()->Kept_0);
        spec_pack(e, coords.0, coords.1)
    }
}

/// The structure after appending one leaf slot, opening the first epoch and
/// block on demand.
pub open spec fn append_leaf_view(v: Seq<EpochV>, l: LeafV) -> Seq<EpochV>
    recommends
        can_append_leaf(v),
{
    if v.len() == 0 {
        seq![EpochV::Kept(append_leaf_blocks(Seq::empty(), l))]
    } else {
        v.update(v.len() - 1, EpochV::Kept(append_leaf_blocks(v.last()->Kept_0, l)))
    }
}

/// Whether one more block slot can be appended to the open epoch: the
/// structure is empty (the first epoch opens on demand), or the open epoch is
/// materialized and below capacity.
pub open spec fn can_append_block(v: Seq<EpochV>) -> bool {
    ||| v.len() == 0
    ||| (v.last() matches EpochV::Kept(blocks) && blocks.len() < 65536)
}

/// The structure after appending one block slot to the open epoch, opening
/// the first epoch on demand.
pub open spec fn append_block_view(v: Seq<EpochV>, b: BlockV) -> Seq<EpochV>
    recommends
        can_append_block(v),
{
    if v.len() == 0 {
        seq![EpochV::Kept(seq![b])]
    } else {
        v.update(v.len() - 1, EpochV::Kept(v.last()->Kept_0.push(b)))
    }
}

/// The conservative logical size: closed slots count at capacity, the open
/// chain counts its actual fill, and a summarized open slot counts at
/// capacity because its true occupancy is unknowable once elided.
pub open spec fn spec_len(v: Seq<EpochV>) -> int {
    if v.len() == 0 {
        0
    } else {
        (v.len() - 1) * 0x1_0000_0000 + epoch_open_len(v.last())
    }
}

/// The logical size contributed by the open epoch slot.
pub open spec fn epoch_open_len(e: EpochV) -> int {
    match e {
        EpochV::Pruned(_) => 0x1_0000_0000,
        EpochV::Kept(blocks) => if blocks.len() == 0 {
            0
        } else {
            (blocks.len() - 1) * 0x1_0000 + block_open_len(blocks.last())
        },
    }
}

/// The logical size contributed by the open block slot.
pub open spec fn block_open_len(b: BlockV) -> int {
    match b {
        BlockV::Pruned(_) => 0x1_0000,
        BlockV::Kept(leaves) => leaves.len() as int,
    }
}

/// Pruning reduces a leaf to the digest it already contributed, so it never
/// changes the digest of any block, epoch, or the root.
pub proof fn lemma_prune_where_hash(v: Seq<EpochV>, ps: Set<u64>)
    ensures
        tree_hash(prune_where(v, ps)) == tree_hash(v),
{
    let pv = prune_where(v, ps);
    assert forall|e: int| 0 <= e < v.len() implies epoch_v_hash(pv[e]) == epoch_v_hash(
        v[e],
    ) by {
        match v[e] {
            EpochV::Pruned(_) => {},
            EpochV::Kept(blocks) => {
                let pb = pv[e]->Kept_0;
                assert forall|b: int| 0 <= b < blocks.len() implies block_v_hash(pb[b])
                    == block_v_hash(blocks[b]) by {
                    match blocks[b] {
                        BlockV::Pruned(_) => {},
                        BlockV::Kept(leaves) => {
                            let pl = pb[b]->Kept_0;
                            assert(pl.map_values(|l: LeafV| leaf_v_hash(l)) =~= leaves.map_values(
                                |l: LeafV| leaf_v_hash(l),
                            ));
                        },
                    }
                }
                assert(pb.map_values(|x: BlockV| block_v_hash(x)) =~= blocks.map_values(
                    |x: BlockV| block_v_hash(x),
                ));
            },
        }
    }
    assert(pv.map_values(|x: EpochV| epoch_v_hash(x)) =~= v.map_values(
        |x: EpochV| epoch_v_hash(x),
    ));
}

/// What each leaf slot of the pruned structure holds, and that pruning
/// changes no slot counts and breaks no materialized chain.
pub proof fn lemma_prune_where_pointwise(v: Seq<EpochV>, ps: Set<u64>)
    ensures
        prune_where(v, ps).len() == v.len(),
        forall|q: u64| leaf_pos_valid(prune_where(v, ps), q) <==> leaf_pos_valid(v, q),
        forall|q: u64|
            leaf_pos_valid(v, q) && q < crate::hash::POSITION_LIMIT ==> leaf_at(
                prune_where(v, ps),
                q,
            ) == (if ps.contains(q) {
                prune_leaf(leaf_at(v, q))
            } else {
                leaf_at(v, q)
            }),
        forall|e: int|
            0 <= e < v.len() ==> ((#[trigger] prune_where(v, ps)[e] is Kept <==> v[e] is Kept)
                && (v[e] is Kept ==> prune_where(v, ps)[e]->Kept_0.len()
                == v[e]->Kept_0.len())),
        forall|e: int, b: int|
            0 <= e < v.len() && v[e] is Kept && 0 <= b < v[e]->Kept_0.len() ==> {
                &&& (#[trigger] prune_where(v, ps)[e]->Kept_0[b] is Kept <==> v[e]->Kept_0[b]
                    is Kept)
                &&& (v[e]->Kept_0[b] is Kept ==> prune_where(v, ps)[e]->Kept_0[b]->Kept_0.len()
                    == v[e]->Kept_0[b]->Kept_0.len())
            },
{
    let pv = prune_where(v, ps);
    assert forall|q: u64|
        leaf_pos_valid(v, q) && q < crate::hash::POSITION_LIMIT implies leaf_at(pv, q) == (
    if ps.contains(q) {
        prune_leaf(leaf_at(v, q))
    } else {
        leaf_at(v, q)
    }) by {
        crate::hash::lemma_unpack_fields(q);
    }
}

/// Pruning changes no slot counts and no slot kinds, so the conservative
/// logical size is unchanged.
pub proof fn lemma_prune_where_spec_len(v: Seq<EpochV>, ps: Set<u64>)
    ensures
        spec_len(prune_where(v, ps)) == spec_len(v),
{
    lemma_prune_where_pointwise(v, ps);
    let pv = prune_where(v, ps);
    if v.len() > 0 {
        let e = v.len() - 1;
        assert(pv[e as int] is Kept <==> v[e as int] is Kept);
        match v[e as int] {
            EpochV::Pruned(_) => {},
            EpochV::Kept(blocks) => {
                let pb = pv[e as int]->Kept_0;
                assert(pb.len() == blocks.len());
                if blocks.len() > 0 {
                    let b = blocks.len() - 1;
                    assert(pb[b as int] is Kept <==> blocks[b as int] is Kept);
                    match blocks[b as int] {
                        BlockV::Pruned(_) => {},
                        BlockV::Kept(leaves) => {
                            assert(pb[b as int]->Kept_0.len() == leaves.len());
                        },
                    }
                }
            },
        }
    }
}

/// Pruning at one set of positions and then another is pruning at their
/// union: reducing a leaf to its digest is idempotent.
pub proof fn lemma_prune_where_compose(v: Seq<EpochV>, a: Set<u64>, b: Set<u64>)
    ensures
        prune_where(prune_where(v, a), b) =~~= prune_where(v, a.union(b)),
{
    let lhs = prune_where(prune_where(v, a), b);
    let rhs = prune_where(v, a.union(b));
    assert forall|e: int| 0 <= e < v.len() implies lhs[e] =~~= rhs[e] by {
        match v[e] {
            EpochV::Pruned(_) => {},
            EpochV::Kept(blocks) => {
                assert forall|bi: int| 0 <= bi < blocks.len() implies lhs[e]->Kept_0[bi]
                    =~~= rhs[e]->Kept_0[bi] by {
                    match blocks[bi] {
                        BlockV::Pruned(_) => {},
                        BlockV::Kept(leaves) => {
                            assert(lhs[e]->Kept_0[bi]->Kept_0 =~= rhs[e]->Kept_0[bi]->Kept_0);
                        },
                    }
                }
                assert(lhs[e]->Kept_0 =~~= rhs[e]->Kept_0);
            },
        }
    }
}

/// Pruning nowhere changes nothing.
pub proof fn lemma_prune_where_empty(v: Seq<EpochV>)
    ensures
        prune_where(v, Set::empty()) =~~= v,
{
    let pv = prune_where(v, Set::empty());
    assert forall|e: int| 0 <= e < v.len() implies pv[e] =~~= v[e] by {
        match v[e] {
            EpochV::Pruned(_) => {},
            EpochV::Kept(blocks) => {
                assert forall|bi: int| 0 <= bi < blocks.len() implies pv[e]->Kept_0[bi]
                    =~~= blocks[bi] by {
                    match blocks[bi] {
                        BlockV::Pruned(_) => {},
                        BlockV::Kept(leaves) => {
                            assert(pv[e]->Kept_0[bi]->Kept_0 =~= leaves);
                        },
                    }
                }
                assert(pv[e]->Kept_0 =~~= blocks);
            },
        }
    }
}

/// Whether position `rel` (an epoch-relative position, whose epoch
/// coordinate is zero) names a leaf slot reachable through materialized
/// nodes within one epoch.
pub open spec fn epoch_leaf_pos_valid(blocks: Seq<BlockV>, rel: u64) -> bool {
    &&& pos_epoch(rel) == 0
    &&& pos_block(rel) < blocks.len()
    &&& blocks[pos_block(rel) as int] matches BlockV::Kept(leaves)
    &&& pos_offset(rel) < leaves.len()
}

/// The leaf slot at epoch-relative position `rel`.
pub open spec fn epoch_leaf_at(blocks: Seq<BlockV>, rel: u64) -> LeafV
    recommends
        epoch_leaf_pos_valid(blocks, rel),
{
    blocks[pos_block(rel) as int]->Kept_0[pos_offset(rel) as int]
}

/// Whether epoch-relative position `rel` holds the witnessable commitment
/// `c`.
pub open spec fn epoch_kept_at(blocks: Seq<BlockV>, rel: u64, c: u64) -> bool {
    epoch_leaf_pos_valid(blocks, rel) && epoch_leaf_at(blocks, rel) == LeafV::Kept(c)
}

/// One epoch's block slots with every leaf slot whose epoch-relative
/// position lies in `ps` reduced to its digest.
pub open spec fn prune_blocks_where(blocks: Seq<BlockV>, ps: Set<u64>) -> Seq<BlockV> {
    Seq::new(
        blocks.len(),
        |b: int|
            match blocks[b] {
                BlockV::Pruned(h) => BlockV::Pruned(h),
                BlockV::Kept(leaves) => BlockV::Kept(
                    Seq::new(
                        leaves.len(),
                        |o: int|
                            if ps.contains(spec_pack(0, b as u64, o as u64)) {
                                prune_leaf(leaves[o])
                            } else {
                                leaves[o]
                            },
                    ),
                ),
            },
    )
}

/// Pruning within an epoch never changes the epoch's digest.
pub proof fn lemma_prune_blocks_where_hash(blocks: Seq<BlockV>, ps: Set<u64>)
    ensures
        epoch_hash(prune_blocks_where(blocks, ps)) == epoch_hash(blocks),
{
    let pb = prune_blocks_where(blocks, ps);
    assert forall|b: int| 0 <= b < blocks.len() implies block_v_hash(pb[b]) == block_v_hash(
        blocks[b],
    ) by {
        match blocks[b] {
            BlockV::Pruned(_) => {},
            BlockV::Kept(leaves) => {
                assert(pb[b]->Kept_0.map_values(|l: LeafV| leaf_v_hash(l)) =~= leaves.map_values(
                    |l: LeafV| leaf_v_hash(l),
                ));
            },
        }
    }
    assert(pb.map_values(|x: BlockV| block_v_hash(x)) =~= blocks.map_values(
        |x: BlockV| block_v_hash(x),
    ));
}

/// What each leaf slot of the pruned epoch holds, and that pruning changes
/// no slot counts and breaks no materialized chain.
pub proof fn lemma_prune_blocks_where_pointwise(blocks: Seq<BlockV>, ps: Set<u64>)
    ensures
        prune_blocks_where(blocks, ps).len() == blocks.len(),
        forall|q: u64|
            epoch_leaf_pos_valid(prune_blocks_where(blocks, ps), q) <==> epoch_leaf_pos_valid(
                blocks,
                q,
            ),
        forall|q: u64|
            epoch_leaf_pos_valid(blocks, q) && q < crate::hash::POSITION_LIMIT ==> epoch_leaf_at(
                prune_blocks_where(blocks, ps),
                q,
            ) == (if ps.contains(q) {
                prune_leaf(epoch_leaf_at(blocks, q))
            } else {
                epoch_leaf_at(blocks, q)
            }),
        forall|b: int|
            0 <= b < blocks.len() ==> ((#[trigger] prune_blocks_where(blocks, ps)[b] is Kept
                <==> blocks[b] is Kept) && (blocks[b] is Kept ==> prune_blocks_where(
                blocks,
                ps,
            )[b]->Kept_0.len() == blocks[b]->Kept_0.len())),
{
    let pb = prune_blocks_where(blocks, ps);
    assert forall|q: u64|
        epoch_leaf_pos_valid(blocks, q) && q < crate::hash::POSITION_LIMIT implies epoch_leaf_at(
        pb,
        q,
    ) == (if ps.contains(q) {
        prune_leaf(epoch_leaf_at(blocks, q))
    } else {
        epoch_leaf_at(blocks, q)
    }) by {
        crate::hash::lemma_unpack_fields(q);
        assert(spec_pack(0, pos_block(q), pos_offset(q)) == q);
    }
}

/// Pruning an epoch at one set of positions and then another is pruning at
/// their union.
pub proof fn lemma_prune_blocks_where_compose(blocks: Seq<BlockV>, a: Set<u64>, b: Set<u64>)
    ensures
        prune_blocks_where(prune_blocks_where(blocks, a), b) =~~= prune_blocks_where(
            blocks,
            a.union(b),
        ),
{
    let lhs = prune_blocks_where(prune_blocks_where(blocks, a), b);
    let rhs = prune_blocks_where(blocks, a.union(b));
    assert forall|bi: int| 0 <= bi < blocks.len() implies lhs[bi] =~~= rhs[bi] by {
        match blocks[bi] {
            BlockV::Pruned(_) => {},
            BlockV::Kept(leaves) => {
                assert(lhs[bi]->Kept_0 =~= rhs[bi]->Kept_0);
            },
        }
    }
}

/// Pruning an epoch nowhere changes nothing.
pub proof fn lemma_prune_blocks_where_empty(blocks: Seq<BlockV>)
    ensures
        prune_blocks_where(blocks, Set::empty()) =~~= blocks,
{
    let pb = prune_blocks_where(blocks, Set::empty());
    assert forall|bi: int| 0 <= bi < blocks.len() implies pb[bi] =~~= blocks[bi] by {
        match blocks[bi] {
            BlockV::Pruned(_) => {},
            BlockV::Kept(leaves) => {
                assert(pb[bi]->Kept_0 =~= leaves);
            },
        }
    }
}

/// Pruning an epoch at a single position is the pointwise update of that one
/// leaf slot.
pub proof fn lemma_prune_blocks_single(blocks: Seq<BlockV>, rel: u64)
    requires
        blocks_shape_wf(blocks),
        epoch_leaf_pos_valid(blocks, rel),
        rel < crate::hash::POSITION_LIMIT,
    ensures
        prune_blocks_where(blocks, Set::empty().insert(rel)) =~~= blocks.update(
            pos_block(rel) as int,
            BlockV::Kept(
                blocks[pos_block(rel) as int]->Kept_0.update(
                    pos_offset(rel) as int,
                    prune_leaf(epoch_leaf_at(blocks, rel)),
                ),
            ),
        ),
{
    let ps = Set::empty().insert(rel);
    let b = pos_block(rel) as int;
    let o = pos_offset(rel) as int;
    let lhs = prune_blocks_where(blocks, ps);
    let rhs = blocks.update(
        b,
        BlockV::Kept(blocks[b]->Kept_0.update(o, prune_leaf(epoch_leaf_at(blocks, rel)))),
    );
    crate::hash::lemma_unpack_fields(rel);
    assert forall|b2: int| 0 <= b2 < blocks.len() implies lhs[b2] =~~= rhs[b2] by {
        match blocks[b2] {
            BlockV::Pruned(_) => {},
            BlockV::Kept(leaves2) => {
                let ls = lhs[b2]->Kept_0;
                let rs = rhs[b2]->Kept_0;
                assert forall|o2: int| 0 <= o2 < leaves2.len() implies ls[o2] == rs[o2] by {
                    crate::hash::lemma_pack_fields(0u64, b2 as u64, o2 as u64);
                }
                assert(ls =~= rs);
            },
        }
    }
}

/// Appending a leaf to an epoch keeps every existing leaf slot where it is
/// and adds exactly one new one, at the next coordinates.
pub proof fn lemma_append_leaf_blocks_pointwise(blocks: Seq<BlockV>, l: LeafV)
    requires
        blocks_shape_wf(blocks),
        can_append_leaf_blocks(blocks),
    ensures
        ({
            let base = append_leaf_blocks(blocks, l);
            let coords = next_leaf_coords(blocks);
            let npos = spec_pack(0, coords.0, coords.1);
            &&& npos < 0x1_0000_0000u64
            &&& epoch_leaf_pos_valid(base, npos)
            &&& epoch_leaf_at(base, npos) == l
            &&& forall|q: u64|
                #[trigger] epoch_leaf_pos_valid(blocks, q) ==> epoch_leaf_pos_valid(base, q)
                    && (q < crate::hash::POSITION_LIMIT ==> epoch_leaf_at(base, q)
                    == epoch_leaf_at(blocks, q))
            &&& forall|q: u64|
                q < crate::hash::POSITION_LIMIT && #[trigger] epoch_leaf_pos_valid(base, q) ==> q
                    == npos || epoch_leaf_pos_valid(blocks, q)
            &&& blocks_shape_wf(base)
        }),
{
    let base = append_leaf_blocks(blocks, l);
    let coords = next_leaf_coords(blocks);
    let npos = spec_pack(0, coords.0, coords.1);
    crate::hash::lemma_pack_fields(0, coords.0, coords.1);
    let b = coords.0;
    let o = coords.1;
    assert((((0u64 << 32) | (b << 16)) | o) < 0x1_0000_0000) by (bit_vector)
        requires
            b < 65536,
            o < 65536,
    ;
    assert forall|q: u64|
        q < crate::hash::POSITION_LIMIT && #[trigger] epoch_leaf_pos_valid(base, q) implies q
        == npos || epoch_leaf_pos_valid(blocks, q) by {
        crate::hash::lemma_unpack_fields(q);
        if blocks.len() == 0 {
            if q != npos {
                assert(epoch_leaf_pos_valid(blocks, q));
            }
        } else {
            if pos_block(q) == coords.0 && pos_offset(q) == coords.1 {
                assert(q == spec_pack(0, coords.0, coords.1));
            }
        }
    }
}

/// Appending a block slot to an epoch keeps every existing leaf slot where
/// it is; the new block's leaves appear under the fresh block coordinate.
pub proof fn lemma_append_block_pointwise(blocks: Seq<BlockV>, nb: BlockV)
    requires
        blocks_shape_wf(blocks),
        blocks.len() < 65536,
        nb matches BlockV::Kept(leaves) ==> leaves.len() <= 65536,
    ensures
        ({
            let base = blocks.push(nb);
            &&& blocks_shape_wf(base)
            &&& forall|q: u64|
                #[trigger] epoch_leaf_pos_valid(blocks, q) ==> epoch_leaf_pos_valid(base, q) && (
                epoch_leaf_at(base, q) == epoch_leaf_at(blocks, q))
            &&& forall|q: u64|
                #[trigger] epoch_leaf_pos_valid(base, q) ==> (pos_block(q) == blocks.len()
                    || epoch_leaf_pos_valid(blocks, q))
            &&& forall|q: u64|
                epoch_leaf_pos_valid(base, q) && pos_block(q) == blocks.len() ==> nb is Kept
                    && pos_offset(q) < nb->Kept_0.len() && #[trigger] epoch_leaf_at(base, q)
                    == nb->Kept_0[pos_offset(q) as int]
        }),
{
}

/// Appending a leaf to the structure keeps every existing leaf slot where it
/// is and adds exactly one new one, at the next packed position.
pub proof fn lemma_append_leaf_view_pointwise(v: Seq<EpochV>, l: LeafV)
    requires
        tree_shape_wf(v),
        can_append_leaf(v),
    ensures
        ({
            let base = append_leaf_view(v, l);
            let npos = next_leaf_pos(v);
            &&& npos < crate::hash::POSITION_LIMIT
            &&& leaf_pos_valid(base, npos)
            &&& leaf_at(base, npos) == l
            &&& forall|q: u64|
                #[trigger] leaf_pos_valid(v, q) ==> leaf_pos_valid(base, q) && (q
                    < crate::hash::POSITION_LIMIT ==> leaf_at(base, q) == leaf_at(v, q))
            &&& forall|q: u64|
                q < crate::hash::POSITION_LIMIT && #[trigger] leaf_pos_valid(base, q) ==> q
                    == npos || leaf_pos_valid(v, q)
            &&& tree_shape_wf(base)
            &&& !leaf_pos_valid(v, npos)
        }),
{
    let base = append_leaf_view(v, l);
    let npos = next_leaf_pos(v);
    if v.len() == 0 {
        crate::hash::lemma_pack_fields(0, 0, 0);
        assert forall|q: u64|
            q < crate::hash::POSITION_LIMIT && #[trigger] leaf_pos_valid(base, q) implies q
            == npos || leaf_pos_valid(v, q) by {
            crate::hash::lemma_unpack_fields(q);
        }
    } else {
        let e = (v.len() - 1) as u64;
        let blocks = v.last()->Kept_0;
        let coords = next_leaf_coords(blocks);
        crate::hash::lemma_pack_fields(e, coords.0, coords.1);
        assert forall|q: u64|
            q < crate::hash::POSITION_LIMIT && #[trigger] leaf_pos_valid(base, q) implies q
            == npos || leaf_pos_valid(v, q) by {
            crate::hash::lemma_unpack_fields(q);
            if pos_epoch(q) == e && pos_block(q) == coords.0 && pos_offset(q) == coords.1 {
                assert(q == spec_pack(e, coords.0, coords.1));
            }
        }
    }
}

/// Appending a block slot to the open epoch keeps every existing leaf slot
/// where it is; the new block's leaves appear under the fresh coordinates.
pub proof fn lemma_append_block_view_pointwise(v: Seq<EpochV>, nb: BlockV)
    requires
        tree_shape_wf(v),
        can_append_block(v),
        nb matches BlockV::Kept(leaves) ==> leaves.len() <= 65536,
    ensures
        ({
            let base = append_block_view(v, nb);
            let e = if v.len() == 0 {
                0u64
            } else {
                (v.len() - 1) as u64
            };
            let b = if v.len() == 0 {
                0u64
            } else {
                v.last()->Kept_0.len() as u64
            };
            &&& tree_shape_wf(base)
            &&& base.len() == if v.len() == 0 {
                1int
            } else {
                v.len() as int
            }
            &&& forall|q: u64|
                #[trigger] leaf_pos_valid(v, q) ==> leaf_pos_valid(base, q) && leaf_at(base, q)
                    == leaf_at(v, q)
            &&& forall|q: u64|
                #[trigger] leaf_pos_valid(base, q) ==> ((pos_epoch(q) == e && pos_block(q) == b)
                    || leaf_pos_valid(v, q))
            &&& forall|q: u64|
                leaf_pos_valid(base, q) && pos_epoch(q) == e && pos_block(q) == b ==> nb is Kept
                    && pos_offset(q) < nb->Kept_0.len() && #[trigger] leaf_at(base, q)
                    == nb->Kept_0[pos_offset(q) as int]
        }),
{
}

/// Appending an epoch slot keeps every existing leaf slot where it is; the
/// new epoch's leaves appear under the fresh epoch coordinate.
pub proof fn lemma_append_epoch_pointwise(v: Seq<EpochV>, ne: EpochV)
    requires
        tree_shape_wf(v),
        v.len() < 65536,
        ne matches EpochV::Kept(blocks) ==> blocks_shape_wf(blocks),
    ensures
        ({
            let base = v.push(ne);
            &&& tree_shape_wf(base)
            &&& forall|q: u64|
                #[trigger] leaf_pos_valid(v, q) ==> leaf_pos_valid(base, q) && leaf_at(base, q)
                    == leaf_at(v, q)
            &&& forall|q: u64|
                #[trigger] leaf_pos_valid(base, q) ==> (pos_epoch(q) == v.len()
                    || leaf_pos_valid(v, q))
            &&& forall|q: u64|
                leaf_pos_valid(base, q) && pos_epoch(q) == v.len() ==> ne is Kept
                    && epoch_leaf_pos_valid(ne->Kept_0, spec_pack(0, pos_block(q), pos_offset(q)))
                    && #[trigger] leaf_at(base, q) == epoch_leaf_at(
                    ne->Kept_0,
                    spec_pack(0, pos_block(q), pos_offset(q)),
                )
        }),
{
    let base = v.push(ne);
    assert forall|q: u64|
        leaf_pos_valid(base, q) && pos_epoch(q) == v.len() implies ne is Kept
        && epoch_leaf_pos_valid(ne->Kept_0, spec_pack(0, pos_block(q), pos_offset(q)))
        && #[trigger] leaf_at(base, q) == epoch_leaf_at(
        ne->Kept_0,
        spec_pack(0, pos_block(q), pos_offset(q)),
    ) by {
        crate::hash::lemma_pos_fields_bounded(q);
        crate::hash::lemma_pack_fields(0, pos_block(q), pos_offset(q));
    }
}

/// The positions a bulk index merge silently overwrites: for every
/// commitment the absorbed child also indexes, the position this index
/// already mapped it to.
pub open spec fn bulk_evicted(mine: Map<u64, u64>, theirs: Map<u64, u64>) -> Set<u64> {
    Set::new(
        |p: u64|
            exists|c: u64| #[trigger]
                theirs.contains_key(c) && mine.contains_key(c) && mine[c] == p,
    )
}

/// The positions evicted by the first `i` entries of a bulk index merge:
/// for every processed entry whose key `m` already mapped, the position `m`
/// mapped it to.
pub open spec fn evicted_upto(m: Map<u64, u64>, entries: Seq<(u64, u64)>, i: int) -> Set<u64> {
    Set::new(
        |p: u64|
            exists|j: int|
                0 <= j < i && m.contains_key((#[trigger] entries[j]).0) && m[entries[j].0] == p,
    )
}

/// No two entries of the sequence share a key.
pub open spec fn distinct_keys(entries: Seq<(u64, u64)>) -> bool {
    forall|i: int, j: int|
        0 <= i < entries.len() && 0 <= j < entries.len() && i != j ==> (#[trigger] entries[i]).0
            != (#[trigger] entries[j]).0
}

/// The map after writing the first `i` entries over `m`, each entry's value
/// composed by `f`.
pub open spec fn merged_map(
    m: Map<u64, u64>,
    entries: Seq<(u64, u64)>,
    i: int,
    f: spec_fn(u64) -> u64,
) -> Map<u64, u64>
    decreases i,
{
    if i <= 0 {
        m
    } else {
        merged_map(m, entries, i - 1, f).insert(entries[i - 1].0, f(entries[i - 1].1))
    }
}

/// What the merged map holds: every written key maps to its composed value,
/// and every other key is as in `m`.
pub proof fn lemma_merged_map_pointwise(
    m: Map<u64, u64>,
    entries: Seq<(u64, u64)>,
    i: int,
    f: spec_fn(u64) -> u64,
)
    requires
        0 <= i <= entries.len(),
        distinct_keys(entries),
    ensures
        forall|k: u64|
            merged_map(m, entries, i, f).contains_key(k) <==> m.contains_key(k) || exists|j: int|
                0 <= j < i && (#[trigger] entries[j]).0 == k,
        forall|j: int|
            0 <= j < i ==> merged_map(m, entries, i, f).contains_key((#[trigger] entries[j]).0)
                && merged_map(m, entries, i, f)[entries[j].0] == f(entries[j].1),
        forall|k: u64|
            m.contains_key(k) && !(exists|j: int| 0 <= j < i && (#[trigger] entries[j]).0 == k)
                ==> merged_map(m, entries, i, f).contains_key(k) && merged_map(m, entries, i, f)[k]
                == m[k],
    decreases i,
{
    if i > 0 {
        lemma_merged_map_pointwise(m, entries, i - 1, f);
    }
}

/// Folding one more digest extends the running fold by one mixing step.
pub proof fn lemma_fold_push(s: Seq<u64>, x: u64)
    ensures
        fold_hashes(s.push(x)) == spec_mix(fold_hashes(s), x),
{
    assert(s.push(x).drop_last() =~= s);
    assert(s.push(x).last() == x);
}

/// A prefix one longer extends the shorter prefix by the next element.
pub proof fn lemma_take_succ<T>(s: Seq<T>, i: int)
    requires
        0 <= i < s.len(),
    ensures
        s.take(i + 1) =~= s.take(i).push(s[i]),
{
}

/// Removing an element and reinserting it restores the sequence.
pub proof fn lemma_remove_insert<T>(s: Seq<T>, i: int)
    requires
        0 <= i < s.len(),
    ensures
        s.remove(i).insert(i, s[i]) =~= s,
{
}

/// Pruning at a single position is the pointwise update of that one leaf
/// slot, everything else unchanged.
pub proof fn lemma_prune_single(v: Seq<EpochV>, p: u64)
    requires
        tree_shape_wf(v),
        leaf_pos_valid(v, p),
        p < crate::hash::POSITION_LIMIT,
    ensures
        prune_where(v, Set::empty().insert(p)) =~~= v.update(
            pos_epoch(p) as int,
            EpochV::Kept(
                v[pos_epoch(p) as int]->Kept_0.update(
                    pos_block(p) as int,
                    BlockV::Kept(
                        v[pos_epoch(p) as int]->Kept_0[pos_block(p) as int]->Kept_0.update(
                            pos_offset(p) as int,
                            prune_leaf(leaf_at(v, p)),
                        ),
                    ),
                ),
            ),
        ),
{
    let ps = Set::empty().insert(p);
    let e = pos_epoch(p) as int;
    let b = pos_block(p) as int;
    let o = pos_offset(p) as int;
    let lhs = prune_where(v, ps);
    let rhs = v.update(
        e,
        EpochV::Kept(
            v[e]->Kept_0.update(
                b,
                BlockV::Kept(v[e]->Kept_0[b]->Kept_0.update(o, prune_leaf(leaf_at(v, p)))),
            ),
        ),
    );
    crate::hash::lemma_unpack_fields(p);
    assert forall|e2: int| 0 <= e2 < v.len() implies lhs[e2] =~~= rhs[e2] by {
        match v[e2] {
            EpochV::Pruned(_) => {},
            EpochV::Kept(blocks2) => {
                assert forall|b2: int| 0 <= b2 < blocks2.len() implies lhs[e2]->Kept_0[b2]
                    =~~= rhs[e2]->Kept_0[b2] by {
                    match blocks2[b2] {
                        BlockV::Pruned(_) => {},
                        BlockV::Kept(leaves2) => {
                            let ls = lhs[e2]->Kept_0[b2]->Kept_0;
                            let rs = rhs[e2]->Kept_0[b2]->Kept_0;
                            assert forall|o2: int|
                                0 <= o2 < leaves2.len() implies ls[o2] == rs[o2] by {
                                crate::hash::lemma_pack_fields(e2 as u64, b2 as u64, o2 as u64);
                            }
                            assert(lhs[e2]->Kept_0[b2]->Kept_0 =~= rhs[e2]->Kept_0[b2]->Kept_0);
                        },
                    }
                }
                assert(lhs[e2]->Kept_0 =~~= rhs[e2]->Kept_0);
            },
        }
    }
}

/// Replacing an element by one with the same image leaves the mapped
/// sequence unchanged, so any fold over the images is unchanged.
pub proof fn lemma_map_values_update<T>(s: Seq<T>, i: int, x: T, f: spec_fn(T) -> u64)
    requires
        0 <= i < s.len(),
        f(x) == f(s[i]),
    ensures
        s.update(i, x).map_values(f) =~= s.map_values(f),
{
}

} // verus!
