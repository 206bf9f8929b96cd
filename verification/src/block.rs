//! A block: the innermost tier plus a local index from commitment values to
//! the offset where each witnessable commitment sits.

use vstd::prelude::*;

use crate::index_map::{index_insert, index_new};
use crate::tier::{block_inner_view, hash_block_inner, BlockInner};
use crate::view::{block_hash, leaf_v_hash, lemma_map_values_update, prune_leaf, LeafV};
use crate::{Commitment, Insert, Witness, TIER_CAPACITY};
use vstd::slice::SliceAdditionalExecFns;

verus! {

/// The root hash of a block.
#[derive(Debug, Clone, Copy, PartialEq, Eq, Structural)]
pub struct Root(pub crate::Hash);

/// A block: up to 65,536 leaf slots and an index of the commitments that are
/// still witnessable in it.
pub struct Block {
    /// Maps each witnessable commitment value to the offset of its leaf slot.
    pub index: hash_hasher::HashedMap<u64, u64>,
    /// The leaf slots.
    pub inner: BlockInner,
}

impl Block {
    /// The leaf slots this block holds, as their model.
    pub open spec fn view_spec(self) -> Seq<LeafV> {
        block_inner_view(self.inner)
    }

    /// The index as a mathematical map.
    pub open spec fn index_spec(self) -> Map<u64, u64> {
        self.index@
    }

    /// Well-formedness: capacity respected, and the index holds exactly the
    /// commitments kept witnessable, each at its true offset.
    pub open spec fn wf(self) -> bool {
        let lv = self.view_spec();
        &&& lv.len() <= 65536
        &&& forall|k: u64| #[trigger]
            self.index@.contains_key(k) ==> self.index@[k] < lv.len() && lv[self.index@[k] as int]
                == LeafV::Kept(k)
        &&& forall|o: int|
            0 <= o < lv.len() ==> (#[trigger] lv[o] matches LeafV::Kept(c)
                ==> self.index@.contains_key(c) && self.index@[c] == o as u64)
    }

    /// A new, empty block.
    pub fn new() -> (b: Block)
        ensures
            b.wf(),
            b.view_spec() == Seq::<LeafV>::empty(),
            b.index_spec() == Map::<u64, u64>::empty(),
    {
        let b = Block { index: index_new(), inner: BlockInner { slots: Vec::new() } };
        proof {
            assert(b.view_spec() =~= Seq::<LeafV>::empty());
        }
        b
    }

    /// Append one commitment, either kept witnessable (`Keep`) or reduced at
    /// once to its digest (`Forget`). Fails exactly when the block is at
    /// capacity, returning the commitment unchanged; a kept commitment that
    /// was already present is re-pointed at its new offset and its old leaf
    /// slot is reduced to its digest.
    pub fn insert(&mut self, witness: Witness, commitment: Commitment) -> (r: Result<
        (),
        Commitment,
    >)
        requires
            old(self).wf(),
        ensures
            final(self).wf(),
            match r {
                Ok(()) => {
                    &&& old(self).view_spec().len() < 65536
                    &&& {
                        let pushed = old(self).view_spec().push(
                            match witness {
                                Witness::Keep => LeafV::Kept(commitment.0),
                                Witness::Forget => LeafV::Pruned(
                                    crate::spec_hash_commitment(commitment.0),
                                ),
                            },
                        );
                        match witness {
                            Witness::Forget => final(self).view_spec() == pushed && final(self).index_spec()
                                == old(self).index_spec(),
                            Witness::Keep => {
                                &&& final(self).index_spec() == old(self).index_spec().insert(
                                    commitment.0,
                                    old(self).view_spec().len() as u64,
                                )
                                &&& final(self).view_spec() == if old(self).index_spec().contains_key(
                                    commitment.0,
                                ) {
                                    pushed.update(
                                        old(self).index_spec()[commitment.0] as int,
                                        prune_leaf(
                                            pushed[old(self).index_spec()[commitment.0] as int],
                                        ),
                                    )
                                } else {
                                    pushed
                                }
                                &&& block_hash(final(self).view_spec()) == block_hash(pushed)
                            },
                        }
                    }
                },
                Err(c) => {
                    &&& c == commitment
                    &&& old(self).view_spec().len() == 65536
                    &&& final(self).view_spec() == old(self).view_spec()
                    &&& final(self).index_spec() == old(self).index_spec()
                },
            },
    {
        if self.inner.slots.len() == TIER_CAPACITY {
            return Err(commitment);
        }
        let ghost lv = self.view_spec();
        let o = self.inner.slots.len();
        match witness {
            Witness::Forget => {
                let h = crate::Hash::of(commitment);
                self.inner.slots.push(Insert::Hash(h));
                proof {
                    assert(self.view_spec() =~= lv.push(
                        LeafV::Pruned(crate::spec_hash_commitment(commitment.0)),
                    ));
                }
                Ok(())
            },
            Witness::Keep => {
                self.inner.slots.push(Insert::Keep(commitment));
                let ghost pushed = self.view_spec();
                proof {
                    assert(pushed =~= lv.push(LeafV::Kept(commitment.0)));
                }
                let evicted = index_insert(&mut self.index, commitment.0, o as u64);
                match evicted {
                    None => {
                        proof {
                            assert(self.wf()) by {
                                assert(forall|q: int|
                                    0 <= q < lv.len() ==> pushed[q] == #[trigger] lv[q]);
                            }
                        }
                        Ok(())
                    },
                    Some(oold) => {
                        proof {
                            assert(lv[oold as int] == LeafV::Kept(commitment.0));
                        }
                        let h = crate::Hash::of(commitment);
                        self.inner.slots.set(oold as usize, Insert::Hash(h));
                        proof {
                            assert(self.view_spec() =~= pushed.update(
                                oold as int,
                                prune_leaf(pushed[oold as int]),
                            ));
                            lemma_map_values_update(
                                pushed,
                                oold as int,
                                prune_leaf(pushed[oold as int]),
                                |l: LeafV| leaf_v_hash(l),
                            );
                            assert(self.wf()) by {
                                assert(forall|q: int|
                                    0 <= q < lv.len() && q != oold ==> pushed[q]
                                        == #[trigger] lv[q]);
                            }
                        }
                        Ok(())
                    },
                }
            },
        }
    }

    /// The root hash of this block.
    pub fn root(&self) -> (r: Root)
        ensures
            r.0.0 == block_hash(self.view_spec()),
    {
        Root(crate::Hash(hash_block_inner(&self.inner)))
    }

    /// How many leaf slots have been appended, elided ones included.
    pub fn len(&self) -> (n: u64)
        requires
            self.wf(),
        ensures
            n == self.view_spec().len(),
    {
        self.inner.slots.len() as u64
    }

    /// Whether no leaf slot has been appended yet.
    pub fn is_empty(&self) -> (r: bool)
        ensures
            r <==> self.view_spec().len() == 0,
    {
        self.inner.slots.len() == 0
    }
}

} // verus!
