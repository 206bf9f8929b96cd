//! End-to-end behavior of the accumulator: insertion, forgetting, lazy root
//! determinism, re-insertion eviction, and the conservative size counter.

use tct::eternity::Eternity;
use tct::{Commitment, Witness};

#[test]
fn fresh_accumulator_scenario() {
    let mut t = Eternity::new();
    assert!(t.is_empty());
    let empty_root = t.root();

    let c1 = Commitment(1);
    let c2 = Commitment(2);
    let c3 = Commitment(3);
    assert!(t.insert(Witness::Keep, c1).is_ok());
    assert!(t.insert(Witness::Keep, c2).is_ok());
    assert!(t.insert(Witness::Forget, c3).is_ok());

    assert!(t.witness(c1).is_some());
    assert!(t.witness(c2).is_some());
    assert!(t.witness(c3).is_none());
    assert_eq!(t.len(), 3);
    assert!(!t.is_empty());

    let r1 = t.root();
    assert_ne!(r1, empty_root);
    let r2 = t.root();
    assert_eq!(r1, r2);
}

#[test]
fn root_deterministic_under_interleaved_reads() {
    let mut a = Eternity::new();
    let mut b = Eternity::new();
    for i in 0..50u64 {
        assert!(a.insert(Witness::Keep, Commitment(i)).is_ok());
        // Interleave reads on `a` only; they must not affect the root.
        let _ = a.root();
        let _ = a.witness(Commitment(i / 2));
        assert!(b.insert(Witness::Keep, Commitment(i)).is_ok());
    }
    assert!(a.forget(Commitment(7)));
    assert!(b.forget(Commitment(7)));
    let _ = a.root();
    assert_eq!(a.root(), b.root());
}

#[test]
fn forget_transparency() {
    let mut t = Eternity::new();
    for i in 0..10u64 {
        assert!(t.insert(Witness::Keep, Commitment(i)).is_ok());
    }
    let before = t.root();
    let len_before = t.len();
    assert!(t.forget(Commitment(4)));
    assert_eq!(t.root(), before);
    assert_eq!(t.len(), len_before);
    assert!(t.witness(Commitment(4)).is_none());
    // Forgetting a commitment that was never witnessed is a no-op.
    assert!(!t.forget(Commitment(4)));
    assert!(!t.forget(Commitment(99)));
    assert_eq!(t.root(), before);
}

#[test]
fn reinsertion_evicts_old_position() {
    let mut t = Eternity::new();
    let c = Commitment(42);
    assert!(t.insert(Witness::Keep, c).is_ok());
    assert!(t.insert(Witness::Keep, Commitment(43)).is_ok());
    let first = t.witness(c).expect("indexed");
    assert_eq!(first.position, 0);

    assert!(t.insert(Witness::Keep, c).is_ok());
    let second = t.witness(c).expect("still indexed");
    assert_eq!(second.position, 2);

    // Both leaves still contribute to the root: the root of an accumulator
    // with only the newer copy differs.
    let mut fresh = Eternity::new();
    assert!(fresh.insert(Witness::Keep, c).is_ok());
    assert!(fresh.insert(Witness::Keep, Commitment(43)).is_ok());
    assert!(fresh.insert(Witness::Keep, c).is_ok());
    assert_eq!(t.root(), fresh.root());
    assert_ne!(t.len(), 2);
    assert_eq!(t.len(), 3);
}

#[test]
fn summary_epoch_rejects_insertions() {
    let mut t = Eternity::new();
    assert!(t.insert(Witness::Keep, Commitment(1)).is_ok());
    assert!(t.insert_epoch_root(tct::epoch::Root(tct::Hash(777))).is_ok());
    let len_before = t.len();
    let root_before = t.root();

    let c4 = Commitment(4);
    let rejected = t.insert(Witness::Keep, c4);
    assert_eq!(rejected, Err(c4));
    assert_eq!(t.len(), len_before);
    assert_eq!(t.root(), root_before);
    assert!(t.witness(c4).is_none());
}

#[test]
fn summary_epoch_len_counts_at_capacity() {
    let mut t = Eternity::new();
    assert!(t.insert_epoch_root(tct::epoch::Root(tct::Hash(9))).is_ok());
    assert_eq!(t.len(), 1u64 << 32);
    // A summary block in a fresh epoch likewise counts at capacity.
    let mut u = Eternity::new();
    assert!(u.insert_block_root(tct::block::Root(tct::Hash(8))).is_ok());
    assert_eq!(u.len(), 1u64 << 16);
    // Size never decreases: appending after the summary grows it further.
    assert!(u.insert(Witness::Keep, Commitment(5)).is_err());
}

#[test]
fn summary_block_rejects_insertions() {
    let mut t = Eternity::new();
    assert!(t.insert_block_root(tct::block::Root(tct::Hash(8))).is_ok());
    let root_before = t.root();
    let c = Commitment(6);
    assert_eq!(t.insert(Witness::Keep, c), Err(c));
    assert_eq!(t.root(), root_before);

    // Inserting a fresh materialized block opens the epoch again.
    let b = tct::block::Block::new();
    assert!(t.insert_block(b).is_ok());
    assert!(t.insert(Witness::Keep, c).is_ok());
    assert!(t.witness(c).is_some());
}

#[test]
fn insert_block_merges_index() {
    let mut t = Eternity::new();
    let c0 = Commitment(10);
    assert!(t.insert(Witness::Keep, c0).is_ok());

    let mut b = tct::block::Block::new();
    let c1 = Commitment(11);
    assert!(b.insert(Witness::Keep, c1).is_ok());
    // The block also re-indexes a commitment the accumulator already holds.
    assert!(b.insert(Witness::Keep, c0).is_ok());

    assert!(t.insert_block(b).is_ok());
    // Both block commitments are now witnessable, at block coordinate 1.
    let p0 = t.witness(c0).expect("merged");
    let p1 = t.witness(c1).expect("merged");
    assert_eq!(p0.position, (1 << 16) | 1);
    assert_eq!(p1.position, 1 << 16);
    // And the old copy of c0 was evicted: forgetting c0 removes only the
    // new position, leaving the root unchanged.
    let before = t.root();
    assert!(t.forget(c0));
    assert_eq!(t.root(), before);
}

#[test]
fn insert_epoch_merges_index() {
    let mut e = tct::epoch::Epoch::new();
    let c = Commitment(21);
    assert!(e.insert(Witness::Keep, c).is_ok());
    let mut b = tct::block::Block::new();
    let c2 = Commitment(22);
    assert!(b.insert(Witness::Keep, c2).is_ok());
    assert!(e.insert_block(b).is_ok());

    let mut t = Eternity::new();
    assert!(t.insert(Witness::Keep, Commitment(20)).is_ok());
    assert!(t.insert_epoch(e).is_ok());
    let p = t.witness(c).expect("merged from epoch");
    assert_eq!(p.position, 1 << 32);
    let p2 = t.witness(c2).expect("merged from epoch");
    assert_eq!(p2.position, (1 << 32) | (1 << 16));
    assert!(t.witness(Commitment(20)).is_some());
}

#[test]
fn epoch_level_errors() {
    let mut e = tct::epoch::Epoch::new();
    assert!(e.insert_block_root(tct::block::Root(tct::Hash(3))).is_ok());
    assert_eq!(e.insert(Witness::Keep, Commitment(1)), Err(tct::epoch::InsertError::BlockForgotten));
}

#[test]
fn empty_roots_of_levels_are_formula_values() {
    // A tier's digest is the fold of its children tagged with its width; an
    // empty tier folds to the seed and tags with zero.
    let t = Eternity::new();
    assert_eq!(t.root().0.0, tct::mix(tct::EMPTY_SEED, 0));
    let b = tct::block::Block::new();
    assert_eq!(b.root().0.0, tct::mix(tct::EMPTY_SEED, 0));
    let e = tct::epoch::Epoch::new();
    assert_eq!(e.root().0.0, tct::mix(tct::EMPTY_SEED, 0));
    // A leaf digest mixes the commitment with the leaf tag.
    let h = tct::Hash::of(Commitment(5));
    assert_eq!(h.0, tct::mix(5, tct::LEAF_SEED));
}
