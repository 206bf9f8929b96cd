//! Inclusion proofs: every witnessed commitment verifies against the current
//! root, stale roots are rejected as digest mismatches, and malformed paths
//! are rejected as shape errors.

use tct::eternity::Eternity;
use tct::proofs::{verify, VerifyError};
use tct::{Commitment, Witness};

#[test]
fn witness_verifies_against_current_root() {
    let mut t = Eternity::new();
    for i in 0..20u64 {
        assert!(t.insert(Witness::Keep, Commitment(i)).is_ok());
    }
    let root = t.root();
    for i in 0..20u64 {
        let p = t.witness(Commitment(i)).expect("kept commitments are witnessable");
        assert!(verify(p, root).is_ok());
    }
}

#[test]
fn witness_fails_against_stale_root() {
    let mut t = Eternity::new();
    assert!(t.insert(Witness::Keep, Commitment(1)).is_ok());
    let old_root = t.root();
    assert!(t.insert(Witness::Keep, Commitment(2)).is_ok());
    let p = t.witness(Commitment(2)).expect("witnessable");
    assert_eq!(verify(p, old_root).err(), Some(VerifyError::Digest));
    // The same witness against the current root still verifies.
    let p2 = t.witness(Commitment(2)).expect("witnessable");
    assert!(verify(p2, t.root()).is_ok());
}

#[test]
fn verified_proof_carries_proof_and_root() {
    let mut t = Eternity::new();
    assert!(t.insert(Witness::Keep, Commitment(9)).is_ok());
    let root = t.root();
    let p = t.witness(Commitment(9)).expect("witnessable");
    let position = p.position;
    let vp = verify(p, root).expect("verifies");
    assert_eq!(vp.verified_root(), root);
    assert_eq!(vp.inclusion_proof().position, position);
    assert_eq!(vp.inclusion_proof().leaf, Commitment(9));
}

#[test]
fn malformed_paths_are_shape_errors() {
    let mut t = Eternity::new();
    assert!(t.insert(Witness::Keep, Commitment(3)).is_ok());
    let root = t.root();

    // A position beyond the 48-bit coordinate space.
    let mut p = t.witness(Commitment(3)).expect("witnessable");
    p.position = 1 << 48;
    assert_eq!(verify(p, root).err(), Some(VerifyError::Shape));

    // An offset coordinate beyond the sibling count.
    let mut p = t.witness(Commitment(3)).expect("witnessable");
    p.position = 5;
    assert_eq!(verify(p, root).err(), Some(VerifyError::Shape));
}

#[test]
fn tampered_leaf_is_digest_mismatch() {
    let mut t = Eternity::new();
    assert!(t.insert(Witness::Keep, Commitment(3)).is_ok());
    assert!(t.insert(Witness::Keep, Commitment(4)).is_ok());
    let root = t.root();
    let mut p = t.witness(Commitment(3)).expect("witnessable");
    p.leaf = Commitment(5);
    assert_eq!(verify(p, root).err(), Some(VerifyError::Digest));
}

#[test]
fn forgotten_path_is_not_witnessable() {
    let mut t = Eternity::new();
    assert!(t.insert(Witness::Keep, Commitment(1)).is_ok());
    assert!(t.insert(Witness::Forget, Commitment(2)).is_ok());
    assert!(t.witness(Commitment(2)).is_none());
    // A commitment inside a summary-only block was never indexed either.
    assert!(t.insert_block_root(tct::block::Root(tct::Hash(44))).is_ok());
    assert!(t.witness(Commitment(44)).is_none());
    // But the kept one still verifies after all that.
    let p = t.witness(Commitment(1)).expect("kept");
    assert!(verify(p, t.root()).is_ok());
}

#[test]
fn block_and_epoch_roots_feed_summary_inserts() {
    // Building a block, eliding it to its root, and inserting the root gives
    // the same accumulator root as inserting the whole block and then
    // forgetting its contents: elision never changes any hash.
    let mut b1 = tct::block::Block::new();
    assert!(b1.insert(Witness::Keep, Commitment(7)).is_ok());
    let b1_root = b1.root();

    let mut whole = Eternity::new();
    assert!(whole.insert_block(b1).is_ok());
    assert!(whole.forget(Commitment(7)));

    let mut elided = Eternity::new();
    assert!(elided.insert_block_root(b1_root).is_ok());

    assert_eq!(whole.root(), elided.root());

    let mut e1 = tct::epoch::Epoch::new();
    assert!(e1.insert(Witness::Keep, Commitment(8)).is_ok());
    let e1_root = e1.root();

    let mut whole_e = Eternity::new();
    assert!(whole_e.insert_epoch(e1).is_ok());
    assert!(whole_e.forget(Commitment(8)));

    let mut elided_e = Eternity::new();
    assert!(elided_e.insert_epoch_root(e1_root).is_ok());

    assert_eq!(whole_e.root(), elided_e.root());
}
