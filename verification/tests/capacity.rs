//! Capacity boundaries: each tier takes exactly 65,536 children and then
//! reports fullness, returning the rejected input unchanged.

use tct::block::Block;
use tct::epoch::Epoch;
use tct::eternity::Eternity;
use tct::{Commitment, Witness};

#[test]
fn block_capacity_boundary() {
    let mut b = Block::new();
    for i in 0..65536u64 {
        assert!(b.insert(Witness::Keep, Commitment(i)).is_ok());
    }
    assert_eq!(b.len(), 65536);
    let extra = Commitment(70000);
    assert_eq!(b.insert(Witness::Keep, extra), Err(extra));
    assert_eq!(b.insert(Witness::Forget, extra), Err(extra));
    assert_eq!(b.len(), 65536);
}

#[test]
fn epoch_capacity_boundary() {
    let mut e = Epoch::new();
    for _ in 0..65536u64 {
        assert!(e.insert_block(Block::new()).is_ok());
    }
    let root_before = e.root();
    let mut rejected = Block::new();
    assert!(rejected.insert(Witness::Keep, Commitment(1)).is_ok());
    match e.insert_block(rejected) {
        Ok(()) => panic!("a full epoch must reject a block"),
        Err(tct::epoch::InsertBlockError(back)) => {
            // The rejected block comes back unchanged.
            assert_eq!(back.len(), 1);
        },
    }
    assert_eq!(e.root(), root_before);
    assert!(matches!(
        e.insert_block_root(tct::block::Root(tct::Hash(1))),
        Err(tct::epoch::InsertBlockRootError)
    ));
}

#[test]
fn eternity_epoch_capacity_boundary() {
    let mut t = Eternity::new();
    for _ in 0..65536u64 {
        assert!(t.insert_epoch(Epoch::new()).is_ok());
    }
    let mut rejected = Epoch::new();
    assert!(rejected.insert(Witness::Keep, Commitment(5)).is_ok());
    match t.insert_epoch(rejected) {
        Ok(()) => panic!("a full accumulator must reject an epoch"),
        Err(tct::eternity::InsertEpochError(mut back)) => {
            assert!(back.insert(Witness::Keep, Commitment(6)).is_ok());
        },
    }
    assert!(matches!(
        t.insert_epoch_root(tct::epoch::Root(tct::Hash(2))),
        Err(tct::eternity::InsertEpochRootError)
    ));
}

#[test]
fn full_block_reports_block_full() {
    let mut e = Epoch::new();
    for i in 0..65536u64 {
        assert!(e.insert(Witness::Forget, Commitment(i)).is_ok());
    }
    // The open block is full: the caller must close it before retrying.
    assert_eq!(e.insert(Witness::Keep, Commitment(1)), Err(tct::epoch::InsertError::BlockFull));
    assert!(e.insert_block(Block::new()).is_ok());
    assert!(e.insert(Witness::Keep, Commitment(1)).is_ok());
}
