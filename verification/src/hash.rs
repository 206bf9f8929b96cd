//! Digest and leaf primitives: the fixed-width digest, the opaque leaf value,
//! the combining function used at every tier boundary, and the packed 48-bit
//! position coordinates that locate a leaf in the three-tier structure.

use vstd::prelude::*;

verus! {

/// An opaque leaf value accumulated into the structure; its semantics are
/// owned by the caller.
#[derive(Debug, Clone, Copy, PartialEq, Eq, Structural)]
pub struct Commitment(pub u64);

/// Domain tag mixed into every leaf digest.
pub const LEAF_SEED: u64 = 0x6c65_6166_5f74_6167;

/// Digest contributed by a tier with no appended slots.
pub const EMPTY_SEED: u64 = 0x84ae_2f1a_9c53_7b0d;

/// One mixing step of the digest: folds one more child value into an
/// accumulator. Diffusion is by rotation and exclusive-or only, so the
/// step is total on 64-bit words.
pub open spec fn spec_mix(a: u64, b: u64) -> u64 {
    (((a << 21) | (a >> 43)) ^ ((b << 9) | (b >> 55))) ^ 0x9e37_79b9_7f4a_7c15
}

/// Executable mixing step.
#[verifier::when_used_as_spec(spec_mix)]
pub fn mix(a: u64, b: u64) -> (r: u64)
    ensures
        r == spec_mix(a, b),
{
    (((a << 21u64) | (a >> 43u64)) ^ ((b << 9u64) | (b >> 55u64))) ^ 0x9e37_79b9_7f4a_7c15
}

/// Digest of an ordered sequence of child digests, before length tagging.
pub open spec fn fold_hashes(s: Seq<u64>) -> u64
    decreases s.len(),
{
    if s.len() == 0 {
        EMPTY_SEED
    } else {
        spec_mix(fold_hashes(s.drop_last()), s.last())
    }
}

/// Digest of a tier from the ordered digests of its appended slots: the fold
/// of the children, tagged with how many there are, so tiers of different
/// fill levels are never confused by padding choices.
pub open spec fn combine_hashes(s: Seq<u64>) -> u64 {
    spec_mix(fold_hashes(s), s.len() as u64)
}

/// Digest contributed by one leaf commitment.
pub open spec fn spec_hash_commitment(c: u64) -> u64 {
    spec_mix(c, LEAF_SEED)
}

/// A position packs the three 16-bit coordinates (epoch, block, offset) of a
/// leaf into the low 48 bits of a word, most significant tier first, so
/// positions are assigned in strictly increasing order.
pub open spec fn spec_pack(e: u64, b: u64, o: u64) -> u64 {
    ((e << 32) | (b << 16)) | o
}

/// The epoch coordinate of a packed position.
pub open spec fn pos_epoch(p: u64) -> u64 {
    (p >> 32) & 0xffff
}

/// The block coordinate of a packed position.
pub open spec fn pos_block(p: u64) -> u64 {
    (p >> 16) & 0xffff
}

/// The offset coordinate of a packed position.
pub open spec fn pos_offset(p: u64) -> u64 {
    p & 0xffff
}

/// Executable read of the epoch coordinate of a packed position.
#[verifier::when_used_as_spec(pos_epoch)]
pub fn pos_epoch_exec(p: u64) -> (r: u64)
    ensures
        r == pos_epoch(p),
{
    (p >> 32u64) & 0xffff
}

/// Executable read of the block coordinate of a packed position.
#[verifier::when_used_as_spec(pos_block)]
pub fn pos_block_exec(p: u64) -> (r: u64)
    ensures
        r == pos_block(p),
{
    (p >> 16u64) & 0xffff
}

/// Executable read of the offset coordinate of a packed position.
#[verifier::when_used_as_spec(pos_offset)]
pub fn pos_offset_exec(p: u64) -> (r: u64)
    ensures
        r == pos_offset(p),
{
    p & 0xffff
}

/// Largest value a packed position can take, plus one.
pub const POSITION_LIMIT: u64 = 0x1_0000_0000_0000;

/// Number of slots each tier can hold.
pub const TIER_CAPACITY: usize = 65536;

/// Executable packing of three in-range coordinates.
#[verifier::when_used_as_spec(spec_pack)]
pub fn pack(e: u64, b: u64, o: u64) -> (p: u64)
    ensures
        p == spec_pack(e, b, o),
{
    ((e << 32u64) | (b << 16u64)) | o
}

/// Packing three in-range coordinates and reading them back are inverse.
pub proof fn lemma_pack_fields(e: u64, b: u64, o: u64)
    requires
        e < 65536,
        b < 65536,
        o < 65536,
    ensures
        pos_epoch(spec_pack(e, b, o)) == e,
        pos_block(spec_pack(e, b, o)) == b,
        pos_offset(spec_pack(e, b, o)) == o,
        spec_pack(e, b, o) < POSITION_LIMIT,
        e == 0 ==> spec_pack(e, b, o) < 0x1_0000_0000,
{
    assert(((((e << 32) | (b << 16)) | o) >> 32) & 0xffff == e
        && ((((e << 32) | (b << 16)) | o) >> 16) & 0xffff == b
        && (((e << 32) | (b << 16)) | o) & 0xffff == o
        && (((e << 32) | (b << 16)) | o) < 0x1_0000_0000_0000
        && (e == 0 ==> (((e << 32) | (b << 16)) | o) < 0x1_0000_0000)) by (bit_vector)
        requires
            e < 65536,
            b < 65536,
            o < 65536,
    ;
}

/// Reading the coordinates of a sub-limit position and repacking them is the
/// identity, and the coordinates are always in range.
pub proof fn lemma_unpack_fields(p: u64)
    requires
        p < POSITION_LIMIT,
    ensures
        spec_pack(pos_epoch(p), pos_block(p), pos_offset(p)) == p,
        pos_epoch(p) < 65536,
        pos_block(p) < 65536,
        pos_offset(p) < 65536,
{
    assert(((((p >> 32) & 0xffff) << 32) | (((p >> 16) & 0xffff) << 16)) | (p & 0xffff) == p
        && (p >> 32) & 0xffff < 65536
        && (p >> 16) & 0xffff < 65536
        && p & 0xffff < 65536) by (bit_vector)
        requires
            p < 0x1_0000_0000_0000,
    ;
}

/// The coordinate fields of any packed position are in range.
pub proof fn lemma_pos_fields_bounded(p: u64)
    ensures
        pos_epoch(p) < 65536,
        pos_block(p) < 65536,
        pos_offset(p) < 65536,
{
    assert((p >> 32) & 0xffff < 65536 && (p >> 16) & 0xffff < 65536 && p & 0xffff < 65536)
        by (bit_vector);
}

} // verus!
