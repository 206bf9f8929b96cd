//! The commitment index: a map from commitment values to packed positions.
//!
//! The index is a `hash_hasher::HashedMap`, a `std::collections::HashMap`
//! whose hasher passes the already-hash-like key bytes straight through.
//! Verus's model of `HashMap` leaves the behavior of maps with third-party
//! hashers open, so each operation used here is stated over the map's
//! abstract `Map` view by a trusted wrapper.

use vstd::prelude::*;

verus! {

/// `hash_hasher::HashHasher`: a `Hasher` whose output is a pure function of
/// the bytes written (it folds the last eight bytes into a word), carried
/// opaquely.
#[verifier::external_type_specification]
#[verifier::external_body]
pub struct ExHashHasher(hash_hasher::HashHasher);

/// `std::hash::BuildHasherDefault`: builds hashers by `Default::default`, so
/// any two hashers it builds behave identically; carried opaquely.
#[verifier::external_type_specification]
#[verifier::external_body]
#[verifier::reject_recursive_types(H)]
pub struct ExBuildHasherDefault<H>(std::hash::BuildHasherDefault<H>);

/// An empty index.
pub(crate) fn index_new() -> (m: hash_hasher::HashedMap<u64, u64>)
    ensures
        m@ == Map::<u64, u64>::empty(),
{
    hash_hasher::HashedMap::default()
}

/// Relies on `HashMap::get`: `hash_hasher`'s hashers are deterministic pure
/// functions of the key bytes, so lookups follow the map model.
#[verifier::external_body]
pub(crate) fn index_get(m: &hash_hasher::HashedMap<u64, u64>, k: u64) -> (r: Option<u64>)
    ensures
        r == (if m@.contains_key(k) {
            Some(m@[k])
        } else {
            None::<u64>
        }),
{
    m.get(&k).copied()
}

/// Relies on `HashMap::insert`: maps the key to the new value and returns
/// the value it previously mapped to, if any.
#[verifier::external_body]
pub(crate) fn index_insert(m: &mut hash_hasher::HashedMap<u64, u64>, k: u64, v: u64) -> (r: Option<
    u64,
>)
    ensures
        final(m)@ == old(m)@.insert(k, v),
        r == (if old(m)@.contains_key(k) {
            Some(old(m)@[k])
        } else {
            None::<u64>
        }),
{
    m.insert(k, v)
}

/// Relies on `HashMap::remove`: removes the key and returns the value it
/// mapped to, if any.
#[verifier::external_body]
pub(crate) fn index_remove(m: &mut hash_hasher::HashedMap<u64, u64>, k: u64) -> (r: Option<u64>)
    ensures
        final(m)@ == old(m)@.remove(k),
        r == (if old(m)@.contains_key(k) {
            Some(old(m)@[k])
        } else {
            None::<u64>
        }),
{
    m.remove(&k)
}

/// Relies on `HashMap::iter`: yields each entry exactly once, in no promised
/// order.
#[verifier::external_body]
pub(crate) fn index_entries(m: &hash_hasher::HashedMap<u64, u64>) -> (r: Vec<(u64, u64)>)
    ensures
        forall|i: int|
            0 <= i < r@.len() ==> m@.contains_key((#[trigger] r@[i]).0) && r@[i].1 == m@[r@[i].0],
        forall|k: u64|
            #[trigger] m@.contains_key(k) ==> exists|i: int|
                0 <= i < r@.len() && (#[trigger] r@[i]).0 == k,
        forall|i: int, j: int|
            0 <= i < r@.len() && 0 <= j < r@.len() && i != j ==> (#[trigger] r@[i]).0 != (
            #[trigger] r@[j]).0,
{
    m.iter().map(|(k, v)| (*k, *v)).collect()
}

} // verus!
