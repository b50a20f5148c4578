//! The two shared bucket stores of the pipeline, kept in `dashmap`
//! concurrent maps: byte length to size bucket, and digest to duplicate
//! bucket.
//!
//! Verus sees each map through an abstract key-to-bucket mapping; the
//! operations the pipeline performs are wrapped one call each.

use vstd::prelude::*;

use crate::fileinfo::{FileInfo, FileRec};

verus! {

#[verifier::external_type_specification]
#[verifier::external_body]
#[verifier::reject_recursive_types(K)]
#[verifier::reject_recursive_types(V)]
#[verifier::reject_recursive_types(S)]
pub struct ExDashMap<K, V, S>(dashmap::DashMap<K, V, S>);

/// Byte length to the files of that length, in arrival order.
pub type SizeMap = dashmap::DashMap<u64, Vec<FileInfo>>;

/// Content digest to the files with that digest, in arrival order.
pub type DigestMap = dashmap::DashMap<u128, Vec<FileInfo>>;

/// The abstract value of a bucket: its files' records, in order.
pub open spec fn recs_of(v: Seq<FileInfo>) -> Seq<FileRec> {
    v.map_values(|f: FileInfo| f@)
}

/// What a `SizeMap` holds.
pub uninterp spec fn size_map_of(m: SizeMap) -> Map<u64, Seq<FileRec>>;

/// What a `DigestMap` holds.
pub uninterp spec fn digest_map_of(m: DigestMap) -> Map<u128, Seq<FileRec>>;

/// Relies on dashmap::DashMap::new: the new map is empty.
#[verifier::external_body]
pub(crate) fn size_map_new() -> (m: SizeMap)
    ensures
        size_map_of(m) =~= Map::empty(),
{
    dashmap::DashMap::new()
}

/// Relies on dashmap::DashMap::new: the new map is empty.
#[verifier::external_body]
pub(crate) fn digest_map_new() -> (m: DigestMap)
    ensures
        digest_map_of(m) =~= Map::empty(),
{
    dashmap::DashMap::new()
}

/// Relies on dashmap::DashMap::insert: after the call the key maps to
/// exactly the given bucket; no other key changes.
#[verifier::external_body]
pub(crate) fn size_map_put(m: &mut SizeMap, k: u64, v: Vec<FileInfo>)
    ensures
        size_map_of(*final(m)) == size_map_of(*old(m)).insert(k, recs_of(v@)),
{
    m.insert(k, v);
}

/// Relies on dashmap::DashMap::insert: after the call the key maps to
/// exactly the given bucket; no other key changes.
#[verifier::external_body]
pub(crate) fn digest_map_put(m: &mut DigestMap, k: u128, v: Vec<FileInfo>)
    ensures
        digest_map_of(*final(m)) == digest_map_of(*old(m)).insert(k, recs_of(v@)),
{
    m.insert(k, v);
}

/// Relies on dashmap::DashMap::get: returns a copy of the bucket the key
/// maps to, or nothing when the key is absent.
#[verifier::external_body]
pub(crate) fn size_map_get(m: &SizeMap, k: u64) -> (r: Option<Vec<FileInfo>>)
    ensures
        match r {
            Some(v) => size_map_of(*m).dom().contains(k) && recs_of(v@) == size_map_of(*m)[k],
            None => !size_map_of(*m).dom().contains(k),
        },
{
    m.get(&k).map(|b| b.value().clone())
}

/// Relies on dashmap::DashMap::get: returns a copy of the bucket the key
/// maps to, or nothing when the key is absent.
#[verifier::external_body]
pub(crate) fn digest_map_get(m: &DigestMap, k: u128) -> (r: Option<Vec<FileInfo>>)
    ensures
        match r {
            Some(v) => digest_map_of(*m).dom().contains(k) && recs_of(v@) == digest_map_of(*m)[k],
            None => !digest_map_of(*m).dom().contains(k),
        },
{
    m.get(&k).map(|b| b.value().clone())
}

/// Relies on dashmap::DashMap::iter: visits every key exactly once.  The
/// order the keys come back in is not part of the contract.
#[verifier::external_body]
pub(crate) fn size_map_keys(m: &SizeMap) -> (r: Vec<u64>)
    ensures
        r@.to_set() == size_map_of(*m).dom(),
        r@.no_duplicates(),
{
    m.iter().map(|e| *e.key()).collect()
}

/// Relies on dashmap::DashMap::iter: visits every key exactly once.  The
/// order the keys come back in is not part of the contract.
#[verifier::external_body]
pub(crate) fn digest_map_keys(m: &DigestMap) -> (r: Vec<u128>)
    ensures
        r@.to_set() == digest_map_of(*m).dom(),
        r@.no_duplicates(),
{
    m.iter().map(|e| *e.key()).collect()
}

/// Relies on dashmap::DashMap::len: the number of keys the map holds.
#[verifier::external_body]
pub(crate) fn size_map_len(m: &SizeMap) -> (r: usize)
    ensures
        r == size_map_of(*m).dom().len(),
{
    m.len()
}

/// Relies on dashmap::DashMap::len: the number of keys the map holds.
#[verifier::external_body]
pub(crate) fn digest_map_len(m: &DigestMap) -> (r: usize)
    ensures
        r == digest_map_of(*m).dom().len(),
{
    m.len()
}

/// The kinds of key a bucket store has been indexed by across the
/// pipeline's variants: byte length, a copy of the leading content bytes,
/// or a full content digest rendered as text.
#[derive(Debug, Clone, PartialEq, Eq, Hash)]
pub enum Index {
    Size(u64),
    Partial(Vec<u8>),
    Full(String),
}

} // verus!
