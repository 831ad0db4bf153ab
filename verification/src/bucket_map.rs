//! The shared per-bucket buffer: a concurrent map from bucket prefix to the
//! records admitted this cycle, taken on trust from the outside map crate.
//!
//! The map's contents are named by `bucket_map_view`; every wrapper states
//! its effect over that name. No iteration order is promised anywhere: the
//! map walks its shards in a hash-dependent order.

use std::collections::hash_map::RandomState;

use vstd::prelude::*;

use crate::record::Record;

verus! {

#[verifier::external_type_specification]
#[verifier::external_body]
#[verifier::reject_recursive_types(K)]
#[verifier::reject_recursive_types(V)]
#[verifier::reject_recursive_types(S)]
pub struct ExDashMap<K, V, S>(dashmap::DashMap<K, V, S>);

/// The concurrent map instantiated as the build phase uses it.
pub type BucketMap = dashmap::DashMap<u64, Vec<Record>, RandomState>;

/// The buffered records, by bucket prefix. Keys never buffered are absent.
pub uninterp spec fn bucket_map_view(m: BucketMap) -> Map<u64, Seq<Record>>;

/// A map with nothing buffered.
pub open spec fn bucket_map_is_empty(m: BucketMap) -> bool {
    bucket_map_view(m) == Map::<u64, Seq<Record>>::empty()
}

/// The buffered record count under key `k`; zero when the key is absent.
pub open spec fn view_count(view: Map<u64, Seq<Record>>, k: int) -> int {
    if 0 <= k <= u64::MAX && view.dom().contains(k as u64) {
        view[k as u64].len() as int
    } else {
        0
    }
}

/// The set of keys that occur in a collected pair list.
pub open spec fn pairs_key_set(pairs: Seq<(u64, Vec<Record>)>) -> Set<u64> {
    Set::new(|k: u64| exists|i: int| 0 <= i < pairs.len() && (#[trigger] pairs[i]).0 == k)
}

/// Relies on dashmap::DashMap::with_capacity: a fresh map holds nothing.
#[verifier::external_body]
pub(crate) fn bucket_map_new(capacity: usize) -> (r: BucketMap)
    ensures
        bucket_map_is_empty(r),
{
    dashmap::DashMap::with_capacity(capacity)
}

/// Relies on dashmap::DashMap::get: how many records are buffered under
/// `key`; zero when the key is absent.
#[verifier::external_body]
pub(crate) fn bucket_map_len(m: &BucketMap, key: u64) -> (n: usize)
    ensures
        bucket_map_view(*m).dom().contains(key) ==> n == bucket_map_view(*m)[key].len(),
        !bucket_map_view(*m).dom().contains(key) ==> n == 0,
{
    match m.get(&key) {
        Some(v) => v.len(),
        None => 0,
    }
}

/// Relies on dashmap::DashMap::entry, Entry::or_default and Vec::push:
/// appends one record to the buffer under `key`, creating the buffer when
/// the key is absent.
#[verifier::external_body]
pub(crate) fn bucket_map_push(m: &mut BucketMap, key: u64, rec: Record)
    ensures
        bucket_map_view(*final(m)) == bucket_map_view(*old(m)).insert(
            key,
            (if bucket_map_view(*old(m)).dom().contains(key) {
                bucket_map_view(*old(m))[key]
            } else {
                Seq::<Record>::empty()
            }).push(rec),
        ),
{
    m.entry(key).or_default().push(rec);
}

/// Relies on dashmap::DashMap::iter: hands out every buffered (prefix,
/// records) pair, each key exactly once, in no promised order.
#[verifier::external_body]
pub(crate) fn bucket_map_collect(m: &BucketMap) -> (pairs: Vec<(u64, Vec<Record>)>)
    ensures
        forall|i: int|
            0 <= i < pairs@.len() ==> {
                &&& bucket_map_view(*m).dom().contains((#[trigger] pairs@[i]).0)
                &&& pairs@[i].1@ == bucket_map_view(*m)[pairs@[i].0]
            },
        forall|i: int, j: int|
            0 <= i < j < pairs@.len() ==> (#[trigger] pairs@[i]).0 != (#[trigger] pairs@[j]).0,
        pairs_key_set(pairs@) == bucket_map_view(*m).dom(),
{
    m.iter().map(|e| (*e.key(), e.value().clone())).collect()
}

/// Relies on dashmap::DashMap::clear: removes every buffered pair.
#[verifier::external_body]
pub(crate) fn bucket_map_clear(m: &mut BucketMap)
    ensures
        bucket_map_is_empty(*final(m)),
{
    m.clear();
}

} // verus!
