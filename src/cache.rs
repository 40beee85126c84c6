//! The bounded cache that holds qualified counters, kept in a moka cache.
//! Entries can be evicted at any operation, so each operation states what
//! holds whatever was evicted.

use vstd::prelude::*;
use std::sync::Arc;
use moka::sync::Cache;
use crate::counter_set::{CounterValue, CounterValueSet};
use crate::limit::values_view;

verus! {

/// The key of a qualified counter: the number that the store gave its limit,
/// and the values of the limit's variables.
pub type QualifiedKey = (u64, Vec<(String, String)>);

pub type QualifiedCache = Cache<QualifiedKey, Arc<CounterValueSet>>;

pub open spec fn qkey_view(k: QualifiedKey) -> (u64, Seq<(Seq<char>, Seq<char>)>) {
    (k.0, values_view(k.1@))
}

#[verifier::external_type_specification]
#[verifier::external_body]
#[verifier::reject_recursive_types(K)]
#[verifier::reject_recursive_types(V)]
#[verifier::reject_recursive_types(S)]
pub struct ExCache<K, V, S>(Cache<K, V, S>);

/// What the cache holds: the entries that a lookup finds.
pub uninterp spec fn cached(c: QualifiedCache) -> Map<(u64, Seq<(Seq<char>, Seq<char>)>), Seq<CounterValue>>;

/// Whether the cache was built to take invalidation predicates.
pub uninterp spec fn takes_predicates(c: QualifiedCache) -> bool;

/// Relies on moka's `CacheBuilder` with `max_capacity` and
/// `support_invalidation_closures`: an empty cache that takes predicates.
#[verifier::external_body]
pub(crate) fn cache_new(capacity: u64) -> (r: QualifiedCache)
    ensures
        forall|k: (u64, Seq<(Seq<char>, Seq<char>)>)| !(#[trigger] cached(r).contains_key(k)),
        takes_predicates(r),
{
    Cache::builder().max_capacity(capacity).support_invalidation_closures().build()
}

/// Relies on moka's `Cache::get`: the stored value for a key equal to `k`
/// (tuple, integer and string equality), if any. A lookup may let the cache
/// evict entries.
#[verifier::external_body]
pub(crate) fn cache_get(c: &mut QualifiedCache, k: &QualifiedKey) -> (r: Option<Arc<CounterValueSet>>)
    ensures
        r is Some <==> cached(*old(c)).contains_key(qkey_view(*k)),
        r is Some ==> r->0@ == cached(*old(c))[qkey_view(*k)],
        cached(*final(c)).submap_of(cached(*old(c))),
        takes_predicates(*final(c)) == takes_predicates(*old(c)),
{
    c.get(k)
}

/// Relies on moka's `Cache::insert`: the entry replaces any for the same key;
/// the cache may evict entries, this one included.
#[verifier::external_body]
pub(crate) fn cache_insert(c: &mut QualifiedCache, k: QualifiedKey, v: Arc<CounterValueSet>)
    ensures
        cached(*final(c)).submap_of(cached(*old(c)).insert(qkey_view(k), v@)),
        takes_predicates(*final(c)) == takes_predicates(*old(c)),
{
    c.insert(k, v)
}

/// Whether `k` belongs to the limit numbered `id`.
pub fn key_of_limit(k: &QualifiedKey, id: u64) -> (r: bool)
    ensures
        r == (k.0 == id),
{
    k.0 == id
}

/// Relies on moka's `Cache::invalidate_entries_if`: lookups no longer find the
/// entries that the predicate selects, here those of the limit numbered `id`;
/// the call only registers the predicate, so every other entry stays.
#[verifier::external_body]
pub(crate) fn cache_invalidate_limit(c: &mut QualifiedCache, id: u64)
    requires
        takes_predicates(*old(c)),
    ensures
        cached(*final(c)).submap_of(cached(*old(c))),
        forall|k: (u64, Seq<(Seq<char>, Seq<char>)>)| #[trigger] cached(*final(c)).contains_key(k) ==> k.0 != id,
        forall|k: (u64, Seq<(Seq<char>, Seq<char>)>)| k.0 != id && #[trigger] cached(*old(c)).contains_key(k)
            ==> cached(*final(c)).contains_key(k),
        takes_predicates(*final(c)),
{
    let _ = c.invalidate_entries_if(move |k: &QualifiedKey, _v: &Arc<CounterValueSet>| key_of_limit(k, id));
}

/// Relies on moka's `Cache::invalidate_all`: lookups find nothing inserted
/// before the call.
#[verifier::external_body]
pub(crate) fn cache_clear(c: &mut QualifiedCache)
    ensures
        forall|k: (u64, Seq<(Seq<char>, Seq<char>)>)| !(#[trigger] cached(*final(c)).contains_key(k)),
        takes_predicates(*final(c)) == takes_predicates(*old(c)),
{
    c.invalidate_all()
}

/// Relies on moka's `Cache::iter`: each entry that a lookup finds, once.
#[verifier::external_body]
pub(crate) fn cache_entries(c: &mut QualifiedCache) -> (r: Vec<(QualifiedKey, Arc<CounterValueSet>)>)
    ensures
        forall|i: int| 0 <= i < r@.len() ==> cached(*old(c)).contains_key(#[trigger] qkey_view(r@[i].0))
            && cached(*old(c))[qkey_view(r@[i].0)] == r@[i].1@,
        forall|k: (u64, Seq<(Seq<char>, Seq<char>)>)| #[trigger] cached(*old(c)).contains_key(k)
            ==> exists|i: int| 0 <= i < r@.len() && qkey_view(r@[i].0) == k,
        forall|i: int, j: int| 0 <= i < j < r@.len() ==> qkey_view(r@[i].0) != qkey_view(r@[j].0),
        cached(*final(c)) == cached(*old(c)),
        takes_predicates(*final(c)) == takes_predicates(*old(c)),
{
    c.iter().map(|(k, v)| ((*k).clone(), v)).collect()
}

} // verus!
