//! The engine's entry point: decisions on a namespace and a request's values.

use vstd::prelude::*;
use crate::clock::now_nanos;
use crate::counter::{bindings, Counter, CounterView};
use crate::counter_set::CounterValue;
use crate::in_memory::{after_write, counter_views, lists_live_counters, update_effect, update_key, write_chain, written_set, CacheMap, InMemoryStorage};
use crate::keys::{key_of, KeyView};
use crate::limit::{values_view, Limit, LimitView};
use crate::storage::{limits_in, Authorization, Storage, StorageErr};

verus! {

/// The limits of `ls` in namespace `ns` that apply to `values`.
pub open spec fn applying(ls: Seq<LimitView>, ns: Seq<char>, values: Seq<(Seq<char>, Seq<char>)>) -> Seq<LimitView> {
    limits_in(ls, ns).filter(|l: LimitView| l.applies(values))
}

/// The counters of the limits of `ls` in namespace `ns` that apply to
/// `values`.
pub open spec fn applying_counters(ls: Seq<LimitView>, ns: Seq<char>, values: Seq<(Seq<char>, Seq<char>)>) -> Seq<CounterView> {
    applying(ls, ns, values).map_values(|l: LimitView| counter_for(l, values))
}

/// The counter of limit `l` for a request with `values`.
pub open spec fn counter_for(l: LimitView, values: Seq<(Seq<char>, Seq<char>)>) -> CounterView {
    CounterView { limit: l, set_variables: bindings(l.variables, values), remaining: None, expires_in: None }
}

/// The default size of the cache of qualified counters.
pub const DEFAULT_CACHE_SIZE: u64 = 10_000;

/// A rate limiter over an in-memory store.
pub struct RateLimiter {
    storage: Storage,
}

impl RateLimiter {
    pub closed spec fn storage(&self) -> Storage {
        self.storage
    }

    pub open spec fn wf(&self) -> bool {
        self.storage().wf()
    }

    /// A rate limiter with no limits, whose cache holds up to
    /// `DEFAULT_CACHE_SIZE` qualified counter sets.
    pub fn new() -> (r: RateLimiter)
        ensures
            r.wf(),
            r.storage().limits_view().len() == 0,
    {
        RateLimiter { storage: Storage::new(DEFAULT_CACHE_SIZE) }
    }

    pub fn new_with_storage(storage: Storage) -> (r: RateLimiter)
        requires
            storage.wf(),
        ensures
            r.wf(),
            r.storage() == storage,
    {
        RateLimiter { storage }
    }

    /// Registers a copy of `limit`; see `Storage::add_limit`.
    pub fn add_limit(&mut self, limit: &Limit) -> (r: bool)
        requires
            old(self).wf(),
        ensures
            final(self).wf(),
            r == (!crate::storage::key_registered(old(self).storage().limits_view(), crate::keys::key_of(limit@))
                && !(!limit@.is_simple() && old(self).storage().store().slot(crate::keys::key_of(limit@)) is None
                    && old(self).storage().store().model().next_id == u64::MAX)),
            r ==> final(self).storage().limits_view() == old(self).storage().limits_view().push(limit@),
            !r ==> final(self).storage().limits_view() == old(self).storage().limits_view(),
    {
        self.storage.add_limit(limit.duplicate())
    }

    /// Unregisters `limit`; see `Storage::delete_limit`.
    pub fn delete_limit(&mut self, limit: &Limit) -> (r: Result<(), StorageErr>)
        requires
            old(self).wf(),
        ensures
            final(self).wf(),
            r is Ok,
            (exists|i: int| 0 <= i < old(self).storage().limits_view().len()
                && crate::keys::key_of(old(self).storage().limits_view()[i]) == crate::keys::key_of(limit@)
                && old(self).storage().limits_view()[i].namespace == limit@.namespace
                && final(self).storage().limits_view() == old(self).storage().limits_view().remove(i)
                && final(self).storage().store().holds_no_counters_of(old(self).storage().limits_view()[i]))
            || (!crate::storage::key_registered(old(self).storage().limits_view(), crate::keys::key_of(limit@))
                && final(self).storage().limits_view() == old(self).storage().limits_view()
                && final(self).storage().store().holds_no_counters_of(limit@))
            || (exists|i: int| 0 <= i < old(self).storage().limits_view().len()
                && crate::keys::key_of(old(self).storage().limits_view()[i]) == crate::keys::key_of(limit@)
                && old(self).storage().limits_view()[i].namespace != limit@.namespace
                && final(self).storage().limits_view() == old(self).storage().limits_view()
                && final(self).storage().store() == old(self).storage().store()),
            forall|i: int| 0 <= i < final(self).storage().limits_view().len() ==>
                !(crate::keys::key_of(#[trigger] final(self).storage().limits_view()[i]) == crate::keys::key_of(limit@)
                    && final(self).storage().limits_view()[i].namespace == limit@.namespace),
    {
        let ghost lv0 = self.storage.limits_view();
        let r = self.storage.delete_limit(limit);
        proof {
            let lv = self.storage.limits_view();
            assert forall|i: int| 0 <= i < lv.len() implies
                !(crate::keys::key_of(#[trigger] lv[i]) == crate::keys::key_of(limit@) && lv[i].namespace == limit@.namespace) by {
                if exists|j: int| 0 <= j < lv0.len() && crate::keys::key_of(lv0[j]) == crate::keys::key_of(limit@)
                    && lv0[j].namespace == limit@.namespace && lv == lv0.remove(j)
                    && self.storage.store().holds_no_counters_of(lv0[j]) {
                    let j = choose|j: int| 0 <= j < lv0.len() && crate::keys::key_of(lv0[j]) == crate::keys::key_of(limit@)
                        && lv0[j].namespace == limit@.namespace && lv == lv0.remove(j)
                        && self.storage.store().holds_no_counters_of(lv0[j]);
                    let i2 = if i < j { i } else { i + 1 };
                    assert(lv[i] == lv0[i2]);
                    if crate::keys::key_of(lv[i]) == crate::keys::key_of(limit@) {
                        if i2 < j {
                            assert(crate::keys::key_of(lv0[i2]) != crate::keys::key_of(lv0[j]));
                        } else {
                            assert(crate::keys::key_of(lv0[j]) != crate::keys::key_of(lv0[i2]));
                        }
                    }
                } else if !crate::storage::key_registered(lv0, crate::keys::key_of(limit@)) {
                    if crate::keys::key_of(lv[i]) == crate::keys::key_of(limit@) {
                        assert(crate::storage::key_registered(lv0, crate::keys::key_of(limit@)));
                    }
                }
            }
        }
        r
    }

    /// The limits of `namespace`.
    pub fn get_limits(&self, namespace: &str) -> (r: Vec<Limit>)
        ensures
            r@.map_values(|l: Limit| l@) == limits_in(self.storage().limits_view(), namespace@),
    {
        self.storage.get_limits(namespace)
    }

    /// Unregisters the limits of `namespace` and deletes their counters.
    pub fn delete_limits(&mut self, namespace: &str) -> (r: Result<(), StorageErr>)
        requires
            old(self).wf(),
        ensures
            final(self).wf(),
            r is Ok,
            final(self).storage().limits_view() == old(self).storage().limits_view().filter(|l: LimitView| l.namespace != namespace@),
    {
        self.storage.delete_limits(namespace)
    }

    /// The counters that a request with `values` in `namespace` counts on:
    /// one per limit of the namespace that applies, with the values of the
    /// limit's variables.
    pub fn counters_that_apply(&self, namespace: &str, values: &Vec<(String, String)>) -> (r: Vec<Counter>)
        requires
            self.wf(),
        ensures
            counter_views(r@) == applying_counters(self.storage().limits_view(), namespace@, values_view(values@)),
            forall|i: int| 0 <= i < r@.len() ==> self.storage().limits_view().contains((#[trigger] r@[i])@.limit),
    {
        let ghost vv = values_view(values@);
        let ghost pred = |l: LimitView| l.applies(vv);
        let limits = self.storage.get_limits(namespace);
        let ghost lv = limits@.map_values(|l: Limit| l@);
        let mut r: Vec<Counter> = Vec::new();
        let mut i: usize = 0;
        proof {
            assert(lv.subrange(0, 0) =~= Seq::<LimitView>::empty());
            assert(Seq::<LimitView>::empty().filter(pred) =~= Seq::<LimitView>::empty()) by {
                Seq::<LimitView>::empty().lemma_filter_len(pred);
            }
            assert(counter_views(r@) =~= Seq::<CounterView>::empty());
        }
        while i < limits.len()
            invariant
                self.wf(),
                i <= limits@.len(),
                lv == limits@.map_values(|l: Limit| l@),
                lv == limits_in(self.storage().limits_view(), namespace@),
                vv == values_view(values@),
                pred == (|l: LimitView| l.applies(vv)),
                counter_views(r@) == lv.subrange(0, i as int).filter(pred).map_values(|l: LimitView| counter_for(l, vv)),
                forall|k: int| 0 <= k < r@.len() ==> self.storage().limits_view().contains((#[trigger] r@[k])@.limit),
            decreases limits@.len() - i,
        {
            let ghost before = r@;
            proof {
                assert(lv.subrange(0, i + 1) =~= lv.subrange(0, i as int).push(lv[i as int]));
                lv.subrange(0, i as int).lemma_filter_push(lv[i as int], pred);
                assert(lv[i as int] == limits@[i as int]@);
            }
            if limits[i].applies(values) {
                let c = Counter::new(limits[i].duplicate(), values);
                r.push(c);
                proof {
                    assert(counter_views(r@) =~= counter_views(before).push(counter_for(lv[i as int], vv)));
                    assert(lv.subrange(0, i + 1).filter(pred).map_values(|l: LimitView| counter_for(l, vv))
                        =~= lv.subrange(0, i as int).filter(pred).map_values(|l: LimitView| counter_for(l, vv)).push(counter_for(lv[i as int], vv)));
                    let ls = self.storage().limits_view();
                    broadcast use vstd::seq_lib::group_filter_ensures;
                    assert(limits_in(ls, namespace@).contains(lv[i as int]));
                    ls.lemma_filter_contains_rev(|l: LimitView| l.namespace == namespace@, lv[i as int]);
                    assert forall|k: int| 0 <= k < r@.len() implies self.storage().limits_view().contains((#[trigger] r@[k])@.limit) by {
                        if k < before.len() {
                            assert(r@[k] == before[k]);
                        }
                    }
                }
            }
            i += 1;
        }
        proof {
            assert(lv.subrange(0, lv.len() as int) =~= lv);
        }
        r
    }
    /// Whether a request of `delta` in `namespace` with `values` would be
    /// refused: some counter that applies has no room for `delta`. Counts
    /// nothing.
    pub fn is_rate_limited(&mut self, namespace: &str, values: &Vec<(String, String)>, delta: u64) -> (r: Result<bool, StorageErr>)
        requires
            old(self).wf(),
        ensures
            final(self).wf(),
            final(self).storage().limits_view() == old(self).storage().limits_view(),
            r is Ok,
            exists|reads: Seq<u64>, now: u64| #[trigger] limited_on(old(self).storage().store(),
                applying(old(self).storage().limits_view(), namespace@, values_view(values@)), values_view(values@), reads, delta, now, r->Ok_0),
            final(self).storage().store().model().simple == old(self).storage().store().model().simple,
            final(self).storage().store().model().slots == old(self).storage().store().model().slots,
            final(self).storage().store().model().cached.submap_of(old(self).storage().store().model().cached),
    {
        let now = now_nanos();
        let counters = self.counters_that_apply(namespace, values);
        let ghost vv = values_view(values@);
        let ghost ap = applying(self.storage().limits_view(), namespace@, vv);
        let ghost s0 = self.storage().store();
        let ghost cs = counter_views(counters@);
        let ghost mut reads = Seq::new(ap.len(), |i: int| s0.read(counter_for(ap[i], vv), now));
        proof {
            assert(cs.len() == ap.len());
            assert forall|i: int| 0 <= i < reads.len() implies read_as(s0, counter_for(#[trigger] ap[i], vv), reads[i], now) by {
                assert(s0.read(counter_for(ap[i], vv), now) == reads[i]);
            }
        }
        let mut i: usize = 0;
        while i < counters.len()
            invariant
                self.wf(),
                i <= counters@.len(),
                cs == counter_views(counters@),
                cs == ap.map_values(|l: LimitView| counter_for(l, vv)),
                counters@.len() == ap.len(),
                reads.len() == ap.len(),
                self.storage().limits_view() == old(self).storage().limits_view(),
                s0 == old(self).storage().store(),
                ap == applying(old(self).storage().limits_view(), namespace@, vv),
                vv == values_view(values@),
                self.storage().store().model().simple == s0.model().simple,
                self.storage().store().model().slots == s0.model().slots,
                self.storage().store().model().cached.submap_of(s0.model().cached),
                forall|k: int| 0 <= k < reads.len() ==> read_as(s0, counter_for(#[trigger] ap[k], vv), reads[k], now),
                forall|k: int| 0 <= k < i ==> reads[k] + delta <= (#[trigger] ap[k]).max_value,
            decreases counters@.len() - i,
        {
            let ghost before = self.storage().store();
            proof {
                assert(counters@[i as int]@ == cs[i as int]);
                assert(cs[i as int] == counter_for(ap[i as int], vv));
            }
            let ok = self.storage.is_within_limits_at(&counters[i], delta, now);
            proof {
                let c = cs[i as int];
                InMemoryStorage::lemma_read_after_evictions(s0, before, c, now);
                reads = reads.update(i as int, before.read(c, now));
                assert forall|k: int| 0 <= k < reads.len() implies read_as(s0, counter_for(#[trigger] ap[k], vv), reads[k], now) by {
                    if k == i {
                        assert(counter_for(ap[k], vv) == c);
                        assert(s0.read(c, now) == reads[k] || (c.is_qualified() && reads[k] == 0));
                    }
                }
                crate::in_memory::lemma_submap_trans(self.storage().store().model().cached, before.model().cached, s0.model().cached);
            }
            if !ok {
                let r: Result<bool, StorageErr> = Ok(true);
                proof {
                    assert(reads[i as int] + delta > ap[i as int].max_value);
                    assert(limited_on(s0, ap, vv, reads, delta, now, true));
                    assert(limited_on(s0, ap, vv, reads, delta, now, r->Ok_0));
                }
                return r;
            }
            i += 1;
        }
        let r: Result<bool, StorageErr> = Ok(false);
        proof {
            assert(limited_on(s0, ap, vv, reads, delta, now, false));
            assert(limited_on(s0, ap, vv, reads, delta, now, r->Ok_0));
        }
        r
    }

    /// Adds `delta` to every counter that applies to a request in `namespace`
    /// with `values`, without any check.
    pub fn update_counters(&mut self, namespace: &str, values: &Vec<(String, String)>, delta: u64) -> (r: Result<(), StorageErr>)
        requires
            old(self).wf(),
        ensures
            final(self).wf(),
            final(self).storage().limits_view() == old(self).storage().limits_view(),
            final(self).storage().store().model().slots == old(self).storage().store().model().slots,
            r is Ok,
            exists|nows: Seq<u64>, ms: Seq<CacheMap>| #[trigger] updated_each(old(self).storage().store(), final(self).storage().store(),
                applying_counters(old(self).storage().limits_view(), namespace@, values_view(values@)), delta, nows, ms),
    {
        let counters = self.counters_that_apply(namespace, values);
        let ghost cs = counter_views(counters@);
        let ghost st0 = self.storage().store();
        let ghost s0 = st0.model().simple;
        let ghost mut nows: Seq<u64> = Seq::empty();
        let ghost mut ms: Seq<CacheMap> = seq![st0.model().cached];
        let mut i: usize = 0;
        proof {
            assert(cs.subrange(0, 0) =~= Seq::<CounterView>::empty());
        }
        while i < counters.len()
            invariant
                self.wf(),
                i <= counters@.len(),
                cs == counter_views(counters@),
                nows.len() == i,
                self.storage().limits_view() == old(self).storage().limits_view(),
                self.storage().store().model().slots == old(self).storage().store().model().slots,
                st0 == old(self).storage().store(),
                s0 == st0.model().simple,
                update_each(s0, cs.subrange(0, i as int), delta, nows) == self.storage().store().model().simple,
                write_chain(st0, ms, cs.subrange(0, i as int), delta, nows),
                ms[0] == st0.model().cached,
                ms.last() == self.storage().store().model().cached,
                forall|k: int| 0 <= k < counters@.len() ==> self.storage().limits_view().contains((#[trigger] counters@[k])@.limit),
            decreases counters@.len() - i,
        {
            proof {
                let l = counters@[i as int]@.limit;
                let ls = self.storage().limits_view();
                assert(ls.contains(l));
                let j = choose|j: int| 0 <= j < ls.len() && ls[j] == l;
                assert(self.storage().store().holds(ls[j]));
                assert(cs[i as int] == counters@[i as int]@);
            }
            let ghost before = self.storage().store();
            match self.storage.update_counter(&counters[i], delta) {
                Ok(()) => {},
                Err(e) => return Err(e),
            }
            proof {
                let old_nows = nows;
                let old_ms = ms;
                let c = cs[i as int];
                let sub = cs.subrange(0, i + 1);
                let subi = cs.subrange(0, i as int);
                assert(sub.drop_last() =~= subi);
                assert(sub.last() == c);
                let now = choose|now: u64| update_effect(before, self.storage().store(), c, delta, now);
                nows = nows.push(now);
                ms = ms.push(self.storage().store().model().cached);
                assert(nows.drop_last() =~= old_nows);
                assert(update_each(s0, sub, delta, nows) == self.storage().store().model().simple);
                if c.is_qualified() {
                    assert(before.slot(key_of(c.limit)) == st0.slot(key_of(c.limit)));
                    assert(written_set(before, before.model().cached, c, delta, now) == written_set(st0, old_ms.last(), c, delta, now));
                }
                assert forall|j: int| 0 <= j < sub.len() implies if (#[trigger] sub[j]).is_qualified() {
                    after_write(ms[j], ms[j + 1], st0.qualified_key(key_of(sub[j].limit), sub[j].set_variables)->0,
                        written_set(st0, ms[j], sub[j], delta, nows[j]))
                } else {
                    ms[j + 1] == ms[j]
                } by {
                    if j < i {
                        assert(sub[j] == subi[j]);
                        assert(ms[j] == old_ms[j] && ms[j + 1] == old_ms[j + 1] && nows[j] == old_nows[j]);
                    } else {
                        assert(sub[j] == c);
                        assert(ms[j] == old_ms.last());
                    }
                }
                assert(write_chain(st0, ms, sub, delta, nows));
            }
            i += 1;
        }
        proof {
            assert(cs.subrange(0, cs.len() as int) =~= cs);
            assert(updated_each(st0, self.storage().store(), cs, delta, nows, ms));
        }
        Ok(())
    }

    /// Decides on a request of `delta` in `namespace` with `values` and, where
    /// allowed, counts it; see `InMemoryStorage::decision`. Returns whether
    /// the request was refused.
    pub fn check_rate_limited_and_update(&mut self, namespace: &str, values: &Vec<(String, String)>, delta: u64) -> (r: Result<bool, StorageErr>)
        requires
            old(self).wf(),
        ensures
            final(self).wf(),
            final(self).storage().limits_view() == old(self).storage().limits_view(),
            r is Ok,
            decided_on(old(self).storage().store(), final(self).storage().store(),
                applying_counters(old(self).storage().limits_view(), namespace@, values_view(values@)),
                delta, r->Ok_0),
    {
        let mut counters = self.counters_that_apply(namespace, values);
        let ghost before = counters@;
        proof {
            assert forall|k: int| 0 <= k < counters@.len() implies self.storage().store().holds(#[trigger] counters@[k]@.limit) by {
                let ls = self.storage().limits_view();
                assert(ls.contains(counters@[k]@.limit));
                let j = choose|j: int| 0 <= j < ls.len() && ls[j] == counters@[k]@.limit;
                assert(self.storage().store().holds(ls[j]));
            }
        }
        match self.storage.check_and_update(&mut counters, delta, false) {
            Ok(a) => {
                let limited = match a {
                    Authorization::Allowed => false,
                    Authorization::Limited(_) => true,
                };
                proof {
                    let now = choose|now: u64| InMemoryStorage::decision(old(self).storage().store(), self.storage().store(), before, counters@, delta, false, now, a);
                    assert(InMemoryStorage::decision(old(self).storage().store(), self.storage().store(), before, counters@, delta, false, now, a));
                }
                Ok(limited)
            },
            Err(e) => Err(e),
        }
    }

    /// The live counters of the limits of `namespace`.
    pub fn get_counters(&mut self, namespace: &str) -> (r: Result<Vec<Counter>, StorageErr>)
        requires
            old(self).wf(),
        ensures
            final(self).wf(),
            final(self).storage().limits_view() == old(self).storage().limits_view(),
            r is Ok,
            exists|now: u64| #[trigger] lists_live_counters(old(self).storage().store(), limits_in(old(self).storage().limits_view(), namespace@), r->Ok_0@, now),
    {
        self.storage.get_counters(namespace)
    }
}

/// The simple counter sets after adding `delta` to each simple counter of
/// `cs` in turn, the `i`-th at instant `nows[i]`.
pub open spec fn update_each(s: Seq<(KeyView, Seq<CounterValue>)>, cs: Seq<CounterView>, delta: u64, nows: Seq<u64>) -> Seq<(KeyView, Seq<CounterValue>)>
    decreases cs.len(),
{
    if cs.len() == 0 {
        s
    } else {
        let prev = update_each(s, cs.drop_last(), delta, nows.drop_last());
        let c = cs.last();
        if c.is_qualified() {
            prev
        } else {
            update_key(prev, key_of(c.limit), c.limit.seconds, delta, nows.last())
        }
    }
}

/// What adding `delta` to each counter of `cs` in turn did, from store `s0`
/// to `s1`: the simple sets advanced as `update_each` gives them at the
/// instants `nows`, and the cache passed through the writes of `ms`.
pub open spec fn updated_each(s0: InMemoryStorage, s1: InMemoryStorage, cs: Seq<CounterView>, delta: u64, nows: Seq<u64>, ms: Seq<CacheMap>) -> bool {
    &&& nows.len() == cs.len()
    &&& update_each(s0.model().simple, cs, delta, nows) == s1.model().simple
    &&& write_chain(s0, ms, cs, delta, nows)
    &&& ms[0] == s0.model().cached
    &&& ms.last() == s1.model().cached
}

/// Whether `v` is what counter `c` reads in `s` at `now`, or zero for a
/// qualified counter that the cache evicted.
pub open spec fn read_as(s: InMemoryStorage, c: CounterView, v: u64, now: u64) -> bool {
    s.read(c, now) == v || (c.is_qualified() && v == 0)
}

/// Whether `limited` tells if some counter of the limits `ap`, for a request
/// with `values`, has no room for `delta` on reads `reads` taken from `s` at
/// `now`.
pub open spec fn limited_on(s: InMemoryStorage, ap: Seq<LimitView>, values: Seq<(Seq<char>, Seq<char>)>, reads: Seq<u64>, delta: u64, now: u64, limited: bool) -> bool {
    &&& reads.len() == ap.len()
    &&& forall|i: int| 0 <= i < reads.len() ==> read_as(s, counter_for(#[trigger] ap[i], values), reads[i], now)
    &&& limited == exists|i: int| 0 <= i < reads.len() && reads[i] + delta > (#[trigger] ap[i]).max_value
}

/// Whether a decision on counters `cs` led from `s0` to `s1` with `limited`
/// telling whether it refused.
pub open spec fn decided_on(s0: InMemoryStorage, s1: InMemoryStorage, cs: Seq<CounterView>, delta: u64, limited: bool) -> bool {
    exists|before: Seq<Counter>, after: Seq<Counter>, a: Authorization, now: u64|
        #[trigger] InMemoryStorage::decision(s0, s1, before, after, delta, false, now, a)
        && counter_views(before) == cs && (a is Limited) == limited
}

} // verus!
