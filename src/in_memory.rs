//! The in-memory counter store: counters of simple limits in a resident list,
//! counters of qualified limits in a bounded cache, and the windows registered
//! for each qualified limit.

use vstd::prelude::*;
use std::sync::Arc;
use crate::cache::{
    cache_clear, cache_entries, cache_get, cache_insert, cache_invalidate_limit, cache_new, cached,
    qkey_view, takes_predicates, QualifiedCache, QualifiedKey,
};
use crate::counter::{clone_pairs, Counter, CounterView};
use crate::expiring::{sat_add, sat_sub, window_nanos, ExpiringValue};
use crate::counter_set::{lemma_window_index_unique, window_index, 
    fresh_set, has_window, sorted_windows, window_added, window_updated, window_value, CounterValue,
    CounterValueSet,
};
use crate::keys::{key_of, CounterValueSetKey, KeyView};
use crate::limit::{clone_opt, values_view, Limit, LimitView};
use crate::storage::{Authorization, StorageErr};

verus! {

pub open spec fn keys_unique<V>(s: Seq<(KeyView, V)>) -> bool {
    forall|i: int, j: int| 0 <= i < j < s.len() ==> s[i].0 != s[j].0
}

pub open spec fn has_key<V>(s: Seq<(KeyView, V)>, k: KeyView) -> bool {
    exists|i: int| 0 <= i < s.len() && s[i].0 == k
}

pub open spec fn key_index<V>(s: Seq<(KeyView, V)>, k: KeyView) -> int {
    if has_key(s, k) {
        choose|i: int| 0 <= i < s.len() && s[i].0 == k
    } else {
        -1
    }
}

/// The value stored under `k`, if any.
pub open spec fn entry<V>(s: Seq<(KeyView, V)>, k: KeyView) -> Option<V> {
    if has_key(s, k) {
        Some(s[key_index(s, k)].1)
    } else {
        None
    }
}

proof fn lemma_key_index<V>(s: Seq<(KeyView, V)>, k: KeyView, i: int)
    requires
        keys_unique(s),
        0 <= i < s.len(),
        s[i].0 == k,
    ensures
        has_key(s, k),
        key_index(s, k) == i,
        entry(s, k) == Some(s[i].1),
{
    let j = key_index(s, k);
    assert(0 <= j < s.len() && s[j].0 == k);
    if j != i {
        if j < i {
            assert(s[j].0 != s[i].0);
        } else {
            assert(s[i].0 != s[j].0);
        }
    }
}

/// Replacing the value at `i` keeps the keys unique and changes only `k`'s entry.
proof fn lemma_update_entry<V>(s: Seq<(KeyView, V)>, i: int, v: V)
    requires
        keys_unique(s),
        0 <= i < s.len(),
    ensures
        keys_unique(s.update(i, (s[i].0, v))),
        entry(s.update(i, (s[i].0, v)), s[i].0) == Some(v),
        forall|k: KeyView| k != s[i].0 ==> entry(#[trigger] s.update(i, (s[i].0, v)), k) == entry(s, k),
{
    let t = s.update(i, (s[i].0, v));
    assert forall|a: int, b: int| 0 <= a < b < t.len() implies t[a].0 != t[b].0 by {
        assert(s[a].0 != s[b].0);
    }
    lemma_key_index(t, s[i].0, i);
    assert forall|k: KeyView| k != s[i].0 implies entry(#[trigger] s.update(i, (s[i].0, v)), k) == entry(s, k) by {
        if has_key(s, k) {
            let j = key_index(s, k);
            lemma_key_index(t, k, j);
        } else if has_key(t, k) {
            let j = key_index(t, k);
            assert(s[j].0 == k);
        }
    }
}

/// Appending a new key keeps the keys unique and adds only its entry.
proof fn lemma_push_entry<V>(s: Seq<(KeyView, V)>, k: KeyView, v: V)
    requires
        keys_unique(s),
        !has_key(s, k),
    ensures
        keys_unique(s.push((k, v))),
        entry(s.push((k, v)), k) == Some(v),
        forall|k2: KeyView| k2 != k ==> entry(#[trigger] s.push((k, v)), k2) == entry(s, k2),
{
    let t = s.push((k, v));
    assert forall|a: int, b: int| 0 <= a < b < t.len() implies t[a].0 != t[b].0 by {
        if b < s.len() {
            assert(s[a].0 != s[b].0);
        } else {
            assert(t[a].0 == s[a].0);
        }
    }
    lemma_key_index(t, k, s.len() as int);
    assert forall|k2: KeyView| k2 != k implies entry(#[trigger] s.push((k, v)), k2) == entry(s, k2) by {
        if has_key(s, k2) {
            let j = key_index(s, k2);
            lemma_key_index(t, k2, j);
        } else if has_key(t, k2) {
            let j = key_index(t, k2);
            assert(s[j].0 == k2);
        }
    }
}

/// Removing the entry at `i` keeps the keys unique and drops only its key.
proof fn lemma_remove_entry<V>(s: Seq<(KeyView, V)>, i: int)
    requires
        keys_unique(s),
        0 <= i < s.len(),
    ensures
        keys_unique(s.remove(i)),
        entry(s.remove(i), s[i].0) is None,
        forall|k: KeyView| k != s[i].0 ==> entry(#[trigger] s.remove(i), k) == entry(s, k),
{
    let t = s.remove(i);
    assert forall|a: int, b: int| 0 <= a < b < t.len() implies t[a].0 != t[b].0 by {
        let a2 = if a < i { a } else { a + 1 };
        let b2 = if b < i { b } else { b + 1 };
        assert(t[a] == s[a2] && t[b] == s[b2]);
        assert(s[a2].0 != s[b2].0);
    }
    if has_key(t, s[i].0) {
        let j = key_index(t, s[i].0);
        let j2 = if j < i { j } else { j + 1 };
        assert(t[j] == s[j2]);
        assert(s[j2].0 != s[i].0);
    }
    assert forall|k: KeyView| k != s[i].0 implies entry(#[trigger] s.remove(i), k) == entry(s, k) by {
        if has_key(s, k) {
            let j = key_index(s, k);
            let j2 = if j < i { j } else { j - 1 };
            assert(t[j2] == s[j]);
            lemma_key_index(t, k, j2);
        } else if has_key(t, k) {
            let j = key_index(t, k);
            let j2 = if j < i { j } else { j + 1 };
            assert(t[j] == s[j2]);
        }
    }
}

/// The entries with the counter set keyed `k` advanced by `delta` in window
/// `w` at `now`.
pub open spec fn update_key(s: Seq<(KeyView, Seq<CounterValue>)>, k: KeyView, w: u64, delta: u64, now: u64) -> Seq<(KeyView, Seq<CounterValue>)> {
    s.map_values(|e: (KeyView, Seq<CounterValue>)| if e.0 == k { (e.0, window_updated(e.1, w, delta, now)) } else { e })
}

/// The simple counter sets after committing `delta` to each simple counter of
/// `cs`, in order.
pub open spec fn commit_simple(s: Seq<(KeyView, Seq<CounterValue>)>, cs: Seq<CounterView>, delta: u64, now: u64) -> Seq<(KeyView, Seq<CounterValue>)>
    decreases cs.len(),
{
    if cs.len() == 0 {
        s
    } else {
        let prev = commit_simple(s, cs.drop_last(), delta, now);
        let c = cs.last();
        if c.is_qualified() {
            prev
        } else {
            update_key(prev, key_of(c.limit), c.limit.seconds, delta, now)
        }
    }
}

/// Whether a read of `v` leaves no room for `delta` under `c`'s maximum.
pub open spec fn exceeds(c: CounterView, v: u64, delta: u64) -> bool {
    v + delta > c.limit.max_value
}

/// What is left under `c`'s maximum after `delta` on a read of `v`; zero
/// where it does not fit.
pub open spec fn remaining_after(c: CounterView, v: u64, delta: u64) -> u64 {
    if v + delta <= c.limit.max_value {
        (c.limit.max_value - v - delta) as u64
    } else {
        0
    }
}

/// Whether `i` is the counter that a refusal names: the first exceeded simple
/// counter, or where none is, the first exceeded qualified counter.
pub open spec fn is_first_exceeded(cs: Seq<CounterView>, reads: Seq<u64>, delta: u64, i: int) -> bool {
    &&& 0 <= i < cs.len()
    &&& exceeds(cs[i], reads[i], delta)
    &&& if !cs[i].is_qualified() {
        forall|j: int| 0 <= j < i && !cs[j].is_qualified() ==> !exceeds(cs[j], reads[j], delta)
    } else {
        &&& forall|j: int| 0 <= j < cs.len() && !cs[j].is_qualified() ==> !exceeds(cs[j], reads[j], delta)
        &&& forall|j: int| 0 <= j < i && cs[j].is_qualified() ==> !exceeds(cs[j], reads[j], delta)
    }
}

/// The decision on reads `reads`: allowed where every counter absorbs
/// `delta`, else refused naming the first exceeded limit.
pub open spec fn decided(cs: Seq<CounterView>, reads: Seq<u64>, delta: u64, r: Authorization) -> bool {
    &&& (r is Allowed <==> forall|i: int| 0 <= i < cs.len() ==> !exceeds(cs[i], reads[i], delta))
    &&& r is Limited ==> exists|i: int| is_first_exceeded(cs, reads, delta, i) && r.limited_name() == cs[i].limit.name
}

/// The counters as handed back with their remaining room filled in.
pub open spec fn loaded(before: Seq<CounterView>, after: Seq<CounterView>, reads: Seq<u64>, delta: u64) -> bool {
    &&& after.len() == before.len()
    &&& forall|i: int| 0 <= i < before.len() ==> #[trigger] after[i] == (CounterView {
        remaining: Some(remaining_after(before[i], reads[i], delta)),
        ..before[i]
    })
}

pub open spec fn counter_views(v: Seq<Counter>) -> Seq<CounterView> {
    v.map_values(|c: Counter| c@)
}

proof fn lemma_update_key(s: Seq<(KeyView, Seq<CounterValue>)>, i: int, w: u64, delta: u64, now: u64)
    requires
        keys_unique(s),
        0 <= i < s.len(),
    ensures
        update_key(s, s[i].0, w, delta, now) == s.update(i, (s[i].0, window_updated(s[i].1, w, delta, now))),
{
    let a = update_key(s, s[i].0, w, delta, now);
    let b = s.update(i, (s[i].0, window_updated(s[i].1, w, delta, now)));
    assert forall|j: int| 0 <= j < s.len() implies a[j] == b[j] by {
        if j != i {
            if j < i {
                assert(s[j].0 != s[i].0);
            } else {
                assert(s[i].0 != s[j].0);
            }
        }
    }
    assert(a =~= b);
}

pub proof fn lemma_window_updated_keeps_windows(s: Seq<CounterValue>, w: u64, delta: u64, now: u64, x: u64)
    ensures
        has_window(window_updated(s, w, delta, now), x) == has_window(s, x),
{
    let t = window_updated(s, w, delta, now);
    if has_window(s, w) {
        if has_window(s, x) {
            let i = choose|i: int| 0 <= i < s.len() && s[i].seconds == x;
            assert(t[i].seconds == x);
        }
        if has_window(t, x) {
            let i = choose|i: int| 0 <= i < t.len() && t[i].seconds == x;
            assert(s[i].seconds == x);
        }
    }
}

#[verifier::spinoff_prover]
pub proof fn lemma_submap_trans(
    a: Map<(u64, Seq<(Seq<char>, Seq<char>)>), Seq<CounterValue>>,
    b: Map<(u64, Seq<(Seq<char>, Seq<char>)>), Seq<CounterValue>>,
    c: Map<(u64, Seq<(Seq<char>, Seq<char>)>), Seq<CounterValue>>,
)
    requires
        a.submap_of(b),
        b.submap_of(c),
    ensures
        a.submap_of(c),
{
    assert forall|q: (u64, Seq<(Seq<char>, Seq<char>)>)| #[trigger] a.contains_key(q) implies c.contains_key(q) && a[q] == c[q] by {
        assert(a.dom().contains(q));
        assert(b.dom().contains(q));
        assert(a[q] == b[q]);
        assert(c.dom().contains(q));
        assert(b[q] == c[q]);
    }
}

/// Whether `c` reports accumulator `e` of limit `l` at `now`: remaining room
/// (saturating at zero) and time to expiry, the latter above zero.
pub open spec fn reports_value(l: LimitView, e: ExpiringValue, c: CounterView, now: u64) -> bool {
    &&& c.remaining == Some(sat_sub(l.max_value, e.value_at_spec(now)))
    &&& c.expires_in == Some(e.ttl_spec(now))
    &&& e.ttl_spec(now) > 0
}

proof fn lemma_update_key_entry(s: Seq<(KeyView, Seq<CounterValue>)>, k2: KeyView, w: u64, delta: u64, now: u64, k: KeyView)
    requires
        keys_unique(s),
    ensures
        keys_unique(update_key(s, k2, w, delta, now)),
        has_key(update_key(s, k2, w, delta, now), k) == has_key(s, k),
        has_key(s, k) ==> entry(update_key(s, k2, w, delta, now), k) == Some(
            if k == k2 { window_updated(entry(s, k)->0, w, delta, now) } else { entry(s, k)->0 }),
{
    let u = update_key(s, k2, w, delta, now);
    assert forall|a: int| 0 <= a < s.len() implies u[a].0 == s[a].0 by {}
    assert forall|a: int, b: int| 0 <= a < b < u.len() implies u[a].0 != u[b].0 by {
        assert(s[a].0 != s[b].0);
    }
    if has_key(s, k) {
        let i = key_index(s, k);
        lemma_key_index(u, k, i);
    }
    if has_key(u, k) {
        let i = key_index(u, k);
        assert(s[i].0 == k);
    }
}

/// Committing keeps each simple key and each registered window.
proof fn lemma_commit_keeps_windows(s: Seq<(KeyView, Seq<CounterValue>)>, cs: Seq<CounterView>, delta: u64, now: u64, k: KeyView, w: u64)
    requires
        keys_unique(s),
    ensures
        keys_unique(commit_simple(s, cs, delta, now)),
        has_key(commit_simple(s, cs, delta, now), k) == has_key(s, k),
        has_key(s, k) ==> (has_window(entry(commit_simple(s, cs, delta, now), k)->0, w) == has_window(entry(s, k)->0, w)),
    decreases cs.len(),
{
    if cs.len() > 0 {
        let prev = commit_simple(s, cs.drop_last(), delta, now);
        lemma_commit_keeps_windows(s, cs.drop_last(), delta, now, k, w);
        let c = cs.last();
        if !c.is_qualified() {
            lemma_update_key_entry(prev, key_of(c.limit), c.limit.seconds, delta, now, k);
            if has_key(s, k) && k == key_of(c.limit) {
                lemma_window_updated_keeps_windows(entry(prev, k)->0, c.limit.seconds, delta, now, w);
            }
        }
    }
}

/// Whether `r` lists the live counters of limits `ls` held by `s` at `now`:
/// each listed counter is reported by `s` for one of them, and each live
/// window of a simple limit and each live cached set of a qualified limit is
/// listed.
pub open spec fn lists_live_counters(s: InMemoryStorage, ls: Seq<LimitView>, r: Seq<Counter>, now: u64) -> bool {
    &&& forall|i: int| 0 <= i < r.len() ==> s.reported_by(ls, #[trigger] r[i]@, now)
    &&& forall|a: int, j: int| 0 <= a < ls.len() && ls[a].is_simple()
        && s.simple_set(key_of(ls[a])) is Some
        && 0 <= j < s.simple_set(key_of(ls[a]))->0.len()
        && (#[trigger] s.simple_set(key_of(ls[a]))->0[j]).value.ttl_spec(now) > 0
        ==> exists|i: int| 0 <= i < r.len() && r[i]@.limit == ls[a]
            && reports_value(ls[a], s.simple_set(key_of(ls[a]))->0[j].value, #[trigger] r[i]@, now)
    &&& forall|a: int, q: (u64, Seq<(Seq<char>, Seq<char>)>)| 0 <= a < ls.len() && #[trigger] s.qualified_live(ls[a], q, now)
        ==> exists|i: int| 0 <= i < r.len() && s.reports_cached(ls[a], q, #[trigger] r[i]@, now)
}

/// What the cache of qualified counter sets holds.
pub type CacheMap = Map<(u64, Seq<(Seq<char>, Seq<char>)>), Seq<CounterValue>>;

/// `n` times the instant `now`.
pub open spec fn at_instant(n: nat, now: u64) -> Seq<u64> {
    Seq::new(n, |j: int| now)
}

/// The set written for qualified counter `c` of store `s` while the cache
/// holds `m`: its cached set, or a fresh one with the windows of its limit's
/// slot, with its window registered and `delta` added at `now`.
pub open spec fn written_set(s: InMemoryStorage, m: CacheMap, c: CounterView, delta: u64, now: u64) -> Seq<CounterValue> {
    let q = s.qualified_key(key_of(c.limit), c.set_variables)->0;
    let base = if m.contains_key(q) { m[q] } else { fresh_set((s.slot(key_of(c.limit))->0).1) };
    window_updated(window_added(base, c.limit.seconds), c.limit.seconds, delta, now)
}

/// Whether `ms` is the chain of caches through the writes of counters `cs`
/// of store `s`: step `j` writes counter `j`'s set at `nows[j]` where it is
/// qualified (the cache may evict entries, that one included), and keeps the
/// cache where it is simple.
pub open spec fn write_chain(s: InMemoryStorage, ms: Seq<CacheMap>, cs: Seq<CounterView>, delta: u64, nows: Seq<u64>) -> bool {
    &&& ms.len() == cs.len() + 1
    &&& nows.len() == cs.len()
    &&& forall|j: int| 0 <= j < cs.len() ==> if (#[trigger] cs[j]).is_qualified() {
        after_write(ms[j], ms[j + 1], s.qualified_key(key_of(cs[j].limit), cs[j].set_variables)->0,
            written_set(s, ms[j], cs[j], delta, nows[j]))
    } else {
        ms[j + 1] == ms[j]
    }
}

/// What adding `delta` to counter `c` at `now` does, from store `s0` to `s1`:
/// a simple counter's set is advanced and the cache kept; a qualified
/// counter's set is written as `written_set` gives it (the cache may evict
/// entries) and the simple sets kept. Slots stay.
pub open spec fn update_effect(s0: InMemoryStorage, s1: InMemoryStorage, c: CounterView, delta: u64, now: u64) -> bool {
    &&& s1.model().slots == s0.model().slots
    &&& if c.is_qualified() {
        &&& s1.model().simple == s0.model().simple
        &&& after_write(s0.model().cached, s1.model().cached, s0.qualified_key(key_of(c.limit), c.set_variables)->0,
            written_set(s0, s0.model().cached, c, delta, now))
    } else {
        &&& s1.model().cached == s0.model().cached
        &&& s1.model().simple == update_key(s0.model().simple, key_of(c.limit), c.limit.seconds, delta, now)
    }
}

/// Windows in strictly ascending order: sorted, each once.
pub open spec fn ascending(ws: Seq<u64>) -> bool {
    forall|i: int, j: int| 0 <= i < j < ws.len() ==> ws[i] < ws[j]
}

/// Records window `w` in the ascending windows `ws`, at its sorted place.
fn insert_window(ws: &mut Vec<u64>, w: u64)
    requires
        ascending(old(ws)@),
    ensures
        ascending(final(ws)@),
        forall|x: u64| final(ws)@.contains(x) <==> (old(ws)@.contains(x) || x == w),
        old(ws)@.contains(w) ==> final(ws)@ == old(ws)@,
{
    let n = ws.len();
    let mut p: usize = 0;
    while p < n && ws[p] < w
        invariant
            n == ws@.len(),
            p <= n,
            forall|k: int| 0 <= k < p ==> ws@[k] < w,
        decreases n - p,
    {
        p += 1;
    }
    if p < n && ws[p] == w {
        return;
    }
    let ghost o = ws@;
    proof {
        assert(!o.contains(w)) by {
            if o.contains(w) {
                let i = choose|i: int| 0 <= i < o.len() && o[i] == w;
                if i > p {
                    assert(o[p as int] < o[i]);
                }
            }
        }
    }
    ws.insert(p, w);
    proof {
        let t = ws@;
        assert forall|i: int, j: int| 0 <= i < j < t.len() implies t[i] < t[j] by {
            if j < p {
                assert(o[i] < o[j]);
            } else if j == p {
                assert(o[i] < w);
            } else if i < p {
                assert(o[i] < w);
                assert(o[j - 1] >= w);
                if j - 1 > p {
                    assert(o[p as int] < o[j - 1]);
                }
            } else if i == p {
                assert(o[j - 1] >= w);
                if j - 1 > p {
                    assert(o[p as int] < o[j - 1]);
                }
            } else {
                assert(o[i - 1] < o[j - 1]);
            }
        }
        assert forall|x: u64| t.contains(x) <==> (o.contains(x) || x == w) by {
            if t.contains(x) {
                let i = choose|i: int| 0 <= i < t.len() && t[i] == x;
                if i < p {
                    assert(o[i] == x);
                } else if i > p {
                    assert(o[i - 1] == x);
                }
            }
            if o.contains(x) {
                let i = choose|i: int| 0 <= i < o.len() && o[i] == x;
                if i < p {
                    assert(t[i] == x);
                } else {
                    assert(t[i + 1] == x);
                }
            }
            if x == w {
                assert(t[p as int] == w);
            }
        }
    }
}

/// The windows registered for a qualified limit, and the number that keys its
/// counters in the cache.
#[derive(Debug)]
struct LimitSlot {
    key: CounterValueSetKey,
    id: u64,
    windows: Vec<u64>,
}

/// The store as a value: simple counter sets by key, the slot of each
/// qualified limit, the cached qualified counter sets, and the next free
/// number.
pub struct StoreModel {
    pub simple: Seq<(KeyView, Seq<CounterValue>)>,
    pub slots: Seq<(KeyView, (u64, Seq<u64>))>,
    pub cached: Map<(u64, Seq<(Seq<char>, Seq<char>)>), Seq<CounterValue>>,
    pub next_id: u64,
}

/// The qualified counter sets that the cache may hold after a write of `v`
/// under `k` and any evictions.
pub open spec fn after_write(
    before: Map<(u64, Seq<(Seq<char>, Seq<char>)>), Seq<CounterValue>>,
    after: Map<(u64, Seq<(Seq<char>, Seq<char>)>), Seq<CounterValue>>,
    k: (u64, Seq<(Seq<char>, Seq<char>)>),
    v: Seq<CounterValue>,
) -> bool {
    after.submap_of(before.insert(k, v))
}

/// Counters in memory. Simple counters stay until deleted; qualified ones live
/// in a cache of bounded size and may be evicted, which resets them.
pub struct InMemoryStorage {
    counters: Vec<(CounterValueSetKey, CounterValueSet)>,
    qualified_counters: QualifiedCache,
    limit_windows: Vec<LimitSlot>,
    next_id: u64,
}

impl InMemoryStorage {
    pub closed spec fn model(&self) -> StoreModel {
        StoreModel {
            simple: self.counters@.map_values(|e: (CounterValueSetKey, CounterValueSet)| (e.0@, e.1@)),
            slots: self.limit_windows@.map_values(|s: LimitSlot| (s.key@, (s.id, s.windows@))),
            cached: cached(self.qualified_counters),
            next_id: self.next_id,
        }
    }

    pub closed spec fn wf(&self) -> bool {
        &&& keys_unique(self.model().simple)
        &&& forall|i: int| 0 <= i < self.counters@.len() ==> (#[trigger] self.counters@[i]).1.wf()
        &&& keys_unique(self.model().slots)
        &&& forall|i: int| 0 <= i < self.limit_windows@.len() ==> (#[trigger] self.limit_windows@[i]).id < self.next_id
        &&& forall|i: int, j: int| 0 <= i < j < self.limit_windows@.len() ==> self.limit_windows@[i].id != self.limit_windows@[j].id
        &&& forall|i: int| 0 <= i < self.limit_windows@.len() ==> ascending((#[trigger] self.limit_windows@[i]).windows@)
        &&& takes_predicates(self.qualified_counters)
        &&& forall|k: (u64, Seq<(Seq<char>, Seq<char>)>)| #[trigger] cached(self.qualified_counters).contains_key(k) ==> sorted_windows(cached(self.qualified_counters)[k])
    }

    /// The counter set of the simple limit keyed `k`.
    pub open spec fn simple_set(&self, k: KeyView) -> Option<Seq<CounterValue>> {
        entry(self.model().simple, k)
    }

    /// The number and windows registered for the qualified limit keyed `k`.
    pub open spec fn slot(&self, k: KeyView) -> Option<(u64, Seq<u64>)> {
        entry(self.model().slots, k)
    }

    /// The cache key of a qualified counter of the limit keyed `k` with
    /// variable values `b`, where the limit has a slot.
    pub open spec fn qualified_key(&self, k: KeyView, b: Seq<(Seq<char>, Seq<char>)>) -> Option<(u64, Seq<(Seq<char>, Seq<char>)>)> {
        match self.slot(k) {
            Some(s) => Some((s.0, b)),
            None => None,
        }
    }

    /// The counter set that counter `c` reads.
    pub open spec fn counter_set(&self, c: CounterView) -> Option<Seq<CounterValue>> {
        if c.is_qualified() {
            match self.qualified_key(key_of(c.limit), c.set_variables) {
                Some(q) => if self.model().cached.contains_key(q) {
                    Some(self.model().cached[q])
                } else {
                    None
                },
                None => None,
            }
        } else {
            self.simple_set(key_of(c.limit))
        }
    }

    /// The value of counter `c` at `now`: zero where nothing is stored or the
    /// window has expired.
    pub open spec fn read(&self, c: CounterView, now: u64) -> u64 {
        match self.counter_set(c) {
            Some(s) => window_value(s, c.limit.seconds, now),
            None => 0,
        }
    }

    /// Whether the store can count for limit `l`: a simple limit has its set
    /// with its window, a qualified one its slot.
    pub open spec fn holds(&self, l: LimitView) -> bool {
        if l.is_simple() {
            match self.simple_set(key_of(l)) {
                Some(s) => has_window(s, l.seconds),
                None => false,
            }
        } else {
            self.slot(key_of(l)) is Some
        }
    }

    /// Like `holds`, and a qualified limit's slot lists its window.
    pub open spec fn holds_window(&self, l: LimitView) -> bool {
        if l.is_simple() {
            self.holds(l)
        } else {
            match self.slot(key_of(l)) {
                Some(s) => s.1.contains(l.seconds),
                None => false,
            }
        }
    }

    /// Whether no counter of limit `l` is stored.
    pub open spec fn holds_no_counters_of(&self, l: LimitView) -> bool {
        if l.is_simple() {
            self.simple_set(key_of(l)) is None
        } else {
            match self.slot(key_of(l)) {
                Some(s) => forall|q: (u64, Seq<(Seq<char>, Seq<char>)>)| #[trigger] self.model().cached.contains_key(q) ==> q.0 != s.0,
                None => true,
            }
        }
    }

    /// Whether deleting the counters of limit `l` removes the cached set keyed
    /// `q`: `l` is qualified and `q` carries the number of its slot.
    pub open spec fn deletes_cached(&self, l: LimitView, q: (u64, Seq<(Seq<char>, Seq<char>)>)) -> bool {
        &&& !l.is_simple()
        &&& self.slot(key_of(l)) is Some
        &&& q.0 == (self.slot(key_of(l))->0).0
    }

    /// A qualified counter set starts from the windows of its limit's slot.
    pub open spec fn base_set(&self, c: CounterView) -> Seq<CounterValue> {
        match self.counter_set(c) {
            Some(s) => s,
            None => match self.slot(key_of(c.limit)) {
                Some(sl) => fresh_set(sl.1),
                None => Seq::empty(),
            },
        }
    }

    /// A decision keeps the store able to count for every limit it could
    /// count for.
    pub proof fn lemma_holds_after_decision(
        s0: InMemoryStorage,
        s1: InMemoryStorage,
        before: Seq<Counter>,
        after: Seq<Counter>,
        delta: u64,
        load: bool,
        now: u64,
        r: Authorization,
        l: LimitView,
    )
        requires
            s0.wf(),
            InMemoryStorage::decision(s0, s1, before, after, delta, load, now, r),
            s0.holds(l),
        ensures
            s1.holds(l),
    {
        if l.is_simple() && r is Allowed {
            lemma_commit_keeps_windows(s0.model().simple, counter_views(before), delta, now, key_of(l), l.seconds);
        }
    }

    /// After reads that may only have evicted qualified counters, a counter
    /// reads as before, or zero where it is qualified.
    pub proof fn lemma_read_after_evictions(s0: InMemoryStorage, s1: InMemoryStorage, c: CounterView, now: u64)
        requires
            s1.model().simple == s0.model().simple,
            s1.model().slots == s0.model().slots,
            s1.model().cached.submap_of(s0.model().cached),
        ensures
            s1.read(c, now) == s0.read(c, now) || (c.is_qualified() && s1.read(c, now) == 0),
    {
        if c.is_qualified() {
            match s1.qualified_key(key_of(c.limit), c.set_variables) {
                Some(q) => {
                    if s1.model().cached.contains_key(q) {
                        assert(s0.model().cached.contains_key(q));
                    }
                },
                None => {},
            }
        }
    }

    /// A simple counter set of a well-formed store is sorted by window.
    pub proof fn lemma_simple_set_sorted(&self, k: KeyView)
        requires
            self.wf(),
        ensures
            self.simple_set(k) is Some ==> sorted_windows(self.simple_set(k)->0),
    {
        if has_key(self.model().simple, k) {
            let i = key_index(self.model().simple, k);
            assert(self.counters@[i].1.wf());
        }
    }

    /// Makes an empty store whose cache holds up to `cache_size` qualified
    /// counter sets.
    pub fn new(cache_size: u64) -> (r: InMemoryStorage)
        ensures
            r.wf(),
            r.model().simple.len() == 0,
            r.model().slots.len() == 0,
            forall|q: (u64, Seq<(Seq<char>, Seq<char>)>)| !(#[trigger] r.model().cached.contains_key(q)),
    {
        let r = InMemoryStorage {
            counters: Vec::new(),
            qualified_counters: cache_new(cache_size),
            limit_windows: Vec::new(),
            next_id: 0,
        };
        proof {
            assert(r.model().simple.len() == 0);
            assert(r.model().slots.len() == 0);
        }
        r
    }

    fn find_simple(&self, key: &CounterValueSetKey) -> (r: Option<usize>)
        requires
            self.wf(),
        ensures
            r is Some <==> has_key(self.model().simple, key@),
            r is Some ==> r->0 < self.counters@.len() && self.model().simple[r->0 as int].0 == key@
                && key_index(self.model().simple, key@) == r->0,
    {
        let mut i: usize = 0;
        while i < self.counters.len()
            invariant
                self.wf(),
                i <= self.counters@.len(),
                forall|k: int| 0 <= k < i ==> self.model().simple[k].0 != key@,
            decreases self.counters@.len() - i,
        {
            if self.counters[i].0.same_as(key) {
                proof {
                    lemma_key_index(self.model().simple, key@, i as int);
                }
                return Some(i);
            }
            i += 1;
        }
        None
    }

    fn find_slot(&self, key: &CounterValueSetKey) -> (r: Option<usize>)
        requires
            self.wf(),
        ensures
            r is Some <==> has_key(self.model().slots, key@),
            r is Some ==> r->0 < self.limit_windows@.len() && self.model().slots[r->0 as int].0 == key@
                && key_index(self.model().slots, key@) == r->0,
    {
        let mut i: usize = 0;
        while i < self.limit_windows.len()
            invariant
                self.wf(),
                i <= self.limit_windows@.len(),
                forall|k: int| 0 <= k < i ==> self.model().slots[k].0 != key@,
            decreases self.limit_windows@.len() - i,
        {
            if self.limit_windows[i].key.same_as(key) {
                proof {
                    lemma_key_index(self.model().slots, key@, i as int);
                }
                return Some(i);
            }
            i += 1;
        }
        None
    }

    /// Registers limit `limit`: a simple limit gets its window in its counter
    /// set, a qualified one its window in its slot. Registering what is held
    /// already changes nothing. Fails only where a new slot needs a number and
    /// none is left.
    pub fn add_counter(&mut self, limit: &Limit) -> (r: Result<(), StorageErr>)
        requires
            old(self).wf(),
        ensures
            final(self).wf(),
            r is Err <==> (!limit@.is_simple() && old(self).slot(key_of(limit@)) is None && old(self).model().next_id == u64::MAX),
            r is Ok ==> final(self).holds_window(limit@),
            r is Err ==> final(self).model() == old(self).model(),
            old(self).holds_window(limit@) ==> final(self).model() == old(self).model(),
            final(self).model().cached == old(self).model().cached,
            limit@.is_simple() ==> final(self).simple_set(key_of(limit@)) == Some(window_added(
                match old(self).simple_set(key_of(limit@)) { Some(s) => s, None => Seq::empty() },
                limit@.seconds,
            )),
            forall|k: KeyView| k != key_of(limit@) ==> #[trigger] final(self).simple_set(k) == old(self).simple_set(k),
            limit@.is_simple() ==> final(self).model().slots == old(self).model().slots,
            !limit@.is_simple() ==> final(self).model().simple == old(self).model().simple,
            forall|k: KeyView| #[trigger] old(self).slot(k) is Some ==> final(self).slot(k) is Some
                && (final(self).slot(k)->0).0 == (old(self).slot(k)->0).0,
            forall|k: KeyView| k != key_of(limit@) ==> #[trigger] final(self).slot(k) == old(self).slot(k),
            !limit@.is_simple() && r is Ok ==> ascending((final(self).slot(key_of(limit@))->0).1)
                && forall|x: u64| #[trigger] (final(self).slot(key_of(limit@))->0).1.contains(x) <==> (x == limit@.seconds
                    || (old(self).slot(key_of(limit@)) is Some && (old(self).slot(key_of(limit@))->0).1.contains(x))),
    {
        let key = CounterValueSetKey::from_limit(limit);
        let w = limit.window();
        let ghost m0 = self.model();
        if limit.is_simple() {
            match self.find_simple(&key) {
                Some(i) => {
                    let (k, mut set) = self.counters.remove(i);
                    proof {
                        assert(set.wf());
                    }
                    set.add_window(w);
                    self.counters.insert(i, (k, set));
                    proof {
                        assert(self.model().simple =~= m0.simple.update(i as int, (key@, window_added(m0.simple[i as int].1, w))));
                        lemma_update_entry(m0.simple, i as int, window_added(m0.simple[i as int].1, w));
                        lemma_key_index(m0.simple, key@, i as int);
                        assert forall|j: int| 0 <= j < self.counters@.len() implies (#[trigger] self.counters@[j]).1.wf() by {
                            if j != i {
                                assert(self.counters@[j] == old(self).counters@[j]);
                            }
                        }
                        if has_window(m0.simple[i as int].1, w) {
                            assert(self.model().simple =~= m0.simple);
                        }
                        assert(self.model().slots =~= m0.slots);
                    }
                },
                None => {
                    let mut set = CounterValueSet::empty();
                    set.add_window(w);
                    self.counters.push((key, set));
                    proof {
                        assert(self.model().simple =~= m0.simple.push((key@, window_added(Seq::empty(), w))));
                        lemma_push_entry(m0.simple, key@, window_added(Seq::empty(), w));
                        assert(self.model().slots =~= m0.slots);
                    }
                },
            }
            Ok(())
        } else {
            match self.find_slot(&key) {
                Some(i) => {
                    let mut slot = self.limit_windows.remove(i);
                    let ghost wins0 = slot.windows@;
                    proof {
                        assert(ascending(old(self).limit_windows@[i as int].windows@));
                    }
                    insert_window(&mut slot.windows, w);
                    let ghost nv = slot.windows@;
                    self.limit_windows.insert(i, slot);
                    proof {
                        assert(self.model().slots =~= m0.slots.update(i as int, (key@, ((m0.slots[i as int].1).0, nv))));
                        lemma_update_entry(m0.slots, i as int, ((m0.slots[i as int].1).0, nv));
                        lemma_key_index(m0.slots, key@, i as int);
                        if wins0.contains(w) {
                            assert(self.model().slots =~= m0.slots);
                        }
                        assert(nv.contains(w));
                        assert(self.model().simple =~= m0.simple);
                        assert forall|a: int| 0 <= a < self.limit_windows@.len() implies (#[trigger] self.limit_windows@[a]).id < self.next_id by {
                            if a != i {
                                assert(self.limit_windows@[a] == old(self).limit_windows@[a]);
                            }
                        }
                        assert forall|a: int| 0 <= a < self.limit_windows@.len() implies ascending((#[trigger] self.limit_windows@[a]).windows@) by {
                            if a != i {
                                assert(self.limit_windows@[a] == old(self).limit_windows@[a]);
                            }
                        }
                        assert forall|a: int, b: int| 0 <= a < b < self.limit_windows@.len() implies self.limit_windows@[a].id != self.limit_windows@[b].id by {
                            assert(self.limit_windows@[a].id == old(self).limit_windows@[a].id);
                            assert(self.limit_windows@[b].id == old(self).limit_windows@[b].id);
                        }
                    }
                    Ok(())
                },
                None => {
                    if self.next_id == u64::MAX {
                        return Err(StorageErr::new("no numbers left for qualified limits".to_string(), false));
                    }
                    let id = self.next_id;
                    let mut windows: Vec<u64> = Vec::new();
                    windows.push(w);
                    self.limit_windows.push(LimitSlot { key, id, windows });
                    self.next_id = id + 1;
                    proof {
                        assert(self.model().slots =~= m0.slots.push((key@, (id, seq![w]))));
                        lemma_push_entry(m0.slots, key@, (id, seq![w]));
                        assert(seq![w][0] == w);
                        assert(self.model().simple =~= m0.simple);
                        assert forall|a: int, b: int| 0 <= a < b < self.limit_windows@.len() implies self.limit_windows@[a].id != self.limit_windows@[b].id by {
                            if b == self.limit_windows@.len() - 1 {
                                assert(old(self).limit_windows@[a].id < id);
                            } else {
                                assert(self.limit_windows@[a] == old(self).limit_windows@[a]);
                                assert(self.limit_windows@[b] == old(self).limit_windows@[b]);
                            }
                        }
                        assert forall|a: int| 0 <= a < self.limit_windows@.len() implies (#[trigger] self.limit_windows@[a]).id < self.next_id by {
                            if a < old(self).limit_windows@.len() {
                                assert(self.limit_windows@[a] == old(self).limit_windows@[a]);
                            }
                        }
                    }
                    Ok(())
                },
            }
        }
    }
    /// The cache key of `counter`, whose limit has the slot at `i`.
    fn qualified_key_at(&self, i: usize, counter: &Counter) -> (r: QualifiedKey)
        requires
            self.wf(),
            i < self.limit_windows@.len(),
            self.model().slots[i as int].0 == key_of(counter@.limit),
        ensures
            self.qualified_key(key_of(counter@.limit), counter@.set_variables) == Some(qkey_view(r)),
    {
        proof {
            lemma_key_index(self.model().slots, key_of(counter@.limit), i as int);
        }
        (self.limit_windows[i].id, clone_pairs(counter.set_variables()))
    }

    /// The value of `counter` at `now`, as `read` gives it. Reading the cache
    /// may let it evict entries.
    fn read_value(&mut self, counter: &Counter, now: u64) -> (r: u64)
        requires
            old(self).wf(),
        ensures
            final(self).wf(),
            r == old(self).read(counter@, now),
            final(self).model().simple == old(self).model().simple,
            final(self).model().slots == old(self).model().slots,
            final(self).model().next_id == old(self).model().next_id,
            final(self).model().cached.submap_of(old(self).model().cached),
    {
        let key = CounterValueSetKey::from_limit(counter.limit());
        let w = counter.window();
        if counter.is_qualified() {
            match self.find_slot(&key) {
                Some(i) => {
                    let qk = self.qualified_key_at(i, counter);
                    let got = cache_get(&mut self.qualified_counters, &qk);
                    proof {
                        assert(self.model().simple =~= old(self).model().simple);
                        assert(self.model().slots =~= old(self).model().slots);
                        assert forall|k: (u64, Seq<(Seq<char>, Seq<char>)>)| #[trigger] cached(self.qualified_counters).contains_key(k)
                            implies sorted_windows(cached(self.qualified_counters)[k]) by {
                            assert(cached(old(self).qualified_counters).contains_key(k));
                        }
                    }
                    match got {
                        Some(set) => {
                            proof {
                                assert(sorted_windows(cached(old(self).qualified_counters)[qkey_view(qk)]));
                            }
                            set.value(w, now)
                        },
                        None => 0,
                    }
                },
                None => 0,
            }
        } else {
            match self.find_simple(&key) {
                Some(i) => {
                    proof {
                        lemma_key_index(self.model().simple, key@, i as int);
                    }
                    self.counters[i].1.value(w, now)
                },
                None => 0,
            }
        }
    }

    /// Whether `delta` more fits under the maximum of `counter` at `now`.
    pub fn is_within_limits(&mut self, counter: &Counter, delta: u64, now: u64) -> (r: bool)
        requires
            old(self).wf(),
        ensures
            final(self).wf(),
            r == (old(self).read(counter@, now) + delta <= counter@.limit.max_value),
            final(self).model().simple == old(self).model().simple,
            final(self).model().slots == old(self).model().slots,
            final(self).model().next_id == old(self).model().next_id,
            final(self).model().cached.submap_of(old(self).model().cached),
    {
        let value = self.read_value(counter, now);
        match value.checked_add(delta) {
            Some(total) => total <= counter.max_value(),
            None => false,
        }
    }

    /// Adds `delta` to `counter` at `now` without any check. A qualified
    /// counter missing from the cache starts from its limit's windows; the
    /// written set may be evicted again.
    #[verifier::spinoff_prover]
    pub fn update_counter(&mut self, counter: &Counter, delta: u64, now: u64)
        requires
            old(self).wf(),
            old(self).holds(counter@.limit),
        ensures
            final(self).wf(),
            final(self).model().slots == old(self).model().slots,
            final(self).model().next_id == old(self).model().next_id,
            !counter@.is_qualified() ==> final(self).model().cached == old(self).model().cached
                && final(self).model().simple == update_key(old(self).model().simple, key_of(counter@.limit), counter@.limit.seconds, delta, now)
                && final(self).simple_set(key_of(counter@.limit)) == Some(window_updated(
                    old(self).simple_set(key_of(counter@.limit))->0, counter@.limit.seconds, delta, now))
                && forall|k: KeyView| k != key_of(counter@.limit) ==> #[trigger] final(self).simple_set(k) == old(self).simple_set(k),
            counter@.is_qualified() ==> final(self).model().simple == old(self).model().simple
                && after_write(
                    old(self).model().cached,
                    final(self).model().cached,
                    old(self).qualified_key(key_of(counter@.limit), counter@.set_variables)->0,
                    window_updated(window_added(old(self).base_set(counter@), counter@.limit.seconds), counter@.limit.seconds, delta, now),
                ),
            update_effect(*old(self), *final(self), counter@, delta, now),
    {
        let key = CounterValueSetKey::from_limit(counter.limit());
        let w = counter.window();
        let ghost m0 = self.model();
        if counter.is_qualified() {
            let i = self.find_slot(&key).unwrap();
            let qk = self.qualified_key_at(i, counter);
            let got = cache_get(&mut self.qualified_counters, &qk);
            let mut set = match got {
                Some(s) => {
                    proof {
                        assert(sorted_windows(cached(old(self).qualified_counters)[qkey_view(qk)]));
                    }
                    s.duplicate()
                },
                None => CounterValueSet::new(&self.limit_windows[i].windows),
            };
            proof {
                lemma_key_index(m0.slots, key@, i as int);
            }
            set.add_window(w);
            let _ = set.update(w, delta, now);
            let ghost written = set@;
            let ghost mid = cached(self.qualified_counters);
            proof {
                assert(set.wf());
            }
            let ghost qv = qkey_view(qk);
            let arc = Arc::new(set);
            proof {
                assert(arc@ == written);
            }
            cache_insert(&mut self.qualified_counters, qk, arc);
            proof {
                assert(cached(self.qualified_counters).submap_of(mid.insert(qv, written)));
                assert(self.model().simple =~= m0.simple);
                assert(self.model().slots =~= m0.slots);
                assert forall|k: (u64, Seq<(Seq<char>, Seq<char>)>)| #[trigger] cached(self.qualified_counters).contains_key(k)
                    implies cached(old(self).qualified_counters).insert(qv, written).contains_key(k)
                        && cached(self.qualified_counters)[k] == cached(old(self).qualified_counters).insert(qv, written)[k] by {
                    assert(mid.insert(qv, written).contains_key(k));
                    assert(cached(self.qualified_counters)[k] == mid.insert(qv, written)[k]);
                    if k != qv {
                        assert(mid.contains_key(k));
                        assert(cached(old(self).qualified_counters).dom().contains(k));
                        assert(mid[k] == cached(old(self).qualified_counters)[k]);
                    }
                }
                assert forall|k: (u64, Seq<(Seq<char>, Seq<char>)>)| #[trigger] cached(self.qualified_counters).contains_key(k)
                    implies sorted_windows(cached(self.qualified_counters)[k]) by {
                    assert(cached(old(self).qualified_counters).insert(qv, written).contains_key(k));
                    if k != qv {
                        assert(cached(old(self).qualified_counters).contains_key(k));
                    }
                }
            }
        } else {
            let i = self.find_simple(&key).unwrap();
            let (k, mut set) = self.counters.remove(i);
            proof {
                lemma_key_index(m0.simple, key@, i as int);
                assert(set.wf());
            }
            let _ = set.update(w, delta, now);
            self.counters.insert(i, (k, set));
            proof {
                assert(self.model().simple =~= m0.simple.update(i as int, (key@, window_updated(m0.simple[i as int].1, w, delta, now))));
                lemma_update_entry(m0.simple, i as int, window_updated(m0.simple[i as int].1, w, delta, now));
                lemma_update_key(m0.simple, i as int, w, delta, now);
                assert forall|j: int| 0 <= j < self.counters@.len() implies (#[trigger] self.counters@[j]).1.wf() by {
                    if j != i {
                        assert(self.counters@[j] == old(self).counters@[j]);
                    }
                }
                assert(self.model().slots =~= m0.slots);
            }
        }
    }

    /// Deletes every counter of `limit`.
    fn delete_counters_of_limit(&mut self, limit: &Limit)
        requires
            old(self).wf(),
        ensures
            final(self).wf(),
            final(self).holds_no_counters_of(limit@),
            forall|k: KeyView| k != key_of(limit@) ==> #[trigger] final(self).simple_set(k) == old(self).simple_set(k),
            limit@.is_simple() ==> final(self).model().cached == old(self).model().cached,
            !limit@.is_simple() ==> final(self).model().simple == old(self).model().simple,
            final(self).model().slots == old(self).model().slots,
            final(self).model().next_id == old(self).model().next_id,
            final(self).model().cached.submap_of(old(self).model().cached),
            forall|q: (u64, Seq<(Seq<char>, Seq<char>)>)| #[trigger] old(self).model().cached.contains_key(q)
                && !old(self).deletes_cached(limit@, q) ==> final(self).model().cached.contains_key(q),
    {
        let key = CounterValueSetKey::from_limit(limit);
        let ghost m0 = self.model();
        if limit.is_simple() {
            match self.find_simple(&key) {
                Some(i) => {
                    let _ = self.counters.remove(i);
                    proof {
                        assert(self.model().simple =~= m0.simple.remove(i as int));
                        lemma_remove_entry(m0.simple, i as int);
                        assert forall|j: int| 0 <= j < self.counters@.len() implies (#[trigger] self.counters@[j]).1.wf() by {
                            if j < i {
                                assert(self.counters@[j] == old(self).counters@[j]);
                            } else {
                                assert(self.counters@[j] == old(self).counters@[j + 1]);
                            }
                        }
                        assert(self.model().slots =~= m0.slots);
                    }
                },
                None => {},
            }
        } else {
            match self.find_slot(&key) {
                Some(i) => {
                    let id = self.limit_windows[i].id;
                    cache_invalidate_limit(&mut self.qualified_counters, id);
                    proof {
                        lemma_key_index(m0.slots, key@, i as int);
                        assert(self.model().simple =~= m0.simple);
                        assert(self.model().slots =~= m0.slots);
                        assert forall|k: (u64, Seq<(Seq<char>, Seq<char>)>)| #[trigger] cached(self.qualified_counters).contains_key(k)
                            implies sorted_windows(cached(self.qualified_counters)[k]) by {
                            assert(cached(old(self).qualified_counters).contains_key(k));
                        }
                    }
                },
                None => {},
            }
        }
    }

    /// Deletes every counter of each of `limits`.
    pub fn delete_counters(&mut self, limits: &Vec<Limit>)
        requires
            old(self).wf(),
        ensures
            final(self).wf(),
            forall|i: int| 0 <= i < limits@.len() ==> final(self).holds_no_counters_of(#[trigger] limits@[i]@),
            forall|k: KeyView| (forall|i: int| 0 <= i < limits@.len() ==> k != key_of(#[trigger] limits@[i]@))
                ==> #[trigger] final(self).simple_set(k) == old(self).simple_set(k),
            final(self).model().slots == old(self).model().slots,
            final(self).model().next_id == old(self).model().next_id,
            final(self).model().cached.submap_of(old(self).model().cached),
            forall|q: (u64, Seq<(Seq<char>, Seq<char>)>)| #[trigger] old(self).model().cached.contains_key(q)
                && (forall|i: int| 0 <= i < limits@.len() ==> !old(self).deletes_cached(#[trigger] limits@[i]@, q))
                ==> final(self).model().cached.contains_key(q),
    {
        let mut i: usize = 0;
        while i < limits.len()
            invariant
                self.wf(),
                i <= limits@.len(),
                forall|j: int| 0 <= j < i ==> self.holds_no_counters_of(#[trigger] limits@[j]@),
                forall|k: KeyView| (forall|j: int| 0 <= j < i ==> k != key_of(#[trigger] limits@[j]@))
                    ==> #[trigger] self.simple_set(k) == old(self).simple_set(k),
                self.model().slots == old(self).model().slots,
                self.model().next_id == old(self).model().next_id,
                self.model().cached.submap_of(old(self).model().cached),
                forall|q: (u64, Seq<(Seq<char>, Seq<char>)>)| #[trigger] old(self).model().cached.contains_key(q)
                    && (forall|j: int| 0 <= j < i ==> !old(self).deletes_cached(#[trigger] limits@[j]@, q))
                    ==> self.model().cached.contains_key(q),
            decreases limits@.len() - i,
        {
            let ghost before = *self;
            self.delete_counters_of_limit(&limits[i]);
            proof {
                assert forall|q: (u64, Seq<(Seq<char>, Seq<char>)>)| #[trigger] old(self).model().cached.contains_key(q)
                    && (forall|j: int| 0 <= j < i + 1 ==> !old(self).deletes_cached(#[trigger] limits@[j]@, q))
                    implies self.model().cached.contains_key(q) by {
                    assert forall|j: int| 0 <= j < i implies !old(self).deletes_cached(#[trigger] limits@[j]@, q) by {
                        assert(0 <= j < i + 1);
                    }
                    assert(before.model().cached.contains_key(q));
                    assert(!old(self).deletes_cached(limits@[i as int]@, q));
                    assert(before.slot(key_of(limits@[i as int]@)) == old(self).slot(key_of(limits@[i as int]@)));
                }
            }
            proof {
                assert forall|j: int| 0 <= j < i + 1 implies self.holds_no_counters_of(#[trigger] limits@[j]@) by {
                    if j < i {
                        let l = limits@[j]@;
                        assert(before.holds_no_counters_of(l));
                        if l.is_simple() {
                            if key_of(l) != key_of(limits@[i as int]@) {
                                assert(self.simple_set(key_of(l)) == before.simple_set(key_of(l)));
                            }
                        } else {
                            assert(self.slot(key_of(l)) == before.slot(key_of(l)));
                            match self.slot(key_of(l)) {
                                Some(s) => {
                                    assert forall|q: (u64, Seq<(Seq<char>, Seq<char>)>)| #[trigger] self.model().cached.contains_key(q) implies q.0 != s.0 by {
                                        assert(before.model().cached.contains_key(q));
                                    }
                                },
                                None => {},
                            }
                        }
                    }
                }
                assert forall|k: KeyView| (forall|j: int| 0 <= j < i + 1 ==> k != key_of(#[trigger] limits@[j]@))
                    implies #[trigger] self.simple_set(k) == old(self).simple_set(k) by {
                    assert(k != key_of(limits@[i as int]@));
                    assert forall|j: int| 0 <= j < i implies k != key_of(#[trigger] limits@[j]@) by {
                        assert(0 <= j < i + 1);
                    }
                    assert(before.simple_set(k) == old(self).simple_set(k));
                }
                assert forall|q: (u64, Seq<(Seq<char>, Seq<char>)>)| #[trigger] self.model().cached.contains_key(q)
                    implies old(self).model().cached.contains_key(q) && self.model().cached[q] == old(self).model().cached[q] by {
                    assert(before.model().cached.contains_key(q));
                }
            }
            i += 1;
        }
    }

    /// Empties the store: no counter keeps a value.
    pub fn clear(&mut self)
        requires
            old(self).wf(),
        ensures
            final(self).wf(),
            final(self).model().simple.len() == 0,
            final(self).model().slots == old(self).model().slots,
            final(self).model().next_id == old(self).model().next_id,
            forall|q: (u64, Seq<(Seq<char>, Seq<char>)>)| !(#[trigger] final(self).model().cached.contains_key(q)),
            forall|c: CounterView, now: u64| #[trigger] final(self).read(c, now) == 0,
    {
        self.counters = Vec::new();
        cache_clear(&mut self.qualified_counters);
        proof {
            assert(self.model().simple.len() == 0);
            assert(self.model().slots =~= old(self).model().slots);
            assert forall|c: CounterView, now: u64| #[trigger] self.read(c, now) == 0 by {
                assert(!has_key(self.model().simple, key_of(c.limit)));
            }
        }
    }
    /// What a decision does, from store `s0` and counters `before` to store
    /// `s1` and counters `after`, with outcome `r`: the outcome follows the
    /// reads of the counters at `now` (an evicted qualified counter reads
    /// zero); a refusal commits nothing; an allowance adds `delta` to every
    /// simple counter and writes only the qualified counters of the batch;
    /// with `load`, each counter gets its remaining room.
    pub open spec fn decision(
        s0: InMemoryStorage,
        s1: InMemoryStorage,
        before: Seq<Counter>,
        after: Seq<Counter>,
        delta: u64,
        load: bool,
        now: u64,
        r: Authorization,
    ) -> bool {
        &&& exists|reads: Seq<u64>| {
            &&& reads.len() == before.len()
            &&& forall|i: int| 0 <= i < reads.len() ==> (#[trigger] reads[i] == s0.read(before[i]@, now)
                || (before[i]@.is_qualified() && reads[i] == 0))
            &&& decided(counter_views(before), reads, delta, r)
            &&& load ==> loaded(counter_views(before), counter_views(after), reads, delta)
        }
        &&& !load ==> after == before
        &&& s1.model().slots == s0.model().slots
        &&& s1.model().next_id == s0.model().next_id
        &&& r is Limited ==> s1.model().simple == s0.model().simple && s1.model().cached.submap_of(s0.model().cached)
        &&& r is Allowed ==> s1.model().simple == commit_simple(s0.model().simple, counter_views(before), delta, now)
        &&& r is Allowed ==> exists|ms: Seq<CacheMap>| #[trigger] write_chain(s0, ms, counter_views(before), delta, at_instant(before.len(), now))
            && ms[0].submap_of(s0.model().cached) && ms.last() == s1.model().cached
        &&& forall|q: (u64, Seq<(Seq<char>, Seq<char>)>)| #[trigger] s1.model().cached.contains_key(q) ==>
            (s0.model().cached.contains_key(q) && s1.model().cached[q] == s0.model().cached[q])
            || (r is Allowed && exists|i: int| 0 <= i < before.len() && before[i]@.is_qualified()
                && s0.qualified_key(key_of(before[i]@.limit), before[i]@.set_variables) == Some(q))
    }

    /// The decision protocol. Reads each counter of `counters` at `now`
    /// (simple counters first, then qualified ones); where every counter
    /// absorbs `delta`, adds `delta` to each of them and allows, else changes
    /// no counter and refuses, naming the first exceeded limit. Without
    /// `load_counters` the first exceeded counter ends the reading; with it
    /// every counter is read and gets its remaining room written back.
    /// A qualified counter that the cache has evicted reads zero.
    pub fn check_and_update(&mut self, counters: &mut Vec<Counter>, delta: u64, load_counters: bool, now: u64) -> (r: Authorization)
        requires
            old(self).wf(),
            forall|i: int| 0 <= i < old(counters)@.len() ==> old(self).holds(#[trigger] old(counters)@[i]@.limit),
        ensures
            final(self).wf(),
            InMemoryStorage::decision(*old(self), *final(self), old(counters)@, final(counters)@, delta, load_counters, now, r),
    {
        let n = counters.len();
        let ghost cs = counter_views(counters@);
        let ghost m0 = self.model();
        let ghost s0 = *self;
        let ghost mut reads = Seq::new(n as nat, |j: int| s0.read(cs[j], now));
        let mut first: Option<usize> = None;
        let mut i: usize = 0;
        while i < n
            invariant
                self.wf(),
                n == counters@.len(),
                cs.len() == n,
                reads.len() == n,
                i <= n,
                cs == counter_views(old(counters)@),
                s0 == *old(self),
                m0 == old(self).model(),
                self.model().simple == m0.simple,
                self.model().slots == m0.slots,
                self.model().next_id == m0.next_id,
                self.model().cached.submap_of(m0.cached),
                forall|j: int| 0 <= j < n ==> #[trigger] reads[j] == s0.read(cs[j], now),
                !load_counters ==> counters@ == old(counters)@ && first is None,
                load_counters ==> forall|j: int| 0 <= j < n ==> #[trigger] counter_views(counters@)[j] == (if j < i && !cs[j].is_qualified() {
                    CounterView { remaining: Some(remaining_after(cs[j], reads[j], delta)), ..cs[j] }
                } else {
                    cs[j]
                }),
                first is None ==> forall|j: int| 0 <= j < i && !cs[j].is_qualified() ==> !exceeds(cs[j], reads[j], delta),
                first is Some ==> first->0 < i && !cs[first->0 as int].is_qualified() && is_first_exceeded(cs, reads, delta, first->0 as int),
            decreases n - i,
        {
            proof {
                assert(counters@[i as int]@ == counter_views(counters@)[i as int]);
                assert(counters@[i as int]@.limit == cs[i as int].limit);
            }
            if !counters[i].is_qualified() {
                let ghost before = *self;
                let v = self.read_value(&counters[i], now);
                proof {
                    lemma_submap_trans(self.model().cached, before.model().cached, m0.cached);
                }
                let max = counters[i].max_value();
                let fits = match v.checked_add(delta) {
                    Some(t) => t <= max,
                    None => false,
                };
                proof {
                    assert(cs[i as int] == old(counters)@[i as int]@);
                    assert(v == reads[i as int]);
                }
                if load_counters {
                    let rem = if fits { max - v - delta } else { 0 };
                    let ghost prev = counter_views(counters@);
                    let ghost prev_vec = counters@;
                    let mut c = counters[i].duplicate();
                    c.set_remaining(rem);
                    counters.set(i, c);
                    if !fits && first.is_none() {
                        first = Some(i);
                    }
                    proof {
                        assert(rem == remaining_after(cs[i as int], reads[i as int], delta));
                        assert(counter_views(counters@)[i as int] == c@);
                        assert forall|j: int| 0 <= j < n implies #[trigger] counter_views(counters@)[j] == (if j < i + 1 && !cs[j].is_qualified() {
                            CounterView { remaining: Some(remaining_after(cs[j], reads[j], delta)), ..cs[j] }
                        } else {
                            cs[j]
                        }) by {
                            if j != i {
                                assert(counters@[j] == prev_vec[j]);
                                assert(counter_views(counters@)[j] == counters@[j]@);
                                assert(prev[j] == prev_vec[j]@);
                            }
                        }
                    }
                } else if !fits {
                    let r = Authorization::Limited(clone_opt(counters[i].limit().name()));
                    proof {
                        assert(is_first_exceeded(cs, reads, delta, i as int));
                        assert(decided(cs, reads, delta, r));
                    }
                    return r;
                }
            }
            i += 1;
        }
        let mut i: usize = 0;
        while i < n
            invariant
                self.wf(),
                n == counters@.len(),
                cs.len() == n,
                reads.len() == n,
                i <= n,
                cs == counter_views(old(counters)@),
                s0 == *old(self),
                m0 == old(self).model(),
                self.model().simple == m0.simple,
                self.model().slots == m0.slots,
                self.model().next_id == m0.next_id,
                self.model().cached.submap_of(m0.cached),
                forall|j: int| 0 <= j < n ==> (#[trigger] reads[j] == s0.read(cs[j], now) || (cs[j].is_qualified() && reads[j] == 0)),
                forall|j: int| 0 <= j < n && !cs[j].is_qualified() ==> #[trigger] reads[j] == s0.read(cs[j], now),
                !load_counters ==> counters@ == old(counters)@ && first is None,
                load_counters ==> forall|j: int| 0 <= j < n ==> #[trigger] counter_views(counters@)[j] == (if j < i || !cs[j].is_qualified() {
                    CounterView { remaining: Some(remaining_after(cs[j], reads[j], delta)), ..cs[j] }
                } else {
                    cs[j]
                }),
                first is None ==> forall|j: int| 0 <= j < n && !cs[j].is_qualified() ==> !exceeds(cs[j], reads[j], delta),
                first is None ==> forall|j: int| 0 <= j < i && cs[j].is_qualified() ==> !exceeds(cs[j], reads[j], delta),
                first is Some ==> first->0 < n && (!cs[first->0 as int].is_qualified() || first->0 < i)
                    && is_first_exceeded(cs, reads, delta, first->0 as int),
            decreases n - i,
        {
            proof {
                assert(counters@[i as int]@ == counter_views(counters@)[i as int]);
                assert(counters@[i as int]@.limit == cs[i as int].limit);
                assert(counters@[i as int]@.set_variables == cs[i as int].set_variables);
            }
            if counters[i].is_qualified() {
                let ghost before = *self;
                let v = self.read_value(&counters[i], now);
                proof {
                    lemma_submap_trans(self.model().cached, before.model().cached, m0.cached);
                }
                let max = counters[i].max_value();
                let fits = match v.checked_add(delta) {
                    Some(t) => t <= max,
                    None => false,
                };
                proof {
                    let c = cs[i as int];
                    assert(c == old(counters)@[i as int]@);
                    assert(v == s0.read(c, now) || v == 0) by {
                        match before.qualified_key(key_of(c.limit), c.set_variables) {
                            Some(q) => {
                                assert(s0.qualified_key(key_of(c.limit), c.set_variables) == Some(q));
                                if before.model().cached.contains_key(q) {
                                    assert(m0.cached.contains_key(q));
                                }
                            },
                            None => {},
                        }
                    }
                    let old_reads = reads;
                    reads = reads.update(i as int, v);
                    assert forall|j: int| 0 <= j < n && !cs[j].is_qualified() implies old_reads[j] == reads[j] by {
                        assert(j != i);
                    }
                    if first is Some {
                        let f = first->0 as int;
                        assert(is_first_exceeded(cs, reads, delta, f)) by {
                            if cs[f].is_qualified() {
                                assert(old_reads[f] == reads[f]);
                                assert forall|j: int| 0 <= j < f && cs[j].is_qualified() implies old_reads[j] == reads[j] by {
                                    assert(j != i);
                                }
                            } else {
                                assert(old_reads[f] == reads[f]);
                            }
                        }
                    }
                }
                if load_counters {
                    let rem = if fits { max - v - delta } else { 0 };
                    let ghost prev = counter_views(counters@);
                    let ghost prev_vec = counters@;
                    let mut c = counters[i].duplicate();
                    c.set_remaining(rem);
                    counters.set(i, c);
                    if !fits && first.is_none() {
                        first = Some(i);
                    }
                    proof {
                        assert(rem == remaining_after(cs[i as int], reads[i as int], delta));
                        assert(counter_views(counters@)[i as int] == c@);
                        assert forall|j: int| 0 <= j < n implies #[trigger] counter_views(counters@)[j] == (if j < i + 1 || !cs[j].is_qualified() {
                            CounterView { remaining: Some(remaining_after(cs[j], reads[j], delta)), ..cs[j] }
                        } else {
                            cs[j]
                        }) by {
                            if j != i {
                                assert(counters@[j] == prev_vec[j]);
                                assert(counter_views(counters@)[j] == counters@[j]@);
                                assert(prev[j] == prev_vec[j]@);
                            }
                        }
                    }
                } else if !fits {
                    let r = Authorization::Limited(clone_opt(counters[i].limit().name()));
                    proof {
                        assert(is_first_exceeded(cs, reads, delta, i as int));
                        assert(decided(cs, reads, delta, r));
                        assert forall|q: (u64, Seq<(Seq<char>, Seq<char>)>)| #[trigger] self.model().cached.contains_key(q)
                            implies old(self).model().cached.contains_key(q) && self.model().cached[q] == old(self).model().cached[q] by {
                            assert(m0.cached.contains_key(q));
                        }
                        assert forall|j: int| 0 <= j < n implies (#[trigger] reads[j] == s0.read(old(counters)@[j]@, now)
                            || (old(counters)@[j]@.is_qualified() && reads[j] == 0)) by {
                            assert(old(counters)@[j]@ == cs[j]);
                        }
                        assert(decided(counter_views(old(counters)@), reads, delta, r));
                        assert(reads.len() == old(counters)@.len());
                        assert(counters@ == old(counters)@);
                        assert(self.model().slots == old(self).model().slots);
                        assert(self.model().simple == old(self).model().simple);
                        assert(self.model().cached.submap_of(old(self).model().cached));
                    }
                    return r;
                }
            }
            i += 1;
        }
        if let Some(f) = first {
            let r = Authorization::Limited(clone_opt(counters[f].limit().name()));
            proof {
                assert(counters@[f as int]@ == counter_views(counters@)[f as int]);
                assert(decided(cs, reads, delta, r));
                assert(loaded(cs, counter_views(counters@), reads, delta));
                assert forall|q: (u64, Seq<(Seq<char>, Seq<char>)>)| #[trigger] self.model().cached.contains_key(q)
                    implies old(self).model().cached.contains_key(q) && self.model().cached[q] == old(self).model().cached[q] by {}
            }
            return r;
        }
        proof {
            assert(decided(cs, reads, delta, Authorization::Allowed));
            if load_counters {
                assert(loaded(cs, counter_views(counters@), reads, delta));
            }
            assert(cs.subrange(0, 0) =~= Seq::<CounterView>::empty());
        }
        proof {
            assert forall|j: int| 0 <= j < n implies (#[trigger] counters@[j])@.limit == cs[j].limit
                && counters@[j]@.set_variables == cs[j].set_variables by {
                assert(counters@[j]@ == counter_views(counters@)[j]);
            }
            assert forall|j: int| 0 <= j < n implies self.holds(#[trigger] cs[j].limit) by {
                assert(cs[j] == old(counters)@[j]@);
                assert(old(self).holds(old(counters)@[j]@.limit));
            }
        }
        let ghost fixed = counters@;
        let ghost mut ms: Seq<CacheMap> = seq![self.model().cached];
        let mut k: usize = 0;
        proof {
            assert(m0.cached == old(self).model().cached);
        }
        while k < n
            invariant
                self.wf(),
                n == counters@.len(),
                counters@ == fixed,
                cs.len() == n,
                k <= n,
                cs == counter_views(old(counters)@),
                m0 == old(self).model(),
                forall|j: int| 0 <= j < n ==> (#[trigger] counters@[j])@.limit == cs[j].limit
                    && counters@[j]@.set_variables == cs[j].set_variables,
                forall|j: int| 0 <= j < n ==> self.holds(#[trigger] cs[j].limit),
                self.model().simple == commit_simple(m0.simple, cs.subrange(0, k as int), delta, now),
                self.model().slots == m0.slots,
                self.model().next_id == m0.next_id,
                forall|q: (u64, Seq<(Seq<char>, Seq<char>)>)| #[trigger] self.model().cached.contains_key(q) ==>
                    (m0.cached.contains_key(q) && self.model().cached[q] == m0.cached[q])
                    || exists|j: int| 0 <= j < k && cs[j].is_qualified()
                        && old(self).qualified_key(key_of(cs[j].limit), cs[j].set_variables) == Some(q),
                write_chain(*old(self), ms, cs.subrange(0, k as int), delta, at_instant(k as nat, now)),
                ms[0].submap_of(m0.cached),
                ms.last() == self.model().cached,
            decreases n - k,
        {
            let ghost before = *self;
            let ghost c = cs[k as int];
            proof {
                assert(counters@[k as int]@.limit == c.limit);
                assert(counters@[k as int]@.set_variables == c.set_variables);
            }
            self.update_counter(&counters[k], delta, now);
            proof {
                let sub = cs.subrange(0, k + 1);
                assert(sub.drop_last() =~= cs.subrange(0, k as int));
                assert(sub.last() == c);
                let old_ms = ms;
                ms = ms.push(self.model().cached);
                let subk = cs.subrange(0, k as int);
                assert(at_instant((k + 1) as nat, now)[k as int] == now);
                if c.is_qualified() {
                    assert(before.slot(key_of(c.limit)) == old(self).slot(key_of(c.limit)));
                    assert(before.holds(c.limit));
                    assert(before.base_set(c) == (if old_ms.last().contains_key(old(self).qualified_key(key_of(c.limit), c.set_variables)->0) {
                        old_ms.last()[old(self).qualified_key(key_of(c.limit), c.set_variables)->0]
                    } else {
                        fresh_set((old(self).slot(key_of(c.limit))->0).1)
                    }));
                    assert(written_set(*old(self), old_ms.last(), c, delta, now)
                        == window_updated(window_added(before.base_set(c), c.limit.seconds), c.limit.seconds, delta, now));
                }
                assert forall|j: int| 0 <= j < sub.len() implies if (#[trigger] sub[j]).is_qualified() {
                    after_write(ms[j], ms[j + 1], old(self).qualified_key(key_of(sub[j].limit), sub[j].set_variables)->0,
                        written_set(*old(self), ms[j], sub[j], delta, at_instant((k + 1) as nat, now)[j]))
                } else {
                    ms[j + 1] == ms[j]
                } by {
                    assert(at_instant((k + 1) as nat, now)[j] == now);
                    if j < k {
                        assert(sub[j] == subk[j]);
                        assert(at_instant(k as nat, now)[j] == now);
                        assert(ms[j] == old_ms[j] && ms[j + 1] == old_ms[j + 1]);
                    } else {
                        assert(sub[j] == c);
                        assert(ms[j] == old_ms.last());
                    }
                }
                assert(write_chain(*old(self), ms, sub, delta, at_instant((k + 1) as nat, now)));
                assert forall|j: int| 0 <= j < n implies self.holds(#[trigger] cs[j].limit) by {
                    let l = cs[j].limit;
                    assert(before.holds(l));
                    if l.is_simple() && !c.is_qualified() {
                        if key_of(l) == key_of(c.limit) {
                            lemma_window_updated_keeps_windows(before.simple_set(key_of(l))->0, c.limit.seconds, delta, now, l.seconds);
                        }
                    }
                }
                assert forall|q: (u64, Seq<(Seq<char>, Seq<char>)>)| #[trigger] self.model().cached.contains_key(q) implies
                    (m0.cached.contains_key(q) && self.model().cached[q] == m0.cached[q])
                    || exists|j: int| 0 <= j < k + 1 && cs[j].is_qualified()
                        && old(self).qualified_key(key_of(cs[j].limit), cs[j].set_variables) == Some(q) by {
                    if c.is_qualified() {
                        let qk = before.qualified_key(key_of(c.limit), c.set_variables)->0;
                        assert(before.slot(key_of(c.limit)) == old(self).slot(key_of(c.limit)));
                        assert(before.holds(c.limit));
                        assert(old(self).qualified_key(key_of(c.limit), c.set_variables) == before.qualified_key(key_of(c.limit), c.set_variables));
                        if q != qk {
                            assert(before.model().cached.insert(qk, window_updated(window_added(before.base_set(c), c.limit.seconds), c.limit.seconds, delta, now)).contains_key(q));
                            assert(before.model().cached.contains_key(q));
                        } else {
                            assert(0 <= k < k + 1 && cs[k as int].is_qualified());
                        }
                    } else {
                        assert(before.model().cached.contains_key(q));
                    }
                }
            }
            k += 1;
        }
        proof {
            assert(cs.subrange(0, n as int) =~= cs);
            assert(write_chain(*old(self), ms, counter_views(old(counters)@), delta, at_instant(old(counters)@.len(), now)));
        }
        Authorization::Allowed
    }
    /// Whether the store holds what counter `c` reports for limit `l` at `now`.
    pub open spec fn reports(&self, l: LimitView, c: CounterView, now: u64) -> bool {
        &&& c.limit == l
        &&& if l.is_simple() {
            match self.simple_set(key_of(l)) {
                Some(s) => c.set_variables.len() == 0
                    && exists|j: int| 0 <= j < s.len() && reports_value(l, #[trigger] s[j].value, c, now),
                None => false,
            }
        } else {
            match self.slot(key_of(l)) {
                Some(sl) => {
                    let q = (sl.0, c.set_variables);
                    &&& self.model().cached.contains_key(q)
                    &&& has_window(self.model().cached[q], l.seconds)
                    &&& reports_value(l, self.model().cached[q][window_index(self.model().cached[q], l.seconds)].value, c, now)
                },
                None => false,
            }
        }
    }

    /// Whether the cached set keyed `q` belongs to the qualified limit `l` and
    /// its window for `l` is live at `now`.
    pub open spec fn qualified_live(&self, l: LimitView, q: (u64, Seq<(Seq<char>, Seq<char>)>), now: u64) -> bool {
        &&& !l.is_simple()
        &&& self.slot(key_of(l)) is Some
        &&& q.0 == (self.slot(key_of(l))->0).0
        &&& self.model().cached.contains_key(q)
        &&& has_window(self.model().cached[q], l.seconds)
        &&& self.model().cached[q][window_index(self.model().cached[q], l.seconds)].value.ttl_spec(now) > 0
    }

    /// Whether `c` reports the cached set keyed `q` for limit `l` at `now`.
    pub open spec fn reports_cached(&self, l: LimitView, q: (u64, Seq<(Seq<char>, Seq<char>)>), c: CounterView, now: u64) -> bool {
        &&& c.limit == l
        &&& c.set_variables == q.1
        &&& reports_value(l, self.model().cached[q][window_index(self.model().cached[q], l.seconds)].value, c, now)
    }

    /// Whether some limit of `limits` has counter `c` reported by the store.
    pub open spec fn reported_by(&self, limits: Seq<LimitView>, c: CounterView, now: u64) -> bool {
        exists|b: int| 0 <= b < limits.len() && self.reports(limits[b], c, now)
    }

    /// Appends the live counters of the simple limit `limit`.
    fn push_simple_counters(&self, limit: &Limit, now: u64, res: &mut Vec<Counter>)
        requires
            self.wf(),
            limit@.is_simple(),
        ensures
            final(res)@.len() >= old(res)@.len(),
            forall|i: int| 0 <= i < old(res)@.len() ==> final(res)@[i] == old(res)@[i],
            forall|i: int| old(res)@.len() <= i < final(res)@.len() ==> self.reports(limit@, #[trigger] final(res)@[i]@, now),
            self.simple_set(key_of(limit@)) is Some ==> forall|j: int| 0 <= j < self.simple_set(key_of(limit@))->0.len()
                && (#[trigger] self.simple_set(key_of(limit@))->0[j]).value.ttl_spec(now) > 0
                ==> exists|i: int| old(res)@.len() <= i < final(res)@.len() && final(res)@[i]@.limit == limit@
                    && reports_value(limit@, self.simple_set(key_of(limit@))->0[j].value, #[trigger] final(res)@[i]@, now),
    {
        let key = CounterValueSetKey::from_limit(limit);
        match self.find_simple(&key) {
            Some(i) => {
                proof {
                    lemma_key_index(self.model().simple, key@, i as int);
                }
                let ghost s = self.counters@[i as int].1@;
                let cands = self.counters[i].1.to_counters(limit, now);
                let mut j: usize = 0;
                while j < cands.len()
                    invariant
                        self.wf(),
                        limit@.is_simple(),
                        self.simple_set(key_of(limit@)) == Some(s),
                        cands@.len() == s.len(),
                        forall|t: int| 0 <= t < cands@.len() ==> (#[trigger] cands@[t])@ == (CounterView {
                            limit: limit@,
                            set_variables: Seq::empty(),
                            remaining: Some(sat_sub(limit@.max_value, s[t].value.value_at_spec(now))),
                            expires_in: Some(s[t].value.ttl_spec(now)),
                        }),
                        j <= s.len(),
                        res@.len() >= old(res)@.len(),
                        forall|t: int| 0 <= t < old(res)@.len() ==> res@[t] == old(res)@[t],
                        forall|t: int| old(res)@.len() <= t < res@.len() ==> self.reports(limit@, #[trigger] res@[t]@, now),
                        forall|t: int| 0 <= t < j && (#[trigger] s[t]).value.ttl_spec(now) > 0
                            ==> exists|i: int| old(res)@.len() <= i < res@.len() && res@[i]@.limit == limit@
                                && reports_value(limit@, s[t].value, #[trigger] res@[i]@, now),
                    decreases s.len() - j,
                {
                    let live = match cands[j].expires_in() {
                        Some(ttl) => ttl > 0,
                        None => false,
                    };
                    if live {
                        let c = cands[j].duplicate();
                        proof {
                            assert(c@ == cands@[j as int]@);
                            assert(reports_value(limit@, s[j as int].value, c@, now));
                            assert(self.simple_set(key_of(limit@))->0[j as int] == s[j as int]);
                            assert(self.reports(limit@, c@, now));
                        }
                        let ghost before = res@;
                        res.push(c);
                        proof {
                            let last = res@.len() - 1;
                            assert(res@[last]@ == c@);
                            assert forall|t: int| 0 <= t < j + 1 && (#[trigger] s[t]).value.ttl_spec(now) > 0
                                implies exists|i: int| old(res)@.len() <= i < res@.len() && res@[i]@.limit == limit@
                                    && reports_value(limit@, s[t].value, #[trigger] res@[i]@, now) by {
                                if t == j {
                                    assert(res@[last]@.limit == limit@);
                                } else {
                                    let i = choose|i: int| old(res)@.len() <= i < before.len() && before[i]@.limit == limit@
                                        && reports_value(limit@, s[t].value, #[trigger] before[i]@, now);
                                    assert(res@[i] == before[i]);
                                }
                            }
                        }
                    } else {
                        proof {
                            assert(cands@[j as int]@.expires_in == Some(s[j as int].value.ttl_spec(now)));
                        }
                    }
                    j += 1;
                }
            },
            None => {},
        }
    }

    /// Appends a counter for each qualified limit of `limits` that the cached
    /// set `set`, keyed `qk`, belongs to, where its window is live.
    fn push_qualified_counters(&self, limits: &Vec<Limit>, qk: &QualifiedKey, set: &CounterValueSet, now: u64, res: &mut Vec<Counter>)
        requires
            self.wf(),
            self.model().cached.contains_key(qkey_view(*qk)),
            self.model().cached[qkey_view(*qk)] == set@,
        ensures
            final(res)@.len() >= old(res)@.len(),
            forall|i: int| 0 <= i < old(res)@.len() ==> final(res)@[i] == old(res)@[i],
            forall|i: int| old(res)@.len() <= i < final(res)@.len() ==> self.reported_by(limits@.map_values(|l: Limit| l@), #[trigger] final(res)@[i]@, now),
            forall|a: int| 0 <= a < limits@.len() && #[trigger] self.qualified_live(limits@[a]@, qkey_view(*qk), now)
                ==> exists|i: int| old(res)@.len() <= i < final(res)@.len() && self.reports_cached(limits@[a]@, qkey_view(*qk), #[trigger] final(res)@[i]@, now),
    {
        let ghost lv = limits@.map_values(|l: Limit| l@);
        proof {
            assert(sorted_windows(self.model().cached[qkey_view(*qk)]));
        }
        let mut a: usize = 0;
        while a < limits.len()
            invariant
                self.wf(),
                set.wf(),
                lv == limits@.map_values(|l: Limit| l@),
                self.model().cached.contains_key(qkey_view(*qk)),
                self.model().cached[qkey_view(*qk)] == set@,
                a <= limits@.len(),
                res@.len() >= old(res)@.len(),
                forall|t: int| 0 <= t < old(res)@.len() ==> res@[t] == old(res)@[t],
                forall|t: int| old(res)@.len() <= t < res@.len() ==> self.reported_by(lv, #[trigger] res@[t]@, now),
                forall|b: int| 0 <= b < a && #[trigger] self.qualified_live(limits@[b]@, qkey_view(*qk), now)
                    ==> exists|i: int| old(res)@.len() <= i < res@.len() && self.reports_cached(limits@[b]@, qkey_view(*qk), #[trigger] res@[i]@, now),
            decreases limits@.len() - a,
        {
            let limit = &limits[a];
            let ghost before = res@;
            if !limit.is_simple() {
                let key = CounterValueSetKey::from_limit(limit);
                match self.find_slot(&key) {
                    Some(i) => {
                        if self.limit_windows[i].id == qk.0 {
                            match set.expiring_value_of(limit.window()) {
                                Some(ev) => {
                                    let ttl = ev.ttl(now);
                                    if ttl > 0 {
                                        let c = Counter::with_value(limit.duplicate(), limit.max_value().saturating_sub(ev.value_at(now)), ttl, clone_pairs(&qk.1));
                                        proof {
                                            lemma_key_index(self.model().slots, key@, i as int);
                                            assert(qkey_view(*qk) == (self.limit_windows@[i as int].id, c@.set_variables));
                                            assert(lv[a as int] == limit@);
                                            assert(self.reports(lv[a as int], c@, now));
                                        }
                                        res.push(c);
                                        proof {
                                            assert(res@[res@.len() - 1]@ == c@);
                                            assert(self.reports_cached(limits@[a as int]@, qkey_view(*qk), res@[res@.len() - 1]@, now));
                                        }
                                    }
                                },
                                None => {},
                            }
                        }
                    },
                    None => {},
                }
            }
            proof {
                assert forall|b: int| 0 <= b < a + 1 && #[trigger] self.qualified_live(limits@[b]@, qkey_view(*qk), now)
                    implies exists|i: int| old(res)@.len() <= i < res@.len() && self.reports_cached(limits@[b]@, qkey_view(*qk), #[trigger] res@[i]@, now) by {
                    if b < a {
                        let i = choose|i: int| old(res)@.len() <= i < before.len() && self.reports_cached(limits@[b]@, qkey_view(*qk), #[trigger] before[i]@, now);
                        assert(res@[i] == before[i]);
                    } else {
                        let l = limits@[b]@;
                        let key = key_of(l);
                        let k = key_index(self.model().slots, key);
                        assert((self.model().slots[k].1).0 == self.limit_windows@[k].id);
                        assert(res@.len() == before.len() + 1);
                        assert(self.reports_cached(l, qkey_view(*qk), res@[res@.len() - 1]@, now));
                    }
                }
            }
            a += 1;
        }
    }

    /// The live counters of `limits` at `now`: one per window of each simple
    /// limit's set, and one per cached qualified counter of each qualified
    /// limit; those whose window has expired are left out.
    pub fn get_counters(&mut self, limits: &Vec<Limit>, now: u64) -> (r: Vec<Counter>)
        requires
            old(self).wf(),
        ensures
            final(self).wf(),
            final(self).model() == old(self).model(),
            lists_live_counters(*old(self), limits@.map_values(|l: Limit| l@), r@, now),
    {
        let ghost lv = limits@.map_values(|l: Limit| l@);
        let mut res: Vec<Counter> = Vec::new();
        let mut a: usize = 0;
        while a < limits.len()
            invariant
                self.wf(),
                self.model() == old(self).model(),
                lv == limits@.map_values(|l: Limit| l@),
                a <= limits@.len(),
                forall|i: int| 0 <= i < res@.len() ==> old(self).reported_by(lv, #[trigger] res@[i]@, now),
                forall|b: int, j: int| 0 <= b < a && limits@[b]@.is_simple()
                    && old(self).simple_set(key_of(limits@[b]@)) is Some
                    && 0 <= j < old(self).simple_set(key_of(limits@[b]@))->0.len()
                    && (#[trigger] old(self).simple_set(key_of(limits@[b]@))->0[j]).value.ttl_spec(now) > 0
                    ==> exists|i: int| 0 <= i < res@.len() && res@[i]@.limit == limits@[b]@
                        && reports_value(limits@[b]@, old(self).simple_set(key_of(limits@[b]@))->0[j].value, #[trigger] res@[i]@, now),
            decreases limits@.len() - a,
        {
            if limits[a].is_simple() {
                let ghost before = res@;
                self.push_simple_counters(&limits[a], now, &mut res);
                proof {
                    assert(lv[a as int] == limits@[a as int]@);
                    assert forall|i: int| 0 <= i < res@.len() implies old(self).reported_by(lv, #[trigger] res@[i]@, now) by {
                        if i >= before.len() {
                            assert(old(self).reports(lv[a as int], res@[i]@, now));
                        } else {
                            assert(res@[i] == before[i]);
                        }
                    }
                    assert forall|b: int, j: int| 0 <= b < a + 1 && limits@[b]@.is_simple()
                        && old(self).simple_set(key_of(limits@[b]@)) is Some
                        && 0 <= j < old(self).simple_set(key_of(limits@[b]@))->0.len()
                        && (#[trigger] old(self).simple_set(key_of(limits@[b]@))->0[j]).value.ttl_spec(now) > 0
                        implies exists|i: int| 0 <= i < res@.len() && res@[i]@.limit == limits@[b]@
                            && reports_value(limits@[b]@, old(self).simple_set(key_of(limits@[b]@))->0[j].value, #[trigger] res@[i]@, now) by {
                        if b < a {
                            let i = choose|i: int| 0 <= i < before.len() && before[i]@.limit == limits@[b]@
                                && reports_value(limits@[b]@, old(self).simple_set(key_of(limits@[b]@))->0[j].value, #[trigger] before[i]@, now);
                            assert(res@[i] == before[i]);
                        }
                    }
                }
            }
            a += 1;
        }
        let entries = cache_entries(&mut self.qualified_counters);
        proof {
            assert(self.model() =~= old(self).model());
        }
        let mut k: usize = 0;
        while k < entries.len()
            invariant
                self.wf(),
                self.model() == old(self).model(),
                lv == limits@.map_values(|l: Limit| l@),
                k <= entries@.len(),
                forall|t: int| 0 <= t < entries@.len() ==> self.model().cached.contains_key(#[trigger] qkey_view(entries@[t].0))
                    && self.model().cached[qkey_view(entries@[t].0)] == entries@[t].1@,
                forall|q: (u64, Seq<(Seq<char>, Seq<char>)>)| #[trigger] self.model().cached.contains_key(q)
                    ==> exists|t: int| 0 <= t < entries@.len() && qkey_view(entries@[t].0) == q,
                forall|a: int, t: int| 0 <= a < limits@.len() && 0 <= t < k && #[trigger] old(self).qualified_live(limits@[a]@, qkey_view(entries@[t].0), now)
                    ==> exists|i: int| 0 <= i < res@.len() && old(self).reports_cached(limits@[a]@, qkey_view(entries@[t].0), #[trigger] res@[i]@, now),
                forall|i: int| 0 <= i < res@.len() ==> old(self).reported_by(lv, #[trigger] res@[i]@, now),
                forall|b: int, j: int| 0 <= b < limits@.len() && limits@[b]@.is_simple()
                    && old(self).simple_set(key_of(limits@[b]@)) is Some
                    && 0 <= j < old(self).simple_set(key_of(limits@[b]@))->0.len()
                    && (#[trigger] old(self).simple_set(key_of(limits@[b]@))->0[j]).value.ttl_spec(now) > 0
                    ==> exists|i: int| 0 <= i < res@.len() && res@[i]@.limit == limits@[b]@
                        && reports_value(limits@[b]@, old(self).simple_set(key_of(limits@[b]@))->0[j].value, #[trigger] res@[i]@, now),
            decreases entries@.len() - k,
        {
            let ghost before = res@;
            proof {
                assert(self.model().cached.contains_key(qkey_view(entries@[k as int].0)));
            }
            self.push_qualified_counters(limits, &entries[k].0, &entries[k].1, now, &mut res);
            proof {
                assert forall|i: int| 0 <= i < res@.len() implies old(self).reported_by(lv, #[trigger] res@[i]@, now) by {
                    if i < before.len() {
                        assert(res@[i] == before[i]);
                    }
                }
                assert forall|b: int, j: int| 0 <= b < limits@.len() && limits@[b]@.is_simple()
                    && old(self).simple_set(key_of(limits@[b]@)) is Some
                    && 0 <= j < old(self).simple_set(key_of(limits@[b]@))->0.len()
                    && (#[trigger] old(self).simple_set(key_of(limits@[b]@))->0[j]).value.ttl_spec(now) > 0
                    implies exists|i: int| 0 <= i < res@.len() && res@[i]@.limit == limits@[b]@
                        && reports_value(limits@[b]@, old(self).simple_set(key_of(limits@[b]@))->0[j].value, #[trigger] res@[i]@, now) by {
                    let i = choose|i: int| 0 <= i < before.len() && before[i]@.limit == limits@[b]@
                        && reports_value(limits@[b]@, old(self).simple_set(key_of(limits@[b]@))->0[j].value, #[trigger] before[i]@, now);
                    assert(res@[i] == before[i]);
                }
                assert forall|a: int, t: int| 0 <= a < limits@.len() && 0 <= t < k + 1 && #[trigger] old(self).qualified_live(limits@[a]@, qkey_view(entries@[t].0), now)
                    implies exists|i: int| 0 <= i < res@.len() && old(self).reports_cached(limits@[a]@, qkey_view(entries@[t].0), #[trigger] res@[i]@, now) by {
                    if t < k {
                        let i = choose|i: int| 0 <= i < before.len() && old(self).reports_cached(limits@[a]@, qkey_view(entries@[t].0), #[trigger] before[i]@, now);
                        assert(res@[i] == before[i]);
                    } else {
                        assert(self.qualified_live(limits@[a]@, qkey_view(entries@[k as int].0), now));
                        let i = choose|i: int| before.len() <= i < res@.len() && self.reports_cached(limits@[a]@, qkey_view(entries@[k as int].0), #[trigger] res@[i]@, now);
                    }
                }
            }
            k += 1;
        }
        proof {
            assert forall|a: int, q: (u64, Seq<(Seq<char>, Seq<char>)>)| 0 <= a < limits@.len() && #[trigger] old(self).qualified_live(limits@[a]@, q, now)
                implies exists|i: int| 0 <= i < res@.len() && old(self).reports_cached(limits@[a]@, q, #[trigger] res@[i]@, now) by {
                assert(self.model().cached.contains_key(q));
                let t = choose|t: int| 0 <= t < entries@.len() && qkey_view(entries@[t].0) == q;
                assert(old(self).qualified_live(limits@[a]@, qkey_view(entries@[t].0), now));
            }
            assert forall|i: int| 0 <= i < res@.len() implies old(self).reported_by(lv, #[trigger] res@[i]@, now) by {}
            assert forall|a: int, j: int| 0 <= a < lv.len() && lv[a].is_simple()
                && old(self).simple_set(key_of(lv[a])) is Some
                && 0 <= j < old(self).simple_set(key_of(lv[a]))->0.len()
                && (#[trigger] old(self).simple_set(key_of(lv[a]))->0[j]).value.ttl_spec(now) > 0
                implies exists|i: int| 0 <= i < res@.len() && res@[i]@.limit == lv[a]
                    && reports_value(lv[a], old(self).simple_set(key_of(lv[a]))->0[j].value, #[trigger] res@[i]@, now) by {
                assert(lv[a] == limits@[a]@);
            }
            assert forall|a: int, q: (u64, Seq<(Seq<char>, Seq<char>)>)| 0 <= a < lv.len() && #[trigger] old(self).qualified_live(lv[a], q, now)
                implies exists|i: int| 0 <= i < res@.len() && old(self).reports_cached(lv[a], q, #[trigger] res@[i]@, now) by {
                assert(lv[a] == limits@[a]@);
            }
        }
        res
    }
}

/// Whether counter `i` is the only simple counter of `cs` with its key.
pub open spec fn simple_key_once(cs: Seq<CounterView>, i: int) -> bool {
    forall|j: int| 0 <= j < cs.len() && j != i && !cs[j].is_qualified() ==> key_of((#[trigger] cs[j]).limit) != key_of(cs[i].limit)
}

proof fn lemma_commit_untouched(s: Seq<(KeyView, Seq<CounterValue>)>, cs: Seq<CounterView>, delta: u64, now: u64, k: KeyView)
    requires
        keys_unique(s),
        forall|j: int| 0 <= j < cs.len() && !cs[j].is_qualified() ==> key_of((#[trigger] cs[j]).limit) != k,
    ensures
        entry(commit_simple(s, cs, delta, now), k) == entry(s, k),
    decreases cs.len(),
{
    if cs.len() > 0 {
        let init = cs.drop_last();
        assert forall|j: int| 0 <= j < init.len() && !init[j].is_qualified() implies key_of((#[trigger] init[j]).limit) != k by {
            assert(init[j] == cs[j]);
        }
        lemma_commit_untouched(s, init, delta, now, k);
        let prev = commit_simple(s, init, delta, now);
        lemma_commit_keeps_windows(s, init, delta, now, k, 0);
        let c = cs.last();
        if !c.is_qualified() {
            assert(key_of(cs[cs.len() - 1].limit) != k);
            lemma_update_key_entry(prev, key_of(c.limit), c.limit.seconds, delta, now, k);
        }
    }
}

proof fn lemma_commit_single(s: Seq<(KeyView, Seq<CounterValue>)>, cs: Seq<CounterView>, delta: u64, now: u64, i: int)
    requires
        keys_unique(s),
        0 <= i < cs.len(),
        !cs[i].is_qualified(),
        has_key(s, key_of(cs[i].limit)),
        simple_key_once(cs, i),
    ensures
        entry(commit_simple(s, cs, delta, now), key_of(cs[i].limit)) == Some(
            window_updated(entry(s, key_of(cs[i].limit))->0, cs[i].limit.seconds, delta, now)),
    decreases cs.len(),
{
    let k = key_of(cs[i].limit);
    let init = cs.drop_last();
    let prev = commit_simple(s, init, delta, now);
    lemma_commit_keeps_windows(s, init, delta, now, k, 0);
    if i == cs.len() - 1 {
        assert forall|j: int| 0 <= j < init.len() && !init[j].is_qualified() implies key_of((#[trigger] init[j]).limit) != k by {
            assert(init[j] == cs[j]);
        }
        lemma_commit_untouched(s, init, delta, now, k);
        lemma_update_key_entry(prev, k, cs[i].limit.seconds, delta, now, k);
    } else {
        assert(init[i] == cs[i]);
        assert forall|j: int| 0 <= j < init.len() && j != i && !init[j].is_qualified() implies key_of((#[trigger] init[j]).limit) != key_of(init[i].limit) by {
            assert(init[j] == cs[j]);
        }
        lemma_commit_single(s, init, delta, now, i);
        let c = cs.last();
        if !c.is_qualified() {
            assert(key_of(cs[cs.len() - 1].limit) != k);
            lemma_update_key_entry(prev, key_of(c.limit), c.limit.seconds, delta, now, k);
        }
    }
}

/// Adding `delta` at `now` to a registered window of at least a second, where
/// the window's end does not saturate, makes it read `delta` more.
proof fn lemma_updated_read(s: Seq<CounterValue>, w: u64, delta: u64, now: u64)
    requires
        sorted_windows(s),
        has_window(s, w),
        w >= 1,
        now as int + window_nanos(w) as int <= u64::MAX as int,
    ensures
        window_value(window_updated(s, w, delta, now), w, now) == sat_add(window_value(s, w, now), delta),
{
    let i = window_index(s, w);
    let t = window_updated(s, w, delta, now);
    assert(0 <= i < s.len() && s[i].seconds == w);
    assert forall|a: int, b: int| 0 <= a < b < t.len() implies t[a].seconds < t[b].seconds by {
        assert(s[a].seconds < s[b].seconds);
    }
    lemma_window_index_unique(t, w, i);
}

/// A window reads no more later than it does now.
proof fn lemma_window_value_never_grows(s: Seq<CounterValue>, w: u64, t1: u64, t2: u64)
    requires
        t1 <= t2,
    ensures
        window_value(s, w, t2) <= window_value(s, w, t1),
{
}

impl InMemoryStorage {
    /// A store that holds no counter of limit `l` reports none for it: after
    /// its counters are deleted, asking for them yields nothing.
    pub proof fn lemma_deleted_limit_reports_nothing(s: InMemoryStorage, l: LimitView, c: CounterView, now: u64)
        requires
            s.holds_no_counters_of(l),
        ensures
            !s.reported_by(seq![l], c, now),
    {
        if s.reported_by(seq![l], c, now) {
            let b = choose|b: int| 0 <= b < 1 && s.reports(seq![l][b], c, now);
            assert(seq![l][b] == l);
            if !l.is_simple() {
                let sl = s.slot(key_of(l))->0;
                assert(s.model().cached.contains_key((sl.0, c.set_variables)));
            }
        }
    }

    /// A decision is all or nothing. A refusal leaves every simple counter as
    /// it was and qualified counters as they were or evicted. An allowance
    /// adds `delta` to each simple counter of the batch that is the only one
    /// with its key (windows of at least a second, not ending past the last
    /// representable instant).
    pub proof fn lemma_decision_all_or_nothing(
        s0: InMemoryStorage,
        s1: InMemoryStorage,
        before: Seq<Counter>,
        after: Seq<Counter>,
        delta: u64,
        load: bool,
        now: u64,
        r: Authorization,
    )
        requires
            s0.wf(),
            InMemoryStorage::decision(s0, s1, before, after, delta, load, now, r),
        ensures
            r is Limited ==> forall|c: CounterView, t: u64| !c.is_qualified() ==> #[trigger] s1.read(c, t) == s0.read(c, t),
            r is Limited ==> forall|c: CounterView, t: u64| c.is_qualified() ==> #[trigger] s1.read(c, t) == s0.read(c, t) || s1.read(c, t) == 0,
            r is Allowed ==> forall|i: int| 0 <= i < before.len() && !before[i]@.is_qualified()
                && s0.holds(before[i]@.limit)
                && simple_key_once(counter_views(before), i)
                && before[i]@.limit.seconds >= 1
                && now as int + window_nanos(before[i]@.limit.seconds) as int <= u64::MAX as int
                ==> #[trigger] s1.read(before[i]@, now) == sat_add(s0.read(before[i]@, now), delta),
    {
        if r is Limited {
            assert forall|c: CounterView, t: u64| c.is_qualified() implies #[trigger] s1.read(c, t) == s0.read(c, t) || s1.read(c, t) == 0 by {
                InMemoryStorage::lemma_read_after_evictions(s0, s1, c, t);
            }
        }
        if r is Allowed {
            let cs = counter_views(before);
            assert forall|i: int| 0 <= i < before.len() && !before[i]@.is_qualified()
                && s0.holds(before[i]@.limit)
                && simple_key_once(counter_views(before), i)
                && before[i]@.limit.seconds >= 1
                && now as int + window_nanos(before[i]@.limit.seconds) as int <= u64::MAX as int
                implies #[trigger] s1.read(before[i]@, now) == sat_add(s0.read(before[i]@, now), delta) by {
                let c = before[i]@;
                assert(cs[i] == c);
                let k = key_of(c.limit);
                lemma_commit_single(s0.model().simple, cs, delta, now, i);
                s0.lemma_simple_set_sorted(k);
                lemma_updated_read(s0.simple_set(k)->0, c.limit.seconds, delta, now);
            }
        }
    }

    /// A decision never pushes a counter of its batch past its maximum, now
    /// or later, where the counter is the only simple one of the batch with
    /// its key and was within its maximum (windows of at least a second, not
    /// ending past the last representable instant).
    pub proof fn lemma_decision_keeps_counter_within_max(
        s0: InMemoryStorage,
        s1: InMemoryStorage,
        before: Seq<Counter>,
        after: Seq<Counter>,
        delta: u64,
        load: bool,
        now: u64,
        r: Authorization,
        i: int,
        t: u64,
    )
        requires
            s0.wf(),
            InMemoryStorage::decision(s0, s1, before, after, delta, load, now, r),
            0 <= i < before.len(),
            !before[i]@.is_qualified(),
            s0.holds(before[i]@.limit),
            simple_key_once(counter_views(before), i),
            before[i]@.limit.seconds >= 1,
            now as int + window_nanos(before[i]@.limit.seconds) as int <= u64::MAX as int,
            s0.read(before[i]@, now) <= before[i]@.limit.max_value,
            now <= t,
        ensures
            s1.read(before[i]@, t) <= before[i]@.limit.max_value,
    {
        let c = before[i]@;
        InMemoryStorage::lemma_decision_all_or_nothing(s0, s1, before, after, delta, load, now, r);
        match s1.counter_set(c) {
            Some(st) => lemma_window_value_never_grows(st, c.limit.seconds, now, t),
            None => {},
        }
        match s0.counter_set(c) {
            Some(st) => lemma_window_value_never_grows(st, c.limit.seconds, now, t),
            None => {},
        }
        if r is Allowed {
            let reads = choose|reads: Seq<u64>| {
                &&& reads.len() == before.len()
                &&& forall|j: int| 0 <= j < reads.len() ==> (#[trigger] reads[j] == s0.read(before[j]@, now)
                    || (before[j]@.is_qualified() && reads[j] == 0))
                &&& decided(counter_views(before), reads, delta, r)
                &&& load ==> loaded(counter_views(before), counter_views(after), reads, delta)
            };
            assert(reads[i] == s0.read(c, now));
            assert(counter_views(before)[i] == c);
            assert(!exceeds(c, reads[i], delta));
            assert(s1.read(before[i]@, now) == sat_add(s0.read(before[i]@, now), delta));
            assert(s1.read(c, now) <= c.limit.max_value);
        } else {
            assert(s1.read(c, t) == s0.read(c, t));
        }
    }
}

} // verus!
