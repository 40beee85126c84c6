//! The registry of limits, the decision result and the store's error.

use vstd::prelude::*;
use crate::clock::now_nanos;
use crate::counter::{Counter, CounterView};
use crate::in_memory::{lists_live_counters, update_effect, InMemoryStorage};
use crate::keys::{key_of, same_limit, KeyView};
use crate::limit::{opt_view, Limit, LimitView};

verus! {

/// The outcome of a decision.
#[derive(Debug)]
pub enum Authorization {
    /// Allowed; the counters were updated.
    Allowed,
    /// Refused; carries the name of the first limit that was exceeded.
    Limited(Option<String>),
}

impl Authorization {
    /// The name carried by a refusal, as a value.
    pub open spec fn limited_name(self) -> Option<Seq<char>> {
        match self {
            Authorization::Limited(n) => opt_view(n),
            Authorization::Allowed => None,
        }
    }
}

/// An error of a counter store; `transient` marks one worth retrying.
#[derive(Debug)]
pub struct StorageErr {
    msg: String,
    transient: bool,
}

impl StorageErr {
    pub closed spec fn msg_view(&self) -> Seq<char> {
        self.msg@
    }

    pub closed spec fn transient_view(&self) -> bool {
        self.transient
    }

    pub fn new(msg: String, transient: bool) -> (r: StorageErr)
        ensures
            r.msg_view() == msg@,
            r.transient_view() == transient,
    {
        StorageErr { msg, transient }
    }

    pub fn msg(&self) -> (r: &String)
        ensures
            r@ == self.msg_view(),
    {
        &self.msg
    }

    pub fn is_transient(&self) -> (r: bool)
        ensures
            r == self.transient_view(),
    {
        self.transient
    }
}

impl PartialEq for StorageErr {
    fn eq(&self, other: &StorageErr) -> (r: bool)
        ensures
            r == (self.msg_view() == other.msg_view()),
    {
        self.msg == other.msg
    }
}

impl vstd::std_specs::cmp::PartialEqSpecImpl for StorageErr {
    open spec fn obeys_eq_spec() -> bool {
        true
    }

    open spec fn eq_spec(&self, other: &StorageErr) -> bool {
        self.msg_view() == other.msg_view()
    }
}

/// Whether a limit among the first `i` of `ls` belongs to namespace `ns`.
pub open spec fn ns_in_prefix(ls: Seq<LimitView>, i: int, ns: Seq<char>) -> bool {
    exists|k: int| 0 <= k < i && ls[k].namespace == ns
}

/// Whether `ns` is one of `r`.
pub open spec fn listed(r: Seq<String>, ns: Seq<char>) -> bool {
    exists|t: int| 0 <= t < r.len() && r[t]@ == ns
}

/// Whether `x` is a limit of `ls` in namespace `ns`.
pub open spec fn drawn_from(x: LimitView, ls: Seq<LimitView>, ns: Seq<char>) -> bool {
    exists|j: int| 0 <= j < ls.len() && ls[j] == x && ls[j].namespace == ns
}

/// Whether some limit of `rs` is `x`.
pub open spec fn listed_limit(rs: Seq<Limit>, x: LimitView) -> bool {
    exists|t: int| 0 <= t < rs.len() && rs[t]@ == x
}

/// The limits of `ls` in namespace `ns`, in order.
pub open spec fn limits_in(ls: Seq<LimitView>, ns: Seq<char>) -> Seq<LimitView> {
    ls.filter(|l: LimitView| l.namespace == ns)
}

/// Whether some limit of `ls` has key `k`.
pub open spec fn key_registered(ls: Seq<LimitView>, k: KeyView) -> bool {
    exists|i: int| 0 <= i < ls.len() && key_of(ls[i]) == k
}

/// The namespaces that some limit of `ls` belongs to.
pub open spec fn namespaces_of(ls: Seq<LimitView>) -> Set<Seq<char>> {
    Set::new(|ns: Seq<char>| exists|i: int| 0 <= i < ls.len() && ls[i].namespace == ns)
}

fn same_opt(a: &Option<String>, b: &Option<String>) -> (r: bool)
    ensures
        r == (opt_view(*a) == opt_view(*b)),
{
    match (a, b) {
        (Some(x), Some(y)) => *x == *y,
        (None, None) => true,
        _ => false,
    }
}

/// The registry of limits, by namespace, over the counter store. A limit is
/// registered once: its key is unique among the registered limits, and the
/// store can count for each of them.
pub struct Storage {
    limits: Vec<Limit>,
    counters: InMemoryStorage,
}

impl Storage {
    /// The registered limits.
    pub closed spec fn limits_view(&self) -> Seq<LimitView> {
        self.limits@.map_values(|l: Limit| l@)
    }

    /// The counter store.
    pub closed spec fn store(&self) -> InMemoryStorage {
        self.counters
    }

    pub open spec fn wf(&self) -> bool {
        &&& self.store().wf()
        &&& forall|i: int, j: int| 0 <= i < j < self.limits_view().len() ==> key_of(self.limits_view()[i]) != key_of(self.limits_view()[j])
        &&& forall|i: int| 0 <= i < self.limits_view().len() ==> self.store().holds(#[trigger] self.limits_view()[i])
    }

    /// An empty registry over an in-memory store whose cache holds up to
    /// `cache_size` qualified counter sets.
    pub fn new(cache_size: u64) -> (r: Storage)
        ensures
            r.wf(),
            r.limits_view().len() == 0,
    {
        Storage::with_counter_storage(InMemoryStorage::new(cache_size))
    }

    /// An empty registry over `counters`.
    pub fn with_counter_storage(counters: InMemoryStorage) -> (r: Storage)
        requires
            counters.wf(),
        ensures
            r.wf(),
            r.limits_view().len() == 0,
            r.store() == counters,
    {
        let r = Storage { limits: Vec::new(), counters };
        proof {
            assert(r.limits_view().len() == 0);
        }
        r
    }

    /// The namespaces that have limits, each once.
    pub fn get_namespaces(&self) -> (r: Vec<String>)
        ensures
            forall|ns: Seq<char>| namespaces_of(self.limits_view()).contains(ns) == listed(r@, ns),
            forall|i: int, j: int| 0 <= i < j < r@.len() ==> r@[i]@ != r@[j]@,
    {
        let ghost lv = self.limits_view();
        let mut r: Vec<String> = Vec::new();
        let mut i: usize = 0;
        while i < self.limits.len()
            invariant
                i <= self.limits@.len(),
                lv == self.limits_view(),
                forall|ns: Seq<char>| ns_in_prefix(lv, i as int, ns) == listed(r@, ns),
                forall|a: int, b: int| 0 <= a < b < r@.len() ==> r@[a]@ != r@[b]@,
            decreases self.limits@.len() - i,
        {
            let ns = self.limits[i].namespace();
            let mut seen = false;
            let mut t: usize = 0;
            while t < r.len()
                invariant
                    t <= r@.len(),
                    seen == exists|u: int| 0 <= u < t && r@[u]@ == ns@,
                decreases r@.len() - t,
            {
                if r[t] == *ns {
                    seen = true;
                }
                t += 1;
            }
            proof {
                assert(lv[i as int] == self.limits@[i as int]@);
            }
            let ghost r0 = r@;
            if !seen {
                r.push(ns.clone());
            }
            proof {
                assert forall|x: Seq<char>| ns_in_prefix(lv, i + 1, x) == listed(r@, x) by {
                    if ns_in_prefix(lv, i + 1, x) {
                        let k = choose|k: int| 0 <= k < i + 1 && lv[k].namespace == x;
                        if k == i {
                            if seen {
                                let u = choose|u: int| 0 <= u < r@.len() && r@[u]@ == ns@;
                                assert(r@[u]@ == x);
                            } else {
                                assert(r@[r@.len() - 1]@ == x);
                            }
                        } else {
                            assert(ns_in_prefix(lv, i as int, x));
                            let t = choose|t: int| 0 <= t < r0.len() && r0[t]@ == x;
                            assert(r@[t] == r0[t]);
                        }
                    }
                    if listed(r@, x) {
                        let t = choose|t: int| 0 <= t < r@.len() && r@[t]@ == x;
                        if !seen && t == r@.len() - 1 {
                            assert(lv[i as int].namespace == x);
                        } else {
                            assert(r@[t] == r0[t]);
                            assert(listed(r0, x));
                        }
                    }
                }
                assert forall|a: int, b: int| 0 <= a < b < r@.len() implies r@[a]@ != r@[b]@ by {
                    if !seen && b == r@.len() - 1 {
                        assert(r@[a] == r0[a]);
                    }
                }
            }
            i += 1;
        }
        proof {
            assert forall|ns: Seq<char>| namespaces_of(lv).contains(ns) == listed(r@, ns) by {
                assert(ns_in_prefix(lv, lv.len() as int, ns) == listed(r@, ns));
            }
        }
        r
    }

    /// The position of the registered limit of `limit`'s key, if any.
    fn find_limit(&self, limit: &Limit) -> (r: Option<usize>)
        requires
            self.wf(),
        ensures
            r is Some <==> key_registered(self.limits_view(), key_of(limit@)),
            r is Some ==> r->0 < self.limits_view().len() && key_of(self.limits_view()[r->0 as int]) == key_of(limit@),
    {
        let mut i: usize = 0;
        while i < self.limits.len()
            invariant
                i <= self.limits@.len(),
                forall|k: int| 0 <= k < i ==> key_of(#[trigger] self.limits_view()[k]) != key_of(limit@),
            decreases self.limits@.len() - i,
        {
            proof {
                assert(self.limits_view()[i as int] == self.limits@[i as int]@);
            }
            if same_limit(&self.limits[i], limit) {
                return Some(i);
            }
            i += 1;
        }
        None
    }

    /// Registers `limit` and gives the store its counters. Returns whether it
    /// was newly registered: a limit of the same key is not registered twice,
    /// and registering again changes nothing in the store.
    pub fn add_limit(&mut self, limit: Limit) -> (r: bool)
        requires
            old(self).wf(),
        ensures
            final(self).wf(),
            r == (!key_registered(old(self).limits_view(), key_of(limit@))
                && !(!limit@.is_simple() && old(self).store().slot(key_of(limit@)) is None && old(self).store().model().next_id == u64::MAX)),
            r ==> final(self).limits_view() == old(self).limits_view().push(limit@),
            !r ==> final(self).limits_view() == old(self).limits_view(),
            !(!limit@.is_simple() && old(self).store().slot(key_of(limit@)) is None && old(self).store().model().next_id == u64::MAX)
                ==> final(self).store().holds_window(limit@),
            old(self).store().holds_window(limit@) ==> final(self).store().model() == old(self).store().model(),
    {
        let ghost lv0 = self.limits_view();
        match self.counters.add_counter(&limit) {
            Err(_) => {
                proof {
                    assert(self.limits_view() == lv0);
                    assert forall|i: int| 0 <= i < self.limits_view().len() implies self.store().holds(#[trigger] self.limits_view()[i]) by {
                        assert(old(self).store().holds(self.limits_view()[i]));
                    }
                    if key_registered(lv0, key_of(limit@)) {
                        let i = choose|i: int| 0 <= i < lv0.len() && key_of(lv0[i]) == key_of(limit@);
                        assert(old(self).store().holds(lv0[i]));
                    }
                }
                false
            },
            Ok(()) => {
                proof {
                    assert forall|i: int| 0 <= i < self.limits_view().len() implies self.store().holds(#[trigger] self.limits_view()[i]) by {
                        let l = self.limits_view()[i];
                        assert(old(self).store().holds(l));
                        if key_of(l) == key_of(limit@) {
                            if l.is_simple() != limit@.is_simple() {
                                if l.is_simple() {
                                    assert(self.store().simple_set(key_of(l)) == old(self).store().simple_set(key_of(l)));
                                } else {
                                    assert(self.store().slot(key_of(l)) is Some);
                                }
                            } else if l.is_simple() {
                                let s0 = old(self).store().simple_set(key_of(l))->0;
                                old(self).store().lemma_simple_set_sorted(key_of(l));
                                crate::counter_set::lemma_window_added(s0, limit@.seconds);
                            }
                        }
                    }
                }
                match self.find_limit(&limit) {
                    Some(_) => false,
                    None => {
                        self.limits.push(limit);
                        proof {
                            assert(self.limits_view() =~= lv0.push(self.limits@[self.limits@.len() - 1]@));
                        }
                        true
                    },
                }
            },
        }
    }
    /// The registered limits of `namespace`, in registration order.
    pub fn get_limits(&self, namespace: &str) -> (r: Vec<Limit>)
        ensures
            r@.map_values(|l: Limit| l@) == limits_in(self.limits_view(), namespace@),
    {
        let ghost lv = self.limits_view();
        let ghost pred = |l: LimitView| l.namespace == namespace@;
        let ns = namespace.to_string();
        let mut r: Vec<Limit> = Vec::new();
        let mut i: usize = 0;
        proof {
            assert(lv.subrange(0, 0) =~= Seq::<LimitView>::empty());
            assert(r@.map_values(|l: Limit| l@) =~= Seq::<LimitView>::empty());
            assert(Seq::<LimitView>::empty().filter(pred) =~= Seq::<LimitView>::empty()) by {
                Seq::<LimitView>::empty().lemma_filter_len(pred);
            }
        }
        while i < self.limits.len()
            invariant
                i <= self.limits@.len(),
                lv == self.limits_view(),
                ns@ == namespace@,
                pred == (|l: LimitView| l.namespace == namespace@),
                r@.map_values(|l: Limit| l@) == lv.subrange(0, i as int).filter(pred),
            decreases self.limits@.len() - i,
        {
            let ghost before = r@;
            proof {
                assert(lv.subrange(0, i + 1) =~= lv.subrange(0, i as int).push(lv[i as int]));
                lv.subrange(0, i as int).lemma_filter_push(lv[i as int], pred);
                assert(lv[i as int] == self.limits@[i as int]@);
            }
            if *self.limits[i].namespace() == ns {
                r.push(self.limits[i].duplicate());
                proof {
                    assert(r@.map_values(|l: Limit| l@) =~= before.map_values(|l: Limit| l@).push(lv[i as int]));
                }
            }
            i += 1;
        }
        proof {
            assert(lv.subrange(0, lv.len() as int) =~= lv);
        }
        r
    }

    /// Replaces the registered limit of `update`'s key in `update`'s
    /// namespace where its maximum or name differs. No count is reset: the
    /// store changes only where it lacks `update`'s window, which it then
    /// registers fresh. Returns whether the limit was replaced.
    pub fn update_limit(&mut self, update: &Limit) -> (r: bool)
        requires
            old(self).wf(),
        ensures
            final(self).wf(),
            r ==> exists|i: int| 0 <= i < old(self).limits_view().len()
                && key_of(old(self).limits_view()[i]) == key_of(update@)
                && old(self).limits_view()[i].namespace == update@.namespace
                && (old(self).limits_view()[i].max_value != update@.max_value || old(self).limits_view()[i].name != update@.name)
                && final(self).limits_view() == old(self).limits_view().update(i, update@),
            !r ==> final(self).limits_view() == old(self).limits_view(),
            (exists|i: int| 0 <= i < old(self).limits_view().len()
                && key_of(old(self).limits_view()[i]) == key_of(update@)
                && old(self).limits_view()[i].namespace == update@.namespace
                && (old(self).limits_view()[i].max_value != update@.max_value || old(self).limits_view()[i].name != update@.name))
                && !(!update@.is_simple() && old(self).store().slot(key_of(update@)) is None && old(self).store().model().next_id == u64::MAX)
                ==> r,
            !r ==> final(self).store().model() == old(self).store().model(),
            old(self).store().holds_window(update@) ==> final(self).store().model() == old(self).store().model(),
            final(self).store().model().cached == old(self).store().model().cached,
            forall|k: KeyView| k != key_of(update@) ==> #[trigger] final(self).store().simple_set(k) == old(self).store().simple_set(k),
            update@.is_simple() && r ==> final(self).store().simple_set(key_of(update@)) == Some(crate::counter_set::window_added(
                match old(self).store().simple_set(key_of(update@)) { Some(st) => st, None => Seq::empty() },
                update@.seconds,
            )),
    {
        let ghost lv0 = self.limits_view();
        match self.find_limit(update) {
            Some(i) => {
                proof {
                    assert(lv0[i as int] == self.limits@[i as int]@);
                }
                let differs = self.limits[i].max_value() != update.max_value() || !same_opt(self.limits[i].name(), update.name());
                if !(*self.limits[i].namespace() == *update.namespace()) || !differs {
                    proof {
                        assert forall|j: int| 0 <= j < lv0.len() && key_of(lv0[j]) == key_of(update@) implies j == i by {
                            if j != i {
                                if j < i {
                                    assert(key_of(lv0[j]) != key_of(lv0[i as int]));
                                } else {
                                    assert(key_of(lv0[i as int]) != key_of(lv0[j]));
                                }
                            }
                        }
                    }
                    return false;
                }
                match self.counters.add_counter(update) {
                    Err(_) => {
                        proof {
                            assert forall|j: int| 0 <= j < self.limits_view().len() implies self.store().holds(#[trigger] self.limits_view()[j]) by {
                                assert(old(self).store().holds(self.limits_view()[j]));
                            }
                        }
                        false
                    },
                    Ok(()) => {
                        let ghost mid = self.counters;
                        self.limits.set(i, update.duplicate());
                        proof {
                            assert(self.limits_view() =~= lv0.update(i as int, update@));
                            assert forall|j: int| 0 <= j < self.limits_view().len() implies self.store().holds(#[trigger] self.limits_view()[j]) by {
                                if j == i {
                                    assert(mid.holds_window(update@));
                                } else {
                                    let l = lv0[j];
                                    assert(old(self).store().holds(l));
                                    assert(key_of(l) != key_of(lv0[i as int]));
                                    assert(mid.slot(key_of(l)) == old(self).store().slot(key_of(l)));
                                    assert(mid.simple_set(key_of(l)) == old(self).store().simple_set(key_of(l)));
                                }
                            }
                            assert forall|a: int, b: int| 0 <= a < b < self.limits_view().len() implies key_of(self.limits_view()[a]) != key_of(self.limits_view()[b]) by {
                                assert(key_of(lv0[a]) != key_of(lv0[b]));
                            }
                        }
                        true
                    },
                }
            },
            None => false,
        }
    }

    /// Unregisters the limit of `limit`'s key in `limit`'s namespace and
    /// deletes its counters; where no limit of that key is registered,
    /// deletes the counters of `limit` itself. A limit of that key registered
    /// in another namespace keeps its counters.
    pub fn delete_limit(&mut self, limit: &Limit) -> (r: Result<(), StorageErr>)
        requires
            old(self).wf(),
        ensures
            final(self).wf(),
            r is Ok,
            (exists|i: int| 0 <= i < old(self).limits_view().len()
                && key_of(old(self).limits_view()[i]) == key_of(limit@)
                && old(self).limits_view()[i].namespace == limit@.namespace
                && final(self).limits_view() == old(self).limits_view().remove(i)
                && final(self).store().holds_no_counters_of(old(self).limits_view()[i]))
            || (!key_registered(old(self).limits_view(), key_of(limit@))
                && final(self).limits_view() == old(self).limits_view()
                && final(self).store().holds_no_counters_of(limit@))
            || (exists|i: int| 0 <= i < old(self).limits_view().len()
                && key_of(old(self).limits_view()[i]) == key_of(limit@)
                && old(self).limits_view()[i].namespace != limit@.namespace
                && final(self).limits_view() == old(self).limits_view()
                && final(self).store() == old(self).store()),
    {
        let ghost lv0 = self.limits_view();
        match self.find_limit(limit) {
            Some(i) => {
                proof {
                    assert(lv0[i as int] == self.limits@[i as int]@);
                }
                if !(*self.limits[i].namespace() == *limit.namespace()) {
                    return Ok(());
                }
                let list = vec![self.limits[i].duplicate()];
                proof {
                    assert(list@[0]@ == lv0[i as int]);
                }
                self.counters.delete_counters(&list);
                let _ = self.limits.remove(i);
                proof {
                    assert(self.limits_view() =~= lv0.remove(i as int));
                    assert forall|j: int| 0 <= j < self.limits_view().len() implies self.store().holds(#[trigger] self.limits_view()[j]) by {
                        let j2 = if j < i { j } else { j + 1 };
                        let l = lv0[j2];
                        assert(self.limits_view()[j] == l);
                        assert(old(self).store().holds(l));
                        assert(key_of(l) != key_of(lv0[i as int])) by {
                            if j2 < i {
                                assert(key_of(lv0[j2]) != key_of(lv0[i as int]));
                            } else {
                                assert(key_of(lv0[i as int]) != key_of(lv0[j2]));
                            }
                        }
                        assert(forall|t: int| 0 <= t < list@.len() ==> key_of(l) != key_of(#[trigger] list@[t]@));
                    }
                    assert forall|a: int, b: int| 0 <= a < b < self.limits_view().len() implies key_of(self.limits_view()[a]) != key_of(self.limits_view()[b]) by {
                        let a2 = if a < i { a } else { a + 1 };
                        let b2 = if b < i { b } else { b + 1 };
                        assert(key_of(lv0[a2]) != key_of(lv0[b2]));
                    }
                    assert(self.store().holds_no_counters_of(list@[0]@));
                }
            },
            None => {
                let list = vec![limit.duplicate()];
                proof {
                    assert(list@[0]@ == limit@);
                }
                self.counters.delete_counters(&list);
                proof {
                    assert forall|j: int| 0 <= j < self.limits_view().len() implies self.store().holds(#[trigger] self.limits_view()[j]) by {
                        let l = lv0[j];
                        assert(old(self).store().holds(l));
                        if key_of(l) == key_of(limit@) {
                            assert(key_registered(lv0, key_of(limit@)));
                        }
                        assert(forall|t: int| 0 <= t < list@.len() ==> key_of(l) != key_of(#[trigger] list@[t]@));
                    }
                    assert(self.store().holds_no_counters_of(list@[0]@));
                }
            },
        }
        Ok(())
    }
    /// The limits of `namespace` (copies), and the others.
    fn partition(&self, namespace: &str) -> (r: (Vec<Limit>, Vec<Limit>))
        ensures
            r.1@.map_values(|l: Limit| l@) == self.limits_view().filter(|l: LimitView| l.namespace != namespace@),
            forall|t: int| 0 <= t < r.0@.len() ==> drawn_from((#[trigger] r.0@[t])@, self.limits_view(), namespace@),
            forall|j: int| 0 <= j < self.limits_view().len() && self.limits_view()[j].namespace == namespace@
                ==> listed_limit(r.0@, #[trigger] self.limits_view()[j]),
    {
        let ghost lv0 = self.limits_view();
        let ghost keep_pred = |l: LimitView| l.namespace != namespace@;
        let ns = namespace.to_string();
        let mut doomed: Vec<Limit> = Vec::new();
        let mut kept: Vec<Limit> = Vec::new();
        let mut i: usize = 0;
        proof {
            assert(lv0.subrange(0, 0) =~= Seq::<LimitView>::empty());
            assert(kept@.map_values(|l: Limit| l@) =~= Seq::<LimitView>::empty());
            assert(Seq::<LimitView>::empty().filter(keep_pred) =~= Seq::<LimitView>::empty()) by {
                Seq::<LimitView>::empty().lemma_filter_len(keep_pred);
            }
        }
        while i < self.limits.len()
            invariant
                lv0 == self.limits_view(),
                i <= self.limits@.len(),
                ns@ == namespace@,
                keep_pred == (|l: LimitView| l.namespace != namespace@),
                kept@.map_values(|l: Limit| l@) == lv0.subrange(0, i as int).filter(keep_pred),
                forall|t: int| 0 <= t < doomed@.len() ==> exists|j: int| 0 <= j < i && (#[trigger] doomed@[t])@ == lv0[j] && lv0[j].namespace == namespace@,
                forall|j: int| 0 <= j < i && lv0[j].namespace == namespace@ ==> exists|t: int| 0 <= t < doomed@.len() && (#[trigger] doomed@[t])@ == lv0[j],
            decreases self.limits@.len() - i,
        {
            let ghost before = kept@;
            let ghost dbefore = doomed@;
            proof {
                assert(lv0.subrange(0, i + 1) =~= lv0.subrange(0, i as int).push(lv0[i as int]));
                lv0.subrange(0, i as int).lemma_filter_push(lv0[i as int], keep_pred);
                assert(lv0[i as int] == self.limits@[i as int]@);
            }
            if *self.limits[i].namespace() == ns {
                doomed.push(self.limits[i].duplicate());
                proof {
                    assert forall|t: int| 0 <= t < doomed@.len() implies exists|j: int| 0 <= j < i + 1 && (#[trigger] doomed@[t])@ == lv0[j] && lv0[j].namespace == namespace@ by {
                        if t < dbefore.len() {
                            assert(doomed@[t] == dbefore[t]);
                        } else {
                            assert(doomed@[t]@ == lv0[i as int]);
                        }
                    }
                    assert forall|j: int| 0 <= j < i + 1 && lv0[j].namespace == namespace@ implies exists|t: int| 0 <= t < doomed@.len() && (#[trigger] doomed@[t])@ == lv0[j] by {
                        if j < i {
                            let t = choose|t: int| 0 <= t < dbefore.len() && (#[trigger] dbefore[t])@ == lv0[j];
                            assert(doomed@[t] == dbefore[t]);
                        } else {
                            assert(doomed@[dbefore.len() as int]@ == lv0[j]);
                        }
                    }
                }
            } else {
                kept.push(self.limits[i].duplicate());
                proof {
                    assert(kept@.map_values(|l: Limit| l@) =~= before.map_values(|l: Limit| l@).push(lv0[i as int]));
                }
            }
            i += 1;
        }
        proof {
            assert(lv0.subrange(0, lv0.len() as int) =~= lv0);
            assert(i == lv0.len());
        }
        let r = (doomed, kept);
        proof {
            assert forall|t: int| 0 <= t < r.0@.len() implies drawn_from((#[trigger] r.0@[t])@, lv0, namespace@) by {
                assert(r.0@[t] == doomed@[t]);
                let j = choose|j: int| 0 <= j < i && (#[trigger] doomed@[t])@ == lv0[j] && lv0[j].namespace == namespace@;
                assert(0 <= j < lv0.len() && lv0[j] == r.0@[t]@);
            }
            assert forall|j: int| 0 <= j < lv0.len() && lv0[j].namespace == namespace@
                implies listed_limit(r.0@, #[trigger] lv0[j]) by {
                let t = choose|t: int| 0 <= t < doomed@.len() && (#[trigger] doomed@[t])@ == lv0[j];
                assert(r.0@[t] == doomed@[t]);
            }
        }
        r
    }

    /// Unregisters every limit of `namespace` and deletes their counters.
    pub fn delete_limits(&mut self, namespace: &str) -> (r: Result<(), StorageErr>)
        requires
            old(self).wf(),
        ensures
            final(self).wf(),
            r is Ok,
            final(self).limits_view() == old(self).limits_view().filter(|l: LimitView| l.namespace != namespace@),
            forall|i: int| 0 <= i < old(self).limits_view().len() && old(self).limits_view()[i].namespace == namespace@
                ==> final(self).store().holds_no_counters_of(#[trigger] old(self).limits_view()[i]),
    {
        let ghost lv0 = self.limits_view();
        let ghost keep_pred = |l: LimitView| l.namespace != namespace@;
        let (doomed, kept) = self.partition(namespace);
        self.counters.delete_counters(&doomed);
        self.limits = kept;
        proof {
            let kv = self.limits_view();
            assert(kv == lv0.filter(keep_pred));
            assert forall|j: int| 0 <= j < kv.len() implies self.store().holds(#[trigger] kv[j]) by {
                assert(kv.contains(kv[j]));
                lv0.lemma_filter_contains_rev(keep_pred, kv[j]);
                let a = choose|a: int| 0 <= a < lv0.len() && lv0[a] == kv[j];
                lv0.lemma_filter_pred(keep_pred, j);
                assert(old(self).store().holds(lv0[a]));
                assert forall|t: int| 0 <= t < doomed@.len() implies key_of(kv[j]) != key_of(#[trigger] doomed@[t]@) by {
                    assert(drawn_from(doomed@[t]@, lv0, namespace@));
                    let b = choose|b: int| 0 <= b < lv0.len() && lv0[b] == doomed@[t]@ && lv0[b].namespace == namespace@;
                    assert(a != b);
                    if a < b {
                        assert(key_of(lv0[a]) != key_of(lv0[b]));
                    } else {
                        assert(key_of(lv0[b]) != key_of(lv0[a]));
                    }
                }
            }
            assert forall|a: int, b: int| 0 <= a < b < kv.len() implies key_of(kv[a]) != key_of(kv[b]) by {
                lemma_filter_keys_unique(lv0, keep_pred, a, b);
            }
            assert forall|j: int| 0 <= j < lv0.len() && lv0[j].namespace == namespace@
                implies self.store().holds_no_counters_of(#[trigger] lv0[j]) by {
                assert(listed_limit(doomed@, lv0[j]));
                let t = choose|t: int| 0 <= t < doomed@.len() && doomed@[t]@ == lv0[j];
                assert(self.store().holds_no_counters_of(doomed@[t]@));
            }
        }
        Ok(())
    }

    /// Whether `delta` more fits under the maximum of `counter` now.
    pub fn is_within_limits(&mut self, counter: &Counter, delta: u64) -> (r: Result<bool, StorageErr>)
        requires
            old(self).wf(),
        ensures
            final(self).wf(),
            final(self).limits_view() == old(self).limits_view(),
            r is Ok,
            exists|now: u64| r->Ok_0 == (old(self).store().read(counter@, now) + delta <= counter@.limit.max_value),
            final(self).store().model().simple == old(self).store().model().simple,
            final(self).store().model().slots == old(self).store().model().slots,
            final(self).store().model().cached.submap_of(old(self).store().model().cached),
    {
        let now = now_nanos();
        let ok = self.is_within_limits_at(counter, delta, now);
        Ok(ok)
    }

    /// Whether `delta` more fits under the maximum of `counter` at `now`.
    pub fn is_within_limits_at(&mut self, counter: &Counter, delta: u64, now: u64) -> (r: bool)
        requires
            old(self).wf(),
        ensures
            final(self).wf(),
            final(self).limits_view() == old(self).limits_view(),
            r == (old(self).store().read(counter@, now) + delta <= counter@.limit.max_value),
            final(self).store().model().simple == old(self).store().model().simple,
            final(self).store().model().slots == old(self).store().model().slots,
            final(self).store().model().cached.submap_of(old(self).store().model().cached),
    {
        let ghost lv0 = self.limits_view();
        let ok = self.counters.is_within_limits(counter, delta, now);
        proof {
            assert(self.limits_view() == lv0);
            assert forall|i: int| 0 <= i < self.limits_view().len() implies self.store().holds(#[trigger] self.limits_view()[i]) by {
                assert(old(self).store().holds(self.limits_view()[i]));
            }
        }
        ok
    }

    /// Adds `delta` to `counter` now, without any check. The store must hold
    /// the counter's limit.
    pub fn update_counter(&mut self, counter: &Counter, delta: u64) -> (r: Result<(), StorageErr>)
        requires
            old(self).wf(),
            old(self).store().holds(counter@.limit),
        ensures
            final(self).wf(),
            final(self).limits_view() == old(self).limits_view(),
            r is Ok,
            exists|now: u64| #[trigger] update_effect(old(self).store(), final(self).store(), counter@, delta, now),
            final(self).store().model().slots == old(self).store().model().slots,
    {
        let now = now_nanos();
        let ghost lv0 = self.limits_view();
        self.counters.update_counter(counter, delta, now);
        proof {
            assert(update_effect(old(self).store(), self.store(), counter@, delta, now));
            assert(self.limits_view() == lv0);
            assert forall|i: int| 0 <= i < self.limits_view().len() implies self.store().holds(#[trigger] self.limits_view()[i]) by {
                let l = self.limits_view()[i];
                assert(old(self).store().holds(l));
                if l.is_simple() && !counter@.is_qualified() && key_of(l) == key_of(counter@.limit) {
                    crate::in_memory::lemma_window_updated_keeps_windows(old(self).store().simple_set(key_of(l))->0, counter@.limit.seconds, delta, now, l.seconds);
                }
            }
        }
        Ok(())
    }

    /// The decision protocol on `counters` now; see
    /// `InMemoryStorage::decision`. The store must hold each counter's limit.
    pub fn check_and_update(&mut self, counters: &mut Vec<Counter>, delta: u64, load_counters: bool) -> (r: Result<Authorization, StorageErr>)
        requires
            old(self).wf(),
            forall|i: int| 0 <= i < old(counters)@.len() ==> old(self).store().holds(#[trigger] old(counters)@[i]@.limit),
        ensures
            final(self).wf(),
            final(self).limits_view() == old(self).limits_view(),
            r is Ok,
            exists|now: u64| InMemoryStorage::decision(old(self).store(), final(self).store(), old(counters)@, final(counters)@, delta, load_counters, now, r->Ok_0),
    {
        let now = now_nanos();
        let ghost lv0 = self.limits_view();
        let a = self.counters.check_and_update(counters, delta, load_counters, now);
        proof {
            assert(InMemoryStorage::decision(old(self).store(), self.store(), old(counters)@, counters@, delta, load_counters, now, a));

            assert(self.limits_view() == lv0);
            assert forall|i: int| 0 <= i < self.limits_view().len() implies self.store().holds(#[trigger] self.limits_view()[i]) by {
                InMemoryStorage::lemma_holds_after_decision(old(self).store(), self.store(), old(counters)@, counters@, delta, load_counters, now, a, self.limits_view()[i]);
            }
        }
        let r: Result<Authorization, StorageErr> = Ok(a);
        proof {
            assert(InMemoryStorage::decision(old(self).store(), self.store(), old(counters)@, counters@, delta, load_counters, now, r->Ok_0));
        }
        r
    }

    /// The live counters of the limits of `namespace`, now.
    pub fn get_counters(&mut self, namespace: &str) -> (r: Result<Vec<Counter>, StorageErr>)
        requires
            old(self).wf(),
        ensures
            final(self).wf(),
            final(self).limits_view() == old(self).limits_view(),
            final(self).store().model() == old(self).store().model(),
            r is Ok,
            exists|now: u64| #[trigger] lists_live_counters(old(self).store(), limits_in(old(self).limits_view(), namespace@), r->Ok_0@, now),
    {
        let limits = self.get_limits(namespace);
        let now = now_nanos();
        let ghost lv0 = self.limits_view();
        let res = self.counters.get_counters(&limits, now);
        proof {
            assert(limits@.map_values(|l: Limit| l@) == limits_in(lv0, namespace@));
            assert(lists_live_counters(old(self).store(), limits_in(old(self).limits_view(), namespace@), res@, now));
            assert(self.limits_view() == lv0);
            assert forall|i: int| 0 <= i < self.limits_view().len() implies self.store().holds(#[trigger] self.limits_view()[i]) by {
                assert(old(self).store().holds(self.limits_view()[i]));
            }
        }
        let r: Result<Vec<Counter>, StorageErr> = Ok(res);
        proof {
            assert(lists_live_counters(old(self).store(), limits_in(old(self).limits_view(), namespace@), r->Ok_0@, now));
        }
        r
    }

    /// Unregisters every limit and empties the store: no counter keeps a value.
    pub fn clear(&mut self) -> (r: Result<(), StorageErr>)
        requires
            old(self).wf(),
        ensures
            final(self).wf(),
            r is Ok,
            final(self).limits_view().len() == 0,
            forall|c: CounterView, now: u64| #[trigger] final(self).store().read(c, now) == 0,
    {
        self.limits = Vec::new();
        self.counters.clear();
        proof {
            assert(self.limits_view().len() == 0);
        }
        Ok(())
    }
}

/// Keys of a filtered list of limits stay unique.
proof fn lemma_filter_keys_unique(ls: Seq<LimitView>, pred: spec_fn(LimitView) -> bool, a: int, b: int)
    requires
        forall|i: int, j: int| 0 <= i < j < ls.len() ==> key_of(ls[i]) != key_of(ls[j]),
        0 <= a < b < ls.filter(pred).len(),
    ensures
        key_of(ls.filter(pred)[a]) != key_of(ls.filter(pred)[b]),
    decreases ls.len(),
{
    reveal(Seq::filter);
    let init = ls.drop_last();
    assert forall|i: int, j: int| 0 <= i < j < init.len() implies key_of(init[i]) != key_of(init[j]) by {
        assert(init[i] == ls[i] && init[j] == ls[j]);
    }
    let f = init.filter(pred);
    if pred(ls.last()) {
        assert(ls.filter(pred) == f.push(ls.last()));
        if b < f.len() {
            lemma_filter_keys_unique(init, pred, a, b);
        } else {
            assert(f.contains(f[a]));
            init.lemma_filter_contains_rev(pred, f[a]);
            assert(init.contains(f[a]));
            let k = choose|k: int| 0 <= k < init.len() && init[k] == f[a];
            assert(key_of(ls[k]) != key_of(ls[ls.len() - 1]));
        }
    } else {
        assert(ls.filter(pred) == f);
        lemma_filter_keys_unique(init, pred, a, b);
    }
}

} // verus!
