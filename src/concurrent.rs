//! A second store, still partial: namespaces kept by name, and a counter that
//! can take back a delta while its window is unchanged.

use vstd::prelude::*;
use crate::limit::Limit;
use crate::storage::StorageErr;

verus! {

/// Whether a limit keeps one counter or one per value of its variables.
#[derive(Clone, Copy, Debug, PartialEq, Eq, Structural)]
pub enum ConcurrentLimit {
    SimpleLimit,
    QualifiedLimit,
}

impl ConcurrentLimit {
    pub fn from_limit(limit: &Limit) -> (r: ConcurrentLimit)
        ensures
            r == (if limit@.is_simple() { ConcurrentLimit::SimpleLimit } else { ConcurrentLimit::QualifiedLimit }),
    {
        if limit.is_simple() {
            ConcurrentLimit::SimpleLimit
        } else {
            ConcurrentLimit::QualifiedLimit
        }
    }
}

/// A namespace of the store.
#[derive(Debug)]
pub struct ConcurrentNamespace {
    pub name: String,
}

impl ConcurrentNamespace {
    pub open spec fn name_view(&self) -> Seq<char> {
        self.name@
    }

    pub fn name(&self) -> (r: &String)
        ensures
            r@ == self.name_view(),
    {
        &self.name
    }

    /// Limits are not kept per namespace yet: this records nothing.
    pub fn add_limit(&self, _limit: ConcurrentLimit) {
    }
}

impl From<String> for ConcurrentNamespace {
    fn from(name: String) -> (r: ConcurrentNamespace) {
        ConcurrentNamespace { name }
    }
}

impl vstd::std_specs::convert::FromSpecImpl<String> for ConcurrentNamespace {
    open spec fn obeys_from_spec() -> bool {
        true
    }

    open spec fn from_spec(name: String) -> ConcurrentNamespace {
        ConcurrentNamespace { name }
    }
}

/// Namespaces by name, each name once.
pub struct ConcurrentStorage {
    data: Vec<ConcurrentNamespace>,
}

impl ConcurrentStorage {
    /// The names of the namespaces.
    pub closed spec fn names(&self) -> Seq<Seq<char>> {
        self.data@.map_values(|n: ConcurrentNamespace| n.name@)
    }

    pub open spec fn wf(&self) -> bool {
        forall|i: int, j: int| 0 <= i < j < self.names().len() ==> self.names()[i] != self.names()[j]
    }

    fn position(&self, name: &String) -> (r: Option<usize>)
        ensures
            r is Some <==> self.names().contains(name@),
            r is Some ==> r->0 < self.names().len() && self.names()[r->0 as int] == name@,
    {
        let mut i: usize = 0;
        while i < self.data.len()
            invariant
                i <= self.data@.len(),
                forall|k: int| 0 <= k < i ==> self.names()[k] != name@,
            decreases self.data@.len() - i,
        {
            proof {
                assert(self.names()[i as int] == self.data@[i as int].name@);
            }
            if self.data[i].name == *name {
                return Some(i);
            }
            i += 1;
        }
        None
    }

    /// The names of the namespaces, each once.
    pub fn get_namespaces(&self) -> (r: Result<Vec<String>, StorageErr>)
        requires
            self.wf(),
        ensures
            r is Ok,
            r->Ok_0@.map_values(|s: String| s@) == self.names(),
    {
        let mut out: Vec<String> = Vec::new();
        let mut i: usize = 0;
        while i < self.data.len()
            invariant
                i <= self.data@.len(),
                out@.map_values(|s: String| s@) == self.names().subrange(0, i as int),
            decreases self.data@.len() - i,
        {
            proof {
                assert(self.names()[i as int] == self.data@[i as int].name@);
            }
            let ghost before = out@;
            let name = self.data[i].name.clone();
            out.push(name);
            proof {
                assert(out@ == before.push(name));
                assert(out@.map_values(|s: String| s@) =~= before.map_values(|s: String| s@).push(name@));
                assert(self.names().subrange(0, i + 1) =~= self.names().subrange(0, i as int).push(self.names()[i as int]));
                assert(out@.map_values(|s: String| s@) =~= self.names().subrange(0, i + 1));
            }
            i += 1;
        }
        proof {
            assert(self.names().subrange(0, self.names().len() as int) =~= self.names());
        }
        let r: Result<Vec<String>, StorageErr> = Ok(out);
        r
    }

    /// Makes sure the namespace of `limit` exists.
    pub fn add_limit(&mut self, limit: &Limit) -> (r: Result<(), StorageErr>)
        requires
            old(self).wf(),
        ensures
            final(self).wf(),
            r is Ok,
            final(self).names().contains(limit@.namespace),
            forall|n: Seq<char>| old(self).names().contains(n) ==> final(self).names().contains(n),
    {
        let ns: ConcurrentNamespace = ConcurrentNamespace { name: limit.namespace().clone() };
        ns.add_limit(ConcurrentLimit::from_limit(limit));
        let ghost n0 = self.names();
        let added = self.add_namespace(ns);
        proof {
            if added->Ok_0 {
                assert(self.names()[n0.len() as int] == limit@.namespace);
                assert forall|n: Seq<char>| n0.contains(n) implies self.names().contains(n) by {
                    let k = choose|k: int| 0 <= k < n0.len() && n0[k] == n;
                    assert(self.names()[k] == n);
                }
            }
        }
        Ok(())
    }

    /// Adds `namespace` unless one of its name exists; returns whether it was
    /// added.
    pub fn add_namespace(&mut self, namespace: ConcurrentNamespace) -> (r: Result<bool, StorageErr>)
        requires
            old(self).wf(),
        ensures
            final(self).wf(),
            r is Ok,
            r->Ok_0 == !old(self).names().contains(namespace.name_view()),
            r->Ok_0 ==> final(self).names() == old(self).names().push(namespace.name_view()),
            !r->Ok_0 ==> final(self).names() == old(self).names(),
    {
        let r: Result<bool, StorageErr> = match self.position(&namespace.name) {
            Some(_) => Ok(false),
            None => {
                let ghost n0 = self.names();
                self.data.push(namespace);
                proof {
                    assert(self.names() =~= n0.push(namespace.name_view()));
                    assert forall|i: int, j: int| 0 <= i < j < self.names().len() implies self.names()[i] != self.names()[j] by {
                        if j == n0.len() {
                            assert(n0.contains(n0[i]));
                        }
                    }
                }
                Ok(true)
            },
        };
        r
    }
}

impl Default for ConcurrentStorage {
    fn default() -> (r: ConcurrentStorage)
        ensures
            r.wf(),
            r.names().len() == 0,
    {
        let r = ConcurrentStorage { data: Vec::new() };
        proof {
            assert(r.names().len() == 0);
        }
        r
    }
}

/// A count with the instant it expires, for windows of `duration`
/// nanoseconds.
#[derive(Debug)]
pub struct ConcurrentCounter {
    value: u64,
    expires_at: u64,
    duration: u64,
}

impl ConcurrentCounter {
    pub closed spec fn value_view(&self) -> u64 {
        self.value
    }

    pub closed spec fn expiry_view(&self) -> u64 {
        self.expires_at
    }

    pub closed spec fn duration_view(&self) -> u64 {
        self.duration
    }

    /// A counter that has expired already.
    pub fn new(duration: u64) -> (r: ConcurrentCounter)
        ensures
            r.value_view() == 0,
            r.expiry_view() == 0,
            r.duration_view() == duration,
    {
        ConcurrentCounter { value: 0, expires_at: 0, duration }
    }

    /// Adds `delta` at instant `at`: an expired counter starts a window
    /// ending `duration` after `at` (saturating). Returns the new count and
    /// the expiry of its window.
    pub fn next_at(&mut self, at: u64, delta: u64) -> (r: (u64, u64))
        ensures
            final(self).duration_view() == old(self).duration_view(),
            at >= old(self).expiry_view() ==> final(self).value_view() == delta
                && final(self).expiry_view() == crate::expiring::sat_add(at, old(self).duration_view()),
            at < old(self).expiry_view() ==> final(self).value_view() == crate::expiring::sat_add(old(self).value_view(), delta)
                && final(self).expiry_view() == old(self).expiry_view(),
            r == (final(self).value_view(), final(self).expiry_view()),
    {
        if at >= self.expires_at {
            self.expires_at = at.saturating_add(self.duration);
            self.value = delta;
        } else {
            self.value = self.value.saturating_add(delta);
        }
        (self.value, self.expires_at)
    }

    /// Takes `delta` back where the window that expires at `at` is still the
    /// current one and the count is at least `delta`; returns whether it did.
    pub fn return_to(&mut self, at: u64, delta: u64) -> (r: bool)
        ensures
            r == (at == old(self).expiry_view() && old(self).value_view() >= delta),
            r ==> final(self).value_view() == old(self).value_view() - delta,
            !r ==> final(self).value_view() == old(self).value_view(),
            final(self).expiry_view() == old(self).expiry_view(),
            final(self).duration_view() == old(self).duration_view(),
    {
        if at == self.expires_at && self.value >= delta {
            self.value = self.value - delta;
            true
        } else {
            false
        }
    }
}

} // verus!
