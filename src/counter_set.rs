//! Windowed accumulators of one counter key: one per registered window length,
//! kept sorted by window and free of duplicate windows.

use vstd::prelude::*;
use crate::counter::{Counter, CounterView};
use crate::expiring::{sat_sub, ExpiringValue};
use crate::limit::{values_view, Limit};

verus! {

/// One accumulator of a counter key, for a window of `seconds`.
#[derive(Clone, Copy, Debug, PartialEq, Eq)]
pub struct CounterValue {
    pub seconds: u64,
    pub value: ExpiringValue,
}

impl CounterValue {
    pub open spec fn fresh(seconds: u64) -> CounterValue {
        CounterValue { seconds, value: ExpiringValue { value: 0, expiry: 0 } }
    }

    pub fn from_secs(window: u64) -> (r: CounterValue)
        ensures
            r == CounterValue::fresh(window),
    {
        CounterValue { seconds: window, value: ExpiringValue::new_expired() }
    }

    pub fn value(&self, now: u64) -> (r: u64)
        ensures
            r == self.value.value_at_spec(now),
    {
        self.value.value_at(now)
    }

    pub fn ttl(&self, now: u64) -> (r: u64)
        ensures
            r == self.value.ttl_spec(now),
    {
        self.value.ttl(now)
    }
}

/// Entries strictly ascending by window: sorted, and no window twice.
pub open spec fn sorted_windows(s: Seq<CounterValue>) -> bool {
    forall|i: int, j: int| 0 <= i < j < s.len() ==> s[i].seconds < s[j].seconds
}

/// Whether some entry has window `w`.
pub open spec fn has_window(s: Seq<CounterValue>, w: u64) -> bool {
    exists|i: int| 0 <= i < s.len() && s[i].seconds == w
}

/// The position of the entry with window `w`, if any.
pub open spec fn window_index(s: Seq<CounterValue>, w: u64) -> int {
    if has_window(s, w) {
        choose|i: int| 0 <= i < s.len() && s[i].seconds == w
    } else {
        -1
    }
}

/// The count of window `w` at `now`, zero where the window is absent or expired.
pub open spec fn window_value(s: Seq<CounterValue>, w: u64, now: u64) -> u64 {
    if has_window(s, w) {
        s[window_index(s, w)].value.value_at_spec(now)
    } else {
        0
    }
}

/// The entries after adding `delta` to window `w` at `now`; unchanged where
/// the window is absent.
pub open spec fn window_updated(s: Seq<CounterValue>, w: u64, delta: u64, now: u64) -> Seq<CounterValue> {
    if has_window(s, w) {
        let i = window_index(s, w);
        s.update(i, CounterValue { seconds: w, value: s[i].value.updated_spec(delta, w, now) })
    } else {
        s
    }
}

/// The entries after registering window `w`: a fresh entry at its sorted place,
/// or no change where it is present.
pub open spec fn window_added(s: Seq<CounterValue>, w: u64) -> Seq<CounterValue> {
    if has_window(s, w) {
        s
    } else {
        s.insert(insert_position(s, w), CounterValue::fresh(w))
    }
}

/// The entries of a set made for `windows`: each registered in turn.
pub open spec fn fresh_set(windows: Seq<u64>) -> Seq<CounterValue>
    decreases windows.len(),
{
    if windows.len() == 0 {
        Seq::empty()
    } else {
        window_added(fresh_set(windows.drop_last()), windows.last())
    }
}

/// The number of entries whose window is below `w`.
pub open spec fn insert_position(s: Seq<CounterValue>, w: u64) -> int
    decreases s.len(),
{
    if s.len() == 0 {
        0
    } else if s[0].seconds < w {
        1 + insert_position(s.drop_first(), w)
    } else {
        0
    }
}

pub proof fn lemma_window_index_unique(s: Seq<CounterValue>, w: u64, i: int)
    requires
        sorted_windows(s),
        0 <= i < s.len(),
        s[i].seconds == w,
    ensures
        has_window(s, w),
        window_index(s, w) == i,
{
    let j = window_index(s, w);
    assert(0 <= j < s.len() && s[j].seconds == w);
    if j < i {
        assert(s[j].seconds < s[i].seconds);
    } else if i < j {
        assert(s[i].seconds < s[j].seconds);
    }
}

proof fn lemma_insert_position(s: Seq<CounterValue>, w: u64, p: int)
    requires
        sorted_windows(s),
        0 <= p <= s.len(),
        forall|k: int| 0 <= k < p ==> s[k].seconds < w,
        p < s.len() ==> s[p].seconds > w,
    ensures
        insert_position(s, w) == p,
    decreases s.len(),
{
    if s.len() > 0 && p > 0 {
        let t = s.drop_first();
        assert forall|a: int, b: int| 0 <= a < b < t.len() implies t[a].seconds < t[b].seconds by {
            assert(s[a + 1].seconds < s[b + 1].seconds);
        }
        lemma_insert_position(t, w, p - 1);
    }
}

/// Registering a window adds exactly that window and a fresh entry for it.
pub proof fn lemma_window_added(s: Seq<CounterValue>, w: u64)
    requires
        sorted_windows(s),
    ensures
        forall|x: u64| has_window(window_added(s, w), x) <==> (has_window(s, x) || x == w),
        forall|i: int| 0 <= i < window_added(s, w).len() ==> (#[trigger] window_added(s, w)[i] == CounterValue::fresh(w) || s.contains(window_added(s, w)[i])),
{
    if !has_window(s, w) {
        lemma_insert_position_bounds(s, w);
        let p = insert_position(s, w);
        let a = window_added(s, w);
        assert(a[p] == CounterValue::fresh(w));
        assert forall|x: u64| has_window(a, x) <==> (has_window(s, x) || x == w) by {
            if has_window(a, x) {
                let i = choose|i: int| 0 <= i < a.len() && a[i].seconds == x;
                if i < p {
                    assert(s[i].seconds == x);
                } else if i > p {
                    assert(s[i - 1].seconds == x);
                }
            }
            if has_window(s, x) {
                let i = choose|i: int| 0 <= i < s.len() && s[i].seconds == x;
                if i < p {
                    assert(a[i].seconds == x);
                } else {
                    assert(a[i + 1].seconds == x);
                }
            }
        }
        assert forall|i: int| 0 <= i < a.len() implies (#[trigger] a[i] == CounterValue::fresh(w) || s.contains(a[i])) by {
            if i < p {
                assert(a[i] == s[i]);
            } else if i > p {
                assert(a[i] == s[i - 1]);
            }
        }
    }
}

proof fn lemma_insert_position_bounds(s: Seq<CounterValue>, w: u64)
    ensures
        0 <= insert_position(s, w) <= s.len(),
    decreases s.len(),
{
    if s.len() > 0 && s[0].seconds < w {
        lemma_insert_position_bounds(s.drop_first(), w);
    }
}

/// The accumulators of one counter key.
#[derive(Debug)]
pub struct CounterValueSet {
    values: Vec<CounterValue>,
}

impl Default for CounterValueSet {
    fn default() -> (r: CounterValueSet)
        ensures
            r@ == Seq::<CounterValue>::empty(),
            r.wf(),
    {
        CounterValueSet::empty()
    }
}

impl View for CounterValueSet {
    type V = Seq<CounterValue>;

    closed spec fn view(&self) -> Seq<CounterValue> {
        self.values@
    }
}

impl CounterValueSet {
    pub open spec fn wf(&self) -> bool {
        sorted_windows(self@)
    }

    /// An empty set.
    pub fn empty() -> (r: CounterValueSet)
        ensures
            r@ == Seq::<CounterValue>::empty(),
            r.wf(),
    {
        CounterValueSet { values: Vec::new() }
    }

    /// A set with a fresh accumulator for each of `windows`, in ascending
    /// order, each window once.
    pub fn new(windows: &Vec<u64>) -> (r: CounterValueSet)
        ensures
            r.wf(),
            r@ == fresh_set(windows@),
            forall|w: u64| has_window(r@, w) <==> windows@.contains(w),
            forall|i: int| 0 <= i < r@.len() ==> r@[i] == CounterValue::fresh(#[trigger] r@[i].seconds),
    {
        let mut r = CounterValueSet::empty();
        let mut k: usize = 0;
        while k < windows.len()
            invariant
                k <= windows.len(),
                r.wf(),
                r@ == fresh_set(windows@.subrange(0, k as int)),
                forall|w: u64| has_window(r@, w) <==> windows@.subrange(0, k as int).contains(w),
                forall|i: int| 0 <= i < r@.len() ==> r@[i] == CounterValue::fresh(#[trigger] r@[i].seconds),
            decreases windows.len() - k,
        {
            let ghost before = r@;
            r.add_window(windows[k]);
            proof {
                lemma_window_added(before, windows@[k as int]);
                let pre = windows@.subrange(0, k as int);
                assert(windows@.subrange(0, k + 1) == pre.push(windows@[k as int]));
                assert(windows@.subrange(0, k + 1).drop_last() == pre);
                assert forall|w: u64| pre.push(windows@[k as int]).contains(w) <==> (pre.contains(w) || w == windows@[k as int]) by {
                    if pre.contains(w) {
                        let j = choose|j: int| 0 <= j < pre.len() && pre[j] == w;
                        assert(pre.push(windows@[k as int])[j] == w);
                    }
                    if pre.push(windows@[k as int]).contains(w) {
                        let j = choose|j: int| 0 <= j < pre.len() + 1 && pre.push(windows@[k as int])[j] == w;
                        if j < pre.len() {
                            assert(pre[j] == w);
                        }
                    }
                    assert(pre.push(windows@[k as int])[pre.len() as int] == windows@[k as int]);
                }
                assert forall|w: u64| has_window(r@, w) <==> windows@.subrange(0, k + 1).contains(w) by {
                    assert(has_window(window_added(before, windows@[k as int]), w) <==> (has_window(before, w) || w == windows@[k as int]));
                }
                assert forall|i: int| 0 <= i < r@.len() implies r@[i] == CounterValue::fresh(#[trigger] r@[i].seconds) by {
                    assert(window_added(before, windows@[k as int])[i] == CounterValue::fresh(windows@[k as int]) || before.contains(r@[i]));
                }
            }
            k += 1;
        }
        proof {
            assert(windows@.subrange(0, windows.len() as int) == windows@);
        }
        r
    }

    /// Registers window `window`, keeping the entries sorted and unique and
    /// leaving the existing accumulators as they are.
    pub fn add_window(&mut self, window: u64)
        requires
            old(self).wf(),
        ensures
            final(self).wf(),
            final(self)@ == window_added(old(self)@, window),
            has_window(final(self)@, window),
    {
        let p = self.lower_bound(window);
        if p < self.values.len() && self.values[p].seconds == window {
            proof {
                lemma_window_index_unique(self@, window, p as int);
            }
            return;
        }
        proof {
            lemma_insert_position(self@, window, p as int);
            assert(!has_window(self@, window)) by {
                if has_window(self@, window) {
                    let i = choose|i: int| 0 <= i < self@.len() && self@[i].seconds == window;
                    if i > p {
                        assert(self@[p as int].seconds < self@[i].seconds);
                    }
                }
            }
        }
        self.values.insert(p, CounterValue::from_secs(window));
        proof {
            let s = self@;
            assert(s[p as int].seconds == window);
            assert forall|i: int, j: int| 0 <= i < j < s.len() implies s[i].seconds < s[j].seconds by {
                let o = old(self)@;
                if j < p {
                    assert(o[i].seconds < o[j].seconds);
                } else if j == p {
                    assert(o[i].seconds < window);
                } else if i < p {
                    assert(o[i].seconds < window);
                    assert(o[p as int].seconds > window);
                    if j - 1 > p {
                        assert(o[p as int].seconds < o[j - 1].seconds);
                    }
                } else if i == p {
                    assert(o[p as int].seconds > window);
                    if j - 1 > p {
                        assert(o[p as int].seconds < o[j - 1].seconds);
                    }
                } else {
                    assert(o[i - 1].seconds < o[j - 1].seconds);
                }
            }
        }
    }

    /// The number of entries whose window is below `window`.
    fn lower_bound(&self, window: u64) -> (p: usize)
        requires
            self.wf(),
        ensures
            p <= self@.len(),
            forall|k: int| 0 <= k < p ==> self@[k].seconds < window,
            p < self@.len() ==> self@[p as int].seconds >= window,
    {
        let n = self.values.len();
        let mut p: usize = 0;
        while p < n && self.values[p].seconds < window
            invariant
                n == self.values.len(),
                p <= n,
                forall|k: int| 0 <= k < p ==> self@[k].seconds < window,
            decreases n - p,
        {
            p += 1;
        }
        p
    }

    /// Position of the entry with window `window`, if any.
    fn find(&self, window: u64) -> (r: Option<usize>)
        requires
            self.wf(),
        ensures
            r is Some <==> has_window(self@, window),
            r is Some ==> r->0 == window_index(self@, window) && r->0 < self@.len(),
    {
        let p = self.lower_bound(window);
        if p < self.values.len() && self.values[p].seconds == window {
            proof {
                lemma_window_index_unique(self@, window, p as int);
            }
            return Some(p);
        }
        proof {
            if has_window(self@, window) {
                let i = choose|i: int| 0 <= i < self@.len() && self@[i].seconds == window;
                if i > p {
                    assert(self@[p as int].seconds < self@[i].seconds);
                }
            }
        }
        None
    }

    /// The count of window `window` at `now`: zero where the window is not
    /// registered or has expired.
    pub fn value(&self, window: u64, now: u64) -> (r: u64)
        requires
            self.wf(),
        ensures
            r == window_value(self@, window, now),
    {
        match self.find(window) {
            Some(i) => self.values[i].value(now),
            None => 0,
        }
    }

    /// The accumulator of window `window`, if registered.
    pub fn expiring_value_of(&self, window: u64) -> (r: Option<&ExpiringValue>)
        requires
            self.wf(),
        ensures
            r is Some <==> has_window(self@, window),
            r is Some ==> *r->0 == self@[window_index(self@, window)].value,
    {
        match self.find(window) {
            Some(i) => Some(&self.values[i].value),
            None => None,
        }
    }

    /// Adds `delta` to window `window` at `now` and returns its new count;
    /// fails where the window is not registered.
    pub fn update(&mut self, window: u64, delta: u64, now: u64) -> (r: Result<u64, ()>)
        requires
            old(self).wf(),
        ensures
            final(self).wf(),
            final(self)@ == window_updated(old(self)@, window, delta, now),
            r is Err <==> !has_window(old(self)@, window),
            r is Ok ==> r->Ok_0 == final(self)@[window_index(old(self)@, window)].value.value,
    {
        match self.find(window) {
            Some(i) => {
                let mut cv = self.values[i];
                let v = cv.value.update(delta, window, now);
                self.values.set(i, cv);
                proof {
                    assert forall|a: int, b: int| 0 <= a < b < self@.len() implies self@[a].seconds < self@[b].seconds by {
                        assert(old(self)@[a].seconds < old(self)@[b].seconds);
                    }
                    lemma_window_index_unique(self@, window, i as int);
                }
                Ok(v)
            },
            None => Err(()),
        }
    }

    /// A copy with the same entries.
    pub fn duplicate(&self) -> (r: CounterValueSet)
        ensures
            r@ == self@,
    {
        let mut values: Vec<CounterValue> = Vec::new();
        let mut i: usize = 0;
        while i < self.values.len()
            invariant
                i <= self.values@.len(),
                values@ == self.values@.subrange(0, i as int),
            decreases self.values@.len() - i,
        {
            values.push(self.values[i]);
            proof {
                assert(self.values@.subrange(0, i + 1) == self.values@.subrange(0, i as int).push(self.values@[i as int]));
            }
            i += 1;
        }
        proof {
            assert(self.values@.subrange(0, self.values@.len() as int) == self.values@);
        }
        CounterValueSet { values }
    }

    /// One counter of `limit` per entry, in order, with the room left under
    /// the limit's maximum (saturating at zero) and the time to expiry at
    /// `now`.
    pub fn to_counters(&self, limit: &Limit, now: u64) -> (r: Vec<Counter>)
        ensures
            r@.len() == self@.len(),
            forall|i: int| 0 <= i < r@.len() ==> (#[trigger] r@[i])@ == (CounterView {
                limit: limit@,
                set_variables: Seq::empty(),
                remaining: Some(sat_sub(limit@.max_value, self@[i].value.value_at_spec(now))),
                expires_in: Some(self@[i].value.ttl_spec(now)),
            }),
    {
        let mut r: Vec<Counter> = Vec::new();
        let mut i: usize = 0;
        while i < self.values.len()
            invariant
                i <= self.values@.len(),
                r@.len() == i,
                forall|k: int| 0 <= k < i ==> (#[trigger] r@[k])@ == (CounterView {
                    limit: limit@,
                    set_variables: Seq::empty(),
                    remaining: Some(sat_sub(limit@.max_value, self@[k].value.value_at_spec(now))),
                    expires_in: Some(self@[k].value.ttl_spec(now)),
                }),
            decreases self.values@.len() - i,
        {
            let v = self.values[i];
            let no_values: Vec<(String, String)> = Vec::new();
            proof {
                assert(values_view(no_values@) =~= Seq::<(Seq<char>, Seq<char>)>::empty());
            }
            r.push(Counter::with_value(limit.duplicate(), limit.max_value().saturating_sub(v.value(now)), v.ttl(now), no_values));
            i += 1;
        }
        r
    }

    /// The entries, in ascending window order.
    pub fn entries(&self) -> (r: &Vec<CounterValue>)
        ensures
            r@ == self@,
    {
        &self.values
    }
}

} // verus!
