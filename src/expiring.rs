//! The leaf primitive: a count that falls back to zero once its window expires.

use vstd::prelude::*;

verus! {

/// Nanoseconds in one second.
pub const NANOS_PER_SEC: u64 = 1_000_000_000;

/// A window of `secs` seconds in nanoseconds, saturating at `u64::MAX`.
pub open spec fn window_nanos(secs: u64) -> u64 {
    if secs as int * NANOS_PER_SEC as int > u64::MAX as int {
        u64::MAX
    } else {
        (secs as int * NANOS_PER_SEC as int) as u64
    }
}

/// `a + b`, saturating at `u64::MAX`.
pub open spec fn sat_add(a: u64, b: u64) -> u64 {
    if a as int + b as int > u64::MAX as int {
        u64::MAX
    } else {
        (a + b) as u64
    }
}

/// `a - b`, saturating at zero.
pub open spec fn sat_sub(a: u64, b: u64) -> u64 {
    if a >= b {
        (a - b) as u64
    } else {
        0
    }
}

/// Computes `window_nanos(secs)`.
pub fn window_to_nanos(secs: u64) -> (r: u64)
    ensures
        r == window_nanos(secs),
{
    if secs > u64::MAX / NANOS_PER_SEC {
        u64::MAX
    } else {
        secs * NANOS_PER_SEC
    }
}

/// A count together with the instant (nanoseconds since the epoch) at which it
/// expires. Both are updated in one step.
#[derive(Clone, Copy, Debug, PartialEq, Eq)]
pub struct ExpiringValue {
    pub value: u64,
    pub expiry: u64,
}

impl ExpiringValue {
    /// The count as read at `now`: zero from the expiry instant on.
    pub open spec fn value_at_spec(self, now: u64) -> u64 {
        if now < self.expiry {
            self.value
        } else {
            0
        }
    }

    /// Time left before expiry at `now`, zero once expired.
    pub open spec fn ttl_spec(self, now: u64) -> u64 {
        if now < self.expiry {
            (self.expiry - now) as u64
        } else {
            0
        }
    }

    /// The state after adding `delta` at `now` in a window of `secs` seconds:
    /// an expired value starts a fresh window, a live one accumulates.
    pub open spec fn updated_spec(self, delta: u64, secs: u64, now: u64) -> ExpiringValue {
        if now >= self.expiry {
            ExpiringValue { value: delta, expiry: sat_add(now, window_nanos(secs)) }
        } else {
            ExpiringValue { value: sat_add(self.value, delta), expiry: self.expiry }
        }
    }

    /// A value that has never been written: zero, already expired.
    pub fn new_expired() -> (r: ExpiringValue)
        ensures
            r.value == 0,
            r.expiry == 0,
    {
        ExpiringValue { value: 0, expiry: 0 }
    }

    pub fn new(value: u64, expiry: u64) -> (r: ExpiringValue)
        ensures
            r.value == value,
            r.expiry == expiry,
    {
        ExpiringValue { value, expiry }
    }

    pub fn value_at(&self, now: u64) -> (r: u64)
        ensures
            r == self.value_at_spec(now),
    {
        if now < self.expiry {
            self.value
        } else {
            0
        }
    }

    pub fn ttl(&self, now: u64) -> (r: u64)
        ensures
            r == self.ttl_spec(now),
    {
        if now < self.expiry {
            self.expiry - now
        } else {
            0
        }
    }

    /// Adds `delta` at `now` for a window of `secs` seconds and returns the new
    /// count. Counts and instants saturate at `u64::MAX`.
    pub fn update(&mut self, delta: u64, secs: u64, now: u64) -> (r: u64)
        ensures
            *final(self) == old(self).updated_spec(delta, secs, now),
            r == final(self).value,
    {
        if now >= self.expiry {
            let w = window_to_nanos(secs);
            self.value = delta;
            self.expiry = now.saturating_add(w);
        } else {
            self.value = self.value.saturating_add(delta);
        }
        self.value
    }
}

/// An increment at `t` that starts a fresh window of `secs` seconds expires at
/// exactly `t` plus the window: the count is `delta` until then and reads zero
/// from that instant on.
pub proof fn lemma_fresh_window_expires(e: ExpiringValue, delta: u64, secs: u64, t: u64, t2: u64)
    requires
        t >= e.expiry,
        t as int + window_nanos(secs) as int <= u64::MAX as int,
    ensures
        e.updated_spec(delta, secs, t).expiry == t + window_nanos(secs),
        e.updated_spec(delta, secs, t).value_at_spec((t + window_nanos(secs)) as u64) == 0,
        t <= t2 < t + window_nanos(secs) ==> e.updated_spec(delta, secs, t).value_at_spec(t2) == delta,
        t2 >= t + window_nanos(secs) ==> e.updated_spec(delta, secs, t).value_at_spec(t2) == 0,
{
}

} // verus!
