//! A generic rate limiter: limits scoped by namespace and conditions, counters
//! keyed by limit and qualifying variables, and an all-or-nothing decision
//! protocol over a batch of counters.

pub mod cache;
mod clock;
pub mod counter;
pub mod counter_set;
pub mod expiring;
pub mod keys;
pub mod limit;
pub mod storage;
pub mod in_memory;
pub mod rate_limiter;
pub mod concurrent;
