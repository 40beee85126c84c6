//! The wall clock.

use vstd::prelude::*;

verus! {

/// Relies on `SystemTime::elapsed` from the Unix epoch: the current time in
/// nanoseconds. Nothing is promised of its value.
#[verifier::external_body]
pub(crate) fn now_nanos() -> u64 {
    std::time::UNIX_EPOCH.elapsed().map(|d| d.as_nanos() as u64).unwrap_or(0)
}

} // verus!
