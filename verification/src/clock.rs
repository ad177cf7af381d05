//! The wall clock, as the engine samples it for write timestamps.

use vstd::prelude::*;

verus! {

/// Relies on chrono's `Utc::now` and `timestamp_nanos_opt`: the current
/// wall-clock time in nanoseconds since the epoch.  The value depends on
/// the clock, so nothing is promised of it; the engine only ever compares
/// stored timestamps for equality.
#[verifier::external_body]
pub fn current_timestamp() -> u64 {
    let now = chrono::Utc::now().timestamp_nanos_opt();
    match now {
        Some(ns) => ns as u64,
        None => 0,
    }
}

} // verus!
