//! A persistent queue engine over an ordered key-value store.
//!
//! Two queue flavors share one storage layout: a bounded single-consumer
//! FIFO that consumes entries destructively, and a multi-consumer queue in
//! which entries age out by time-to-live while independently labelled
//! readers keep their own cursors.  The store itself is a typed
//! collaborator: this crate models it as an ordered map of encoded keys to
//! byte payloads and verifies every queue decision against that model.

pub mod bounded;
pub mod clock;
pub mod codec;
pub mod err;
pub mod mpmc;
pub mod nonblock;
pub mod reader;
pub mod ring;
pub mod store;

use vstd::prelude::*;

verus! {

/// Version string of the library.
pub fn version() -> (r: &'static str)
    ensures
        r@ == "0.1.0"@,
{
    "0.1.0"
}

} // verus!
