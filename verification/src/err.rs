//! The error kinds that queue operations can surface.

use vstd::prelude::*;

verus! {

/// Everything that can go wrong inside the queue engine.
#[derive(Clone, Copy, Debug, PartialEq, Eq, Structural)]
pub enum QueueError {
    /// A failure reported by the key-value collaborator.
    Storage,
    /// A push or add would exceed the queue's capacity.
    QueueFull,
    /// The requested capacity exceeds the index ring.
    InvalidConfig,
    /// The operation was submitted against a worker that has exited.
    Unhealthy,
    /// A submission or reply channel closed unexpectedly.
    ChannelError,
    /// A stored reader record could not be deserialized.
    Decode,
}

impl QueueError {
    /// A short human-readable description of the error.
    pub fn message(&self) -> (r: &'static str)
        ensures
            self is QueueFull ==> r@ == "Queue is full"@,
            self is InvalidConfig ==> r@ == "max_elements can't be greater than the index ring"@,
    {
        match self {
            QueueError::Storage => "Storage failure",
            QueueError::QueueFull => "Queue is full",
            QueueError::InvalidConfig => "max_elements can't be greater than the index ring",
            QueueError::Unhealthy => "Queue is unhealthy: cannot use it anymore.",
            QueueError::ChannelError => "Error receiving operation",
            QueueError::Decode => "Failed to decode a reader record",
        }
    }
}

} // verus!
