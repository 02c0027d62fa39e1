//! What the engine's tasks hear from the queues between them.
//!
//! A task waits on a queue for at most [`RECEIVE_TIMEOUT_SECS`] and is told
//! how the wait ended. Whether it waits once more is decided here, from that
//! alone.

use vstd::prelude::*;

verus! {

/// How long a task waits on a queue before it gives up, in seconds. The wait
/// is also what paces the tasks: they do not sleep besides.
pub const RECEIVE_TIMEOUT_SECS: u64 = 1;

/// How many messages each queue of the engine holds.
pub const QUEUE_CAPACITY: usize = 100;

/// How one bounded wait on a queue ended.
pub enum QueueEvent<T> {
    /// A message arrived.
    Batch(T),
    /// Nothing arrived in time.
    TimedOut,
    /// The queue has no sender left.
    Closed,
    /// The receiver fell so far behind that messages were lost to it.
    Lagged,
}

impl<T> QueueEvent<T> {
    /// The wait ended with a message.
    pub open spec fn is_batch(self) -> bool {
        self is Batch
    }
}

} // verus!
