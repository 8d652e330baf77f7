//! A queue that batches tasks by itself.
//!
//! A thread adds tasks to a circular buffer. The first task of a batch hands out the responsibility
//! for the batch; tasks join it until its holder bounds it, and from then on the holder has the
//! range of the buffer that the batch takes up for itself, until it gives it back. Batches may be
//! bounded and given back in any order, by any thread.
//!
//! [`queue`] has the queue, [`assignment`] what the holders of its batches get, and [`task`] the
//! tasks with receivers, reducers and collectors on top of it. [`slice`] has batches that end where
//! the buffer ends, [`expand`] decides what the `local_queue` attribute writes out, and [`echo`] is
//! the workload on which queues are compared.
//!
//! [`helpers`] computes with slots and regions. [`ledger`], [`system`] and [`negotiation`] are the
//! models: who owns which positions, by which steps threads share a queue, and how the two ends of
//! a task agree on who takes care of its value; [`session`] has many tasks at once. [`laws`] states
//! what holds of it all, and [`guarantees`] what single operations are for.
use vstd::prelude::*;

pub mod assignment;
pub mod echo;
pub mod expand;
pub mod guarantees;
pub mod helpers;
pub mod laws;
pub mod ledger;
pub mod negotiation;
pub mod queue;
pub mod session;
pub mod slice;
pub mod system;
pub mod task;

verus! {

/// Smallest buffer a queue accepts.
pub const MIN_BUFFER_LEN: usize = 64;

/// Largest buffer a queue accepts: half of the bits of a slot count positions.
pub const MAX_BUFFER_LEN: usize = usize::MAX >> helpers::INDEX_SHIFT;

/// The buffer lengths that a queue accepts.
pub open spec fn valid_len(n: int) -> bool {
    &&& vstd::arithmetic::power2::is_pow2(n)
    &&& MIN_BUFFER_LEN <= n <= MAX_BUFFER_LEN
}

} // verus!
