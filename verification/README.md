# Stack Queue

An auto-batching queue, verified with Verus. A thread adds tasks to a circular buffer that it owns.
The task that begins a batch hands out the responsibility for it, and tasks join the batch until its
holder bounds it. Bounding can be deferred, until a database connection was acquired for instance, so
that batches are as large as the load allows. A bounded batch has its range of the buffer for itself
until it is given back.

Three ways of use are built on this: tasks with receivers that wait for values, background tasks
that nobody waits for, and tasks that are reduced or collected batch by batch.

* `src/` is the library: the queue, its batches, the negotiation between a task and its receiver, and
  the decisions behind the `local_queue` attribute. `src/laws.rs` states what holds of it as a whole.
* `tests/` runs the library on concrete values.
* `app/` puts it on the Tokio runtime: thread local queues behind locks, futures, the attribute's
  tokens, and benchmarks.

The buffer is divided into regions, one for each byte of the occupancy word, which counts the live
batches that began there. The writer enters a region only when none is left. Where a region has more
live batches than its byte counts, the carry keeps the writer out of the next region. In buffers of
2048 cells and more the last region, and two neighbouring bytes together, can run out of counts;
`StackQueue::has_room` tells before a task is added.
