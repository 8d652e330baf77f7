//! The echo workload on which queues are compared: each of a number of tasks comes back as its
//! own value.
use vstd::prelude::*;

verus! {

/// The batch sizes at which queues are compared.
pub fn batch_sizes() -> (sizes: Vec<u64>)
    ensures
        sizes@ == seq![1u64, 2, 4, 8, 16, 32, 64],
{
    let mut sizes: Vec<u64> = Vec::new();
    let mut size: u64 = 1;
    let ghost all = seq![1u64, 2, 4, 8, 16, 32, 64];
    while size <= 64
        invariant
            sizes@.len() <= 7,
            sizes@ =~= all.take(sizes@.len() as int),
            all =~= seq![1u64, 2, 4, 8, 16, 32, 64],
            sizes@.len() < 7 ==> size == all[sizes@.len() as int],
            sizes@.len() == 7 ==> size == 128,
        decreases 7 - sizes@.len(),
    {
        sizes.push(size);
        size = size * 2;
    }
    sizes
}

/// The tasks of a batch: the numbers below its size.
pub fn echo_tasks(batch_size: u64) -> (tasks: Vec<u64>)
    ensures
        tasks@ == Seq::new(batch_size as nat, |i: int| i as u64),
{
    let mut tasks: Vec<u64> = Vec::new();
    let mut i: u64 = 0;
    while i < batch_size
        invariant
            i <= batch_size,
            tasks@ =~= Seq::new(i as nat, |j: int| j as u64),
        decreases batch_size - i,
    {
        tasks.push(i);
        i = i + 1;
    }
    tasks
}

/// Whether the values of a batch are its tasks, in order.
pub fn is_echo(values: &Vec<u64>, batch_size: u64) -> (b: bool)
    ensures
        b == (values@ == Seq::new(batch_size as nat, |i: int| i as u64)),
{
    let ghost tasks = Seq::new(batch_size as nat, |i: int| i as u64);
    if values.len() as u64 != batch_size {
        return false;
    }
    let mut i: usize = 0;
    while i < values.len()
        invariant
            i <= values@.len(),
            values@.len() == batch_size,
            tasks == Seq::new(batch_size as nat, |i: int| i as u64),
            forall|j: int| 0 <= j < i ==> #[trigger] values@[j] == tasks[j],
        decreases batch_size - i,
    {
        if values[i] != i as u64 {
            assert(values@[i as int] != tasks[i as int]);
            return false;
        }
        i = i + 1;
    }
    assert(values@ =~= tasks);
    true
}

/// Whether the one who adds task `i` starts the task that drains the queue.
pub fn starts_drain(i: u64) -> (b: bool)
    ensures
        b == (i == 0),
{
    i == 0
}

/// What came of an attempt to take a task from a queue that others use too.
pub enum Pull<T> {
    /// A task.
    Item(T),
    /// Someone else was at it: try again.
    Retry,
    /// The queue is empty.
    Empty,
}

/// The tasks that were drained from a queue so far.
pub struct Drain<T> {
    pub batch: Vec<T>,
}

impl<T> Drain<T> {
    /// Nothing was drained yet.
    pub fn new() -> (drain: Self)
        ensures
            drain.batch@ == Seq::<T>::empty(),
    {
        Drain { batch: Vec::new() }
    }

    /// Takes note of an attempt, and says whether to make another one: the batch is complete when
    /// the queue was found empty.
    pub fn pull(&mut self, pull: Pull<T>) -> (more: bool)
        ensures
            more <==> !(pull is Empty),
            final(self).batch@ == match pull {
                Pull::Item(item) => old(self).batch@.push(item),
                _ => old(self).batch@,
            },
    {
        match pull {
            Pull::Item(item) => {
                self.batch.push(item);
                true
            },
            Pull::Retry => true,
            Pull::Empty => false,
        }
    }
}

} // verus!
