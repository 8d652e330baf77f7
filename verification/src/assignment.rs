use vstd::prelude::*;

use crate::queue::{BufferCell, QueueView, StackQueue, TaskQueue};
use crate::task::{Delivery, TaskRef};

verus! {

/// The position counter at position `p`.
pub open spec fn counter_of(p: int) -> int {
    p % crate::helpers::counter_modulus()
}

/// The buffer index of a position, computed from its counter.
proof fn lemma_counter_of<const N: usize>(p: int)
    requires
        crate::valid_len(N as int),
        0 <= p,
    ensures
        0 <= counter_of(p) < crate::helpers::counter_modulus(),
        counter_of(p) % (N as int) == p % (N as int),
        counter_of(p + 1) == (counter_of(p) + 1) % crate::helpers::counter_modulus(),
{
    crate::helpers::lemma_widths();
    crate::system::lemma_counter_index(N as int, p);
    let m = crate::helpers::counter_modulus();
    vstd::arithmetic::div_mod::lemma_add_mod_noop(p, 1, m);
    vstd::arithmetic::div_mod::lemma_small_mod(1, m as nat);
}

/// A guard granting exclusive access over an unbounded range of a buffer.
pub struct UnboundedRange<T, const N: usize> {
    base_slot: usize,
    start: Ghost<int>,
    task: core::marker::PhantomData<T>,
}

impl<T, const N: usize> UnboundedRange<T, N> {
    /// The first position of the range.
    pub closed spec fn start(&self) -> int {
        self.start@
    }

    pub closed spec fn wf(&self) -> bool {
        &&& self.start@ >= 0
        &&& crate::helpers::counter(self.base_slot) == counter_of(self.start@)
    }

    pub(crate) fn new(base_slot: usize, Ghost(start): Ghost<int>) -> (range: Self)
        requires
            start >= 0,
            crate::helpers::counter(base_slot) == counter_of(start),
        ensures
            range.wf(),
            range.start() == start,
    {
        UnboundedRange { base_slot, start: Ghost(start), task: core::marker::PhantomData }
    }

    /// Ends the range at the position that is written next, and gives the counters of both ends.
    fn set_bounds(&self, queue: &mut StackQueue<BufferCell<T>, N>) -> (bounds: (usize, usize))
        requires
            self.wf(),
            old(queue).ready(),
            old(queue)@.open == Some(self.start()),
        ensures
            final(queue).ready(),
            final(queue)@ == old(queue)@.bounded(),
            final(queue).system().shared == old(queue).system().bounded().shared,
            final(queue).cells() == old(queue).cells(),
            bounds.0 == counter_of(self.start()),
            bounds.1 == counter_of(old(queue)@.tail),
    {
        let end_slot = queue.bound(self.start);
        (
            crate::helpers::slot_counter(self.base_slot),
            crate::helpers::slot_counter(end_slot),
        )
    }

    /// Establishes exclusive access over a range of the buffer: the tasks accepted so far belong
    /// to it, and later ones begin a new batch.
    pub fn into_bounded(self, queue: &mut StackQueue<BufferCell<T>, N>) -> (range: BoundedRange<
        T,
        N,
    >)
        requires
            self.wf(),
            old(queue).ready(),
            old(queue)@.open == Some(self.start()),
        ensures
            final(queue).ready(),
            final(queue)@ == old(queue)@.bounded(),
            final(queue).system().shared == old(queue).system().bounded().shared,
            final(queue).cells() == old(queue).cells(),
            range.start() == self.start(),
            range.end() == old(queue)@.tail,
            range.owned_in(final(queue)@),
    {
        proof {
            queue.lemma_open();
        }
        let (start, end) = self.set_bounds(queue);
        BoundedRange {
            start,
            end,
            first: self.start,
            last: Ghost(old(queue)@.tail),
            task: core::marker::PhantomData,
        }
    }

    /// Drops the tasks of the range, and gives the range up.
    pub fn drop(self, queue: &mut StackQueue<BufferCell<T>, N>)
        requires
            self.wf(),
            old(queue).ready(),
            old(queue)@.open == Some(self.start()),
        ensures
            final(queue).ready(),
            final(queue)@ == old(queue)@.bounded().released(self.start()),
            final(queue).system().shared == old(queue).system().bounded().released(
                self.start(),
            ).shared,
            final(queue).cells() == rewritten(
                old(queue).cells(),
                self.start(),
                old(queue)@.tail - self.start(),
                |cell: BufferCell<T>| crate::queue::vacant::<T>(),
            ),
    {
        let range = self.into_bounded(queue);
        range.drop(queue);
    }
}

/// A guard granting exclusive access over a bounded range of a buffer.
pub struct BoundedRange<T, const N: usize> {
    start: usize,
    end: usize,
    first: Ghost<int>,
    last: Ghost<int>,
    task: core::marker::PhantomData<T>,
}

impl<T, const N: usize> BoundedRange<T, N> {
    /// The first position of the range.
    pub closed spec fn start(&self) -> int {
        self.first@
    }

    /// The position behind the last one of the range.
    pub closed spec fn end(&self) -> int {
        self.last@
    }

    pub closed spec fn wf(&self) -> bool {
        &&& self.start == counter_of(self.first@)
        &&& self.end == counter_of(self.last@)
    }

    /// The range is a bounded batch of the queue, of which nothing was taken out yet.
    pub open spec fn owned_in(&self, queue: QueueView<BufferCell<T>>) -> bool {
        &&& self.wf()
        &&& queue.batches.dom().contains(self.start())
        &&& queue.open != Some(self.start())
        &&& queue.batches[self.start()].front == self.start()
        &&& queue.batches[self.start()].cells.len() == self.end() - self.start()
        &&& self.start() < self.end()
    }

    /// Returns a pair of slices which contain, in order, the cells of the owned range.
    pub fn as_slices<'a>(&self, queue: &'a StackQueue<BufferCell<T>, N>) -> (r: (
        &'a [BufferCell<T>],
        &'a [BufferCell<T>],
    ))
        requires
            queue.ready(),
            self.owned_in(queue@),
        ensures
            r.0@ + r.1@ == queue@.batches[self.start()].cells,
            r.0@.len() == if self.start() % (N as int) + (self.end() - self.start()) < N {
                self.end() - self.start()
            } else {
                N - self.start() % (N as int)
            },
    {
        proof {
            queue.lemma_batch(self.first@);
            lemma_counter_of::<N>(self.first@);
            lemma_counter_of::<N>(self.last@);
        }
        let start = crate::helpers::counter_index::<N>(self.start);
        let end = crate::helpers::counter_index::<N>(self.end);
        queue.as_slices(start, end, self.first)
    }

    /// The tasks of the range, in order.
    pub fn iter<'a>(&self, queue: &'a StackQueue<BufferCell<T>, N>) -> (tasks: Vec<&'a T>)
        requires
            queue.ready(),
            self.owned_in(queue@),
        ensures
            tasks@.len() == queue@.tasks(self.start()).len(),
            forall|i: int|
                0 <= i < tasks@.len() ==> *(#[trigger] tasks@[i]) == queue@.tasks(self.start())[i],
    {
        let ghost cells = queue@.batches[self.start()].cells;
        let (front, back) = self.as_slices(queue);
        let mut tasks: Vec<&'a T> = Vec::new();
        proof {
            assert(cells.len() == front@.len() + back@.len());
            assert forall|i: int| 0 <= i < cells.len() implies #[trigger] cells[i].value is Some by {
                assert(queue@.batches[self.start()].cells[i].value is Some);
            }
            assert forall|i: int| 0 <= i < front@.len() implies (#[trigger] front@[i]).value is Some by {
                assert(front@[i] == cells[i]);
            }
            assert forall|i: int| 0 <= i < back@.len() implies (#[trigger] back@[i]).value is Some by {
                assert(back@[i] == cells[front@.len() + i]);
            }
        }
        append_tasks(&mut tasks, front);
        append_tasks(&mut tasks, back);
        tasks
    }

    /// Hands the tasks of the range out one by one.
    pub fn into_iter(self) -> (iter: BufferIter<T, N>)
        ensures
            self.wf() ==> iter.wf(),
            iter.start() == self.start(),
            iter.front() == self.start(),
            iter.end() == self.end(),
    {
        BufferIter {
            current: self.start,
            start: self.start,
            end: self.end,
            first: self.first,
            front: self.first,
            last: self.last,
            task: core::marker::PhantomData,
        }
    }

    /// Drops the tasks of the range, and gives the range up.
    pub fn drop(self, queue: &mut StackQueue<BufferCell<T>, N>)
        requires
            old(queue).ready(),
            self.owned_in(old(queue)@),
        ensures
            final(queue).ready(),
            final(queue)@ == old(queue)@.released(self.start()),
            final(queue).system().shared == old(queue).system().released(self.start()).shared,
            final(queue).cells() == rewritten(
                old(queue).cells(),
                self.start(),
                self.end() - self.start(),
                |cell: BufferCell<T>| crate::queue::vacant::<T>(),
            ),
    {
        let iter = self.into_iter();
        iter.drop(queue);
    }

    /// Moves the tasks of the range into a vector, and gives the range up.
    pub fn to_vec(self, queue: &mut StackQueue<BufferCell<T>, N>) -> (tasks: Vec<T>)
        requires
            old(queue).ready(),
            self.owned_in(old(queue)@),
        ensures
            final(queue).ready(),
            final(queue)@ == old(queue)@.released(self.start()),
            final(queue).system().shared == old(queue).system().released(self.start()).shared,
            tasks@ == old(queue)@.tasks(self.start()),
            final(queue).cells() == rewritten(
                old(queue).cells(),
                self.start(),
                self.end() - self.start(),
                |cell: BufferCell<T>| crate::queue::vacant::<T>(),
            ),
    {
        let iter = self.into_iter();
        iter.collect(queue)
    }
}

/// Appends the tasks in a run of cells.
fn append_tasks<'a, T>(tasks: &mut Vec<&'a T>, cells: &'a [BufferCell<T>])
    requires
        forall|i: int| 0 <= i < cells@.len() ==> (#[trigger] cells@[i]).value is Some,
    ensures
        final(tasks)@.len() == old(tasks)@.len() + cells@.len(),
        forall|i: int|
            0 <= i < old(tasks)@.len() ==> #[trigger] final(tasks)@[i] == old(tasks)@[i],
        forall|i: int|
            old(tasks)@.len() <= i < final(tasks)@.len() ==> *(#[trigger] final(tasks)@[i])
                == cells@[i - old(tasks)@.len()].value->0,
{
    let mut i: usize = 0;
    while i < cells.len()
        invariant
            i <= cells@.len(),
            tasks@.len() == old(tasks)@.len() + i,
            forall|j: int| 0 <= j < cells@.len() ==> (#[trigger] cells@[j]).value is Some,
            forall|j: int| 0 <= j < old(tasks)@.len() ==> #[trigger] tasks@[j] == old(tasks)@[j],
            forall|j: int|
                old(tasks)@.len() <= j < tasks@.len() ==> *(#[trigger] tasks@[j]) == cells@[j - old(
                    tasks,
                )@.len()].value->0,
        decreases cells@.len() - i,
    {
        match &cells[i].value {
            Some(task) => tasks.push(task),
            None => vstd::pervasive::unreached(),
        }
        i = i + 1;
    }
}

/// Hands out the tasks of an owned range of a buffer.
pub struct BufferIter<T, const N: usize> {
    current: usize,
    start: usize,
    end: usize,
    first: Ghost<int>,
    front: Ghost<int>,
    last: Ghost<int>,
    task: core::marker::PhantomData<T>,
}

impl<T, const N: usize> BufferIter<T, N> {
    /// The first position of the range, also after tasks were handed out.
    pub closed spec fn start(&self) -> int {
        self.first@
    }

    /// The position of the next task.
    pub closed spec fn front(&self) -> int {
        self.front@
    }

    /// The position behind the last one of the range.
    pub closed spec fn end(&self) -> int {
        self.last@
    }

    pub closed spec fn wf(&self) -> bool {
        &&& self.current == counter_of(self.front@)
        &&& self.start == counter_of(self.first@)
        &&& self.end == counter_of(self.last@)
    }

    /// The range is a bounded batch of the queue, of which the tasks from `front` on are left.
    pub open spec fn owned_in(&self, queue: QueueView<BufferCell<T>>) -> bool {
        &&& self.wf()
        &&& queue.batches.dom().contains(self.start())
        &&& queue.open != Some(self.start())
        &&& queue.batches[self.start()].front == self.front()
        &&& queue.batches[self.start()].cells.len() == self.end() - self.front()
    }

    /// Moves the next task out of the buffer, in the order in which the tasks were accepted.
    pub fn next(&mut self, queue: &mut StackQueue<BufferCell<T>, N>) -> (task: Option<T>)
        requires
            old(queue).ready(),
            old(self).owned_in(old(queue)@),
        ensures
            final(queue).ready(),
            final(self).owned_in(final(queue)@),
            final(self).start() == old(self).start(),
            final(self).end() == old(self).end(),
            old(queue)@.tasks(old(self).start()).len() == 0 ==> {
                &&& task is None
                &&& final(self).front() == old(self).front()
                &&& final(queue)@ == old(queue)@
                &&& final(queue).system().shared == old(queue).system().shared
                &&& final(queue).cells() == old(queue).cells()
            },
            old(queue)@.tasks(old(self).start()).len() > 0 ==> {
                &&& task == Some(old(queue)@.tasks(old(self).start())[0])
                &&& final(self).front() == old(self).front() + 1
                &&& final(queue)@ == old(queue)@.taken(old(self).start())
                &&& final(queue).system().shared == old(queue).system().shared
                &&& final(queue).cells() == old(queue).cells().update(
                    old(self).front() % (N as int),
                    crate::queue::vacant::<T>(),
                )
            },
    {
        let ghost s = self.first@;
        proof {
            queue.lemma_batch(s);
            crate::helpers::lemma_widths();
            lemma_counter_of::<N>(self.front@);
            if self.front@ != self.last@ {
                crate::ledger::lemma_close_positions_differ(
                    crate::helpers::counter_modulus(),
                    self.front@,
                    self.last@,
                );
            }
        }
        if self.current != self.end {
            assert(queue@.batches[s].cells[0].value is Some);
            let index = crate::helpers::counter_index::<N>(self.current);
            let cell = queue.take(index, BufferCell::new_uninit(), self.first);
            self.current = crate::helpers::next_counter(self.current);
            proof {
                self.front@ = self.front@ + 1;
            }
            assert(queue@.filled()) by {
                assert forall|t: int, i: int|
                    #![trigger queue@.batches[t].cells[i]]
                    queue@.batches.dom().contains(t) && 0 <= i
                        < queue@.batches[t].cells.len() implies queue@.batches[t].cells[i].value is Some by {
                    if t == s {
                        assert(queue@.batches[t].cells[i] == old(queue)@.batches[t].cells[i + 1]);
                    } else {
                        assert(queue@.batches[t].cells[i] == old(queue)@.batches[t].cells[i]);
                    }
                }
            }
            cell.value
        } else {
            None
        }
    }

    /// Stops counting the range as live.
    fn deoccupy_buffer(&self, queue: &mut StackQueue<BufferCell<T>, N>)
        requires
            old(queue).ready(),
            self.owned_in(old(queue)@),
        ensures
            final(queue).ready(),
            final(queue)@ == old(queue)@.released(self.start()),
            final(queue).system().shared == old(queue).system().released(self.start()).shared,
            final(queue).cells() == old(queue).cells(),
    {
        proof {
            queue.lemma_batch(self.first@);
            lemma_counter_of::<N>(self.first@);
        }
        queue.release(crate::helpers::counter_index::<N>(self.start), self.first);
        assert forall|t: int, i: int|
            #![trigger queue@.batches[t].cells[i]]
            queue@.batches.dom().contains(t) && 0 <= i
                < queue@.batches[t].cells.len() implies queue@.batches[t].cells[i].value is Some by {
            assert(queue@.batches[t].cells[i] == old(queue)@.batches[t].cells[i]);
        }
    }

    /// Moves the tasks that are left into a vector. The range stays taken.
    pub fn drain(&mut self, queue: &mut StackQueue<BufferCell<T>, N>) -> (tasks: Vec<T>)
        requires
            old(queue).ready(),
            old(self).owned_in(old(queue)@),
        ensures
            final(queue).ready(),
            final(self).owned_in(final(queue)@),
            final(self).start() == old(self).start(),
            final(self).end() == old(self).end(),
            final(self).front() == old(self).end(),
            final(queue)@.released(old(self).start()) == old(queue)@.released(old(self).start()),
            final(queue).system().shared == old(queue).system().shared,
            final(queue).cells() == rewritten(
                old(queue).cells(),
                old(self).front(),
                old(self).end() - old(self).front(),
                |cell: BufferCell<T>| crate::queue::vacant::<T>(),
            ),
            tasks@ == old(queue)@.tasks(old(self).start()),
    {
        let ghost s = self.first@;
        let ghost front = self.front@;
        let ghost cells = queue.cells();
        let ghost all = old(queue)@.tasks(s);
        let ghost before = old(queue)@;
        let ghost f = |cell: BufferCell<T>| crate::queue::vacant::<T>();
        let mut tasks: Vec<T> = Vec::new();
        proof {
            queue.lemma_batch(s);
            lemma_rewritten_none(cells, front, f);
            assert(all.skip(0) =~= all);
        }
        loop
            invariant
                queue.ready(),
                self.owned_in(queue@),
                self.start() == s,
                self.end() == old(self).end(),
                self.front() == front + tasks@.len(),
                queue@.tasks(s) =~= all.skip(tasks@.len() as int),
                tasks@ =~= all.take(tasks@.len() as int),
                tasks@.len() <= all.len(),
                all.len() <= N,
                cells.len() == N,
                all.len() == self.end() - front,
                f == (|cell: BufferCell<T>| crate::queue::vacant::<T>()),
                queue.cells() == rewritten(cells, front, tasks@.len() as int, f),
                queue.system().shared == old(queue).system().shared,
                queue@.released(s) =~= before.released(s),
            ensures
                queue.ready(),
                self.owned_in(queue@),
                self.start() == s,
                self.end() == old(self).end(),
                self.front() == self.end(),
                queue.cells() == rewritten(cells, front, all.len() as int, f),
                queue.system().shared == old(queue).system().shared,
                tasks@ == all,
                all.len() == self.end() - front,
                queue@.released(s) == before.released(s),
            decreases all.len() - tasks@.len(),
        {
            let ghost prior = queue@;
            let ghost k = tasks@.len() as int;
            proof {
                if k < all.len() {
                    lemma_rewritten_step(cells, front, k, f);
                }
            }
            match self.next(queue) {
                Some(task) => {
                    assert(queue@.tasks(s) =~= prior.tasks(s).skip(1));
                    tasks.push(task);
                },
                None => {
                    break;
                },
            }
        }
        tasks
    }

    /// Moves the tasks that are left into a vector, and gives the range up.
    pub fn collect(self, queue: &mut StackQueue<BufferCell<T>, N>) -> (tasks: Vec<T>)
        requires
            old(queue).ready(),
            self.owned_in(old(queue)@),
        ensures
            final(queue).ready(),
            final(queue)@ == old(queue)@.released(self.start()),
            final(queue).system().shared == old(queue).system().released(self.start()).shared,
            final(queue).cells() == rewritten(
                old(queue).cells(),
                self.front(),
                self.end() - self.front(),
                |cell: BufferCell<T>| crate::queue::vacant::<T>(),
            ),
            tasks@ == old(queue)@.tasks(self.start()),
    {
        let mut iter = self;
        let tasks = iter.drain(queue);
        iter.deoccupy_buffer(queue);
        tasks
    }

    /// Drops the tasks that are left, and gives the range up.
    pub fn drop(self, queue: &mut StackQueue<BufferCell<T>, N>)
        requires
            old(queue).ready(),
            self.owned_in(old(queue)@),
        ensures
            final(queue).ready(),
            final(queue)@ == old(queue)@.released(self.start()),
            final(queue).system().shared == old(queue).system().released(self.start()).shared,
            final(queue).cells() == rewritten(
                old(queue).cells(),
                self.front(),
                self.end() - self.front(),
                |cell: BufferCell<T>| crate::queue::vacant::<T>(),
            ),
    {
        let _ = self.collect(queue);
    }
}

/// The responsibility to process a yet to be assigned set of tasks.
pub struct PendingAssignment<T: TaskQueue, const N: usize> {
    base_slot: usize,
    start: Ghost<int>,
    queue: core::marker::PhantomData<T>,
}

impl<T: TaskQueue, const N: usize> PendingAssignment<T, N> {
    /// The position of the first task.
    pub closed spec fn start(&self) -> int {
        self.start@
    }

    pub closed spec fn wf(&self) -> bool {
        &&& self.start@ >= 0
        &&& crate::helpers::counter(self.base_slot) == counter_of(self.start@)
    }

    pub(crate) fn new(base_slot: usize, Ghost(start): Ghost<int>) -> (assignment: Self)
        requires
            start >= 0,
            crate::helpers::counter(base_slot) == counter_of(start),
        ensures
            assignment.wf(),
            assignment.start() == start,
    {
        PendingAssignment { base_slot, start: Ghost(start), queue: core::marker::PhantomData }
    }

    /// Ends the batch at the position that is written next, and gives the counters of both ends.
    fn set_assignment_bounds(&self, queue: &mut StackQueue<TaskRef<T>, N>) -> (bounds: (
        usize,
        usize,
    ))
        requires
            self.wf(),
            old(queue).ready(),
            old(queue)@.open == Some(self.start()),
        ensures
            final(queue).ready(),
            final(queue)@ == old(queue)@.bounded(),
            final(queue).system().shared == old(queue).system().bounded().shared,
            final(queue).cells() == old(queue).cells(),
            bounds.0 == counter_of(self.start()),
            bounds.1 == counter_of(old(queue)@.tail),
    {
        let end_slot = queue.bound(self.start);
        (
            crate::helpers::slot_counter(self.base_slot),
            crate::helpers::slot_counter(end_slot),
        )
    }

    /// By converting into a [`TaskAssignment`] the task range responsible for processing will be
    /// bounded and further tasks enqueued will be of a new batch. Assignment of a task range can
    /// be deferred until resources such as database connections are ready as a way to process
    /// tasks in larger batches. This operation is constant time.
    pub fn into_assignment(self, queue: &mut StackQueue<TaskRef<T>, N>) -> (assignment: TaskAssignment<
        T,
        N,
    >)
        requires
            self.wf(),
            old(queue).ready(),
            old(queue)@.open == Some(self.start()),
        ensures
            final(queue).ready(),
            final(queue)@ == old(queue)@.bounded(),
            final(queue).system().shared == old(queue).system().bounded().shared,
            final(queue).cells() == old(queue).cells(),
            assignment.start() == self.start(),
            assignment.end() == old(queue)@.tail,
            assignment.owned_in(final(queue)@),
    {
        proof {
            queue.lemma_open();
        }
        let (start, end) = self.set_assignment_bounds(queue);
        TaskAssignment {
            start,
            end,
            first: self.start,
            last: Ghost(old(queue)@.tail),
            queue: core::marker::PhantomData,
        }
    }

    /// Gives up the tasks without resolving them.
    pub fn drop(self, queue: &mut StackQueue<TaskRef<T>, N>)
        requires
            self.wf(),
            old(queue).ready(),
            old(queue)@.open == Some(self.start()),
        ensures
            final(queue).ready(),
            final(queue)@ == old(queue)@.bounded().released(self.start()),
            final(queue).system().shared == old(queue).system().bounded().released(
                self.start(),
            ).shared,
            final(queue).cells() == rewritten(
                old(queue).cells(),
                self.start(),
                old(queue)@.tail - self.start(),
                |cell: TaskRef<T>| crate::task::emptied(cell),
            ),
    {
        let assignment = self.into_assignment(queue);
        assignment.drop(queue);
    }
}

/// A buffer in which the `len` cells from position `first` on were rewritten by `f`.
pub open spec fn rewritten<C>(cells: Seq<C>, first: int, len: int, f: spec_fn(C) -> C) -> Seq<C> {
    Seq::new(
        cells.len(),
        |j: int|
            if (j - first) % (cells.len() as int) < len {
                f(cells[j])
            } else {
                cells[j]
            },
    )
}

/// Assignment of a task range yet to be processed.
pub struct TaskAssignment<T: TaskQueue, const N: usize> {
    start: usize,
    end: usize,
    first: Ghost<int>,
    last: Ghost<int>,
    queue: core::marker::PhantomData<T>,
}

/// A proof that a task assignment was completed.
pub struct CompletionReceipt<T: TaskQueue> {
    queue: core::marker::PhantomData<T>,
}

impl<T: TaskQueue> CompletionReceipt<T> {
    fn new() -> Self {
        CompletionReceipt { queue: core::marker::PhantomData }
    }
}

/// The values that go out when the tasks in `cells` are resolved with `values`, one for each task
/// whose receiver was not dropped.
pub open spec fn deliveries<T: TaskQueue>(
    cells: Seq<TaskRef<T>>,
    values: Seq<T::Value>,
) -> Seq<Delivery<T::Value>>
    recommends
        cells.len() == values.len(),
    decreases cells.len(),
{
    if cells.len() == 0 {
        Seq::empty()
    } else {
        let cell = cells.last();
        let before = deliveries::<T>(cells.drop_last(), values.drop_last());
        if cell.state & crate::task::RECEIVER_DROPPED == 0 {
            before.push(Delivery { rx: cell.rx->0, value: values.last() })
        } else {
            before
        }
    }
}

/// The values that are drawn for `len` tasks from an iterator that has `remaining` to give.
pub open spec fn yielded<V>(remaining: Seq<V>, len: int, values: Seq<V>) -> bool {
    values == remaining.take(
        if remaining.len() <= len {
            remaining.len() as int
        } else {
            len
        },
    )
}

/// Each value is one that `op` gives for the task at its place.
pub open spec fn mapped_by<T: TaskQueue, F: Fn(T::Task) -> T::Value>(
    op: F,
    cells: Seq<TaskRef<T>>,
    values: Seq<T::Value>,
) -> bool {
    &&& values.len() == cells.len()
    &&& forall|i: int|
        0 <= i < values.len() ==> call_ensures(op, (cells[i].task->0,), #[trigger] values[i])
}

impl<T: TaskQueue, const N: usize> TaskAssignment<T, N> {
    /// The position of the first task.
    pub closed spec fn start(&self) -> int {
        self.first@
    }

    /// The position behind the last task.
    pub closed spec fn end(&self) -> int {
        self.last@
    }

    pub closed spec fn wf(&self) -> bool {
        &&& self.start == counter_of(self.first@)
        &&& self.end == counter_of(self.last@)
    }

    /// The tasks are a bounded batch of the queue.
    pub open spec fn owned_in(&self, queue: QueueView<TaskRef<T>>) -> bool {
        &&& self.wf()
        &&& queue.batches.dom().contains(self.start())
        &&& queue.open != Some(self.start())
        &&& queue.batches[self.start()].front == self.start()
        &&& queue.batches[self.start()].cells.len() == self.end() - self.start()
        &&& self.start() < self.end()
    }

    /// Returns a pair of slices which contain, in order, the contents of the assigned task range.
    pub fn as_slices<'a>(&self, queue: &'a StackQueue<TaskRef<T>, N>) -> (r: (
        &'a [TaskRef<T>],
        &'a [TaskRef<T>],
    ))
        requires
            queue.ready(),
            self.owned_in(queue@),
        ensures
            r.0@ + r.1@ == queue@.batches[self.start()].cells,
            r.0@.len() == if self.start() % (N as int) + (self.end() - self.start()) < N {
                self.end() - self.start()
            } else {
                N - self.start() % (N as int)
            },
    {
        proof {
            queue.lemma_batch(self.first@);
            lemma_counter_of::<N>(self.first@);
            lemma_counter_of::<N>(self.last@);
        }
        let start = crate::helpers::counter_index::<N>(self.start);
        let end = crate::helpers::counter_index::<N>(self.end);
        queue.as_slices(start, end, self.first)
    }

    /// The assigned tasks, in order.
    pub fn tasks<'a>(&self, queue: &'a StackQueue<TaskRef<T>, N>) -> (tasks: Vec<&'a TaskRef<T>>)
        requires
            queue.ready(),
            self.owned_in(queue@),
        ensures
            tasks@.len() == queue@.batches[self.start()].cells.len(),
            forall|i: int|
                0 <= i < tasks@.len() ==> *(#[trigger] tasks@[i])
                    == queue@.batches[self.start()].cells[i],
    {
        let (front, back) = self.as_slices(queue);
        let mut tasks: Vec<&'a TaskRef<T>> = Vec::new();
        append_cells(&mut tasks, front);
        append_cells(&mut tasks, back);
        tasks
    }

    /// Stops counting the tasks as live.
    fn deoccupy_buffer(&self, queue: &mut StackQueue<TaskRef<T>, N>)
        requires
            old(queue).wf(),
            self.owned_in(old(queue)@),
        ensures
            final(queue).wf(),
            final(queue)@ == old(queue)@.released(self.start()),
            final(queue).system().shared == old(queue).system().released(self.start()).shared,
            final(queue).cells() == old(queue).cells(),
    {
        proof {
            queue.lemma_batch(self.first@);
            lemma_counter_of::<N>(self.first@);
        }
        queue.release(crate::helpers::counter_index::<N>(self.start), self.first);
    }

    /// Gives up the tasks, all of which were processed, for a receipt.
    fn into_completion_receipt(self, queue: &mut StackQueue<TaskRef<T>, N>) -> (receipt: CompletionReceipt<
        T,
    >)
        requires
            old(queue).wf(),
            self.owned_in(old(queue)@),
        ensures
            final(queue).wf(),
            final(queue)@ == old(queue)@.released(self.start()),
            final(queue).system().shared == old(queue).system().released(self.start()).shared,
            final(queue).cells() == old(queue).cells(),
    {
        self.deoccupy_buffer(queue);
        CompletionReceipt::new()
    }

    /// Resolve task assignment by mapping each task into its respective value, in order. Values
    /// go out for the tasks whose receivers were not dropped.
    pub fn map<F: Fn(T::Task) -> T::Value>(
        self,
        queue: &mut StackQueue<TaskRef<T>, N>,
        op: F,
    ) -> (r: (CompletionReceipt<T>, Vec<Delivery<T::Value>>))
        requires
            old(queue).ready(),
            self.owned_in(old(queue)@),
            forall|i: int|
                0 <= i < old(queue)@.batches[self.start()].cells.len() ==> call_requires(
                    op,
                    ((#[trigger] old(queue)@.batches[self.start()].cells[i]).task->0,),
                ),
        ensures
            final(queue).ready(),
            final(queue)@ == old(queue)@.released(self.start()),
            final(queue).system().shared == old(queue).system().released(self.start()).shared,
            final(queue).cells() == rewritten(
                old(queue).cells(),
                self.start(),
                self.end() - self.start(),
                |cell: TaskRef<T>| crate::task::resolved(cell),
            ),
            exists|values: Seq<T::Value>|
                mapped_by::<T, F>(op, old(queue)@.batches[self.start()].cells, values)
                    && values.len() == old(queue)@.batches[self.start()].cells.len() && (forall|i: int|
                    0 <= i < values.len() ==> call_ensures(
                        op,
                        (old(queue)@.batches[self.start()].cells[i].task->0,),
                        #[trigger] values[i],
                    )) && r.1@ == #[trigger] deliveries::<T>(
                    old(queue)@.batches[self.start()].cells,
                    values,
                ),
    {
        let ghost s = self.first@;
        let ghost cells = old(queue).cells();
        let ghost batch = old(queue)@.batches[s].cells;
        let ghost f = |cell: TaskRef<T>| crate::task::resolved(cell);
        let ghost mut k: int = 0;
        let ghost mut values: Seq<T::Value> = Seq::empty();
        let mut sent: Vec<Delivery<T::Value>> = Vec::new();
        let mut current = self.start;
        proof {
            queue.lemma_batch(s);
            lemma_rewritten_none(cells, s, f);
        }
        while current != self.end
            invariant
                self.owned_in(old(queue)@),
                old(queue).ready(),
                queue.wf(),
                queue.system() == old(queue).system(),
                cells == old(queue).cells(),
                cells.len() == N,
                batch == old(queue)@.batches[s].cells,
                s == self.first@,
                0 <= s,
                self.last@ - s <= N,
                crate::valid_len(N as int),
                0 <= k <= self.last@ - s,
                current == counter_of(s + k),
                queue.cells() == rewritten(cells, s, k, f),
                f == (|cell: TaskRef<T>| crate::task::resolved(cell)),
                forall|i: int|
                    0 <= i < batch.len() ==> call_requires(op, ((#[trigger] batch[i]).task->0,)),
                mapped_by::<T, F>(op, batch.take(k), values),
                sent@ == deliveries::<T>(batch.take(k), values),
            decreases self.last@ - s - k,
        {
            proof {
                lemma_counter_of::<N>(s + k);
                lemma_rewritten_step(cells, s, k, f);
                assert(batch[k] == cells[(s + k) % (N as int)]);
            }
            let index = crate::helpers::counter_index::<N>(current);
            let mut cell = queue.exchange(index, TaskRef::new_uninit());
            let task = cell.take_task_unchecked();
            let value = op(task);
            let ghost next_values = values.push(value);
            match cell.resolve_unchecked(value) {
                Some(delivery) => sent.push(delivery),
                None => {},
            }
            let _ = queue.exchange(index, cell);
            current = crate::helpers::next_counter(current);
            proof {
                assert(queue.cells() =~= rewritten(cells, s, k + 1, f));
                assert(batch.take(k + 1).drop_last() =~= batch.take(k));
                assert(next_values.drop_last() =~= values);
                k = k + 1;
                values = next_values;
            }
        }
        proof {
            self.lemma_all_positions(s + k);
            assert(batch.take(k) =~= batch);
            lemma_released_after_rewrite(old(queue), queue, s, k, f);
        }
        let receipt = self.into_completion_receipt(queue);
        proof {
            lemma_still_loaded(old(queue)@, queue@, s);
        }
        (receipt, sent)
    }

    /// Resolve task assignment with an iterator where indexes align with tasks. Tasks without a
    /// value are neither taken nor resolved, and values without a task are not drawn.
    pub fn resolve_with_iter<I: Iterator<Item = T::Value>>(
        self,
        queue: &mut StackQueue<TaskRef<T>, N>,
        iter: I,
    ) -> (r: (CompletionReceipt<T>, Vec<Delivery<T::Value>>))
        requires
            old(queue).ready(),
            self.owned_in(old(queue)@),
        ensures
            final(queue).ready(),
            final(queue)@ == old(queue)@.released(self.start()),
            final(queue).system().shared == old(queue).system().released(self.start()).shared,
            exists|values: Seq<T::Value>|
                #![trigger deliveries::<T>(
                    old(queue)@.batches[self.start()].cells.take(values.len() as int),
                    values,
                )]
                {
                    &&& values.len() <= self.end() - self.start()
                    &&& vstd::std_specs::iter::IteratorSpec::obeys_prophetic_iter_laws(&iter)
                        ==> {
                        &&& yielded(
                            vstd::std_specs::iter::IteratorSpec::remaining(&iter),
                            self.end() - self.start(),
                            values,
                        )
                        &&& values.len() == self.end() - self.start() || values.len()
                            == vstd::std_specs::iter::IteratorSpec::remaining(&iter).len()
                        &&& values.len() <= vstd::std_specs::iter::IteratorSpec::remaining(
                            &iter,
                        ).len()
                        &&& forall|i: int|
                            0 <= i < values.len() ==> #[trigger] values[i]
                                == vstd::std_specs::iter::IteratorSpec::remaining(&iter)[i]
                    }
                    &&& final(queue).cells() == rewritten(
                        old(queue).cells(),
                        self.start(),
                        values.len() as int,
                        |cell: TaskRef<T>| crate::task::resolved(cell),
                    )
                    &&& r.1@ == deliveries::<T>(
                        old(queue)@.batches[self.start()].cells.take(values.len() as int),
                        values,
                    )
                },
    {
        let mut iter = iter;
        self.resolve_with(queue, &mut iter)
    }

    /// Resolve task assignment with the next values of an iterator, one for each task as long as
    /// there are any. The values after those are left in the iterator.
    pub fn resolve_with<I: Iterator<Item = T::Value>>(
        self,
        queue: &mut StackQueue<TaskRef<T>, N>,
        iter: &mut I,
    ) -> (r: (CompletionReceipt<T>, Vec<Delivery<T::Value>>))
        requires
            old(queue).ready(),
            self.owned_in(old(queue)@),
        ensures
            final(queue).ready(),
            final(queue)@ == old(queue)@.released(self.start()),
            final(queue).system().shared == old(queue).system().released(self.start()).shared,
            exists|values: Seq<T::Value>|
                #![trigger deliveries::<T>(
                    old(queue)@.batches[self.start()].cells.take(values.len() as int),
                    values,
                )]
                {
                    &&& values.len() <= self.end() - self.start()
                    &&& vstd::std_specs::iter::IteratorSpec::obeys_prophetic_iter_laws(old(iter))
                        ==> {
                        &&& yielded(
                            vstd::std_specs::iter::IteratorSpec::remaining(old(iter)),
                            self.end() - self.start(),
                            values,
                        )
                        &&& values.len() == self.end() - self.start() || values.len()
                            == vstd::std_specs::iter::IteratorSpec::remaining(old(iter)).len()
                        &&& values.len() <= vstd::std_specs::iter::IteratorSpec::remaining(
                            old(iter),
                        ).len()
                        &&& forall|i: int|
                            0 <= i < values.len() ==> #[trigger] values[i]
                                == vstd::std_specs::iter::IteratorSpec::remaining(old(iter))[i]
                        &&& vstd::std_specs::iter::IteratorSpec::remaining(final(iter))
                            == vstd::std_specs::iter::IteratorSpec::remaining(old(iter)).skip(
                            values.len() as int,
                        )
                    }
                    &&& final(queue).cells() == rewritten(
                        old(queue).cells(),
                        self.start(),
                        values.len() as int,
                        |cell: TaskRef<T>| crate::task::resolved(cell),
                    )
                    &&& r.1@ == deliveries::<T>(
                        old(queue)@.batches[self.start()].cells.take(values.len() as int),
                        values,
                    )
                },
    {
        let ghost s = self.first@;
        let ghost cells = old(queue).cells();
        let ghost batch = old(queue)@.batches[s].cells;
        let ghost f = |cell: TaskRef<T>| crate::task::resolved(cell);
        let ghost mut k: int = 0;
        let ghost mut values: Seq<T::Value> = Seq::empty();
        let ghost all = vstd::std_specs::iter::IteratorSpec::remaining(&*iter);
        let ghost lawful = vstd::std_specs::iter::IteratorSpec::obeys_prophetic_iter_laws(&*iter);
        let mut sent: Vec<Delivery<T::Value>> = Vec::new();
        let mut current = self.start;
        proof {
            queue.lemma_batch(s);
            lemma_rewritten_none(cells, s, f);
            self.lemma_all_positions(s);
            assert(all.take(0) =~= values);
            assert(all.skip(0) =~= all);
        }
        while current != self.end
            invariant
                self.owned_in(old(queue)@),
                old(queue).ready(),
                queue.wf(),
                queue.system() == old(queue).system(),
                cells == old(queue).cells(),
                cells.len() == N,
                batch == old(queue)@.batches[s].cells,
                s == self.first@,
                0 <= s,
                self.last@ - s <= N,
                crate::valid_len(N as int),
                0 <= k <= self.last@ - s,
                current == counter_of(s + k),
                current == self.end <==> s + k == self.last@,
                queue.cells() == rewritten(cells, s, k, f),
                f == (|cell: TaskRef<T>| crate::task::resolved(cell)),
                values.len() == k,
                sent@ == deliveries::<T>(batch.take(k), values),
                vstd::std_specs::iter::IteratorSpec::obeys_prophetic_iter_laws(&*iter) == lawful,
                lawful ==> k <= all.len() && values == all.take(k)
                    && vstd::std_specs::iter::IteratorSpec::remaining(&*iter) == all.skip(k),
            ensures
                0 <= k <= self.last@ - s,
                queue.wf(),
                queue.system() == old(queue).system(),
                queue.cells() == rewritten(cells, s, k, f),
                values.len() == k,
                sent@ == deliveries::<T>(batch.take(k), values),
                lawful ==> yielded(all, self.last@ - s, values)
                    && vstd::std_specs::iter::IteratorSpec::remaining(&*iter) == all.skip(k),
            decreases self.last@ - s - k,
        {
            proof {
                lemma_counter_of::<N>(s + k);
                lemma_rewritten_step(cells, s, k, f);
                assert(batch[k] == cells[(s + k) % (N as int)]);
            }
            match iter.next() {
                Some(value) => {
                    let index = crate::helpers::counter_index::<N>(current);
                    let mut cell = queue.exchange(index, TaskRef::new_uninit());
                    let _ = cell.take_task_unchecked();
                    let ghost next_values = values.push(value);
                    match cell.resolve_unchecked(value) {
                        Some(delivery) => sent.push(delivery),
                        None => {},
                    }
                    let _ = queue.exchange(index, cell);
                    current = crate::helpers::next_counter(current);
                    proof {
                        assert(queue.cells() =~= rewritten(cells, s, k + 1, f));
                        assert(batch.take(k + 1).drop_last() =~= batch.take(k));
                        assert(next_values.drop_last() =~= values);
                        if lawful {
                            assert(next_values =~= all.take(k + 1));
                            assert(all.skip(k).drop_first() =~= all.skip(k + 1));
                        }
                        k = k + 1;
                        values = next_values;
                        self.lemma_all_positions(s + k);
                    }
                },
                None => {
                    break;
                },
            }
        }
        proof {
            lemma_released_after_rewrite(old(queue), queue, s, k, f);
        }
        let receipt = self.into_completion_receipt(queue);
        proof {
            lemma_still_loaded(old(queue)@, queue@, s);
        }
        (receipt, sent)
    }

    /// Gives up the tasks without resolving them.
    pub fn drop(self, queue: &mut StackQueue<TaskRef<T>, N>)
        requires
            old(queue).ready(),
            self.owned_in(old(queue)@),
        ensures
            final(queue).ready(),
            final(queue)@ == old(queue)@.released(self.start()),
            final(queue).system().shared == old(queue).system().released(self.start()).shared,
            final(queue).cells() == rewritten(
                old(queue).cells(),
                self.start(),
                self.end() - self.start(),
                |cell: TaskRef<T>| crate::task::emptied(cell),
            ),
    {
        let ghost s = self.first@;
        let ghost cells = old(queue).cells();
        let ghost batch = old(queue)@.batches[s].cells;
        let ghost f = |cell: TaskRef<T>| crate::task::emptied(cell);
        let ghost mut k: int = 0;
        let mut current = self.start;
        proof {
            queue.lemma_batch(s);
            lemma_rewritten_none(cells, s, f);
        }
        while current != self.end
            invariant
                self.owned_in(old(queue)@),
                old(queue).ready(),
                queue.wf(),
                queue.system() == old(queue).system(),
                cells == old(queue).cells(),
                cells.len() == N,
                batch == old(queue)@.batches[s].cells,
                s == self.first@,
                0 <= s,
                self.last@ - s <= N,
                crate::valid_len(N as int),
                0 <= k <= self.last@ - s,
                current == counter_of(s + k),
                queue.cells() == rewritten(cells, s, k, f),
                f == (|cell: TaskRef<T>| crate::task::emptied(cell)),
            decreases self.last@ - s - k,
        {
            proof {
                lemma_counter_of::<N>(s + k);
                lemma_rewritten_step(cells, s, k, f);
                assert(batch[k] == cells[(s + k) % (N as int)]);
            }
            let index = crate::helpers::counter_index::<N>(current);
            let mut cell = queue.exchange(index, TaskRef::new_uninit());
            let _ = cell.take_task_unchecked();
            let _ = queue.exchange(index, cell);
            current = crate::helpers::next_counter(current);
            proof {
                assert(queue.cells() =~= rewritten(cells, s, k + 1, f));
                k = k + 1;
            }
        }
        proof {
            self.lemma_all_positions(s + k);
            lemma_released_after_rewrite(old(queue), queue, s, k, f);
        }
        self.deoccupy_buffer(queue);
        proof {
            lemma_still_loaded(old(queue)@, queue@, s);
        }
    }

    /// Between the ends of the range the counter tells the positions apart.
    proof fn lemma_all_positions(&self, p: int)
        requires
            0 <= self.first@ <= p <= self.last@,
            self.last@ - self.first@ <= N,
            crate::valid_len(N as int),
            self.wf(),
        ensures
            counter_of(p) == self.end <==> p == self.last@,
    {
        crate::helpers::lemma_widths();
        if p != self.last@ {
            crate::ledger::lemma_close_positions_differ(
                crate::helpers::counter_modulus(),
                p,
                self.last@,
            );
        }
    }
}

/// The cell at index `j` is `k` positions after `first` exactly when it is the cell of that
/// position.
proof fn lemma_offset(n: int, first: int, k: int, j: int)
    requires
        n > 0,
        0 <= k < n,
        0 <= j < n,
    ensures
        (j - first) % n == k <==> j == (first + k) % n,
{
    vstd::arithmetic::div_mod::lemma_small_mod(j as nat, n as nat);
    vstd::arithmetic::div_mod::lemma_small_mod(k as nat, n as nat);
    if (j - first) % n == k {
        vstd::arithmetic::div_mod::lemma_add_mod_noop_right(first, j - first, n);
    }
    if j == (first + k) % n {
        vstd::arithmetic::div_mod::lemma_add_mod_noop_right(-first, first + k, n);
    }
}

proof fn lemma_rewritten_none<C>(cells: Seq<C>, first: int, f: spec_fn(C) -> C)
    requires
        cells.len() > 0,
    ensures
        rewritten(cells, first, 0, f) == cells,
{
    assert forall|j: int| 0 <= j < cells.len() implies #[trigger] rewritten(cells, first, 0, f)[j]
        == cells[j] by {
        vstd::arithmetic::div_mod::lemma_mod_bound(j - first, cells.len() as int);
    }
    assert(rewritten(cells, first, 0, f) =~= cells);
}

/// Rewriting one more cell.
proof fn lemma_rewritten_step<C>(cells: Seq<C>, first: int, k: int, f: spec_fn(C) -> C)
    requires
        0 <= k < cells.len(),
    ensures
        0 <= (first + k) % (cells.len() as int) < cells.len(),
        rewritten(cells, first, k, f)[(first + k) % (cells.len() as int)] == cells[(first + k) % (
        cells.len() as int)],
        rewritten(cells, first, k + 1, f) == rewritten(cells, first, k, f).update(
            (first + k) % (cells.len() as int),
            f(cells[(first + k) % (cells.len() as int)]),
        ),
{
    let n = cells.len() as int;
    let index = (first + k) % n;
    vstd::arithmetic::div_mod::lemma_mod_bound(first + k, n);
    lemma_offset(n, first, k, index);
    assert forall|j: int| 0 <= j < n implies #[trigger] rewritten(cells, first, k + 1, f)[j]
        == rewritten(cells, first, k, f).update(index, f(cells[index]))[j] by {
        lemma_offset(n, first, k, j);
        vstd::arithmetic::div_mod::lemma_mod_bound(j - first, n);
    }
    assert(rewritten(cells, first, k + 1, f) =~= rewritten(cells, first, k, f).update(
        index,
        f(cells[index]),
    ));
}

/// Rewriting cells of one batch leaves the other batches as they are.
proof fn lemma_released_after_rewrite<C, const N: usize>(
    before: &StackQueue<C, N>,
    after: &StackQueue<C, N>,
    s: int,
    k: int,
    f: spec_fn(C) -> C,
)
    requires
        before.wf(),
        after.system() == before.system(),
        before@.batches.dom().contains(s),
        before@.batches[s].front == s,
        0 <= k <= before@.batches[s].cells.len(),
        after.cells() == rewritten(before.cells(), s, k, f),
    ensures
        after@.released(s) == before@.released(s),
        after@.batches.dom() == before@.batches.dom(),
        after@.batches[s].front == s,
        after@.batches[s].cells.len() == before@.batches[s].cells.len(),
        after@.open == before@.open,
{
    let n = N as int;
    before.lemma_batch(s);
    let ledger = before.system().ledger;
    assert forall|t: int| t != s && #[trigger] before@.batches.dom().contains(t) implies after@.batches[t]
        == before@.batches[t] by {
        before.lemma_batch(t);
        assert forall|i: int| 0 <= i < before.batch(t).cells.len() implies #[trigger] after.batch(
            t,
        ).cells[i] == before.batch(t).cells[i] by {
            let q = ledger.spans[t].front + i;
            let j = q % n;
            vstd::arithmetic::div_mod::lemma_mod_bound(q, n);
            let d = (j - s) % n;
            vstd::arithmetic::div_mod::lemma_mod_bound(j - s, n);
            if d < k {
                lemma_offset(n, s, d, j);
                ledger.lemma_cells_distinct(n, s, t, s + d, q);
            }
        }
        assert(after.batch(t) =~= before.batch(t));
    }
    assert(after@.batches.dom() =~= before@.batches.dom());
    assert(after@.released(s) =~= before@.released(s));
}

/// Releasing a batch leaves the other batches as they are.
proof fn lemma_still_loaded<T: TaskQueue>(
    before: QueueView<TaskRef<T>>,
    after: QueueView<TaskRef<T>>,
    s: int,
)
    requires
        before.loaded(),
        after == before.released(s),
    ensures
        after.loaded(),
{
    assert forall|t: int, i: int|
        #![trigger after.batches[t].cells[i]]
        after.batches.dom().contains(t) && 0 <= i < after.batches[t].cells.len() implies after.batches[t].cells[i].task is Some
        && after.batches[t].cells[i].rx is Some by {
        assert(after.batches[t].cells[i] == before.batches[t].cells[i]);
    }
}

/// Appends the cells in a run.
fn append_cells<'a, C>(refs: &mut Vec<&'a C>, cells: &'a [C])
    ensures
        final(refs)@.len() == old(refs)@.len() + cells@.len(),
        forall|i: int| 0 <= i < old(refs)@.len() ==> #[trigger] final(refs)@[i] == old(refs)@[i],
        forall|i: int|
            old(refs)@.len() <= i < final(refs)@.len() ==> *(#[trigger] final(refs)@[i])
                == cells@[i - old(refs)@.len()],
{
    let mut i: usize = 0;
    while i < cells.len()
        invariant
            i <= cells@.len(),
            refs@.len() == old(refs)@.len() + i,
            forall|j: int| 0 <= j < old(refs)@.len() ==> #[trigger] refs@[j] == old(refs)@[j],
            forall|j: int|
                old(refs)@.len() <= j < refs@.len() ==> *(#[trigger] refs@[j]) == cells@[j - old(
                    refs,
                )@.len()],
        decreases cells@.len() - i,
    {
        refs.push(&cells[i]);
        i = i + 1;
    }
}

} // verus!
