use vstd::prelude::*;

use crate::assignment::{PendingAssignment, UnboundedRange};
use crate::ledger::Ledger;
use crate::system::{Producer, System, Words};
use crate::task::{BatchCollect, BatchReduce, CollectState, ReduceState, TaskRef};

verus! {

/// A cell of the buffer, which holds a task or nothing.
pub struct BufferCell<T> {
    pub value: Option<T>,
}

impl<T> BufferCell<T> {
    /// A cell that holds nothing yet.
    pub fn new_uninit() -> (cell: Self)
        ensures
            cell.value is None,
    {
        BufferCell { value: None }
    }
}

/// Auto-batched queue whereby each task resolves to a value.
pub trait TaskQueue: Send + Sync + Sized + 'static {
    type Task: Send + Sync + Sized + 'static;

    type Value: Send;
}

/// Fire and forget auto-batched queue.
pub trait BackgroundQueue: Send + Sync + Sized + 'static {
    type Task: Send + Sync + Sized + 'static;
}

/// Auto-batched queue whereby tasks are reduced or collected.
pub trait BatchReducer: Send + Sync + Sized + 'static {
    type Task: Send + Sync + Sized + 'static;
}

/// What tasks of a [`BatchReducer`] can be turned into.
pub trait ReducerExt: BatchReducer {
    /// Enqueue and auto-batch task, using reducer once per batch.
    fn batch_reduce<F, const N: usize>(task: Self::Task, reducer: F) -> (reduce: BatchReduce<
        Self,
        F,
        N,
    >)
        ensures
            reduce.state == (ReduceState::<Self, F, N>::Unbatched { task, reducer }),
    ;

    /// Collect into batches.
    fn batch_collect<const N: usize>(task: Self::Task) -> (collect: BatchCollect<Self, N>)
        ensures
            collect.state == (CollectState::<Self, N>::Unbatched { task }),
    ;
}

impl<T: BatchReducer> ReducerExt for T {
    fn batch_reduce<F, const N: usize>(task: T::Task, reducer: F) -> (reduce: BatchReduce<
        T,
        F,
        N,
    >) {
        BatchReduce::new(task, reducer)
    }

    fn batch_collect<const N: usize>(task: T::Task) -> (collect: BatchCollect<T, N>) {
        BatchCollect::new(task)
    }
}

/// The next region of the buffer is still owned by earlier batches.
#[derive(Debug)]
pub struct QueueFull;

/// What a live batch still owns: the cells from position `front` on, in order.
#[verifier::ext_equal]
pub struct Batch<C> {
    pub front: int,
    pub cells: Seq<C>,
}

/// A queue as its users see it: `tail` counts the tasks accepted so far, `batches` maps the
/// first position of each live batch to what it still owns, and `open` is the batch that new
/// tasks join.
#[verifier::ext_equal]
pub struct QueueView<C> {
    pub n: int,
    pub tail: int,
    pub open: Option<int>,
    pub batches: Map<int, Batch<C>>,
}

impl<C> QueueView<C> {
    /// A queue without tasks.
    pub open spec fn empty(n: int) -> QueueView<C> {
        QueueView { n, tail: 0, open: None, batches: Map::empty() }
    }

    /// The live batches that began in region `r`.
    pub open spec fn begun_in(self, r: int) -> Set<int> {
        self.batches.dom().filter(|s: int| crate::ledger::region_at(self.n, s) == r)
    }

    /// The next task would enter a region in which a live batch began, or it would leave one in
    /// which 256 live batches or more began.
    pub open spec fn refuses(self) -> bool {
        &&& self.tail % crate::helpers::region_len(self.n) == 0
        &&& {
            ||| exists|s: int| #[trigger]
                self.batches.dom().contains(s) && crate::ledger::region_at(self.n, s)
                    == crate::ledger::region_at(self.n, self.tail)
            ||| self.begun_in(crate::ledger::region_at(self.n, self.tail - 1)).len() >= 256
        }
    }

    /// The live batches that began in region `r` and in the one after it, as their bytes of the
    /// occupancy word count them together.
    pub open spec fn begun_from(self, r: int) -> nat {
        if r + 1 < crate::helpers::REGION_COUNT {
            self.begun_in(r).len() + 256 * self.begun_in(r + 1).len()
        } else {
            self.begun_in(r).len()
        }
    }

    /// The next task joins the open batch, so that nothing is counted, or the occupancy word can
    /// count the batch that it begins.
    pub open spec fn has_room(self) -> bool {
        ||| self.open is Some
        ||| crate::helpers::region_len(self.n) <= 255
        ||| self.tail % crate::helpers::region_len(self.n) == 0
        ||| self.begun_from(crate::ledger::region_at(self.n, self.tail))
            < crate::helpers::frontal_max(crate::ledger::region_at(self.n, self.tail))
    }

    /// A task was accepted: it joins the open batch, or begins one.
    pub open spec fn pushed(self, cell: C) -> QueueView<C> {
        match self.open {
            Some(s) => QueueView {
                tail: self.tail + 1,
                batches: self.batches.insert(
                    s,
                    Batch { cells: self.batches[s].cells.push(cell), ..self.batches[s] },
                ),
                ..self
            },
            None => QueueView {
                tail: self.tail + 1,
                open: Some(self.tail),
                batches: self.batches.insert(
                    self.tail,
                    Batch { front: self.tail, cells: seq![cell] },
                ),
                ..self
            },
        }
    }

    /// The open batch was bounded: later tasks begin a new one.
    pub open spec fn bounded(self) -> QueueView<C> {
        QueueView { open: None, ..self }
    }

    /// The batch at `s` lost its first cell.
    pub open spec fn taken(self, s: int) -> QueueView<C> {
        let batch = self.batches[s];
        QueueView {
            batches: self.batches.insert(
                s,
                Batch { front: batch.front + 1, cells: batch.cells.skip(1) },
            ),
            ..self
        }
    }

    /// The batch at `s` gave up its cells.
    pub open spec fn released(self, s: int) -> QueueView<C> {
        QueueView { batches: self.batches.remove(s), ..self }
    }
}

impl<T> QueueView<BufferCell<T>> {
    /// Every cell that a live batch owns holds a task.
    pub open spec fn filled(self) -> bool {
        forall|s: int, i: int|
            #![trigger self.batches[s].cells[i]]
            self.batches.dom().contains(s) && 0 <= i < self.batches[s].cells.len()
                ==> self.batches[s].cells[i].value is Some
    }

    /// The tasks that the batch at `s` still owns, in the order in which they were accepted.
    pub open spec fn tasks(self, s: int) -> Seq<T> {
        tasks_of(self.batches[s].cells)
    }
}

impl<T: TaskQueue> QueueView<TaskRef<T>> {
    /// Every cell that a live batch owns holds a task and the address of its receiver.
    pub open spec fn loaded(self) -> bool {
        forall|s: int, i: int|
            #![trigger self.batches[s].cells[i]]
            self.batches.dom().contains(s) && 0 <= i < self.batches[s].cells.len()
                ==> self.batches[s].cells[i].task is Some && self.batches[s].cells[i].rx is Some
    }
}

/// The tasks in a run of cells.
pub open spec fn tasks_of<T>(cells: Seq<BufferCell<T>>) -> Seq<T> {
    Seq::new(cells.len(), |i: int| cells[i].value->0)
}

/// A cell that holds nothing.
pub open spec fn vacant<T>() -> BufferCell<T> {
    BufferCell { value: None }
}

/// A cell that holds a task.
pub open spec fn holding<T>(task: T) -> BufferCell<T> {
    BufferCell { value: Some(task) }
}

/// What the owner of a queue and the holders of its batches share.
pub struct Inner<C, const N: usize> {
    slot: usize,
    occupancy: usize,
    buffer: Vec<C>,
}

impl<C, const N: usize> Inner<C, N> {
    /// The slot word.
    pub closed spec fn slot(&self) -> usize {
        self.slot
    }

    /// The occupancy word.
    pub closed spec fn occupancy(&self) -> usize {
        self.occupancy
    }

    /// The cells of the buffer.
    pub closed spec fn buffer(&self) -> Seq<C> {
        self.buffer@
    }

    /// Flips bits of the slot word, and hands out what it was.
    pub(crate) fn xor_slot(&mut self, bits: usize) -> (slot: usize)
        ensures
            slot == old(self).slot(),
            final(self).slot() == old(self).slot() ^ bits,
            final(self).occupancy() == old(self).occupancy(),
            final(self).buffer() == old(self).buffer(),
    {
        let slot = self.slot;
        self.slot = slot ^ bits;
        slot
    }

    /// Takes from the occupancy word, around its end.
    pub(crate) fn sub_occupancy(&mut self, count: usize)
        ensures
            final(self).slot() == old(self).slot(),
            final(self).occupancy() == old(self).occupancy().wrapping_sub(count),
            final(self).buffer() == old(self).buffer(),
    {
        self.occupancy = self.occupancy.wrapping_sub(count);
    }

    /// The cells from index `start` to index `end`.
    pub(crate) fn run(&self, start: usize, end: usize) -> (cells: &[C])
        requires
            start <= end <= self.buffer().len(),
        ensures
            cells@ == self.buffer().subrange(start as int, end as int),
    {
        vstd::slice::slice_subrange(self.buffer.as_slice(), start, end)
    }

    /// Exchanges a cell.
    pub(crate) fn exchange(&mut self, index: usize, cell: C) -> (prev: C)
        requires
            index < old(self).buffer().len(),
        ensures
            final(self).slot() == old(self).slot(),
            final(self).occupancy() == old(self).occupancy(),
            final(self).buffer() == old(self).buffer().update(index as int, cell),
            prev == old(self).buffer()[index as int],
    {
        let mut prev = cell;
        self.buffer.set_and_swap(index, &mut prev);
        prev
    }
}

impl<T, const N: usize> Inner<BufferCell<T>, N> {
    /// A buffer of `N` cells that hold nothing yet.
    pub fn default() -> (inner: Self)
        ensures
            inner.slot() == 0,
            inner.occupancy() == 0,
            inner.buffer() == Seq::new(N as nat, |i: int| BufferCell::<T> { value: None }),
    {
        let mut buffer: Vec<BufferCell<T>> = Vec::with_capacity(N);
        let mut i: usize = 0;
        while i < N
            invariant
                i <= N,
                buffer@ =~= Seq::new(i as nat, |i: int| BufferCell::<T> { value: None }),
            decreases N - i,
        {
            buffer.push(BufferCell::new_uninit());
            i = i + 1;
        }
        Inner { slot: 0, occupancy: 0, buffer }
    }

    /// Writes a task into a cell.
    pub fn with_buffer_cell(&mut self, index: usize, task: T)
        requires
            index < old(self).buffer().len(),
        ensures
            final(self).slot() == old(self).slot(),
            final(self).occupancy() == old(self).occupancy(),
            final(self).buffer() == old(self).buffer().update(index as int, holding(task)),
    {
        let _ = self.exchange(index, BufferCell { value: Some(task) });
    }
}

impl<T: TaskQueue, const N: usize> Inner<TaskRef<T>, N> {
    /// A buffer of `N` cells that hold nothing yet.
    pub fn default() -> (inner: Self)
        ensures
            inner.slot() == 0,
            inner.occupancy() == 0,
            inner.buffer() == Seq::new(
                N as nat,
                |i: int| TaskRef::<T> { state: 0, rx: None, task: None },
            ),
    {
        let mut buffer: Vec<TaskRef<T>> = Vec::with_capacity(N);
        let mut i: usize = 0;
        while i < N
            invariant
                i <= N,
                buffer@ =~= Seq::new(
                    i as nat,
                    |i: int| TaskRef::<T> { state: 0, rx: None, task: None },
                ),
            decreases N - i,
        {
            buffer.push(TaskRef::new_uninit());
            i = i + 1;
        }
        Inner { slot: 0, occupancy: 0, buffer }
    }
}

/// A task queue that collects tasks into batches without allocating for them.
pub struct StackQueue<C, const N: usize> {
    slot: usize,
    occupancy: usize,
    inner: Inner<C, N>,
    ledger: Ghost<Ledger>,
    producer: Ghost<Producer>,
}

impl<C, const N: usize> View for StackQueue<C, N> {
    type V = QueueView<C>;

    open spec fn view(&self) -> QueueView<C> {
        QueueView {
            n: N as int,
            tail: self.system().ledger.tail,
            open: self.system().ledger.open,
            batches: Map::new(
                |s: int| self.system().ledger.spans.dom().contains(s),
                |s: int| self.batch(s),
            ),
        }
    }
}

impl<C, const N: usize> StackQueue<C, N> {
    /// The words of the queue and its bookkeeping.
    pub closed spec fn system(&self) -> System {
        System {
            n: N as int,
            shared: Words { slot: self.inner.slot, occupancy: self.inner.occupancy },
            local: Words { slot: self.slot, occupancy: self.occupancy },
            ledger: self.ledger@,
            producer: self.producer@,
        }
    }

    /// The cells of the buffer.
    pub closed spec fn cells(&self) -> Seq<C> {
        self.inner.buffer@
    }

    /// The cells that the batch at `s` still owns, in the order in which they were written.
    pub open spec fn batch(&self, s: int) -> Batch<C> {
        let span = self.system().ledger.spans[s];
        Batch {
            front: span.front,
            cells: Seq::new(
                (span.end - span.front) as nat,
                |i: int| self.cells()[(span.front + i) % (N as int)],
            ),
        }
    }

    /// What holds between any two calls.
    pub open spec fn wf(&self) -> bool {
        &&& self.system().inv()
        &&& self.system().n == N
        &&& self.system().producer is Idle
        &&& self.cells().len() == N
    }

    /// What holds while a task is added.
    spec fn steady(&self) -> bool {
        &&& self.system().inv()
        &&& self.cells().len() == N
    }

    /// A queue around what its threads will share.
    fn from_inner(inner: Inner<C, N>) -> (queue: Self)
        requires
            crate::valid_len(N as int),
            inner.slot() == 0,
            inner.occupancy() == 0,
            inner.buffer().len() == N,
        ensures
            queue.wf(),
            queue@ == QueueView::<C>::empty(N as int),
            queue.system() == System::initial(N as int),
            queue.cells() == inner.buffer(),
    {
        proof {
            System::lemma_initial(N as int);
        }
        let queue = StackQueue {
            slot: crate::helpers::PHASE,
            occupancy: 0,
            inner,
            ledger: Ghost(Ledger::empty()),
            producer: Ghost(Producer::Idle),
        };
        assert(queue@ =~= QueueView::<C>::empty(N as int));
        queue
    }

    /// The buffer index at which the next task is written. It depends on the owner's own copy of
    /// the slot alone: which batch a task joins is decided by the shared slot, where it is written
    /// is not.
    #[inline(always)]
    fn current_write_index(&self) -> (index: usize)
        requires
            self.steady(),
        ensures
            index == self.system().write_index(),
            index < N,
    {
        proof {
            self.system().lemma_write_index();
        }
        crate::helpers::slot_index::<N>(self.slot)
    }

    /// Checks that the region of an index is free by the occupancy word.
    ///
    /// The owner's copy of the word can have a region occupied that is free by now, but never the
    /// reverse where the region is about to be entered, so the shared word is read, and copied,
    /// only where the copy says no.
    fn check_regional_occupancy(&mut self, index: usize) -> (r: Result<(), QueueFull>)
        requires
            crate::valid_len(N as int),
            index < N,
        ensures
            r is Ok <==> old(self).system().regionally_free(index as int),
            final(self).system() == old(self).system().checked(index as int),
            final(self).cells() == old(self).cells(),
    {
        let ghost region = crate::helpers::region_of(N as int, index as int);
        let region_mask = crate::helpers::region_mask::<N>(index);
        proof {
            crate::helpers::lemma_region_in_range(N as int, index as int);
            crate::helpers::lemma_regional_mask(self.occupancy, region_mask, region);
            crate::helpers::lemma_regional_mask(self.inner.occupancy, region_mask, region);
        }
        let regional_occupancy = self.occupancy & region_mask;
        if regional_occupancy == 0 {
            return Ok(());
        }
        let occupancy = self.inner.occupancy;
        let regional_occupancy = occupancy & region_mask;
        self.occupancy = occupancy;
        if regional_occupancy == 0 {
            Ok(())
        } else {
            Err(QueueFull)
        }
    }

    /// Puts a slot in the place of the owner's copy, and hands back what was there.
    #[inline(always)]
    fn replace_slot(&mut self, slot: usize) -> (prev: usize)
        ensures
            prev == old(self).system().local.slot,
            final(self).cells() == old(self).cells(),
            final(self).system() == (System {
                local: Words { slot, ..old(self).system().local },
                ..old(self).system()
            }),
    {
        let prev = self.slot;
        self.slot = slot;
        prev
    }

    /// Moves the tail on by one, and says where it was and whether the task there begins a batch.
    fn claim(&mut self) -> (r: (usize, bool))
        requires
            old(self).steady(),
            old(self).system().can_claim(),
        ensures
            final(self).steady(),
            final(self).cells() == old(self).cells(),
            final(self).system() == old(self).system().claimed(),
            r.0 == old(self).system().shared.slot,
            r.1 == old(self).system().begins_batch(),
    {
        let ghost before = self.system();
        proof {
            crate::helpers::lemma_widths();
            before.lemma_claimed();
            vstd::bits::lemma_usize_shl_is_mul(1, crate::helpers::INDEX_SHIFT);
        }
        let base_slot = self.inner.slot;
        let next_slot = base_slot.wrapping_add(1 << crate::helpers::INDEX_SHIFT);
        self.inner.slot = next_slot;
        let prev_slot = self.replace_slot(next_slot);
        let begins = (base_slot ^ prev_slot) & crate::helpers::PHASE != 0;
        proof {
            crate::system::lemma_phases(base_slot, prev_slot);
            self.ledger@ = before.ledger.pushed();
            self.producer@ = if begins { Producer::Claimed } else { Producer::Idle };
        }
        assert(self.system() == before.claimed());
        (base_slot, begins)
    }

    /// Counts the batch that the task at `index` began in the region of that index.
    fn occupy_region(&mut self, index: usize)
        requires
            old(self).steady(),
            old(self).system().can_register(),
            index == (old(self).system().ledger.tail - 1) % (N as int),
        ensures
            final(self).steady(),
            final(self).cells() == old(self).cells(),
            final(self).system() == old(self).system().registered(),
    {
        proof {
            self.system().lemma_registered();
            crate::ledger::lemma_region_at(N as int, self.system().ledger.tail - 1);
        }
        let shifted_add = crate::helpers::one_shifted::<N>(index);
        let occupancy = self.inner.occupancy.wrapping_add(shifted_add);
        self.inner.occupancy = occupancy;
        self.occupancy = occupancy;
        proof {
            self.producer@ = Producer::Idle;
        }
        assert(self.system() == old(self).system().registered());
    }

    /// Whether the next task joins the open batch, or else the occupancy word can count the batch
    /// that it begins. In buffers whose regions are shorter than 256 positions it always can. In
    /// longer ones the carry of a region's byte goes to the byte of the next region, and the two may
    /// be exhausted together, as may the byte of the last region.
    pub fn has_room(&self) -> (b: bool)
        requires
            self.wf(),
        ensures
            b == self@.has_room(),
    {
        let region_size = crate::helpers::region_size::<N>();
        if region_size <= 255 {
            return true;
        }
        proof {
            crate::system::lemma_phases(self.inner.slot, self.slot);
        }
        if (self.inner.slot ^ self.slot) & crate::helpers::PHASE == 0 {
            return true;
        }
        let index = self.current_write_index();
        proof {
            self.system().lemma_write_index();
            crate::helpers::lemma_region_len(N as int);
        }
        if index % region_size == 0 {
            return true;
        }
        let region = crate::helpers::current_region::<N>(index);
        proof {
            crate::helpers::lemma_widths();
            crate::ledger::lemma_frontier(N as int, self.system().ledger.tail);
            self.lemma_begun_in(region as int);
            self.lemma_begun_in(region as int + 1);
        }
        let count = crate::helpers::frontal_count(self.inner.occupancy, region);
        if region + 1 < crate::helpers::REGION_COUNT {
            count < 65535
        } else {
            count < 255
        }
    }

    /// The live batches of a region are those that the books have there.
    proof fn lemma_begun_in(&self, r: int)
        ensures
            self@.begun_in(r) == self.system().ledger.begun_in(N as int, r),
    {
        assert(self@.begun_in(r) =~= self.system().ledger.begun_in(N as int, r));
    }

    /// Writes a cell at the tail, moves the tail on, and counts the batch if the cell begins one.
    /// Hands the cell back where the region of the tail is not free. A batch that begins is
    /// named by the slot at which it begins.
    fn submit(&mut self, cell: C) -> (r: Result<Option<usize>, C>)
        requires
            old(self).wf(),
            old(self)@.has_room(),
        ensures
            final(self).wf(),
            old(self)@.refuses() ==> {
                &&& r == Err::<Option<usize>, C>(cell)
                &&& final(self)@ == old(self)@
                &&& final(self).system().shared == old(self).system().shared
                &&& final(self).cells() == old(self).cells()
            },
            !old(self)@.refuses() ==> {
                &&& r is Ok
                &&& final(self)@ == old(self)@.pushed(cell)
                &&& final(self).system().shared == old(self).system().shared_after_push()
                &&& final(self).cells() == old(self).cells().update(
                    old(self)@.tail % (N as int),
                    cell,
                )
                &&& r->Ok_0 is Some <==> old(self)@.open is None
                &&& r->Ok_0 matches Some(base_slot) ==> crate::helpers::counter(base_slot) == old(
                    self,
                )@.tail % crate::helpers::counter_modulus()
            },
    {
        let ghost before = self.system();
        let ghost n = N as int;
        proof {
            before.lemma_write_index();
            before.lemma_loaded();
            self.lemma_view_admits();
            crate::helpers::lemma_region_len(n);
        }
        let write_index = self.current_write_index();
        if write_index % crate::helpers::region_size::<N>() == 0 {
            proof {
                before.lemma_checked();
            }
            match self.check_regional_occupancy(write_index) {
                Ok(()) => {},
                Err(QueueFull) => {
                    assert(self@ =~= old(self)@);
                    return Err(cell);
                },
            }
        }
        proof {
            self.system().lemma_admitted();
            self.producer@ = Producer::Admitted;
        }
        assert(self.system().ledger == before.ledger);
        let ghost ledger = before.ledger;
        self.inner.buffer.set(write_index, cell);
        proof {
            let region = crate::ledger::region_at(n, ledger.tail);
            old(self).lemma_begun_in(region);
            old(self).lemma_begun_in(region + 1);
            crate::ledger::lemma_region_at(n, ledger.tail);
            if crate::helpers::region_len(n) <= 255 {
                ledger.lemma_room(n);
            }
            self.system().lemma_claimed();
            ledger.lemma_pushed(n);
        }
        let (base_slot, begins) = self.claim();
        if begins {
            self.occupy_region(write_index);
        }
        proof {
            assert forall|s: int| #[trigger] ledger.spans.dom().contains(s) implies self.batch(
                s,
            ).cells =~= if ledger.open == Some(s) {
                old(self).batch(s).cells.push(cell)
            } else {
                old(self).batch(s).cells
            } by {
                assert forall|i: int| 0 <= i < old(self).batch(s).cells.len() implies #[trigger]
                    self.batch(s).cells[i] == old(self).batch(s).cells[i] by {
                    ledger.lemma_tail_cell_free(n, s, ledger.spans[s].front + i);
                }
            }
            if ledger.open is None {
                assert(self.batch(ledger.tail).cells =~= seq![cell]);
            }
            assert(self@.batches.dom() =~= old(self)@.pushed(cell).batches.dom());
            assert forall|s: int| #[trigger] self@.batches.dom().contains(s) implies self@.batches[s]
                == old(self)@.pushed(cell).batches[s] by {
                if ledger.spans.dom().contains(s) {
                    assert(old(self)@.batches[s] == old(self).batch(s));
                }
            }
            assert(self@ =~= old(self)@.pushed(cell));
        }
        if begins {
            Ok(Some(base_slot))
        } else {
            Ok(None)
        }
    }

    /// Stops the growth of the batch at `s`, and hands out the slot that it ends at.
    pub(crate) fn bound(&mut self, Ghost(s): Ghost<int>) -> (end_slot: usize)
        requires
            old(self).wf(),
            old(self)@.open == Some(s),
        ensures
            final(self).wf(),
            final(self)@ == old(self)@.bounded(),
            final(self).system() == old(self).system().bounded(),
            final(self).cells() == old(self).cells(),
            crate::helpers::counter(end_slot) == old(self)@.tail
                % crate::helpers::counter_modulus(),
    {
        proof {
            self.system().lemma_bounded(s);
            crate::system::lemma_flipped(self.inner.slot);
        }
        let end_slot = self.inner.xor_slot(crate::helpers::PHASE);
        proof {
            self.ledger@ = old(self).system().ledger.bounded();
        }
        assert(self.system() == old(self).system().bounded());
        assert forall|t: int| #[trigger] self@.batches.dom().contains(t) implies self@.batches[t]
            == old(self)@.batches[t] by {
            assert(self.batch(t) =~= old(self).batch(t));
        }
        assert(self@ =~= old(self)@.bounded());
        end_slot
    }

    /// Stops counting the batch at `s`, whose first buffer index is `index`, as live.
    pub(crate) fn release(&mut self, index: usize, Ghost(s): Ghost<int>)
        requires
            old(self).wf(),
            old(self)@.batches.dom().contains(s),
            old(self)@.open != Some(s),
            index == s % (N as int),
        ensures
            final(self).wf(),
            final(self)@ == old(self)@.released(s),
            final(self).system() == old(self).system().released(s),
            final(self).cells() == old(self).cells(),
    {
        proof {
            self.system().lemma_released(s);
            crate::ledger::lemma_region_at(N as int, s);
        }
        let one_shifted = crate::helpers::one_shifted::<N>(index);
        self.inner.sub_occupancy(one_shifted);
        proof {
            self.ledger@ = old(self).system().ledger.released(s);
        }
        assert(self.system() == old(self).system().released(s));
        assert forall|t: int| #[trigger] self@.batches.dom().contains(t) implies self@.batches[t]
            == old(self)@.batches[t] by {
            assert(self.batch(t) =~= old(self).batch(t));
        }
        assert(self@ =~= old(self)@.released(s));
    }

    /// Takes the first cell out of what the batch at `s` still owns, and leaves another one there.
    pub(crate) fn take(&mut self, index: usize, blank: C, Ghost(s): Ghost<int>) -> (cell: C)
        requires
            old(self).wf(),
            old(self)@.batches.dom().contains(s),
            old(self)@.open != Some(s),
            old(self)@.batches[s].cells.len() > 0,
            index == old(self)@.batches[s].front % (N as int),
        ensures
            final(self).wf(),
            cell == old(self)@.batches[s].cells[0],
            final(self)@ == old(self)@.taken(s),
            final(self).system() == old(self).system().taken(s),
            final(self).cells() == old(self).cells().update(index as int, blank),
    {
        let ghost ledger = self.system().ledger;
        let ghost n = N as int;
        proof {
            self.system().lemma_taken(s);
            crate::ledger::lemma_region_at(n, ledger.spans[s].front);
        }
        let cell = self.inner.exchange(index, blank);
        proof {
            self.ledger@ = ledger.taken(s);
        }
        assert(self.system() == old(self).system().taken(s));
        assert forall|t: int| #[trigger] self@.batches.dom().contains(t) implies self@.batches[t]
            == old(self)@.taken(s).batches[t] by {
            assert forall|i: int| 0 <= i < self.batch(t).cells.len() implies #[trigger] self.batch(
                t,
            ).cells[i] == old(self)@.taken(s).batches[t].cells[i] by {
                ledger.lemma_cells_distinct(
                    n,
                    s,
                    t,
                    ledger.spans[s].front,
                    self.system().ledger.spans[t].front + i,
                );
            }
            assert(self.batch(t) =~= old(self)@.taken(s).batches[t]);
        }
        assert(self@ =~= old(self)@.taken(s));
        cell
    }

    /// Exchanges a cell of the buffer.
    pub(crate) fn exchange(&mut self, index: usize, cell: C) -> (prev: C)
        requires
            old(self).wf(),
            index < N,
        ensures
            final(self).wf(),
            final(self).system() == old(self).system(),
            final(self).cells() == old(self).cells().update(index as int, cell),
            prev == old(self).cells()[index as int],
    {
        self.inner.exchange(index, cell)
    }

    /// A pair of slices which contain, in order, the cells that the batch at `s` owns. The second
    /// one is empty unless the batch wraps around to the beginning of the buffer.
    pub(crate) fn as_slices(&self, start: usize, end: usize, Ghost(s): Ghost<int>) -> (r: (
        &[C],
        &[C],
    ))
        requires
            self.wf(),
            self@.batches.dom().contains(s),
            self@.batches[s].cells.len() > 0,
            start == self@.batches[s].front % (N as int),
            end == (self@.batches[s].front + self@.batches[s].cells.len()) % (N as int),
        ensures
            r.0@ + r.1@ == self@.batches[s].cells,
            r.0@.len() == if start + self@.batches[s].cells.len() < N {
                self@.batches[s].cells.len() as int
            } else {
                N - start
            },
    {
        let ghost n = N as int;
        let ghost front = self@.batches[s].front;
        let ghost cells = self@.batches[s].cells;
        let ghost len = cells.len() as int;
        proof {
            self.lemma_batch(s);
            crate::ledger::lemma_region_at(n, front);
            vstd::arithmetic::div_mod::lemma_add_mod_noop(front, len, n);
            assert forall|i: int| 0 <= i < len implies (start + i < n ==> #[trigger] ((front + i) % n)
                == start + i) && (start + i >= n ==> (front + i) % n == start + i - n) by {
                lemma_wrapped(n, front, i);
            }
            lemma_wrapped(n, front, len);
        }
        if end > start {
            let front_slice = self.inner.run(start, end);
            let back_slice = self.inner.run(0, 0);
            assert(front_slice@ + back_slice@ =~= cells);
            (front_slice, back_slice)
        } else {
            let front_slice = self.inner.run(start, N);
            let back_slice = self.inner.run(0, end);
            assert(front_slice@ + back_slice@ =~= cells);
            (front_slice, back_slice)
        }
    }

    /// A live batch owns cells that were written, and no more than the buffer has.
    pub proof fn lemma_batch(&self, s: int)
        requires
            self.wf(),
            self@.batches.dom().contains(s),
        ensures
            crate::valid_len(N as int),
            0 <= s <= self@.batches[s].front,
            self@.batches[s].front + self@.batches[s].cells.len() <= self@.tail,
            self@.tail <= s + N,
    {
        crate::ledger::lemma_fence(N as int, s);
    }

    /// The open batch reaches to the tail, and nothing was taken out of it.
    pub proof fn lemma_open(&self)
        requires
            self.wf(),
            self@.open is Some,
        ensures
            self@.batches.dom().contains(self@.open->0),
            self@.batches[self@.open->0].front == self@.open->0,
            self@.batches[self@.open->0].cells.len() == self@.tail - self@.open->0,
            self@.open->0 < self@.tail,
    {
    }

    /// A queue refuses a task exactly where its books do not admit one.
    pub proof fn lemma_view_admits(&self)
        requires
            self.wf(),
        ensures
            self@.refuses() <==> !self.system().ledger.admits(N as int),
    {
        let n = N as int;
        let ledger = self.system().ledger;
        let set = ledger.begun_in(n, crate::ledger::region_at(n, ledger.tail));
        self.lemma_begun_in(crate::ledger::region_at(n, ledger.tail - 1));
        if exists|s: int| #[trigger]
            self@.batches.dom().contains(s) && crate::ledger::region_at(n, s)
                == crate::ledger::region_at(n, self@.tail) {
            let s = choose|s: int| #[trigger]
                self@.batches.dom().contains(s) && crate::ledger::region_at(n, s)
                    == crate::ledger::region_at(n, self@.tail);
            assert(set.contains(s));
        }
        if !(set =~= Set::<int>::empty()) {
            let s = choose|s: int| set.contains(s);
            assert(set.contains(s));
            assert(self@.batches.dom().contains(s));
        }
    }
}

/// The cell `i` positions after `p`, where `i` is at most a lap.
proof fn lemma_wrapped(n: int, p: int, i: int)
    requires
        n > 0,
        0 <= p,
        0 <= i <= n,
    ensures
        (p + i) % n == if p % n + i < n {
            p % n + i
        } else {
            p % n + i - n
        },
{
    let a = p % n;
    let q = p / n;
    vstd::arithmetic::div_mod::lemma_fundamental_div_mod(p, n);
    if a + i < n {
        vstd::arithmetic::div_mod::lemma_fundamental_div_mod_converse(p + i, n, q, a + i);
    } else {
        assert(n * (q + 1) == n * q + n) by (nonlinear_arith);
        vstd::arithmetic::div_mod::lemma_fundamental_div_mod_converse(p + i, n, q + 1, a + i - n);
    }
}

impl<T, const N: usize> StackQueue<BufferCell<T>, N> {
    /// What holds of a queue of plain tasks between any two calls.
    pub open spec fn ready(&self) -> bool {
        &&& self.wf()
        &&& self@.filled()
    }

    /// A queue without tasks. Its buffer has `N` cells, which has to be a power of two from
    /// `MIN_BUFFER_LEN` to `MAX_BUFFER_LEN`.
    pub fn default() -> (queue: Self)
        requires
            crate::valid_len(N as int),
        ensures
            queue.ready(),
            queue@ == QueueView::<BufferCell<T>>::empty(N as int),
    {
        StackQueue::from_inner(Inner::<BufferCell<T>, N>::default())
    }

    /// Adds a task. It joins the open batch, if there is one; else it begins a batch, over which
    /// the caller gets hold. Where the region that the task would enter is still owned by earlier
    /// batches, the task comes back.
    pub fn push(&mut self, task: T) -> (r: Result<Option<UnboundedRange<T, N>>, T>)
        requires
            old(self).ready(),
            old(self)@.has_room(),
        ensures
            final(self).ready(),
            old(self)@.refuses() ==> {
                &&& r == Err::<Option<UnboundedRange<T, N>>, T>(task)
                &&& final(self)@ == old(self)@
                &&& final(self).system().shared == old(self).system().shared
                &&& final(self).cells() == old(self).cells()
            },
            !old(self)@.refuses() ==> {
                &&& r is Ok
                &&& final(self)@ == old(self)@.pushed(holding(task))
                &&& final(self).system().shared == old(self).system().shared_after_push()
                &&& final(self).cells() == old(self).cells().update(
                    old(self)@.tail % (N as int),
                    holding(task),
                )
                &&& r->Ok_0 is Some <==> old(self)@.open is None
                &&& r->Ok_0 matches Some(range) ==> range.wf() && range.start() == old(self)@.tail
            },
    {
        match self.submit(BufferCell { value: Some(task) }) {
            Ok(Some(base_slot)) => Ok(
                Some(UnboundedRange::new(base_slot, Ghost(old(self)@.tail))),
            ),
            Ok(None) => Ok(None),
            Err(cell) => match cell.value {
                Some(task) => Err(task),
                None => vstd::pervasive::unreached(),
            },
        }
    }
}

/// What becomes of a task in a queue that nobody waits for.
pub enum BackgroundStep<T, const N: usize> {
    /// The task began a batch, which is now to be processed.
    Process(UnboundedRange<T, N>),
    /// The task joined a batch that someone else processes.
    Done,
    /// The queue was full: the task has to be handed in again later.
    Retry(T),
}

impl<T, const N: usize> StackQueue<BufferCell<T>, N> {
    /// Hands a task in, and says what is left to do for it.
    pub fn background_process(&mut self, task: T) -> (step: BackgroundStep<T, N>)
        requires
            old(self).ready(),
            old(self)@.has_room(),
        ensures
            final(self).ready(),
            old(self)@.refuses() ==> {
                &&& step == BackgroundStep::<T, N>::Retry(task)
                &&& final(self)@ == old(self)@
                &&& final(self).system().shared == old(self).system().shared
                &&& final(self).cells() == old(self).cells()
            },
            !old(self)@.refuses() ==> {
                &&& final(self)@ == old(self)@.pushed(holding(task))
                &&& final(self).system().shared == old(self).system().shared_after_push()
                &&& final(self).cells() == old(self).cells().update(
                    old(self)@.tail % (N as int),
                    holding(task),
                )
                &&& old(self)@.open is Some ==> step == BackgroundStep::<T, N>::Done
                &&& old(self)@.open is None ==> step is Process
                &&& step matches BackgroundStep::Process(range) ==> range.wf() && range.start()
                    == old(self)@.tail
            },
    {
        match self.push(task) {
            Ok(Some(range)) => BackgroundStep::Process(range),
            Ok(None) => BackgroundStep::Done,
            Err(task) => BackgroundStep::Retry(task),
        }
    }
}

/// A task that was accepted: the index of its cell, and the responsibility for its batch if it
/// began one.
pub struct Enqueued<T: TaskQueue, const N: usize> {
    pub index: usize,
    pub assignment: Option<PendingAssignment<T, N>>,
}

impl<T: TaskQueue, const N: usize> StackQueue<TaskRef<T>, N> {
    /// What holds of a queue of tasks with receivers between any two calls.
    pub open spec fn ready(&self) -> bool {
        &&& self.wf()
        &&& self@.loaded()
    }

    /// A queue without tasks. Its buffer has `N` cells, which has to be a power of two from
    /// `MIN_BUFFER_LEN` to `MAX_BUFFER_LEN`.
    pub fn default() -> (queue: Self)
        requires
            crate::valid_len(N as int),
        ensures
            queue.ready(),
            queue@ == QueueView::<TaskRef<T>>::empty(N as int),
    {
        StackQueue::from_inner(Inner::<TaskRef<T>, N>::default())
    }

    /// Adds a task whose receiver is at address `rx`. It joins the open batch, if there is one;
    /// else it begins a batch, for which the caller becomes responsible. Where the region that the
    /// task would enter is still owned by earlier batches, the task comes back.
    pub fn enqueue(&mut self, task: T::Task, rx: usize) -> (r: Result<Enqueued<T, N>, T::Task>)
        requires
            old(self).ready(),
            old(self)@.has_room(),
        ensures
            final(self).ready(),
            old(self)@.refuses() ==> {
                &&& r == Err::<Enqueued<T, N>, T::Task>(task)
                &&& final(self)@ == old(self)@
                &&& final(self).system().shared == old(self).system().shared
                &&& final(self).cells() == old(self).cells()
            },
            !old(self)@.refuses() ==> {
                &&& r is Ok
                &&& final(self)@ == old(self)@.pushed(crate::task::fresh::<T>(task, rx))
                &&& final(self).system().shared == old(self).system().shared_after_push()
                &&& final(self).cells() == old(self).cells().update(
                    r->Ok_0.index as int,
                    crate::task::fresh::<T>(task, rx),
                )
                &&& r->Ok_0.index == old(self)@.tail % (N as int)
                &&& r->Ok_0.assignment is Some <==> old(self)@.open is None
                &&& r->Ok_0.assignment matches Some(assignment) ==> assignment.wf()
                    && assignment.start() == old(self)@.tail
            },
    {
        proof {
            self.system().lemma_write_index();
        }
        let index = self.current_write_index();
        let mut cell = TaskRef::new_uninit();
        cell.set_task(task, rx);
        match self.submit(cell) {
            Ok(Some(base_slot)) => Ok(
                Enqueued {
                    index,
                    assignment: Some(PendingAssignment::new(base_slot, Ghost(old(self)@.tail))),
                },
            ),
            Ok(None) => Ok(Enqueued { index, assignment: None }),
            Err(mut cell) => Err(cell.take_task_unchecked()),
        }
    }

    /// The state that a task in the buffer shares with the receiver at address `rx`, unless another
    /// task has the cell by now.
    pub fn state(&self, index: usize, rx: usize) -> (state: Option<usize>)
        requires
            self.ready(),
            index < N,
        ensures
            state == if self.cells()[index as int].rx == Some(rx) {
                Some(self.cells()[index as int].state)
            } else {
                None
            },
    {
        match self.inner.buffer[index].rx {
            Some(own) => if own == rx {
                Some(self.inner.buffer[index].state)
            } else {
                None
            },
            None => None,
        }
    }

    /// Sets bits in the state that a task in the buffer shares with the receiver at address `rx`,
    /// and hands out what it was. Where another task has the cell by now, it is left alone.
    pub fn or_state(&mut self, index: usize, rx: usize, bits: usize) -> (state: Option<usize>)
        requires
            old(self).ready(),
            index < N,
        ensures
            final(self).ready(),
            final(self).system() == old(self).system(),
            old(self).cells()[index as int].rx == Some(rx) ==> {
                &&& state == Some(old(self).cells()[index as int].state)
                &&& final(self).cells() == old(self).cells().update(
                    index as int,
                    TaskRef {
                        state: old(self).cells()[index as int].state | bits,
                        ..old(self).cells()[index as int]
                    },
                )
            },
            old(self).cells()[index as int].rx != Some(rx) ==> {
                &&& state is None
                &&& final(self).cells() == old(self).cells()
            },
    {
        let state = match self.state(index, rx) {
            Some(state) => state,
            None => {
                return None;
            },
        };
        let mut cell = self.exchange(index, TaskRef::new_uninit());
        cell.state = state | bits;
        let _ = self.exchange(index, cell);
        assert(self.cells() =~= old(self).cells().update(
            index as int,
            TaskRef {
                state: old(self).cells()[index as int].state | bits,
                ..old(self).cells()[index as int]
            },
        ));
        assert forall|s: int, i: int|
            #![trigger self@.batches[s].cells[i]]
            self@.batches.dom().contains(s) && 0 <= i
                < self@.batches[s].cells.len() implies self@.batches[s].cells[i].task is Some
            && self@.batches[s].cells[i].rx is Some by {
            let before = old(self)@.batches[s].cells[i];
            assert(before.task is Some && before.rx is Some);
        }
        Some(state)
    }
}

} // verus!
