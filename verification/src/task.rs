use vstd::prelude::*;
use vstd::std_specs::cmp::{PartialEqSpec, PartialOrdSpec};

use crate::assignment::{PendingAssignment, UnboundedRange};
use crate::queue::{BatchReducer, BufferCell, QueueView, StackQueue, TaskQueue};

verus! {

/// The value of a task is being handed to its receiver.
pub const SETTING_VALUE: usize = 0b001;

/// The receiver of a task has its value.
pub const VALUE_SET: usize = 0b010;

/// The receiver of a task was dropped.
pub const RECEIVER_DROPPED: usize = 0b100;

/// A task in the buffer, with the address of its receiver and the state that both ends share.
pub struct TaskRef<T: TaskQueue> {
    pub state: usize,
    pub rx: Option<usize>,
    pub task: Option<T::Task>,
}

/// A value on its way to the receiver at address `rx`, which has to be woken with it.
pub struct Delivery<V> {
    pub rx: usize,
    pub value: V,
}

/// The state of a task after its value was handed over, or could not be.
pub open spec fn resolved_state(state: usize) -> usize {
    if state & RECEIVER_DROPPED == 0 {
        (state | SETTING_VALUE) ^ (SETTING_VALUE | VALUE_SET)
    } else {
        state | SETTING_VALUE
    }
}

/// What is left of a task in the buffer once it was taken and resolved.
pub open spec fn resolved<T: TaskQueue>(cell: TaskRef<T>) -> TaskRef<T> {
    TaskRef { state: resolved_state(cell.state), rx: cell.rx, task: None }
}

/// What is left of a task in the buffer once it was taken.
pub open spec fn emptied<T: TaskQueue>(cell: TaskRef<T>) -> TaskRef<T> {
    TaskRef { task: None, ..cell }
}

/// A task as it is written into the buffer.
pub open spec fn fresh<T: TaskQueue>(task: T::Task, rx: usize) -> TaskRef<T> {
    TaskRef { state: 0, rx: Some(rx), task: Some(task) }
}

impl<T: TaskQueue> TaskRef<T> {
    /// A cell that holds no task yet.
    pub fn new_uninit() -> (cell: Self)
        ensures
            cell == (TaskRef::<T> { state: 0, rx: None, task: None }),
    {
        TaskRef { state: 0, rx: None, task: None }
    }

    /// The task.
    pub fn task(&self) -> (task: &T::Task)
        requires
            self.task is Some,
        ensures
            *task == self.task->0,
    {
        match &self.task {
            Some(task) => task,
            None => vstd::pervasive::unreached(),
        }
    }

    /// Starts the negotiation with a new receiver.
    fn reset_state(&mut self)
        ensures
            *final(self) == (TaskRef::<T> { state: 0, ..*old(self) }),
    {
        self.state = 0;
    }

    /// Writes a task and the address of its receiver into the cell.
    pub fn set_task(&mut self, task: T::Task, rx: usize)
        ensures
            *final(self) == fresh::<T>(task, rx),
    {
        self.reset_state();
        self.rx = Some(rx);
        self.task = Some(task);
    }

    /// Moves the task out of the cell.
    pub fn take_task_unchecked(&mut self) -> (task: T::Task)
        requires
            old(self).task is Some,
        ensures
            task == old(self).task->0,
            *final(self) == emptied(*old(self)),
    {
        match self.task.take() {
            Some(task) => task,
            None => vstd::pervasive::unreached(),
        }
    }

    /// Announces that the value is about to be handed over, and says whether the receiver is
    /// there to get it.
    pub fn begin_resolve(&mut self) -> (present: bool)
        ensures
            *final(self) == (TaskRef::<T> { state: old(self).state | SETTING_VALUE, ..*old(self) }),
            present <==> old(self).state & RECEIVER_DROPPED == 0,
    {
        let state = self.state;
        self.state = state | SETTING_VALUE;
        state & RECEIVER_DROPPED == 0
    }

    /// Announces that the value was handed over.
    pub fn finish_resolve(&mut self)
        ensures
            *final(self) == (TaskRef::<T> {
                state: old(self).state ^ (SETTING_VALUE | VALUE_SET),
                ..*old(self)
            }),
    {
        self.state = self.state ^ (SETTING_VALUE | VALUE_SET);
    }

    /// Sends the value to the receiver, unless the receiver was dropped.
    pub fn resolve_unchecked(&mut self, value: T::Value) -> (delivery: Option<Delivery<T::Value>>)
        requires
            old(self).rx is Some,
        ensures
            *final(self) == (TaskRef::<T> {
                state: resolved_state(old(self).state),
                ..*old(self)
            }),
            delivery == if old(self).state & RECEIVER_DROPPED == 0 {
                Some(Delivery { rx: old(self).rx->0, value })
            } else {
                None
            },
    {
        if self.begin_resolve() {
            match self.rx {
                Some(rx) => {
                    self.finish_resolve();
                    Some(Delivery { rx, value })
                },
                None => vstd::pervasive::unreached(),
            }
        } else {
            None
        }
    }
}

/// Tasks in the buffer compare as the tasks that they hold.
impl<T: TaskQueue> PartialEq for TaskRef<T> where T::Task: PartialEq {
    fn eq(&self, other: &Self) -> (b: bool) {
        self.task == other.task
    }
}

impl<T: TaskQueue> vstd::std_specs::cmp::PartialEqSpecImpl for TaskRef<T> where T::Task: PartialEq {
    open spec fn obeys_eq_spec() -> bool {
        T::Task::obeys_eq_spec()
    }

    open spec fn eq_spec(&self, other: &Self) -> bool {
        PartialEqSpec::eq_spec(&self.task, &other.task)
    }
}

impl<T: TaskQueue> PartialOrd for TaskRef<T> where T::Task: PartialOrd {
    fn partial_cmp(&self, other: &Self) -> (o: Option<core::cmp::Ordering>) {
        self.task.partial_cmp(&other.task)
    }
}

impl<T: TaskQueue> vstd::std_specs::cmp::PartialOrdSpecImpl for TaskRef<T> where T::Task: PartialOrd {
    open spec fn obeys_partial_cmp_spec() -> bool {
        T::Task::obeys_partial_cmp_spec()
    }

    open spec fn partial_cmp_spec(&self, other: &Self) -> Option<core::cmp::Ordering> {
        PartialOrdSpec::partial_cmp_spec(&self.task, &other.task)
    }
}

/// The end at which the value of a task arrives. It knows the cell of its task, whose state it
/// shares, and the address under which the task knows it.
pub struct Receiver<V> {
    pub index: usize,
    pub rx: usize,
    pub value: Option<V>,
}

/// How far the drop of a receiver got.
pub enum Dropping {
    /// The value is being handed over: look at the state again later.
    Wait,
    /// The receiver may go.
    Done,
}

impl<V> Receiver<V> {
    /// A receiver without a value.
    pub fn new(index: usize, rx: usize) -> (receiver: Self)
        ensures
            receiver == (Receiver::<V> { index, rx, value: None }),
    {
        Receiver { index, rx, value: None }
    }

    /// What the state of the task means for the drop of its receiver: while the value is being
    /// handed over the receiver has to stay, and a value that did arrive goes with it.
    pub fn settle(&mut self, state: usize) -> (dropping: Dropping)
        ensures
            dropping is Wait <==> state & SETTING_VALUE == SETTING_VALUE,
            *final(self) == if dropping is Done && state & VALUE_SET == VALUE_SET {
                Receiver::<V> { value: None, ..*old(self) }
            } else {
                *old(self)
            },
    {
        if state & SETTING_VALUE == SETTING_VALUE {
            return Dropping::Wait;
        }
        if state & VALUE_SET == VALUE_SET {
            self.value = None;
        }
        Dropping::Done
    }
}

/// How far a batched task got.
pub enum State<T: TaskQueue> {
    Unbatched { task: T::Task },
    Batched(Receiver<T::Value>),
    Received,
}

/// An automatically batched task.
pub struct BatchedTask<T: TaskQueue, const N: usize> {
    pub state: State<T>,
}

/// What polling a batched task comes to.
pub enum Polled<T: TaskQueue, const N: usize> {
    /// Pending. The task began a batch, which is now to be processed.
    Process(PendingAssignment<T, N>),
    /// Pending. The queue was full: the task has to be polled again.
    Wake,
    /// Pending. The task will be woken with its value.
    Pending,
    /// The value of the task.
    Ready(T::Value),
}

impl<T: TaskQueue, const N: usize> BatchedTask<T, N> {
    /// Create a new auto batched task.
    pub fn new(task: T::Task) -> (batched: Self)
        ensures
            batched.state == (State::<T>::Unbatched { task }),
    {
        BatchedTask { state: State::Unbatched { task } }
    }

    /// Hands the task in, if that was not done yet, and else asks for its value. `rx` is the
    /// address at which the value of the task is to arrive. Once the value was given out, the
    /// task stays pending for good.
    pub fn poll(&mut self, rx: usize, queue: &mut StackQueue<TaskRef<T>, N>) -> (polled: Polled<
        T,
        N,
    >)
        requires
            old(queue).ready(),
            old(self).state is Unbatched ==> old(queue)@.has_room(),
        ensures
            final(queue).ready(),
            batch_polled::<T, N>(
                old(self).state,
                rx,
                old(queue)@,
                polled,
                final(self).state,
                final(queue)@,
            ),
            match old(self).state {
                State::Unbatched { task } => if old(queue)@.refuses() {
                    &&& final(queue).system().shared == old(queue).system().shared
                    &&& final(queue).cells() == old(queue).cells()
                } else {
                    &&& final(queue).system().shared == old(queue).system().shared_after_push()
                    &&& final(queue).cells() == old(queue).cells().update(
                        old(queue)@.tail % (N as int),
                        fresh::<T>(task, rx),
                    )
                    &&& old(queue)@.tail % (N as int) < N
                    &&& final(self).state matches State::Batched(own) && own.rx == rx && own.index < N
                        && final(queue).cells()[own.index as int].rx == Some(own.rx)
                        && final(queue).cells()[own.index as int].task == Some(task)
                        && final(queue).cells()[own.index as int].state == 0
                },
                _ => {
                    &&& final(queue).system() == old(queue).system()
                    &&& final(queue).cells() == old(queue).cells()
                },
            },
    {
        let mut state = State::Received;
        core::mem::swap(&mut self.state, &mut state);
        match state {
            State::Unbatched { task } => match queue.enqueue(task, rx) {
                Ok(enqueued) => {
                    self.state = State::Batched(Receiver::new(enqueued.index, rx));
                    match enqueued.assignment {
                        Some(assignment) => Polled::Process(assignment),
                        None => Polled::Pending,
                    }
                },
                Err(task) => {
                    self.state = State::Unbatched { task };
                    Polled::Wake
                },
            },
            State::Batched(own) => match own.value {
                Some(value) => Polled::Ready(value),
                None => {
                    self.state = State::Batched(
                        Receiver { index: own.index, rx: own.rx, value: None },
                    );
                    Polled::Pending
                },
            },
            State::Received => Polled::Pending,
        }
    }

    /// The value of the task arrives.
    pub fn receive(&mut self, value: T::Value)
        requires
            old(self).state is Batched,
        ensures
            final(self).state == State::<T>::Batched(
                Receiver { value: Some(value), ..old(self).state->Batched_0 },
            ),
    {
        let mut state = State::Received;
        core::mem::swap(&mut self.state, &mut state);
        match state {
            State::Batched(rx) => {
                self.state = State::Batched(
                    Receiver { index: rx.index, rx: rx.rx, value: Some(value) },
                );
            },
            _ => vstd::pervasive::unreached(),
        }
    }

    /// Announces that the receiver goes, so that nobody hands a value to it any more, and says
    /// whether it may go at once. A task that has the cell by now, and waits for a receiver of its
    /// own, notices nothing.
    pub fn drop(&mut self, queue: &mut StackQueue<TaskRef<T>, N>) -> (dropping: Dropping)
        requires
            old(queue).ready(),
            old(self).state matches State::Batched(rx) ==> rx.index < N,
        ensures
            final(queue).ready(),
            final(queue).system() == old(queue).system(),
            match old(self).state {
                State::Batched(rx) => {
                    let cell = old(queue).cells()[rx.index as int];
                    &&& final(queue).cells() == old(queue).cells().update(
                        rx.index as int,
                        forsaken(cell, rx.rx),
                    )
                    &&& forall|j: int|
                        0 <= j < N && old(queue).cells()[j].rx != Some(rx.rx)
                            ==> #[trigger] final(queue).cells()[j] == old(queue).cells()[j]
                    &&& settled(rx, seen(cell, rx.rx), final(self).state, dropping)
                },
                _ => {
                    &&& final(queue).cells() == old(queue).cells()
                    &&& final(self).state == old(self).state
                    &&& dropping is Done
                },
            },
    {
        let mut state = State::Received;
        core::mem::swap(&mut self.state, &mut state);
        match state {
            State::Batched(mut rx) => {
                let word = match queue.or_state(rx.index, rx.rx, RECEIVER_DROPPED) {
                    Some(word) => word,
                    None => VALUE_SET,
                };
                let dropping = rx.settle(word);
                proof {
                    let cells = old(queue).cells();
                    assert(queue.cells() =~= cells.update(
                        rx.index as int,
                        forsaken(cells[rx.index as int], rx.rx),
                    ));
                }
                self.state = State::Batched(rx);
                dropping
            },
            other => {
                self.state = other;
                Dropping::Done
            },
        }
    }

    /// Looks again whether the receiver may go.
    pub fn drop_retry(&mut self, queue: &StackQueue<TaskRef<T>, N>) -> (dropping: Dropping)
        requires
            queue.ready(),
            old(self).state matches State::Batched(rx) ==> rx.index < N,
        ensures
            match old(self).state {
                State::Batched(rx) => settled(
                    rx,
                    seen(queue.cells()[rx.index as int], rx.rx),
                    final(self).state,
                    dropping,
                ),
                _ => final(self).state == old(self).state && dropping is Done,
            },
    {
        let mut state = State::Received;
        core::mem::swap(&mut self.state, &mut state);
        match state {
            State::Batched(mut rx) => {
                let word = match queue.state(rx.index, rx.rx) {
                    Some(word) => word,
                    None => VALUE_SET,
                };
                let dropping = rx.settle(word);
                self.state = State::Batched(rx);
                dropping
            },
            other => {
                self.state = other;
                Dropping::Done
            },
        }
    }
}

/// What polling a task comes to, whose value is to arrive at address `rx`: a task that is not in a
/// batch yet is handed in, unless the queue refuses it; one that is waits for its value, and gives
/// it out when it is there; and one that gave it out stays pending.
pub open spec fn batch_polled<T: TaskQueue, const N: usize>(
    before: State<T>,
    rx: usize,
    queue: QueueView<TaskRef<T>>,
    polled: Polled<T, N>,
    after: State<T>,
    later: QueueView<TaskRef<T>>,
) -> bool {
    match before {
        State::Unbatched { task } => if queue.refuses() {
            &&& polled == Polled::<T, N>::Wake
            &&& after == before
            &&& later == queue
        } else {
            &&& later == queue.pushed(fresh::<T>(task, rx))
            &&& after == State::<T>::Batched(
                Receiver { index: (queue.tail % (N as int)) as usize, rx, value: None },
            )
            &&& queue.open is Some ==> polled == Polled::<T, N>::Pending
            &&& queue.open is None ==> polled is Process
            &&& polled matches Polled::Process(assignment) ==> assignment.wf()
                && assignment.start() == queue.tail
        },
        State::Batched(own) => {
            &&& later == queue
            &&& match own.value {
                Some(value) => {
                    &&& polled == Polled::<T, N>::Ready(value)
                    &&& after == State::<T>::Received
                },
                None => {
                    &&& polled == Polled::<T, N>::Pending
                    &&& after == before
                },
            }
        },
        State::Received => {
            &&& polled == Polled::<T, N>::Pending
            &&& after == before
            &&& later == queue
        },
    }
}

/// The state that the receiver at address `rx` sees in the cell of its task. Once another task has
/// the cell, nobody hands a value to the receiver any more, as if its own had arrived.
pub open spec fn seen<T: TaskQueue>(cell: TaskRef<T>, rx: usize) -> usize {
    if cell.rx == Some(rx) {
        cell.state
    } else {
        VALUE_SET
    }
}

/// What the drop of the receiver at address `rx` makes of a cell: the task there learns of it if it
/// is the receiver's own.
pub open spec fn forsaken<T: TaskQueue>(cell: TaskRef<T>, rx: usize) -> TaskRef<T> {
    if cell.rx == Some(rx) {
        TaskRef { state: cell.state | RECEIVER_DROPPED, ..cell }
    } else {
        cell
    }
}

/// A receiver that saw `word` on its way out: it waits while the value is being handed over, and
/// takes a value that arrived with it.
pub open spec fn settled<T: TaskQueue>(
    rx: Receiver<T::Value>,
    word: usize,
    state: State<T>,
    dropping: Dropping,
) -> bool {
    &&& dropping is Wait <==> word & SETTING_VALUE == SETTING_VALUE
    &&& state == State::<T>::Batched(
        if dropping is Done && word & VALUE_SET == VALUE_SET {
            Receiver { value: None, ..rx }
        } else {
            rx
        },
    )
}

/// How far a task that is to be reduced got.
pub enum ReduceState<T: BatchReducer, F, const N: usize> {
    Unbatched { task: T::Task, reducer: F },
    Collecting { batch: UnboundedRange<T::Task, N>, reducer: F },
    Batched,
}

/// A task that is reduced together with its batch.
pub struct BatchReduce<T: BatchReducer, F, const N: usize> {
    pub state: ReduceState<T, F, N>,
}

/// What polling a task that is reduced or collected comes to.
pub enum Gathered<R> {
    /// Pending. The task has to be polled again.
    Wake,
    /// The result of the batch, for the task that began it; nothing for the tasks that joined.
    Ready(Option<R>),
}

/// The result is one that the reducer gives for the tasks.
pub open spec fn reduced_by<T, R, F: FnOnce(Vec<T>) -> R>(
    reducer: F,
    tasks: Seq<T>,
    result: R,
) -> bool {
    exists|batch: Vec<T>| batch@ == tasks && #[trigger] call_ensures(reducer, (batch,), result)
}

impl<T: BatchReducer, F, const N: usize> BatchReduce<T, F, N> {
    pub fn new(task: T::Task, reducer: F) -> (reduce: Self)
        ensures
            reduce.state == (ReduceState::<T, F, N>::Unbatched { task, reducer }),
    {
        BatchReduce { state: ReduceState::Unbatched { task, reducer } }
    }

    /// Hands the task in, if that was not done yet. The task that began a batch is polled again,
    /// then bounds the batch and reduces the tasks that are in it by now, in order. The range of
    /// the batch is given back once the reducer is through.
    pub fn poll<R>(&mut self, queue: &mut StackQueue<BufferCell<T::Task>, N>) -> (polled: Gathered<
        R,
    >) where F: FnOnce(Vec<T::Task>) -> R
        requires
            old(queue).ready(),
            match old(self).state {
                ReduceState::Unbatched { task, reducer } => old(queue)@.has_room(),
                ReduceState::Collecting { batch, reducer } => {
                    &&& batch.wf()
                    &&& old(queue)@.open == Some(batch.start())
                    &&& forall|tasks: Vec<T::Task>|
                        tasks@ == old(queue)@.tasks(batch.start()) ==> call_requires(
                            reducer,
                            (tasks,),
                        )
                },
                ReduceState::Batched => true,
            },
        ensures
            final(queue).ready(),
            reduce_polled::<T, F, R, N>(
                old(self).state,
                old(queue)@,
                polled,
                final(self).state,
                final(queue)@,
            ),
            match old(self).state {
                ReduceState::Unbatched { task, reducer } => final(queue).system().shared
                    == if old(queue)@.refuses() {
                    old(queue).system().shared
                } else {
                    old(queue).system().shared_after_push()
                },
                ReduceState::Collecting { batch, reducer } => {
                    &&& final(queue).system().shared == old(queue).system().bounded().released(
                        batch.start(),
                    ).shared
                    &&& polled matches Gathered::Ready(Some(result))
                    &&& final(self).state is Batched
                },
                ReduceState::Batched => final(queue).system() == old(queue).system(),
            },
    {
        let mut state = ReduceState::Batched;
        core::mem::swap(&mut self.state, &mut state);
        match state {
            ReduceState::Unbatched { task, reducer } => match queue.push(task) {
                Ok(Some(batch)) => {
                    self.state = ReduceState::Collecting { batch, reducer };
                    Gathered::Wake
                },
                Ok(None) => Gathered::Ready(None),
                Err(task) => {
                    self.state = ReduceState::Unbatched { task, reducer };
                    Gathered::Wake
                },
            },
            ReduceState::Collecting { batch, reducer } => {
                let ghost start = batch.start();
                let mut iter = batch.into_bounded(queue).into_iter();
                let tasks = iter.drain(queue);
                let ghost drained = tasks;
                let ghost applied = reducer;
                assert(drained@ == old(queue)@.tasks(start));
                let result = reducer(tasks);
                iter.drop(queue);
                assert(call_ensures(applied, (drained,), result));
                assert(reduced_by(applied, old(queue)@.tasks(start), result));
                Gathered::Ready(Some(result))
            },
            ReduceState::Batched => Gathered::Ready(None),
        }
    }
}

/// What polling a task that is reduced comes to: a task that is not in a batch yet is handed in, and
/// waits if it began one; the task that began a batch gets the result of the reducer for the tasks
/// that are in it by now; and a task that is through stays so.
pub open spec fn reduce_polled<T: BatchReducer, F: FnOnce(Vec<T::Task>) -> R, R, const N: usize>(
    before: ReduceState<T, F, N>,
    queue: QueueView<BufferCell<T::Task>>,
    polled: Gathered<R>,
    after: ReduceState<T, F, N>,
    later: QueueView<BufferCell<T::Task>>,
) -> bool {
    match before {
        ReduceState::Unbatched { task, reducer } => if queue.refuses() {
            &&& polled == Gathered::<R>::Wake
            &&& after == before
            &&& later == queue
        } else {
            &&& later == queue.pushed(crate::queue::holding(task))
            &&& match queue.open {
                Some(_) => {
                    &&& polled == Gathered::<R>::Ready(None)
                    &&& after == ReduceState::<T, F, N>::Batched
                },
                None => {
                    &&& polled == Gathered::<R>::Wake
                    &&& after matches ReduceState::Collecting { batch, reducer: kept } && kept
                        == reducer && batch.wf() && batch.start() == queue.tail
                },
            }
        },
        ReduceState::Collecting { batch, reducer } => {
            &&& later == queue.bounded().released(batch.start())
            &&& after == ReduceState::<T, F, N>::Batched
            &&& polled matches Gathered::Ready(Some(result)) && reduced_by(
                reducer,
                queue.tasks(batch.start()),
                result,
            )
        },
        ReduceState::Batched => {
            &&& polled == Gathered::<R>::Ready(None)
            &&& after == before
            &&& later == queue
        },
    }
}

/// How far a task that is to be collected got.
pub enum CollectState<T: BatchReducer, const N: usize> {
    Unbatched { task: T::Task },
    Collecting { batch: UnboundedRange<T::Task, N> },
    Batched,
}

/// A task that is collected together with its batch.
pub struct BatchCollect<T: BatchReducer, const N: usize> {
    pub state: CollectState<T, N>,
}

impl<T: BatchReducer, const N: usize> BatchCollect<T, N> {
    pub fn new(task: T::Task) -> (collect: Self)
        ensures
            collect.state == (CollectState::<T, N>::Unbatched { task }),
    {
        BatchCollect { state: CollectState::Unbatched { task } }
    }

    /// Hands the task in, if that was not done yet. The task that began a batch is polled again,
    /// then bounds the batch and collects the tasks that are in it by now, in order.
    pub fn poll(&mut self, queue: &mut StackQueue<BufferCell<T::Task>, N>) -> (polled: Gathered<
        Vec<T::Task>,
    >)
        requires
            old(queue).ready(),
            match old(self).state {
                CollectState::Unbatched { task } => old(queue)@.has_room(),
                CollectState::Collecting { batch } => batch.wf() && old(queue)@.open == Some(
                    batch.start(),
                ),
                CollectState::Batched => true,
            },
        ensures
            final(queue).ready(),
            collect_polled::<T, N>(
                old(self).state,
                old(queue)@,
                polled,
                final(self).state,
                final(queue)@,
            ),
            match old(self).state {
                CollectState::Unbatched { task } => final(queue).system().shared == if old(
                    queue,
                )@.refuses() {
                    old(queue).system().shared
                } else {
                    old(queue).system().shared_after_push()
                },
                CollectState::Collecting { batch } => {
                    &&& final(queue).system().shared == old(queue).system().bounded().released(
                        batch.start(),
                    ).shared
                    &&& polled matches Gathered::Ready(Some(tasks)) && tasks@ == old(queue)@.tasks(
                        batch.start(),
                    )
                    &&& final(self).state is Batched
                },
                CollectState::Batched => final(queue).system() == old(queue).system(),
            },
    {
        let mut state = CollectState::Batched;
        core::mem::swap(&mut self.state, &mut state);
        match state {
            CollectState::Unbatched { task } => match queue.push(task) {
                Ok(Some(batch)) => {
                    self.state = CollectState::Collecting { batch };
                    Gathered::Wake
                },
                Ok(None) => Gathered::Ready(None),
                Err(task) => {
                    self.state = CollectState::Unbatched { task };
                    Gathered::Wake
                },
            },
            CollectState::Collecting { batch } => Gathered::Ready(
                Some(batch.into_bounded(queue).to_vec(queue)),
            ),
            CollectState::Batched => Gathered::Ready(None),
        }
    }
}

/// What polling a task that is collected comes to: a task that is not in a batch yet is handed in,
/// and waits if it began one; the task that began a batch gets the tasks that are in it by now; and a
/// task that is through stays so.
pub open spec fn collect_polled<T: BatchReducer, const N: usize>(
    before: CollectState<T, N>,
    queue: QueueView<BufferCell<T::Task>>,
    polled: Gathered<Vec<T::Task>>,
    after: CollectState<T, N>,
    later: QueueView<BufferCell<T::Task>>,
) -> bool {
    match before {
        CollectState::Unbatched { task } => if queue.refuses() {
            &&& polled == Gathered::<Vec<T::Task>>::Wake
            &&& after == before
            &&& later == queue
        } else {
            &&& later == queue.pushed(crate::queue::holding(task))
            &&& match queue.open {
                Some(_) => {
                    &&& polled == Gathered::<Vec<T::Task>>::Ready(None)
                    &&& after == CollectState::<T, N>::Batched
                },
                None => {
                    &&& polled == Gathered::<Vec<T::Task>>::Wake
                    &&& after matches CollectState::Collecting { batch } && batch.wf()
                        && batch.start() == queue.tail
                },
            }
        },
        CollectState::Collecting { batch } => {
            &&& later == queue.bounded().released(batch.start())
            &&& after == CollectState::<T, N>::Batched
            &&& polled matches Gathered::Ready(Some(tasks)) && tasks@ == queue.tasks(batch.start())
        },
        CollectState::Batched => {
            &&& polled == Gathered::<Vec<T::Task>>::Ready(None)
            &&& after == before
            &&& later == queue
        },
    }
}

} // verus!
