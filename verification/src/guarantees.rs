//! What single operations are for, in terms of what goes in and what comes out.
use vstd::prelude::*;

use crate::expand::{CellKind, ExpandError, ImplKind, OutlineView, Piece, Plan, QueueOpt, Variant};
use crate::laws::Reduction;
use crate::queue::{BatchReducer, BufferCell, QueueView, StackQueue, TaskQueue};
use crate::session::Session;
use crate::system::System;
use crate::task::{
    CollectState, Delivery, Dropping, Gathered, Polled, Receiver, ReduceState, State, TaskRef,
};

verus! {

/// Values align with tasks: they are drawn in order from the beginning of the iterator, one for each
/// task as long as there are any, so that the value at a place is the one that the iterator has at
/// the same place.
pub proof fn law_values_align_with_tasks<V>(remaining: Seq<V>, len: int, values: Seq<V>)
    requires
        0 <= len,
        crate::assignment::yielded(remaining, len, values),
    ensures
        remaining.len() <= len ==> values.len() == remaining.len(),
        remaining.len() >= len ==> values.len() == len,
        forall|i: int| 0 <= i < values.len() ==> #[trigger] values[i] == remaining[i],
{
}

/// Which tasks get their values: one delivery goes out for each task whose receiver was not dropped,
/// in the order of the tasks, to the receiver of that task and with the value at its place.
pub proof fn law_deliveries_match_tasks<T: TaskQueue>(
    cells: Seq<TaskRef<T>>,
    values: Seq<T::Value>,
) -> (places: Seq<int>)
    requires
        cells.len() == values.len(),
    ensures
        places.len() == crate::assignment::deliveries::<T>(cells, values).len(),
        forall|j: int|
            0 <= j < places.len() ==> 0 <= #[trigger] places[j] < cells.len()
                && cells[places[j]].state & 4 == 0,
        forall|j: int|
            0 <= j < places.len() ==> #[trigger] crate::assignment::deliveries::<T>(cells, values)[j]
                == (Delivery { rx: cells[places[j]].rx->0, value: values[places[j]] }),
        forall|j: int, k: int|
            0 <= j < k < places.len() ==> #[trigger] places[j] < #[trigger] places[k],
        forall|k: int|
            0 <= k < cells.len() && (#[trigger] cells[k]).state & 4 == 0 ==> places.contains(k),
    decreases cells.len(),
{
    if cells.len() == 0 {
        Seq::empty()
    } else {
        let last = cells.len() - 1;
        let before = law_deliveries_match_tasks::<T>(cells.drop_last(), values.drop_last());
        let prior = crate::assignment::deliveries::<T>(cells.drop_last(), values.drop_last());
        let sent = crate::assignment::deliveries::<T>(cells, values);
        assert forall|j: int| 0 <= j < before.len() implies 0 <= #[trigger] before[j] < last
            && cells[before[j]].state & 4 == 0 && prior[j] == (Delivery {
            rx: cells[before[j]].rx->0,
            value: values[before[j]],
        }) by {
            assert(cells.drop_last()[before[j]] == cells[before[j]]);
            assert(values.drop_last()[before[j]] == values[before[j]]);
        }
        let places = if cells[last].state & 4 == 0 {
            before.push(last)
        } else {
            before
        };
        assert forall|j: int| 0 <= j < places.len() implies #[trigger] sent[j] == (Delivery {
            rx: cells[places[j]].rx->0,
            value: values[places[j]],
        }) by {
            if j < before.len() {
                assert(before[j] == places[j]);
                assert(sent[j] == prior[j]);
            }
        }
        assert forall|k: int|
            0 <= k < cells.len() && (#[trigger] cells[k]).state & 4
                == 0 implies places.contains(k) by {
            if k < last {
                assert(cells.drop_last()[k] == cells[k]);
                let j = choose|j: int| 0 <= j < before.len() && before[j] == k;
                assert(places[j] == k);
            } else {
                assert(places[before.len() as int] == k);
            }
        }
        places
    }
}

/// Resolving a batch with an iterator sends to the receiver of the task at a place, unless it was
/// dropped, the value that the iterator has at that place, and sends nothing else.
pub proof fn law_resolving_sends_aligned_values<T: TaskQueue>(
    cells: Seq<TaskRef<T>>,
    remaining: Seq<T::Value>,
    values: Seq<T::Value>,
    sent: Seq<Delivery<T::Value>>,
)
    requires
        crate::assignment::yielded(remaining, cells.len() as int, values),
        sent == crate::assignment::deliveries::<T>(cells.take(values.len() as int), values),
    ensures
        forall|i: int|
            0 <= i < cells.len() && i < remaining.len() && (#[trigger] cells[i]).state & 4 == 0
                ==> sent.contains(Delivery { rx: cells[i].rx->0, value: remaining[i] }),
        forall|j: int|
            0 <= j < sent.len() ==> exists|i: int|
                0 <= i < cells.len() && i < remaining.len() && #[trigger] sent[j] == (Delivery {
                    rx: (#[trigger] cells[i]).rx->0,
                    value: remaining[i],
                }),
{
    law_values_align_with_tasks(remaining, cells.len() as int, values);
    let taken = cells.take(values.len() as int);
    let places = law_deliveries_match_tasks::<T>(taken, values);
    assert forall|i: int|
        0 <= i < cells.len() && i < remaining.len() && (#[trigger] cells[i]).state & 4
            == 0 implies sent.contains(Delivery { rx: cells[i].rx->0, value: remaining[i] }) by {
        assert(taken[i] == cells[i]);
        let j = choose|j: int| 0 <= j < places.len() && places[j] == i;
        assert(sent[j] == (Delivery { rx: cells[i].rx->0, value: remaining[i] }));
    }
    assert forall|j: int| 0 <= j < sent.len() implies exists|i: int|
        0 <= i < cells.len() && i < remaining.len() && #[trigger] sent[j] == (Delivery {
            rx: (#[trigger] cells[i]).rx->0,
            value: remaining[i],
        }) by {
        let i = places[j];
        assert(taken[i] == cells[i]);
        assert(values[i] == remaining[i]);
    }
}

/// Mapping a batch gives each task its own value, however many tasks there are: the value at a place
/// is one that the function gives for the task at that place.
pub proof fn law_mapping_answers_each_task<T: TaskQueue, F: Fn(T::Task) -> T::Value>(
    op: F,
    cells: Seq<TaskRef<T>>,
    values: Seq<T::Value>,
)
    requires
        crate::assignment::mapped_by::<T, F>(op, cells, values),
    ensures
        values.len() == cells.len(),
        forall|i: int|
            0 <= i < cells.len() ==> call_ensures(
                op,
                ((#[trigger] cells[i]).task->0,),
                values[i],
            ),
        forall|i: int|
            0 <= i < cells.len() && (#[trigger] cells[i]).state & 4 == 0
                ==> crate::assignment::deliveries::<T>(cells, values).contains(
                Delivery { rx: cells[i].rx->0, value: values[i] },
            ),
{
    assert forall|i: int| 0 <= i < cells.len() implies call_ensures(
        op,
        ((#[trigger] cells[i]).task->0,),
        values[i],
    ) by {
        let value = values[i];
    }
    let places = law_deliveries_match_tasks::<T>(cells, values);
    assert forall|i: int|
        0 <= i < cells.len() && (#[trigger] cells[i]).state & 4
            == 0 implies crate::assignment::deliveries::<T>(cells, values).contains(
        Delivery { rx: cells[i].rx->0, value: values[i] },
    ) by {
        let j = choose|j: int| 0 <= j < places.len() && places[j] == i;
        assert(crate::assignment::deliveries::<T>(cells, values)[j] == (Delivery {
            rx: cells[i].rx->0,
            value: values[i],
        }));
    }
}

/// Mapping a bounded batch is a way to resolve it with values that answer its tasks, where the
/// function gives such values.
pub proof fn law_mapping_resolves<T: TaskQueue, F: Fn(T::Task) -> T::Value>(
    session: Session<T>,
    s: int,
    op: F,
    values: Seq<T::Value>,
    answers: spec_fn(T::Task, T::Value) -> bool,
)
    requires
        session.queue.batches.dom().contains(s),
        session.queue.open != Some(s),
        crate::assignment::mapped_by::<T, F>(op, session.queue.batches[s].cells, values),
        forall|task: T::Task, value: T::Value| #[trigger]
            call_ensures(op, (task,), value) ==> answers(task, value),
    ensures
        session.can_resolve(s, values, answers),
        values.len() == session.queue.batches[s].cells.len(),
        forall|k: int|
            0 <= k < values.len() ==> answers(
                session.queue.batches[s].cells[k].task->0,
                #[trigger] values[k],
            ),
{
    law_mapping_answers_each_task::<T, F>(op, session.queue.batches[s].cells, values);
    assert forall|k: int| 0 <= k < values.len() implies answers(
        session.queue.batches[s].cells[k].task->0,
        #[trigger] values[k],
    ) by {
        let cell = session.queue.batches[s].cells[k];
        assert(call_ensures(op, (cell.task->0,), values[k]));
    }
}

/// A task that is handed in has its receiver at the cell in which it was written, in a buffer of any
/// length: the receiver knows the index of that cell, and the cell knows the address of the receiver.
/// Nothing but the batch of the task changes.
pub proof fn law_receiver_knows_its_cell<T: TaskQueue, const N: usize>(
    task: T::Task,
    rx: usize,
    queue: QueueView<TaskRef<T>>,
    polled: Polled<T, N>,
    after: State<T>,
    later: QueueView<TaskRef<T>>,
)
    requires
        crate::valid_len(N as int),
        queue.n == N,
        0 <= queue.tail,
        queue.open matches Some(s) ==> queue.batches.dom().contains(s),
        !queue.refuses(),
        crate::task::batch_polled::<T, N>(
            State::<T>::Unbatched { task },
            rx,
            queue,
            polled,
            after,
            later,
        ),
    ensures
        after matches State::Batched(own) && own.rx == rx && own.value is None && own.index as int
            == queue.tail % (N as int),
        later.tail == queue.tail + 1,
        later.open is Some,
        later.batches.dom().contains(later.open->0),
        later.n == queue.n,
        later.open == Some(
            if queue.open is Some {
                queue.open->0
            } else {
                queue.tail
            },
        ),
        later.batches[later.open->0].cells.len() == if queue.open is Some {
            queue.batches[queue.open->0].cells.len() + 1
        } else {
            1
        },
        queue.open is Some ==> forall|k: int|
            0 <= k < queue.batches[queue.open->0].cells.len()
                ==> #[trigger] later.batches[queue.open->0].cells[k]
                == queue.batches[queue.open->0].cells[k],
        forall|t: int|
            Some(t) != later.open ==> (#[trigger] later.batches.dom().contains(t)
                <==> queue.batches.dom().contains(t)),
        forall|t: int|
            Some(t) != later.open && queue.batches.dom().contains(t) ==> #[trigger] later.batches[t]
                == queue.batches[t],
        later.batches[later.open->0].cells.last().rx == Some(rx),
        later.batches[later.open->0].cells.last().task == Some(task),
        later.batches[later.open->0].cells.last().state == 0,
{
    vstd::arithmetic::div_mod::lemma_mod_bound(queue.tail, N as int);
}

/// A task whose receiver is dropped before the task is resolved is sent no value. `run[0]` has the
/// task where its poll wrote it, the steps after that leave it alone, and then its receiver goes.
pub proof fn law_dropped_task_is_sent_nothing<T: TaskQueue, const N: usize>(
    task: T::Task,
    rx: usize,
    queue: QueueView<TaskRef<T>>,
    polled: Polled<T, N>,
    after: State<T>,
    later: QueueView<TaskRef<T>>,
    before: Seq<TaskRef<T>>,
    run: Seq<Seq<TaskRef<T>>>,
    i: int,
    batch: Seq<TaskRef<T>>,
    values: Seq<T::Value>,
    k: int,
)
    requires
        crate::valid_len(N as int),
        queue.n == N,
        0 <= queue.tail,
        queue.open matches Some(s) ==> queue.batches.dom().contains(s),
        !queue.refuses(),
        crate::task::batch_polled::<T, N>(
            State::<T>::Unbatched { task },
            rx,
            queue,
            polled,
            after,
            later,
        ),
        before.len() == N,
        0 <= i < run.len(),
        run[0] == before.update(
            queue.tail % (N as int),
            TaskRef { state: 0, rx: Some(rx), task: Some(task) },
        ),
        forall|m: int|
            0 <= m < run.len() - 1 ==> crate::laws::cells_step::<T>(
                #[trigger] run[m],
                run[m + 1],
                queue.tail % (N as int),
                rx,
            ),
        0 <= k < batch.len(),
        batch.len() == values.len(),
        batch[k] == run[i].update(
            after->Batched_0.index as int,
            crate::task::forsaken(
                run[i][after->Batched_0.index as int],
                after->Batched_0.rx,
            ),
        )[queue.tail % (N as int)],
        forall|m: int| 0 <= m < batch.len() && m != k ==> (#[trigger] batch[m]).rx != Some(rx),
        forall|m: int| 0 <= m < batch.len() ==> (#[trigger] batch[m]).rx is Some,
    ensures
        batch[k].rx == Some(rx),
        batch[k].state & 4 != 0,
        forall|j: int|
            0 <= j < crate::assignment::deliveries::<T>(batch, values).len()
                ==> (#[trigger] crate::assignment::deliveries::<T>(batch, values)[j]).rx != rx,
{
    let at = queue.tail % (N as int);
    vstd::arithmetic::div_mod::lemma_mod_bound(queue.tail, N as int);
    law_receiver_knows_its_cell::<T, N>(task, rx, queue, polled, after, later);
    assert(run[0][at] == crate::task::fresh::<T>(task, rx));
    crate::laws::law_task_is_silenced_by_its_own_receiver_alone::<T>(run, i, at, task, rx);
    crate::negotiation::lemma_bits(0);
    assert(batch[k] == (TaskRef::<T> {
        state: 0usize | crate::task::RECEIVER_DROPPED,
        rx: Some(rx),
        task: Some(task),
    }));
    let places = law_deliveries_match_tasks::<T>(batch, values);
    assert forall|j: int|
        0 <= j < crate::assignment::deliveries::<T>(batch, values).len() implies (
    #[trigger] crate::assignment::deliveries::<T>(batch, values)[j]).rx != rx by {
        let m = places[j];
        assert(batch[m].state & 4 == 0);
        assert(batch[m].rx is Some);
    }
}

/// A poll is ready exactly when the value is there, gives that value out, and leaves nothing behind;
/// a task that waits, is refused or is through does not change.
pub proof fn law_poll_gives_the_value_that_arrived<T: TaskQueue, const N: usize>(
    before: State<T>,
    rx: usize,
    queue: QueueView<TaskRef<T>>,
    polled: Polled<T, N>,
    after: State<T>,
    later: QueueView<TaskRef<T>>,
)
    requires
        crate::task::batch_polled::<T, N>(before, rx, queue, polled, after, later),
    ensures
        polled is Ready <==> before is Batched && before->Batched_0.value is Some,
        polled matches Polled::Ready(value) ==> before->Batched_0.value == Some(value)
            && after is Received && later == queue,
        before is Batched && before->Batched_0.value is None ==> polled is Pending && after == before
            && later == queue,
        before is Received ==> polled is Pending && after == before && later == queue,
        polled is Wake <==> before is Unbatched && queue.refuses(),
        polled is Wake ==> after == before && later == queue,
        polled is Process <==> before is Unbatched && !queue.refuses() && queue.open is None,
        polled matches Polled::Process(assignment) ==> assignment.start() == queue.tail
            && later.open == Some(queue.tail),
        before is Unbatched && !queue.refuses() && queue.open is Some ==> polled is Pending
            && later.open == queue.open,
{
}

/// Every batch that was opened is reduced, however many tasks it has: when the task that collects it
/// is polled, its reducer gives the result for exactly the tasks of the batch, in order, and the
/// batch is given back.
pub proof fn law_every_batch_is_reduced<
    T: BatchReducer,
    F: FnOnce(Vec<T::Task>) -> R,
    R,
    const N: usize,
>(
    run: Seq<Reduction<T, F, N>>,
    who: Seq<Option<int>>,
    polled: Seq<Gathered<R>>,
    i: int,
    t: int,
    s: int,
)
    requires
        crate::laws::reduction_run(run, who, polled),
        0 <= i < who.len(),
        who[i] == Some(t),
        run[i].collects(t, s),
    ensures
        polled[i] is Ready,
        polled[i]->Ready_0 is Some,
        exists|batch: Vec<T::Task>|
            batch@.len() == run[i].queue.batches[s].cells.len() && (forall|k: int|
                0 <= k < batch@.len() ==> #[trigger] batch@[k]
                    == run[i].queue.batches[s].cells[k].value->0) && #[trigger] call_ensures(
                run[i].tasks[t]->Collecting_reducer,
                (batch,),
                polled[i]->Ready_0->Some_0,
            ),
        run[i + 1].tasks[t] is Batched,
        run[i + 1].queue.open is None,
        run[i + 1].queue.n == run[i].queue.n,
        run[i + 1].queue.tail == run[i].queue.tail,
        forall|other: int| #[trigger]
            run[i + 1].queue.batches.dom().contains(other) <==> other != s
                && run[i].queue.batches.dom().contains(other),
        forall|other: int|
            other != s && run[i].queue.batches.dom().contains(other)
                ==> #[trigger] run[i + 1].queue.batches[other] == run[i].queue.batches[other],
{
    assert(run[i].polls_to::<R>(run[i + 1], t, polled[i]));
    let result = polled[i]->Ready_0->Some_0;
    let reducer = run[i].tasks[t]->Collecting_reducer;
    let tasks = run[i].queue.tasks(s);
    assert(crate::task::reduced_by(reducer, tasks, result));
    let batch = choose|batch: Vec<T::Task>|
        batch@ == tasks && #[trigger] call_ensures(reducer, (batch,), result);
    assert(call_ensures(reducer, (batch,), result));
}

/// The task that opens a batch becomes the one that reduces it, with the reducer it came with; a task
/// that joins a batch is through without a result, and one that is refused comes again.
pub proof fn law_opener_collects<T: BatchReducer, F: FnOnce(Vec<T::Task>) -> R, R, const N: usize>(
    task: T::Task,
    reducer: F,
    queue: QueueView<BufferCell<T::Task>>,
    polled: Gathered<R>,
    after: ReduceState<T, F, N>,
    later: QueueView<BufferCell<T::Task>>,
)
    requires
        crate::task::reduce_polled::<T, F, R, N>(
            ReduceState::<T, F, N>::Unbatched { task, reducer },
            queue,
            polled,
            after,
            later,
        ),
        queue.open matches Some(s) ==> queue.batches.dom().contains(s),
    ensures
        queue.refuses() ==> polled is Wake && later == queue && after == (ReduceState::<
            T,
            F,
            N,
        >::Unbatched { task, reducer }),
        !queue.refuses() ==> {
            &&& later.tail == queue.tail + 1
            &&& later.n == queue.n
            &&& later.open is Some
            &&& later.batches[later.open->0].cells.last().value == Some(task)
            &&& forall|t: int|
                Some(t) != later.open ==> (#[trigger] later.batches.dom().contains(t)
                    <==> queue.batches.dom().contains(t))
            &&& forall|t: int|
                Some(t) != later.open && queue.batches.dom().contains(t)
                    ==> #[trigger] later.batches[t] == queue.batches[t]
        },
        !queue.refuses() && queue.open is None ==> {
            &&& polled is Wake
            &&& after matches ReduceState::Collecting { batch, reducer: kept } && kept == reducer
                && batch.start() == queue.tail
            &&& later.open == Some(queue.tail)
            &&& later.batches[queue.tail].cells.len() == 1
        },
        !queue.refuses() && queue.open is Some ==> {
            &&& polled is Ready
            &&& polled->Ready_0 is None
            &&& after is Batched
            &&& later.open == queue.open
            &&& later.batches[queue.open->0].cells.len()
                == queue.batches[queue.open->0].cells.len() + 1
            &&& forall|k: int|
                0 <= k < queue.batches[queue.open->0].cells.len()
                    ==> #[trigger] later.batches[queue.open->0].cells[k]
                    == queue.batches[queue.open->0].cells[k]
        },
{
}

/// A task that is through stays through: it gets no result, and runs no reducer.
pub proof fn law_through_stays_through<
    T: BatchReducer,
    F: FnOnce(Vec<T::Task>) -> R,
    R,
    const N: usize,
>(
    queue: QueueView<BufferCell<T::Task>>,
    polled: Gathered<R>,
    after: ReduceState<T, F, N>,
    later: QueueView<BufferCell<T::Task>>,
)
    requires
        crate::task::reduce_polled::<T, F, R, N>(
            ReduceState::<T, F, N>::Batched,
            queue,
            polled,
            after,
            later,
        ),
    ensures
        polled is Ready,
        polled->Ready_0 is None,
        after is Batched,
        later == queue,
{
}

/// Every batch that was opened is collected: the task that opened it gets exactly its tasks, in
/// order, and gives it back. A task that opens a batch waits for it, and a task that joins one is
/// through.
pub proof fn law_every_batch_is_collected<T: BatchReducer, const N: usize>(
    before: CollectState<T, N>,
    queue: QueueView<BufferCell<T::Task>>,
    polled: Gathered<Vec<T::Task>>,
    after: CollectState<T, N>,
    later: QueueView<BufferCell<T::Task>>,
)
    requires
        crate::task::collect_polled::<T, N>(before, queue, polled, after, later),
        queue.open matches Some(s) ==> queue.batches.dom().contains(s),
    ensures
        before matches CollectState::Collecting { batch } ==> {
            &&& polled is Ready
            &&& polled->Ready_0 is Some
            &&& polled->Ready_0->Some_0@.len() == queue.batches[batch.start()].cells.len()
            &&& forall|k: int|
                0 <= k < queue.batches[batch.start()].cells.len()
                    ==> #[trigger] polled->Ready_0->Some_0@[k]
                    == queue.batches[batch.start()].cells[k].value->0
            &&& after is Batched
            &&& later.open is None
            &&& later.n == queue.n
            &&& later.tail == queue.tail
            &&& forall|t: int| #[trigger]
                later.batches.dom().contains(t) <==> t != batch.start()
                    && queue.batches.dom().contains(t)
            &&& forall|t: int|
                t != batch.start() && queue.batches.dom().contains(t)
                    ==> #[trigger] later.batches[t] == queue.batches[t]
        },
        before matches CollectState::Unbatched { task } ==> {
            &&& queue.refuses() ==> polled is Wake && after == before && later == queue
            &&& !queue.refuses() ==> {
                &&& later.tail == queue.tail + 1
                &&& later.n == queue.n
                &&& later.open is Some
                &&& later.batches[later.open->0].cells.last().value == Some(task)
                &&& forall|t: int|
                    Some(t) != later.open ==> (#[trigger] later.batches.dom().contains(t)
                        <==> queue.batches.dom().contains(t))
                &&& forall|t: int|
                    Some(t) != later.open && queue.batches.dom().contains(t)
                        ==> #[trigger] later.batches[t] == queue.batches[t]
            }
            &&& !queue.refuses() && queue.open is None ==> {
                &&& polled is Wake
                &&& after matches CollectState::Collecting { batch } && batch.start() == queue.tail
                &&& later.open == Some(queue.tail)
                &&& later.batches[queue.tail].cells.len() == 1
            }
            &&& !queue.refuses() && queue.open is Some ==> {
                &&& polled is Ready
                &&& polled->Ready_0 is None
                &&& after is Batched
                &&& later.open == queue.open
                &&& later.batches[queue.open->0].cells.len()
                    == queue.batches[queue.open->0].cells.len() + 1
                &&& forall|k: int|
                    0 <= k < queue.batches[queue.open->0].cells.len()
                        ==> #[trigger] later.batches[queue.open->0].cells[k]
                        == queue.batches[queue.open->0].cells[k]
            }
        },
        before is Batched ==> polled is Ready && polled->Ready_0 is None && after is Batched && later
            == queue,
{
}

/// A plan that is made has the buffer size of the arguments, which is a power of two within bounds,
/// stands for the trait of the block, and names the first item that defines a type `Task`.
pub proof fn law_plan_keeps_what_was_asked_for(
    opt: Result<QueueOpt, Seq<char>>,
    outline: Result<OutlineView, Seq<char>>,
    plan: Plan,
)
    requires
        crate::expand::planned(opt, outline, Ok(plan)),
    ensures
        opt is Ok,
        outline is Ok,
        plan.buffer_size == opt->Ok_0.buffer_size,
        crate::valid_len(plan.buffer_size as int),
        plan.task_item < outline->Ok_0.items.len(),
        outline->Ok_0.items[plan.task_item as int] == Some("Task"@),
        forall|i: int|
            0 <= i < plan.task_item ==> #[trigger] outline->Ok_0.items[i] != Some("Task"@),
        outline->Ok_0.trait_path matches Some(path) && path.len() > 0 && path.len() <= 2 && (path.len()
            == 2 ==> path[0] == "stack_queue"@) && path.last() == (match plan.variant {
            Variant::TaskQueue => "TaskQueue"@,
            Variant::BackgroundQueue => "BackgroundQueue"@,
            Variant::BatchReducer => "BatchReducer"@,
        }),
        plan.cell is TaskRef <==> plan.variant is TaskQueue,
        plan.queue_impl is TaskOnly <==> plan.variant is BatchReducer,
{
    lemma_first_task_item(outline->Ok_0.items, 0);
}

proof fn lemma_first_task_item(items: Seq<Option<Seq<char>>>, i: int)
    requires
        0 <= i <= items.len(),
    ensures
        match crate::expand::task_item_from(items, i) {
            Some(found) => {
                &&& i <= found < items.len()
                &&& items[found] == Some("Task"@)
                &&& forall|k: int| i <= k < found ==> #[trigger] items[k] != Some("Task"@)
            },
            None => forall|k: int| i <= k < items.len() ==> #[trigger] items[k] != Some("Task"@),
        },
    decreases items.len() - i,
{
    if i < items.len() {
        lemma_first_task_item(items, i + 1);
    }
}

/// A plan is made exactly where there is an impl block of one of the traits that defines a type
/// `Task`, and a buffer size that a queue accepts; and of several defects the first one is reported.
pub proof fn law_plan_is_made_where_all_is_in_order(
    opt: Result<QueueOpt, Seq<char>>,
    outline: Result<OutlineView, Seq<char>>,
    r: Result<Plan, ExpandError>,
)
    requires
        crate::expand::planned(opt, outline, r),
    ensures
        ({
            let size = opt->Ok_0.buffer_size;
            let path = outline->Ok_0.trait_path;
            let named = path matches Some(path) && (path == seq!["TaskQueue"@] || path
                == seq!["stack_queue"@, "TaskQueue"@] || path == seq!["BackgroundQueue"@] || path
                == seq!["stack_queue"@, "BackgroundQueue"@] || path == seq!["BatchReducer"@] || path
                == seq!["stack_queue"@, "BatchReducer"@]);
            let defines = exists|i: int|
                0 <= i < outline->Ok_0.items.len() && #[trigger] outline->Ok_0.items[i] == Some(
                    "Task"@,
                );
            let small = size < 64;
            let large = size > crate::MAX_BUFFER_LEN;
            let odd = !vstd::arithmetic::power2::is_pow2(size as int);
            &&& r is Ok <==> outline is Ok && opt is Ok && !large && !small && !odd && named && defines
            &&& (r is Err && r->Err_0 is Syntax) <==> outline is Err
            &&& r matches Err(ExpandError::Syntax(told)) ==> outline == Err::<OutlineView, Seq<char>>(
                told@,
            )
            &&& r matches Err(ExpandError::Attribute(told)) ==> opt == Err::<QueueOpt, Seq<char>>(
                told@,
            )
            &&& (r is Err && r->Err_0 is Attribute) <==> outline is Ok && opt is Err
            &&& (r is Err && r->Err_0 is TooLarge) <==> outline is Ok && opt is Ok && large
            &&& (r is Err && r->Err_0 is TooSmall) <==> outline is Ok && opt is Ok && small
            &&& (r is Err && r->Err_0 is NotPowerOfTwo) <==> outline is Ok && opt is Ok && !large
                && !small && odd
            &&& (r is Err && r->Err_0 is NotAQueue) <==> outline is Ok && opt is Ok && !large && !small
                && !odd && !named
            &&& (r is Err && r->Err_0 is MissingTask) <==> outline is Ok && opt is Ok && !large && !small
                && !odd && named && !defines
        }),
{
    crate::helpers::lemma_widths();
    lemma_first_task_item(outline->Ok_0.items, 0);
}

/// What the decision is made on is the block as it was read: the idents along the path of its trait,
/// and for each of its items the name of the type that it defines.
pub proof fn law_outline_keeps_names(outline: crate::expand::Outline)
    ensures
        outline@.trait_path is Some <==> outline.trait_path is Some,
        outline.trait_path matches Some(path) ==> outline@.trait_path->0.len() == path@.len() && (
        forall|i: int|
            0 <= i < path@.len() ==> #[trigger] outline@.trait_path->0[i] == path@[i]@),
        outline@.items.len() == outline.items@.len(),
        forall|i: int|
            0 <= i < outline.items@.len() ==> (outline.items@[i] is Some
                <==> #[trigger] outline@.items[i] is Some) && (outline.items@[i] matches Some(name)
                ==> outline@.items[i] == Some(name@)),
        crate::expand::outline_view(Ok(outline)) == Ok::<OutlineView, Seq<char>>(outline@),
        forall|text: String| #[trigger]
            crate::expand::outline_view(Err(text)) == Err::<OutlineView, Seq<char>>(text@),
        forall|opt: QueueOpt| #[trigger]
            crate::expand::opt_view(Ok(opt)) == Ok::<QueueOpt, Seq<char>>(opt),
        forall|text: String| #[trigger]
            crate::expand::opt_view(Err(text)) == Err::<QueueOpt, Seq<char>>(text@),
{
}

/// The impls that give a type its thread local queue are written out in full, for the cells that go
/// with its trait. The one with the thread locals of `loom` has the same parts at the same places as
/// the one with those of `std`.
pub proof fn law_local_queue_is_written_out(cell: CellKind, loom: bool)
    ensures
        ({
            let before = if cell is TaskRef {
                Piece::Text("stack_queue::task::TaskRef<")
            } else {
                Piece::Text("stack_queue::BufferCell<")
            };
            let argument = if cell is TaskRef {
                Piece::SelfType
            } else {
                Piece::TaskType
            };
            crate::expand::local_pieces(cell, loom) == seq![
                Piece::Text(
                    if loom {
                        "#[cfg(loom)] impl stack_queue::LocalQueue<"
                    } else {
                        "#[cfg(not(loom))] impl stack_queue::LocalQueue<"
                    },
                ),
                Piece::BufferSize,
                Piece::Text("> for"),
                Piece::SelfType,
                Piece::Open,
                Piece::Text("type BufferCell ="),
                before,
                argument,
                Piece::Text(">"),
                Piece::Text(
                    if loom {
                        "; fn queue() -> &'static stack_queue::loom::thread::LocalKey<"
                    } else {
                        "; fn queue() -> &'static std::thread::LocalKey<"
                    },
                ),
                Piece::Text("stack_queue::StackQueue<"),
                before,
                argument,
                Piece::Text(">"),
                Piece::Text(","),
                Piece::BufferSize,
                Piece::Text(">"),
                Piece::Text(">"),
                Piece::Open,
                Piece::Text(
                    if loom {
                        "stack_queue::loom::thread_local!"
                    } else {
                        "thread_local!"
                    },
                ),
                Piece::Open,
                Piece::Text("static QUEUE:"),
                Piece::Text("stack_queue::StackQueue<"),
                before,
                argument,
                Piece::Text(">"),
                Piece::Text(","),
                Piece::BufferSize,
                Piece::Text(">"),
                Piece::Text("= stack_queue::StackQueue::default();"),
                Piece::Close,
                Piece::Text("&QUEUE"),
                Piece::Close,
                Piece::Close,
            ]
        }),
        crate::expand::impl_pieces(ImplKind::TaskOnly) == seq![
            Piece::Text("impl stack_queue::BatchReducer for"),
            Piece::SelfType,
            Piece::Open,
            Piece::Text("type Task ="),
            Piece::TaskType,
            Piece::Text(";"),
            Piece::Close,
        ],
{
}

/// When a task is refused. Regions are the eighths of the buffer, or its quarters where words have 32
/// bits. A task that enters a region is refused while a live batch that began in that region is there,
/// or 256 of those that began in the region before it; no other task is.
pub proof fn law_refusal<C>(queue: QueueView<C>)
    ensures
        ({
            let c = if usize::BITS == 64 {
                8int
            } else {
                4
            };
            let l = queue.n / c;
            let entered = (queue.tail / l) % c;
            let left = ((queue.tail - 1) / l) % c;
            queue.refuses() <==> queue.tail % l == 0 && ((exists|s: int| #[trigger]
                queue.batches.dom().contains(s) && (s / l) % c == entered)
                || queue.batches.dom().filter(|s: int| (s / l) % c == left).len() >= 256)
        }),
{
    let c = if usize::BITS == 64 {
        8int
    } else {
        4
    };
    let l = queue.n / c;
    let left = ((queue.tail - 1) / l) % c;
    assert(queue.begun_in(left) =~= queue.batches.dom().filter(|s: int| (s / l) % c == left));
}

/// When a task can be counted. One that joins a batch, or enters a region, always can, and so can any
/// where regions are no longer than 255; else the batches that began in the region of the task, and
/// 256 times those in the region after it, if there is one, have to leave room for one more in as many
/// bytes.
pub proof fn law_room<C>(queue: QueueView<C>)
    ensures
        ({
            let c = if usize::BITS == 64 {
                8int
            } else {
                4
            };
            let l = queue.n / c;
            let r = (queue.tail / l) % c;
            let here = queue.batches.dom().filter(|s: int| (s / l) % c == r).len();
            let next = queue.batches.dom().filter(|s: int| (s / l) % c == r + 1).len();
            queue.has_room() <==> queue.open is Some || l <= 255 || queue.tail % l == 0 || (if r
                < c - 1 {
                here + 256 * next < 65535
            } else {
                here < 255
            })
        }),
{
    crate::helpers::lemma_widths();
    let c = if usize::BITS == 64 {
        8int
    } else {
        4
    };
    let l = queue.n / c;
    let r = (queue.tail / l) % c;
    assert(queue.begun_in(r) =~= queue.batches.dom().filter(|s: int| (s / l) % c == r));
    assert(queue.begun_in(r + 1) =~= queue.batches.dom().filter(|s: int| (s / l) % c == r + 1));
}

/// A task that is accepted while a batch is open takes the next position, and goes to the end of that
/// batch; nothing else changes.
pub proof fn law_push_joins_the_open_batch<C>(queue: QueueView<C>, cell: C, s: int)
    requires
        queue.open == Some(s),
        queue.batches.dom().contains(s),
    ensures
        queue.pushed(cell).n == queue.n,
        queue.pushed(cell).tail == queue.tail + 1,
        queue.pushed(cell).open == Some(s),
        queue.pushed(cell).batches[s].front == queue.batches[s].front,
        queue.pushed(cell).batches[s].cells.len() == queue.batches[s].cells.len() + 1,
        queue.pushed(cell).batches[s].cells.last() == cell,
        forall|k: int|
            0 <= k < queue.batches[s].cells.len() ==> #[trigger] queue.pushed(
                cell,
            ).batches[s].cells[k] == queue.batches[s].cells[k],
        queue.pushed(cell).batches.dom() == queue.batches.dom(),
        forall|t: int|
            t != s && queue.batches.dom().contains(t) ==> #[trigger] queue.pushed(cell).batches[t]
                == queue.batches[t],
{
    assert(queue.pushed(cell).batches.dom() =~= queue.batches.dom());
}

/// A task that is accepted while no batch is open takes the next position, and is the first of a batch
/// that it opens there; nothing else changes.
pub proof fn law_push_opens_a_batch<C>(queue: QueueView<C>, cell: C)
    requires
        queue.open is None,
        !queue.batches.dom().contains(queue.tail),
    ensures
        queue.pushed(cell).n == queue.n,
        queue.pushed(cell).tail == queue.tail + 1,
        queue.pushed(cell).open == Some(queue.tail),
        queue.pushed(cell).batches[queue.tail].front == queue.tail,
        queue.pushed(cell).batches[queue.tail].cells == seq![cell],
        queue.pushed(cell).batches.dom() == queue.batches.dom().insert(queue.tail),
        forall|t: int|
            queue.batches.dom().contains(t) ==> #[trigger] queue.pushed(cell).batches[t]
                == queue.batches[t],
{
    assert(queue.pushed(cell).batches.dom() =~= queue.batches.dom().insert(queue.tail));
}

/// Bounding the open batch only closes it: no batch, cell or position changes.
pub proof fn law_bounding_only_closes<C>(queue: QueueView<C>)
    ensures
        queue.bounded().open is None,
        queue.bounded().n == queue.n,
        queue.bounded().tail == queue.tail,
        queue.bounded().batches == queue.batches,
{
}

/// Taking a task out of a batch moves the rest up by one place, and changes nothing else.
pub proof fn law_taking_moves_up<C>(queue: QueueView<C>, s: int)
    requires
        queue.batches.dom().contains(s),
        queue.batches[s].cells.len() > 0,
    ensures
        ({
            let later = queue.taken(s);
            &&& later.n == queue.n && later.tail == queue.tail && later.open == queue.open
            &&& later.batches.dom() == queue.batches.dom()
            &&& later.batches[s].front == queue.batches[s].front + 1
            &&& later.batches[s].cells.len() == queue.batches[s].cells.len() - 1
            &&& forall|k: int|
                0 <= k < later.batches[s].cells.len() ==> #[trigger] later.batches[s].cells[k]
                    == queue.batches[s].cells[k + 1]
            &&& forall|t: int|
                t != s && queue.batches.dom().contains(t) ==> #[trigger] later.batches[t]
                    == queue.batches[t]
        }),
{
    assert(queue.taken(s).batches.dom() =~= queue.batches.dom());
}

/// Giving a batch back takes it alone from the queue.
pub proof fn law_release_takes_one_batch<C>(queue: QueueView<C>, s: int)
    requires
        queue.batches.dom().contains(s),
    ensures
        ({
            let later = queue.released(s);
            &&& later.n == queue.n && later.tail == queue.tail && later.open == queue.open
            &&& forall|t: int| #[trigger]
                later.batches.dom().contains(t) <==> t != s && queue.batches.dom().contains(t)
            &&& forall|t: int|
                t != s && queue.batches.dom().contains(t) ==> #[trigger] later.batches[t]
                    == queue.batches[t]
        }),
{
}

/// A new queue has no batches, no task was accepted by it, and the words that threads share are zero.
pub proof fn law_new_queue_is_empty<C>(n: int)
    ensures
        QueueView::<C>::empty(n).n == n,
        QueueView::<C>::empty(n).tail == 0,
        QueueView::<C>::empty(n).open is None,
        forall|s: int| !(#[trigger] QueueView::<C>::empty(n).batches.dom().contains(s)),
        System::initial(n).shared.slot == 0,
        System::initial(n).shared.occupancy == 0,
        System::initial(n).local.slot == 1,
        System::initial(n).local.occupancy == 0,
{
}

/// The tasks of a batch are what its cells hold, one by one.
pub proof fn law_tasks_are_what_cells_hold<T>(queue: QueueView<BufferCell<T>>, s: int)
    ensures
        queue.tasks(s).len() == queue.batches[s].cells.len(),
        forall|k: int|
            0 <= k < queue.batches[s].cells.len() ==> #[trigger] queue.tasks(s)[k]
                == queue.batches[s].cells[k].value->0,
        forall|task: T| #[trigger] crate::queue::holding(task).value == Some(task),
        crate::queue::vacant::<T>().value is None,
{
}

/// What a queue shows of its batches is what lies in its buffer: the cell at a place of a batch is
/// that of its position, taken around the buffer; and the open batch goes up to the tail.
pub proof fn law_queue_shows_its_buffer<C, const N: usize>(queue: &StackQueue<C, N>, s: int, k: int)
    requires
        queue.wf(),
        queue@.batches.dom().contains(s),
        0 <= k < queue@.batches[s].cells.len(),
    ensures
        queue@.n == N,
        queue.cells().len() == N,
        s <= queue@.batches[s].front,
        0 <= (queue@.batches[s].front + k) % (N as int) < N,
        queue@.batches[s].cells[k] == queue.cells()[(queue@.batches[s].front + k) % (N as int)],
        queue@.open == Some(s) ==> queue@.batches[s].front == s && s
            + queue@.batches[s].cells.len() == queue@.tail,
{
    queue.lemma_batch(s);
    vstd::arithmetic::div_mod::lemma_mod_bound(queue@.batches[s].front + k, N as int);
}

/// What a queue shows of itself is what its words say: the counter of the shared slot is the number of
/// tasks that it accepted, around its end, and a batch is open while the phases of the shared slot and
/// of the owner's agree.
pub proof fn law_queue_shows_its_words<C, const N: usize>(queue: &StackQueue<C, N>)
    requires
        queue.wf(),
    ensures
        ({
            let m = if usize::BITS == 64 {
                0x1_0000_0000int
            } else {
                0x1_0000
            };
            let shared = queue.system().shared.slot as int;
            let own = queue.system().local.slot as int;
            &&& 0 <= queue@.tail
            &&& shared / m == queue@.tail % m
            &&& own / m == queue@.tail % m
            &&& queue@.open is Some <==> shared % m == own % m
            &&& queue@.open matches Some(s) ==> queue@.batches.dom().contains(s)
            &&& !queue@.batches.dom().contains(queue@.tail)
        }),
{
}

/// A task stays in its cell, with the receiver that it was written with, until its batch is given
/// back: a task that is accepted meanwhile is written to another cell, and whatever becomes of tasks of
/// another batch leaves the cell alone.
pub proof fn law_task_stays_in_its_cell<C, const N: usize>(
    queue: &StackQueue<C, N>,
    s: int,
    k: int,
    t: int,
    len: int,
    cell: C,
    f: spec_fn(C) -> C,
)
    requires
        queue.wf(),
        queue@.batches.dom().contains(s),
        queue@.batches.dom().contains(t),
        0 <= k < queue@.batches[s].cells.len(),
        s != t,
        0 <= len <= queue@.batches[t].cells.len(),
    ensures
        ({
            let j = (queue@.batches[s].front + k) % (N as int);
            &&& !queue@.refuses() ==> queue.cells().update(queue@.tail % (N as int), cell)[j]
                == queue@.batches[s].cells[k]
            &&& crate::assignment::rewritten(queue.cells(), queue@.batches[t].front, len, f)[j]
                == queue@.batches[s].cells[k]
        }),
{
    let n = N as int;
    let j = (queue@.batches[s].front + k) % n;
    let front = queue@.batches[t].front;
    law_queue_shows_its_buffer::<C, N>(queue, s, k);
    queue.lemma_batch(t);
    vstd::arithmetic::div_mod::lemma_mod_bound(queue@.tail, n);
    crate::laws::law_batches_own_distinct_cells::<C, N>(queue, s, s, k, k);
    let i = (j - front) % n;
    vstd::arithmetic::div_mod::lemma_mod_bound(j - front, n);
    if i < len {
        vstd::arithmetic::div_mod::lemma_add_mod_noop_right(front, j - front, n);
        vstd::arithmetic::div_mod::lemma_small_mod(j as nat, n as nat);
        assert((front + i) % n == j);
        crate::laws::law_batches_own_distinct_cells::<C, N>(queue, s, t, k, i);
    }
}

/// Which cells are rewritten: those at the given number of places from a position on, around the
/// buffer, and no others.
pub proof fn law_rewriting_reaches_its_range<C>(
    cells: Seq<C>,
    first: int,
    len: int,
    f: spec_fn(C) -> C,
)
    requires
        cells.len() > 0,
        0 <= len <= cells.len(),
    ensures
        ({
            let after = crate::assignment::rewritten(cells, first, len, f);
            let n = cells.len() as int;
            &&& after.len() == cells.len()
            &&& forall|i: int|
                0 <= i < len ==> #[trigger] after[(first + i) % n] == f(cells[(first + i) % n])
            &&& forall|i: int|
                len <= i < n ==> #[trigger] after[(first + i) % n] == cells[(first + i) % n]
        }),
{
    let n = cells.len() as int;
    let after = crate::assignment::rewritten(cells, first, len, f);
    assert forall|i: int| 0 <= i < n implies (#[trigger] after[(first + i) % n]) == if i < len {
        f(cells[(first + i) % n])
    } else {
        cells[(first + i) % n]
    } by {
        let j = (first + i) % n;
        vstd::arithmetic::div_mod::lemma_mod_bound(first + i, n);
        vstd::arithmetic::div_mod::lemma_sub_mod_noop_right(j, first, n);
        vstd::arithmetic::div_mod::lemma_sub_mod_noop(first + i, first, n);
        vstd::arithmetic::div_mod::lemma_sub_mod_noop(j, first, n);
        vstd::arithmetic::div_mod::lemma_small_mod(j as nat, n as nat);
        vstd::arithmetic::div_mod::lemma_small_mod(i as nat, n as nat);
        assert((j - first) % n == i);
    }
}

/// What a task looks like when it was written, taken out and resolved: it starts with no bit set, and
/// keeps its receiver throughout. Once resolved it is empty, and either the value is there for the
/// receiver and no longer on its way, or the receiver is gone and the value stays on its way for good.
pub proof fn law_states_of_a_task<T: TaskQueue>(task: T::Task, rx: usize, cell: TaskRef<T>)
    ensures
        crate::task::fresh::<T>(task, rx).state == 0,
        crate::task::fresh::<T>(task, rx).rx == Some(rx),
        crate::task::fresh::<T>(task, rx).task == Some(task),
        crate::task::emptied(cell).state == cell.state,
        crate::task::emptied(cell).rx == cell.rx,
        crate::task::emptied(cell).task is None,
        crate::task::resolved(cell).rx == cell.rx,
        crate::task::resolved(cell).task is None,
        crate::task::resolved(cell).state == crate::task::resolved_state(cell.state),
        cell.state & 4 == 0 ==> {
            let after = crate::task::resolved(cell).state;
            &&& after & 1 == 0
            &&& cell.state & 2 == 0 ==> after & 2 == 2
            &&& cell.state & 2 != 0 ==> after & 2 == 0
            &&& after & !3usize == cell.state & !3usize
        },
        cell.state & 4 != 0 ==> {
            let after = crate::task::resolved(cell).state;
            &&& after & 1 == 1
            &&& after & !1usize == cell.state & !1usize
        },
        cell.state == 0 ==> crate::task::resolved(cell).state == 2,
        cell.state == 4 ==> crate::task::resolved(cell).state == 5,
{
    let state = cell.state;
    let after = (state | 1) ^ (1usize | 2);
    assert(after & 1 == 0 && (state & 2 == 0 ==> after & 2 == 2) && (state & 2 != 0 ==> after & 2 == 0)
        && after & !3usize == state & !3usize) by (bit_vector)
        requires
            after == (state | 1) ^ (1usize | 2),
    ;
    assert((state | 1) & 1 == 1 && (state | 1) & !1usize == state & !1usize) by (bit_vector);
    assert(0usize & 4 == 0 && (0usize | 1) ^ (1usize | 2) == 2 && 4usize & 4 != 0 && 4usize | 1 == 5)
        by (bit_vector);
}

/// What a receiver does on its way out. It marks the task that is its own, and no other; it waits
/// exactly while its value is being handed over, and where its cell has gone to another task it does
/// not wait; and it takes a value that arrived with it, and keeps who it is.
pub proof fn law_receiver_on_its_way_out<T: TaskQueue>(
    own: Receiver<T::Value>,
    cell: TaskRef<T>,
    state: State<T>,
    dropping: Dropping,
)
    requires
        crate::task::settled::<T>(own, crate::task::seen(cell, own.rx), state, dropping),
    ensures
        cell.rx == Some(own.rx) ==> crate::task::forsaken(cell, own.rx).state & 4 == 4
            && crate::task::forsaken(cell, own.rx).state & !4usize == cell.state & !4usize,
        crate::task::forsaken(cell, own.rx).rx == cell.rx,
        crate::task::forsaken(cell, own.rx).task == cell.task,
        cell.rx != Some(own.rx) ==> crate::task::forsaken(cell, own.rx) == cell,
        dropping is Wait <==> cell.rx == Some(own.rx) && cell.state & 1 == 1,
        state is Batched,
        state->Batched_0.index == own.index,
        state->Batched_0.rx == own.rx,
        dropping is Wait ==> state->Batched_0.value == own.value,
        dropping is Done && (cell.rx != Some(own.rx) || cell.state & 2 == 2)
            ==> state->Batched_0.value is None,
        dropping is Done && cell.rx == Some(own.rx) && cell.state & 2 != 2
            ==> state->Batched_0.value == own.value,
{
    let word = cell.state;
    assert((word | 4) & 4 == 4 && (word | 4) & !4usize == word & !4usize) by (bit_vector);
    assert(2usize & 1 != 1 && 2usize & 2 == 2) by (bit_vector);
}

/// Regions are equal parts of the buffer, eight of them or four where words have 32 bits, and an index
/// lies in the region whose part of the buffer it is in.
pub proof fn law_regions_are_equal_parts(n: int, index: int)
    requires
        crate::valid_len(n),
        0 <= index < n,
    ensures
        usize::BITS == 64 ==> n == 8 * crate::helpers::region_len(n),
        usize::BITS != 64 ==> n == 4 * crate::helpers::region_len(n),
        crate::helpers::region_of(n, index) * crate::helpers::region_len(n) <= index,
        index < (crate::helpers::region_of(n, index) + 1) * crate::helpers::region_len(n),
{
    crate::helpers::lemma_widths();
    crate::helpers::lemma_region_len(n);
    let l = crate::helpers::region_len(n);
    let c = crate::helpers::REGION_COUNT as int;
    assert(n == c * l) by (nonlinear_arith)
        requires
            l * c == n,
    ;
    assert(usize::BITS == 64 ==> c == 8);
    assert(usize::BITS != 64 ==> c == 4);
    let q = crate::helpers::region_of(n, index);
    let m = index % l;
    vstd::arithmetic::div_mod::lemma_fundamental_div_mod(index, l);
    vstd::arithmetic::div_mod::lemma_mod_bound(index, l);
    assert(q * l <= index < (q + 1) * l) by (nonlinear_arith)
        requires
            index == l * q + m,
            0 <= m < l,
    ;
}

/// A slot is a position counter in its upper half, and flags in its lower one; positions are counted
/// around what a counter can hold.
pub proof fn law_slot_is_counter_and_flags(slot: usize, p: int)
    ensures
        usize::BITS == 64 ==> {
            &&& slot == crate::helpers::counter(slot) * 0x1_0000_0000 + crate::helpers::flags(slot)
            &&& 0 <= crate::helpers::flags(slot) < 0x1_0000_0000
            &&& crate::assignment::counter_of(p) == p % 0x1_0000_0000
        },
        usize::BITS != 64 ==> {
            &&& slot == crate::helpers::counter(slot) * 0x1_0000 + crate::helpers::flags(slot)
            &&& 0 <= crate::helpers::flags(slot) < 0x1_0000
            &&& crate::assignment::counter_of(p) == p % 0x1_0000
        },
{
}

/// Each region counts in a byte of its own: the first in the lowest byte of the occupancy word, and
/// each other one in the byte above that of the region before it.
pub proof fn law_regions_count_in_bytes(occupancy: usize, r: int)
    requires
        0 <= r,
    ensures
        crate::helpers::region_unit(0) == 1,
        crate::helpers::region_unit(r + 1) == 256 * crate::helpers::region_unit(r),
        crate::helpers::regional(occupancy, 0) == occupancy as int % 256,
        crate::helpers::regional(occupancy, r + 1) == crate::helpers::regional(occupancy / 256, r),
        r + 1 < usize::BITS / 8 ==> crate::helpers::frontal(occupancy, r) == (occupancy as int
            / vstd::arithmetic::power2::pow2((8 * r) as nat) as int) % 0x1_0000,
        r + 1 == usize::BITS / 8 ==> crate::helpers::frontal(occupancy, r) == (occupancy as int
            / vstd::arithmetic::power2::pow2((8 * r) as nat) as int) % 0x100,
{
    crate::helpers::lemma_widths();
    vstd::arithmetic::power2::lemma2_to64();
    vstd::arithmetic::power2::lemma_pow2_adds(8, (8 * r) as nat);
    vstd::arithmetic::power2::lemma_pow2_pos((8 * r) as nat);
    assert(8 * (r + 1) == 8 + 8 * r);
    vstd::arithmetic::div_mod::lemma_div_basics(occupancy as int);
    vstd::arithmetic::div_mod::lemma_div_denominator(
        occupancy as int,
        256,
        crate::helpers::region_unit(r),
    );
    let unit = crate::helpers::region_unit(r);
    let bytes = occupancy as int / unit;
    vstd::arithmetic::div_mod::lemma_div_denominator(occupancy as int, unit, 256);
    assert(unit * 256 == 256 * unit);
    assert(crate::helpers::regional(occupancy, r + 1) == (bytes / 256) % 256);
    assert(bytes % 0x1_0000 == bytes % 256 + 256 * ((bytes / 256) % 256));
}

/// What threads see of a queue once a task was accepted: the counter of the shared slot is one further,
/// around its end, and its flags are what they were; a batch that began is counted by one in the byte
/// of the region in which it began.
pub proof fn law_words_after_push(system: System)
    requires
        system.inv(),
    ensures
        ({
            let after = system.shared_after_push();
            let c = if usize::BITS == 64 {
                8int
            } else {
                4
            };
            let m = if usize::BITS == 64 {
                0x1_0000_0000int
            } else {
                0x1_0000
            };
            let slot = system.shared.slot as int;
            &&& after.slot as int / m == (slot / m + 1) % m
            &&& after.slot as int % m == slot % m
            &&& system.ledger.open is Some ==> after.occupancy == system.shared.occupancy
            &&& system.ledger.open is None ==> after.occupancy == (system.shared.occupancy
                + vstd::arithmetic::power2::pow2(
                (8 * ((system.ledger.tail / (system.n / c)) % c)) as nat,
            )) as usize
        }),
{
    crate::helpers::lemma_widths();
    system.lemma_write_index();
    crate::ledger::lemma_region_at(system.n, system.ledger.tail);
    lemma_next_slot(system.shared.slot);
}

proof fn lemma_next_slot(slot: usize)
    ensures
        crate::helpers::counter(crate::system::next_slot(slot)) == (crate::helpers::counter(slot) + 1)
            % crate::helpers::counter_modulus(),
        crate::helpers::flags(crate::system::next_slot(slot)) == crate::helpers::flags(slot),
{
    crate::helpers::lemma_widths();
    if usize::BITS == 64 {
        assert(slot as int / 0x1_0000_0000 < 0x1_0000_0000);
    } else {
        assert(slot as int / 0x1_0000 < 0x1_0000);
    }
}

/// What threads see of a queue once a batch was bounded, or given back: bounding changes the phase
/// alone, and giving back takes the one count of the batch from the byte of the region in which it
/// began. Taking a task out changes nothing that is shared.
pub proof fn law_words_after_bound_and_release(system: System, s: int)
    ensures
        ({
            let c = if usize::BITS == 64 {
                8int
            } else {
                4
            };
            let slot = system.shared.slot;
            let bounded = system.bounded().shared;
            let released = system.released(s).shared;
            &&& bounded.slot / 2 == slot / 2
            &&& bounded.slot % 2 == 1 - slot % 2
            &&& bounded.occupancy == system.shared.occupancy
            &&& released.slot == slot
            &&& released.occupancy == (system.shared.occupancy - vstd::arithmetic::power2::pow2(
                (8 * ((s / (system.n / c)) % c)) as nat,
            )) as usize
            &&& system.taken(s).shared == system.shared
        }),
{
    crate::helpers::lemma_widths();
}

/// When a region counts as free: its byte is zero in the owner's copy of the occupancy word, or in the
/// shared word; only in the second case does the owner's copy change, and then to the shared word.
pub proof fn law_region_is_free_by_its_byte(system: System, index: int)
    requires
        crate::valid_len(system.n),
        0 <= index < system.n,
    ensures
        ({
            let c = if usize::BITS == 64 {
                8int
            } else {
                4
            };
            let unit = vstd::arithmetic::power2::pow2((8 * (index / (system.n / c))) as nat) as int;
            let own = (system.local.occupancy as int / unit) % 256;
            let others = (system.shared.occupancy as int / unit) % 256;
            let after = system.checked(index);
            &&& system.regionally_free(index) <==> own == 0 || others == 0
            &&& after.local.occupancy == if own == 0 {
                system.local.occupancy
            } else {
                system.shared.occupancy
            }
            &&& after.local.slot == system.local.slot
            &&& after.shared == system.shared
            &&& after.ledger == system.ledger
            &&& after.n == system.n
            &&& after.producer == system.producer
        }),
{
}

/// Which indices a batch of a queue whose batches end with the buffer has. `base` is the slot at
/// position `b`, at which it begins, and `end` that at position `e`, at which it is bounded: it has
/// every position in between while the queue is in the same lap, and else those up to the end of the
/// buffer.
pub proof fn law_slice_ends_with_the_buffer(n: int, base: usize, end: usize, b: int, e: int)
    requires
        crate::valid_len(n),
        0 <= b <= e <= b + n,
        crate::helpers::counter(base) == b % crate::helpers::counter_modulus(),
        crate::helpers::counter(end) == e % crate::helpers::counter_modulus(),
    ensures
        ({
            let (first, last) = crate::slice::slice_bounds(n, base, end);
            &&& first == b % n
            &&& b / n == e / n ==> last - first == e - b
            &&& b / n != e / n ==> last == n
        }),
{
    lemma_lap(n, base, b);
    lemma_lap(n, end, e);
    vstd::arithmetic::div_mod::lemma_fundamental_div_mod(b, n);
    vstd::arithmetic::div_mod::lemma_fundamental_div_mod(e, n);
    vstd::arithmetic::div_mod::lemma_div_is_ordered(b, e, n);
    vstd::arithmetic::div_mod::lemma_div_is_ordered(e, b + n, n);
    vstd::arithmetic::div_mod::lemma_div_plus_one(b, n);
}

proof fn lemma_lap(n: int, slot: usize, p: int)
    requires
        crate::valid_len(n),
        0 <= p,
        crate::helpers::counter(slot) == p % crate::helpers::counter_modulus(),
    ensures
        crate::helpers::counter(slot) % n == p % n,
        crate::slice::lap(n, slot) % 2 == (p / n) % 2,
{
    crate::helpers::lemma_widths();
    let k = crate::helpers::lemma_len_exponent(n);
    let h = crate::helpers::INDEX_SHIFT as nat;
    let half = vstd::arithmetic::power2::pow2((h - k - 1) as nat) as int;
    vstd::arithmetic::power2::lemma_pow2_pos((h - k - 1) as nat);
    vstd::arithmetic::power2::lemma_pow2_adds(k, (h - k) as nat);
    vstd::arithmetic::power2::lemma_pow2_unfold((h - k) as nat);
    let m = 2 * half;
    assert(crate::helpers::counter_modulus() == n * m);
    vstd::arithmetic::div_mod::lemma_mod_breakdown(p, n, m);
    vstd::arithmetic::div_mod::lemma_fundamental_div_mod_converse(
        crate::helpers::counter(slot),
        n,
        (p / n) % m,
        p % n,
    );
    vstd::arithmetic::div_mod::lemma_div_pos_is_pos(p, n);
    vstd::arithmetic::div_mod::lemma_mod_mod(p / n, 2, half);
}

/// Tasks in the buffer compare as the tasks that they hold, whatever their states and receivers are.
pub proof fn law_comparison_sees_tasks_alone<T: TaskQueue>(
    a: TaskRef<T>,
    b: TaskRef<T>,
    x: T::Task,
    y: T::Task,
) where T::Task: PartialEq
    ensures
        a.task == Some(x) && b.task == Some(y) ==> vstd::std_specs::cmp::PartialEqSpec::eq_spec(&a, &b)
            == vstd::std_specs::cmp::PartialEqSpec::eq_spec(&x, &y),
        a.task is None && b.task is None ==> vstd::std_specs::cmp::PartialEqSpec::eq_spec(&a, &b),
        a.task is Some && b.task is None ==> !vstd::std_specs::cmp::PartialEqSpec::eq_spec(&a, &b),
        a.task is None && b.task is Some ==> !vstd::std_specs::cmp::PartialEqSpec::eq_spec(&a, &b),
{
}

/// Tasks in the buffer are in the order of the tasks that they hold, whatever their states and receivers
/// are, and one that holds none comes first.
pub proof fn law_order_sees_tasks_alone<T: TaskQueue>(
    a: TaskRef<T>,
    b: TaskRef<T>,
    x: T::Task,
    y: T::Task,
) where T::Task: PartialOrd
    ensures
        a.task == Some(x) && b.task == Some(y)
            ==> vstd::std_specs::cmp::PartialOrdSpec::partial_cmp_spec(&a, &b)
            == vstd::std_specs::cmp::PartialOrdSpec::partial_cmp_spec(&x, &y),
        a.task is None && b.task is None
            ==> vstd::std_specs::cmp::PartialOrdSpec::partial_cmp_spec(&a, &b) == Some(
            core::cmp::Ordering::Equal,
        ),
        a.task is None && b.task is Some
            ==> vstd::std_specs::cmp::PartialOrdSpec::partial_cmp_spec(&a, &b) == Some(
            core::cmp::Ordering::Less,
        ),
        a.task is Some && b.task is None
            ==> vstd::std_specs::cmp::PartialOrdSpec::partial_cmp_spec(&a, &b) == Some(
            core::cmp::Ordering::Greater,
        ),
{
}

} // verus!
