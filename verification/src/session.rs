//! Many tasks with receivers on one queue: how each of them comes to its value.
//!
//! Tasks are told apart by the addresses of their receivers, which are used once each.
use vstd::prelude::*;

use crate::queue::{QueueView, TaskQueue};
use crate::task::{Delivery, Polled, Receiver, State, TaskRef};

verus! {

/// A queue, the tasks that were ever given to it, how far each of them is, the values that are on
/// their way, and the tasks that were given up without a value.
pub struct Session<T: TaskQueue> {
    pub queue: QueueView<TaskRef<T>>,
    pub given: Map<usize, T::Task>,
    pub tasks: Map<usize, State<T>>,
    pub mail: Map<usize, T::Value>,
    pub given_up: Set<usize>,
}

/// The value at `k` goes to the receiver at address `x`, which was not dropped.
pub open spec fn sends<T: TaskQueue>(cells: Seq<TaskRef<T>>, k: int, x: usize) -> bool {
    &&& 0 <= k < cells.len()
    &&& cells[k].rx == Some(x)
    &&& cells[k].state & crate::task::RECEIVER_DROPPED == 0
}

/// The values that are on their way once `sent` went out.
pub open spec fn posted<V>(mail: Map<usize, V>, sent: Seq<Delivery<V>>) -> Map<usize, V>
    decreases sent.len(),
{
    if sent.len() == 0 {
        mail
    } else {
        posted(mail, sent.drop_last()).insert(sent.last().rx, sent.last().value)
    }
}

/// Values go out to the receivers that were not dropped, and to no others.
proof fn lemma_posted<T: TaskQueue>(
    mail: Map<usize, T::Value>,
    cells: Seq<TaskRef<T>>,
    values: Seq<T::Value>,
)
    requires
        cells.len() == values.len(),
        forall|k: int| 0 <= k < cells.len() ==> (#[trigger] cells[k]).rx is Some,
    ensures
        ({
            let next = posted(mail, crate::assignment::deliveries::<T>(cells, values));
            &&& forall|x: usize|
                #![trigger next.dom().contains(x)]
                next.dom().contains(x) <==> mail.dom().contains(x) || exists|k: int|
                    #[trigger] sends::<T>(cells, k, x)
            &&& forall|x: usize| #[trigger]
                next.dom().contains(x) ==> (mail.dom().contains(x) && next[x] == mail[x])
                    || exists|k: int| #[trigger] sends::<T>(cells, k, x) && next[x] == values[k]
        }),
    decreases cells.len(),
{
    let sent = crate::assignment::deliveries::<T>(cells, values);
    let next = posted(mail, sent);
    if cells.len() > 0 {
        let prior_cells = cells.drop_last();
        let prior_values = values.drop_last();
        let prior_sent = crate::assignment::deliveries::<T>(prior_cells, prior_values);
        let prior = posted(mail, prior_sent);
        assert forall|k: int| 0 <= k < prior_cells.len() implies (#[trigger] prior_cells[k]).rx is Some by {
            assert(prior_cells[k] == cells[k]);
        }
        lemma_posted::<T>(mail, prior_cells, prior_values);
        let last = cells.len() - 1;
        let cell = cells[last];
        let goes = cell.state & crate::task::RECEIVER_DROPPED == 0;
        if goes {
            assert(sent.drop_last() =~= prior_sent);
            assert(next == prior.insert(cell.rx->0, values[last]));
            assert(sends::<T>(cells, last, cell.rx->0));
        } else {
            assert(next == prior);
        }
        assert forall|x: usize|
            #![trigger next.dom().contains(x)]
            (next.dom().contains(x) <==> mail.dom().contains(x) || exists|k: int|
                #[trigger] sends::<T>(cells, k, x)) && (next.dom().contains(x) ==> (
            mail.dom().contains(x) && next[x] == mail[x]) || exists|k: int|
                #[trigger] sends::<T>(cells, k, x) && next[x] == values[k]) by {
            if prior.dom().contains(x) {
                if exists|k: int| #[trigger]
                    sends::<T>(prior_cells, k, x) && prior[x] == prior_values[k] {
                    let k = choose|k: int| #[trigger]
                        sends::<T>(prior_cells, k, x) && prior[x] == prior_values[k];
                    assert(sends::<T>(cells, k, x));
                }
            }
            if exists|k: int| #[trigger] sends::<T>(cells, k, x) {
                let k = choose|k: int| #[trigger] sends::<T>(cells, k, x);
                if k < last {
                    assert(sends::<T>(prior_cells, k, x));
                }
            }
        }
    }
}

impl<T: TaskQueue> Session<T> {
    /// A queue before its first task.
    pub open spec fn initial(n: int) -> Session<T> {
        Session {
            queue: QueueView::empty(n),
            given: Map::empty(),
            tasks: Map::empty(),
            mail: Map::empty(),
            given_up: Set::empty(),
        }
    }

    /// Someone awaits a new task, whose receiver is at address `x`.
    pub open spec fn begun(self, x: usize, task: T::Task) -> Session<T> {
        Session {
            given: self.given.insert(x, task),
            tasks: self.tasks.insert(x, State::Unbatched { task }),
            ..self
        }
    }

    /// The task of the receiver at address `x` was polled.
    pub open spec fn polls_to<const N: usize>(
        self,
        next: Session<T>,
        x: usize,
        polled: Polled<T, N>,
    ) -> bool {
        &&& self.tasks.dom().contains(x)
        &&& crate::task::batch_polled::<T, N>(
            self.tasks[x],
            x,
            self.queue,
            polled,
            next.tasks[x],
            next.queue,
        )
        &&& next == (Session {
            queue: next.queue,
            tasks: self.tasks.insert(x, next.tasks[x]),
            ..self
        })
    }

    /// The open batch was bounded.
    pub open spec fn bounded(self) -> Session<T> {
        Session { queue: self.queue.bounded(), ..self }
    }

    /// The batch at `s` can be resolved with `values`, each of which answers its task. Where there
    /// are fewer of them than tasks, the rest of the batch is given up.
    pub open spec fn can_resolve(
        self,
        s: int,
        values: Seq<T::Value>,
        answers: spec_fn(T::Task, T::Value) -> bool,
    ) -> bool {
        &&& self.queue.batches.dom().contains(s)
        &&& self.queue.open != Some(s)
        &&& values.len() <= self.queue.batches[s].cells.len()
        &&& forall|k: int|
            0 <= k < values.len() ==> answers(
                self.queue.batches[s].cells[k].task->0,
                #[trigger] values[k],
            )
    }

    pub open spec fn resolved(self, s: int, values: Seq<T::Value>) -> Session<T> {
        let cells = self.queue.batches[s].cells;
        Session {
            queue: self.queue.released(s),
            mail: posted(
                self.mail,
                crate::assignment::deliveries::<T>(cells.take(values.len() as int), values),
            ),
            given_up: self.given_up.union(
                Set::new(
                    |x: usize|
                        exists|k: int|
                            values.len() <= k < cells.len() && (#[trigger] cells[k]).rx == Some(x),
                ),
            ),
            ..self
        }
    }

    /// A value arrives. One for a receiver that was dropped goes nowhere.
    pub open spec fn delivered(self, x: usize) -> Session<T> {
        Session {
            mail: self.mail.remove(x),
            tasks: if self.tasks.dom().contains(x) {
                self.tasks.insert(
                    x,
                    State::Batched(
                        Receiver { value: Some(self.mail[x]), ..self.tasks[x]->Batched_0 },
                    ),
                )
            } else {
                self.tasks
            },
            ..self
        }
    }

    /// The receiver at address `x` was dropped: its own task alone may learn of it.
    pub open spec fn drops_to(self, next: Session<T>, x: usize) -> bool {
        &&& next == (Session { queue: next.queue, tasks: self.tasks.remove(x), ..self })
        &&& next.queue == (QueueView { batches: next.queue.batches, ..self.queue })
        &&& next.queue.batches.dom() == self.queue.batches.dom()
        &&& forall|s: int| #[trigger]
            self.queue.batches.dom().contains(s) ==> next.queue.batches[s].cells.len()
                == self.queue.batches[s].cells.len()
        &&& forall|s: int, k: int|
            #![trigger next.queue.batches[s].cells[k]]
            self.queue.batches.dom().contains(s) && 0 <= k < self.queue.batches[s].cells.len() ==> {
                ||| next.queue.batches[s].cells[k] == self.queue.batches[s].cells[k]
                ||| next.queue.batches[s].cells[k] == crate::task::forsaken(
                    self.queue.batches[s].cells[k],
                    x,
                )
            }
    }

    /// What else can happen than a poll.
    pub open spec fn goes_on_to(
        self,
        next: Session<T>,
        answers: spec_fn(T::Task, T::Value) -> bool,
    ) -> bool {
        ||| exists|x: usize, task: T::Task|
            !self.given.dom().contains(x) && next == #[trigger] self.begun(x, task)
        ||| self.queue.open is Some && next == self.bounded()
        ||| exists|s: int, values: Seq<T::Value>| #[trigger]
            self.can_resolve(s, values, answers) && next == self.resolved(s, values)
        ||| exists|x: usize| #[trigger] self.mail.dom().contains(x) && next == self.delivered(x)
        ||| exists|x: usize| #[trigger] self.drops_to(next, x)
    }

    /// The task at place `k` of the batch at `s` is that of the receiver at address `x`.
    pub open spec fn in_flight(self, x: usize, s: int, k: int) -> bool {
        &&& self.queue.batches.dom().contains(s)
        &&& 0 <= k < self.queue.batches[s].cells.len()
        &&& self.queue.batches[s].cells[k].rx == Some(x)
    }

    /// The task of the receiver at address `x` has neither been handed in nor received its value, or
    /// is in a batch, or its value is on its way or has arrived, and answers the task.
    pub open spec fn accounted(
        self,
        x: usize,
        answers: spec_fn(T::Task, T::Value) -> bool,
    ) -> bool {
        match self.tasks[x] {
            State::Unbatched { task } => task == self.given[x],
            State::Batched(rx) => match rx.value {
                Some(value) => answers(self.given[x], value),
                None => {
                    ||| exists|s: int, k: int| #[trigger] self.in_flight(x, s, k)
                    ||| self.mail.dom().contains(x) && answers(self.given[x], self.mail[x])
                    ||| self.given_up.contains(x)
                },
            },
            State::Received => true,
        }
    }

    /// The receiver at address `x`, if it was not dropped, waits for its value.
    pub open spec fn waits(self, x: usize) -> bool {
        self.tasks.dom().contains(x) ==> (self.tasks[x] matches State::Batched(rx) && rx.value is None)
    }

    /// What holds between any two steps.
    pub open spec fn inv(self, answers: spec_fn(T::Task, T::Value) -> bool) -> bool {
        &&& self.queue.open matches Some(s) ==> self.queue.batches.dom().contains(s)
        &&& forall|s: int| #[trigger] self.queue.batches.dom().contains(s) ==> s < self.queue.tail
        &&& forall|s: int, k: int|
            #![trigger self.queue.batches[s].cells[k]]
            self.queue.batches.dom().contains(s) && 0 <= k < self.queue.batches[s].cells.len()
                ==> self.queue.batches[s].cells[k].rx is Some
        &&& forall|x: usize, s: int, k: int| #[trigger]
            self.in_flight(x, s, k) ==> {
                &&& self.given.dom().contains(x)
                &&& self.queue.batches[s].cells[k].task == Some(self.given[x])
                &&& !self.mail.dom().contains(x)
                &&& self.waits(x)
                &&& self.queue.batches[s].cells[k].state & crate::task::RECEIVER_DROPPED != 0
                    ==> !self.tasks.dom().contains(x)
            }
        &&& forall|x: usize, s: int, k: int, t: int, j: int|
            #![trigger self.in_flight(x, s, k), self.in_flight(x, t, j)]
            self.in_flight(x, s, k) && self.in_flight(x, t, j) ==> s == t && k == j
        &&& forall|x: usize| #[trigger]
            self.mail.dom().contains(x) ==> {
                &&& self.given.dom().contains(x)
                &&& answers(self.given[x], self.mail[x])
                &&& self.waits(x)
            }
        &&& forall|x: usize| #[trigger]
            self.tasks.dom().contains(x) ==> self.given.dom().contains(x) && self.accounted(
                x,
                answers,
            )
    }

    proof fn lemma_begun(
        self,
        x: usize,
        task: T::Task,
        answers: spec_fn(T::Task, T::Value) -> bool,
    )
        requires
            self.inv(answers),
            !self.given.dom().contains(x),
        ensures
            self.begun(x, task).inv(answers),
    {
        let next = self.begun(x, task);
        assert(forall|y: usize, s: int, k: int| #[trigger]
            next.in_flight(y, s, k) ==> self.in_flight(y, s, k));
        assert forall|y: usize| #[trigger] next.tasks.dom().contains(y) implies next.accounted(
            y,
            answers,
        ) by {
            if y != x {
                assert(self.tasks.dom().contains(y));
                assert(self.accounted(y, answers));
                if exists|s: int, k: int| #[trigger] self.in_flight(y, s, k) {
                    let (s, k) = choose|s: int, k: int| #[trigger] self.in_flight(y, s, k);
                    assert(next.in_flight(y, s, k));
                }
            }
        }
    }

    /// A poll keeps the invariant. One that is ready gives out a value that answers its own task,
    /// which has received it from then on.
    pub proof fn lemma_polled<const N: usize>(
        self,
        next: Session<T>,
        x: usize,
        polled: Polled<T, N>,
        answers: spec_fn(T::Task, T::Value) -> bool,
    )
        requires
            self.inv(answers),
            self.polls_to::<N>(next, x, polled),
        ensures
            next.inv(answers),
            self.settles_to(next),
            polled matches Polled::Ready(value) ==> answers(self.given[x], value)
                && self.tasks[x] is Batched && next.tasks[x] is Received,
    {
        assert(self.tasks.dom().contains(x));
        assert(self.accounted(x, answers));
        if next.queue == self.queue {
            assert(forall|y: usize, s: int, k: int| #[trigger]
                next.in_flight(y, s, k) <==> self.in_flight(y, s, k));
            assert forall|y: usize| #[trigger] next.tasks.dom().contains(y) implies next.accounted(
                y,
                answers,
            ) by {
                assert(self.tasks.dom().contains(y));
                assert(self.accounted(y, answers));
                if exists|s: int, k: int| #[trigger] self.in_flight(y, s, k) {
                    let (s, k) = choose|s: int, k: int| #[trigger] self.in_flight(y, s, k);
                    assert(next.in_flight(y, s, k));
                }
            }
            assert forall|y: usize| next.tasks[y] != self.tasks[y] implies !self.mail.dom().contains(
                y,
            ) && (forall|s: int, k: int| !#[trigger] self.in_flight(y, s, k)) by {
                assert(y == x);
                assert(!self.waits(x));
                assert forall|s: int, k: int| !#[trigger] self.in_flight(y, s, k) by {}
            }
        } else {
            let task = self.tasks[x]->Unbatched_task;
            let cell = crate::task::fresh::<T>(task, x);
            let at = match self.queue.open {
                Some(s) => s,
                None => self.queue.tail,
            };
            let place = match self.queue.open {
                Some(s) => self.queue.batches[s].cells.len() as int,
                None => 0,
            };
            crate::negotiation::lemma_bits(0);
            assert(next.queue == self.queue.pushed(cell));
            assert(next.queue.batches[at].cells[place] == cell);
            assert(next.in_flight(x, at, place));
            assert(!self.waits(x));
            assert forall|y: usize, s: int, k: int| #[trigger] next.in_flight(y, s, k) implies (
            y == x && s == at && k == place) || (y != x && self.in_flight(y, s, k)
                && next.queue.batches[s].cells[k] == self.queue.batches[s].cells[k]) by {
                if !(s == at && k == place) {
                    assert(self.in_flight(y, s, k));
                }
            }
            assert forall|s: int, k: int|
                #![trigger next.queue.batches[s].cells[k]]
                next.queue.batches.dom().contains(s) && 0 <= k
                    < next.queue.batches[s].cells.len() implies next.queue.batches[s].cells[k].rx is Some by {
                if !(s == at && k == place) {
                    assert(next.queue.batches[s].cells[k] == self.queue.batches[s].cells[k]);
                }
            }
            assert forall|y: usize| #[trigger] next.tasks.dom().contains(y) implies next.accounted(
                y,
                answers,
            ) by {
                if y != x {
                    assert(self.tasks.dom().contains(y));
                    assert(self.accounted(y, answers));
                    if exists|s: int, k: int| #[trigger] self.in_flight(y, s, k) {
                        let (s, k) = choose|s: int, k: int| #[trigger] self.in_flight(y, s, k);
                        assert(next.in_flight(y, s, k));
                    }
                }
            }
        }
    }

    proof fn lemma_bounded(self, answers: spec_fn(T::Task, T::Value) -> bool)
        requires
            self.inv(answers),
        ensures
            self.bounded().inv(answers),
    {
        let next = self.bounded();
        assert(forall|y: usize, s: int, k: int| #[trigger]
            next.in_flight(y, s, k) <==> self.in_flight(y, s, k));
        assert forall|y: usize| #[trigger] next.tasks.dom().contains(y) implies next.accounted(
            y,
            answers,
        ) by {
            assert(self.accounted(y, answers));
            if exists|s: int, k: int| #[trigger] self.in_flight(y, s, k) {
                let (s, k) = choose|s: int, k: int| #[trigger] self.in_flight(y, s, k);
                assert(next.in_flight(y, s, k));
            }
        }
    }

    proof fn lemma_resolved(
        self,
        s: int,
        values: Seq<T::Value>,
        answers: spec_fn(T::Task, T::Value) -> bool,
    )
        requires
            self.inv(answers),
            self.can_resolve(s, values, answers),
        ensures
            self.resolved(s, values).inv(answers),
    {
        let next = self.resolved(s, values);
        let all = self.queue.batches[s].cells;
        let cells = all.take(values.len() as int);
        assert forall|k: int| 0 <= k < cells.len() implies (#[trigger] cells[k]).rx is Some by {
            assert(self.queue.batches[s].cells[k].rx is Some);
        }
        lemma_posted::<T>(self.mail, cells, values);
        assert forall|x: usize, k: int| #[trigger] sends::<T>(cells, k, x) implies self.in_flight(
            x,
            s,
            k,
        ) && answers(self.given[x], values[k]) by {
            assert(self.in_flight(x, s, k));
            assert(answers(self.queue.batches[s].cells[k].task->0, values[k]));
        }
        assert forall|x: usize, t: int, k: int| #[trigger] next.in_flight(x, t, k) implies t != s
            && self.in_flight(x, t, k) && next.queue.batches[t] == self.queue.batches[t] by {
            assert(self.in_flight(x, t, k));
        }
        assert forall|x: usize, t: int, k: int| #[trigger] next.in_flight(x, t, k) implies !next.mail.dom().contains(
            x,
        ) by {
            assert(self.in_flight(x, t, k));
            if next.mail.dom().contains(x) {
                let j = choose|j: int| #[trigger] sends::<T>(cells, j, x);
                assert(self.in_flight(x, s, j));
            }
        }
        assert forall|x: usize| #[trigger] next.mail.dom().contains(x) implies next.given.dom().contains(
            x,
        ) && answers(next.given[x], next.mail[x]) && next.waits(x) by {
            if !(self.mail.dom().contains(x) && next.mail[x] == self.mail[x]) {
                let k = choose|k: int| #[trigger]
                    sends::<T>(cells, k, x) && next.mail[x] == values[k];
                assert(self.in_flight(x, s, k));
            }
        }
        assert forall|t: int, k: int|
            #![trigger next.queue.batches[t].cells[k]]
            next.queue.batches.dom().contains(t) && 0 <= k
                < next.queue.batches[t].cells.len() implies next.queue.batches[t].cells[k].rx is Some by {
            assert(self.queue.batches[t].cells[k].rx is Some);
        }
        assert forall|x: usize| #[trigger] next.tasks.dom().contains(x) implies next.accounted(
            x,
            answers,
        ) by {
            assert(self.accounted(x, answers));
            if exists|t: int, k: int| #[trigger] self.in_flight(x, t, k) {
                let (t, k) = choose|t: int, k: int| #[trigger] self.in_flight(x, t, k);
                if t != s {
                    assert(next.in_flight(x, t, k));
                } else if k < values.len() {
                    assert(sends::<T>(cells, k, x));
                    assert(next.mail.dom().contains(x));
                } else {
                    assert(all[k].rx == Some(x));
                    assert(next.given_up.contains(x));
                }
            } else if self.mail.dom().contains(x) {
                assert(next.mail.dom().contains(x));
            }
        }
    }

    proof fn lemma_delivered(self, x: usize, answers: spec_fn(T::Task, T::Value) -> bool)
        requires
            self.inv(answers),
            self.mail.dom().contains(x),
        ensures
            self.delivered(x).inv(answers),
    {
        let next = self.delivered(x);
        assert(forall|y: usize, s: int, k: int| #[trigger]
            next.in_flight(y, s, k) <==> self.in_flight(y, s, k));
        assert(self.waits(x));
        assert forall|y: usize| #[trigger] next.tasks.dom().contains(y) implies next.accounted(
            y,
            answers,
        ) by {
            assert(self.tasks.dom().contains(y));
            assert(self.accounted(y, answers));
            if exists|s: int, k: int| #[trigger] self.in_flight(y, s, k) {
                let (s, k) = choose|s: int, k: int| #[trigger] self.in_flight(y, s, k);
                assert(next.in_flight(y, s, k));
            }
        }
    }

    proof fn lemma_dropped(
        self,
        next: Session<T>,
        x: usize,
        answers: spec_fn(T::Task, T::Value) -> bool,
    )
        requires
            self.inv(answers),
            self.drops_to(next, x),
        ensures
            next.inv(answers),
    {
        assert forall|y: usize, s: int, k: int| #[trigger] next.in_flight(y, s, k) implies self.in_flight(
            y,
            s,
            k,
        ) && next.queue.batches[s].cells[k].task == self.queue.batches[s].cells[k].task && (y != x
            ==> next.queue.batches[s].cells[k] == self.queue.batches[s].cells[k]) by {
            let cell = next.queue.batches[s].cells[k];
            assert(self.in_flight(y, s, k));
        }
        assert forall|s: int, k: int|
            #![trigger next.queue.batches[s].cells[k]]
            next.queue.batches.dom().contains(s) && 0 <= k
                < next.queue.batches[s].cells.len() implies next.queue.batches[s].cells[k].rx is Some by {
            assert(self.queue.batches[s].cells[k].rx is Some);
        }
        assert forall|y: usize| #[trigger] next.tasks.dom().contains(y) implies next.accounted(
            y,
            answers,
        ) by {
            assert(self.tasks.dom().contains(y));
            assert(self.accounted(y, answers));
            if exists|s: int, k: int| #[trigger] self.in_flight(y, s, k) {
                let (s, k) = choose|s: int, k: int| #[trigger] self.in_flight(y, s, k);
                let cell = next.queue.batches[s].cells[k];
                assert(next.in_flight(y, s, k));
            }
        }
    }

    /// Tasks that were given stay what they are, and one that is through, because it received its
    /// value or was dropped, is so for good.
    pub open spec fn settles_to(self, next: Session<T>) -> bool {
        forall|x: usize| #[trigger]
            self.given.dom().contains(x) ==> {
                &&& next.given.dom().contains(x)
                &&& next.given[x] == self.given[x]
                &&& !self.tasks.dom().contains(x) || self.tasks[x] is Received
                    ==> !next.tasks.dom().contains(x) || next.tasks[x] is Received
            }
    }

    /// Whatever else happens keeps the invariant.
    pub proof fn lemma_go_on(
        self,
        next: Session<T>,
        answers: spec_fn(T::Task, T::Value) -> bool,
    )
        requires
            self.inv(answers),
            self.goes_on_to(next, answers),
        ensures
            next.inv(answers),
            self.settles_to(next),
    {
        if exists|x: usize, task: T::Task|
            !self.given.dom().contains(x) && next == #[trigger] self.begun(x, task) {
            let (x, task) = choose|x: usize, task: T::Task|
                !self.given.dom().contains(x) && next == #[trigger] self.begun(x, task);
            self.lemma_begun(x, task, answers);
        } else if self.queue.open is Some && next == self.bounded() {
            self.lemma_bounded(answers);
        } else if exists|s: int, values: Seq<T::Value>| #[trigger]
            self.can_resolve(s, values, answers) && next == self.resolved(s, values) {
            let (s, values) = choose|s: int, values: Seq<T::Value>| #[trigger]
                self.can_resolve(s, values, answers) && next == self.resolved(s, values);
            self.lemma_resolved(s, values, answers);
        } else if exists|x: usize| #[trigger]
            self.mail.dom().contains(x) && next == self.delivered(x) {
            let x = choose|x: usize| #[trigger]
                self.mail.dom().contains(x) && next == self.delivered(x);
            self.lemma_delivered(x, answers);
            assert(self.waits(x));
        } else {
            let x = choose|x: usize| #[trigger] self.drops_to(next, x);
            self.lemma_dropped(next, x, answers);
        }
    }
}

} // verus!
