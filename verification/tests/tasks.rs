use stack_queue::assignment::{CompletionReceipt, PendingAssignment};
use stack_queue::queue::{BatchReducer, BufferCell, ReducerExt, StackQueue, TaskQueue};
use stack_queue::task::{
    BatchCollect, BatchReduce, BatchedTask, Delivery, Dropping, Gathered, Polled, Receiver, State,
    TaskRef, RECEIVER_DROPPED, SETTING_VALUE, VALUE_SET,
};

struct EchoQueue;

impl TaskQueue for EchoQueue {
    type Task = usize;
    type Value = usize;
}

type Tasks<const N: usize> = StackQueue<TaskRef<EchoQueue>, N>;

struct Accumulator;

impl BatchReducer for Accumulator {
    type Task = usize;
}

/// Polls a task that is to be accepted, and hands out its batch if it began one.
fn submit<const N: usize>(
    task: &mut BatchedTask<EchoQueue, N>,
    rx: usize,
    queue: &mut Tasks<N>,
) -> Option<PendingAssignment<EchoQueue, N>> {
    match task.poll(rx, queue) {
        Polled::Process(assignment) => Some(assignment),
        Polled::Pending => None,
        Polled::Wake => panic!("the queue is full"),
        Polled::Ready(_) => panic!("nothing was resolved yet"),
    }
}

/// Gives values to the tasks at whose addresses they arrive.
fn deliver<const N: usize>(
    tasks: &mut [BatchedTask<EchoQueue, N>],
    sent: (CompletionReceipt<EchoQueue>, Vec<Delivery<usize>>),
) {
    for delivery in sent.1 {
        tasks[delivery.rx].receive(delivery.value);
    }
}

#[test]
fn it_process_tasks() {
    let seed: Vec<usize> = (0..65536usize)
        .map(|i| i.wrapping_mul(0x9e37_79b9_7f4a_7c15) ^ (i << 7))
        .collect();

    let expected_total: u128 = seed
        .iter()
        .fold(0, |total, val| total.wrapping_add(*val as u128));

    let mut queue = Tasks::<64>::default();
    let mut total: u128 = 0;
    let mut rest = &seed[..];
    let mut len = 1;

    while !rest.is_empty() {
        let (now, later) = rest.split_at(rest.len().min(len));
        rest = later;
        len = (len * 7 + 3) % 4095 + 1;

        let mut tasks: Vec<BatchedTask<EchoQueue, 64>> =
            now.iter().map(|val| BatchedTask::new(*val)).collect();
        let mut done = 0;
        let mut pending: Option<PendingAssignment<EchoQueue, 64>> = None;

        while done < tasks.len() {
            for rx in 0..tasks.len() {
                match tasks[rx].poll(rx, &mut queue) {
                    Polled::Process(assignment) => pending = Some(assignment),
                    Polled::Ready(val) => {
                        total = total.wrapping_add(val as u128);
                        done += 1;
                    }
                    Polled::Wake | Polled::Pending => {}
                }
            }
            if let Some(assignment) = pending.take() {
                let assignment = assignment.into_assignment(&mut queue);
                let sent = assignment.map(&mut queue, |val| val);
                deliver(&mut tasks, sent);
            }
        }
    }

    assert_eq!(total, expected_total);
}

#[test]
fn it_cycles() {
    let mut queue = Tasks::<64>::default();
    for i in 0..512 {
        let mut tasks = vec![BatchedTask::new(i)];
        let assignment = submit(&mut tasks[0], 0, &mut queue).unwrap();
        let sent = assignment.into_assignment(&mut queue).map(&mut queue, |val| val);
        deliver(&mut tasks, sent);
        assert!(matches!(tasks[0].poll(0, &mut queue), Polled::Ready(val) if val == i));
    }
}

#[test]
fn a_task_is_received_once() {
    let mut queue = Tasks::<64>::default();
    let mut tasks = vec![BatchedTask::new(3)];
    let assignment = submit(&mut tasks[0], 0, &mut queue).unwrap();
    assert!(matches!(tasks[0].poll(0, &mut queue), Polled::Pending));
    let sent = assignment.into_assignment(&mut queue).map(&mut queue, |val| val * 2);
    deliver(&mut tasks, sent);
    assert!(matches!(tasks[0].poll(0, &mut queue), Polled::Ready(6)));
    assert!(matches!(tasks[0].poll(0, &mut queue), Polled::Pending));
    assert!(matches!(tasks[0].state, State::Received));
    assert!(matches!(tasks[0].drop(&mut queue), Dropping::Done));
}

#[test]
fn a_full_queue_keeps_the_task_unbatched() {
    let mut queue = Tasks::<64>::default();
    let mut tasks: Vec<BatchedTask<EchoQueue, 64>> = (0..64).map(BatchedTask::new).collect();
    let mut pending = None;
    for rx in 0..64 {
        if let Some(assignment) = submit(&mut tasks[rx], rx, &mut queue) {
            pending = Some(assignment);
        }
    }
    let mut late = BatchedTask::<EchoQueue, 64>::new(64);
    assert!(matches!(late.poll(64, &mut queue), Polled::Wake));
    assert!(matches!(late.state, State::Unbatched { task: 64 }));
    pending.unwrap().drop(&mut queue);
    assert!(matches!(late.poll(64, &mut queue), Polled::Process(_)));
}

#[test]
fn tasks_line_up_with_values() {
    let mut queue = Tasks::<64>::default();
    let mut tasks: Vec<BatchedTask<EchoQueue, 64>> = (10..13).map(BatchedTask::new).collect();
    let assignment = submit(&mut tasks[0], 0, &mut queue).unwrap();
    assert!(submit(&mut tasks[1], 1, &mut queue).is_none());
    assert!(submit(&mut tasks[2], 2, &mut queue).is_none());
    let assignment = assignment.into_assignment(&mut queue);
    let seen: Vec<usize> = assignment.tasks(&queue).into_iter().map(|task| *task.task()).collect();
    assert_eq!(seen, vec![10, 11, 12]);
    let (front, back) = assignment.as_slices(&queue);
    assert_eq!((front.len(), back.len()), (3, 0));
    let sent = assignment.resolve_with_iter(&mut queue, std::iter::repeat(7));
    deliver(&mut tasks, sent);
    for rx in 0..3 {
        assert!(matches!(tasks[rx].poll(rx, &mut queue), Polled::Ready(7)));
    }
}

#[test]
fn values_may_be_fewer_than_tasks() {
    let mut queue = Tasks::<64>::default();
    let mut tasks: Vec<BatchedTask<EchoQueue, 64>> = (0..3).map(BatchedTask::new).collect();
    let assignment = submit(&mut tasks[0], 0, &mut queue).unwrap();
    submit(&mut tasks[1], 1, &mut queue);
    submit(&mut tasks[2], 2, &mut queue);
    let assignment = assignment.into_assignment(&mut queue);
    let sent = assignment.resolve_with_iter(&mut queue, vec![100, 101].into_iter());
    assert_eq!(
        sent.1.iter().map(|sent| (sent.rx, sent.value)).collect::<Vec<_>>(),
        vec![(0, 100), (1, 101)]
    );
    deliver(&mut tasks, sent);
    assert!(matches!(tasks[0].poll(0, &mut queue), Polled::Ready(100)));
    assert!(matches!(tasks[1].poll(1, &mut queue), Polled::Ready(101)));
    assert!(matches!(tasks[2].poll(2, &mut queue), Polled::Pending));
}

#[test]
fn it_has_drop_safety() {
    let mut queue = Tasks::<64>::default();
    let mut task = BatchedTask::<EchoQueue, 64>::new(0);
    let assignment = submit(&mut task, 0, &mut queue).unwrap();
    assert!(matches!(task.drop(&mut queue), Dropping::Done));
    let (_, sent) = assignment.into_assignment(&mut queue).map(&mut queue, |task| task);
    assert!(sent.is_empty());
}

#[test]
fn a_batch_that_is_given_up_resolves_nothing() {
    let mut queue = Tasks::<64>::default();
    let mut task = BatchedTask::<EchoQueue, 64>::new(0);
    let assignment = submit(&mut task, 0, &mut queue).unwrap();
    assignment.into_assignment(&mut queue).drop(&mut queue);
    assert!(matches!(task.poll(0, &mut queue), Polled::Pending));
    assert_eq!(queue.state(0, 0), Some(0));
    assert_eq!(queue.state(0, 1), None);
}

#[test]
fn it_negotiates_receiver_drop() {
    fn cell() -> TaskRef<EchoQueue> {
        let mut task: TaskRef<EchoQueue> = TaskRef::new_uninit();
        task.set_task(9001, 256);
        task
    }

    // The value arrives before the receiver goes.
    let mut task = cell();
    let mut rx: Receiver<usize> = Receiver::new(0, 256);
    let delivery = task.resolve_unchecked(9001).unwrap();
    assert_eq!((delivery.rx, delivery.value), (256, 9001));
    rx.value = Some(delivery.value);
    assert_eq!(task.state, VALUE_SET);
    assert!(matches!(rx.settle(task.state), Dropping::Done));
    assert!(rx.value.is_none());

    // The receiver goes before the value is sent.
    let mut task = cell();
    let mut rx: Receiver<usize> = Receiver::new(0, 256);
    let state = task.state;
    task.state |= RECEIVER_DROPPED;
    assert!(matches!(rx.settle(state), Dropping::Done));
    assert!(task.resolve_unchecked(9001).is_none());
    assert_eq!(task.state, RECEIVER_DROPPED | SETTING_VALUE);

    // The receiver goes while the value is being sent.
    let mut task = cell();
    let mut rx: Receiver<usize> = Receiver::new(0, 256);
    assert!(task.begin_resolve());
    let state = task.state;
    task.state |= RECEIVER_DROPPED;
    assert!(matches!(rx.settle(state), Dropping::Wait));
    rx.value = Some(9001);
    assert!(matches!(rx.settle(task.state), Dropping::Wait));
    assert_eq!(rx.value, Some(9001));
    task.finish_resolve();
    assert_eq!(task.state, RECEIVER_DROPPED | VALUE_SET);
    assert!(matches!(rx.settle(task.state), Dropping::Done));
    assert!(rx.value.is_none());
}

#[test]
fn a_receiver_that_goes_during_the_handover_waits() {
    let mut queue = Tasks::<64>::default();
    let mut task = BatchedTask::<EchoQueue, 64>::new(1);
    submit(&mut task, 0, &mut queue);
    assert_eq!(queue.or_state(0, 7, SETTING_VALUE), None);
    assert_eq!(queue.or_state(0, 0, SETTING_VALUE), Some(0));
    assert!(matches!(task.drop(&mut queue), Dropping::Wait));
    assert_eq!(queue.state(0, 0), Some(SETTING_VALUE | RECEIVER_DROPPED));
    assert!(matches!(task.drop_retry(&queue), Dropping::Wait));
}

#[test]
fn tasks_compare_by_what_they_hold() {
    let cell = |task: usize, rx: usize| {
        let mut cell: TaskRef<EchoQueue> = TaskRef::new_uninit();
        cell.set_task(task, rx);
        cell
    };
    assert!(cell(1, 0) == cell(1, 9));
    assert!(cell(1, 0) != cell(2, 0));
    assert!(cell(1, 5) < cell(2, 0));
    assert_eq!(cell(2, 0).partial_cmp(&cell(2, 1)), Some(std::cmp::Ordering::Equal));
    assert_eq!(cell(4, 0).take_task_unchecked(), 4);
}

#[test]
fn it_batch_reduces() {
    let mut queue = StackQueue::<BufferCell<usize>, 512>::default();
    let sum = |tasks: Vec<usize>| tasks.into_iter().sum::<usize>();
    let mut tasks: Vec<Option<BatchReduce<Accumulator, _, 512>>> =
        (0..10000).map(|i| Some(Accumulator::batch_reduce(i, sum))).collect();
    let mut total = 0_usize;
    let mut left = tasks.len();
    while left > 0 {
        for task in tasks.iter_mut() {
            let polled = match task {
                Some(task) => task.poll(&mut queue),
                None => continue,
            };
            if let Gathered::Ready(value) = polled {
                total += value.unwrap_or_default();
                *task = None;
                left -= 1;
            }
        }
    }
    assert_eq!(total, (0..10000).sum());
}

#[test]
fn it_batch_collects() {
    let mut queue = StackQueue::<BufferCell<usize>, 512>::default();
    let mut tasks: Vec<Option<BatchCollect<Accumulator, 512>>> =
        (0..10000).map(|i| Some(Accumulator::batch_collect(i))).collect();
    let mut total = 0;
    let mut left = tasks.len();
    while left > 0 {
        for task in tasks.iter_mut() {
            let polled = match task {
                Some(task) => task.poll(&mut queue),
                None => continue,
            };
            if let Gathered::Ready(batch) = polled {
                total += batch.map_or(0, |batch| batch.into_iter().sum::<usize>());
                *task = None;
                left -= 1;
            }
        }
    }
    assert_eq!(total, (0..10000).sum());
}

#[test]
fn the_one_who_began_a_batch_gets_its_result() {
    let mut queue = StackQueue::<BufferCell<usize>, 64>::default();
    let mut first: BatchCollect<Accumulator, 64> = Accumulator::batch_collect(1);
    let mut second: BatchCollect<Accumulator, 64> = Accumulator::batch_collect(2);
    assert!(matches!(first.poll(&mut queue), Gathered::Wake));
    assert!(matches!(second.poll(&mut queue), Gathered::Ready(None)));
    match first.poll(&mut queue) {
        Gathered::Ready(Some(tasks)) => assert_eq!(tasks, vec![1, 2]),
        _ => panic!("the batch is complete"),
    }
    assert!(matches!(first.poll(&mut queue), Gathered::Ready(None)));
}

#[test]
fn a_late_drop_leaves_the_next_task_alone() {
    let mut queue = Tasks::<64>::default();

    // The value of the first task is sent, and its cell given back, before its receiver goes.
    let mut first = BatchedTask::<EchoQueue, 64>::new(1);
    let assignment = submit(&mut first, 100, &mut queue).unwrap();
    let (_, sent) = assignment.into_assignment(&mut queue).map(&mut queue, |val| val);
    assert_eq!(sent.len(), 1);
    first.receive(1);

    // One lap later another task has the cell.
    let mut pending = None;
    for rx in 0..63 {
        let mut task = BatchedTask::<EchoQueue, 64>::new(rx);
        if let Some(assignment) = submit(&mut task, rx, &mut queue) {
            pending = Some(assignment);
        }
    }
    pending.unwrap().drop(&mut queue);
    let mut next = vec![BatchedTask::<EchoQueue, 64>::new(5)];
    let assignment = submit(&mut next[0], 0, &mut queue).unwrap();
    assert_eq!((queue.state(0, 100), queue.state(0, 0)), (None, Some(0)));

    assert!(matches!(first.drop(&mut queue), Dropping::Done));
    assert!(matches!(first.state, State::Batched(Receiver { value: None, .. })));
    assert!(matches!(first.drop_retry(&queue), Dropping::Done));
    assert_eq!(queue.state(0, 0), Some(0));

    let sent = assignment.into_assignment(&mut queue).map(&mut queue, |val| val + 1);
    deliver(&mut next, sent);
    assert!(matches!(next[0].poll(0, &mut queue), Polled::Ready(6)));
}

#[test]
fn a_drop_silences_its_own_task_alone() {
    let mut queue = Tasks::<64>::default();
    let mut tasks: Vec<BatchedTask<EchoQueue, 64>> = (0..3).map(BatchedTask::new).collect();
    let assignment = submit(&mut tasks[0], 0, &mut queue).unwrap();
    submit(&mut tasks[1], 1, &mut queue);
    submit(&mut tasks[2], 2, &mut queue);
    assert!(matches!(tasks[1].drop(&mut queue), Dropping::Done));
    let (_, sent) = assignment.into_assignment(&mut queue).map(&mut queue, |val| val * 10);
    assert_eq!(
        sent.iter().map(|sent| (sent.rx, sent.value)).collect::<Vec<_>>(),
        vec![(0, 0), (2, 20)]
    );
}

#[test]
fn a_reducer_runs_once_per_batch() {
    let mut queue = StackQueue::<BufferCell<usize>, 64>::default();
    let runs = std::cell::Cell::new(0);
    let sum = |tasks: Vec<usize>| {
        runs.set(runs.get() + 1);
        tasks.into_iter().sum::<usize>()
    };
    let mut tasks: Vec<BatchReduce<Accumulator, _, 64>> =
        (1..=5).map(|i| Accumulator::batch_reduce(i, sum)).collect();
    assert!(matches!(tasks[0].poll(&mut queue), Gathered::Wake));
    for task in tasks.iter_mut().skip(1) {
        assert!(matches!(task.poll(&mut queue), Gathered::Ready(None)));
    }
    assert_eq!(runs.get(), 0);
    assert!(matches!(tasks[0].poll(&mut queue), Gathered::Ready(Some(15))));
    for task in tasks.iter_mut() {
        assert!(matches!(task.poll(&mut queue), Gathered::Ready(None)));
    }
    assert_eq!(runs.get(), 1);
}

#[test]
fn values_without_a_task_stay_in_the_iterator() {
    let mut queue = Tasks::<64>::default();
    let mut values = vec![10, 11, 12].into_iter();
    for (count, left) in [(1, vec![11, 12]), (2, vec![])] {
        let mut pending = None;
        for rx in 0..count {
            let mut task = BatchedTask::<EchoQueue, 64>::new(rx);
            if let Some(assignment) = submit(&mut task, rx, &mut queue) {
                pending = Some(assignment);
            }
        }
        let assignment = pending.unwrap().into_assignment(&mut queue);
        let (_, sent) = assignment.resolve_with(&mut queue, &mut values);
        assert_eq!(sent.len(), count);
        assert_eq!(values.as_slice(), left);
    }
}

#[test]
fn each_of_many_tasks_is_ready_once_with_its_own_value() {
    let mut queue = Tasks::<64>::default();
    let mut tasks: Vec<BatchedTask<EchoQueue, 64>> = (0..200).map(BatchedTask::new).collect();
    let mut ready = vec![0; 200];
    let mut pending = Vec::new();
    let mut mail: Vec<Delivery<usize>> = Vec::new();
    let mut left = 200;
    while left > 0 {
        for rx in (0..200).rev() {
            match tasks[rx].poll(rx, &mut queue) {
                Polled::Ready(value) => {
                    assert_eq!(value, rx * rx);
                    ready[rx] += 1;
                    left -= 1;
                }
                Polled::Process(assignment) => pending.push(assignment),
                Polled::Wake | Polled::Pending => {}
            }
            if rx % 11 == 0 {
                if let Some(delivery) = mail.pop() {
                    tasks[delivery.rx].receive(delivery.value);
                }
            }
        }
        for assignment in pending.drain(..) {
            let assignment = assignment.into_assignment(&mut queue);
            mail.extend(assignment.map(&mut queue, |val| val * val).1);
        }
    }
    assert_eq!(ready, vec![1; 200]);
}
