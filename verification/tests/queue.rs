use stack_queue::assignment::{BoundedRange, UnboundedRange};
use stack_queue::helpers::{is_power_of_two, is_valid_len};
use stack_queue::queue::{BackgroundStep, BufferCell, StackQueue};
use stack_queue::{MAX_BUFFER_LEN, MIN_BUFFER_LEN};
use std::rc::Rc;

type Queue<const N: usize> = StackQueue<BufferCell<usize>, N>;

fn queue<const N: usize>() -> Queue<N> {
    Queue::<N>::default()
}

/// Adds `tasks`, all of which have to be accepted, and hands out the batch if one began.
fn push_all<const N: usize>(
    queue: &mut Queue<N>,
    tasks: impl Iterator<Item = usize>,
) -> Option<UnboundedRange<usize, N>> {
    let mut range = None;
    for task in tasks {
        match queue.push(task) {
            Ok(Some(begun)) => {
                assert!(range.is_none());
                range = Some(begun);
            }
            Ok(None) => {}
            Err(task) => panic!("task {task} was refused"),
        }
    }
    range
}

#[test]
fn stack_queue_drops() {
    let queue: StackQueue<BufferCell<usize>, 64> = queue();
    drop(queue);
}

#[test]
fn it_manages_occupancy() {
    let expected_total = (0..256).into_iter().sum::<usize>();

    let mut queue: StackQueue<BufferCell<usize>, 64> = queue();
    let mut batch: Option<UnboundedRange<usize, 64>> = None;
    let mut i = 0;
    let mut total = 0;

    while i < 256 {
        match queue.push(i) {
            Ok(Some(unbounded_batch)) => {
                batch = Some(unbounded_batch);
                i += 1;
            }
            Ok(None) => {
                i += 1;
            }
            Err(_) => {
                if let Some(batch) = batch.take() {
                    let bounded = batch.into_bounded(&mut queue);
                    total += bounded.into_iter().collect(&mut queue).into_iter().sum::<usize>();
                } else {
                    panic!("queue full despite buffer unoccupied");
                }
                continue;
            }
        }
    }

    if let Some(batch) = batch.take() {
        let bounded = batch.into_bounded(&mut queue);
        total += bounded.into_iter().collect(&mut queue).into_iter().sum::<usize>();
    }

    assert_eq!(total, expected_total);
}

#[test]
fn a_region_is_free_after_its_batch_was_released() {
    let mut queue: StackQueue<BufferCell<usize>, 64> = queue();
    let range = push_all(&mut queue, 0..64).unwrap();
    assert_eq!(queue.push(64).err(), Some(64));
    range.drop(&mut queue);
    assert!(queue.push(64).is_ok());
}

#[test]
fn a_batch_gathers_tasks_until_it_is_bounded() {
    let mut queue: StackQueue<BufferCell<usize>, 64> = queue();
    let first = push_all(&mut queue, 1..4).unwrap();
    assert!(push_all(&mut queue, 4..6).is_none());
    let first = first.into_bounded(&mut queue);
    let second = push_all(&mut queue, 6..8).unwrap();
    assert_eq!(first.to_vec(&mut queue), vec![1, 2, 3, 4, 5]);
    assert!(push_all(&mut queue, 8..9).is_none());
    assert_eq!(second.into_bounded(&mut queue).to_vec(&mut queue), vec![6, 7, 8]);
}

#[test]
fn a_batch_may_be_as_long_as_the_buffer() {
    let mut queue: StackQueue<BufferCell<usize>, 128> = queue();
    let range = push_all(&mut queue, 0..128).unwrap();
    assert_eq!(queue.push(128).err(), Some(128));
    let range = range.into_bounded(&mut queue);
    // Bounding alone frees nothing.
    assert_eq!(queue.push(128).err(), Some(128));
    assert_eq!(range.to_vec(&mut queue), (0..128).collect::<Vec<_>>());
    assert!(matches!(queue.push(128), Ok(Some(_))));
}

#[test]
fn every_region_is_checked() {
    // Eight regions of eight cells: the second batch begins in the second region, and the writer
    // must not come round to it although the first region is free.
    let mut queue: StackQueue<BufferCell<usize>, 64> = queue();
    let first = push_all(&mut queue, 0..10).unwrap().into_bounded(&mut queue);
    let second = push_all(&mut queue, 10..64).unwrap();
    first.drop(&mut queue);
    assert!(push_all(&mut queue, 64..72).is_none());
    assert_eq!(queue.push(72).err(), Some(72));
    let tasks = second.into_bounded(&mut queue).to_vec(&mut queue);
    assert_eq!(tasks, (10..72).collect::<Vec<_>>());
    assert!(matches!(queue.push(72), Ok(Some(_))));
}

#[test]
fn a_region_is_free_once_all_its_batches_are_released() {
    let mut queue: StackQueue<BufferCell<usize>, 64> = queue();
    let mut ranges = Vec::new();
    for task in 0..64 {
        let range = push_all(&mut queue, task..task + 1).unwrap();
        ranges.push(range.into_bounded(&mut queue));
    }
    let mut ranges = ranges.into_iter();
    for task in 0..8 {
        assert_eq!(queue.push(64).err(), Some(64));
        assert_eq!(ranges.next().unwrap().to_vec(&mut queue), vec![task]);
    }
    assert!(matches!(queue.push(64), Ok(Some(_))));
}

#[test]
fn batches_are_released_in_any_order() {
    let mut queue: StackQueue<BufferCell<usize>, 64> = queue();
    let first = push_all(&mut queue, 0..8).unwrap().into_bounded(&mut queue);
    let second = push_all(&mut queue, 8..16).unwrap().into_bounded(&mut queue);
    let third = push_all(&mut queue, 16..24).unwrap();
    assert_eq!(second.to_vec(&mut queue), (8..16).collect::<Vec<_>>());
    assert!(push_all(&mut queue, 24..64).is_none());
    assert_eq!(queue.push(64).err(), Some(64));
    assert_eq!(first.to_vec(&mut queue), (0..8).collect::<Vec<_>>());
    assert!(push_all(&mut queue, 64..80).is_none());
    assert_eq!(queue.push(80).err(), Some(80));
    let third = third.into_bounded(&mut queue);
    assert_eq!(third.to_vec(&mut queue), (16..80).collect::<Vec<_>>());
}

#[test]
fn slices_of_a_batch_join_where_the_buffer_ends() {
    let mut queue: StackQueue<BufferCell<usize>, 64> = queue();
    let range = push_all(&mut queue, 0..60).unwrap().into_bounded(&mut queue);
    let (front, back) = range.as_slices(&queue);
    assert_eq!((front.len(), back.len()), (60, 0));
    range.drop(&mut queue);

    let range = push_all(&mut queue, 60..70).unwrap().into_bounded(&mut queue);
    let (front, back) = range.as_slices(&queue);
    let values = |cells: &[BufferCell<usize>]| -> Vec<usize> {
        cells.iter().map(|cell| cell.value.unwrap()).collect()
    };
    assert_eq!(values(front), vec![60, 61, 62, 63]);
    assert_eq!(values(back), vec![64, 65, 66, 67, 68, 69]);
    let tasks: Vec<usize> = range.iter(&queue).into_iter().copied().collect();
    assert_eq!(tasks, (60..70).collect::<Vec<_>>());
    assert_eq!(range.to_vec(&mut queue), (60..70).collect::<Vec<_>>());
}

#[test]
fn a_batch_that_ends_with_the_buffer_is_one_slice() {
    let mut queue: StackQueue<BufferCell<usize>, 64> = queue();
    let range = push_all(&mut queue, 0..64).unwrap().into_bounded(&mut queue);
    let (front, back) = range.as_slices(&queue);
    assert_eq!((front.len(), back.len()), (64, 0));
}

#[test]
fn tasks_are_handed_out_one_by_one() {
    let mut queue: StackQueue<BufferCell<usize>, 64> = queue();
    let range = push_all(&mut queue, 5..8).unwrap().into_bounded(&mut queue);
    let mut iter = range.into_iter();
    assert_eq!(iter.next(&mut queue), Some(5));
    assert_eq!(iter.next(&mut queue), Some(6));
    assert_eq!(iter.next(&mut queue), Some(7));
    assert_eq!(iter.next(&mut queue), None);
    assert_eq!(iter.next(&mut queue), None);
    iter.drop(&mut queue);
    assert!(push_all(&mut queue, 8..64).is_some());
    assert!(push_all(&mut queue, 64..66).is_none());
}

#[test]
fn tasks_that_are_given_up_are_dropped() {
    let token = Rc::new(());
    let mut queue = StackQueue::<BufferCell<Rc<()>>, 64>::default();
    let mut fill = |queue: &mut StackQueue<BufferCell<Rc<()>>, 64>| {
        let mut range = None;
        for _ in 0..5 {
            if let Ok(Some(begun)) = queue.push(token.clone()) {
                range = Some(begun);
            }
        }
        assert_eq!(Rc::strong_count(&token), 6);
        range.unwrap()
    };

    let mut iter = fill(&mut queue).into_bounded(&mut queue).into_iter();
    let taken = iter.next(&mut queue);
    assert!(taken.is_some());
    iter.drop(&mut queue);
    assert_eq!(Rc::strong_count(&token), 2);
    drop(taken);

    fill(&mut queue).drop(&mut queue);
    assert_eq!(Rc::strong_count(&token), 1);

    fill(&mut queue).into_bounded(&mut queue).drop(&mut queue);
    assert_eq!(Rc::strong_count(&token), 1);

    let mut iter = fill(&mut queue).into_bounded(&mut queue).into_iter();
    assert_eq!(iter.drain(&mut queue).len(), 5);
    assert_eq!(Rc::strong_count(&token), 1);
    iter.drop(&mut queue);
}

#[test]
fn a_drained_range_stays_taken() {
    let mut queue: StackQueue<BufferCell<usize>, 64> = queue();
    let mut iter = push_all(&mut queue, 0..64).unwrap().into_bounded(&mut queue).into_iter();
    assert_eq!(iter.drain(&mut queue), (0..64).collect::<Vec<_>>());
    assert_eq!(queue.push(64).err(), Some(64));
    iter.drop(&mut queue);
    assert!(matches!(queue.push(64), Ok(Some(_))));
}

#[test]
fn tasks_join_an_open_batch_without_being_counted() {
    // The byte of the last region is used up, and the newest of its batches is open.
    let mut queue: StackQueue<BufferCell<usize>, 2048> = queue();
    push_all(&mut queue, 0..1792).unwrap().into_bounded(&mut queue).drop(&mut queue);
    let kept = push_each(&mut queue, 1792..2046);
    assert_eq!(kept.len(), 254);
    let open = push_all(&mut queue, 2046..2047).unwrap();
    assert!(queue.has_room());
    assert!(matches!(queue.push(2047), Ok(None)));
    assert_eq!(open.into_bounded(&mut queue).to_vec(&mut queue), vec![2046, 2047]);
}

#[test]
fn batches_hold_what_was_accepted() {
    // Batches are opened, bounded, emptied and given back in turns.
    let mut queue: StackQueue<BufferCell<usize>, 64> = queue();
    let mut batches: Vec<Vec<usize>> = Vec::new();
    let mut live = Vec::new();
    let mut open = None;
    let mut accepted = 0;
    for step in 0..4000_usize {
        match queue.push(accepted) {
            Ok(Some(range)) => {
                open = Some((batches.len(), range));
                batches.push(Vec::new());
                accepted += 1;
            }
            Ok(None) => accepted += 1,
            Err(task) => assert_eq!(task, accepted),
        }
        if step % 5 == 4 {
            if let Some((batch, range)) = open.take() {
                live.push((batch, range.into_bounded(&mut queue).into_iter()));
            }
        }
        if step % 3 == 2 && !live.is_empty() {
            let at = step % live.len();
            let (batch, iter) = &mut live[at];
            if let Some(task) = iter.next(&mut queue) {
                batches[*batch].push(task);
            }
        }
        if live.len() > 4 {
            let (batch, iter) = live.remove(step % 3);
            batches[batch].extend(iter.collect(&mut queue));
        }
    }
    if let Some((batch, range)) = open.take() {
        live.push((batch, range.into_bounded(&mut queue).into_iter()));
    }
    for (batch, iter) in live {
        batches[batch].extend(iter.collect(&mut queue));
    }
    assert!(batches.iter().all(|batch| !batch.is_empty()));
    assert_eq!(batches.concat(), (0..accepted).collect::<Vec<_>>());
}

#[test]
fn background_tasks_are_handed_in() {
    let mut queue: StackQueue<BufferCell<usize>, 64> = queue();
    let range = match queue.background_process(0) {
        BackgroundStep::Process(range) => range,
        _ => panic!("the first task begins a batch"),
    };
    for task in 1..64 {
        assert!(matches!(queue.background_process(task), BackgroundStep::Done));
    }
    assert!(matches!(queue.background_process(64), BackgroundStep::Retry(64)));
    assert_eq!(
        range.into_bounded(&mut queue).to_vec(&mut queue),
        (0..64).collect::<Vec<_>>()
    );
    assert!(matches!(queue.background_process(64), BackgroundStep::Process(_)));
}

#[test]
fn it_process_background_tasks() {
    let mut queue: StackQueue<BufferCell<usize>, 512> = queue();
    let mut answers = Vec::new();
    let mut batch = None;
    for i in 0..10_usize {
        match queue.background_process(i) {
            BackgroundStep::Process(range) => batch = Some(range),
            BackgroundStep::Done => {}
            BackgroundStep::Retry(_) => unreachable!(),
        }
    }
    let mut iter = batch.unwrap().into_bounded(&mut queue).into_iter();
    while let Some(val) = iter.next(&mut queue) {
        answers.push(val);
    }
    iter.drop(&mut queue);
    assert_eq!(answers.len(), 10);
    for (i, answer) in answers.into_iter().enumerate() {
        assert_eq!(answer, i);
    }
}

#[test]
fn small_regions_always_have_room() {
    let mut queue: StackQueue<BufferCell<usize>, 1024> = queue();
    for task in 0..1024 {
        assert!(queue.has_room());
        let range = push_all(&mut queue, task..task + 1).unwrap();
        range.into_bounded(&mut queue);
    }
    assert_eq!(queue.push(1024).err(), Some(1024));
}

/// Adds each of `tasks` as a batch of its own, and hands the batches out.
fn push_each<const N: usize>(
    queue: &mut Queue<N>,
    tasks: impl Iterator<Item = usize>,
) -> Vec<BoundedRange<usize, N>> {
    tasks
        .map(|task| push_all(queue, task..task + 1).unwrap().into_bounded(queue))
        .collect()
}

#[test]
fn overflow_of_a_counter_refuses_at_the_next_region() {
    // Eight regions of 512 cells, of which the first one gets more batches than a byte counts.
    let mut queue: StackQueue<BufferCell<usize>, 4096> = queue();
    let mut ranges = push_each(&mut queue, 0..300);
    assert!(queue.has_room());
    let open = push_all(&mut queue, 300..512).unwrap();
    assert_eq!(queue.push(512).err(), Some(512));
    // 301 batches are live: 45 releases leave 256 of them, one more leaves 255.
    for task in (255..300).rev() {
        assert_eq!(ranges.pop().unwrap().to_vec(&mut queue), vec![task]);
        assert_eq!(queue.push(512).err(), Some(512));
    }
    assert_eq!(ranges.pop().unwrap().to_vec(&mut queue), vec![254]);
    assert!(matches!(queue.push(512), Ok(None)));
    let tasks = open.into_bounded(&mut queue).to_vec(&mut queue);
    assert_eq!(tasks, (300..513).collect::<Vec<_>>());
}

#[test]
fn the_counter_of_the_last_region_can_run_out() {
    let mut queue: StackQueue<BufferCell<usize>, 4096> = queue();
    let first = push_all(&mut queue, 0..3584).unwrap().into_bounded(&mut queue);
    first.drop(&mut queue);
    let mut ranges = push_each(&mut queue, 3584..3839);
    assert_eq!(ranges.len(), 255);
    assert!(!queue.has_room());
    ranges.pop().unwrap().drop(&mut queue);
    assert!(queue.has_room());
}

#[test]
fn a_carry_can_fill_the_byte_of_the_next_region() {
    // 255 batches stay in the second region while the first one is filled again.
    let mut queue: StackQueue<BufferCell<usize>, 4096> = queue();
    push_all(&mut queue, 0..512).unwrap().into_bounded(&mut queue).drop(&mut queue);
    let kept = push_each(&mut queue, 512..767);
    push_all(&mut queue, 767..1024).unwrap().into_bounded(&mut queue).drop(&mut queue);
    push_all(&mut queue, 1024..4096).unwrap().into_bounded(&mut queue).drop(&mut queue);
    let mut ranges = push_each(&mut queue, 4096..4351);
    assert_eq!((kept.len(), ranges.len()), (255, 255));
    assert!(!queue.has_room());
    ranges.pop().unwrap().drop(&mut queue);
    assert!(queue.has_room());
}

#[test]
fn the_queue_goes_round_many_times() {
    let mut queue: StackQueue<BufferCell<usize>, 64> = queue();
    let mut next = 0;
    for len in 1..200 {
        let len = 1 + len % 40;
        let range = push_all(&mut queue, next..next + len).unwrap();
        let tasks = range.into_bounded(&mut queue).to_vec(&mut queue);
        assert_eq!(tasks, (next..next + len).collect::<Vec<_>>());
        next += len;
    }
}

#[test]
fn lengths_are_powers_of_two_within_bounds() {
    assert_eq!(MIN_BUFFER_LEN, 64);
    assert_eq!(MAX_BUFFER_LEN, u32::MAX as usize);
    for n in [64, 128, 256, 512, 4096, 1 << 31] {
        assert!(is_valid_len(n));
    }
    for n in [0, 1, 2, 32, 63, 65, 96, 511, (1 << 31) + 1, 1 << 32, usize::MAX] {
        assert!(!is_valid_len(n));
    }
    assert!(is_power_of_two(1) && is_power_of_two(32) && is_power_of_two(1 << 63));
    assert!(!is_power_of_two(0) && !is_power_of_two(3) && !is_power_of_two(usize::MAX));
}
