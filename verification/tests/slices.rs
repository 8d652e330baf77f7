use stack_queue::queue::{BufferCell, Inner};
use stack_queue::slice::{active_phase_bit, UnboundedSlice};

fn filled() -> Inner<BufferCell<usize>, 64> {
    let mut inner = Inner::<BufferCell<usize>, 64>::default();
    for index in 0..64 {
        inner.with_buffer_cell(index, index * 10);
    }
    inner
}

#[test]
fn the_phase_bit_alternates_with_laps() {
    assert_eq!(active_phase_bit::<64>(0), 1);
    assert_eq!(active_phase_bit::<64>(63 << 32), 1);
    assert_eq!(active_phase_bit::<64>(64 << 32), 2);
    assert_eq!(active_phase_bit::<64>(128 << 32), 1);
}

#[test]
fn a_batch_ends_where_the_buffer_ends() {
    // The queue is at its first slot: a batch that begins in the lap before reaches to the end.
    let mut inner = filled();
    let slice = UnboundedSlice::<usize, 64>::new((64 + 60) << 32).into_bounded(&mut inner);
    let values: Vec<usize> = slice.tasks(&inner).iter().map(|cell| cell.value.unwrap()).collect();
    assert_eq!(values, vec![600, 610, 620, 630]);
    assert_eq!(slice.to_vec(&mut inner), vec![600, 610, 620, 630]);
}

#[test]
fn a_batch_in_the_same_lap_ends_at_the_queue() {
    let mut inner = filled();
    let slice = UnboundedSlice::<usize, 64>::new(0).into_bounded(&mut inner);
    assert!(slice.tasks(&inner).is_empty());
    slice.drop(&mut inner);
}
