use stack_queue::echo::{batch_sizes, echo_tasks, is_echo, starts_drain, Drain, Pull};

#[test]
fn batches_double_in_size() {
    assert_eq!(batch_sizes(), vec![1, 2, 4, 8, 16, 32, 64]);
}

#[test]
fn an_echo_is_what_was_called() {
    assert_eq!(echo_tasks(0), vec![]);
    assert_eq!(echo_tasks(3), vec![0, 1, 2]);
    assert!(is_echo(&vec![0, 1, 2], 3));
    assert!(!is_echo(&vec![0, 2, 1], 3));
    assert!(!is_echo(&vec![0, 1], 3));
    assert!(starts_drain(0));
    assert!(!starts_drain(1));
}

#[test]
fn a_drain_ends_when_the_queue_is_empty() {
    let mut drain = Drain::new();
    assert!(drain.pull(Pull::Item(4)));
    assert!(drain.pull(Pull::Retry));
    assert!(drain.pull(Pull::Item(5)));
    assert!(!drain.pull(Pull::Empty));
    assert_eq!(drain.batch, vec![4, 5]);
}
