use zuffy::reactor::{readable, ready_readers};

const POLLIN: i16 = 1;
const POLLOUT: i16 = 2;

#[test]
fn readable_looks_at_the_events_asked_for() {
    assert!(readable(1, POLLIN));
    assert!(readable(3, POLLIN));
    assert!(readable(5, POLLIN));
    assert!(readable(-1, POLLIN));
    assert!(!readable(0, POLLIN));
    assert!(!readable(2, POLLIN));
    assert!(!readable(4, POLLIN));
    assert!(!readable(6, POLLIN));
    assert!(readable(2, POLLOUT));
    assert!(!readable(1, POLLOUT));
    assert!(readable(2, POLLIN | POLLOUT));
    assert!(!readable(7, 0));
}

#[test]
fn ready_readers_lists_the_signaled_sources_in_order() {
    assert_eq!(ready_readers(&vec![], POLLIN), Vec::<usize>::new());
    assert_eq!(ready_readers(&vec![0, 2, 4], POLLIN), Vec::<usize>::new());
    assert_eq!(ready_readers(&vec![1], POLLIN), vec![0]);
    assert_eq!(ready_readers(&vec![0, 1, 2, 3, 0, 5], POLLIN), vec![1, 3, 5]);
    assert_eq!(ready_readers(&vec![1, 1, 1], POLLIN), vec![0, 1, 2]);
    assert_eq!(ready_readers(&vec![0, 1, 2, 3, 0, 5], POLLOUT), vec![2, 3]);
}

#[test]
fn a_source_that_can_only_be_written_is_left_out() {
    assert_eq!(ready_readers(&vec![2, 3], POLLIN), vec![1]);
}
