use powerset::lazy_buffer::LazyBuffer;
use powerset::source::{Unhinted, VecSource};

#[test]
fn a_new_buffer_has_drawn_nothing() {
    let buffer = LazyBuffer::new(VecSource::new(vec![1, 2, 3]));
    assert_eq!(buffer.len(), 0);
    assert_eq!(buffer.size_hint(), (3, Some(3)));
}

#[test]
fn get_next_draws_one_item_at_a_time() {
    let mut buffer = LazyBuffer::new(VecSource::new(vec![10, 20]));
    assert!(buffer.get_next());
    assert_eq!(buffer.len(), 1);
    assert_eq!(*buffer.get(0), 10);
    assert!(buffer.get_next());
    assert_eq!(buffer.len(), 2);
    assert_eq!(*buffer.get(1), 20);
    assert!(!buffer.get_next());
    assert!(!buffer.get_next());
    assert_eq!(buffer.len(), 2);
    assert_eq!(*buffer.get(0), 10);
}

#[test]
fn prefill_draws_as_far_as_asked_and_no_further() {
    let mut buffer = LazyBuffer::new(VecSource::new(vec![1, 2, 3, 4]));
    buffer.prefill(2);
    assert_eq!(buffer.len(), 2);
    buffer.prefill(1);
    assert_eq!(buffer.len(), 2);
    buffer.prefill(0);
    assert_eq!(buffer.len(), 2);
    buffer.prefill(3);
    assert_eq!(buffer.len(), 3);
    buffer.prefill(9);
    assert_eq!(buffer.len(), 4);
    assert_eq!(*buffer.get(3), 4);
}

#[test]
fn bounds_count_the_drawn_items_in() {
    let mut buffer = LazyBuffer::new(VecSource::new(vec![1, 2, 3]));
    buffer.prefill(2);
    assert_eq!(buffer.size_hint(), (3, Some(3)));
    let mut blind = LazyBuffer::new(Unhinted::new(VecSource::new(vec![1, 2, 3])));
    assert_eq!(blind.size_hint(), (0, None));
    blind.prefill(2);
    assert_eq!(blind.size_hint(), (2, None));
    blind.prefill(5);
    assert_eq!(blind.size_hint(), (3, None));
}

#[test]
fn count_walks_to_the_end() {
    let mut buffer = LazyBuffer::new(VecSource::new(vec![1, 2, 3, 4, 5]));
    buffer.prefill(2);
    assert_eq!(buffer.count(), Some(5));
    let empty = LazyBuffer::new(VecSource::new(Vec::<u8>::new()));
    assert_eq!(empty.count(), Some(0));
}

#[test]
fn a_cloned_buffer_draws_on_its_own() {
    let mut buffer = LazyBuffer::new(VecSource::new(vec![1, 2, 3]));
    buffer.prefill(1);
    let mut copy = buffer.clone();
    copy.prefill(3);
    assert_eq!(copy.len(), 3);
    assert_eq!(buffer.len(), 1);
    assert!(buffer.get_next());
    assert_eq!(*buffer.get(1), 2);
    assert_eq!(*copy.get(2), 3);
}
