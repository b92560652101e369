use powerset::combinations::combinations;
use powerset::lazy_buffer::LazyBuffer;
use powerset::powerset::powerset;
use powerset::source::{CloneSource, Repeat, Source, Unhinted};

#[test]
fn repeat_gives_its_item_for_ever() {
    let mut source = Repeat::new(9u8);
    assert_eq!(source.size_hint(), (usize::MAX, None));
    for _ in 0..100 {
        assert_eq!(source.next(), Some(9));
    }
    let mut copy = source.duplicate();
    assert_eq!(copy.next(), Some(9));
    assert_eq!(source.clone().next(), Some(9));
}

#[test]
fn the_empty_subset_comes_first_then_single_items() {
    let mut all = powerset(Repeat::new('x'));
    assert_eq!(all.size_hint(), (usize::MAX, None));
    assert_eq!(all.next(), Some(vec![]));
    for _ in 0..500 {
        assert_eq!(all.next(), Some(vec!['x']));
        assert_eq!(all.size_hint(), (usize::MAX, None));
    }
}

#[test]
fn no_upper_bound_without_a_hint_either() {
    let mut all = powerset(Unhinted::new(Repeat::new(1u8)));
    assert_eq!(all.size_hint().1, None);
    assert_eq!(all.next(), Some(vec![]));
    assert_eq!(all.next(), Some(vec![1]));
    assert_eq!(all.next(), Some(vec![1]));
    assert_eq!(all.size_hint().1, None);
}

#[test]
fn a_clone_over_an_endless_source_goes_on_alike() {
    let mut all = powerset(Repeat::new(3u8));
    all.next();
    all.next();
    let mut copy = all.clone();
    for _ in 0..10 {
        assert_eq!(copy.next(), all.next());
    }
    for _ in 0..5 {
        assert_eq!(copy.next(), Some(vec![3]));
    }
    assert_eq!(all.next(), Some(vec![3]));
}

#[test]
fn an_engine_over_an_endless_source_moves_its_last_position() {
    let mut engine = combinations(Repeat::new(0u8), 3);
    assert_eq!(engine.n(), 0);
    assert_eq!(engine.next(), Some(vec![0, 0, 0]));
    assert_eq!(engine.n(), 3);
    assert_eq!(engine.next(), Some(vec![0, 0, 0]));
    assert_eq!(engine.n(), 4);
    assert_eq!(engine.next(), Some(vec![0, 0, 0]));
    assert_eq!(engine.n(), 5);
    assert_eq!(engine.size_hint(), (usize::MAX, None));
    engine.reset(7);
    assert_eq!(engine.n(), 7);
    assert_eq!(engine.next().map(|c| c.len()), Some(7));
    engine.reset(0);
    assert_eq!(engine.next(), Some(vec![]));
    assert_eq!(engine.next(), None);
    assert_eq!(engine.n(), 7);
}

#[test]
fn a_buffer_over_an_endless_source_fills_as_far_as_asked() {
    let mut buffer = LazyBuffer::new(Repeat::new(5u8));
    buffer.prefill(4);
    assert_eq!(buffer.len(), 4);
    assert!(buffer.get_next());
    assert_eq!(buffer.len(), 5);
    assert_eq!(*buffer.get(4), 5);
    assert_eq!(buffer.size_hint(), (usize::MAX, None));
}
