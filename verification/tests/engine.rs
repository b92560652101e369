use powerset::combinations::combinations;
use powerset::source::{CloneSource, Source, Unhinted, VecSource};

#[test]
fn vec_source_gives_items_in_order() {
    let mut s = VecSource::new(vec![1, 2, 3]);
    assert_eq!(s.size_hint(), (3, Some(3)));
    assert_eq!(s.next(), Some(1));
    assert_eq!(s.size_hint(), (2, Some(2)));
    assert_eq!(s.next(), Some(2));
    assert_eq!(s.next(), Some(3));
    assert_eq!(s.size_hint(), (0, Some(0)));
    assert_eq!(s.next(), None);
    assert_eq!(s.next(), None);
}

#[test]
fn vec_source_clone_keeps_the_pending_items() {
    let mut s = VecSource::new(vec![1, 2, 3]);
    s.next();
    let mut copy = s.clone();
    assert_eq!(copy.next(), Some(2));
    assert_eq!(copy.next(), Some(3));
    assert_eq!(copy.next(), None);
    assert_eq!(s.next(), Some(2));
    let mut second = s.duplicate();
    assert_eq!(second.size_hint(), (1, Some(1)));
    assert_eq!(second.next(), Some(3));
    assert_eq!(s.size_hint(), (1, Some(1)));
}

#[test]
fn unhinted_source_gives_the_same_items_without_bounds() {
    let mut s = Unhinted::new(VecSource::new(vec![4, 5]));
    assert_eq!(s.size_hint(), (0, None));
    assert_eq!(s.next(), Some(4));
    assert_eq!(s.next(), Some(5));
    assert_eq!(s.size_hint(), (0, None));
    assert_eq!(s.next(), None);
    assert_eq!(s.next(), None);
}

#[test]
fn pairs_of_four_in_order() {
    let mut engine = combinations(VecSource::new(vec!['a', 'b', 'c', 'd']), 2);
    assert_eq!(engine.k(), 2);
    assert_eq!(engine.size_hint(), (6, Some(6)));
    let mut given = Vec::new();
    while let Some(pair) = engine.next() {
        given.push(pair);
    }
    assert_eq!(
        given,
        vec![
            vec!['a', 'b'],
            vec!['a', 'c'],
            vec!['a', 'd'],
            vec!['b', 'c'],
            vec!['b', 'd'],
            vec!['c', 'd'],
        ]
    );
    assert_eq!(engine.next(), None);
    assert_eq!(engine.size_hint(), (0, Some(0)));
}

#[test]
fn items_are_drawn_only_as_far_as_needed() {
    let mut engine = combinations(VecSource::new(vec![1, 2, 3, 4, 5]), 2);
    assert_eq!(engine.n(), 0);
    assert_eq!(engine.next(), Some(vec![1, 2]));
    assert_eq!(engine.n(), 2);
    assert_eq!(engine.next(), Some(vec![1, 3]));
    assert_eq!(engine.n(), 3);
    assert_eq!(engine.next(), Some(vec![1, 4]));
    assert_eq!(engine.n(), 4);
    assert_eq!(engine.next(), Some(vec![1, 5]));
    assert_eq!(engine.n(), 5);
    assert_eq!(engine.next(), Some(vec![2, 3]));
    assert_eq!(engine.n(), 5);
}

#[test]
fn size_zero_gives_the_empty_combination_once() {
    let mut engine = combinations(VecSource::new(vec![1, 2]), 0);
    assert_eq!(engine.size_hint(), (1, Some(1)));
    assert_eq!(engine.next(), Some(vec![]));
    assert_eq!(engine.n(), 0);
    assert_eq!(engine.size_hint(), (0, Some(0)));
    assert_eq!(engine.next(), None);
    assert_eq!(engine.next(), None);
    assert_eq!(engine.n(), 0);
}

#[test]
fn a_size_beyond_the_source_gives_nothing() {
    let mut engine = combinations(VecSource::new(vec![1, 2]), 3);
    assert_eq!(engine.size_hint(), (0, Some(0)));
    assert_eq!(engine.next(), None);
    assert_eq!(engine.n(), 2);
    assert_eq!(engine.next(), None);
}

#[test]
fn reset_starts_another_size_over_the_drawn_items() {
    let mut engine = combinations(VecSource::new(vec![1, 2, 3]), 1);
    assert_eq!(engine.next(), Some(vec![1]));
    assert_eq!(engine.next(), Some(vec![2]));
    assert_eq!(engine.n(), 2);
    engine.reset(3);
    assert_eq!(engine.k(), 3);
    assert_eq!(engine.n(), 3);
    assert_eq!(engine.size_hint(), (1, Some(1)));
    assert_eq!(engine.next(), Some(vec![1, 2, 3]));
    assert_eq!(engine.next(), None);
    engine.reset(2);
    assert_eq!(engine.k(), 2);
    assert_eq!(engine.next(), Some(vec![1, 2]));
    assert_eq!(engine.next(), Some(vec![1, 3]));
    assert_eq!(engine.size_hint(), (1, Some(1)));
    assert_eq!(engine.next(), Some(vec![2, 3]));
    assert_eq!(engine.next(), None);
    engine.reset(4);
    assert_eq!(engine.next(), None);
}

#[test]
fn bounds_follow_the_hint_of_the_source() {
    let mut engine = combinations(Unhinted::new(VecSource::new(vec![1, 2, 3, 4])), 2);
    assert_eq!(engine.source_size_hint(), (0, None));
    assert_eq!(engine.size_hint(), (0, None));
    assert_eq!(engine.next(), Some(vec![1, 2]));
    assert_eq!(engine.source_size_hint(), (2, None));
    assert_eq!(engine.size_hint(), (0, None));
    assert_eq!(engine.next(), Some(vec![1, 3]));
    // Of three known items the pair of the last two is still to come.
    assert_eq!(engine.size_hint(), (1, None));
}

#[test]
fn length_and_count_walk_the_source() {
    let mut engine = combinations(VecSource::new(vec![1, 2, 3, 4, 5]), 3);
    assert_eq!(engine.clone().n_and_count(), Some((5, 10)));
    assert_eq!(engine.next(), Some(vec![1, 2, 3]));
    assert_eq!(engine.next(), Some(vec![1, 2, 4]));
    assert_eq!(engine.n(), 4);
    assert_eq!(engine.clone().n_and_count(), Some((5, 8)));
    let mut left = 0;
    while engine.next().is_some() {
        left += 1;
    }
    assert_eq!(left, 8);
    assert_eq!(engine.n_and_count(), Some((5, 0)));
}

#[test]
fn length_and_count_report_overflow() {
    let bits = usize::BITS as usize;
    let engine = combinations(VecSource::new(vec![0u8; 2 * bits + 8]), bits + 4);
    assert_eq!(engine.size_hint(), (usize::MAX, None));
    assert_eq!(engine.n_and_count(), None);
}
