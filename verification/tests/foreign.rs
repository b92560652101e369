use powerset::combinations::combinations;
use powerset::powerset::powerset;
use powerset::source::{CloneSource, Source};
use std::cell::Cell;
use std::rc::Rc;

/// A source over a standard iterator that counts what is drawn from it.
struct Watched<I: Iterator> {
    iter: std::iter::Fuse<I>,
    drawn: Rc<Cell<usize>>,
}

fn watched<I: Iterator>(iter: I) -> (Watched<I>, Rc<Cell<usize>>) {
    let drawn = Rc::new(Cell::new(0));
    (
        Watched {
            iter: iter.fuse(),
            drawn: drawn.clone(),
        },
        drawn,
    )
}

impl<I: Iterator> Source for Watched<I> {
    type Item = I::Item;

    fn next(&mut self) -> Option<I::Item> {
        let item = self.iter.next();
        if item.is_some() {
            self.drawn.set(self.drawn.get() + 1);
        }
        item
    }

    fn size_hint(&self) -> (usize, Option<usize>) {
        self.iter.size_hint()
    }
}

impl<I: Iterator + Clone> CloneSource for Watched<I>
where
    I::Item: Clone,
{
    fn duplicate(&self) -> Self {
        Watched {
            iter: self.iter.clone(),
            drawn: Rc::new(Cell::new(self.drawn.get())),
        }
    }
}

/// A source that announces what it is told to, whatever it holds.
struct Announcing {
    left: Vec<u8>,
    bounds: (usize, Option<usize>),
}

impl Source for Announcing {
    type Item = u8;

    fn next(&mut self) -> Option<u8> {
        if self.left.is_empty() {
            None
        } else {
            Some(self.left.remove(0))
        }
    }

    fn size_hint(&self) -> (usize, Option<usize>) {
        self.bounds
    }
}

#[test]
fn items_are_drawn_as_the_subsets_reach_them() {
    let (source, drawn) = watched(1..=4);
    let mut all = powerset(source);
    assert_eq!(drawn.get(), 0);
    assert_eq!(all.next(), Some(vec![]));
    assert_eq!(drawn.get(), 0);
    assert_eq!(all.next(), Some(vec![1]));
    assert_eq!(drawn.get(), 1);
    assert_eq!(all.next(), Some(vec![2]));
    assert_eq!(drawn.get(), 2);
    assert_eq!(all.next(), Some(vec![3]));
    assert_eq!(all.next(), Some(vec![4]));
    assert_eq!(drawn.get(), 4);
    assert_eq!(all.next(), Some(vec![1, 2]));
    assert_eq!(drawn.get(), 4);
    let mut left = 0;
    while all.next().is_some() {
        left += 1;
    }
    assert_eq!(left, 10);
    assert_eq!(drawn.get(), 4);
}

#[test]
fn a_filtered_range_is_counted_by_walking_it() {
    let (source, drawn) = watched((0..20).filter(|x| x % 5 == 0));
    let mut all = powerset(source);
    // The filter knows no lower bound but 0 and no upper bound but 20.
    let bits = usize::BITS as usize;
    let expected_upper = if bits > 20 { Some(1 << 20) } else { None };
    assert_eq!(all.size_hint(), (1, expected_upper));
    assert_eq!(all.next(), Some(vec![]));
    assert_eq!(all.next(), Some(vec![0]));
    assert_eq!(drawn.get(), 1);
    assert_eq!(all.checked_count(), Some(14));
}

#[test]
fn an_endless_source_gives_single_items_for_ever() {
    let (source, drawn) = watched(0u64..);
    let mut all = powerset(source);
    assert_eq!(all.next(), Some(vec![]));
    for i in 0..1000u64 {
        assert_eq!(all.next(), Some(vec![i]));
    }
    assert_eq!(drawn.get(), 1000);
    let (low, high) = all.size_hint();
    assert_eq!(low, usize::MAX);
    assert_eq!(high, None);
}

#[test]
fn an_endless_source_gives_pairs_that_start_at_the_front() {
    let (source, _) = watched(0u32..);
    let mut engine = combinations(source, 2);
    assert_eq!(engine.next(), Some(vec![0, 1]));
    assert_eq!(engine.next(), Some(vec![0, 2]));
    assert_eq!(engine.next(), Some(vec![0, 3]));
    assert_eq!(engine.n(), 4);
    assert_eq!(engine.size_hint(), (usize::MAX, None));
}

#[test]
fn loose_bounds_of_the_source_give_loose_bounds() {
    let source = Announcing {
        left: vec![1, 2, 3],
        bounds: (2, Some(4)),
    };
    let mut all = powerset(source);
    // Between the 4 subsets of 2 items and the 16 subsets of 4.
    assert_eq!(all.size_hint(), (4, Some(16)));
    assert_eq!(all.next(), Some(vec![]));
    assert_eq!(all.size_hint(), (3, Some(15)));
    assert_eq!(all.next(), Some(vec![1]));
    // One item is drawn, and the source still announces 2 to 4 more.
    assert_eq!(all.size_hint(), (6, Some(30)));
}

#[test]
fn wrong_bounds_of_the_source_do_no_harm() {
    let source = Announcing {
        left: vec![1, 2],
        bounds: (usize::MAX, Some(0)),
    };
    let mut all = powerset(source);
    let mut given = Vec::new();
    loop {
        all.size_hint();
        match all.next() {
            Some(subset) => given.push(subset),
            None => break,
        }
    }
    assert_eq!(given, vec![vec![], vec![1], vec![2], vec![1, 2]]);
    assert_eq!(all.next(), None);
    assert_eq!(all.checked_count(), Some(0));
}

#[test]
fn a_clone_over_a_standard_iterator_goes_its_own_way() {
    let (source, drawn) = watched(vec!['a', 'b', 'c'].into_iter());
    let mut all = powerset(source);
    all.next();
    all.next();
    let mut copy = all.clone();
    assert_eq!(copy.next(), Some(vec!['b']));
    assert_eq!(copy.next(), Some(vec!['c']));
    assert_eq!(copy.next(), Some(vec!['a', 'b']));
    assert_eq!(drawn.get(), 1);
    assert_eq!(all.next(), Some(vec!['b']));
    assert_eq!(drawn.get(), 2);
}

/// A source that goes on giving after it has given `None`.
struct Flickering {
    script: Vec<Option<u8>>,
}

impl Source for Flickering {
    type Item = u8;

    fn next(&mut self) -> Option<u8> {
        if self.script.is_empty() {
            None
        } else {
            self.script.remove(0)
        }
    }

    fn size_hint(&self) -> (usize, Option<usize>) {
        (0, None)
    }
}

#[test]
fn a_source_found_dry_is_not_asked_again() {
    let source = Flickering {
        script: vec![Some(1), Some(2), None, Some(3), None, Some(4)],
    };
    let mut all = powerset(source);
    let mut given = Vec::new();
    while let Some(subset) = all.next() {
        given.push(subset);
    }
    assert_eq!(given, vec![vec![], vec![1], vec![2], vec![1, 2]]);
    assert_eq!(all.next(), None);
    assert_eq!(all.checked_count(), Some(0));
}

#[test]
fn a_buffer_stays_dry() {
    let mut buffer = powerset::lazy_buffer::LazyBuffer::new(Flickering {
        script: vec![Some(1), None, Some(2)],
    });
    assert!(buffer.get_next());
    assert!(!buffer.get_next());
    assert!(!buffer.get_next());
    buffer.prefill(5);
    assert_eq!(buffer.len(), 1);
    assert_eq!(buffer.count(), Some(1));
}

#[test]
fn the_empty_subset_comes_first_whatever_the_source_announces() {
    for bounds in [(0, None), (5, Some(1)), (usize::MAX, Some(0)), (0, Some(usize::MAX))] {
        let source = Announcing {
            left: vec![1, 2],
            bounds,
        };
        let mut all = powerset(source);
        assert_eq!(all.next(), Some(vec![]));
        assert_eq!(all.next(), Some(vec![1]));
    }
}
