use powerset::powerset::{powerset, Powerset};
use powerset::source::{Unhinted, VecSource};

fn drain(mut all: Powerset<VecSource<i32>>) -> Vec<Vec<i32>> {
    let mut out = Vec::new();
    while let Some(subset) = all.next() {
        out.push(subset);
    }
    assert_eq!(all.next(), None);
    out
}

#[test]
fn empty_source_gives_the_empty_subset_only() {
    let mut all = powerset(VecSource::new(Vec::<i32>::new()));
    assert_eq!(all.size_hint(), (1, Some(1)));
    assert_eq!(all.next(), Some(vec![]));
    assert_eq!(all.size_hint(), (0, Some(0)));
    assert_eq!(all.next(), None);
    assert_eq!(all.next(), None);
    assert_eq!(all.size_hint(), (0, Some(0)));
    assert_eq!(all.count(), 0);
}

#[test]
fn empty_source_counts_one() {
    assert_eq!(powerset(VecSource::new(Vec::<i32>::new())).count(), 1);
}

#[test]
fn one_item_gives_two_subsets() {
    let subsets = drain(powerset(VecSource::new(vec![7])));
    assert_eq!(subsets, vec![vec![], vec![7]]);
}

#[test]
fn two_items_give_four_subsets() {
    let subsets = drain(powerset(VecSource::new(vec![1, 2])));
    assert_eq!(subsets, vec![vec![], vec![1], vec![2], vec![1, 2]]);
    assert_eq!(powerset(VecSource::new(vec![1, 2])).count(), 4);
}

#[test]
fn three_items_give_eight_subsets_by_size() {
    let subsets = drain(powerset(VecSource::new(vec![1, 2, 3])));
    assert_eq!(
        subsets,
        vec![
            vec![],
            vec![1],
            vec![2],
            vec![3],
            vec![1, 2],
            vec![1, 3],
            vec![2, 3],
            vec![1, 2, 3],
        ]
    );
    let sizes: Vec<usize> = subsets.iter().map(|s| s.len()).collect();
    assert_eq!(sizes, vec![0, 1, 1, 1, 2, 2, 2, 3]);
}

#[test]
fn bounds_and_count_after_four_of_eight() {
    let mut all = powerset(VecSource::new(vec![1, 2, 3]));
    for _ in 0..4 {
        assert!(all.next().is_some());
    }
    assert_eq!(all.size_hint(), (4, Some(4)));
    assert_eq!(all.count(), 4);
}

#[test]
fn equal_items_are_not_merged() {
    let subsets = drain(powerset(VecSource::new(vec![5, 5])));
    assert_eq!(subsets, vec![vec![], vec![5], vec![5], vec![5, 5]]);
}

#[test]
fn bounds_at_every_step_of_three_items() {
    let mut all = powerset(VecSource::new(vec![1, 2, 3]));
    for left in (0..=8usize).rev() {
        assert_eq!(all.size_hint(), (left, Some(left)));
        assert_eq!(all.next().is_some(), left > 0);
    }
    assert_eq!(all.size_hint(), (0, Some(0)));
}

#[test]
fn bounds_without_a_hint_from_the_source() {
    let mut all = powerset(Unhinted::new(VecSource::new(vec![1, 2, 3])));
    // Nothing is drawn yet: for all the driver knows the source is empty.
    assert_eq!(all.size_hint(), (1, None));
    assert_eq!(all.next(), Some(vec![]));
    assert_eq!(all.size_hint(), (0, None));
    assert_eq!(all.next(), Some(vec![1]));
    assert_eq!(all.size_hint(), (0, None));
    assert_eq!(all.next(), Some(vec![2]));
    // Two items are known: the pair of them is still to come.
    assert_eq!(all.size_hint(), (1, None));
    assert_eq!(all.next(), Some(vec![3]));
    assert_eq!(all.size_hint(), (4, None));
    assert_eq!(all.next(), Some(vec![1, 2]));
    assert_eq!(all.size_hint(), (3, None));
    assert_eq!(all.count(), 3);
}

#[test]
fn collect_gives_what_next_gives() {
    let all = powerset(VecSource::new(vec![1, 2, 3]));
    assert_eq!(all.collect(), drain(powerset(VecSource::new(vec![1, 2, 3]))));
    let mut rest = powerset(VecSource::new(vec![1, 2, 3]));
    for _ in 0..5 {
        rest.next();
    }
    assert_eq!(rest.collect(), vec![vec![1, 3], vec![2, 3], vec![1, 2, 3]]);
}

#[test]
fn count_at_the_edge_of_the_machine() {
    let bits = usize::BITS as usize;
    let fits: Vec<u8> = vec![0; bits - 1];
    assert_eq!(powerset(VecSource::new(fits.clone())).checked_count(), Some(1 << (bits - 1)));
    assert_eq!(powerset(VecSource::new(fits)).count(), 1 << (bits - 1));
    let too_many: Vec<u8> = vec![0; bits];
    assert_eq!(powerset(VecSource::new(too_many.clone())).checked_count(), None);
    // Once the empty subset is given, the rest fits again.
    let mut all = powerset(VecSource::new(too_many));
    assert_eq!(all.size_hint(), (usize::MAX, None));
    assert_eq!(all.next(), Some(vec![]));
    assert_eq!(all.size_hint(), (usize::MAX, Some(usize::MAX)));
    assert_eq!(all.checked_count(), Some(usize::MAX));
}
