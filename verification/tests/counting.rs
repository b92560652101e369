use powerset::binomial::checked_binomial;
use powerset::powerset::powerset;
use powerset::source::VecSource;

fn items(n: usize) -> Vec<usize> {
    (0..n).collect()
}

#[test]
fn there_are_two_to_the_n_subsets_grouped_by_size() {
    for n in 0..=10usize {
        let mut all = powerset(VecSource::new(items(n)));
        let mut by_size = vec![0usize; n + 1];
        let mut last_size = 0;
        let mut total = 0usize;
        while let Some(subset) = all.next() {
            assert!(subset.len() >= last_size);
            last_size = subset.len();
            by_size[subset.len()] += 1;
            total += 1;
        }
        assert_eq!(total, 1 << n);
        for k in 0..=n {
            assert_eq!(Some(by_size[k]), checked_binomial(n, k));
        }
    }
}

#[test]
fn the_first_subset_is_empty_and_the_last_is_full() {
    for n in 0..=8usize {
        let subsets = powerset(VecSource::new(items(n))).collect();
        assert_eq!(subsets.first(), Some(&vec![]));
        assert_eq!(subsets.last(), Some(&items(n)));
    }
}

#[test]
fn subsets_of_one_size_come_in_lexicographic_order() {
    let subsets = powerset(VecSource::new(items(7))).collect();
    for pair in subsets.windows(2) {
        // The items are their own positions, and vectors compare
        // lexicographically.
        if pair[0].len() == pair[1].len() {
            assert!(pair[0] < pair[1]);
        } else {
            assert_eq!(pair[0].len() + 1, pair[1].len());
        }
        for entries in pair[1].windows(2) {
            assert!(entries[0] < entries[1]);
        }
    }
}

#[test]
fn no_subset_comes_twice() {
    let mut subsets = powerset(VecSource::new(items(8))).collect();
    subsets.sort();
    subsets.dedup();
    assert_eq!(subsets.len(), 256);
}

#[test]
fn count_is_the_number_of_subsets_that_next_would_give() {
    for n in 0..=6usize {
        for given in 0..=(1usize << n) {
            let mut counted = powerset(VecSource::new(items(n)));
            let mut drained = powerset(VecSource::new(items(n)));
            for _ in 0..given {
                counted.next();
                drained.next();
            }
            let mut left = 0;
            while drained.next().is_some() {
                left += 1;
            }
            assert_eq!(left, (1 << n) - given);
            assert_eq!(counted.count(), left);
        }
    }
}

#[test]
fn count_of_a_fresh_driver_is_two_to_the_n() {
    for n in 0..=20usize {
        assert_eq!(powerset(VecSource::new(items(n))).count(), 1 << n);
    }
}

#[test]
fn bounds_enclose_what_is_left() {
    for n in 0..=6usize {
        let mut all = powerset(VecSource::new(items(n)));
        let mut left = 1usize << n;
        loop {
            let (low, high) = all.size_hint();
            assert!(low <= left);
            assert!(high.map_or(true, |h| left <= h));
            if all.next().is_none() {
                break;
            }
            left -= 1;
        }
        assert_eq!(left, 0);
    }
}

#[test]
fn exhaustion_lasts() {
    for n in 0..=4usize {
        let mut all = powerset(VecSource::new(items(n)));
        while all.next().is_some() {}
        for _ in 0..5 {
            assert_eq!(all.next(), None);
            assert_eq!(all.size_hint(), (0, Some(0)));
        }
    }
}

#[test]
fn a_clone_goes_on_from_the_same_place_on_its_own() {
    let mut first = powerset(VecSource::new(items(4)));
    for _ in 0..6 {
        first.next();
    }
    let mut copy = first.clone();
    assert_eq!(copy.size_hint(), first.size_hint());
    let from_copy = copy.clone().collect();
    // Advancing the copy leaves the other where it was.
    assert_eq!(copy.next(), Some(vec![0, 2]));
    assert_eq!(copy.next(), Some(vec![0, 3]));
    assert_eq!(first.size_hint(), (10, Some(10)));
    let from_first = first.collect();
    assert_eq!(from_first.len(), 10);
    assert_eq!(from_first, from_copy);
    assert_eq!(copy.count(), 8);
}
