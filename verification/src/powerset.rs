//! The powerset driver: every subset of the items of a source, by
//! ascending size and, within a size, in lexicographic order.

use crate::binomial::{
    as_count, binomial, binomial_head, binomial_tail, checked_binomial, lemma_binomial_full,
    lemma_binomial_one, lemma_binomial_positive, lemma_binomial_symmetric,
    lemma_binomial_tail_includes, lemma_binomial_tail_monotonic, lemma_binomial_total,
    lemma_binomial_zero,
};
use crate::combinations::{combinations, picks, Combinations};
use crate::lazy_buffer::drawn_up_to;
use crate::ranking::{
    combination_at, is_combination, lex_less, lemma_combination_at_first, lemma_combination_at_valid,
    lemma_combination_bounds, lemma_following_first, lemma_subset_at_size, reach, run,
    subset_at, subset_of_endless_at,
};
use crate::source::{clones, CloneSource, Source};
use vstd::arithmetic::power2::pow2;
use vstd::prelude::*;

verus! {

/// Enumerates the subsets of the items of a source without holding more
/// than one of them: first the empty subset, then the subsets of one item,
/// of two, and so on up to the full set.
#[must_use]
pub struct Powerset<S: Source> {
    combs: Combinations<S>,
}

/// Begins the enumeration of the subsets of the items of `src`. Nothing is
/// drawn from the source yet.
pub fn powerset<S: Source>(src: S) -> (all: Powerset<S>)
    ensures
        all.inv(),
        src.obeys() ==> all.wf(),
        all.engine().source() == src,
        all.items() == src.pending(),
        all.size() == 0,
        all.known() == 0,
        all.engine().taken() == 0,
        all.produced() == 0,
        all.remaining() == pow2(src.pending().len()),
        src.endless() ==> {
            &&& all.on_endless()
            &&& all.given_of_endless() == 0
            &&& forall|i: int| 0 <= i ==> #[trigger] all.engine().stream(i) == src.upcoming(i)
        },
{
    let all = Powerset { combs: combinations(src, 0) };
    proof {
        assert forall|i: int| 0 <= i implies #[trigger] all.engine().stream(i) == src.upcoming(
            i,
        ) by {
            all.combs.lemma_stream(i);
        }
    }
    all
}

impl<S: Source> Powerset<S> {
    /// The combination engine that the driver runs.
    pub closed spec fn engine(&self) -> Combinations<S> {
        self.combs
    }

    /// The invariant of the driver, which holds whatever the source does:
    /// that of its engine.
    pub open spec fn inv(&self) -> bool {
        self.engine().inv()
    }

    /// Whether the source keeps to its model.
    pub open spec fn obeys(&self) -> bool {
        self.engine().obeys()
    }

    /// The invariant of the driver over a source that keeps to its model:
    /// the engine has drawn as many items as a subset of the current size
    /// needs, unless the source ran dry.
    pub open spec fn wf(&self) -> bool {
        self.inv() && self.obeys() && self.engine().settled()
    }

    /// Whether the source never ends and keeps to the model of such a
    /// source.
    pub open spec fn endless(&self) -> bool {
        self.engine().endless()
    }

    /// The invariant of the driver over a source that never ends: it is at
    /// size 0, or at size 1 with a subset of that size given, and never
    /// gets further.
    pub open spec fn on_endless(&self) -> bool {
        &&& self.inv()
        &&& self.endless()
        &&& self.size() == 0 || (self.size() == 1 && !self.engine().fresh())
    }

    /// The number of subsets given so far, over a source that never ends:
    /// the empty one, and one for each position up to that of the subset
    /// given last.
    pub open spec fn given_of_endless(&self) -> nat {
        if self.size() == 0 {
            if self.engine().fresh() {
                0
            } else {
                1
            }
        } else {
            (2 + self.engine().given()[0]) as nat
        }
    }

    /// Whether the driver has nothing more to give, whatever its source:
    /// its engine has not, and no larger subsets can be had from the items
    /// drawn.
    pub open spec fn spent(&self) -> bool {
        self.engine().spent() && self.size() > 0 && self.size() >= self.known()
    }

    /// All the items of the source, drawn or not. While the source keeps to
    /// its model they never change.
    pub open spec fn items(&self) -> Seq<S::Item> {
        self.engine().items()
    }

    /// The size of the subsets being enumerated.
    pub open spec fn size(&self) -> nat {
        self.engine().size()
    }

    /// The number of items drawn from the source so far.
    pub open spec fn known(&self) -> nat {
        self.engine().known()
    }

    /// The number of subsets there are in all: `2^n` for `n` items.
    pub open spec fn total(&self) -> nat {
        pow2(self.items().len())
    }

    /// The number of subsets given so far: all those of the smaller sizes
    /// and those taken of the current size.
    pub open spec fn produced(&self) -> nat {
        binomial_head(self.items().len(), self.size()) + self.engine().taken()
    }

    /// The number of subsets still to come.
    pub open spec fn remaining(&self) -> nat {
        (self.total() - self.produced()) as nat
    }

    /// The bounds that `size_hint` reports. To the bounds that the engine
    /// gives for the current size are added the subsets of the larger
    /// sizes, counted on as few items as the source may have for the lower
    /// bound and on as many for the upper. The lower bound saturates; the
    /// upper bound is unknown when one of its parts is, or when it does not
    /// fit.
    pub open spec fn bounds(&self) -> (usize, Option<usize>) {
        let (n_min, n_max) = self.engine().length_hint();
        let (low, high) = self.engine().bounds();
        (
            match as_count(low as nat + binomial_tail(n_min as nat, self.size())) {
                Some(c) => c,
                None => usize::MAX,
            },
            match (high, n_max) {
                (Some(h), Some(n)) => as_count(h as nat + binomial_tail(n as nat, self.size())),
                _ => None,
            },
        )
    }

    /// The subsets still to come are those left of the current size and
    /// all those of the larger sizes.
    pub proof fn lemma_remaining(&self)
        requires
            self.inv(),
        ensures
            self.produced() <= self.total(),
            self.remaining() == self.engine().left() + binomial_tail(
                self.items().len(),
                self.size(),
            ),
    {
        self.engine().lemma_inv();
        lemma_binomial_total(self.items().len(), self.size());
    }

    /// What a driver gives from here on depends only on how many items
    /// there are and how many subsets it has given: two drivers that agree
    /// in both have as many subsets to come, and the subsets that they
    /// give select the same positions, call after call. A driver and its
    /// clone are such a pair, each with its own items and its own progress.
    pub proof fn lemma_same_progress<R: Source>(&self, other: &Powerset<R>, i: nat)
        requires
            other.items().len() == self.items().len(),
            other.produced() == self.produced(),
        ensures
            other.remaining() == self.remaining(),
            subset_at(other.items().len(), other.produced() + i) == subset_at(
                self.items().len(),
                self.produced() + i,
            ),
    {
    }

    /// Gives the next subset, or `None` when all have been given.
    ///
    /// Whatever the source, a driver that has given nothing yet gives the
    /// empty subset and draws nothing; one that has given the empty subset
    /// moves on to size 1; and a driver that has returned `None` is spent,
    /// and a spent driver returns `None`: exhaustion lasts. What is drawn
    /// stays, and a subset given is clones of drawn items, at positions
    /// that ascend: those of the first subset of a new size are the run
    /// from 0, and those of any other come after the positions given last
    /// in lexicographic order.
    ///
    /// Over a source that never ends, a subset is given at every call: the
    /// empty one first, then the items one by one, each alone, and no item
    /// is drawn before the subset that holds it is given.
    ///
    /// Over a source that keeps to its model, the subset given is the one
    /// at rank `produced` among all subsets, as clones of the items at its
    /// positions, and no item is drawn from the source that this subset
    /// does not reach. The size grows by one when every subset of the
    /// current size had been given before the call and larger ones may
    /// exist; it never shrinks. `None` is returned exactly when nothing
    /// remains, and then nothing remains ever after.
    pub fn next(&mut self) -> (subset: Option<Vec<S::Item>>) where S::Item: Clone
        requires
            old(self).inv(),
        ensures
            final(self).inv(),
            final(self).size() == old(self).size() || final(self).size() == old(self).size() + 1,
            final(self).engine().keeps(&old(self).engine()),
            subset matches Some(out) ==> {
                &&& out@.len() == final(self).size()
                &&& !final(self).engine().fresh()
                &&& is_combination(final(self).known(), final(self).engine().given())
                &&& picks(final(self).engine().drawn(), final(self).engine().given(), out@)
                &&& if final(self).size() == old(self).size() && !old(self).engine().fresh() {
                    lex_less(old(self).engine().given(), final(self).engine().given())
                } else {
                    final(self).engine().given() == run(0, final(self).size())
                }
            },
            subset is None ==> final(self).spent(),
            old(self).spent() ==> subset is None,
            old(self).size() == 0 && old(self).engine().taken() == 0 ==> {
                &&& subset matches Some(out) && out@.len() == 0
                &&& final(self).size() == 0
                &&& final(self).engine().taken() > 0
                &&& final(self).known() == old(self).known()
            },
            old(self).size() == 0 && old(self).engine().taken() > 0 ==> final(self).size() == 1,
            final(self).endless() == old(self).endless(),
            old(self).on_endless() ==> {
                let given = subset_of_endless_at(old(self).given_of_endless());
                &&& final(self).on_endless()
                &&& old(self).engine().same_stream(&final(self).engine())
                &&& match subset {
                    Some(out) => {
                        &&& old(self).engine().picks_of_stream(given, out@)
                        &&& old(self).given_of_endless() > 0 ==> cloned::<S::Item>(
                            old(self).engine().stream(old(self).given_of_endless() - 1),
                            out@[0],
                        )
                    },
                    None => false,
                }
                &&& final(self).given_of_endless() == old(self).given_of_endless() + 1
                &&& final(self).known() == if old(self).known() < old(self).given_of_endless() {
                    old(self).given_of_endless()
                } else {
                    old(self).known()
                }
            },
            old(self).obeys() ==> {
                &&& final(self).wf()
                &&& final(self).items() == old(self).items()
                &&& final(self).size() == if old(self).engine().left() == 0 && (old(self).size()
                    == 0 || old(self).size() < old(self).items().len()) {
                    old(self).size() + 1
                } else {
                    old(self).size()
                }
                &&& subset is None <==> old(self).remaining() == 0
                &&& match subset {
                    Some(out) => {
                        let given = subset_at(old(self).items().len(), old(self).produced());
                        &&& old(self).produced() < old(self).total()
                        &&& final(self).produced() == old(self).produced() + 1
                        &&& final(self).remaining() == old(self).remaining() - 1
                        &&& picks(old(self).items(), given, out@)
                        &&& final(self).known() == drawn_up_to(
                            old(self).known(),
                            reach(given) as nat,
                            old(self).items().len(),
                        )
                    },
                    None => {
                        &&& final(self).produced() == old(self).produced()
                        &&& final(self).remaining() == 0
                        &&& final(self).known() == old(self).items().len()
                    },
                }
            },
    {
        let ghost n = self.items().len();
        let ghost k = self.size();
        let ghost taken = self.engine().taken();
        let ghost law = self.obeys();
        proof {
            lemma_binomial_total(n, k);
            self.combs.lemma_inv();
        }
        match self.combs.next() {
            Some(subset) => {
                proof {
                    if law {
                        if k > n {
                            lemma_binomial_zero(n, k);
                        }
                        lemma_subset_at_size(n, k, taken);
                        lemma_combination_at_valid(n, k, taken);
                    }
                    if old(self).on_endless() {
                        self.combs.lemma_inv();
                        assert(self.combs.given() =~= subset_of_endless_at(
                            old(self).given_of_endless(),
                        ));
                    }
                }
                Some(subset)
            },
            None => {
                let k = self.combs.k();
                if k < self.combs.n() || k == 0 {
                    proof {
                        self.combs.lemma_inv();
                        lemma_binomial_total(n, (k + 1) as nat);
                    }
                    let ghost dry = self.combs;
                    self.combs.reset(k + 1);
                    let ghost started = self.combs;
                    let subset = self.combs.next();
                    proof {
                        started.lemma_keeps_through(&dry, &old(self).combs);
                        self.combs.lemma_keeps_through(&started, &old(self).combs);
                        if old(self).on_endless() {
                            assert(self.combs.given() =~= subset_of_endless_at(
                                old(self).given_of_endless(),
                            ));
                        }
                        if law {
                            if subset is Some {
                                if k + 1 > n {
                                    lemma_binomial_zero(n, (k + 1) as nat);
                                }
                                lemma_subset_at_size(n, (k + 1) as nat, 0);
                                lemma_combination_at_valid(n, (k + 1) as nat, 0);
                                lemma_combination_at_first(n, (k + 1) as nat);
                            } else {
                                if k + 1 <= n {
                                    lemma_binomial_positive(n, (k + 1) as nat);
                                }
                            }
                        }
                    }
                    subset
                } else {
                    None
                }
            },
        }
    }

    /// Bounds on the number of subsets still to come, without consuming
    /// any. Over a source that keeps to its model the lower bound never
    /// exceeds that number, and the upper bound, when there is one, is
    /// never below it. Over a source that never ends subsets never cease to
    /// come: no lower bound exceeds their number, and no upper bound is
    /// given.
    pub fn size_hint(&self) -> (bounds: (usize, Option<usize>))
        requires
            self.inv(),
        ensures
            self.endless() ==> bounds.1 is None,
            self.obeys() ==> {
                &&& bounds == self.bounds()
                &&& bounds.0 <= self.remaining()
                &&& bounds.1 matches Some(upper) ==> self.remaining() <= upper
            },
    {
        let k = self.combs.k();
        // Bounds on the number of items of the source.
        let (n_min, n_max) = self.combs.source_size_hint();
        // Bounds on the combinations left of the current size.
        let (low, high) = self.combs.size_hint();
        proof {
            self.lemma_remaining();
            if self.obeys() {
                lemma_binomial_tail_monotonic(n_min as nat, self.items().len(), k as nat);
            }
        }
        let low = match remaining_for(low, n_min, k) {
            Some(c) => c,
            None => usize::MAX,
        };
        let high = match (high, n_max) {
            (Some(h), Some(n)) => {
                proof {
                    if self.obeys() {
                        lemma_binomial_tail_monotonic(self.items().len(), n as nat, k as nat);
                    }
                }
                remaining_for(h, n, k)
            },
            _ => None,
        };
        (low, high)
    }

    /// Consumes the driver and gives all the subsets still to come, in the
    /// order in which `next` gives them.
    pub fn collect(self) -> (subsets: Vec<Vec<S::Item>>) where S::Item: Clone
        requires
            self.wf(),
        ensures
            subsets@.len() == self.remaining(),
            forall|i: int|
                0 <= i < subsets@.len() ==> picks(
                    self.items(),
                    subset_at(self.items().len(), (self.produced() + i) as nat),
                    #[trigger] subsets@[i]@,
                ),
    {
        let mut all = self;
        let mut subsets: Vec<Vec<S::Item>> = Vec::new();
        proof {
            self.lemma_remaining();
        }
        loop
            invariant
                all.wf(),
                all.items() == self.items(),
                all.produced() == self.produced() + subsets@.len(),
                self.produced() <= self.total(),
                forall|i: int|
                    0 <= i < subsets@.len() ==> picks(
                        self.items(),
                        subset_at(self.items().len(), (self.produced() + i) as nat),
                        #[trigger] subsets@[i]@,
                    ),
            decreases all.remaining(),
        {
            proof {
                all.lemma_remaining();
            }
            match all.next() {
                Some(subset) => {
                    subsets.push(subset);
                },
                None => {
                    return subsets;
                },
            }
        }
    }

    /// Consumes the driver and gives the number of subsets still to come,
    /// which must fit in `usize`. The source is walked to its end.
    pub fn count(self) -> (count: usize)
        requires
            self.wf(),
            self.remaining() <= usize::MAX,
        ensures
            count == self.remaining(),
    {
        match self.checked_count() {
            Some(count) => count,
            None => vstd::pervasive::unreached(),
        }
    }

    /// Consumes the driver and gives the number of subsets still to come,
    /// or `None` when that number does not fit in `usize`. The source is
    /// walked to its end.
    pub fn checked_count(self) -> (count: Option<usize>)
        requires
            self.inv(),
        ensures
            self.endless() ==> count is None,
            self.wf() ==> count == as_count(self.remaining()),
    {
        let k = self.combs.k();
        proof {
            self.combs.lemma_inv();
            self.lemma_remaining();
            if self.wf() {
                self.lemma_remaining_with_pending();
            }
        }
        match self.combs.n_and_count() {
            Some((n, left)) => remaining_for(left, n, k),
            None => None,
        }
    }

    /// While the source has items that were not drawn, at least as many
    /// subsets are still to come as the source has items.
    proof fn lemma_remaining_with_pending(&self)
        requires
            self.inv(),
            self.engine().settled(),
        ensures
            self.known() < self.items().len() ==> self.remaining() >= self.items().len(),
    {
        let n = self.items().len();
        let k = self.size();
        let taken = self.engine().taken();
        self.lemma_remaining();
        self.engine().lemma_inv();
        if self.known() < n {
            lemma_binomial_full(n);
            lemma_binomial_symmetric(n, (n - 1) as nat);
            lemma_binomial_one(n);
            if k + 1 < n {
                lemma_binomial_tail_includes(n, k, (n - 1) as nat);
            } else if taken > 0 {
                let last = combination_at(n, k, (taken - 1) as nat);
                lemma_combination_at_valid(n, k, (taken - 1) as nat);
                assert(last =~= run(0, k)) by {
                    assert forall|i: int| 0 <= i < k implies last[i] == i by {
                        lemma_combination_bounds(k, last, i);
                    }
                }
                lemma_following_first(n, k);
            }
        }
    }
}

impl<S: CloneSource> Clone for Powerset<S> where S::Item: Clone {
    /// A driver in the same state over clones of the same items: it has as
    /// many subsets behind it and gives the same ones from here on. What
    /// one of the two does later leaves the other as it is.
    fn clone(&self) -> (copy: Self)
        ensures
            self.inv() ==> copy.inv(),
            copy.size() == self.size(),
            copy.known() == self.known(),
            copy.spent() == self.spent(),
            clones(self.engine().drawn(), copy.engine().drawn()),
            copy.engine().fresh() == self.engine().fresh(),
            copy.engine().given() == self.engine().given(),
            copy.endless() == self.endless(),
            self.on_endless() ==> {
                &&& copy.on_endless()
                &&& copy.given_of_endless() == self.given_of_endless()
                &&& self.engine().cloned_stream(&copy.engine())
            },
            self.obeys() ==> {
                &&& copy.obeys()
                &&& self.wf() ==> copy.wf()
                &&& clones(self.items(), copy.items())
                &&& copy.produced() == self.produced()
                &&& copy.remaining() == self.remaining()
                &&& copy.bounds() == self.bounds()
            },
    {
        Powerset { combs: self.combs.clone() }
    }
}

/// Adds to `init_count` the number of subsets of `n` items that have more
/// than `k` items: `binomial(n, i)` for each `i` in `k + 1 ..= n`.
///
/// Returns `None` exactly when that total does not fit in `usize`; the sum
/// has no term when `k >= n`.
pub fn remaining_for(init_count: usize, n: usize, k: usize) -> (r: Option<usize>)
    ensures
        r == as_count(init_count as nat + binomial_tail(n as nat, k as nat)),
{
    let mut sum: usize = init_count;
    let mut i: usize = k;
    while i < n
        invariant
            sum + binomial_tail(n as nat, i as nat) == init_count + binomial_tail(
                n as nat,
                k as nat,
            ),
        decreases n - i,
    {
        i += 1;
        let term = match checked_binomial(n, i) {
            Some(v) => v,
            None => {
                return None;
            },
        };
        sum = match sum.checked_add(term) {
            Some(v) => v,
            None => {
                return None;
            },
        };
    }
    Some(sum)
}

} // verus!
