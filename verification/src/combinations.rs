//! The combination engine: for one size `k` at a time, the `k`-item
//! combinations of a source in lexicographic order of their positions.

use crate::binomial::{
    as_count, binomial, checked_binomial, lemma_binomial_monotonic, lemma_binomial_zero,
};
use crate::lazy_buffer::{drawn_up_to, raised, LazyBuffer};
use crate::ranking::{
    combination_at, following, following_from, is_combination, lemma_combination_at_rank,
    lemma_combination_bounds, lemma_following_bound, lemma_following_first,
    lemma_following_last, lemma_following_monotonic, lemma_following_successor,
    lemma_run_is_combination, lex_less, reach, run, smaller_at,
};
use crate::source::{clones, CloneSource, Source};
use vstd::prelude::*;

verus! {

/// Whether `out` holds a clone of the item at each position of `idx`, in
/// the order of `idx`.
pub open spec fn picks<T: Clone>(items: Seq<T>, idx: Seq<int>, out: Seq<T>) -> bool {
    &&& out.len() == idx.len()
    &&& forall|j: int| 0 <= j < idx.len() ==> cloned::<T>(items[idx[j]], #[trigger] out[j])
}

/// The positions that a vector of indices holds.
spec fn positions_of(indices: Seq<usize>) -> Seq<int> {
    Seq::new(indices.len(), |i: int| indices[i] as int)
}

/// Enumerates the combinations of one size after another over the items of
/// a source, drawing from the source only as far as the next combination
/// needs.
#[must_use]
pub struct Combinations<S: Source> {
    indices: Vec<usize>,
    pool: LazyBuffer<S>,
    first: bool,
}

/// The number of combinations of `n` items that are still to come: all
/// `binomial(n, k)` of size `k = indices.len()` when none was given yet
/// (`first`), else those after `indices` in lexicographic order. `None`
/// when the number does not fit in `usize`.
fn remaining_after(n: usize, first: bool, indices: &Vec<usize>) -> (count: Option<usize>)
    requires
        !first ==> is_combination(n as nat, positions_of(indices@)),
    ensures
        count == as_count(
            if first {
                binomial(n as nat, indices@.len())
            } else {
                following(n as nat, positions_of(indices@))
            },
        ),
{
    let k = indices.len();
    if n < k {
        proof {
            if first {
                lemma_binomial_zero(n as nat, k as nat);
            } else {
                lemma_combination_bounds(n as nat, positions_of(indices@), k - 1);
            }
        }
        Some(0)
    } else if first {
        checked_binomial(n, k)
    } else {
        let ghost idx = positions_of(indices@);
        let mut sum: usize = 0;
        let mut i: usize = k;
        while i > 0
            invariant
                !first,
                0 <= i <= k,
                k == indices@.len(),
                idx == positions_of(indices@),
                is_combination(n as nat, idx),
                sum == following_from(n as nat, idx, i as int),
            decreases i,
        {
            i -= 1;
            assert(0 <= idx[i as int] < n);
            assert(following_from(n as nat, idx, i as int) == binomial(
                (n - 1 - idx[i as int]) as nat,
                (k - i) as nat,
            ) + following_from(n as nat, idx, i + 1));
            let term = match checked_binomial(n - 1 - indices[i], k - i) {
                Some(t) => t,
                None => {
                    proof {
                        lemma_following_suffix(n as nat, idx, i as int);
                    }
                    return None;
                },
            };
            sum = match sum.checked_add(term) {
                Some(s) => s,
                None => {
                    proof {
                        lemma_following_suffix(n as nat, idx, i as int);
                    }
                    return None;
                },
            };
        }
        Some(sum)
    }
}

/// What follows from a later entry on is part of what follows.
proof fn lemma_following_suffix(n: nat, idx: Seq<int>, i: int)
    requires
        0 <= i <= idx.len(),
    ensures
        following_from(n, idx, i) <= following(n, idx),
    decreases i,
{
    if i > 0 {
        lemma_following_suffix(n, idx, i - 1);
    }
}

impl<S: Source> Combinations<S> {
    /// All the items of the source, drawn or not. While the source keeps to
    /// its model they never change.
    pub closed spec fn items(&self) -> Seq<S::Item> {
        self.pool.items()
    }

    /// The number of items drawn from the source so far.
    pub closed spec fn known(&self) -> nat {
        self.pool.buffered().len()
    }

    /// The size of the combinations being enumerated.
    pub closed spec fn size(&self) -> nat {
        self.indices@.len()
    }

    /// The source as it stands, behind the items drawn.
    pub closed spec fn source(&self) -> S {
        self.pool.source()
    }

    /// Whether the source keeps to its model.
    pub open spec fn obeys(&self) -> bool {
        self.source().obeys()
    }

    /// Whether the source never ends and keeps to the model of such a
    /// source.
    pub open spec fn endless(&self) -> bool {
        self.source().endless()
    }

    /// The items drawn from the source so far, in order.
    pub closed spec fn drawn(&self) -> Seq<S::Item> {
        self.pool.buffered()
    }

    /// Whether no combination of the current size has been given yet.
    pub closed spec fn fresh(&self) -> bool {
        self.first
    }

    /// The positions of the combination given last, once one of the
    /// current size has been given.
    pub closed spec fn given(&self) -> Seq<int> {
        positions_of(self.indices@)
    }

    /// The `i`-th of all the items of a source that never ends: drawn
    /// already, or the source has yet to give it. Drawing does not change
    /// it.
    pub closed spec fn stream(&self, i: int) -> S::Item {
        self.pool.stream(i)
    }

    /// An item of the stream is a drawn one where `i` is below the number
    /// drawn, and else one that the source has yet to give.
    pub proof fn lemma_stream(&self, i: int)
        ensures
            self.stream(i) == if i < self.known() {
                self.drawn()[i]
            } else {
                self.source().upcoming(i - self.known())
            },
    {
    }

    /// Whether this engine holds the drawn items that `earlier` held, and
    /// perhaps more behind them: what is drawn stays.
    pub open spec fn keeps(&self, earlier: &Self) -> bool {
        &&& earlier.known() <= self.known()
        &&& self.drawn().take(earlier.known() as int) == earlier.drawn()
    }

    /// What is kept through one step and the next is kept through both.
    pub proof fn lemma_keeps_through(&self, middle: &Self, earlier: &Self)
        requires
            middle.keeps(earlier),
            self.keeps(middle),
        ensures
            self.keeps(earlier),
    {
        assert(self.drawn().take(earlier.known() as int) =~= middle.drawn().take(
            earlier.known() as int,
        ));
    }

    /// Whether `later` holds the same items as this engine, index by index.
    pub open spec fn same_stream(&self, later: &Self) -> bool {
        forall|i: int| 0 <= i ==> self.stream(i) == #[trigger] later.stream(i)
    }

    /// Whether `copy` holds a clone of each item of this engine, index by
    /// index.
    pub open spec fn cloned_stream(&self, copy: &Self) -> bool where S::Item: Clone {
        forall|i: int| 0 <= i ==> cloned::<S::Item>(self.stream(i), #[trigger] copy.stream(i))
    }

    /// Whether `out` holds a clone of the item of the stream at each
    /// position of `idx`, in the order of `idx`.
    pub open spec fn picks_of_stream(&self, idx: Seq<int>, out: Seq<S::Item>) -> bool where
        S::Item: Clone,
     {
        &&& out.len() == idx.len()
        &&& forall|j: int|
            0 <= j < idx.len() ==> cloned::<S::Item>(self.stream(idx[j]), #[trigger] out[j])
    }

    /// The bounds on the number of all items that `source_size_hint`
    /// reports: those that the source gives on what it has yet to give,
    /// moved up by the number of items drawn.
    pub open spec fn length_hint(&self) -> (usize, Option<usize>) {
        raised(self.source().hint(), self.known())
    }

    /// The invariant of the engine, which holds whatever the source does:
    /// that of its buffer, and before the first combination of a size the
    /// positions are the run from 0, afterwards they are the combination
    /// given last, and its items have been drawn.
    pub closed spec fn inv(&self) -> bool {
        &&& self.pool.inv()
        &&& if self.first {
            positions_of(self.indices@) == run(0, self.indices@.len())
        } else {
            is_combination(self.pool.buffered().len(), positions_of(self.indices@))
        }
    }

    /// The number of combinations of the current size given so far.
    pub closed spec fn taken(&self) -> nat {
        if self.first {
            0
        } else {
            (binomial(self.items().len(), self.size()) - following(
                self.items().len(),
                positions_of(self.indices@),
            )) as nat
        }
    }

    /// The number of combinations of the current size still to come.
    pub open spec fn left(&self) -> nat {
        (binomial(self.items().len(), self.size()) - self.taken()) as nat
    }

    /// The number of combinations that would be still to come if the source
    /// had `n` items in all.
    pub open spec fn left_among(&self, n: nat) -> nat {
        if self.taken() == 0 {
            binomial(n, self.size())
        } else {
            following(
                n,
                combination_at(self.items().len(), self.size(), (self.taken() - 1) as nat),
            )
        }
    }

    /// The bounds that `size_hint` reports: the combinations still to come
    /// if the source had as few items as it may, and as many. The lower
    /// bound saturates; the upper bound is unknown when that of the source
    /// is, or when it does not fit.
    pub open spec fn bounds(&self) -> (usize, Option<usize>) {
        let (low, high) = self.length_hint();
        (
            match as_count(self.left_among(low as nat)) {
                Some(c) => c,
                None => usize::MAX,
            },
            match high {
                Some(h) => as_count(self.left_among(h as nat)),
                None => None,
            },
        )
    }

    /// Whether the engine has nothing more to give, whatever its source:
    /// the source was found dry, and all the combinations of the current
    /// size over the items drawn have been given.
    pub closed spec fn spent(&self) -> bool {
        if self.first {
            self.pool.dry() && self.indices@.len() > self.pool.buffered().len()
        } else {
            self.indices@.len() == 0 || (self.pool.dry() && positions_of(self.indices@) == run(
                self.pool.buffered().len() - self.indices@.len(),
                self.indices@.len(),
            ))
        }
    }

    /// Whether as many items are drawn as a combination needs, or the
    /// source is dry.
    pub open spec fn settled(&self) -> bool {
        self.size() <= self.known() || self.known() == self.items().len()
    }

    /// What the invariant says of the model: no more is drawn than there
    /// is or than memory holds, no more is taken than there are
    /// combinations, and the combination given last is the one at the rank
    /// before `taken`.
    pub proof fn lemma_inv(&self)
        requires
            self.inv(),
        ensures
            self.known() <= self.items().len(),
            self.known() <= usize::MAX,
            self.known() == self.drawn().len(),
            self.fresh() <==> self.taken() == 0,
            !self.fresh() ==> self.given().len() == self.size() && is_combination(
                self.known(),
                self.given(),
            ),
            self.source().pending() == self.items().skip(self.known() as int),
            self.taken() <= binomial(self.items().len(), self.size()),
            self.taken() > 0 ==> self.size() <= self.known(),
            self.taken() > 0 ==> is_combination(
                self.known(),
                combination_at(self.items().len(), self.size(), (self.taken() - 1) as nat),
            ),
    {
        self.pool.lemma_buffered_fits();
        assert(self.pool.items().skip(self.pool.buffered().len() as int) =~= self.pool.pending());
        if !self.first {
            self.lemma_positions();
        }
    }

    /// After the first combination the positions are those of the
    /// combination at rank `taken - 1`.
    proof fn lemma_positions(&self)
        requires
            self.inv(),
            !self.first,
        ensures
            self.known() <= self.items().len(),
            0 < self.taken() <= binomial(self.items().len(), self.size()),
            self.taken() + following(self.items().len(), positions_of(self.indices@))
                == binomial(self.items().len(), self.size()),
            self.size() <= self.known(),
            is_combination(self.items().len(), positions_of(self.indices@)),
            positions_of(self.indices@) == combination_at(
                self.items().len(),
                self.size(),
                (self.taken() - 1) as nat,
            ),
    {
        let n = self.items().len();
        let idx = positions_of(self.indices@);
        assert(is_combination(n, idx));
        lemma_combination_at_rank(n, idx);
        if idx.len() > 0 {
            lemma_combination_bounds(self.known(), idx, idx.len() - 1);
        }
    }

    /// The size of the combinations being enumerated.
    pub fn k(&self) -> (k: usize)
        ensures
            k == self.size(),
    {
        self.indices.len()
    }

    /// The number of items drawn from the source so far. It grows as
    /// combinations are given.
    pub fn n(&self) -> (n: usize)
        ensures
            n == self.known(),
    {
        self.pool.len()
    }

    /// Bounds on the number of all items of the source, drawn or not.
    pub fn source_size_hint(&self) -> (bounds: (usize, Option<usize>))
        ensures
            self.endless() ==> bounds.1 is None,
            self.obeys() ==> {
                &&& bounds == self.length_hint()
                &&& bounds.0 <= self.items().len()
                &&& bounds.1 matches Some(upper) ==> self.items().len() <= upper
            },
    {
        self.pool.size_hint()
    }

    /// Starts over with combinations of size `k`, keeping the items drawn
    /// so far. When the size does not shrink, as many items are drawn as a
    /// combination of the new size needs.
    pub fn reset(&mut self, k: usize)
        requires
            old(self).inv(),
        ensures
            final(self).inv(),
            final(self).size() == k,
            final(self).taken() == 0,
            final(self).fresh(),
            final(self).given() == run(0, k as nat),
            final(self).keeps(old(self)),
            final(self).endless() == old(self).endless(),
            old(self).endless() ==> {
                &&& old(self).same_stream(final(self))
                &&& final(self).known() == if old(self).size() <= k && old(self).known() < k {
                    k as nat
                } else {
                    old(self).known()
                }
            },
            old(self).obeys() ==> {
                &&& final(self).obeys()
                &&& final(self).items() == old(self).items()
                &&& final(self).known() == if old(self).size() <= k {
                    drawn_up_to(old(self).known(), k as nat, old(self).items().len())
                } else {
                    old(self).known()
                }
            },
    {
        proof {
            self.pool.lemma_keeps_itself();
        }
        self.first = true;
        let grows = self.indices.len() <= k;
        if !grows {
            self.indices.truncate(k);
        }
        let mut i: usize = 0;
        while i < self.indices.len()
            invariant
                i <= self.indices@.len() <= k,
                self.pool == old(self).pool,
                self.first,
                forall|j: int| 0 <= j < i ==> self.indices@[j] == j,
            decreases self.indices@.len() - i,
        {
            self.indices[i] = i;
            i += 1;
        }
        while i < k
            invariant
                i == self.indices@.len() <= k,
                self.pool == old(self).pool,
                self.first,
                forall|j: int| 0 <= j < i ==> self.indices@[j] == j,
            decreases k - i,
        {
            self.indices.push(i);
            i += 1;
        }
        if grows {
            self.pool.prefill(k);
        }
        assert(positions_of(self.indices@) =~= run(0, k as nat));
    }

    /// Gives the next combination of the current size, or `None` when all
    /// have been given.
    ///
    /// Whatever the source, an engine that has returned `None` is spent,
    /// and a spent engine returns `None` and draws nothing. At size 0 the
    /// empty combination is given once, then `None`, and nothing is drawn.
    /// What is drawn stays, and a combination given is clones of drawn
    /// items at positions that ascend: the run from 0 for the first of a
    /// size, and for any other positions that come after those given last
    /// in lexicographic order.
    ///
    /// Over a source that never ends a combination of a size above 0 is
    /// given at every call: after the first, the last position moves on by
    /// one.
    ///
    /// Over a source that keeps to its model the combinations come in
    /// lexicographic order of their positions: the one given is the one at
    /// rank `taken`, as clones of the items at its positions, and no item
    /// is drawn that it does not reach. After `None` with a size above 0
    /// the whole source has been drawn.
    pub fn next(&mut self) -> (combination: Option<Vec<S::Item>>) where S::Item: Clone
        requires
            old(self).inv(),
        ensures
            final(self).inv(),
            final(self).size() == old(self).size(),
            final(self).keeps(old(self)),
            match combination {
                Some(out) => {
                    &&& out@.len() == old(self).size()
                    &&& final(self).taken() > 0
                    &&& !final(self).fresh()
                    &&& is_combination(final(self).known(), final(self).given())
                    &&& picks(final(self).drawn(), final(self).given(), out@)
                    &&& if old(self).fresh() {
                        final(self).given() == run(0, old(self).size())
                    } else {
                        lex_less(old(self).given(), final(self).given())
                    }
                },
                None => final(self).fresh() == old(self).fresh() && final(self).given() == old(
                    self,
                ).given(),
            },
            final(self).endless() == old(self).endless(),
            old(self).endless() ==> {
                &&& old(self).same_stream(final(self))
                &&& old(self).size() > 0 ==> {
                    &&& combination matches Some(out)
                    &&& final(self).given() == if old(self).fresh() {
                        run(0, old(self).size())
                    } else {
                        old(self).given().update(
                            old(self).size() - 1,
                            old(self).given()[old(self).size() - 1] + 1,
                        )
                    }
                    &&& old(self).picks_of_stream(final(self).given(), out@)
                    &&& final(self).known() == if old(self).known() < reach(final(self).given()) {
                        reach(final(self).given()) as nat
                    } else {
                        old(self).known()
                    }
                }
            },
            combination is None ==> final(self).spent(),
            combination is None && old(self).taken() == 0 ==> final(self).size() > final(self).known(),
            old(self).spent() ==> combination is None && final(self).known() == old(self).known(),
            old(self).size() == 0 ==> {
                &&& combination is Some <==> old(self).taken() == 0
                &&& final(self).known() == old(self).known()
            },
            old(self).obeys() ==> {
                &&& final(self).obeys()
                &&& final(self).settled()
                &&& final(self).items() == old(self).items()
                &&& match combination {
                    Some(out) => {
                        let given = combination_at(
                            old(self).items().len(),
                            old(self).size(),
                            old(self).taken(),
                        );
                        &&& old(self).taken() < binomial(
                            old(self).items().len(),
                            old(self).size(),
                        )
                        &&& final(self).taken() == old(self).taken() + 1
                        &&& picks(old(self).items(), given, out@)
                        &&& final(self).known() == drawn_up_to(
                            old(self).known(),
                            reach(given) as nat,
                            old(self).items().len(),
                        )
                    },
                    None => {
                        &&& old(self).taken() == binomial(
                            old(self).items().len(),
                            old(self).size(),
                        )
                        &&& final(self).taken() == old(self).taken()
                        &&& final(self).known() == if old(self).size() == 0 {
                            old(self).known()
                        } else {
                            old(self).items().len()
                        }
                        &&& old(self).taken() > 0 ==> final(self).known() == old(self).known()
                    },
                }
            },
    {
        if self.advance() {
            proof {
                self.lemma_positions();
            }
            Some(self.current())
        } else {
            None
        }
    }

    /// Moves on to the next combination of the current size, if there is
    /// one, and says whether there was.
    fn advance(&mut self) -> (moved: bool)
        requires
            old(self).inv(),
        ensures
            final(self).inv(),
            final(self).size() == old(self).size(),
            final(self).keeps(old(self)),
            moved ==> !final(self).first,
            moved ==> if old(self).fresh() {
                final(self).given() == run(0, old(self).size())
            } else {
                lex_less(old(self).given(), final(self).given())
            },
            !moved ==> final(self).fresh() == old(self).fresh() && final(self).given() == old(
                self,
            ).given(),
            final(self).endless() == old(self).endless(),
            old(self).endless() ==> {
                &&& old(self).same_stream(final(self))
                &&& old(self).size() > 0 ==> {
                    &&& moved
                    &&& final(self).given() == if old(self).fresh() {
                        run(0, old(self).size())
                    } else {
                        old(self).given().update(
                            old(self).size() - 1,
                            old(self).given()[old(self).size() - 1] + 1,
                        )
                    }
                    &&& final(self).known() == if old(self).known() < reach(final(self).given()) {
                        reach(final(self).given()) as nat
                    } else {
                        old(self).known()
                    }
                }
            },
            !moved ==> final(self).spent(),
            !moved && old(self).taken() == 0 ==> final(self).size() > final(self).known(),
            old(self).spent() ==> !moved && final(self).known() == old(self).known(),
            old(self).size() == 0 ==> {
                &&& moved <==> old(self).taken() == 0
                &&& final(self).known() == old(self).known()
            },
            old(self).obeys() ==> {
                &&& final(self).obeys()
                &&& final(self).settled()
                &&& final(self).items() == old(self).items()
                &&& moved ==> {
                    &&& old(self).taken() < binomial(old(self).items().len(), old(self).size())
                    &&& final(self).taken() == old(self).taken() + 1
                    &&& final(self).known() == drawn_up_to(
                        old(self).known(),
                        reach(positions_of(final(self).indices@)) as nat,
                        old(self).items().len(),
                    )
                }
                &&& !moved ==> {
                    &&& old(self).taken() == binomial(old(self).items().len(), old(self).size())
                    &&& final(self).taken() == old(self).taken()
                    &&& final(self).known() == if old(self).size() == 0 {
                        old(self).known()
                    } else {
                        old(self).items().len()
                    }
                    &&& old(self).taken() > 0 ==> final(self).known() == old(self).known()
                }
            },
    {
        let k = self.indices.len();
        let ghost n = self.items().len();
        let ghost law = self.obeys();
        proof {
            self.pool.lemma_keeps_itself();
        }
        if self.first {
            self.pool.prefill(k);
            if k > self.pool.len() {
                proof {
                    if law {
                        lemma_binomial_zero(n, k as nat);
                    }
                }
                return false;
            }
            self.first = false;
            proof {
                lemma_run_is_combination(self.pool.buffered().len(), 0, k as nat);
                if law {
                    lemma_following_first(n, k as nat);
                }
            }
            return true;
        }
        if k == 0 {
            proof {
                assert(following(n, positions_of(self.indices@)) == 0);
            }
            return false;
        }
        proof {
            self.lemma_positions();
        }
        let ghost before = positions_of(self.indices@);
        let mut i: usize = k - 1;
        // The last position is the last item drawn: see whether the source
        // has one more.
        if self.indices[i] == self.pool.len() - 1 {
            self.pool.get_next();
        }
        let m = self.pool.len();
        proof {
            assert(before[k - 1] == self.indices@[k - 1]);
            assert(is_combination(m as nat, before));
            lemma_combination_bounds(m as nat, before, k - 1);
        }
        let ghost drawn = *self;
        // Look from the right for a position that has room to move.
        while self.indices[i] - i == m - k
            invariant
                *self == drawn,
                self.pool.inv(),
                !self.first,
                !old(self).first,
                old(self).inv(),
                law == old(self).obeys(),
                n == old(self).items().len(),
                self.indices == old(self).indices,
                m == self.pool.buffered().len(),
                m >= old(self).pool.buffered().len(),
                self.pool.keeps(&old(self).pool),
                m == old(self).pool.buffered().len() || before[k - 1] + 1 < m,
                before[k - 1] + 1 == m ==> self.pool.dry(),
                self.endless() == old(self).endless(),
                old(self).endless() ==> old(self).same_stream(self) && i == k - 1,
                old(self).taken() > 0,
                old(self).spent() ==> m == old(self).pool.buffered().len() && before == run(
                    m - k,
                    k as nat,
                ),
                law ==> {
                    &&& self.obeys()
                    &&& self.pool.items() == old(self).pool.items()
                    &&& m <= n
                    &&& m == n || before[k - 1] + 1 < m
                },
                0 <= i < k == self.indices@.len(),
                k <= m,
                before == positions_of(self.indices@),
                is_combination(m as nat, before),
                forall|j: int| i < j < k ==> before[j] == m - k + j,
                i <= before[i as int] <= m - k + i,
            decreases i,
        {
            proof {
                assert(before[i as int] == self.indices@[i as int]);
                assert(before[k - 1] == m - 1);
            }
            if i > 0 {
                i -= 1;
                proof {
                    lemma_combination_bounds(m as nat, before, i as int);
                }
            } else {
                proof {
                    assert(before =~= run(m - k, k as nat));
                    if law {
                        lemma_following_last(n, k as nat);
                    }
                }
                return false;
            }
        }
        proof {
            assert(before[i as int] == self.indices@[i as int]);
            assert(!old(self).spent());
        }
        // Move it one to the right and pack the later ones behind it.
        self.indices[i] = self.indices[i] + 1;
        let mut j: usize = i + 1;
        while j < k
            invariant
                self.pool == drawn.pool,
                self.first == drawn.first,
                i < j <= k == self.indices@.len(),
                before.len() == k,
                before[i as int] < m - k + i,
                forall|t: int| 0 <= t < i ==> self.indices@[t] == before[t],
                forall|t: int| i <= t < j ==> self.indices@[t] == before[i as int] + 1 + (t - i),
            decreases k - j,
        {
            self.indices[j] = self.indices[j - 1] + 1;
            j += 1;
        }
        proof {
            let after = positions_of(self.indices@);
            assert(smaller_at(before, after, i as int)) by {
                assert(before.take(i as int) =~= after.take(i as int));
            }
            if old(self).endless() {
                assert(after =~= before.update(k - 1, before[k - 1] + 1));
            }
            lemma_following_successor(m as nat, before, after, i as int);
            if law {
                assert(forall|t: int| i < t < k ==> before[t] == n - k + t) by {
                    if i < k - 1 {
                        assert(before[k - 1] == m - 1);
                    }
                }
                assert(is_combination(n, before));
                lemma_following_successor(n, before, after, i as int);
                lemma_following_bound(n, after);
            }
        }
        true
    }

    /// Clones of the items at the positions of the combination given last.
    fn current(&self) -> (out: Vec<S::Item>) where S::Item: Clone
        requires
            self.inv(),
            !self.first,
        ensures
            out@.len() == self.size(),
            picks(self.items(), positions_of(self.indices@), out@),
            picks(self.drawn(), self.given(), out@),
            self.picks_of_stream(self.given(), out@),
    {
        let k = self.indices.len();
        let ghost idx = positions_of(self.indices@);
        let mut out: Vec<S::Item> = Vec::new();
        let mut j: usize = 0;
        while j < k
            invariant
                j <= k == self.indices@.len(),
                j == out@.len(),
                idx == positions_of(self.indices@),
                is_combination(self.pool.buffered().len(), idx),
                forall|t: int|
                    0 <= t < j ==> cloned::<S::Item>(self.pool.items()[idx[t]], #[trigger] out@[t]),
                forall|t: int|
                    0 <= t < j ==> cloned::<S::Item>(
                        self.pool.buffered()[idx[t]],
                        #[trigger] out@[t],
                    ),
            decreases k - j,
        {
            assert(0 <= idx[j as int] < self.pool.buffered().len());
            let item = self.pool.get(self.indices[j]).clone();
            out.push(item);
            j += 1;
        }
        out
    }

    /// Bounds on the number of combinations of the current size still to
    /// come, from the bounds that the source gives on its length.
    pub fn size_hint(&self) -> (bounds: (usize, Option<usize>))
        requires
            self.inv(),
        ensures
            self.endless() ==> bounds.1 is None,
            self.obeys() ==> {
                &&& bounds == self.bounds()
                &&& bounds.0 <= self.left()
                &&& bounds.1 matches Some(upper) ==> self.left() <= upper
            },
    {
        let (low, high) = self.pool.size_hint();
        proof {
            self.lemma_left_among(low as nat);
        }
        let low = match remaining_after(low, self.first, &self.indices) {
            Some(c) => c,
            None => usize::MAX,
        };
        let high = match high {
            Some(h) => {
                proof {
                    self.lemma_left_among(h as nat);
                }
                remaining_after(h, self.first, &self.indices)
            },
            None => None,
        };
        (low, high)
    }

    /// What `left_among` is in terms of the positions, and how it compares
    /// with what is left.
    proof fn lemma_left_among(&self, n: nat)
        requires
            self.inv(),
            self.known() <= n,
        ensures
            !self.first ==> is_combination(n, positions_of(self.indices@)),
            self.left_among(n) == if self.first {
                binomial(n, self.size())
            } else {
                following(n, positions_of(self.indices@))
            },
            n <= self.items().len() ==> self.left_among(n) <= self.left(),
            n >= self.items().len() ==> self.left_among(n) >= self.left(),
    {
        let total = self.items().len();
        if self.first {
            if n <= total {
                lemma_binomial_monotonic(n, total, self.size());
            } else {
                lemma_binomial_monotonic(total, n, self.size());
            }
        } else {
            self.lemma_positions();
            let idx = positions_of(self.indices@);
            assert(is_combination(n, idx));
            if n <= total {
                lemma_following_monotonic(n, total, idx);
            } else {
                lemma_following_monotonic(total, n, idx);
            }
        }
    }

    /// Walks the source to its end and gives the number of its items with
    /// the number of combinations of the current size still to come.
    /// `None` when either number does not fit in `usize`.
    pub fn n_and_count(self) -> (counts: Option<(usize, usize)>)
        requires
            self.inv(),
        ensures
            self.endless() ==> counts is None,
            self.obeys() ==> counts == if self.items().len() <= usize::MAX && self.left()
                <= usize::MAX {
                Some((self.items().len() as usize, self.left() as usize))
            } else {
                None
            },
    {
        proof {
            self.lemma_left_among(self.items().len());
        }
        let n = match self.pool.count() {
            Some(n) => n,
            None => {
                return None;
            },
        };
        match remaining_after(n, self.first, &self.indices) {
            Some(count) => Some((n, count)),
            None => None,
        }
    }
}

impl<S: CloneSource> Clone for Combinations<S> where S::Item: Clone {
    /// An engine in the same state over clones of the same items. What one
    /// of the two does later leaves the other as it is.
    fn clone(&self) -> (copy: Self)
        ensures
            self.inv() ==> copy.inv(),
            copy.size() == self.size(),
            copy.known() == self.known(),
            copy.spent() == self.spent(),
            copy.fresh() == self.fresh(),
            copy.given() == self.given(),
            clones(self.drawn(), copy.drawn()),
            copy.endless() == self.endless(),
            self.endless() ==> self.cloned_stream(&copy),
            self.obeys() ==> {
                &&& copy.obeys()
                &&& clones(self.items(), copy.items())
                &&& copy.taken() == self.taken()
                &&& copy.source().hint() == self.source().hint()
            },
    {
        let copy = Combinations {
            indices: self.indices.clone(),
            pool: self.pool.clone(),
            first: self.first,
        };
        proof {
            assert(copy.indices@ =~= self.indices@);
        }
        copy
    }
}

/// An engine over the items of `source` for combinations of size `k`.
/// Nothing is drawn from the source yet.
pub fn combinations<S: Source>(source: S, k: usize) -> (engine: Combinations<S>)
    ensures
        engine.inv(),
        engine.items() == source.pending(),
        engine.size() == k,
        engine.taken() == 0,
        engine.fresh(),
        engine.known() == 0,
        engine.source() == source,
{
    let mut indices: Vec<usize> = Vec::new();
    let mut i: usize = 0;
    while i < k
        invariant
            i == indices@.len() <= k,
            forall|j: int| 0 <= j < i ==> indices@[j] == j,
        decreases k - i,
    {
        indices.push(i);
        i += 1;
    }
    let pool = LazyBuffer::new(source);
    let engine = Combinations { indices, pool, first: true };
    proof {
        assert(positions_of(engine.indices@) =~= run(0, k as nat));
        assert(engine.pool.items() =~= source.pending());
    }
    engine
}

} // verus!
