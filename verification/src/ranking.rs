//! Combinations as increasing vectors of positions, and their place in
//! lexicographic order.

use crate::binomial::{
    binomial, binomial_head, binomial_tail, lemma_binomial_full, lemma_binomial_head_monotonic,
    lemma_binomial_monotonic, lemma_binomial_total, lemma_binomial_zero,
};
use vstd::arithmetic::power2::pow2;
use vstd::prelude::*;

verus! {

/// Whether `idx` selects positions below `n`: each entry is a position, and
/// the entries strictly increase.
pub open spec fn is_combination(n: nat, idx: Seq<int>) -> bool {
    &&& forall|i: int| 0 <= i < idx.len() ==> 0 <= #[trigger] idx[i] < n
    &&& forall|i: int, j: int| 0 <= i < j < idx.len() ==> idx[i] < idx[j]
}

/// The positions `start, start + 1, ..`, `len` of them.
pub open spec fn run(start: int, len: nat) -> Seq<int> {
    Seq::new(len, |i: int| start + i)
}

/// One more than the last position of `idx`, or 0 when it has none: the
/// number of leading positions that `idx` reaches into.
pub open spec fn reach(idx: Seq<int>) -> int {
    if idx.len() == 0 {
        0
    } else {
        idx.last() + 1
    }
}

/// The number of combinations of `n` positions that agree with `idx` before
/// entry `i` and come after it in lexicographic order: for each entry `j`
/// from `i` on, those that move entry `j` further right.
pub open spec fn following_from(n: nat, idx: Seq<int>, i: int) -> nat
    decreases idx.len() - i,
{
    if i >= idx.len() {
        0
    } else {
        binomial((n - 1 - idx[i]) as nat, (idx.len() - i) as nat) + following_from(
            n,
            idx,
            i + 1,
        )
    }
}

/// The number of combinations of `n` positions, of the size of `idx`, that
/// come after `idx` in lexicographic order.
pub open spec fn following(n: nat, idx: Seq<int>) -> nat {
    following_from(n, idx, 0)
}

/// The `r`-th (from 0) of the `k`-item combinations of the positions
/// `lo..n`, in lexicographic order: those that hold `lo` come first.
pub open spec fn combination_from(lo: int, n: int, k: nat, r: nat) -> Seq<int>
    decreases n - lo,
{
    if k == 0 || lo >= n {
        Seq::empty()
    } else {
        let with_lo = binomial((n - lo - 1) as nat, (k - 1) as nat);
        if r < with_lo {
            seq![lo] + combination_from(lo + 1, n, (k - 1) as nat, r)
        } else {
            combination_from(lo + 1, n, k, (r - with_lo) as nat)
        }
    }
}

/// The `r`-th (from 0) of the `k`-item combinations of `n` positions, in
/// lexicographic order. There are `binomial(n, k)` of them.
pub open spec fn combination_at(n: nat, k: nat, r: nat) -> Seq<int> {
    combination_from(0, n as int, k, r)
}

/// Whether `a` and `b` agree before entry `p` and `a` is smaller there.
pub open spec fn smaller_at(a: Seq<int>, b: Seq<int>, p: int) -> bool {
    &&& 0 <= p < a.len()
    &&& p < b.len()
    &&& a.take(p) == b.take(p)
    &&& a[p] < b[p]
}

/// Lexicographic order on vectors of positions of one length: at the first
/// entry where they differ, `a` is smaller.
pub open spec fn lex_less(a: Seq<int>, b: Seq<int>) -> bool {
    exists|p: int| smaller_at(a, b, p)
}

/// The `p`-th (from 0) subset of `n` positions among those of size `k` and
/// more: sizes ascend, and within a size the order is lexicographic.
pub open spec fn subset_from(n: nat, k: nat, p: nat) -> Seq<int>
    decreases n - k,
{
    if p < binomial(n, k) || k >= n {
        combination_at(n, k, p)
    } else {
        subset_from(n, k + 1, (p - binomial(n, k)) as nat)
    }
}

/// The `p`-th (from 0) subset of `n` positions: the empty subset first, then
/// the subsets of one item, of two, and so on up to the full set; within a
/// size the order is lexicographic. There are `2^n` of them.
pub open spec fn subset_at(n: nat, p: nat) -> Seq<int> {
    subset_from(n, 0, p)
}

/// The size of the `p`-th subset of `n` positions among those of size `k`
/// and more.
pub open spec fn subset_size_from(n: nat, k: nat, p: nat) -> nat
    decreases n - k,
{
    if p < binomial(n, k) || k >= n {
        k
    } else {
        subset_size_from(n, k + 1, (p - binomial(n, k)) as nat)
    }
}

/// The size of the `p`-th subset of `n` positions: the `k` for which `p`
/// is at least the number of smaller subsets and less than the number of
/// subsets that are no larger.
pub open spec fn subset_size(n: nat, p: nat) -> nat {
    subset_size_from(n, 0, p)
}

/// The `p`-th (from 0) subset of the positions of a stream that never
/// ends, in the order in which sizes ascend and each size is
/// lexicographic: the empty subset first, then one position after another,
/// each alone. The subsets of one position never come to an end, so no
/// larger subset has a rank.
pub open spec fn subset_of_endless_at(p: nat) -> Seq<int> {
    if p == 0 {
        Seq::empty()
    } else {
        seq![p - 1]
    }
}

/// The entries of a combination leave room for those before and after
/// them: entry `i` lies between `i` and `n - len + i`.
pub proof fn lemma_combination_bounds(n: nat, idx: Seq<int>, i: int)
    requires
        is_combination(n, idx),
        0 <= i < idx.len(),
    ensures
        i <= idx[i] <= n - idx.len() + i,
{
    lemma_entries_spread(n, idx, 0, i);
    lemma_entries_spread(n, idx, i, idx.len() - 1);
}

/// Between two entries of a combination lie at least as many positions as
/// entries.
proof fn lemma_entries_spread(n: nat, idx: Seq<int>, i: int, j: int)
    requires
        is_combination(n, idx),
        0 <= i <= j < idx.len(),
    ensures
        idx[j] - idx[i] >= j - i,
    decreases j - i,
{
    if i < j {
        lemma_entries_spread(n, idx, i, j - 1);
    }
}

/// A run of consecutive positions that ends below `n` is a combination.
pub proof fn lemma_run_is_combination(n: nat, start: int, len: nat)
    requires
        0 <= start,
        start + len <= n,
    ensures
        is_combination(n, run(start, len)),
{
}

/// Nothing follows a vector whose entries from `i` on are as far right as
/// they can be.
proof fn lemma_following_from_last(n: nat, idx: Seq<int>, i: int)
    requires
        0 <= i,
        forall|j: int| i <= j < idx.len() ==> idx[j] == n - idx.len() + j,
    ensures
        following_from(n, idx, i) == 0,
    decreases idx.len() - i,
{
    if i < idx.len() {
        lemma_following_from_last(n, idx, i + 1);
        lemma_binomial_zero((idx.len() - i - 1) as nat, (idx.len() - i) as nat);
    }
}

/// After a vector whose entries from `i` on are consecutive come all the
/// other ways to place those entries at or right of entry `i`.
proof fn lemma_following_from_run(n: nat, idx: Seq<int>, i: int)
    requires
        0 <= i < idx.len(),
        0 <= idx[i],
        idx[i] + (idx.len() - i) <= n,
        forall|j: int| i <= j < idx.len() ==> idx[j] == idx[i] + (j - i),
    ensures
        following_from(n, idx, i) + 1 == binomial(
            (n - idx[i]) as nat,
            (idx.len() - i) as nat,
        ),
    decreases idx.len() - i,
{
    let room = (n - 1 - idx[i]) as nat;
    if i + 1 < idx.len() {
        lemma_following_from_run(n, idx, i + 1);
        assert(idx[i + 1] == idx[i] + 1);
    } else {
        assert(following_from(n, idx, i + 1) == 0);
        assert(binomial(room, 0) == 1);
    }
    assert(binomial(room + 1, (idx.len() - i) as nat) == binomial(
        room,
        (idx.len() - i - 1) as nat,
    ) + binomial(room, (idx.len() - i) as nat));
}

/// Two vectors that agree before entry `p` differ in what follows them by
/// what they differ in from entry `p` on.
proof fn lemma_following_from_prefix(n: nat, a: Seq<int>, b: Seq<int>, i: int, p: int)
    requires
        a.len() == b.len(),
        0 <= i <= p <= a.len(),
        forall|j: int| i <= j < p ==> a[j] == b[j],
    ensures
        following_from(n, a, i) - following_from(n, a, p) == following_from(n, b, i)
            - following_from(n, b, p),
    decreases p - i,
{
    if i < p {
        lemma_following_from_prefix(n, a, b, i + 1, p);
    }
}

/// Strictly fewer combinations follow a combination from entry `i` on than
/// there are ways to place those entries at or right of entry `i`.
proof fn lemma_following_from_bound(n: nat, idx: Seq<int>, i: int)
    requires
        is_combination(n, idx),
        0 <= i < idx.len(),
    ensures
        following_from(n, idx, i) + 1 <= binomial(
            (n - idx[i]) as nat,
            (idx.len() - i) as nat,
        ),
    decreases idx.len() - i,
{
    let room = (n - 1 - idx[i]) as nat;
    let rest = (idx.len() - i - 1) as nat;
    if i + 1 < idx.len() {
        lemma_following_from_bound(n, idx, i + 1);
        lemma_binomial_monotonic((n - idx[i + 1]) as nat, room, rest);
    } else {
        assert(following_from(n, idx, i + 1) == 0);
        assert(binomial(room, 0) == 1);
    }
    assert(binomial(room + 1, rest + 1) == binomial(room, rest) + binomial(room, rest + 1));
}

/// With more positions to choose from, no fewer combinations follow from
/// entry `i` on.
proof fn lemma_following_from_monotonic(m: nat, n: nat, idx: Seq<int>, i: int)
    requires
        m <= n,
        0 <= i,
        is_combination(m, idx),
    ensures
        following_from(m, idx, i) <= following_from(n, idx, i),
    decreases idx.len() - i,
{
    if i < idx.len() {
        lemma_following_from_monotonic(m, n, idx, i + 1);
        lemma_binomial_monotonic(
            (m - 1 - idx[i]) as nat,
            (n - 1 - idx[i]) as nat,
            (idx.len() - i) as nat,
        );
    }
}

/// Fewer combinations follow a combination than there are combinations.
pub proof fn lemma_following_bound(n: nat, idx: Seq<int>)
    requires
        is_combination(n, idx),
    ensures
        following(n, idx) < binomial(n, idx.len()),
{
    if idx.len() > 0 {
        lemma_following_from_bound(n, idx, 0);
        lemma_binomial_monotonic((n - idx[0]) as nat, n, idx.len());
    }
}

/// All but one of the combinations follow the first, the run from 0.
pub proof fn lemma_following_first(n: nat, k: nat)
    requires
        k <= n,
    ensures
        following(n, run(0, k)) + 1 == binomial(n, k),
{
    if k > 0 {
        lemma_following_from_run(n, run(0, k), 0);
    }
}

/// Nothing follows the last combination, the run that ends at `n`.
pub proof fn lemma_following_last(n: nat, k: nat)
    requires
        k <= n,
    ensures
        following(n, run(n - k, k)) == 0,
{
    lemma_following_from_last(n, run(n - k, k), 0);
}

/// With more positions to choose from, no fewer combinations follow.
pub proof fn lemma_following_monotonic(m: nat, n: nat, idx: Seq<int>)
    requires
        m <= n,
        is_combination(m, idx),
    ensures
        following(m, idx) <= following(n, idx),
{
    lemma_following_from_monotonic(m, n, idx, 0);
}

/// Moving to the next combination leaves one fewer to follow.
///
/// The next combination after `old` moves the rightmost entry that has room,
/// entry `p`, one position right and packs the later entries behind it.
pub proof fn lemma_following_successor(n: nat, old: Seq<int>, new: Seq<int>, p: int)
    requires
        is_combination(n, old),
        new.len() == old.len(),
        0 <= p < old.len(),
        old[p] < n - old.len() + p,
        forall|j: int| p < j < old.len() ==> old[j] == n - old.len() + j,
        forall|j: int| 0 <= j < p ==> new[j] == old[j],
        forall|j: int| p <= j < old.len() ==> new[j] == old[p] + 1 + (j - p),
    ensures
        is_combination(n, new),
        following(n, new) + 1 == following(n, old),
{
    let k = old.len();
    assert(is_combination(n, new)) by {
        assert forall|i: int, j: int| 0 <= i < j < new.len() implies new[i] < new[j] by {
            if i < p {
                if j >= p {
                    assert(old[i] < old[p]);
                }
            }
        }
        assert forall|i: int| 0 <= i < new.len() implies 0 <= #[trigger] new[i] < n by {
            if i < p {
                assert(new[i] == old[i]);
            } else {
                assert(0 <= old[p]);
            }
        }
    }
    lemma_following_from_last(n, old, p + 1);
    lemma_following_from_run(n, new, p);
    lemma_following_from_prefix(n, old, new, 0, p);
}

/// What follows a vector from entry `i + 1` on is what follows the vector
/// without its first entry from entry `i` on.
proof fn lemma_following_from_shift(n: nat, first: int, rest: Seq<int>, i: int)
    requires
        0 <= i,
    ensures
        following_from(n, seq![first] + rest, i + 1) == following_from(n, rest, i),
    decreases rest.len() - i,
{
    let whole = seq![first] + rest;
    if i < rest.len() {
        lemma_following_from_shift(n, first, rest, i + 1);
        assert(whole[i + 1] == rest[i]);
    }
}

/// The entries of `idx` from `i` on are the combination of `lo..n` that as
/// many combinations follow as follow `idx` from entry `i` on.
proof fn lemma_combination_from_rank(lo: int, n: nat, idx: Seq<int>, i: int)
    requires
        is_combination(n, idx),
        0 <= i <= idx.len(),
        0 <= lo <= n,
        i < idx.len() ==> lo <= idx[i],
    ensures
        following_from(n, idx, i) < binomial((n - lo) as nat, (idx.len() - i) as nat),
        combination_from(
            lo,
            n as int,
            (idx.len() - i) as nat,
            (binomial((n - lo) as nat, (idx.len() - i) as nat) - 1 - following_from(
                n,
                idx,
                i,
            )) as nat,
        ) == idx.subrange(i, idx.len() as int),
    decreases n - lo,
{
    let k = (idx.len() - i) as nat;
    let all = binomial((n - lo) as nat, k);
    let r = (all - 1 - following_from(n, idx, i)) as nat;
    let tail = idx.subrange(i, idx.len() as int);
    if i == idx.len() {
        assert(tail =~= Seq::<int>::empty());
    } else {
        let room = (n - lo - 1) as nat;
        let with_lo = binomial(room, (k - 1) as nat);
        assert(all == with_lo + binomial(room, k));
        if idx[i] == lo {
            lemma_combination_from_rank(lo + 1, n, idx, i + 1);
            assert(r < with_lo);
            assert(tail =~= seq![lo] + idx.subrange(i + 1, idx.len() as int));
        } else {
            lemma_combination_from_rank(lo + 1, n, idx, i);
            assert(r >= with_lo);
        }
    }
}

/// Every rank below the count names a combination of `lo..n`, and as many
/// combinations follow it as there are higher ranks.
proof fn lemma_combination_from_valid(lo: int, n: nat, k: nat, r: nat)
    requires
        0 <= lo <= n,
        r < binomial((n - lo) as nat, k),
    ensures
        combination_from(lo, n as int, k, r).len() == k,
        is_combination(n, combination_from(lo, n as int, k, r)),
        forall|j: int| 0 <= j < k ==> lo <= #[trigger] combination_from(lo, n as int, k, r)[j],
        following(n, combination_from(lo, n as int, k, r)) + 1 + r == binomial(
            (n - lo) as nat,
            k,
        ),
    decreases n - lo,
{
    let c = combination_from(lo, n as int, k, r);
    if k == 0 {
    } else if lo >= n {
        lemma_binomial_zero(0, k);
    } else {
        let room = (n - lo - 1) as nat;
        let with_lo = binomial(room, (k - 1) as nat);
        assert(binomial((n - lo) as nat, k) == with_lo + binomial(room, k));
        if r < with_lo {
            let rest = combination_from(lo + 1, n as int, (k - 1) as nat, r);
            lemma_combination_from_valid(lo + 1, n, (k - 1) as nat, r);
            lemma_following_from_shift(n, lo, rest, 0);
            assert(c == seq![lo] + rest);
            assert forall|i: int, j: int| 0 <= i < j < c.len() implies c[i] < c[j] by {
                assert(c[j] == rest[j - 1]);
                if i > 0 {
                    assert(c[i] == rest[i - 1]);
                }
            }
            assert forall|j: int| 0 <= j < c.len() implies lo <= #[trigger] c[j] < n by {
                if j > 0 {
                    assert(c[j] == rest[j - 1]);
                }
            }
        } else {
            lemma_combination_from_valid(lo + 1, n, k, (r - with_lo) as nat);
        }
    }
}

/// Higher ranks name combinations of `lo..n` that are later in
/// lexicographic order.
proof fn lemma_combination_from_ordered(lo: int, n: nat, k: nat, r1: nat, r2: nat)
    requires
        0 <= lo <= n,
        r1 < r2 < binomial((n - lo) as nat, k),
    ensures
        lex_less(combination_from(lo, n as int, k, r1), combination_from(lo, n as int, k, r2)),
    decreases n - lo,
{
    let a = combination_from(lo, n as int, k, r1);
    let b = combination_from(lo, n as int, k, r2);
    if k == 0 {
    } else if lo >= n {
        lemma_binomial_zero(0, k);
    } else {
        let room = (n - lo - 1) as nat;
        let with_lo = binomial(room, (k - 1) as nat);
        assert(binomial((n - lo) as nat, k) == with_lo + binomial(room, k));
        if r2 < with_lo {
            let a_rest = combination_from(lo + 1, n as int, (k - 1) as nat, r1);
            let b_rest = combination_from(lo + 1, n as int, (k - 1) as nat, r2);
            lemma_combination_from_ordered(lo + 1, n, (k - 1) as nat, r1, r2);
            let p = choose|p: int| smaller_at(a_rest, b_rest, p);
            assert(a.take(p + 1) =~= seq![lo] + a_rest.take(p));
            assert(b.take(p + 1) =~= seq![lo] + b_rest.take(p));
            assert(a[p + 1] == a_rest[p]);
            assert(b[p + 1] == b_rest[p]);
            assert(smaller_at(a, b, p + 1));
        } else if r1 < with_lo {
            lemma_combination_from_valid(lo + 1, n, k, (r2 - with_lo) as nat);
            assert(lo + 1 <= b[0]);
            assert(a[0] == lo);
            assert(a.take(0) =~= b.take(0));
            assert(smaller_at(a, b, 0));
        } else {
            lemma_combination_from_ordered(
                lo + 1,
                n,
                k,
                (r1 - with_lo) as nat,
                (r2 - with_lo) as nat,
            );
        }
    }
}

/// A combination stands at the rank that counts the combinations before it.
pub proof fn lemma_combination_at_rank(n: nat, idx: Seq<int>)
    requires
        is_combination(n, idx),
    ensures
        following(n, idx) < binomial(n, idx.len()),
        combination_at(n, idx.len(), (binomial(n, idx.len()) - 1 - following(n, idx)) as nat)
            == idx,
{
    lemma_combination_from_rank(0, n, idx, 0);
    assert(idx.subrange(0, idx.len() as int) =~= idx);
}

/// Every rank below `binomial(n, k)` names a combination of `k` positions
/// below `n`, and as many combinations follow it as there are higher ranks.
pub proof fn lemma_combination_at_valid(n: nat, k: nat, r: nat)
    requires
        r < binomial(n, k),
    ensures
        combination_at(n, k, r).len() == k,
        is_combination(n, combination_at(n, k, r)),
        following(n, combination_at(n, k, r)) + 1 + r == binomial(n, k),
{
    lemma_combination_from_valid(0, n, k, r);
}

/// The combination at rank 0 is the run from 0.
pub proof fn lemma_combination_at_first(n: nat, k: nat)
    requires
        k <= n,
    ensures
        combination_at(n, k, 0) == run(0, k),
{
    lemma_run_is_combination(n, 0, k);
    lemma_following_first(n, k);
    lemma_combination_at_rank(n, run(0, k));
}

/// Among the combinations of one size, a higher rank names a combination
/// that is later in lexicographic order.
pub proof fn lemma_combination_at_ordered(n: nat, k: nat, r1: nat, r2: nat)
    requires
        r1 < r2 < binomial(n, k),
    ensures
        lex_less(combination_at(n, k, r1), combination_at(n, k, r2)),
{
    lemma_combination_from_ordered(0, n, k, r1, r2);
}

/// Among the subsets of size `from` and more, those of size `k` stand
/// behind all those of the sizes between.
proof fn lemma_subset_from_size(n: nat, from: nat, k: nat, r: nat)
    requires
        from <= k <= n,
        r < binomial(n, k),
    ensures
        binomial_head(n, from) <= binomial_head(n, k),
        subset_from(n, from, (binomial_head(n, k) - binomial_head(n, from) + r) as nat)
            == combination_at(n, k, r),
    decreases k - from,
{
    lemma_binomial_head_monotonic(n, from, k);
    if from < k {
        lemma_binomial_head_monotonic(n, from + 1, k);
        lemma_subset_from_size(n, from + 1, k, r);
    }
}

/// The size of a subset among those of size `from` and more, and its rank
/// among the subsets of its own size.
proof fn lemma_subset_from_rank(n: nat, from: nat, p: nat)
    requires
        from <= n,
        p < binomial(n, from) + binomial_tail(n, from),
    ensures
        ({
            let k = subset_size_from(n, from, p);
            let before = binomial_head(n, k) - binomial_head(n, from);
            &&& from <= k <= n
            &&& before <= p < before + binomial(n, k)
            &&& subset_from(n, from, p) == combination_at(n, k, (p - before) as nat)
        }),
    decreases n - from,
{
    if p >= binomial(n, from) {
        if from < n {
            lemma_subset_from_rank(n, from + 1, (p - binomial(n, from)) as nat);
        }
    }
}

/// The subsets of size `k` stand behind all the smaller ones, in the order
/// of the combinations: the `r`-th of them is the subset at rank
/// `binomial_head(n, k) + r`.
pub proof fn lemma_subset_at_size(n: nat, k: nat, r: nat)
    requires
        k <= n,
        r < binomial(n, k),
    ensures
        subset_at(n, binomial_head(n, k) + r) == combination_at(n, k, r),
{
    lemma_subset_from_size(n, 0, k, r);
}

/// Every rank below `2^n` names a subset of `n` positions. Its size is the
/// `k` for which the rank lies behind the `binomial_head(n, k)` smaller
/// subsets and within the `binomial(n, k)` subsets of size `k`, and among
/// those it is the combination at the rank that is left.
pub proof fn lemma_subset_at_rank(n: nat, p: nat)
    requires
        p < pow2(n),
    ensures
        ({
            let k = subset_size(n, p);
            &&& k <= n
            &&& binomial_head(n, k) <= p < binomial_head(n, k) + binomial(n, k)
            &&& subset_at(n, p) == combination_at(n, k, (p - binomial_head(n, k)) as nat)
            &&& subset_at(n, p).len() == k
            &&& is_combination(n, subset_at(n, p))
        }),
{
    lemma_binomial_total(n, 0);
    lemma_subset_from_rank(n, 0, p);
    let k = subset_size(n, p);
    lemma_combination_at_valid(n, k, (p - binomial_head(n, k)) as nat);
}

/// Subsets come by ascending size: a higher rank never names a smaller
/// subset.
pub proof fn lemma_subset_sizes_ascend(n: nat, p: nat, q: nat)
    requires
        p <= q < pow2(n),
    ensures
        subset_size(n, p) <= subset_size(n, q),
{
    lemma_subset_at_rank(n, p);
    lemma_subset_at_rank(n, q);
    if subset_size(n, q) < subset_size(n, p) {
        lemma_binomial_head_monotonic(n, subset_size(n, q) + 1, subset_size(n, p));
    }
}

/// Among the subsets of one size, a higher rank names a subset that is
/// later in lexicographic order.
pub proof fn lemma_subset_at_ordered(n: nat, p: nat, q: nat)
    requires
        p < q < pow2(n),
        subset_size(n, p) == subset_size(n, q),
    ensures
        lex_less(subset_at(n, p), subset_at(n, q)),
{
    lemma_subset_at_rank(n, p);
    lemma_subset_at_rank(n, q);
    let k = subset_size(n, p);
    lemma_combination_at_ordered(
        n,
        k,
        (p - binomial_head(n, k)) as nat,
        (q - binomial_head(n, k)) as nat,
    );
}

/// No subset is named by two ranks.
pub proof fn lemma_subset_at_distinct(n: nat, p: nat, q: nat)
    requires
        p < q < pow2(n),
    ensures
        subset_at(n, p) != subset_at(n, q),
{
    lemma_subset_at_rank(n, p);
    lemma_subset_at_rank(n, q);
    if subset_size(n, p) == subset_size(n, q) {
        lemma_subset_at_ordered(n, p, q);
        let d = choose|d: int| smaller_at(subset_at(n, p), subset_at(n, q), d);
        assert(subset_at(n, p)[d] != subset_at(n, q)[d]);
    }
}

/// Every subset is named by a rank below `2^n`: behind the smaller
/// subsets, at the place among those of its size that leaves as many
/// behind it as follow it.
pub proof fn lemma_every_subset_has_a_rank(n: nat, idx: Seq<int>)
    requires
        is_combination(n, idx),
    ensures
        ({
            let k = idx.len();
            let p = (binomial_head(n, k) + binomial(n, k) - 1 - following(n, idx)) as nat;
            &&& following(n, idx) < binomial(n, k)
            &&& p < pow2(n)
            &&& subset_at(n, p) == idx
        }),
{
    let k = idx.len();
    lemma_combination_at_rank(n, idx);
    if k > n {
        lemma_binomial_zero(n, k);
    }
    lemma_subset_at_size(n, k, (binomial(n, k) - 1 - following(n, idx)) as nat);
    lemma_binomial_total(n, k);
}

/// The first subset is the empty one.
pub proof fn lemma_first_subset_is_empty(n: nat)
    ensures
        subset_at(n, 0) == Seq::<int>::empty(),
{
}

/// The last subset, the one at rank `2^n - 1`, is the full set: every
/// position, in order.
pub proof fn lemma_last_subset_is_full(n: nat)
    ensures
        pow2(n) >= 1,
        subset_at(n, (pow2(n) - 1) as nat) == run(0, n),
{
    lemma_binomial_total(n, n);
    lemma_binomial_full(n);
    lemma_subset_at_size(n, n, 0);
    lemma_run_is_combination(n, 0, n);
    lemma_following_first(n, n);
    lemma_combination_at_rank(n, run(0, n));
}

} // verus!
