//! Binomial coefficients, their partial sums, and overflow-checked
//! arithmetic over them.

use vstd::arithmetic::power2::{lemma2_to64, lemma_pow2_unfold, pow2};
use vstd::prelude::*;

verus! {

/// The number of ways to pick `k` items out of `n`, by Pascal's rule.
/// It is 0 when `k > n`.
pub open spec fn binomial(n: nat, k: nat) -> nat
    decreases n,
{
    if k == 0 {
        1
    } else if n == 0 {
        0
    } else {
        binomial((n - 1) as nat, (k - 1) as nat) + binomial((n - 1) as nat, k)
    }
}

/// The number of subsets of `n` items that have fewer than `k` items:
/// the sum of `binomial(n, i)` over `0 <= i < k`.
pub open spec fn binomial_head(n: nat, k: nat) -> nat
    decreases k,
{
    if k == 0 {
        0
    } else {
        binomial_head(n, (k - 1) as nat) + binomial(n, (k - 1) as nat)
    }
}

/// The number of subsets of `n` items that have more than `k` items:
/// the sum of `binomial(n, i)` over `k < i <= n`.
pub open spec fn binomial_tail(n: nat, k: nat) -> nat
    decreases n - k,
{
    if k >= n {
        0
    } else {
        binomial(n, k + 1) + binomial_tail(n, k + 1)
    }
}

/// Nothing can be picked `k` at a time out of fewer than `k` items.
pub proof fn lemma_binomial_zero(n: nat, k: nat)
    requires
        k > n,
    ensures
        binomial(n, k) == 0,
    decreases n,
{
    if n > 0 {
        lemma_binomial_zero((n - 1) as nat, (k - 1) as nat);
        lemma_binomial_zero((n - 1) as nat, k);
    }
}

/// There is one way to pick everything.
pub proof fn lemma_binomial_full(n: nat)
    ensures
        binomial(n, n) == 1,
    decreases n,
{
    if n > 0 {
        lemma_binomial_full((n - 1) as nat);
        lemma_binomial_zero((n - 1) as nat, n);
    }
}

/// Whenever `k <= n` there is at least one way to pick.
pub proof fn lemma_binomial_positive(n: nat, k: nat)
    requires
        k <= n,
    ensures
        binomial(n, k) >= 1,
    decreases n,
{
    if k > 0 && n > 0 {
        lemma_binomial_positive((n - 1) as nat, (k - 1) as nat);
    }
}

/// There are `n` ways to pick a single item.
pub proof fn lemma_binomial_one(n: nat)
    ensures
        binomial(n, 1) == n,
    decreases n,
{
    if n > 0 {
        lemma_binomial_one((n - 1) as nat);
        assert(binomial((n - 1) as nat, 0) == 1);
    }
}

/// More items never give fewer ways to pick `k` of them.
pub proof fn lemma_binomial_monotonic(m: nat, n: nat, k: nat)
    requires
        m <= n,
    ensures
        binomial(m, k) <= binomial(n, k),
    decreases n,
{
    if m < n {
        lemma_binomial_monotonic(m, (n - 1) as nat, k);
    }
}

/// Picking `k` items is leaving `n - k` behind.
pub proof fn lemma_binomial_symmetric(n: nat, k: nat)
    requires
        k <= n,
    ensures
        binomial(n, k) == binomial(n, (n - k) as nat),
    decreases n,
{
    if k == 0 {
        lemma_binomial_full(n);
    } else if k == n {
        lemma_binomial_full(n);
    } else {
        lemma_binomial_symmetric((n - 1) as nat, (k - 1) as nat);
        lemma_binomial_symmetric((n - 1) as nat, k);
    }
}

/// `k * binomial(n, k) == n * binomial(n - 1, k - 1)`.
pub proof fn lemma_binomial_absorb(n: nat, k: nat)
    requires
        n >= 1,
        k >= 1,
    ensures
        k * binomial(n, k) == n * binomial((n - 1) as nat, (k - 1) as nat),
    decreases n,
{
    let a = binomial((n - 1) as nat, (k - 1) as nat);
    let b = binomial((n - 1) as nat, k);
    if n == 1 {
        if k > 1 {
            lemma_binomial_zero(0, (k - 1) as nat);
        }
        assert(k * binomial(n, k) == n * a) by (nonlinear_arith)
            requires
                n == 1,
                binomial(n, k) == a + b,
                b == 0,
                k == 1 || a == 0,
        ;
    } else if k == 1 {
        lemma_binomial_one(n);
        assert(a == 1);
        assert(k * binomial(n, k) == n * a) by (nonlinear_arith)
            requires
                k == 1,
                a == 1,
                binomial(n, k) == n,
        ;
    } else {
        let c = binomial((n - 2) as nat, (k - 2) as nat);
        let d = binomial((n - 2) as nat, (k - 1) as nat);
        lemma_binomial_absorb((n - 1) as nat, (k - 1) as nat);
        lemma_binomial_absorb((n - 1) as nat, k);
        assert(a == c + d);
        assert(k * binomial(n, k) == n * a) by (nonlinear_arith)
            requires
                binomial(n, k) == a + b,
                (k - 1) * a == (n - 1) * c,
                k * b == (n - 1) * d,
                a == c + d,
        ;
    }
}

/// `(n - k) * binomial(n, k) == n * binomial(n - 1, k)`.
pub proof fn lemma_binomial_absorb_rest(n: nat, k: nat)
    requires
        n >= 1,
    ensures
        (n - k) * binomial(n, k) == n * binomial((n - 1) as nat, k),
    decreases n,
{
    let b = binomial((n - 1) as nat, k);
    if k == 0 {
        assert((n - k) * 1 == n * 1);
    } else if n == 1 {
        lemma_binomial_zero(0, k);
        if k > 1 {
            lemma_binomial_zero(0, (k - 1) as nat);
        }
        assert((n - k) * binomial(n, k) == n * b) by (nonlinear_arith)
            requires
                n == 1,
                b == 0,
                k == 1 || binomial(n, k) == 0,
        ;
    } else {
        let a = binomial((n - 1) as nat, (k - 1) as nat);
        let c = binomial((n - 2) as nat, (k - 1) as nat);
        let d = binomial((n - 2) as nat, k);
        lemma_binomial_absorb_rest((n - 1) as nat, (k - 1) as nat);
        lemma_binomial_absorb_rest((n - 1) as nat, k);
        assert(b == c + d);
        assert((n - k) * binomial(n, k) == n * b) by (nonlinear_arith)
            requires
                binomial(n, k) == a + b,
                (n - 1 - (k - 1)) * a == (n - 1) * c,
                (n - 1 - k) * b == (n - 1) * d,
                b == c + d,
        ;
    }
}

/// One step along a row of Pascal's triangle:
/// `k * binomial(n, k) == (n - k + 1) * binomial(n, k - 1)`.
pub proof fn lemma_binomial_step(n: nat, k: nat)
    requires
        1 <= k <= n,
    ensures
        k * binomial(n, k) == (n - k + 1) * binomial(n, (k - 1) as nat),
{
    lemma_binomial_absorb(n, k);
    lemma_binomial_absorb_rest(n, (k - 1) as nat);
}

/// A row of Pascal's triangle rises up to its middle.
pub proof fn lemma_binomial_rising(n: nat, i: nat, j: nat)
    requires
        i <= j,
        2 * j <= n,
    ensures
        binomial(n, i) <= binomial(n, j),
    decreases j - i,
{
    if i < j {
        lemma_binomial_rising(n, i, (j - 1) as nat);
        lemma_binomial_step(n, j);
        let a = binomial(n, (j - 1) as nat);
        let b = binomial(n, j);
        assert(a <= b) by (nonlinear_arith)
            requires
                j * b == (n - j + 1) * a,
                j >= 1,
                n - j + 1 >= j,
        ;
    }
}

/// More subsets have fewer than `b` items than have fewer than `a <= b`.
pub proof fn lemma_binomial_head_monotonic(n: nat, a: nat, b: nat)
    requires
        a <= b,
    ensures
        binomial_head(n, a) <= binomial_head(n, b),
    decreases b,
{
    if a < b {
        lemma_binomial_head_monotonic(n, a, (b - 1) as nat);
    }
}

/// `binomial_tail(n, k) == binomial(n - 1, k) + 2 * binomial_tail(n - 1, k)`.
pub proof fn lemma_binomial_tail_unfold(n: nat, k: nat)
    requires
        n >= 1,
    ensures
        binomial_tail(n, k) == binomial((n - 1) as nat, k) + 2 * binomial_tail((n - 1) as nat, k),
    decreases n - k,
{
    if k >= n {
        lemma_binomial_zero((n - 1) as nat, k);
    } else {
        lemma_binomial_tail_unfold(n, k + 1);
        if k + 1 >= n {
            lemma_binomial_zero((n - 1) as nat, k + 1);
        }
    }
}

/// The subsets larger than `k` include those of size `j` and those larger
/// than `j`, for each `j > k`.
pub proof fn lemma_binomial_tail_includes(n: nat, k: nat, j: nat)
    requires
        k < j <= n,
    ensures
        binomial_tail(n, k) >= binomial(n, j) + binomial_tail(n, j),
    decreases j - k,
{
    if k + 1 < j {
        lemma_binomial_tail_includes(n, k + 1, j);
    }
}

/// More items never give fewer subsets larger than `k`.
pub proof fn lemma_binomial_tail_monotonic(m: nat, n: nat, k: nat)
    requires
        m <= n,
    ensures
        binomial_tail(m, k) <= binomial_tail(n, k),
    decreases n,
{
    if m < n {
        lemma_binomial_tail_monotonic(m, (n - 1) as nat, k);
        lemma_binomial_tail_unfold(n, k);
    }
}

/// Every subset has fewer than `k` items, exactly `k`, or more: together
/// they are the `2^n` subsets of `n` items.
pub proof fn lemma_binomial_total(n: nat, k: nat)
    ensures
        binomial_head(n, k) + binomial(n, k) + binomial_tail(n, k) == pow2(n),
    decreases n + k,
{
    if k > 0 {
        lemma_binomial_total(n, (k - 1) as nat);
        if k > n {
            lemma_binomial_zero(n, k);
        }
    } else if n == 0 {
        lemma2_to64();
    } else {
        lemma_binomial_total((n - 1) as nat, 0);
        lemma_binomial_tail_unfold(n, 0);
        lemma_pow2_unfold(n);
    }
}

/// A count as the machine holds it: `None` when it is too large for `usize`.
pub open spec fn as_count(total: nat) -> Option<usize> {
    if total <= usize::MAX {
        Some(total as usize)
    } else {
        None
    }
}

/// What multiplying by `m` and dividing by `i` gives when `c` is split into
/// its quotient and remainder by `i` first.
proof fn lemma_split_product(c: nat, m: nat, i: nat, b: nat)
    requires
        i >= 1,
        c * m == i * b,
    ensures
        (c / i) * m <= b,
        (c / i) * m + ((c % i) * m) / i == b,
        (c % i) * m <= (i - 1) * m,
{
    let q = c / i;
    let r = c % i;
    assert(c == q * i + r && 0 <= r < i) by (nonlinear_arith)
        requires
            q == c / i,
            r == c % i,
            i >= 1,
    ;
    assert(r * m == i * (b - q * m)) by (nonlinear_arith)
        requires
            c == q * i + r,
            c * m == i * b,
    ;
    assert(b - q * m >= 0 && (r * m) / i == b - q * m) by (nonlinear_arith)
        requires
            r * m == i * (b - q * m),
            r >= 0,
            m >= 0,
            i >= 1,
    ;
    assert(r * m <= (i - 1) * m) by (nonlinear_arith)
        requires
            0 <= r < i,
            m >= 0,
    ;
}

/// Below the middle of a row, the product that the remainder takes part in
/// stays under the coefficient being computed.
proof fn lemma_remainder_product_bound(n: nat, i: nat)
    requires
        i >= 1,
        2 * i <= n,
    ensures
        (i - 1) * (n - i + 1) <= binomial(n, i),
{
    if i >= 2 {
        lemma_binomial_rising(n, 2, i);
        lemma_binomial_step(n, 2);
        lemma_binomial_one(n);
        let c2 = binomial(n, 2);
        assert((i - 1) * (n - i + 1) <= c2) by (nonlinear_arith)
            requires
                2 * c2 == (n - 2 + 1) * n,
                i >= 2,
                2 * i <= n,
        ;
    } else {
        assert((i - 1) * (n - i + 1) == 0) by (nonlinear_arith)
            requires
                i == 1,
        ;
    }
}

/// The binomial coefficient `binomial(n, k)`, or `None` when it does not
/// fit in `usize`.
///
/// The coefficient is built up along its row with checked operations only;
/// no intermediate value exceeds the result, so `None` is returned exactly
/// when the coefficient itself is too large.
pub fn checked_binomial(n: usize, k: usize) -> (r: Option<usize>)
    ensures
        r == as_count(binomial(n as nat, k as nat)),
{
    if n < k {
        proof {
            lemma_binomial_zero(n as nat, k as nat);
        }
        return Some(0);
    }
    // By symmetry the shorter way along the row is enough.
    let short: usize = if n - k < k {
        proof {
            lemma_binomial_symmetric(n as nat, k as nat);
        }
        n - k
    } else {
        k
    };
    let mut m: usize = n;
    let mut c: usize = 1;
    let mut i: usize = 1;
    while i <= short
        invariant
            1 <= i <= short + 1,
            2 * short <= n,
            m == n - (i - 1),
            c == binomial(n as nat, (i - 1) as nat),
            binomial(n as nat, k as nat) == binomial(n as nat, short as nat),
        decreases short + 1 - i,
    {
        let ghost b = binomial(n as nat, i as nat);
        proof {
            lemma_binomial_step(n as nat, i as nat);
            assert((c as nat) * (m as nat) == (i as nat) * b) by (nonlinear_arith)
                requires
                    i * b == (n - i + 1) * binomial(n as nat, (i - 1) as nat),
                    m == n - i + 1,
                    c == binomial(n as nat, (i - 1) as nat),
            ;
            lemma_split_product(c as nat, m as nat, i as nat, b);
            lemma_remainder_product_bound(n as nat, i as nat);
            lemma_binomial_rising(n as nat, i as nat, short as nat);
        }
        let whole = match (c / i).checked_mul(m) {
            Some(v) => v,
            None => {
                return None;
            },
        };
        let part = match (c % i).checked_mul(m) {
            Some(v) => v,
            None => {
                return None;
            },
        };
        c = match whole.checked_add(part / i) {
            Some(v) => v,
            None => {
                return None;
            },
        };
        m -= 1;
        i += 1;
    }
    Some(c)
}

} // verus!
