//! Finite sums.
use vstd::prelude::*;

verus! {

/// `f(0) + .. + f(n - 1)`.
pub open spec fn sum_to(f: spec_fn(int) -> int, n: nat) -> int
    decreases n,
{
    if n == 0 {
        0
    } else {
        sum_to(f, (n - 1) as nat) + f(n - 1)
    }
}

/// One where the condition holds, else zero.
pub open spec fn unit(b: bool) -> int {
    if b {
        1
    } else {
        0
    }
}

/// Sums of functions that agree on the range are equal.
pub proof fn lemma_sum_eq(f: spec_fn(int) -> int, g: spec_fn(int) -> int, n: nat)
    requires
        forall|i: int| 0 <= i < n ==> #[trigger] f(i) == g(i),
    ensures
        sum_to(f, n) == sum_to(g, n),
    decreases n,
{
    if n > 0 {
        lemma_sum_eq(f, g, (n - 1) as nat);
    }
}

/// Changing one summand changes the sum by that much.
pub proof fn lemma_sum_change(f: spec_fn(int) -> int, g: spec_fn(int) -> int, n: nat, k: int)
    requires
        0 <= k < n,
        forall|i: int| 0 <= i < n && i != k ==> #[trigger] f(i) == g(i),
    ensures
        sum_to(g, n) == sum_to(f, n) - f(k) + g(k),
    decreases n,
{
    if n - 1 == k {
        lemma_sum_eq(f, g, (n - 1) as nat);
    } else {
        lemma_sum_change(f, g, (n - 1) as nat, k);
    }
}

/// A sum of numbers that are not negative is not negative, and no summand exceeds it.
pub proof fn lemma_sum_nonneg(f: spec_fn(int) -> int, n: nat)
    requires
        forall|i: int| 0 <= i < n ==> #[trigger] f(i) >= 0,
    ensures
        sum_to(f, n) >= 0,
        forall|i: int| 0 <= i < n ==> #[trigger] f(i) <= sum_to(f, n),
    decreases n,
{
    if n > 0 {
        lemma_sum_nonneg(f, (n - 1) as nat);
    }
}

/// The sum of a difference is the difference of the sums.
pub proof fn lemma_sum_sub(
    f: spec_fn(int) -> int,
    g: spec_fn(int) -> int,
    h: spec_fn(int) -> int,
    n: nat,
)
    requires
        forall|i: int| 0 <= i < n ==> #[trigger] h(i) == f(i) - g(i),
    ensures
        sum_to(h, n) == sum_to(f, n) - sum_to(g, n),
    decreases n,
{
    if n > 0 {
        lemma_sum_sub(f, g, h, (n - 1) as nat);
        assert(h(n - 1) == f(n - 1) - g(n - 1));
    }
}

/// A sum whose summands are at most `c` is at most `c` for each.
pub proof fn lemma_sum_upper(f: spec_fn(int) -> int, n: nat, c: int)
    requires
        forall|i: int| 0 <= i < n ==> #[trigger] f(i) <= c,
    ensures
        sum_to(f, n) <= c * n,
    decreases n,
{
    if n > 0 {
        lemma_sum_upper(f, (n - 1) as nat, c);
        assert(f(n - 1) <= c);
        let m = n - 1;
        assert(c * m + c == c * (m + 1)) by (nonlinear_arith);
    } else {
        assert(c * 0 == 0) by (nonlinear_arith);
    }
}

/// Sums of functions one of which is below the other.
pub proof fn lemma_sum_le(f: spec_fn(int) -> int, g: spec_fn(int) -> int, n: nat)
    requires
        forall|i: int| 0 <= i < n ==> #[trigger] f(i) <= g(i),
    ensures
        sum_to(f, n) <= sum_to(g, n),
    decreases n,
{
    if n > 0 {
        lemma_sum_le(f, g, (n - 1) as nat);
        assert(f(n - 1) <= g(n - 1));
    }
}

/// Sums of functions one of which is below the other, strictly so somewhere.
pub proof fn lemma_sum_lt(f: spec_fn(int) -> int, g: spec_fn(int) -> int, n: nat, k: int)
    requires
        0 <= k < n,
        forall|i: int| 0 <= i < n ==> #[trigger] f(i) <= g(i),
        f(k) < g(k),
    ensures
        sum_to(f, n) < sum_to(g, n),
    decreases n,
{
    assert(f(n - 1) <= g(n - 1));
    if k == n - 1 {
        lemma_sum_le(f, g, (n - 1) as nat);
    } else {
        lemma_sum_lt(f, g, (n - 1) as nat, k);
    }
}

/// Summing `g` from `k` on is summing `g` shifted by `k`.
proof fn lemma_sum_shift_part(f: spec_fn(int) -> int, g: spec_fn(int) -> int, m: nat, k: nat)
    requires
        forall|i: int| 0 <= i < m ==> #[trigger] f(i) == g(i + k),
    ensures
        sum_to(f, m) == sum_to(g, (m + k) as nat) - sum_to(g, k),
    decreases m,
{
    if m > 0 {
        lemma_sum_shift_part(f, g, (m - 1) as nat, k);
        assert(f(m - 1) == g(m - 1 + k));
    }
}

/// Sums of zeros, from `k` on.
pub proof fn lemma_sum_tail(f: spec_fn(int) -> int, k: nat, n: nat)
    requires
        k <= n,
        forall|i: int| k <= i < n ==> #[trigger] f(i) == 0,
    ensures
        sum_to(f, n) == sum_to(f, k),
    decreases n,
{
    if n > k {
        lemma_sum_tail(f, k, (n - 1) as nat);
        assert(f(n - 1) == 0);
    }
}

/// Where `f` is `g` shifted by `k`, and both are zero where the other is past its end, the
/// sums are equal.
pub proof fn lemma_sum_shift(f: spec_fn(int) -> int, g: spec_fn(int) -> int, n: nat, k: nat)
    requires
        k <= n,
        forall|i: int| 0 <= i < n - k ==> #[trigger] f(i) == g(i + k),
        forall|i: int| n - k <= i < n ==> #[trigger] f(i) == 0,
        forall|i: int| 0 <= i < k ==> #[trigger] g(i) == 0,
    ensures
        sum_to(f, n) == sum_to(g, n),
{
    lemma_sum_tail(f, (n - k) as nat, n);
    lemma_sum_shift_part(f, g, (n - k) as nat, k);
    lemma_sum_tail(g, 0, k);
}

/// What a change at `x` adds to a sum over `0..n`.
pub open spec fn change_at(
    f: spec_fn(int) -> int,
    g: spec_fn(int) -> int,
    n: nat,
    x: int,
) -> int {
    if 0 <= x < n {
        g(x) - f(x)
    } else {
        0
    }
}

/// Changing up to three summands changes the sum by their changes.
pub proof fn lemma_sum_three(
    f: spec_fn(int) -> int,
    g: spec_fn(int) -> int,
    n: nat,
    a: int,
    b: int,
    c: int,
)
    requires
        forall|i: int| 0 <= i < n && i != a && i != b && i != c ==> #[trigger] f(i) == g(i),
        0 <= a < n,
        a != b,
        a != c,
        b != c || b < 0,
        b < n,
        c < n,
    ensures
        sum_to(g, n) == sum_to(f, n) + change_at(f, g, n, a) + change_at(f, g, n, b) + change_at(
            f,
            g,
            n,
            c,
        ),
{
    let f1 = |i: int|
        if i == a {
            g(i)
        } else {
            f(i)
        };
    let f2 = |i: int|
        if i == b {
            g(i)
        } else {
            f1(i)
        };
    lemma_sum_change(f, f1, n, a);
    if b >= 0 {
        lemma_sum_change(f1, f2, n, b);
    } else {
        lemma_sum_eq(f1, f2, n);
    }
    if c >= 0 {
        lemma_sum_change(f2, g, n, c);
    } else {
        lemma_sum_eq(f2, g, n);
    }
}

} // verus!
