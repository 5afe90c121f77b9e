//! Finite sums of real numbers.
use vstd::prelude::*;

verus! {

/// `f(0) + ... + f(n - 1)`
pub open spec fn sum(f: spec_fn(int) -> real, n: int) -> real
    decreases n,
{
    if n <= 0 {
        0real
    } else {
        sum(f, n - 1) + f(n - 1)
    }
}

/// `f(i, 0) + ... + f(i, m - 1)`, summed over `i < n`.
pub open spec fn sum2(f: spec_fn(int, int) -> real, n: int, m: int) -> real {
    sum(|i: int| sum(|j: int| f(i, j), m), n)
}

/// Equal terms, equal sums.
pub proof fn lemma_sum_eq(f: spec_fn(int) -> real, g: spec_fn(int) -> real, n: int)
    requires
        forall|i: int| 0 <= i < n ==> #[trigger] f(i) == g(i),
    ensures
        sum(f, n) == sum(g, n),
    decreases n,
{
    if n > 0 {
        lemma_sum_eq(f, g, n - 1);
    }
}

/// Equal terms, equal sums, twice over.
pub proof fn lemma_sum2_eq(
    f: spec_fn(int, int) -> real,
    g: spec_fn(int, int) -> real,
    n: int,
    m: int,
)
    requires
        forall|i: int, j: int| 0 <= i < n && 0 <= j < m ==> #[trigger] f(i, j) == g(i, j),
    ensures
        sum2(f, n, m) == sum2(g, n, m),
{
    let fs = |i: int| sum(|j: int| f(i, j), m);
    let gs = |i: int| sum(|j: int| g(i, j), m);
    assert forall|i: int| 0 <= i < n implies #[trigger] fs(i) == gs(i) by {
        lemma_sum_eq(|j: int| f(i, j), |j: int| g(i, j), m);
    }
    lemma_sum_eq(fs, gs, n);
}

/// A sum of zeros.
pub proof fn lemma_sum_zero(f: spec_fn(int) -> real, n: int)
    requires
        forall|i: int| 0 <= i < n ==> #[trigger] f(i) == 0real,
    ensures
        sum(f, n) == 0real,
    decreases n,
{
    if n > 0 {
        lemma_sum_zero(f, n - 1);
    }
}

/// A sum with one term that is not zero.
pub proof fn lemma_sum_single(f: spec_fn(int) -> real, k: int, n: int)
    requires
        0 <= k < n,
        forall|i: int| 0 <= i < n && i != k ==> #[trigger] f(i) == 0real,
    ensures
        sum(f, n) == f(k),
    decreases n,
{
    if k == n - 1 {
        lemma_sum_zero(f, n - 1);
    } else {
        lemma_sum_single(f, k, n - 1);
    }
}

/// The sum of sums.
pub proof fn lemma_sum_plus(f: spec_fn(int) -> real, g: spec_fn(int) -> real, n: int)
    ensures
        sum(|i: int| f(i) + g(i), n) == sum(f, n) + sum(g, n),
    decreases n,
{
    if n > 0 {
        lemma_sum_plus(f, g, n - 1);
    }
}

/// The sum of multiples.
pub proof fn lemma_sum_scaled(c: real, f: spec_fn(int) -> real, n: int)
    ensures
        sum(|i: int| c * f(i), n) == c * sum(f, n),
    decreases n,
{
    if n > 0 {
        lemma_sum_scaled(c, f, n - 1);
        let (a, b) = (sum(f, n - 1), f(n - 1));
        assert(c * (a + b) == c * a + c * b) by (nonlinear_arith);
    } else {
        assert(c * 0real == 0real) by (nonlinear_arith);
    }
}

/// The order of two sums does not matter.
pub proof fn lemma_sum2_swap(f: spec_fn(int, int) -> real, n: int, m: int)
    ensures
        sum2(f, n, m) == sum2(|j: int, i: int| f(i, j), m, n),
    decreases n,
{
    let g = |j: int, i: int| f(i, j);
    let below = |j: int| sum(|i: int| g(j, i), n - 1);
    let all = |j: int| sum(|i: int| g(j, i), n);
    if n <= 0 {
        lemma_sum_zero(all, m);
    } else {
        lemma_sum2_swap(f, n - 1, m);
        let last = |j: int| f(n - 1, j);
        lemma_sum_plus(below, last, m);
        lemma_sum_eq(all, |j: int| below(j) + last(j), m);
        assert(sum2(g, m, n) == sum(all, m));
        assert(sum2(g, m, n - 1) == sum(below, m));
        let rows = |i: int| sum(|j: int| f(i, j), m);
        assert(sum2(f, n, m) == sum(rows, n));
        assert(rows(n - 1) == sum(last, m));
    }
}

/// A table of numbers has the same sum row by row and column by column.
pub proof fn lemma_exchange(
    f: spec_fn(int, int) -> real,
    rows: spec_fn(int) -> real,
    columns: spec_fn(int) -> real,
    n: int,
    m: int,
)
    requires
        forall|i: int| 0 <= i < n ==> #[trigger] rows(i) == sum(|j: int| f(i, j), m),
        forall|j: int| 0 <= j < m ==> #[trigger] columns(j) == sum(|i: int| f(i, j), n),
    ensures
        sum(rows, n) == sum(columns, m),
{
    let g = |j: int, i: int| f(i, j);
    let fs = |i: int| sum(|j: int| f(i, j), m);
    let gs = |j: int| sum(|i: int| g(j, i), n);
    lemma_sum2_swap(f, n, m);
    lemma_sum_eq(rows, fs, n);
    assert(sum2(f, n, m) == sum(fs, n));
    assert(sum2(g, m, n) == sum(gs, m));
    assert forall|j: int| 0 <= j < m implies #[trigger] columns(j) == gs(j) by {
        lemma_sum_eq(|i: int| f(i, j), |i: int| g(j, i), n);
    }
    lemma_sum_eq(columns, gs, m);
}

/// The two parts of a sum.
pub proof fn lemma_sum_split(f: spec_fn(int) -> real, a: int, b: int)
    requires
        0 <= a,
        0 <= b,
    ensures
        sum(f, a + b) == sum(f, a) + sum(|i: int| f(a + i), b),
    decreases b,
{
    if b > 0 {
        lemma_sum_split(f, a, b - 1);
    }
}

/// A sum over the positions of a row-major buffer is a sum over its rows and columns.
pub proof fn lemma_sum_flat(f: spec_fn(int) -> real, n: int, w: int)
    requires
        0 <= n,
        0 <= w,
    ensures
        sum(f, n * w) == sum2(|i: int, j: int| f(i * w + j), n, w),
    decreases n,
{
    let g = |i: int, j: int| f(i * w + j);
    let rows = |i: int| sum(|j: int| g(i, j), w);
    if n == 0 {
        assert(0 * w == 0) by (nonlinear_arith);
    } else {
        lemma_sum_flat(f, n - 1, w);
        assert(n * w == (n - 1) * w + w && 0 <= (n - 1) * w) by (nonlinear_arith)
            requires
                1 <= n,
                0 <= w,
        ;
        lemma_sum_split(f, (n - 1) * w, w);
        lemma_sum_eq(|j: int| f((n - 1) * w + j), |j: int| g(n - 1, j), w);
        assert(sum2(g, n, w) == sum(rows, n));
        assert(sum2(g, n - 1, w) == sum(rows, n - 1));
    }
}

/// `f(i, 0) + ... + f(i, i)`, summed over `i < n`.
pub open spec fn sum_below(f: spec_fn(int, int) -> real, n: int) -> real {
    sum(|i: int| sum(|j: int| f(i, j), i + 1), n)
}

/// `f(j, j) + ... + f(n - 1, j)`, summed over `j < n`.
pub open spec fn sum_above(f: spec_fn(int, int) -> real, n: int) -> real {
    sum(|j: int| sum(|k: int| f(j + k, j), n - j), n)
}

/// A sum over a triangle, row by row or column by column.
pub proof fn lemma_sum_triangle(f: spec_fn(int, int) -> real, n: int)
    requires
        0 <= n,
    ensures
        sum_below(f, n) == sum_above(f, n),
    decreases n,
{
    if n > 0 {
        lemma_sum_triangle(f, n - 1);
        let column = |j: int| sum(|k: int| f(j + k, j), n - j);
        let shorter = |j: int| sum(|k: int| f(j + k, j), n - 1 - j);
        let last = |j: int| f(n - 1, j);
        assert forall|j: int| 0 <= j < n implies #[trigger] column(j) == shorter(j) + last(j) by {
            let c = |k: int| f(j + k, j);
            assert(sum(c, n - j) == sum(c, n - j - 1) + c(n - j - 1));
            assert(n - 1 - j == n - j - 1);
        }
        lemma_sum_plus(shorter, last, n);
        lemma_sum_eq(column, |j: int| shorter(j) + last(j), n);
        assert(sum(shorter, n) == sum(shorter, n - 1) + shorter(n - 1));
        assert(shorter(n - 1) == 0real);
        let rows = |i: int| sum(|j: int| f(i, j), i + 1);
        assert(sum_below(f, n) == sum(rows, n));
        assert(rows(n - 1) == sum(last, n));
        assert(sum_above(f, n) == sum(column, n));
        assert(sum_above(f, n - 1) == sum(shorter, n - 1));
    }
}

} // verus!
