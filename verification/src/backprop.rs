//! Why the backward pass is right: in dual numbers, what it adds to the gradient of a parameter
//! is the derivative of the loss with respect to that parameter.
//!
//! Each stage of the network has the same law. Weight the rates of its outputs by the gradients
//! of the outputs and add up; the sum is the same when the rates of its inputs are weighted by
//! the gradients that the backward pass computes for the inputs.
use vstd::prelude::*;

use crate::arith::lemma_cell;
use crate::derivative::{
    lemma_cancel, lemma_distributes, lemma_rmsnorm_dual, lemma_softmax_rate, mean_rate,
};
use crate::gradient::{hidden_grad, input_grad, logit_grad, norm_grad, weight_grad};
use crate::kernels::{rmsnorm_grad, rmsnorm_of, softmax_of, vec_plus};
use crate::loss::{log_loss, loss_of, probs_of};
use crate::matrix::{atb_acc, col, dot_of, lemma_row_entry, linear, Mat};
use crate::model::Tensor;
use crate::reading::{lemma_chain_value, lemma_dot_rate, Reading};
use crate::scalar::{logarithm, minus, num, one, over, times, zero, Float};
use crate::stages::relu_of;
use crate::sums::{
    lemma_exchange, lemma_sum2_eq, lemma_sum_eq, lemma_sum_flat, lemma_sum_plus, lemma_sum_scaled,
    lemma_sum_single, lemma_sum_split, lemma_sum_zero, sum, sum2,
};

verus! {

/// The rates of the first `w` entries of `b`, weighted by the values of `a`.
pub open spec fn row_paired<F: Float>(r: Reading<F>, a: Seq<F>, b: Seq<F>, w: int) -> real {
    sum(|j: int| r.v(a[j]) * r.d(b[j]), w)
}

/// The rates of the first `n` rows of `b`, weighted by the values of `a`.
pub open spec fn paired<F: Float>(r: Reading<F>, a: Mat<F>, b: Mat<F>, n: int, w: int) -> real {
    sum(|i: int| row_paired(r, a[i], b[i], w), n)
}

/// How much faster the mean score grows than the score of the target at position `i`.
spec fn surprise_rate<F: Float>(
    r: Reading<F>,
    logits: Mat<F>,
    tokens: Seq<usize>,
    i: int,
) -> real {
    mean_rate(r, logits[i]) - r.d(logits[i][tokens[i + 1] as int])
}

/// The rate of the logarithm of a probability.
proof fn lemma_log_rate<F: Float>(r: Reading<F>, x: Seq<F>, t: int)
    requires
        r.dual(),
        0 <= t < x.len(),
    ensures
        r.d(logarithm(softmax_of(x)[t])) == r.d(x[t]) - mean_rate(r, x),
{
    lemma_softmax_rate(r, x, t);
    let p = softmax_of(x)[t];
    let (vp, z) = (r.v(p), r.d(x[t]) - mean_rate(r, x));
    assert(vp * z == z * vp) by (nonlinear_arith);
    lemma_cancel(r.d(logarithm(p)), z, vp);
}

/// The rate of the sum of the losses at the first `k` positions.
proof fn lemma_log_loss_rate<F: Float>(
    r: Reading<F>,
    logits: Mat<F>,
    tokens: Seq<usize>,
    k: int,
    n: int,
)
    requires
        r.dual(),
        0 <= k <= n,
        forall|i: int| 0 <= i < n ==> (#[trigger] tokens[i + 1]) < logits[i].len(),
    ensures
        r.d(log_loss(logits, tokens, k)) == sum(
            |i: int| surprise_rate(r, logits, tokens, i),
            k,
        ),
    decreases k,
{
    if k > 0 {
        lemma_log_loss_rate(r, logits, tokens, k - 1, n);
        assert(tokens[(k - 1) + 1] < logits[k - 1].len());
        lemma_log_rate(r, logits[k - 1], tokens[k] as int);
    }
}

/// The gradient of the scores at one position.
proof fn lemma_logit_row<F: Float>(
    r: Reading<F>,
    logits: Mat<F>,
    tokens: Seq<usize>,
    n: int,
    i: int,
)
    requires
        r.dual(),
        0 <= i < n <= usize::MAX,
        n <= logits.len(),
        tokens[i + 1] < logits[i].len(),
    ensures
        row_paired(
            r,
            logit_grad(probs_of(logits), tokens, n)[i],
            logits[i],
            logits[i].len() as int,
        ) == r.v(over(one(), num::<F>(n as usize))) * surprise_rate(r, logits, tokens, i),
{
    let x = logits[i];
    let w = x.len() as int;
    let t = tokens[i + 1] as int;
    let g = logit_grad(probs_of(logits), tokens, n)[i];
    let p = softmax_of(x);
    assert(probs_of(logits)[i] == p);
    let inv = r.v(over(one(), num::<F>(n as usize)));
    let mean = |o: int| r.v(p[o]) * r.d(x[o]);
    let at = |o: int|
        if o == t {
            -r.d(x[t])
        } else {
            0real
        };
    let both = |o: int| mean(o) + at(o);
    let terms = |o: int| r.v(g[o]) * r.d(x[o]);
    lemma_sum_single(at, t, w);
    lemma_sum_plus(mean, at, w);
    lemma_sum_scaled(inv, both, w);
    assert forall|o: int| 0 <= o < w implies #[trigger] terms(o) == inv * both(o) by {
        let (vp, dx) = (r.v(p[o]), r.d(x[o]));
        if o == t {
            assert(g[o] == times(minus(p[o], one()), over(one(), num::<F>(n as usize))));
            let z = vp - 1real;
            assert((z * inv) * dx == inv * (z * dx)) by (nonlinear_arith);
            assert((vp - 1real) * dx == vp * dx - dx) by (nonlinear_arith);
        } else {
            assert(g[o] == times(p[o], over(one(), num::<F>(n as usize))));
            assert((vp * inv) * dx == inv * (vp * dx)) by (nonlinear_arith);
        }
    }
    lemma_sum_eq(terms, |o: int| inv * both(o), w);
}

/// The gradient of the scores is the gradient of the loss.
pub proof fn lemma_loss_rate<F: Float>(
    r: Reading<F>,
    logits: Mat<F>,
    tokens: Seq<usize>,
    n: int,
    w: int,
)
    requires
        r.dual(),
        1 <= n <= usize::MAX,
        n <= logits.len(),
        forall|i: int| 0 <= i < n ==> (#[trigger] logits[i]).len() == w,
        forall|i: int| 0 < i <= n ==> (#[trigger] tokens[i]) < w,
    ensures
        r.d(loss_of(logits, tokens, n)) == paired(
            r,
            logit_grad(probs_of(logits), tokens, n),
            logits,
            n,
            w,
        ),
{
    let g = logit_grad(probs_of(logits), tokens, n);
    let count = num::<F>(n as usize);
    let inv = r.v(over(one(), count));
    let surprise = |i: int| surprise_rate(r, logits, tokens, i);
    let rows = |i: int| row_paired(r, g[i], logits[i], w);
    assert forall|i: int| 0 <= i < n implies (#[trigger] tokens[i + 1]) < logits[i].len() by {
        assert(logits[i].len() == w);
    }
    lemma_log_loss_rate(r, logits, tokens, n, n);
    let total = r.d(log_loss(logits, tokens, n));
    assert(total == sum(surprise, n));
    lemma_sum_scaled(inv, surprise, n);
    assert forall|i: int| 0 <= i < n implies #[trigger] rows(i) == inv * surprise(i) by {
        assert(tokens[i + 1] < logits[i].len());
        lemma_logit_row(r, logits, tokens, n, i);
    }
    lemma_sum_eq(rows, |i: int| inv * surprise(i), n);
    let loss = loss_of(logits, tokens, n);
    let (vl, dl, c) = (r.v(loss), r.d(loss), n as real);
    assert(r.v(count) == c);
    assert(vl * 0real == 0real) by (nonlinear_arith);
    assert(dl * c == total);
    assert((inv * total) * c == total * (inv * c)) by (nonlinear_arith);
    assert(total * 1real == total) by (nonlinear_arith);
    lemma_cancel(dl, inv * total, c);
}

/// The rates of a weight matrix, weighted by the products of the output gradients `dy` and the
/// inputs `x` of its linear layer, added up over `n` positions.
pub open spec fn weight_paired<F: Float>(
    r: Reading<F>,
    dy: Mat<F>,
    x: Mat<F>,
    w: Mat<F>,
    n: int,
    rows: int,
    cols: int,
) -> real {
    sum2(
        |o: int, j: int| sum(|i: int| r.v(dy[i][o]) * r.v(x[i][j]), n) * r.d(w[o][j]),
        rows,
        cols,
    )
}

/// What the rates of the weights make of the outputs at position `i`.
spec fn row_weight_paired<F: Float>(
    r: Reading<F>,
    dy: Mat<F>,
    x: Mat<F>,
    w: Mat<F>,
    i: int,
    rows: int,
    cols: int,
) -> real {
    sum2(|o: int, j: int| (r.v(dy[i][o]) * r.v(x[i][j])) * r.d(w[o][j]), rows, cols)
}

/// The rate of output `o` of a linear layer, weighted by its gradient.
proof fn lemma_linear_entry<F: Float>(r: Reading<F>, g: F, x: Seq<F>, w: Seq<F>)
    requires
        r.dual(),
        x.len() == w.len(),
    ensures
        r.v(g) * r.d(dot_of(x, w)) == sum(
            |j: int| (r.v(g) * r.v(x[j])) * r.d(w[j]),
            x.len() as int,
        ) + sum(|j: int| (r.v(g) * r.v(w[j])) * r.d(x[j]), x.len() as int),
{
    let k = x.len() as int;
    let vg = r.v(g);
    let rates = |j: int| r.product_rate(x[j], w[j]);
    let left = |j: int| (vg * r.v(x[j])) * r.d(w[j]);
    let right = |j: int| (vg * r.v(w[j])) * r.d(x[j]);
    lemma_dot_rate(r, x, w);
    lemma_sum_scaled(vg, rates, k);
    lemma_sum_plus(left, right, k);
    assert forall|j: int| 0 <= j < k implies #[trigger] left(j) + right(j) == vg * rates(j) by {
        let (vx, dx, vw, dw) = (r.v(x[j]), r.d(x[j]), r.v(w[j]), r.d(w[j]));
        lemma_distributes(vg, vx * dw, dx * vw);
        assert(vg * (vx * dw) == (vg * vx) * dw) by (nonlinear_arith);
        assert(vg * (dx * vw) == (vg * vw) * dx) by (nonlinear_arith);
    }
    lemma_sum_eq(|j: int| left(j) + right(j), |j: int| vg * rates(j), k);
}

/// A linear layer at one position.
proof fn lemma_linear_row<F: Float>(
    r: Reading<F>,
    dy: Mat<F>,
    x: Mat<F>,
    w: Mat<F>,
    i: int,
    cols: int,
)
    requires
        r.dual(),
        0 <= i < dy.len(),
        0 <= cols,
        x[i].len() == cols,
        forall|o: int| 0 <= o < w.len() ==> (#[trigger] w[o]).len() == cols,
    ensures
        row_paired(r, dy[i], linear(x[i], w), w.len() as int) == row_weight_paired(
            r,
            dy,
            x,
            w,
            i,
            w.len() as int,
            cols,
        ) + row_paired(r, input_grad(dy, w, cols)[i], x[i], cols),
{
    let rows = w.len() as int;
    let y = linear(x[i], w);
    let out = |o: int| r.v(dy[i][o]) * r.d(y[o]);
    let f = |o: int, j: int| (r.v(dy[i][o]) * r.v(x[i][j])) * r.d(w[o][j]);
    let h = |o: int, j: int| (r.v(dy[i][o]) * r.v(w[o][j])) * r.d(x[i][j]);
    let fs = |o: int| sum(|j: int| f(o, j), cols);
    let hs = |o: int| sum(|j: int| h(o, j), cols);
    assert forall|o: int| 0 <= o < rows implies #[trigger] out(o) == fs(o) + hs(o) by {
        lemma_linear_entry(r, dy[i][o], x[i], w[o]);
        lemma_sum_eq(
            |j: int| f(o, j),
            |j: int| (r.v(dy[i][o]) * r.v(x[i][j])) * r.d(w[o][j]),
            cols,
        );
        lemma_sum_eq(
            |j: int| h(o, j),
            |j: int| (r.v(dy[i][o]) * r.v(w[o][j])) * r.d(x[i][j]),
            cols,
        );
    }
    lemma_sum_plus(fs, hs, rows);
    lemma_sum_eq(out, |o: int| fs(o) + hs(o), rows);
    assert(sum2(f, rows, cols) == sum(fs, rows));
    let g = input_grad(dy, w, cols)[i];
    let back = |j: int| r.v(g[j]) * r.d(x[i][j]);
    assert forall|j: int| 0 <= j < cols implies #[trigger] back(j) == sum(|o: int| h(o, j), rows)
        by {
        let dx = r.d(x[i][j]);
        let products = |o: int| r.v(dy[i][o]) * r.v(w[o][j]);
        let c = col(w, j);
        lemma_chain_value(r, dy[i], c, zero(), rows);
        lemma_sum_eq(|o: int| r.v(dy[i][o]) * r.v(c[o]), products, rows);
        lemma_sum_scaled(dx, products, rows);
        assert forall|o: int| 0 <= o < rows implies #[trigger] h(o, j) == dx * products(o) by {
            let z = products(o);
            assert(z * dx == dx * z) by (nonlinear_arith);
        }
        lemma_sum_eq(|o: int| h(o, j), |o: int| dx * products(o), rows);
        let z = sum(products, rows);
        assert(dx * z == z * dx) by (nonlinear_arith);
    }
    lemma_exchange(h, hs, back, rows, cols);
}

/// The gradients of a linear layer.
pub proof fn lemma_linear_dual<F: Float>(
    r: Reading<F>,
    dy: Mat<F>,
    x: Mat<F>,
    w: Mat<F>,
    y: Mat<F>,
    cols: int,
)
    requires
        r.dual(),
        0 <= cols,
        dy.len() <= x.len(),
        forall|i: int| 0 <= i < dy.len() ==> (#[trigger] x[i]).len() == cols,
        forall|o: int| 0 <= o < w.len() ==> (#[trigger] w[o]).len() == cols,
        forall|i: int| 0 <= i < dy.len() ==> #[trigger] y[i] == linear(x[i], w),
    ensures
        paired(r, dy, y, dy.len() as int, w.len() as int) == weight_paired(
            r,
            dy,
            x,
            w,
            dy.len() as int,
            w.len() as int,
            cols,
        ) + paired(r, input_grad(dy, w, cols), x, dy.len() as int, cols),
{
    let (n, rows) = (dy.len() as int, w.len() as int);
    let g = input_grad(dy, w, cols);
    let out = |i: int| row_paired(r, dy[i], y[i], rows);
    let weights = |i: int| row_weight_paired(r, dy, x, w, i, rows, cols);
    let back = |i: int| row_paired(r, g[i], x[i], cols);
    assert forall|i: int| 0 <= i < n implies #[trigger] out(i) == weights(i) + back(i) by {
        assert(x[i].len() == cols);
        assert(y[i] == linear(x[i], w));
        lemma_linear_row(r, dy, x, w, i, cols);
    }
    lemma_sum_plus(weights, back, n);
    lemma_sum_eq(out, |i: int| weights(i) + back(i), n);
    lemma_weight_sums(r, dy, x, w, n, rows, cols);
}

/// What the rates of the weights make of the outputs, position by position or weight by weight.
proof fn lemma_weight_sums<F: Float>(
    r: Reading<F>,
    dy: Mat<F>,
    x: Mat<F>,
    w: Mat<F>,
    n: int,
    rows: int,
    cols: int,
)
    ensures
        sum(|i: int| row_weight_paired(r, dy, x, w, i, rows, cols), n) == weight_paired(
            r,
            dy,
            x,
            w,
            n,
            rows,
            cols,
        ),
{
    let t = |i: int, o: int, j: int| (r.v(dy[i][o]) * r.v(x[i][j])) * r.d(w[o][j]);
    let inner = |i: int, o: int| sum(|j: int| t(i, o, j), cols);
    let by_position = |i: int| row_weight_paired(r, dy, x, w, i, rows, cols);
    let products = |o: int, j: int|
        sum(|i: int| r.v(dy[i][o]) * r.v(x[i][j]), n) * r.d(w[o][j]);
    let by_row = |o: int| sum(|j: int| products(o, j), cols);
    assert forall|i: int| 0 <= i < n implies #[trigger] by_position(i) == sum(
        |o: int| inner(i, o),
        rows,
    ) by {
        let f = |o: int, j: int| (r.v(dy[i][o]) * r.v(x[i][j])) * r.d(w[o][j]);
        let fs = |o: int| sum(|j: int| f(o, j), cols);
        assert forall|o: int| 0 <= o < rows implies #[trigger] fs(o) == inner(i, o) by {
            lemma_sum_eq(|j: int| f(o, j), |j: int| t(i, o, j), cols);
        }
        lemma_sum_eq(fs, |o: int| inner(i, o), rows);
        assert(sum2(f, rows, cols) == sum(fs, rows));
    }
    assert forall|o: int| 0 <= o < rows implies #[trigger] by_row(o) == sum(
        |i: int| inner(i, o),
        n,
    ) by {
        let slab = |i: int, j: int| t(i, o, j);
        let slab_rows = |i: int| inner(i, o);
        let row = |j: int| products(o, j);
        assert forall|i: int| 0 <= i < n implies #[trigger] slab_rows(i) == sum(
            |j: int| slab(i, j),
            cols,
        ) by {
            lemma_sum_eq(|j: int| t(i, o, j), |j: int| slab(i, j), cols);
        }
        assert forall|j: int| 0 <= j < cols implies #[trigger] row(j) == sum(
            |i: int| slab(i, j),
            n,
        ) by {
            let dw = r.d(w[o][j]);
            let terms = |i: int| r.v(dy[i][o]) * r.v(x[i][j]);
            lemma_sum_scaled(dw, terms, n);
            assert forall|i: int| 0 <= i < n implies #[trigger] slab(i, j) == dw * terms(i) by {
                let z = terms(i);
                assert(z * dw == dw * z) by (nonlinear_arith);
            }
            lemma_sum_eq(|i: int| slab(i, j), |i: int| dw * terms(i), n);
            let z = sum(terms, n);
            assert(dw * z == z * dw) by (nonlinear_arith);
        }
        lemma_exchange(slab, slab_rows, row, n, cols);
    }
    lemma_exchange(inner, by_position, by_row, n, rows);
    assert(sum2(products, rows, cols) == sum(by_row, rows));
}

/// The gradient of the norm at every position, on top of the gradients `dx`.
pub proof fn lemma_norm_dual<F: Float>(
    r: Reading<F>,
    x: Mat<F>,
    dy: Mat<F>,
    dx: Mat<F>,
    y: Mat<F>,
    n: int,
    w: int,
)
    requires
        r.dual(),
        1 <= w <= usize::MAX,
        0 <= n <= dx.len(),
        forall|i: int| 0 <= i < n ==> (#[trigger] x[i]).len() == w,
        forall|i: int| 0 <= i < n ==> (#[trigger] dy[i]).len() == w,
        forall|i: int| 0 <= i < n ==> #[trigger] y[i] == rmsnorm_of(x[i]),
    ensures
        paired(r, dy, y, n, w) + paired(r, dx, x, n, w) == paired(
            r,
            norm_grad(x, dy, dx),
            x,
            n,
            w,
        ),
{
    let g = norm_grad(x, dy, dx);
    let above = |i: int| row_paired(r, dy[i], y[i], w);
    let beside = |i: int| row_paired(r, dx[i], x[i], w);
    let below = |i: int| row_paired(r, g[i], x[i], w);
    assert forall|i: int| 0 <= i < n implies #[trigger] below(i) == above(i) + beside(i) by {
        assert(x[i].len() == w);
        assert(dy[i].len() == w);
        assert(y[i] == rmsnorm_of(x[i]));
        lemma_rmsnorm_dual(r, x[i], dy[i], dx[i]);
        let added = |k: int|
            (r.v(rmsnorm_grad(x[i], dy[i], dx[i])[k]) - r.v(dx[i][k])) * r.d(x[i][k]);
        let first = |k: int| r.v(dx[i][k]) * r.d(x[i][k]);
        let all = |k: int| r.v(g[i][k]) * r.d(x[i][k]);
        lemma_sum_plus(added, first, w);
        assert forall|k: int| 0 <= k < w implies #[trigger] all(k) == added(k) + first(k) by {
            let (a, b, d) = (r.v(g[i][k]), r.v(dx[i][k]), r.d(x[i][k]));
            assert((a - b) * d == a * d - b * d) by (nonlinear_arith);
        }
        lemma_sum_eq(all, |k: int| added(k) + first(k), w);
    }
    lemma_sum_plus(above, beside, n);
    lemma_sum_eq(below, |i: int| above(i) + beside(i), n);
}

/// The gradient of the positive part at every position.
pub proof fn lemma_relu_dual<F: Float>(
    r: Reading<F>,
    u: Mat<F>,
    d: Mat<F>,
    y: Mat<F>,
    n: int,
    w: int,
)
    requires
        r.dual(),
        0 <= n <= d.len(),
        forall|i: int| 0 <= i < n ==> (#[trigger] u[i]).len() == w,
        forall|i: int| 0 <= i < n ==> (#[trigger] d[i]).len() == w,
        forall|i: int| 0 <= i < n ==> #[trigger] y[i] == relu_of(u[i]),
    ensures
        paired(r, d, y, n, w) == paired(r, hidden_grad(y, d), u, n, w),
{
    let g = hidden_grad(y, d);
    let above = |i: int| row_paired(r, d[i], y[i], w);
    let below = |i: int| row_paired(r, g[i], u[i], w);
    assert forall|i: int| 0 <= i < n implies #[trigger] above(i) == below(i) by {
        assert(u[i].len() == w);
        assert(d[i].len() == w);
        assert(y[i] == relu_of(u[i]));
        let a = |h: int| r.v(d[i][h]) * r.d(y[i][h]);
        let b = |h: int| r.v(g[i][h]) * r.d(u[i][h]);
        assert forall|h: int| 0 <= h < w implies #[trigger] a(h) == b(h) by {
            let (p, q) = (r.v(d[i][h]), r.d(u[i][h]));
            assert(p * 0real == 0real) by (nonlinear_arith);
            assert(0real * q == 0real) by (nonlinear_arith);
        }
        lemma_sum_eq(a, b, w);
    }
    lemma_sum_eq(above, below, n);
}

/// The gradient of a sum belongs to both summands.
pub proof fn lemma_plus_dual<F: Float>(
    r: Reading<F>,
    g: Mat<F>,
    a: Mat<F>,
    b: Mat<F>,
    y: Mat<F>,
    n: int,
    w: int,
)
    requires
        r.dual(),
        forall|i: int| 0 <= i < n ==> (#[trigger] a[i]).len() == w,
        forall|i: int| 0 <= i < n ==> (#[trigger] b[i]).len() == w,
        forall|i: int| 0 <= i < n ==> #[trigger] y[i] == vec_plus(a[i], b[i]),
    ensures
        paired(r, g, y, n, w) == paired(r, g, a, n, w) + paired(r, g, b, n, w),
{
    let all = |i: int| row_paired(r, g[i], y[i], w);
    let first = |i: int| row_paired(r, g[i], a[i], w);
    let second = |i: int| row_paired(r, g[i], b[i], w);
    assert forall|i: int| 0 <= i < n implies #[trigger] all(i) == first(i) + second(i) by {
        assert(a[i].len() == w);
        assert(b[i].len() == w);
        assert(y[i] == vec_plus(a[i], b[i]));
        let t = |j: int| r.v(g[i][j]) * r.d(y[i][j]);
        let p = |j: int| r.v(g[i][j]) * r.d(a[i][j]);
        let q = |j: int| r.v(g[i][j]) * r.d(b[i][j]);
        lemma_sum_plus(p, q, w);
        assert forall|j: int| 0 <= j < w implies #[trigger] t(j) == p(j) + q(j) by {
            lemma_distributes(r.v(g[i][j]), r.d(a[i][j]), r.d(b[i][j]));
        }
        lemma_sum_eq(t, |j: int| p(j) + q(j), w);
    }
    lemma_sum_plus(first, second, n);
    lemma_sum_eq(all, |i: int| first(i) + second(i), n);
}

/// The rates of the parameters, weighted by what was added to their gradients between `g` and
/// `g2`.
pub open spec fn params_paired<F: Float>(
    r: Reading<F>,
    g: Seq<F>,
    g2: Seq<F>,
    p: Seq<F>,
) -> real {
    sum(|k: int| (r.v(g2[k]) - r.v(g[k])) * r.d(p[k]), p.len() as int)
}

/// What is added in two steps.
pub proof fn lemma_params_step<F: Float>(
    r: Reading<F>,
    g: Seq<F>,
    g2: Seq<F>,
    g3: Seq<F>,
    p: Seq<F>,
)
    ensures
        params_paired(r, g, g3, p) == params_paired(r, g, g2, p) + params_paired(r, g2, g3, p),
{
    let a = |k: int| (r.v(g2[k]) - r.v(g[k])) * r.d(p[k]);
    let b = |k: int| (r.v(g3[k]) - r.v(g2[k])) * r.d(p[k]);
    let c = |k: int| (r.v(g3[k]) - r.v(g[k])) * r.d(p[k]);
    let n = p.len() as int;
    lemma_sum_plus(a, b, n);
    assert forall|k: int| 0 <= k < n implies #[trigger] c(k) == a(k) + b(k) by {
        let (x, y, d) = (r.v(g2[k]) - r.v(g[k]), r.v(g3[k]) - r.v(g2[k]), r.d(p[k]));
        assert((x + y) * d == x * d + y * d) by (nonlinear_arith);
    }
    lemma_sum_eq(c, |k: int| a(k) + b(k), n);
}

/// What is added inside a stretch of the parameters is added there only.
pub proof fn lemma_params_stretch<F: Float>(
    r: Reading<F>,
    g: Seq<F>,
    g2: Seq<F>,
    p: Seq<F>,
    off: int,
    len: int,
)
    requires
        0 <= off,
        0 <= len,
        off + len <= p.len(),
        forall|k: int|
            0 <= k < p.len() && !(off <= k < off + len) ==> r.v(#[trigger] g2[k]) == r.v(g[k]),
    ensures
        params_paired(r, g, g2, p) == sum(
            |k: int| (r.v(g2[off + k]) - r.v(g[off + k])) * r.d(p[off + k]),
            len,
        ),
{
    let f = |k: int| (r.v(g2[k]) - r.v(g[k])) * r.d(p[k]);
    let n = p.len() as int;
    assert forall|k: int| 0 <= k < n && !(off <= k < off + len) implies #[trigger] f(k)
        == 0real by {
        let d = r.d(p[k]);
        assert(r.v(g2[k]) == r.v(g[k]));
        assert(0real * d == 0real) by (nonlinear_arith);
    }
    lemma_sum_zero(f, off);
    lemma_sum_split(f, off, len);
    lemma_sum_split(f, off + len, n - off - len);
    lemma_sum_zero(|k: int| f(off + len + k), n - off - len);
    lemma_sum_eq(
        |k: int| f(off + k),
        |k: int| (r.v(g2[off + k]) - r.v(g[off + k])) * r.d(p[off + k]),
        len,
    );
}

/// The gradient of a weight matrix.
pub proof fn lemma_weight_grad<F: Float>(
    r: Reading<F>,
    g: Seq<F>,
    t: Tensor,
    a: Mat<F>,
    b: Mat<F>,
    p: Seq<F>,
)
    requires
        r.exact(),
        g.len() == p.len(),
        t.end() <= p.len(),
        a.len() == b.len(),
    ensures
        weight_grad(g, t, a, b).len() == g.len(),
        params_paired(r, g, weight_grad(g, t, a, b), p) == weight_paired(
            r,
            a,
            b,
            t.of(p),
            b.len() as int,
            t.rows as int,
            t.cols as int,
        ),
{
    let g2 = weight_grad(g, t, a, b);
    let (off, rows, cols, n) = (t.off as int, t.rows as int, t.cols as int, b.len() as int);
    assert(0 <= rows * cols) by (nonlinear_arith)
        requires
            0 <= rows,
            0 <= cols,
    ;
    lemma_params_stretch(r, g, g2, p, off, rows * cols);
    let f = |k: int| (r.v(g2[off + k]) - r.v(g[off + k])) * r.d(p[off + k]);
    lemma_sum_flat(f, rows, cols);
    let h = |o: int, j: int|
        sum(|i: int| r.v(a[i][o]) * r.v(b[i][j]), n) * r.d(t.of(p)[o][j]);
    assert forall|o: int, j: int| 0 <= o < rows && 0 <= j < cols implies #[trigger] h(o, j) == f(
        o * cols + j,
    ) by {
        let x = o * cols + j;
        lemma_row_entry(t.slice_of(p), o, j, rows, cols);
        lemma_row_entry(t.slice_of(g), o, j, rows, cols);
        lemma_cell(o, j, rows, cols);
        let (ca, cb) = (col(a, o), col(b, j));
        lemma_chain_value(r, ca, cb, t.of(g)[o][j], n);
        lemma_sum_eq(
            |i: int| r.v(ca[i]) * r.v(cb[i]),
            |i: int| r.v(a[i][o]) * r.v(b[i][j]),
            n,
        );
        assert(g2[off + x] == atb_acc(a, b, t.of(g))[o][j]);
    }
    lemma_sum2_eq(h, |o: int, j: int| f(o * cols + j), rows, cols);
}

/// Where nothing is added, nothing is weighted.
pub proof fn lemma_params_unchanged<F: Float>(r: Reading<F>, g: Seq<F>, p: Seq<F>)
    ensures
        params_paired(r, g, g, p) == 0real,
{
    lemma_params_stretch(r, g, g, p, 0, 0);
}

} // verus!
