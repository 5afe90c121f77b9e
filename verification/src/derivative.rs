//! The rates of the building blocks of the model, in dual numbers.
use vstd::prelude::*;

use crate::kernels::{
    max_chain, rms_eps, rms_scale, rmsnorm_grad, rmsnorm_of, shifted_exps, softmax_of,
};
use crate::matrix::{dot_of, plus_chain};
use crate::model::Shape;
use crate::network::attn_scale;
use crate::reading::{
    lemma_dot_rate, lemma_dot_value, lemma_plus_chain_rate, lemma_plus_chain_value, Reading,
};
use crate::scalar::{exponential, minus, num, one, over, plus, ratio_of, root, times, zero, Float};
use crate::sums::{lemma_sum_eq, lemma_sum_plus, lemma_sum_scaled, sum};

verus! {

/// A sum of numbers that are not negative.
pub proof fn lemma_sum_not_negative(f: spec_fn(int) -> real, n: int)
    requires
        forall|i: int| 0 <= i < n ==> #[trigger] f(i) >= 0real,
    ensures
        sum(f, n) >= 0real,
    decreases n,
{
    if n > 0 {
        lemma_sum_not_negative(f, n - 1);
    }
}

/// A sum of positive numbers.
pub proof fn lemma_sum_positive(f: spec_fn(int) -> real, n: int)
    requires
        n > 0,
        forall|i: int| 0 <= i < n ==> #[trigger] f(i) > 0real,
    ensures
        sum(f, n) > 0real,
{
    lemma_sum_not_negative(f, n - 1);
    assert(f(n - 1) > 0real);
}

/// A factor of a sum.
pub proof fn lemma_distributes(a: real, b: real, c: real)
    ensures
        a * (b + c) == a * b + a * c,
{
    assert(a * (b + c) == a * b + a * c) by (nonlinear_arith);
}

/// A factor that is not zero cancels.
pub proof fn lemma_cancel(x: real, y: real, n: real)
    requires
        n != 0real,
        x * n == y * n,
    ensures
        x == y,
{
    assert((x - y) * n == x * n - y * n) by (nonlinear_arith);
    let z = x - y;
    assert(z == 0real) by (nonlinear_arith)
        requires
            z * n == 0real,
            n != 0real,
    ;
}

/// The rate of `s`, where `s * u` is one and `u * u` has the rate `dms`.
proof fn lemma_inverse_root_rate(s: real, u: real, ds: real, du: real, dms: real)
    requires
        s * u == 1real,
        u * du + du * u == dms,
        s * du + ds * u == 0real,
    ensures
        2real * ds == -(s * s * s) * dms,
{
    assert(s * (s * du + ds * u) == s * s * du + ds * (s * u)) by (nonlinear_arith);
    assert(s * 0real == 0real) by (nonlinear_arith);
    assert(ds * 1real == ds) by (nonlinear_arith);
    assert(ds == -(s * s * du));
    assert(s * (u * du + du * u) == (s * u) * (2real * du)) by (nonlinear_arith);
    assert(1real * (2real * du) == 2real * du) by (nonlinear_arith);
    assert(2real * du == s * dms);
    assert(2real * (s * s * du) == s * s * (2real * du)) by (nonlinear_arith);
    assert(s * s * (s * dms) == (s * s * s) * dms) by (nonlinear_arith);
    assert(-(s * s * s) * dms == -((s * s * s) * dms)) by (nonlinear_arith);
}

/// A fraction of two whole numbers does not change.
proof fn lemma_ratio<F: Float>(r: Reading<F>, a: usize, b: usize)
    requires
        r.dual(),
        b > 0,
    ensures
        r.v(ratio_of::<F>(a, b)) * (b as real) == a as real,
        r.d(ratio_of::<F>(a, b)) == 0real,
{
    let q = ratio_of::<F>(a, b);
    let (d, vq, vb) = (r.d(q), r.v(q), b as real);
    assert(vq * 0real == 0real) by (nonlinear_arith);
    assert(0real * vb == 0real) by (nonlinear_arith);
    lemma_cancel(d, 0real, vb);
}

/// The scale of the norm: it is positive, and its rate follows from the rates of the vector.
pub proof fn lemma_rms_scale<F: Float>(r: Reading<F>, x: Seq<F>)
    requires
        r.dual(),
        1 <= x.len() <= usize::MAX,
    ensures
        ({
            let s = r.v(rms_scale(x));
            let n = x.len() as real;
            &&& s > 0real
            &&& r.d(rms_scale(x)) * n == -(s * s * s) * sum(
                |i: int| r.v(x[i]) * r.d(x[i]),
                x.len() as int,
            )
        }),
{
    let len = x.len() as int;
    let dot = dot_of(x, x);
    let count = num::<F>(x.len() as usize);
    let ms = over(dot, count);
    let eps = rms_eps::<F>();
    let u = root(plus(ms, eps));
    let s = over(one(), u);
    assert(s == rms_scale(x));
    let squares = |i: int| r.v(x[i]) * r.v(x[i]);
    let half = |i: int| r.v(x[i]) * r.d(x[i]);
    lemma_dot_value(r, x, x);
    lemma_dot_rate(r, x, x);
    assert(r.v(dot) == sum(squares, len));
    assert forall|i: int| 0 <= i < len implies #[trigger] squares(i) >= 0real by {
        let a = r.v(x[i]);
        assert(a * a >= 0real) by (nonlinear_arith);
    }
    lemma_sum_not_negative(squares, len);
    // the rate of the dot product is twice the sum of the products of value and rate
    assert(r.d(dot) == 2real * sum(half, len)) by {
        let both = |i: int| r.product_rate(x[i], x[i]);
        assert forall|i: int| 0 <= i < len implies #[trigger] both(i) == half(i) + half(i) by {
            let (a, b) = (r.v(x[i]), r.d(x[i]));
            assert(a * b + b * a == a * b + a * b) by (nonlinear_arith);
        }
        lemma_sum_plus(half, half, len);
        lemma_sum_eq(both, |i: int| half(i) + half(i), len);
    }
    lemma_ratio(r, 1, 100_000);
    let n = x.len() as real;
    assert(r.v(count) == n);
    let (vms, dms, t) = (r.v(ms), r.d(ms), sum(half, len));
    lemma_quotient_sign(vms, n, sum(squares, len));
    assert(vms * 0real == 0real) by (nonlinear_arith);
    assert(dms * n == 2real * t);
    let veps = r.v(eps);
    assert(veps > 0real) by {
        lemma_quotient_sign(veps, 100_000real, 1real);
    }
    let (vu, du, vs, ds) = (r.v(u), r.d(u), r.v(s), r.d(s));
    lemma_quotient_sign(vs, vu, 1real);
    lemma_inverse_root_rate(vs, vu, ds, du, dms);
    let cube = vs * vs * vs;
    assert(2real * (ds * n) == (2real * ds) * n) by (nonlinear_arith);
    assert((-cube * dms) * n == -cube * (dms * n)) by (nonlinear_arith);
    assert(-cube * (2real * t) == 2real * (-cube * t)) by (nonlinear_arith);
}

/// A quotient by a positive number has the sign of the dividend.
pub proof fn lemma_quotient_sign(q: real, b: real, a: real)
    requires
        q * b == a,
        b > 0real,
    ensures
        a >= 0real ==> q >= 0real,
        a > 0real ==> q > 0real,
{
    if q < 0real {
        assert(q * b < 0real) by (nonlinear_arith)
            requires
                q < 0real,
                b > 0real,
        ;
    }
    assert(0real * b == 0real) by (nonlinear_arith);
}

/// The gradient of the norm: what the rates of the vector make of the norm, weighted by `dy`, is
/// what they make of the vector, weighted by what the gradient adds to `dx`.
pub proof fn lemma_rmsnorm_dual<F: Float>(r: Reading<F>, x: Seq<F>, dy: Seq<F>, dx: Seq<F>)
    requires
        r.dual(),
        1 <= x.len() <= usize::MAX,
        dy.len() == x.len(),
    ensures
        sum(|k: int| r.v(dy[k]) * r.d(rmsnorm_of(x)[k]), x.len() as int) == sum(
            |k: int| (r.v(rmsnorm_grad(x, dy, dx)[k]) - r.v(dx[k])) * r.d(x[k]),
            x.len() as int,
        ),
{
    let len = x.len() as int;
    let y = rmsnorm_of(x);
    let g = rmsnorm_grad(x, dy, dx);
    let s = rms_scale(x);
    let (vs, ds, n) = (r.v(s), r.d(s), x.len() as real);
    let count = num::<F>(x.len() as usize);
    let q = over(times(times(s, s), s), count);
    let c = times(q, dot_of(dy, x));
    lemma_rms_scale(r, x);
    lemma_dot_value(r, dy, x);
    let dyx = |k: int| r.v(dy[k]) * r.v(x[k]);
    let dyd = |k: int| r.v(dy[k]) * r.d(x[k]);
    let xd = |k: int| r.v(x[k]) * r.d(x[k]);
    let (a, b, t) = (sum(dyx, len), sum(dyd, len), sum(xd, len));
    assert(r.v(c) == r.v(q) * a);
    assert(r.v(count) == n);
    // left: ds * a + vs * b
    let left = |k: int| r.v(dy[k]) * r.d(y[k]);
    assert(sum(left, len) == ds * a + vs * b) by {
        let l1 = |k: int| ds * dyx(k);
        let l2 = |k: int| vs * dyd(k);
        lemma_sum_scaled(ds, dyx, len);
        lemma_sum_scaled(vs, dyd, len);
        lemma_sum_plus(l1, l2, len);
        assert forall|k: int| 0 <= k < len implies #[trigger] left(k) == l1(k) + l2(k) by {
            let (p, vx, dxk) = (r.v(dy[k]), r.v(x[k]), r.d(x[k]));
            assert(y[k] == times(x[k], s));
            lemma_distributes(p, vx * ds, dxk * vs);
            assert(p * (vx * ds) == ds * (p * vx)) by (nonlinear_arith);
            assert(p * (dxk * vs) == vs * (p * dxk)) by (nonlinear_arith);
        }
        lemma_sum_eq(left, |k: int| l1(k) + l2(k), len);
    }
    // right: vs * b - v(c) * t
    let right = |k: int| (r.v(g[k]) - r.v(dx[k])) * r.d(x[k]);
    let vc = r.v(c);
    assert(sum(right, len) == vs * b + (-vc) * t) by {
        let r1 = |k: int| vs * dyd(k);
        let r2 = |k: int| (-vc) * xd(k);
        lemma_sum_scaled(vs, dyd, len);
        lemma_sum_scaled(-vc, xd, len);
        lemma_sum_plus(r1, r2, len);
        assert forall|k: int| 0 <= k < len implies #[trigger] right(k) == r1(k) + r2(k) by {
            let (p, vx, dxk, old_dx) = (r.v(dy[k]), r.v(x[k]), r.d(x[k]), r.v(dx[k]));
            assert(r.v(g[k]) == vs * p + ((-vc) * vx + old_dx));
            let minus_c = -vc;
            lemma_distributes(dxk, vs * p, minus_c * vx);
            assert((vs * p + minus_c * vx) * dxk == dxk * (vs * p + minus_c * vx))
                by (nonlinear_arith);
            assert(dxk * (vs * p) == vs * (p * dxk)) by (nonlinear_arith);
            assert(dxk * (minus_c * vx) == minus_c * (vx * dxk)) by (nonlinear_arith);
        }
        lemma_sum_eq(right, |k: int| r1(k) + r2(k), len);
    }
    let vq = r.v(q);
    let cube = vs * vs * vs;
    assert((ds * a) * n == (ds * n) * a) by (nonlinear_arith);
    assert(((-vc) * t) * n == -((vc * n) * t)) by (nonlinear_arith);
    assert((vq * a) * n == (vq * n) * a) by (nonlinear_arith);
    assert((-cube * t) * a == -((cube * a) * t)) by (nonlinear_arith);
    lemma_cancel(ds * a, (-vc) * t, n);
}

/// What the rates of the scores make of the probabilities: the rate at which the mean score
/// changes, each score weighted by its probability.
pub open spec fn mean_rate<F: Float>(r: Reading<F>, x: Seq<F>) -> real {
    sum(|k: int| r.v(softmax_of(x)[k]) * r.d(x[k]), x.len() as int)
}

/// What the softmax divides by: the sum of the exponentials, which is positive.
pub open spec fn softmax_total<F: Float>(x: Seq<F>) -> F {
    plus_chain(shifted_exps(x), zero(), x.len() as int)
}

/// The entries of the softmax are the exponentials, each times the inverse of their sum.
pub proof fn lemma_softmax_entries<F: Float>(r: Reading<F>, x: Seq<F>)
    requires
        r.exact(),
        r.exponentials_positive(),
        1 <= x.len(),
    ensures
        ({
            let (total, inv) = (softmax_total(x), over(one(), softmax_total(x)));
            &&& r.v(total) == sum(|k: int| r.v(shifted_exps(x)[k]), x.len() as int)
            &&& r.v(total) > 0real
            &&& r.v(inv) > 0real
            &&& r.v(inv) * r.v(total) == 1real
            &&& forall|j: int|
                0 <= j < x.len() ==> r.v(#[trigger] softmax_of(x)[j]) == r.v(shifted_exps(x)[j])
                    * r.v(inv)
        }),
{
    let e = shifted_exps(x);
    let ev = |k: int| r.v(e[k]);
    lemma_plus_chain_value(r, e, zero(), x.len() as int);
    assert forall|k: int| 0 <= k < x.len() implies #[trigger] ev(k) > 0real by {}
    lemma_sum_positive(ev, x.len() as int);
    lemma_quotient_sign(r.v(over(one(), softmax_total(x))), r.v(softmax_total(x)), 1real);
}

/// The probabilities are positive, at most one, and add up to one.
pub proof fn law_softmax_is_distribution<F: Float>(r: Reading<F>, x: Seq<F>)
    requires
        r.exact(),
        r.exponentials_positive(),
        1 <= x.len(),
    ensures
        softmax_of(x).len() == x.len(),
        forall|j: int| 0 <= j < x.len() ==> 0real < r.v(#[trigger] softmax_of(x)[j]) <= 1real,
        sum(|j: int| r.v(softmax_of(x)[j]), x.len() as int) == 1real,
{
    let len = x.len() as int;
    let e = shifted_exps(x);
    let w = softmax_of(x);
    let vinv = r.v(over(one(), softmax_total(x)));
    let ev = |k: int| r.v(e[k]);
    let wv = |k: int| r.v(w[k]);
    lemma_softmax_entries(r, x);
    lemma_sum_scaled(vinv, ev, len);
    assert forall|k: int| 0 <= k < len implies #[trigger] wv(k) == vinv * ev(k) by {
        let a = ev(k);
        assert(r.v(w[k]) == a * vinv);
        assert(a * vinv == vinv * a) by (nonlinear_arith);
    }
    lemma_sum_eq(wv, |k: int| vinv * ev(k), len);
    assert forall|k: int| 0 <= k < len implies #[trigger] wv(k) > 0real by {
        assert(wv(k) == vinv * ev(k));
        assert(r.v(e[k]) > 0real);
        lemma_product_sign(vinv, ev(k));
    }
    assert forall|j: int| 0 <= j < len implies 0real < r.v(#[trigger] w[j]) <= 1real by {
        assert(wv(j) > 0real);
        lemma_term_at_most_sum(wv, j, len);
    }
}

/// No term of a sum of numbers that are not negative is larger than the sum.
proof fn lemma_term_at_most_sum(f: spec_fn(int) -> real, j: int, n: int)
    requires
        0 <= j < n,
        forall|i: int| 0 <= i < n ==> #[trigger] f(i) >= 0real,
    ensures
        f(j) <= sum(f, n),
    decreases n,
{
    assert(f(n - 1) >= 0real);
    if j == n - 1 {
        lemma_sum_not_negative(f, n - 1);
    } else {
        lemma_term_at_most_sum(f, j, n - 1);
    }
}

/// The softmax keeps the order of the scores.
pub proof fn law_softmax_keeps_order<F: Float>(r: Reading<F>, x: Seq<F>, i: int, j: int)
    requires
        r.exact(),
        r.exponentials(),
        0 <= i < x.len(),
        0 <= j < x.len(),
    ensures
        r.v(softmax_of(x)[i]) <= r.v(softmax_of(x)[j]) <==> r.v(x[i]) <= r.v(x[j]),
{
    let max = max_chain(x, x.len() as int);
    let (a, b) = (minus(x[i], max), minus(x[j], max));
    let (ea, eb) = (exponential(a), exponential(b));
    let inv = r.v(over(one(), softmax_total(x)));
    lemma_softmax_entries(r, x);
    assert(shifted_exps(x)[i] == ea);
    assert(shifted_exps(x)[j] == eb);
    assert(r.v(ea) <= r.v(eb) <==> r.v(a) <= r.v(b));
    assert(r.v(softmax_of(x)[i]) == r.v(ea) * inv);
    assert(r.v(softmax_of(x)[j]) == r.v(eb) * inv);
    lemma_factor_keeps_order(r.v(ea), r.v(eb), inv);
}

/// A positive factor keeps the order.
pub proof fn lemma_factor_keeps_order(a: real, b: real, c: real)
    requires
        c > 0real,
    ensures
        a * c <= b * c <==> a <= b,
{
    let d = b - a;
    assert((b - a) * c == b * c - a * c) by (nonlinear_arith);
    if d > 0real {
        lemma_product_sign(d, c);
    } else if d < 0real {
        lemma_product_sign(-d, c);
        assert((-d) * c == -(d * c)) by (nonlinear_arith);
    } else {
        assert(0real * c == 0real) by (nonlinear_arith);
    }
}

/// The softmax does not change when one constant is added to every score.
pub proof fn law_softmax_ignores_shift<F: Float>(
    r: Reading<F>,
    x: Seq<F>,
    y: Seq<F>,
    shift: real,
)
    requires
        r.exact(),
        r.exponentials(),
        x.len() == y.len(),
        forall|i: int| 0 <= i < x.len() ==> r.v(#[trigger] y[i]) == r.v(x[i]) + shift,
    ensures
        forall|i: int|
            0 <= i < x.len() ==> r.v(#[trigger] softmax_of(y)[i]) == r.v(softmax_of(x)[i]),
{
    let len = x.len() as int;
    if len > 0 {
        let (ex, ey) = (shifted_exps(x), shifted_exps(y));
        let (mx, my) = (max_chain(x, len), max_chain(y, len));
        // every exponential is multiplied by the same factor
        let gap = minus(minus(y[0], my), minus(x[0], mx));
        let factor = r.v(exponential(gap));
        let (fx, fy) = (|k: int| r.v(ex[k]), |k: int| r.v(ey[k]));
        assert forall|k: int| 0 <= k < len implies #[trigger] fy(k) == factor * fx(k) by {
            let (a, b) = (minus(x[k], mx), minus(y[k], my));
            assert(r.v(y[0]) == r.v(x[0]) + shift);
            assert(r.v(y[k]) == r.v(x[k]) + shift);
            assert(r.v(b) == r.v(gap) + r.v(a));
            assert(ex[k] == exponential(a));
            assert(ey[k] == exponential(b));
        }
        lemma_softmax_entries(r, x);
        lemma_softmax_entries(r, y);
        lemma_sum_scaled(factor, fx, len);
        lemma_sum_eq(fy, |k: int| factor * fx(k), len);
        let (tx, ty) = (r.v(softmax_total(x)), r.v(softmax_total(y)));
        let (ix, iy) = (
            r.v(over(one(), softmax_total(x))),
            r.v(over(one(), softmax_total(y))),
        );
        assert(ty == factor * tx);
        assert forall|i: int| 0 <= i < len implies r.v(#[trigger] softmax_of(y)[i]) == r.v(
            softmax_of(x)[i],
        ) by {
            let e = fx(i);
            assert(r.v(softmax_of(x)[i]) == e * ix);
            assert(r.v(softmax_of(y)[i]) == (factor * e) * iy) by {
                assert(fy(i) == factor * fx(i));
            }
            // both, times the total of the scores, are the exponential
            assert((e * ix) * tx == e * (ix * tx)) by (nonlinear_arith);
            assert(((factor * e) * iy) * tx == e * (iy * (factor * tx))) by {
                assert(((factor * e) * iy) * tx == (factor * e) * (iy * tx)) by (nonlinear_arith);
                let z = iy * tx;
                assert((factor * e) * z == e * (factor * z)) by (nonlinear_arith);
                assert(factor * (iy * tx) == iy * (factor * tx)) by (nonlinear_arith);
            }
            lemma_cancel((factor * e) * iy, e * ix, tx);
        }
    }
}

/// The rate of the softmax. Its entries are positive.
pub proof fn lemma_softmax_rate<F: Float>(r: Reading<F>, x: Seq<F>, j: int)
    requires
        r.dual(),
        0 <= j < x.len(),
    ensures
        r.v(softmax_of(x)[j]) > 0real,
        r.d(softmax_of(x)[j]) == r.v(softmax_of(x)[j]) * (r.d(x[j]) - mean_rate(r, x)),
{
    let len = x.len() as int;
    let e = shifted_exps(x);
    let w = softmax_of(x);
    let max = max_chain(x, len);
    let total = softmax_total(x);
    let inv = over(one(), total);
    let dm = r.d(max);
    let (vinv, dinv, vt, dt) = (r.v(inv), r.d(inv), r.v(total), r.d(total));
    let ev = |k: int| r.v(e[k]);
    let ed = |k: int| r.d(e[k]);
    lemma_plus_chain_value(r, e, zero(), len);
    lemma_plus_chain_rate(r, e, zero(), len);
    assert forall|k: int| 0 <= k < len implies #[trigger] ev(k) > 0real by {}
    lemma_sum_positive(ev, len);
    assert(vt == sum(ev, len));
    assert(dt == sum(ed, len));
    lemma_quotient_sign(vinv, vt, 1real);
    let wv = |k: int| r.v(w[k]);
    let wd = |k: int| r.v(w[k]) * r.d(x[k]);
    let mean = mean_rate(r, x);
    assert(mean == sum(wd, len));
    law_softmax_is_distribution(r, x);
    assert(sum(wv, len) == 1real);
    // the rate of the total, scaled, is the mean rate less the rate of the shift
    let shift = vinv * dt;
    assert(shift == mean - dm) by {
        let scaled = |k: int| vinv * ed(k);
        let back = |k: int| (-dm) * wv(k);
        lemma_sum_scaled(vinv, ed, len);
        lemma_sum_scaled(-dm, wv, len);
        lemma_sum_plus(wd, back, len);
        assert forall|k: int| 0 <= k < len implies #[trigger] scaled(k) == wd(k) + back(k) by {
            let (a, dx) = (r.v(e[k]), r.d(x[k]));
            lemma_shifted(vinv, a, dx, dm);
        }
        lemma_sum_eq(scaled, |k: int| wd(k) + back(k), len);
        assert((-dm) * 1real == -dm) by (nonlinear_arith);
    }
    let (a, dx) = (r.v(e[j]), r.d(x[j]));
    lemma_quotient_rate(a, dx, dm, vinv, dinv, vt, dt, shift);
    assert(r.v(w[j]) == a * vinv);
    assert(r.d(w[j]) == a * dinv + (a * (dx - dm)) * vinv);
}

/// The product of positive numbers.
pub proof fn lemma_product_sign(a: real, b: real)
    requires
        a > 0real,
        b > 0real,
    ensures
        a * b > 0real,
{
    assert(a * b > 0real) by (nonlinear_arith)
        requires
            a > 0real,
            b > 0real,
    ;
}

/// A term of the rate of the total.
proof fn lemma_shifted(inv: real, a: real, dx: real, dm: real)
    ensures
        inv * (a * (dx - dm)) == (a * inv) * dx + (-dm) * (a * inv),
{
    let w = a * inv;
    assert(inv * (a * (dx - dm)) == w * (dx - dm)) by {
        let z = dx - dm;
        assert(inv * (a * z) == (a * inv) * z) by (nonlinear_arith);
    }
    lemma_distributes(w, dx, -dm);
    assert(w * (-dm) == (-dm) * w) by (nonlinear_arith);
}

/// The rate of an exponential over the total.
proof fn lemma_quotient_rate(
    a: real,
    dx: real,
    dm: real,
    inv: real,
    dinv: real,
    t: real,
    dt: real,
    shift: real,
)
    requires
        inv * t == 1real,
        inv * dt + dinv * t == 0real,
        shift == inv * dt,
    ensures
        a * dinv + (a * (dx - dm)) * inv == (a * inv) * (dx - dm - shift),
{
    let w = a * inv;
    // dinv = -shift * inv
    assert(inv * (dinv * t) == dinv * (inv * t)) by (nonlinear_arith);
    assert(dinv * 1real == dinv) by (nonlinear_arith);
    assert(inv * (-shift) == -(shift * inv)) by (nonlinear_arith);
    assert(dinv == -(shift * inv));
    assert(a * (-(shift * inv)) == w * (-shift)) by {
        assert(a * (-(shift * inv)) == -(a * (shift * inv))) by {
            let z = shift * inv;
            assert(a * (-z) == -(a * z)) by (nonlinear_arith);
        }
        assert(a * (shift * inv) == (a * inv) * shift) by (nonlinear_arith);
        assert(w * (-shift) == -(w * shift)) by (nonlinear_arith);
    }
    let z = dx - dm;
    assert((a * z) * inv == w * z) by (nonlinear_arith)
        requires
            w == a * inv,
    ;
    lemma_distributes(w, z, -shift);
}

/// The scale of the attention scores does not change.
pub proof fn lemma_attn_scale<F: Float>(r: Reading<F>, s: Shape)
    requires
        r.dual(),
        1 <= s.hd() <= usize::MAX,
    ensures
        r.d(attn_scale::<F>(s)) == 0real,
{
    let count = num::<F>(s.hd() as usize);
    let u = root(count);
    let q = over(one(), u);
    let (vu, du, vq, dq) = (r.v(u), r.d(u), r.v(q), r.d(q));
    assert(vu > 0real);
    assert(vu * du + du * vu == (2real * du) * vu) by (nonlinear_arith);
    assert(0real * vu == 0real) by (nonlinear_arith);
    lemma_cancel(2real * du, 0real, vu);
    assert(vq * 0real == 0real) by (nonlinear_arith);
    lemma_cancel(dq, 0real, vu);
}

/// The gradient of the softmax: what the rates of the scores make of the probabilities, weighted
/// by `dw`.
pub proof fn lemma_softmax_dual<F: Float>(r: Reading<F>, x: Seq<F>, dw: Seq<F>, total: real)
    requires
        r.dual(),
        total == sum(|k: int| r.v(softmax_of(x)[k]) * r.v(dw[k]), x.len() as int),
    ensures
        sum(|j: int| r.v(dw[j]) * r.d(softmax_of(x)[j]), x.len() as int) == sum(
            |j: int| (r.v(softmax_of(x)[j]) * (r.v(dw[j]) - total)) * r.d(x[j]),
            x.len() as int,
        ),
{
    let m = x.len() as int;
    let w = softmax_of(x);
    let mean = mean_rate(r, x);
    let products = |k: int| r.v(w[k]) * r.v(dw[k]);
    let means = |k: int| r.v(w[k]) * r.d(x[k]);
    let all = |k: int| products(k) * r.d(x[k]);
    let left = |j: int| r.v(dw[j]) * r.d(w[j]);
    let right = |j: int| (r.v(w[j]) * (r.v(dw[j]) - total)) * r.d(x[j]);
    let off_left = |k: int| (-mean) * products(k);
    let off_right = |k: int| (-total) * means(k);
    assert forall|j: int| 0 <= j < m implies #[trigger] left(j) == all(j) + off_left(j) by {
        lemma_softmax_rate(r, x, j);
        let (g, p, d) = (r.v(dw[j]), r.v(w[j]), r.d(x[j]));
        let z = p * g;
        assert(g * (p * (d - mean)) == z * (d - mean)) by {
            let y = d - mean;
            assert(g * (p * y) == (p * g) * y) by (nonlinear_arith);
        }
        lemma_distributes(z, d, -mean);
        assert(z * (-mean) == (-mean) * z) by (nonlinear_arith);
    }
    assert forall|j: int| 0 <= j < m implies #[trigger] right(j) == all(j) + off_right(j) by {
        let (g, p, d) = (r.v(dw[j]), r.v(w[j]), r.d(x[j]));
        lemma_distributes(p, g, -total);
        assert((p * g + p * (-total)) * d == (p * g) * d + (p * (-total)) * d) by {
            let (y, z) = (p * g, p * (-total));
            assert((y + z) * d == y * d + z * d) by (nonlinear_arith);
        }
        let y = -total;
        assert((p * y) * d == y * (p * d)) by (nonlinear_arith);
    }
    lemma_sum_scaled(-mean, products, m);
    lemma_sum_scaled(-total, means, m);
    lemma_sum_plus(all, off_left, m);
    lemma_sum_plus(all, off_right, m);
    lemma_sum_eq(left, |j: int| all(j) + off_left(j), m);
    lemma_sum_eq(right, |j: int| all(j) + off_right(j), m);
    assert((-mean) * total == (-total) * mean) by (nonlinear_arith);
}

} // verus!
