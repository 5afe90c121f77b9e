//! Laws that hold in spite of rounding.
//!
//! A type that rounds still keeps some things: the order of numbers, their signs, zero, and the
//! digits of a number that is scaled by a power of the base. The laws here ask for such things
//! alone, and only of numbers that are defined, so they speak of floating point as it is.
use vstd::prelude::*;

use crate::adam::{
    adam_eps_of, adam_params, beta1_of, beta2_of, bias_correction, first_moment, second_moment,
    second_moments,
};
use crate::kernels::{max_chain, shifted_exps, softmax_of};
use crate::matrix::plus_chain;
use crate::reading::{nth_power, Reading};
use crate::rng::{choice_of, picked, uniform_of};
use crate::scalar::{
    exponential, fma, is_at_most, is_less, is_undefined, larger, lowest, minus, one, over, plus,
    ratio_of, root, times, zero, Float,
};
use crate::sums::{lemma_sum_scaled, sum};

verus! {

/// A way to scale numbers, and the numbers for which scaling loses nothing. Of a binary floating
/// point type: multiplication by a power of two, and the numbers for which neither they nor the
/// products overflow or underflow.
#[verifier::reject_recursive_types(F)]
pub struct Scaling<F> {
    /// The scaled number.
    pub by: spec_fn(F) -> F,
    /// Whether scaling the number loses nothing.
    pub fits: spec_fn(F) -> bool,
}

impl<F: Float> Scaling<F> {
    /// The scaled number.
    pub open spec fn of(self, a: F) -> F {
        (self.by)(a)
    }

    /// Every number of a sequence, scaled.
    pub open spec fn of_all(self, v: Seq<F>) -> Seq<F> {
        Seq::new(v.len(), |i: int| self.of(v[i]))
    }

    /// Sums, differences and comparisons commute with scaling where it loses nothing.
    pub open spec fn lossless(self) -> bool {
        &&& self.of(zero()) == zero::<F>()
        &&& forall|a: F, b: F|
            (self.fits)(a) && (self.fits)(b) && (self.fits)(#[trigger] plus(a, b)) ==> plus(
                self.of(a),
                self.of(b),
            ) == self.of(plus(a, b))
        &&& forall|a: F, b: F|
            (self.fits)(a) && (self.fits)(b) && (self.fits)(#[trigger] minus(a, b)) ==> minus(
                self.of(a),
                self.of(b),
            ) == self.of(minus(a, b))
        &&& forall|a: F, b: F|
            (self.fits)(a) && (self.fits)(b) ==> is_less(self.of(a), self.of(b))
                == #[trigger] is_less(a, b)
    }
}

/// What is left of `r` behind the first `i` weights.
pub open spec fn rest_at<F: Float>(weights: Seq<F>, r: F, i: int) -> F
    decreases i,
{
    if i <= 0 {
        r
    } else {
        minus(rest_at(weights, r, i - 1), weights[i - 1])
    }
}

/// The weights of a choice need not add up to one, also where the type rounds: where scaling
/// loses nothing of the weights, of their partial sums, of the draw times the total and of what
/// is left of it on the way, the scaled weights give the same index.
pub proof fn law_rounded_choice_ignores_scale<F: Float>(
    c: Scaling<F>,
    weights: Seq<F>,
    s: Seq<u64>,
)
    requires
        c.lossless(),
        forall|i: int| 0 <= i < weights.len() ==> (c.fits)(#[trigger] weights[i]),
        forall|k: int|
            0 <= k <= weights.len() ==> (c.fits)(#[trigger] plus_chain(weights, zero(), k)),
        ({
            let total = plus_chain(weights, zero(), weights.len() as int);
            let first = times(uniform_of(s), total);
            &&& times(uniform_of(s), c.of(total)) == c.of(first)
            &&& forall|i: int|
                0 <= i <= choice_of(weights, s) ==> (c.fits)(#[trigger] rest_at(weights, first, i))
        }),
    ensures
        choice_of(c.of_all(weights), s) == choice_of(weights, s),
{
    let n = weights.len() as int;
    let first = times(uniform_of(s), plus_chain(weights, zero(), n));
    lemma_scaled_sum(c, weights, n);
    lemma_scaled_search(c, weights, first, 0);
}

/// The sum of scaled numbers is the scaled sum.
proof fn lemma_scaled_sum<F: Float>(c: Scaling<F>, weights: Seq<F>, n: int)
    requires
        c.lossless(),
        0 <= n <= weights.len(),
        forall|i: int| 0 <= i < weights.len() ==> (c.fits)(#[trigger] weights[i]),
        forall|k: int|
            0 <= k <= weights.len() ==> (c.fits)(#[trigger] plus_chain(weights, zero(), k)),
    ensures
        plus_chain(c.of_all(weights), zero(), n) == c.of(plus_chain(weights, zero(), n)),
    decreases n,
{
    if n > 0 {
        lemma_scaled_sum(c, weights, n - 1);
        let a = plus_chain(weights, zero(), n - 1);
        assert((c.fits)(a));
        assert((c.fits)(weights[n - 1]));
        assert((c.fits)(plus_chain(weights, zero(), n)));
        assert(plus_chain(weights, zero(), n) == plus(a, weights[n - 1]));
    }
}

/// A search that starts inside the weights does not end before it starts.
proof fn lemma_picked_from<F: Float>(weights: Seq<F>, r: F, i: int)
    requires
        0 <= i < weights.len(),
    ensures
        i <= picked(weights, r, i) < weights.len(),
    decreases weights.len() - i,
{
    reveal_with_fuel(picked, 2);
    if !is_less(r, weights[i]) && i + 1 < weights.len() {
        lemma_picked_from(weights, minus(r, weights[i]), i + 1);
    }
}

/// The search from index `i` on.
proof fn lemma_scaled_search<F: Float>(c: Scaling<F>, weights: Seq<F>, first: F, i: int)
    requires
        c.lossless(),
        0 <= i <= weights.len(),
        forall|i: int| 0 <= i < weights.len() ==> (c.fits)(#[trigger] weights[i]),
        forall|k: int|
            0 <= k <= picked(weights, rest_at(weights, first, i), i) ==> (c.fits)(
                #[trigger] rest_at(weights, first, k),
            ),
    ensures
        picked(c.of_all(weights), c.of(rest_at(weights, first, i)), i) == picked(
            weights,
            rest_at(weights, first, i),
            i,
        ),
    decreases weights.len() - i,
{
    reveal_with_fuel(picked, 2);
    if i < weights.len() {
        let rest = rest_at(weights, first, i);
        let w = weights[i];
        lemma_picked_from(weights, rest, i);
        assert((c.fits)(rest));
        assert((c.fits)(w));
        assert(c.of_all(weights)[i] == c.of(w));
        assert(is_less(c.of(rest), c.of(w)) == is_less(rest, w));
        if !is_less(rest, w) {
            let next = rest_at(weights, first, i + 1);
            assert(next == minus(rest, w));
            if i + 1 < weights.len() {
                lemma_picked_from(weights, next, i + 1);
                assert((c.fits)(next));
                assert(minus(c.of(rest), c.of(w)) == c.of(next));
                lemma_scaled_search(c, weights, first, i + 1);
            }
        }
    }
}

/// The number is the result of no undefined operation.
pub open spec fn defined<F: Float>(a: F) -> bool {
    !is_undefined(a)
}

/// The number is finite: it can be taken from itself.
pub open spec fn finite<F: Float>(a: F) -> bool {
    defined(a) && defined(minus(a, a))
}

/// Neither number is below the other.
pub open spec fn same_number<F: Float>(a: F, b: F) -> bool {
    is_at_most(a, b) && is_at_most(b, a)
}

/// Rounding keeps the order of numbers, as far as the softmax needs it.
pub open spec fn keeps_order<F: Float>() -> bool {
    &&& is_at_most(zero::<F>(), one())
    &&& is_at_most(zero::<F>(), zero())
    &&& forall|a: F| #[trigger] defined(a) ==> is_at_most(a, a)
    &&& forall|a: F, b: F| #[trigger] is_at_most(a, b) ==> defined(a) && defined(b)
    &&& forall|a: F, b: F, c: F|
        #[trigger] is_at_most(a, b) && #[trigger] is_at_most(b, c) ==> is_at_most(a, c)
    &&& forall|a: F| finite(a) ==> #[trigger] larger(lowest(), a) == a
    &&& forall|a: F, b: F|
        finite(a) && finite(b) ==> {
            let m = #[trigger] larger(a, b);
            &&& m == a || m == b
            &&& is_at_most(a, m)
            &&& is_at_most(b, m)
        }
    &&& forall|a: F, b: F, c: F|
        finite(a) && finite(b) && finite(c) && is_at_most(a, b) ==> is_at_most(
            #[trigger] minus(a, c),
            #[trigger] minus(b, c),
        )
    &&& forall|a: F| finite(a) ==> same_number(#[trigger] minus(a, a), zero())
    &&& forall|a: F, b: F|
        is_at_most(a, b) ==> is_at_most(#[trigger] exponential(a), #[trigger] exponential(b))
    &&& forall|a: F| is_at_most(a, a) ==> is_at_most(zero(), #[trigger] exponential(a))
    &&& forall|a: F| same_number(a, zero()) ==> same_number(#[trigger] exponential(a), one())
    &&& forall|a: F, b: F|
        is_at_most(zero(), a) && is_at_most(zero(), b) ==> is_at_most(a, #[trigger] plus(a, b))
            && is_at_most(b, plus(a, b))
    &&& forall|t: F|
        is_at_most(one(), t) ==> is_at_most(zero(), #[trigger] over(one(), t)) && is_at_most(
            over(one(), t),
            one(),
        )
    &&& forall|a: F, b: F, c: F|
        is_at_most(zero(), a) && is_at_most(a, b) && is_at_most(b, one()) && is_at_most(zero(), c)
            && is_at_most(c, one()) ==> {
            &&& is_at_most(#[trigger] times(a, c), #[trigger] times(b, c))
            &&& is_at_most(zero(), times(a, c))
            &&& is_at_most(times(b, c), one())
        }
}

/// The largest of finite numbers is one of them, and none is above it.
proof fn lemma_largest<F: Float>(x: Seq<F>, n: int) -> (k: int)
    requires
        keeps_order::<F>(),
        1 <= n <= x.len(),
        forall|i: int| 0 <= i < x.len() ==> finite(#[trigger] x[i]),
    ensures
        0 <= k < n,
        max_chain(x, n) == x[k],
        forall|i: int| 0 <= i < n ==> is_at_most(#[trigger] x[i], max_chain(x, n)),
    decreases n,
{
    assert(finite(x[n - 1]));
    if n == 1 {
        assert(max_chain(x, 0) == lowest::<F>());
        assert(larger(lowest(), x[0]) == x[0]);
        assert(defined(x[0]));
        0
    } else {
        let k = lemma_largest(x, n - 1);
        let (a, b) = (max_chain(x, n - 1), x[n - 1]);
        assert(finite(x[k]));
        let m = larger(a, b);
        assert(max_chain(x, n) == m);
        assert forall|i: int| 0 <= i < n implies is_at_most(#[trigger] x[i], m) by {
            if i < n - 1 {
                assert(is_at_most(x[i], a));
            }
        }
        if m == a {
            k
        } else {
            n - 1
        }
    }
}

/// A sum of numbers that are not negative is at least each of them.
proof fn lemma_sum_above_terms<F: Float>(e: Seq<F>, n: int)
    requires
        keeps_order::<F>(),
        0 <= n <= e.len(),
        forall|k: int| 0 <= k < e.len() ==> is_at_most(zero(), #[trigger] e[k]),
    ensures
        is_at_most(zero(), plus_chain(e, zero(), n)),
        forall|k: int| 0 <= k < n ==> is_at_most(#[trigger] e[k], plus_chain(e, zero(), n)),
    decreases n,
{
    if n > 0 {
        lemma_sum_above_terms(e, n - 1);
        let (a, b) = (plus_chain(e, zero(), n - 1), e[n - 1]);
        assert(is_at_most(zero(), b));
        assert(is_at_most(a, plus(a, b)));
        assert(is_at_most(b, plus(a, b)));
        assert forall|k: int| 0 <= k < n implies is_at_most(#[trigger] e[k], plus(a, b)) by {
            if k < n - 1 {
                assert(is_at_most(e[k], a));
            }
        }
    }
}

/// The exponentials of the shifted scores lie between zero and one, and one of them is one.
proof fn lemma_exponentials_bounded<F: Float>(x: Seq<F>) -> (k: int)
    requires
        keeps_order::<F>(),
        1 <= x.len(),
        forall|i: int| 0 <= i < x.len() ==> finite(#[trigger] x[i]),
    ensures
        0 <= k < x.len(),
        is_at_most(one(), shifted_exps(x)[k]),
        forall|i: int|
            0 <= i < x.len() ==> is_at_most(zero(), #[trigger] shifted_exps(x)[i]) && is_at_most(
                shifted_exps(x)[i],
                one(),
            ),
{
    let n = x.len() as int;
    let k = lemma_largest(x, n);
    let max = max_chain(x, n);
    let e = shifted_exps(x);
    assert(finite(x[k]));
    let top = minus(max, max);
    assert(same_number(top, zero()));
    assert(same_number(exponential(top), one()));
    assert forall|i: int| 0 <= i < n implies is_at_most(zero(), #[trigger] e[i]) && is_at_most(
        e[i],
        one(),
    ) by {
        let d = minus(x[i], max);
        assert(finite(x[i]));
        assert(is_at_most(x[i], max));
        assert(is_at_most(d, top));
        assert(e[i] == exponential(d));
        assert(is_at_most(exponential(d), exponential(top)));
        assert(defined(x[i]));
        assert(is_at_most(x[i], x[i]));
        assert(is_at_most(minus(x[i], max), minus(x[i], max)));
    }
    assert(e[k] == exponential(top));
    k
}

/// Also where the type rounds, the softmax of finite scores gives numbers between zero and one in
/// the order of the scores.
pub proof fn law_rounded_softmax<F: Float>(x: Seq<F>)
    requires
        keeps_order::<F>(),
        1 <= x.len(),
        forall|i: int| 0 <= i < x.len() ==> finite(#[trigger] x[i]),
    ensures
        softmax_of(x).len() == x.len(),
        forall|i: int|
            0 <= i < x.len() ==> is_at_most(zero(), #[trigger] softmax_of(x)[i]) && is_at_most(
                softmax_of(x)[i],
                one(),
            ),
        forall|i: int, j: int|
            0 <= i < x.len() && 0 <= j < x.len() && is_at_most(x[i], x[j]) ==> is_at_most(
                #[trigger] softmax_of(x)[i],
                #[trigger] softmax_of(x)[j],
            ),
{
    let n = x.len() as int;
    let (e, w) = (shifted_exps(x), softmax_of(x));
    let k = lemma_exponentials_bounded(x);
    let total = plus_chain(e, zero(), n);
    let inv = over(one(), total);
    lemma_sum_above_terms(e, n);
    assert(is_at_most(e[k], total));
    assert(is_at_most(one(), total));
    assert(is_at_most(zero(), inv) && is_at_most(inv, one()));
    assert forall|i: int| 0 <= i < n implies is_at_most(zero(), #[trigger] w[i]) && is_at_most(
        w[i],
        one(),
    ) by {
        assert(is_at_most(zero(), e[i]) && is_at_most(e[i], one()));
        assert(w[i] == times(e[i], inv));
        assert(defined(e[i]));
        assert(is_at_most(times(e[i], inv), times(e[i], inv)));
    }
    assert forall|i: int, j: int| 0 <= i < n && 0 <= j < n && is_at_most(x[i], x[j]) implies
        is_at_most(#[trigger] w[i], #[trigger] w[j]) by {
        lemma_exponentials_ordered(x, i, j);
        assert(is_at_most(zero(), e[i]) && is_at_most(e[j], one()));
        assert(w[i] == times(e[i], inv));
        assert(w[j] == times(e[j], inv));
        assert(is_at_most(times(e[i], inv), times(e[j], inv)));
    }
}

/// The exponentials of the shifted scores are in the order of the scores.
proof fn lemma_exponentials_ordered<F: Float>(x: Seq<F>, i: int, j: int)
    requires
        keeps_order::<F>(),
        forall|i: int| 0 <= i < x.len() ==> finite(#[trigger] x[i]),
        0 <= i < x.len(),
        0 <= j < x.len(),
        is_at_most(x[i], x[j]),
    ensures
        is_at_most(shifted_exps(x)[i], shifted_exps(x)[j]),
{
    let k = lemma_largest(x, x.len() as int);
    let max = max_chain(x, x.len() as int);
    assert(finite(x[i]) && finite(x[j]) && finite(x[k]));
    assert(is_at_most(minus(x[i], max), minus(x[j], max)));
    assert(is_at_most(exponential(minus(x[i], max)), exponential(minus(x[j], max))));
}

/// The softmax depends on the scores only through what they are below the largest: where adding a
/// constant to every score changes none of these differences, it does not change the softmax.
pub proof fn law_softmax_of_equal_differences<F: Float>(x: Seq<F>, y: Seq<F>)
    requires
        x.len() == y.len(),
        forall|i: int|
            0 <= i < x.len() ==> minus(#[trigger] y[i], max_chain(y, y.len() as int)) == minus(
                x[i],
                max_chain(x, x.len() as int),
            ),
    ensures
        softmax_of(y) == softmax_of(x),
{
    assert forall|i: int| 0 <= i < x.len() implies shifted_exps(y)[i] == shifted_exps(x)[i] by {
        assert(minus(y[i], max_chain(y, y.len() as int)) == minus(
            x[i],
            max_chain(x, x.len() as int),
        ));
    }
    assert(shifted_exps(y) =~= shifted_exps(x));
}

/// Rounding keeps the signs of numbers, as far as the optimizer needs it.
pub open spec fn keeps_sign<F: Float>() -> bool {
    &&& forall|a: usize, b: usize|
        0 < b && a <= b ==> is_at_most(zero(), #[trigger] ratio_of::<F>(a, b)) && is_at_most(
            ratio_of::<F>(a, b),
            one(),
        )
    &&& forall|a: F| is_at_most(a, one()) ==> is_at_most(zero(), #[trigger] minus(one(), a))
    &&& forall|c: F, g: F|
        is_at_most(zero(), c) && defined(#[trigger] times(times(c, g), g)) ==> is_at_most(
            zero(),
            times(times(c, g), g),
        )
    &&& forall|a: F, b: F, c: F|
        is_at_most(zero(), a) && is_at_most(zero(), b) && is_at_most(zero(), c) && defined(
            #[trigger] fma(a, b, c),
        ) ==> is_at_most(zero(), fma(a, b, c))
}

/// Also where the type rounds, the second moments of the optimizer are never negative, as long as
/// they are defined.
pub proof fn law_rounded_second_moments<F: Float>(v: Seq<F>, g: Seq<F>, n: int)
    requires
        keeps_sign::<F>(),
        forall|i: int| 0 <= i < v.len() ==> is_at_most(zero(), #[trigger] v[i]),
        forall|i: int|
            0 <= i < n && i < v.len() ==> defined(
                times(times(minus(one(), beta2_of()), #[trigger] g[i]), g[i]),
            ) && defined(second_moment(v[i], g[i])),
    ensures
        second_moments(v, g, n).len() == v.len(),
        forall|i: int|
            0 <= i < v.len() ==> is_at_most(zero(), #[trigger] second_moments(v, g, n)[i]),
{
    assert forall|i: int| 0 <= i < v.len() implies is_at_most(
        zero(),
        #[trigger] second_moments(v, g, n)[i],
    ) by {
        assert(is_at_most(zero(), v[i]));
        if i < n {
            let b = beta2_of::<F>();
            let square = times(times(minus(one(), b), g[i]), g[i]);
            assert(is_at_most(zero(), b) && is_at_most(b, one()));
            assert(is_at_most(zero(), minus(one(), b)));
            assert(defined(square));
            assert(second_moment(v[i], g[i]) == fma(b, v[i], square));
        }
    }
}

/// Zero stays zero in spite of rounding, as far as the optimizer needs it.
pub open spec fn keeps_zero<F: Float>() -> bool {
    &&& forall|z: F, a: F|
        same_number(z, zero()) && defined(#[trigger] times(z, a)) ==> same_number(
            times(z, a),
            zero(),
        )
    &&& forall|z: F, a: F|
        same_number(z, zero()) && defined(#[trigger] over(z, a)) ==> same_number(over(z, a), zero())
    &&& forall|p: F, z: F|
        defined(p) && same_number(z, zero()) ==> same_number(#[trigger] minus(p, z), p)
}

/// What a step of the optimizer takes from a parameter: the learning rate times the corrected
/// first moment, and that over the root of the corrected second moment.
pub open spec fn step_parts<F: Float>(m: F, v: F, g: F, lr: F, t: usize) -> (F, F) {
    let (m1, v1) = (first_moment(m, g), second_moment(v, g));
    let above = times(lr, times(m1, bias_correction(beta1_of(), t)));
    let below = plus(root(times(v1, bias_correction(beta2_of(), t))), adam_eps_of());
    (above, over(above, below))
}

/// Also where the type rounds, a step with a learning rate of zero keeps the parameters, as long
/// as the step is defined.
pub proof fn law_rounded_zero_rate<F: Float>(
    p: Seq<F>,
    m: Seq<F>,
    v: Seq<F>,
    g: Seq<F>,
    lr: F,
    t: usize,
)
    requires
        keeps_zero::<F>(),
        same_number(lr, zero()),
        forall|i: int|
            0 <= i < p.len() ==> defined(#[trigger] p[i]) && defined(
                step_parts(m[i], v[i], g[i], lr, t).0,
            ) && defined(step_parts(m[i], v[i], g[i], lr, t).1),
    ensures
        adam_params(p, m, v, g, lr, t).len() == p.len(),
        forall|i: int|
            0 <= i < p.len() ==> same_number(#[trigger] adam_params(p, m, v, g, lr, t)[i], p[i]),
{
    assert forall|i: int| 0 <= i < p.len() implies same_number(
        #[trigger] adam_params(p, m, v, g, lr, t)[i],
        p[i],
    ) by {
        let (above, change) = step_parts(m[i], v[i], g[i], lr, t);
        assert(defined(p[i]));
        assert(same_number(above, zero()));
        assert(same_number(change, zero()));
        assert(adam_params(p, m, v, g, lr, t)[i] == minus(p[i], change));
    }
}

/// `got` is what an operation returned whose exact result is `exact`, which is not negative: the
/// relative error is at most `eps`.
pub open spec fn rounded<F: Float>(r: Reading<F>, exact: real, got: F, eps: real) -> bool {
    exact * (1real - eps) <= r.v(got) <= exact * (1real + eps)
}

/// The softmax of `x` rounds each of its operations with a relative error of at most `eps`.
pub open spec fn softmax_rounds<F: Float>(r: Reading<F>, x: Seq<F>, eps: real) -> bool {
    let (e, n) = (shifted_exps(x), x.len() as int);
    let total = plus_chain(e, zero(), n);
    let inv = over(one(), total);
    &&& 0real <= eps < 1real
    &&& r.v(zero()) == 0real
    &&& forall|k: int| 0 <= k < n ==> r.v(#[trigger] e[k]) >= 0real
    &&& forall|k: int|
        0 <= k < n ==> rounded(
            r,
            r.v(#[trigger] plus_chain(e, zero(), k)) + r.v(e[k]),
            plus(plus_chain(e, zero(), k), e[k]),
            eps,
        )
    &&& r.v(inv) >= 0real
    &&& 1real - eps <= r.v(total) * r.v(inv) <= 1real + eps
    &&& forall|k: int|
        0 <= k < n ==> rounded(r, r.v(#[trigger] e[k]) * r.v(inv), times(e[k], inv), eps)
}

/// The sum of the probabilities is one up to rounding: with a relative error of `eps` per
/// operation, it is between `(1 - eps)^2 / (1 + eps)^n` and `(1 + eps)^2 / (1 - eps)^n`.
pub proof fn law_rounded_softmax_sums_to_one<F: Float>(r: Reading<F>, x: Seq<F>, eps: real)
    requires
        softmax_rounds(r, x, eps),
    ensures
        ({
            let (n, s) = (x.len() as int, sum(|k: int| r.v(softmax_of(x)[k]), x.len() as int));
            let (lo, hi) = (1real - eps, 1real + eps);
            lo * lo <= s * nth_power(hi, n) && s * nth_power(lo, n) <= hi * hi
        }),
{
    let n = x.len() as int;
    let (e, w) = (shifted_exps(x), softmax_of(x));
    let total = plus_chain(e, zero(), n);
    let (t, inv) = (r.v(total), r.v(over(one(), total)));
    let (lo, hi) = (1real - eps, 1real + eps);
    let ev = |k: int| r.v(e[k]);
    let wv = |k: int| r.v(w[k]);
    let exact = sum(ev, n);
    let s = sum(wv, n);
    lemma_rounded_sum(r, x, eps, n);
    lemma_powers(lo, hi, n);
    // the sum of the rounded products
    let products = |k: int| inv * ev(k);
    lemma_sum_scaled(inv, ev, n);
    assert forall|k: int| 0 <= k < n implies products(k) * lo <= #[trigger] wv(k) <= products(k)
        * hi by {
        let a = ev(k);
        assert(rounded(r, r.v(e[k]) * inv, times(e[k], over(one(), total)), eps));
        assert(w[k] == times(e[k], over(one(), total)));
        assert(a * inv == inv * a) by (nonlinear_arith);
    }
    lemma_rounded_terms(products, wv, lo, hi, n);
    let (pl, ph) = (nth_power(lo, n), nth_power(hi, n));
    let q = inv * exact;
    // s <= q * hi and exact * pl <= t, so s * pl <= hi * (inv * t) <= hi * hi
    lemma_times_keeps(s, q * hi, pl);
    lemma_times_keeps(exact * pl, t, inv);
    lemma_times_keeps(t * inv, hi, hi);
    assert((q * hi) * pl == ((exact * pl) * inv) * hi) by {
        assert((inv * exact) * hi == hi * (inv * exact)) by (nonlinear_arith);
        assert((hi * (inv * exact)) * pl == hi * ((inv * exact) * pl)) by (nonlinear_arith);
        assert((inv * exact) * pl == (exact * pl) * inv) by (nonlinear_arith);
        let z = (exact * pl) * inv;
        assert(hi * z == z * hi) by (nonlinear_arith);
    }
    lemma_times_keeps((exact * pl) * inv, t * inv, hi);
    // q * lo <= s and t <= exact * ph, so lo * lo <= lo * (inv * t) <= s * ph
    lemma_times_keeps(q * lo, s, ph);
    lemma_times_keeps(t, exact * ph, inv);
    lemma_times_keeps(lo, t * inv, lo);
    assert((q * lo) * ph == ((exact * ph) * inv) * lo) by {
        assert((inv * exact) * lo == lo * (inv * exact)) by (nonlinear_arith);
        assert((lo * (inv * exact)) * ph == lo * ((inv * exact) * ph)) by (nonlinear_arith);
        assert((inv * exact) * ph == (exact * ph) * inv) by (nonlinear_arith);
        let z = (exact * ph) * inv;
        assert(lo * z == z * lo) by (nonlinear_arith);
    }
    lemma_times_keeps(t * inv, (exact * ph) * inv, lo);
}

/// A factor that is not negative keeps an inequality.
proof fn lemma_times_keeps(a: real, b: real, c: real)
    requires
        a <= b,
        c >= 0real,
    ensures
        a * c <= b * c,
{
    let d = b - a;
    assert(d * c >= 0real) by (nonlinear_arith)
        requires
            d >= 0real,
            c >= 0real,
    ;
    assert((b - a) * c == b * c - a * c) by (nonlinear_arith);
}

/// Powers of numbers around one.
proof fn lemma_powers(lo: real, hi: real, n: int)
    requires
        0real < lo <= 1real <= hi,
        0 <= n,
    ensures
        0real <= nth_power(lo, n) <= 1real <= nth_power(hi, n),
    decreases n,
{
    if n > 0 {
        lemma_powers(lo, hi, n - 1);
        let (a, b) = (nth_power(lo, n - 1), nth_power(hi, n - 1));
        lemma_times_keeps(0real, a, lo);
        assert(0real * lo == 0real) by (nonlinear_arith);
        assert(lo * a == a * lo) by (nonlinear_arith);
        lemma_times_keeps(lo, 1real, a);
        assert(1real * a == a) by (nonlinear_arith);
        lemma_times_keeps(1real, hi, b);
        assert(1real * b == b) by (nonlinear_arith);
    }
}

/// The rounded sum of the first `k` exponentials.
proof fn lemma_rounded_sum<F: Float>(r: Reading<F>, x: Seq<F>, eps: real, k: int)
    requires
        softmax_rounds(r, x, eps),
        0 <= k <= x.len(),
    ensures
        ({
            let exact = sum(|i: int| r.v(shifted_exps(x)[i]), k);
            let got = r.v(plus_chain(shifted_exps(x), zero(), k));
            &&& 0real <= exact
            &&& exact * nth_power(1real - eps, k) <= got <= exact * nth_power(1real + eps, k)
        }),
    decreases k,
{
    let e = shifted_exps(x);
    let ev = |i: int| r.v(e[i]);
    let (lo, hi) = (1real - eps, 1real + eps);
    if k == 0 {
        assert(0real * 1real == 0real) by (nonlinear_arith);
    } else {
        lemma_rounded_sum(r, x, eps, k - 1);
        lemma_powers(lo, hi, k - 1);
        let (exact, got, term) = (sum(ev, k - 1), r.v(plus_chain(e, zero(), k - 1)), ev(k - 1));
        let (a, b) = (nth_power(lo, k - 1), nth_power(hi, k - 1));
        assert(r.v(e[k - 1]) >= 0real);
        assert(rounded(r, got + term, plus_chain(e, zero(), k), eps));
        // from above
        lemma_times_keeps(1real, b, term);
        assert(1real * term == term) by (nonlinear_arith);
        assert(b * term == term * b) by (nonlinear_arith);
        assert((exact + term) * b == exact * b + term * b) by (nonlinear_arith);
        lemma_times_keeps(got + term, (exact + term) * b, hi);
        let all = exact + term;
        assert((all * b) * hi == all * (hi * b)) by (nonlinear_arith);
        // from below
        lemma_times_keeps(a, 1real, term);
        assert(a * term == term * a) by (nonlinear_arith);
        assert((exact + term) * a == exact * a + term * a) by (nonlinear_arith);
        lemma_times_keeps((exact + term) * a, got + term, lo);
        assert((all * a) * lo == all * (lo * a)) by (nonlinear_arith);
    }
}

/// The sum of the rounded products, where `products` are the exact ones.
proof fn lemma_rounded_terms(
    products: spec_fn(int) -> real,
    wv: spec_fn(int) -> real,
    lo: real,
    hi: real,
    n: int,
)
    requires
        0 <= n,
        forall|k: int| 0 <= k < n ==> products(k) * lo <= #[trigger] wv(k) <= products(k) * hi,
    ensures
        sum(products, n) * lo <= sum(wv, n) <= sum(products, n) * hi,
    decreases n,
{
    if n > 0 {
        lemma_rounded_terms(products, wv, lo, hi, n - 1);
        let (a, b) = (sum(products, n - 1), products(n - 1));
        assert((a + b) * lo == a * lo + b * lo) by (nonlinear_arith);
        assert((a + b) * hi == a * hi + b * hi) by (nonlinear_arith);
        assert(products(n - 1) * lo <= wv(n - 1));
    } else {
        assert(0real * lo == 0real) by (nonlinear_arith);
        assert(0real * hi == 0real) by (nonlinear_arith);
    }
}

} // verus!
