//! What the random draws are for: parameters around zero, and documents that follow the scores.
use vstd::prelude::*;

use crate::derivative::{
    law_softmax_is_distribution, lemma_cancel, lemma_factor_keeps_order, lemma_product_sign,
    lemma_quotient_sign, lemma_sum_not_negative,
};
use crate::kernels::softmax_of;
use crate::laws_exact::{law_choice_is_proportional, law_uniform_is_a_fraction};
use crate::laws_loss::law_softmax_weighs_exponentials;
use crate::model::{init_std, Model};
use crate::network::network;
use crate::reading::{Curves, Reading};
use crate::rng::{advanced, advanced_by, choice_of, gauss_of, output, uniform_of};
use crate::sample::{generated, next_token, temperature, tempered};
use crate::scalar::{
    exponential, logarithm, minus, negated, num, one, pi_num, root, times, zero, Float,
};
use crate::sums::{lemma_sum_eq, lemma_sum_plus, lemma_sum_scaled, sum};

verus! {

/// Scores are divided by one half before a token is sampled: they are doubled.
pub proof fn law_temperature_doubles_scores<F: Float>(r: Reading<F>, logits: Seq<F>, k: int)
    requires
        r.exact(),
        0 <= k < logits.len(),
    ensures
        tempered(logits).len() == logits.len(),
        r.v(tempered(logits)[k]) == 2real * r.v(logits[k]),
{
    let t = r.v(temperature::<F>());
    assert(t * 2real == 1real);
    let (y, x) = (r.v(tempered(logits)[k]), r.v(logits[k]));
    assert(t != 0real);
    assert(y * t == x);
    assert((y * t) * 2real == y * (t * 2real)) by (nonlinear_arith);
    assert(y * 1real == y) by (nonlinear_arith);
}

/// Sampling sharpens: the ratio of the probabilities that two tokens are sampled with is the
/// square of the ratio of their plain probabilities.
pub proof fn law_sampling_squares_ratios<F: Float>(
    r: Reading<F>,
    c: Curves,
    logits: Seq<F>,
    a: int,
    b: int,
)
    requires
        r.exact(),
        c.known(),
        r.follows(c),
        0 <= a < logits.len(),
        0 <= b < logits.len(),
    ensures
        ({
            let (s, p) = (softmax_of(tempered(logits)), softmax_of(logits));
            let (pa, pb) = (r.v(p[a]), r.v(p[b]));
            r.v(s[a]) * (pb * pb) == r.v(s[b]) * (pa * pa)
        }),
{
    let n = logits.len() as int;
    let hot = tempered(logits);
    law_softmax_weighs_exponentials(r, c, logits, a);
    law_softmax_weighs_exponentials(r, c, logits, b);
    law_softmax_weighs_exponentials(r, c, hot, a);
    law_softmax_weighs_exponentials(r, c, hot, b);
    law_temperature_doubles_scores(r, logits, a);
    law_temperature_doubles_scores(r, logits, b);
    let z = sum(|k: int| c.e(r.v(logits[k])), n);
    let y = sum(|k: int| c.e(r.v(hot[k])), n);
    let (sa, sb) = (r.v(softmax_of(hot)[a]), r.v(softmax_of(hot)[b]));
    let (pa, pb) = (r.v(softmax_of(logits)[a]), r.v(softmax_of(logits)[b]));
    let (xa, xb) = (r.v(logits[a]), r.v(logits[b]));
    assert(c.e(xa + xa) == c.e(xa) * c.e(xa));
    assert(c.e(xb + xb) == c.e(xb) * c.e(xb));
    // both sides, times y z z, are the same product of exponentials
    let (qa, qb) = (pa * pa, pb * pb);
    lemma_square(pa, z);
    lemma_square(pb, z);
    let w = z * z;
    lemma_product_sign(z, z);
    lemma_product_sign(y, w);
    lemma_cross(sa, y, qb, w);
    lemma_cross(sb, y, qa, w);
    let (ea, eb) = (c.e(xa) * c.e(xa), c.e(xb) * c.e(xb));
    assert(ea * eb == eb * ea) by (nonlinear_arith);
    lemma_cancel(sa * qb, sb * qa, y * w);
}

/// The square of a product.
proof fn lemma_square(p: real, z: real)
    ensures
        (p * p) * (z * z) == (p * z) * (p * z),
{
    let w = z * z;
    assert((p * p) * w == p * (p * w)) by (nonlinear_arith);
    assert(p * (z * z) == (p * z) * z) by (nonlinear_arith);
    let q = p * z;
    assert(p * (q * z) == q * (p * z)) by (nonlinear_arith);
}

/// The product of two products.
proof fn lemma_cross(a: real, y: real, b: real, w: real)
    ensures
        (a * b) * (y * w) == (a * y) * (b * w),
{
    let z = y * w;
    assert((a * b) * z == a * (b * z)) by (nonlinear_arith);
    assert(b * (y * w) == y * (b * w)) by (nonlinear_arith);
    let x = b * w;
    assert(a * (y * x) == (a * y) * x) by (nonlinear_arith);
}

/// The likeliest token is at least as likely under sampling as by the plain scores.
pub proof fn law_sampling_favours_the_likeliest<F: Float>(
    r: Reading<F>,
    c: Curves,
    logits: Seq<F>,
    a: int,
)
    requires
        r.exact(),
        c.known(),
        r.follows(c),
        0 <= a < logits.len(),
        forall|k: int| 0 <= k < logits.len() ==> r.v(#[trigger] logits[k]) <= r.v(logits[a]),
    ensures
        r.v(softmax_of(logits)[a]) <= r.v(softmax_of(tempered(logits))[a]),
{
    let n = logits.len() as int;
    let hot = tempered(logits);
    law_softmax_weighs_exponentials(r, c, logits, a);
    law_softmax_weighs_exponentials(r, c, hot, a);
    let (ev, hv) = (|k: int| c.e(r.v(logits[k])), |k: int| c.e(r.v(hot[k])));
    let (z, y) = (sum(ev, n), sum(hv, n));
    let top = ev(a);
    // the doubled scores weigh no more than all scores times the largest
    let room = |k: int| top * ev(k) - hv(k);
    assert forall|k: int| 0 <= k < n implies #[trigger] room(k) >= 0real by {
        law_temperature_doubles_scores(r, logits, k);
        let x = r.v(logits[k]);
        let e = ev(k);
        assert(c.e(x + x) == c.e(x) * c.e(x));
        assert(hv(k) == e * e);
        assert(r.v(logits[k]) <= r.v(logits[a]));
        assert(c.e(x) <= c.e(r.v(logits[a])));
        assert(c.e(x) > 0real);
        lemma_factor_keeps_order(e, top, e);
    }
    lemma_sum_scaled(top, ev, n);
    lemma_sum_plus(hv, room, n);
    lemma_sum_eq(|k: int| top * ev(k), |k: int| hv(k) + room(k), n);
    lemma_sum_not_negative(room, n);
    assert(y <= top * z);
    let (p, s) = (r.v(softmax_of(logits)[a]), r.v(softmax_of(hot)[a]));
    law_temperature_doubles_scores(r, logits, a);
    let x = r.v(logits[a]);
    assert(c.e(x + x) == c.e(x) * c.e(x));
    assert(s * y == top * top);
    assert(p * z == top);
    // p y <= p (top z) = top top = s y
    assert(top > 0real) by {
        assert(c.e(x) > 0real);
    }
    lemma_quotient_sign(p, z, top);
    lemma_factor_keeps_order(y, top * z, p);
    assert((top * z) * p == top * (p * z)) by (nonlinear_arith);
    assert(y * p == p * y) by (nonlinear_arith);
    lemma_factor_keeps_order(p, s, y);
}

/// The token that is sampled behind `pos + 1` tokens: put the exponentials of the doubled scores
/// end to end; the uniform number `u`, as a part of the whole length, falls on the token.
pub proof fn law_next_token_follows_the_scores<F: Float>(
    r: Reading<F>,
    c: Curves,
    m: Model,
    p: Seq<F>,
    tokens: Seq<usize>,
    pos: int,
    s: Seq<u64>,
    u: real,
)
    requires
        r.exact(),
        c.known(),
        r.follows(c),
        m.wf(),
        m.vocab_size >= 1,
        0 <= pos,
        u * 0x20_0000_0000_0000real == (output(s) >> 11) as real,
    ensures
        ({
            let x = network(m, p, tokens, pos + 1).logits[pos];
            let t = next_token(m, p, tokens, pos, s);
            let v = m.vocab_size as int;
            let whole = sum(|k: int| c.e(2real * r.v(x[k])), v);
            &&& 0 <= t < v
            &&& sum(|k: int| c.e(2real * r.v(x[k])), t) <= u * whole
            &&& u * whole < sum(|k: int| c.e(2real * r.v(x[k])), t + 1)
        }),
{
    let x = network(m, p, tokens, pos + 1).logits[pos];
    let v = m.vocab_size as int;
    assert(m.lm_head.of(p).len() == v);
    assert(x.len() == v);
    lemma_sampled(r, c, x, s, u);
}

/// The part of [`law_next_token_follows_the_scores`] that speaks of the scores.
proof fn lemma_sampled<F: Float>(r: Reading<F>, c: Curves, x: Seq<F>, s: Seq<u64>, u: real)
    requires
        r.exact(),
        c.known(),
        r.follows(c),
        1 <= x.len(),
        u * 0x20_0000_0000_0000real == (output(s) >> 11) as real,
    ensures
        ({
            let t = choice_of(softmax_of(tempered(x)), s);
            let v = x.len() as int;
            let whole = sum(|k: int| c.e(2real * r.v(x[k])), v);
            &&& 0 <= t < v
            &&& sum(|k: int| c.e(2real * r.v(x[k])), t) <= u * whole
            &&& u * whole < sum(|k: int| c.e(2real * r.v(x[k])), t + 1)
        }),
{
    let v = x.len() as int;
    let hot = tempered(x);
    let q = softmax_of(hot);
    let t = choice_of(q, s);
    assert forall|a: F| r.v(#[trigger] exponential(a)) > 0real by {
        assert(c.e(r.v(a)) > 0real);
    }
    law_softmax_is_distribution(r, hot);
    assert forall|i: int| 0 <= i < q.len() implies r.v(#[trigger] q[i]) >= 0real by {}
    law_choice_is_proportional(r, q, s);
    let full = r.v(uniform_of::<F>(s));
    lemma_cancel(u, full, 0x20_0000_0000_0000real);
    let (qv, ev) = (|k: int| r.v(q[k]), |k: int| c.e(2real * r.v(x[k])));
    let hv = |k: int| c.e(r.v(hot[k]));
    let z = sum(hv, v);
    assert forall|k: int| 0 <= k < v implies #[trigger] ev(k) == hv(k) by {
        law_temperature_doubles_scores(r, x, k);
    }
    lemma_sum_eq(ev, hv, v);
    law_softmax_weighs_exponentials(r, c, hot, 0);
    assert forall|k: int| 0 <= k < v implies #[trigger] ev(k) == z * qv(k) by {
        law_softmax_weighs_exponentials(r, c, hot, k);
        let y = qv(k);
        assert(ev(k) == hv(k));
        assert(y * z == z * y) by (nonlinear_arith);
    }
    lemma_sum_scaled(z, qv, t);
    lemma_sum_scaled(z, qv, t + 1);
    lemma_sum_eq(ev, |k: int| z * qv(k), t);
    lemma_sum_eq(ev, |k: int| z * qv(k), t + 1);
    let (lo, hi) = (sum(qv, t), sum(qv, t + 1));
    assert(sum(qv, v) == 1real);
    assert(u * 1real == u) by (nonlinear_arith);
    lemma_factor_keeps_order(lo, u, z);
    lemma_factor_keeps_order(hi, u, z);
    assert(lo * z == z * lo) by (nonlinear_arith);
    assert(hi * z == z * hi) by (nonlinear_arith);
}

/// A sampled document is drawn token by token. Behind each token comes the one that is sampled
/// there, with the next number of the generator. Sampling ends where the boundary token is
/// sampled, or at the end of the context, and the boundary token is kept only at the start.
pub proof fn law_document_is_drawn_token_by_token<F: Float>(
    m: Model,
    p: Seq<F>,
    bos: usize,
    s: Seq<u64>,
)
    requires
        m.wf(),
    ensures
        ({
            let (out, end) = generated(m, p, bos, seq![bos], 0, s);
            let block = m.shape.block_size as int;
            &&& 1 <= out.len() <= block + 1
            &&& out[0] == bos
            &&& forall|pos: int|
                0 <= pos < out.len() - 1 ==> #[trigger] out[pos + 1] == next_token(
                    m,
                    p,
                    out.take(pos + 1),
                    pos,
                    advanced_by(s, pos),
                ) as usize && next_token(m, p, out.take(pos + 1), pos, advanced_by(s, pos)) != bos
            &&& out.len() <= block ==> next_token(
                m,
                p,
                out,
                out.len() - 1,
                advanced_by(s, out.len() - 1),
            ) == bos && end == advanced_by(s, out.len() as int)
            &&& out.len() == block + 1 ==> end == advanced_by(s, block)
        }),
{
    lemma_drawn(m, p, bos, seq![bos], 0, s, s);
    let out = generated(m, p, bos, seq![bos], 0, s).0;
    assert(out[0] == out.take(1)[0]);
}

/// The part of [`law_document_is_drawn_token_by_token`] that speaks of the tokens behind
/// `tokens`.
proof fn lemma_drawn<F: Float>(
    m: Model,
    p: Seq<F>,
    bos: usize,
    tokens: Seq<usize>,
    pos: int,
    s0: Seq<u64>,
    s: Seq<u64>,
)
    requires
        m.wf(),
        0 <= pos <= m.shape.block_size,
        tokens.len() == pos + 1,
        s == advanced_by(s0, pos),
    ensures
        ({
            let (out, end) = generated(m, p, bos, tokens, pos, s);
            let block = m.shape.block_size as int;
            &&& tokens.len() <= out.len() <= block + 1
            &&& out.take(tokens.len() as int) == tokens
            &&& forall|k: int|
                pos <= k < out.len() - 1 ==> #[trigger] out[k + 1] == next_token(
                    m,
                    p,
                    out.take(k + 1),
                    k,
                    advanced_by(s0, k),
                ) as usize && next_token(m, p, out.take(k + 1), k, advanced_by(s0, k)) != bos
            &&& out.len() <= block ==> next_token(
                m,
                p,
                out,
                out.len() - 1,
                advanced_by(s0, out.len() - 1),
            ) == bos && end == advanced_by(s0, out.len() as int)
            &&& out.len() == block + 1 ==> end == advanced_by(s0, block)
        }),
    decreases m.shape.block_size - pos,
{
    assert(tokens.take(tokens.len() as int) =~= tokens);
    if pos < m.shape.block_size {
        let next = next_token(m, p, tokens, pos, s);
        if next != bos {
            let more = tokens.push(next as usize);
            lemma_drawn(m, p, bos, more, pos + 1, s0, advanced(s));
            let out = generated(m, p, bos, more, pos + 1, advanced(s)).0;
            assert(out.take(tokens.len() as int) =~= out.take(more.len() as int).take(
                tokens.len() as int,
            ));
            assert(more.take(tokens.len() as int) =~= tokens);
            assert(out[pos + 1] == out.take(more.len() as int)[pos + 1]);
        }
    }
}

/// The numbers from which a Gaussian number is made: `u1` and `u2` are the two uniform numbers.
/// The draw is the mean, plus the standard deviation times the root of `-2 ln(1 - u1)` times the
/// cosine of `u2` of a turn. So it lies on the side of the mean that the cosine says: not below it
/// in the first and the last quarter of the turn, and not above it in between.
pub proof fn law_gauss_is_box_muller<F: Float>(
    r: Reading<F>,
    c: Curves,
    s: Seq<u64>,
    mean: F,
    std: F,
    u1: real,
    u2: real,
) -> (rho: real)
    requires
        r.exact(),
        c.known(),
        r.follows(c),
        r.roots_and_powers(),
        r.v(std) >= 0real,
        u1 * 0x20_0000_0000_0000real == (output(s) >> 11) as real,
        u2 * 0x20_0000_0000_0000real == (output(advanced(s)) >> 11) as real,
    ensures
        0real <= u1 < 1real,
        0real <= u2 < 1real,
        rho >= 0real,
        rho * rho == -2real * c.l(1real - u1),
        r.v(gauss_of(s, mean, std)) == r.v(mean) + (r.v(std) * rho) * c.c((2real * c.pi) * u2),
        4real * u2 <= 1real ==> r.v(gauss_of(s, mean, std)) >= r.v(mean),
        1real <= 4real * u2 <= 3real ==> r.v(gauss_of(s, mean, std)) <= r.v(mean),
        3real <= 4real * u2 ==> r.v(gauss_of(s, mean, std)) >= r.v(mean),
{
    let (a, b) = (uniform_of::<F>(s), uniform_of::<F>(advanced(s)));
    law_uniform_is_a_fraction(r, s);
    law_uniform_is_a_fraction(r, advanced(s));
    lemma_cancel(u1, r.v(a), 0x20_0000_0000_0000real);
    lemma_cancel(u2, r.v(b), 0x20_0000_0000_0000real);
    let low = minus(one(), a);
    let x = 1real - u1;
    assert(r.v(low) == x);
    let l = c.l(x);
    assert(c.e(l) == x);
    lemma_exp_of_zero(c);
    assert(c.e(l) <= c.e(0real) <==> l <= 0real);
    let inner = times(negated(num(2)), logarithm(low));
    assert(r.v(inner) == -2real * l);
    let rho = r.v(root(inner));
    let theta = times(times(num(2), pi_num()), b);
    let turn = (2real * c.pi) * u2;
    assert(r.v(theta) == turn);
    assert(turn == 2real * (c.pi * u2)) by {
        let pi = c.pi;
        assert((2real * pi) * u2 == 2real * (pi * u2)) by (nonlinear_arith);
    }
    lemma_turn(c.pi, u2);
    let (d, k) = (r.v(std) * rho, c.c(turn));
    let sd = r.v(std);
    assert(d >= 0real) by (nonlinear_arith)
        requires
            sd >= 0real,
            rho >= 0real,
            d == sd * rho,
    ;
    if k >= 0real {
        assert(d * k >= 0real) by (nonlinear_arith)
            requires
                d >= 0real,
                k >= 0real,
        ;
    }
    if k <= 0real {
        assert(d * k <= 0real) by (nonlinear_arith)
            requires
                d >= 0real,
                k <= 0real,
        ;
    }
    rho
}

/// The exponential of zero.
proof fn lemma_exp_of_zero(c: Curves)
    requires
        c.known(),
    ensures
        c.e(0real) == 1real,
{
    let u = c.e(0real);
    assert(c.e(0real + 0real) == u * u);
    assert(u > 0real);
    assert(1real * u == u) by (nonlinear_arith);
    lemma_cancel(u, 1real, u);
}

/// Parts of a turn.
proof fn lemma_turn(pi: real, u: real)
    requires
        pi > 0real,
        0real <= u < 1real,
    ensures
        0real <= pi * u,
        4real * u <= 1real ==> 4real * (pi * u) <= pi,
        4real * u >= 1real ==> 4real * (pi * u) >= pi,
        4real * u <= 3real ==> 4real * (pi * u) <= 3real * pi,
        4real * u >= 3real ==> 4real * (pi * u) >= 3real * pi,
        pi * u <= pi,
{
    let q = 4real * u;
    lemma_factor_keeps_order(q, 1real, pi);
    lemma_factor_keeps_order(1real, q, pi);
    lemma_factor_keeps_order(q, 3real, pi);
    lemma_factor_keeps_order(3real, q, pi);
    lemma_factor_keeps_order(0real, u, pi);
    lemma_factor_keeps_order(u, 1real, pi);
    assert((4real * u) * pi == 4real * (pi * u)) by (nonlinear_arith);
    assert(1real * pi == pi) by (nonlinear_arith);
    assert(0real * pi == 0real) by (nonlinear_arith);
    assert(u * pi == pi * u) by (nonlinear_arith);
}

/// The initial parameters are Gaussian numbers around zero with the standard deviation `0.08`,
/// and parameter `i` is made of the numbers `2 i` and `2 i + 1` of the generator.
pub proof fn law_initial_parameters_are_gaussian<F: Float>(
    r: Reading<F>,
    c: Curves,
    s: Seq<u64>,
    i: int,
    u1: real,
    u2: real,
) -> (rho: real)
    requires
        r.exact(),
        c.known(),
        r.follows(c),
        r.roots_and_powers(),
        0 <= i,
        u1 * 0x20_0000_0000_0000real == (output(advanced_by(s, 2 * i)) >> 11) as real,
        u2 * 0x20_0000_0000_0000real == (output(advanced_by(s, 2 * i + 1)) >> 11) as real,
    ensures
        rho >= 0real,
        rho * rho == -2real * c.l(1real - u1),
        100real * r.v(gauss_of(advanced_by(s, 2 * i), zero::<F>(), init_std())) == 8real * (rho
            * c.c((2real * c.pi) * u2)),
{
    let state = advanced_by(s, 2 * i);
    assert(advanced_by(s, 2 * i + 1) == advanced(state));
    let sd = r.v(init_std::<F>());
    assert(sd * 100real == 8real);
    let rho = law_gauss_is_box_muller(r, c, state, zero::<F>(), init_std(), u1, u2);
    let k = c.c((2real * c.pi) * u2);
    assert(100real * ((sd * rho) * k) == (sd * 100real) * (rho * k)) by {
        assert((sd * rho) * k == sd * (rho * k)) by (nonlinear_arith);
        let z = rho * k;
        assert(100real * (sd * z) == (sd * 100real) * z) by (nonlinear_arith);
    }
    rho
}

} // verus!
