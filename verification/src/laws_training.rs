//! What a run of training is for: each step follows the mean gradient of its documents, and the
//! loss log tells how the loss went.
use vstd::prelude::*;

use crate::adam::{
    adam_eps_of, adam_param, beta1_of, beta2_of, bias_correction, first_moment, second_moment,
};
use crate::dataset::{tokens_of, Dataset, N_EVAL_DOCS};
use crate::derivative::{lemma_cancel, lemma_quotient_sign};
use crate::document::{doc_grad, doc_loss};
use crate::laws::law_loss_log;
use crate::laws_exact::{
    document_entry, law_batch_is_mean, law_rate_decays, law_run_keeps_second_moments_nonnegative,
    lemma_has_parameters, lemma_not_negative, lemma_power_of_fraction, owners_exist,
};
use crate::model::{Model, BLOCK_SIZE, N_EMBD, N_HEAD, N_LAYER};
use crate::reading::{nth_power, Reading};
use crate::sample::NUM_SAMPLES;
use crate::scalar::{minus, one, over, plus, power, root, times, Float};
use crate::sums::{lemma_sum_eq, sum};
use crate::train::{
    batch_grad, batch_loss, inv_batch, rate_at, row_due, run_after, step_tokens, zero_vec, Plan,
    DEFAULT_BATCH_SIZE, DEFAULT_EVAL_EVERY, DEFAULT_NUM_STEPS, DEFAULT_THREADS,
};

verus! {

/// The loss of a step is the mean over its documents of the loss of each, at the parameters
/// before the step. The documents of step `steps`, counted from one, are the next `batch` of the
/// training documents, round and round.
pub proof fn law_step_loss_is_the_mean<F: Float>(
    r: Reading<F>,
    m: Model,
    data: Dataset,
    plan: Plan<F>,
    p: Seq<F>,
    steps: int,
)
    requires
        r.exact(),
        m.wf(),
        1 <= steps,
        0 < plan.batch,
        0 <= plan.workers,
        owners_exist(plan, steps),
    ensures
        r.v(run_after(m, data, plan, p, steps).loss) * (plan.batch as real) == sum(
            |k: int|
                r.v(
                    doc_loss(
                        m,
                        run_after(m, data, plan, p, steps - 1).p,
                        tokens_of(
                            data.uchars@,
                            data.docs@[((steps - 1) * plan.batch + k) % data.n_train as int]@,
                        ),
                    ),
                ),
            plan.batch as int,
        ),
{
    let run = run_after(m, data, plan, p, steps - 1);
    let batch = plan.batch as int;
    lemma_has_parameters(m);
    law_batch_is_mean(r, m, data, plan, run.p, steps, 0);
    let total = r.v(batch_loss(m, data, plan, run.p, steps, plan.workers));
    let (inv, b) = (r.v(inv_batch::<F>(plan.batch)), plan.batch as real);
    assert((total * inv) * b == total * (inv * b)) by (nonlinear_arith);
    assert(total * 1real == total) by (nonlinear_arith);
    lemma_sum_eq(
        |k: int| r.v(doc_loss(m, run.p, step_tokens(data, steps, plan.batch as int, k))),
        |k: int|
            r.v(
                doc_loss(
                    m,
                    run_after(m, data, plan, p, steps - 1).p,
                    tokens_of(
                        data.uchars@,
                        data.docs@[((steps - 1) * plan.batch + k) % data.n_train as int]@,
                    ),
                ),
            ),
        batch,
    );
}

/// What a step does to parameter `x`. Its gradient `g` is the mean over the documents of the step
/// of what each alone adds to it. The moments move towards the gradient and its square, by 15 and
/// by 1 in 100. The parameter moves against the first moment, corrected for its start at zero,
/// over the root of the corrected second moment plus one hundred-millionth, times a learning rate
/// that falls in a straight line from its peak to zero over the run.
///
/// `b1` and `b2` are the decays of the moments, `eps` is the hundred-millionth and `rate` the
/// learning rate of the step. The result is the root of the corrected second moment.
pub proof fn law_step_follows_the_mean_gradient<F: Float>(
    r: Reading<F>,
    m: Model,
    data: Dataset,
    plan: Plan<F>,
    p: Seq<F>,
    steps: int,
    x: int,
    g: real,
    b1: real,
    b2: real,
    eps: real,
    rate: real,
) -> (s: real)
    requires
        r.exact(),
        r.roots_and_powers(),
        m.wf(),
        p.len() == m.n_params,
        1 <= steps <= plan.num_steps,
        steps <= i32::MAX,
        0 < plan.batch,
        0 <= plan.workers,
        owners_exist(plan, steps),
        0 <= x < m.n_params,
        g * (plan.batch as real) == sum(
            |k: int|
                r.v(
                    doc_grad(
                        m,
                        run_after(m, data, plan, p, steps - 1).p,
                        tokens_of(
                            data.uchars@,
                            data.docs@[((steps - 1) * plan.batch + k) % data.n_train as int]@,
                        ),
                        zero_vec(m.n_params as int),
                    )[x],
                ),
            plan.batch as int,
        ),
        b1 * 100real == 85real,
        b2 * 100real == 99real,
        eps * 100_000_000real == 1real,
        rate * (plan.num_steps as real) == r.v(plan.lr) * ((plan.num_steps - (steps - 1)) as real),
    ensures
        s >= 0real,
        ({
            let (a, b) = (
                run_after(m, data, plan, p, steps - 1),
                run_after(m, data, plan, p, steps),
            );
            &&& b.p.len() == p.len()
            &&& b.m.len() == p.len()
            &&& 100real * r.v(b.m[x]) == 85real * r.v(a.m[x]) + 15real * g
            &&& 100real * r.v(b.v[x]) == 99real * r.v(a.v[x]) + g * g
            &&& (s * s) * (1real - nth_power(b2, steps)) == r.v(b.v[x])
            &&& ((r.v(a.p[x]) - r.v(b.p[x])) * (s + eps)) * (1real - nth_power(b1, steps)) == rate
                * r.v(b.m[x])
        }),
{
    let (a, b) = (run_after(m, data, plan, p, steps - 1), run_after(m, data, plan, p, steps));
    let grad = batch_grad(m, data, plan, a.p, steps, plan.workers);
    lemma_run_sized(m, data, plan, p, steps - 1);
    lemma_run_sized(m, data, plan, p, steps);
    law_run_keeps_second_moments_nonnegative(r, m, data, plan, p, steps - 1);
    law_run_keeps_second_moments_nonnegative(r, m, data, plan, p, steps);
    law_batch_is_mean(r, m, data, plan, a.p, steps, x);
    let (batch, n) = (plan.batch as real, plan.batch as int);
    let inv = r.v(inv_batch::<F>(plan.batch));
    let entries = |k: int| document_entry(r, m, data, plan.batch as int, a.p, steps, k, x);
    lemma_sum_eq(
        entries,
        |k: int|
            r.v(
                doc_grad(
                    m,
                    run_after(m, data, plan, p, steps - 1).p,
                    tokens_of(
                        data.uchars@,
                        data.docs@[((steps - 1) * plan.batch + k) % data.n_train as int]@,
                    ),
                    zero_vec(m.n_params as int),
                )[x],
            ),
        n,
    );
    // the gradient of the step
    let total = sum(entries, n);
    assert(r.v(grad[x]) == inv * total);
    assert((inv * total) * batch == total * (inv * batch)) by (nonlinear_arith);
    assert(total * 1real == total) by (nonlinear_arith);
    lemma_cancel(r.v(grad[x]), g, batch);
    // the learning rate of the step
    let lr = rate_at(plan.lr, (steps - 1) as usize, plan.num_steps);
    law_rate_decays(r, plan.lr, (steps - 1) as usize, plan.num_steps);
    lemma_cancel(r.v(lr), rate, plan.num_steps as real);
    let t = steps as usize;
    assert(t as i32 == steps);
    assert(b.m[x] == first_moment(a.m[x], grad[x]));
    assert(b.v[x] == second_moment(a.v[x], grad[x]));
    assert(b.p[x] == adam_param(a.p[x], b.m[x], b.v[x], lr, t));
    lemma_cancel(b1, r.v(beta1_of::<F>()), 100real);
    lemma_cancel(b2, r.v(beta2_of::<F>()), 100real);
    lemma_cancel(eps, r.v(adam_eps_of::<F>()), 100_000_000real);
    let (m0, v0) = (r.v(a.m[x]), r.v(a.v[x]));
    lemma_moments(b1, b2, m0, v0, g);
    lemma_parameter(r, a.p[x], b.m[x], b.v[x], lr, t)
}

/// A run keeps the number of parameters.
proof fn lemma_run_sized<F: Float>(
    m: Model,
    data: Dataset,
    plan: Plan<F>,
    p: Seq<F>,
    steps: int,
)
    requires
        p.len() == m.n_params,
    ensures
        run_after(m, data, plan, p, steps).p.len() == p.len(),
        run_after(m, data, plan, p, steps).m.len() == p.len(),
    decreases steps,
{
    if steps > 0 {
        lemma_run_sized(m, data, plan, p, steps - 1);
    }
}

/// The moments after a gradient.
proof fn lemma_moments(b1: real, b2: real, m: real, v: real, g: real)
    requires
        b1 * 100real == 85real,
        b2 * 100real == 99real,
    ensures
        100real * (b1 * m + (1real - b1) * g) == 85real * m + 15real * g,
        100real * (b2 * v + ((1real - b2) * g) * g) == 99real * v + g * g,
{
    let (c1, c2) = (1real - b1, 1real - b2);
    assert(100real * (b1 * m) == (b1 * 100real) * m) by (nonlinear_arith);
    assert(100real * (c1 * g) == (c1 * 100real) * g) by (nonlinear_arith);
    assert(100real * (b2 * v) == (b2 * 100real) * v) by (nonlinear_arith);
    let q = g * g;
    assert((c2 * g) * g == c2 * (g * g)) by (nonlinear_arith);
    assert(100real * (c2 * q) == (c2 * 100real) * q) by (nonlinear_arith);
    assert(1real * q == q) by (nonlinear_arith);
}

/// The parameter after a step, where `m1` and `v1` are the moments after it.
proof fn lemma_parameter<F: Float>(r: Reading<F>, p: F, m1: F, v1: F, lr: F, t: usize) -> (s: real)
    requires
        r.exact(),
        r.roots_and_powers(),
        1 <= t <= i32::MAX,
        r.v(v1) >= 0real,
    ensures
        s >= 0real,
        (s * s) * (1real - nth_power(r.v(beta2_of::<F>()), t as int)) == r.v(v1),
        ((r.v(p) - r.v(adam_param(p, m1, v1, lr, t))) * (s + r.v(adam_eps_of::<F>()))) * (1real
            - nth_power(r.v(beta1_of::<F>()), t as int)) == r.v(lr) * r.v(m1),
{
    let n = t as i32;
    assert(n == t);
    let (b1, b2) = (r.v(beta1_of::<F>()), r.v(beta2_of::<F>()));
    assert(b1 * 100real == 85real);
    assert(b2 * 100real == 99real);
    lemma_power_of_fraction(b1, n as int);
    lemma_power_of_fraction(b2, n as int);
    let (l1, l2) = (
        minus(one(), power(beta1_of::<F>(), n)),
        minus(one(), power(beta2_of::<F>(), n)),
    );
    let (d1, d2) = (r.v(l1), r.v(l2));
    let (c1, c2) = (
        r.v(bias_correction(beta1_of::<F>(), t)),
        r.v(bias_correction(beta2_of::<F>(), t)),
    );
    assert(c1 * d1 == 1real);
    assert(c2 * d2 == 1real);
    lemma_quotient_sign(c2, d2, 1real);
    let (mv, vv, rate) = (r.v(m1), r.v(v1), r.v(lr));
    lemma_not_negative(vv, c2);
    let inner = times(v1, bias_correction(beta2_of(), t));
    let s = r.v(root(inner));
    assert(s * s == vv * c2);
    assert((vv * c2) * d2 == vv * (c2 * d2)) by (nonlinear_arith);
    assert(vv * 1real == vv) by (nonlinear_arith);
    let above = times(lr, times(m1, bias_correction(beta1_of(), t)));
    let below = plus(root(inner), adam_eps_of());
    let eps = r.v(adam_eps_of::<F>());
    assert(eps * 100_000_000real == 1real);
    assert(r.v(below) == s + eps);
    assert(r.v(below) > 0real);
    let change = r.v(over(above, below));
    assert(change * (s + eps) == rate * (mv * c1));
    assert((rate * (mv * c1)) * d1 == rate * mv) by {
        let z = mv * c1;
        assert((rate * z) * d1 == rate * (z * d1)) by (nonlinear_arith);
        assert((mv * c1) * d1 == mv * (c1 * d1)) by (nonlinear_arith);
        assert(mv * 1real == mv) by (nonlinear_arith);
    }
    s
}

/// Training starts from rest: before the first step the parameters are the given ones and both
/// moments are zero.
pub proof fn law_run_starts_from_rest<F: Float>(
    r: Reading<F>,
    m: Model,
    data: Dataset,
    plan: Plan<F>,
    p: Seq<F>,
    x: int,
)
    requires
        r.exact(),
        0 <= x < m.n_params,
    ensures
        run_after(m, data, plan, p, 0).p == p,
        r.v(run_after(m, data, plan, p, 0).m[x]) == 0real,
        r.v(run_after(m, data, plan, p, 0).v[x]) == 0real,
{
}

/// The losses of the steps behind step `from`, up to step `to`.
pub open spec fn losses_between<F: Float>(
    r: Reading<F>,
    m: Model,
    data: Dataset,
    plan: Plan<F>,
    p: Seq<F>,
    from: int,
    to: int,
) -> real {
    sum(|k: int| r.v(run_after(m, data, plan, p, from + 1 + k).loss), to - from)
}

/// A row of the loss log stands at every step that the interval divides and at the last step, and
/// holds the mean of the losses of the steps behind the row before it.
pub proof fn law_log_rows_hold_interval_means<F: Float>(
    r: Reading<F>,
    m: Model,
    data: Dataset,
    plan: Plan<F>,
    p: Seq<F>,
    steps: int,
)
    requires
        r.exact(),
        plan.logging,
        0 <= steps <= plan.num_steps,
    ensures
        ({
            let run = run_after(m, data, plan, p, steps);
            let every = if plan.eval_every == 0 {
                1int
            } else {
                plan.eval_every as int
            };
            &&& run.log.len() >= 1
            &&& run.log.last().0 <= steps
            &&& run.interval_steps == steps - run.log.last().0
            &&& r.v(run.interval_loss) == losses_between(
                r,
                m,
                data,
                plan,
                p,
                run.log.last().0,
                steps,
            )
            &&& forall|i: int|
                0 < i < run.log.len() ==> run.log[i - 1].0 < (#[trigger] run.log[i]).0 && (
                run.log[i].0 % every == 0 || run.log[i].0 == plan.num_steps)
            &&& forall|i: int|
                0 < i < run.log.len() ==> r.v((#[trigger] run.log[i]).1) * ((run.log[i].0
                    - run.log[i - 1].0) as real) == losses_between(
                    r,
                    m,
                    data,
                    plan,
                    p,
                    run.log[i - 1].0,
                    run.log[i].0,
                )
        }),
    decreases steps,
{
    law_loss_log(m, data, plan, p, steps);
    if steps > 0 {
        law_log_rows_hold_interval_means(r, m, data, plan, p, steps - 1);
        let (a, b) = (run_after(m, data, plan, p, steps - 1), run_after(m, data, plan, p, steps));
        let last = a.log.last().0;
        let f = |k: int| r.v(run_after(m, data, plan, p, last + 1 + k).loss);
        assert(sum(f, steps - last) == sum(f, steps - last - 1) + f(steps - last - 1));
        assert(last + 1 + (steps - last - 1) == steps);
        let total = plus(a.interval_loss, b.loss);
        assert(r.v(total) == losses_between(r, m, data, plan, p, last, steps));
        let due = row_due(steps, plan.eval_every, plan.num_steps);
        if due {
            assert(b.log == a.log.push(b.log.last()));
            assert forall|i: int| 0 < i < b.log.len() implies r.v((#[trigger] b.log[i]).1) * ((
            b.log[i].0 - b.log[i - 1].0) as real) == losses_between(
                r,
                m,
                data,
                plan,
                p,
                b.log[i - 1].0,
                b.log[i].0,
            ) by {
                if i < a.log.len() {
                    assert(b.log[i] == a.log[i]);
                    assert(b.log[i - 1] == a.log[i - 1]);
                }
            }
            assert forall|i: int| 0 < i < b.log.len() implies b.log[i - 1].0 < (
            #[trigger] b.log[i]).0 by {
                if i < a.log.len() {
                    assert(b.log[i] == a.log[i]);
                    assert(b.log[i - 1] == a.log[i - 1]);
                }
            }
        } else {
            assert(b.log == a.log);
        }
    }
}

/// The program as it is described: 20000 steps of 16 documents on at most 4 threads, a row of the
/// loss log every 100 steps, 1000 documents held out, and 20 samples at the end, from one layer of
/// width 16 with 4 heads and a context of 16.
pub proof fn law_defaults()
    ensures
        DEFAULT_NUM_STEPS == 20000,
        DEFAULT_BATCH_SIZE == 16,
        DEFAULT_THREADS == 4,
        DEFAULT_EVAL_EVERY == 100,
        N_EVAL_DOCS == 1000,
        NUM_SAMPLES == 20,
        N_LAYER == 1,
        N_EMBD == 16,
        N_HEAD == 4,
        BLOCK_SIZE == 16,
{
}

} // verus!
