//! Laws that hold where arithmetic is exact: rounding alone makes the difference between ways to
//! spread the work.
use vstd::prelude::*;

use crate::adam::{
    adam_eps_of, adam_param, adam_params, beta1_of, beta2_of, bias_correction, first_moment,
    second_moment, second_moments,
};
use crate::arith::lemma_position;
use crate::dataset::Dataset;
use crate::derivative::{lemma_cancel, lemma_factor_keeps_order, lemma_quotient_sign};
use crate::document::{doc_grad, doc_len, doc_loss};
use crate::gradient::{
    embedding_grad, embeddings_grad, gradient, input_grad, layer_grads, layer_weight_grads,
    layers_grad, logit_grad, weight_grad, with_added,
};
use crate::loss::probs_of;
use crate::matrix::{atb_acc, col, lemma_row_entry, plus_chain, Mat};
use crate::model::{lemma_layer_inside, lemma_tables_inside, Model, Tensor};
use crate::network::{layer_weights, network, Trace};
use crate::reading::{lemma_chain_value, lemma_plus_chain_value, nth_power, Reading};
use crate::rng::{choice_of, output, picked, uniform_of};
use crate::scalar::{is_less, minus, num, one, over, plus, power, root, times, unit, zero, Float};
use crate::sums::{lemma_exchange, lemma_sum_eq, lemma_sum_scaled, lemma_sum_single, sum};
use crate::train::{
    batch_grad, batch_loss, in_turns, inv_batch, rate_at, run_after, step_tokens, worker_grad,
    worker_loss, zero_vec, Plan, TrainConfig,
};

verus! {

/// The same is added to every entry on the way from `g` to `g2` as on the way from `h` to `h2`.
pub open spec fn same_added<F: Float>(
    r: Reading<F>,
    g: Seq<F>,
    g2: Seq<F>,
    h: Seq<F>,
    h2: Seq<F>,
) -> bool {
    &&& g2.len() == g.len()
    &&& h2.len() == h.len()
    &&& forall|x: int|
        0 <= x < g.len() ==> r.v(#[trigger] g2[x]) - r.v(g[x]) == r.v(h2[x]) - r.v(h[x])
}

/// What is added to the gradient of a weight matrix does not depend on what was there.
proof fn lemma_weight_grad_added<F: Float>(
    r: Reading<F>,
    g: Seq<F>,
    h: Seq<F>,
    t: Tensor,
    a: Mat<F>,
    b: Mat<F>,
)
    requires
        r.exact(),
        g.len() == h.len(),
        t.end() <= g.len(),
    ensures
        same_added(r, g, weight_grad(g, t, a, b), h, weight_grad(h, t, a, b)),
{
    let (g2, h2) = (weight_grad(g, t, a, b), weight_grad(h, t, a, b));
    let (rows, cols, n) = (t.rows as int, t.cols as int, b.len() as int);
    assert forall|x: int| 0 <= x < g.len() implies r.v(#[trigger] g2[x]) - r.v(g[x]) == r.v(h2[x])
        - r.v(h[x]) by {
        if t.off <= x < t.end() {
            let y = x - t.off;
            lemma_position(y, rows, cols);
            let (o, j) = (y / cols, y % cols);
            lemma_row_entry(t.slice_of(g), o, j, rows, cols);
            lemma_row_entry(t.slice_of(h), o, j, rows, cols);
            lemma_chain_value(r, col(a, o), col(b, j), t.of(g)[o][j], n);
            lemma_chain_value(r, col(a, o), col(b, j), t.of(h)[o][j], n);
            assert(g2[x] == atb_acc(a, b, t.of(g))[o][j]);
            assert(h2[x] == atb_acc(a, b, t.of(h))[o][j]);
        }
    }
}

/// What the layers add does not depend on what was there.
proof fn lemma_layers_added<F: Float>(
    r: Reading<F>,
    m: Model,
    p: Seq<F>,
    t: Trace<F>,
    g: Seq<F>,
    h: Seq<F>,
    dx: Mat<F>,
    l: int,
)
    requires
        r.exact(),
        m.wf(),
        g.len() == h.len(),
        m.n_params <= g.len(),
        0 <= l <= m.shape.n_layer,
    ensures
        layers_grad(m, p, t, g, dx, l).1 == layers_grad(m, p, t, h, dx, l).1,
        same_added(
            r,
            g,
            layers_grad(m, p, t, g, dx, l).0,
            h,
            layers_grad(m, p, t, h, dx, l).0,
        ),
    decreases l,
{
    if l > 0 {
        let sh = m.layers@[l - 1];
        let lt = t.layers[l - 1];
        let d = layer_grads(m.shape, layer_weights(sh, p), t.xs[l - 1], lt, dx);
        lemma_layer_inside(m, l - 1);
        let (ga, ha) = (weight_grad(g, sh.fc2, dx, lt.r), weight_grad(h, sh.fc2, dx, lt.r));
        lemma_weight_grad_added(r, g, h, sh.fc2, dx, lt.r);
        let (gb, hb) = (
            weight_grad(ga, sh.fc1, d.dr, lt.h2),
            weight_grad(ha, sh.fc1, d.dr, lt.h2),
        );
        lemma_weight_grad_added(r, ga, ha, sh.fc1, d.dr, lt.h2);
        let (gc, hc) = (
            weight_grad(gb, sh.wo, d.dx2, lt.attn_out),
            weight_grad(hb, sh.wo, d.dx2, lt.attn_out),
        );
        lemma_weight_grad_added(r, gb, hb, sh.wo, d.dx2, lt.attn_out);
        let (gd, hd) = (
            weight_grad(gc, sh.wqkv, d.dqkv, lt.h),
            weight_grad(hc, sh.wqkv, d.dqkv, lt.h),
        );
        lemma_weight_grad_added(r, gc, hc, sh.wqkv, d.dqkv, lt.h);
        assert(gd == layer_weight_grads(sh, g, lt, dx, d));
        assert(hd == layer_weight_grads(sh, h, lt, dx, d));
        lemma_layers_added(r, m, p, t, gd, hd, d.dx, l - 1);
        lemma_added_twice(r, g, ga, gb, h, ha, hb);
        lemma_added_twice(r, g, gb, gc, h, hb, hc);
        lemma_added_twice(r, g, gc, gd, h, hc, hd);
        lemma_added_twice(
            r,
            g,
            gd,
            layers_grad(m, p, t, gd, d.dx, l - 1).0,
            h,
            hd,
            layers_grad(m, p, t, hd, d.dx, l - 1).0,
        );
    }
}

/// Two additions one after the other.
proof fn lemma_added_twice<F: Float>(
    r: Reading<F>,
    g: Seq<F>,
    g2: Seq<F>,
    g3: Seq<F>,
    h: Seq<F>,
    h2: Seq<F>,
    h3: Seq<F>,
)
    requires
        same_added(r, g, g2, h, h2),
        same_added(r, g2, g3, h2, h3),
    ensures
        same_added(r, g, g3, h, h3),
{
    assert forall|x: int| 0 <= x < g.len() implies r.v(#[trigger] g3[x]) - r.v(g[x]) == r.v(h3[x])
        - r.v(h[x]) by {
        assert(r.v(g2[x]) - r.v(g[x]) == r.v(h2[x]) - r.v(h[x]));
    }
}

/// What the embeddings add does not depend on what was there.
proof fn lemma_embeddings_added<F: Float>(
    r: Reading<F>,
    m: Model,
    tokens: Seq<usize>,
    x0: Mat<F>,
    dx: Mat<F>,
    g: Seq<F>,
    h: Seq<F>,
    n: int,
)
    requires
        r.exact(),
        g.len() == h.len(),
    ensures
        same_added(
            r,
            g,
            embeddings_grad(m, tokens, x0, dx, g, n),
            h,
            embeddings_grad(m, tokens, x0, dx, h, n),
        ),
    decreases n,
{
    if n > 0 {
        lemma_embeddings_added(r, m, tokens, x0, dx, g, h, n - 1);
        let e = m.shape.n_embd as int;
        let row = embedding_grad(x0, dx, n - 1);
        let ga = embeddings_grad(m, tokens, x0, dx, g, n - 1);
        let ha = embeddings_grad(m, tokens, x0, dx, h, n - 1);
        let (a, b) = (m.wte.off + tokens[n - 1] * e, m.wpe.off + (n - 1) * e);
        let (gb, hb) = (with_added(ga, a, row), with_added(ha, a, row));
        let (gc, hc) = (with_added(gb, b, row), with_added(hb, b, row));
        assert(same_added(r, ga, gb, ha, hb));
        assert(same_added(r, gb, gc, hb, hc));
        lemma_added_twice(r, g, ga, gb, h, ha, hb);
        lemma_added_twice(r, g, gb, gc, h, hb, hc);
    }
}

/// The backward pass accumulates: what it adds to the gradients does not depend on what was
/// there before, for any values and probabilities that it starts from.
pub proof fn law_gradients_accumulate<F: Float>(
    r: Reading<F>,
    m: Model,
    p: Seq<F>,
    tokens: Seq<usize>,
    t: Trace<F>,
    probs: Mat<F>,
    n: int,
    g: Seq<F>,
    h: Seq<F>,
)
    requires
        r.exact(),
        m.wf(),
        g.len() == h.len(),
        m.n_params <= g.len(),
    ensures
        same_added(
            r,
            g,
            gradient(m, p, tokens, t, probs, g, n),
            h,
            gradient(m, p, tokens, t, probs, h, n),
        ),
{
    let (e, depth) = (m.shape.n_embd as int, m.shape.n_layer as int);
    let dl = logit_grad(probs, tokens, n);
    let dx = input_grad(dl, m.lm_head.of(p), e);
    let (ga, ha) = (
        weight_grad(g, m.lm_head, dl, t.xs[depth]),
        weight_grad(h, m.lm_head, dl, t.xs[depth]),
    );
    lemma_tables_inside(m);
    lemma_weight_grad_added(r, g, h, m.lm_head, dl, t.xs[depth]);
    lemma_layers_added(r, m, p, t, ga, ha, dx, depth);
    let (gb, dx0) = layers_grad(m, p, t, ga, dx, depth);
    let hb = layers_grad(m, p, t, ha, dx, depth).0;
    lemma_embeddings_added(r, m, tokens, t.x0, dx0, gb, hb, n);
    let gc = embeddings_grad(m, tokens, t.x0, dx0, gb, n);
    let hc = embeddings_grad(m, tokens, t.x0, dx0, hb, n);
    lemma_added_twice(r, g, ga, gb, h, ha, hb);
    lemma_added_twice(r, g, gb, gc, h, hb, hc);
}

/// The gradients of several documents add up.
pub proof fn law_document_gradients_accumulate<F: Float>(
    r: Reading<F>,
    m: Model,
    p: Seq<F>,
    tokens: Seq<usize>,
    g: Seq<F>,
    h: Seq<F>,
)
    requires
        r.exact(),
        m.wf(),
        g.len() == h.len(),
        m.n_params <= g.len(),
    ensures
        same_added(r, g, doc_grad(m, p, tokens, g), h, doc_grad(m, p, tokens, h)),
{
    let n = doc_len(m, tokens);
    let t = network(m, p, tokens, n);
    law_gradients_accumulate(r, m, p, tokens, t, probs_of(t.logits), n, g, h);
}

/// Every document of a step goes to one of the workers.
pub open spec fn owners_exist<F>(plan: Plan<F>, epoch: int) -> bool {
    forall|k: int|
        0 <= k < plan.batch ==> 0 <= #[trigger] (plan.owner)(epoch, k) < plan.workers
}

/// Entry `x` of the gradient of document `k` of a step alone.
pub open spec fn document_entry<F: Float>(
    r: Reading<F>,
    m: Model,
    data: Dataset,
    batch: int,
    p: Seq<F>,
    epoch: int,
    k: int,
    x: int,
) -> real {
    r.v(
        doc_grad(
            m,
            p,
            step_tokens(data, epoch, batch, k),
            zero_vec(m.n_params as int),
        )[x],
    )
}

/// What worker `w` gets of entry `x` from document `j`: the entry, or nothing where another
/// worker has the document.
spec fn entry_share<F: Float>(
    r: Reading<F>,
    m: Model,
    data: Dataset,
    plan: Plan<F>,
    p: Seq<F>,
    epoch: int,
    w: int,
    x: int,
    j: int,
) -> real {
    if (plan.owner)(epoch, j) == w {
        document_entry(r, m, data, plan.batch as int, p, epoch, j, x)
    } else {
        0real
    }
}

/// What worker `w` gets of the loss from document `j`.
spec fn loss_share<F: Float>(
    r: Reading<F>,
    m: Model,
    data: Dataset,
    plan: Plan<F>,
    p: Seq<F>,
    epoch: int,
    w: int,
    j: int,
) -> real {
    if (plan.owner)(epoch, j) == w {
        r.v(doc_loss(m, p, step_tokens(data, epoch, plan.batch as int, j)))
    } else {
        0real
    }
}

/// What worker `w` adds up of the first `k` documents.
proof fn lemma_worker_entry<F: Float>(
    r: Reading<F>,
    m: Model,
    data: Dataset,
    plan: Plan<F>,
    p: Seq<F>,
    epoch: int,
    w: int,
    k: int,
    x: int,
)
    requires
        r.exact(),
        m.wf(),
        0 <= k,
        0 <= x < m.n_params,
    ensures
        worker_grad(m, data, plan, p, epoch, w, k).len() == m.n_params,
        r.v(worker_grad(m, data, plan, p, epoch, w, k)[x]) == sum(
            |j: int| entry_share(r, m, data, plan, p, epoch, w, x, j),
            k,
        ),
        r.v(worker_loss(m, data, plan, p, epoch, w, k)) == sum(
            |j: int| loss_share(r, m, data, plan, p, epoch, w, j),
            k,
        ),
    decreases k,
{
    if k > 0 {
        lemma_worker_entry(r, m, data, plan, p, epoch, w, k - 1, x);
        if (plan.owner)(epoch, k - 1) == w {
            let tokens = step_tokens(data, epoch, plan.batch as int, k - 1);
            let before = worker_grad(m, data, plan, p, epoch, w, k - 1);
            let none = zero_vec::<F>(m.n_params as int);
            law_document_gradients_accumulate(r, m, p, tokens, before, none);
            let after = doc_grad(m, p, tokens, before);
            assert(r.v(after[x]) - r.v(before[x]) == r.v(doc_grad(m, p, tokens, none)[x]) - r.v(
                none[x],
            ));
        }
    }
}

/// What the first `w` workers add up, scaled.
proof fn lemma_batch_entry<F: Float>(
    r: Reading<F>,
    m: Model,
    data: Dataset,
    plan: Plan<F>,
    p: Seq<F>,
    epoch: int,
    w: int,
    x: int,
)
    requires
        r.exact(),
        m.wf(),
        0 <= w,
        0 <= x < m.n_params,
    ensures
        batch_grad(m, data, plan, p, epoch, w).len() == m.n_params,
        r.v(batch_grad(m, data, plan, p, epoch, w)[x]) == sum(
            |u: int|
                r.v(worker_grad(m, data, plan, p, epoch, u, plan.batch as int)[x]) * r.v(
                    inv_batch::<F>(plan.batch),
                ),
            w,
        ),
        r.v(batch_loss(m, data, plan, p, epoch, w)) == sum(
            |u: int| r.v(worker_loss(m, data, plan, p, epoch, u, plan.batch as int)),
            w,
        ),
    decreases w,
{
    if w > 0 {
        lemma_batch_entry(r, m, data, plan, p, epoch, w - 1, x);
    }
}

/// The gradient of a step is the mean of the gradients of its documents, each taken alone, and
/// its loss is the sum of theirs, however the documents are spread over the workers.
pub proof fn law_batch_is_mean<F: Float>(
    r: Reading<F>,
    m: Model,
    data: Dataset,
    plan: Plan<F>,
    p: Seq<F>,
    epoch: int,
    x: int,
)
    requires
        r.exact(),
        m.wf(),
        0 <= plan.workers,
        owners_exist(plan, epoch),
        0 <= x < m.n_params,
    ensures
        batch_grad(m, data, plan, p, epoch, plan.workers).len() == m.n_params,
        r.v(batch_grad(m, data, plan, p, epoch, plan.workers)[x]) == r.v(
            inv_batch::<F>(plan.batch),
        ) * sum(
            |k: int| document_entry(r, m, data, plan.batch as int, p, epoch, k, x),
            plan.batch as int,
        ),
        r.v(batch_loss(m, data, plan, p, epoch, plan.workers)) == sum(
            |k: int| r.v(doc_loss(m, p, step_tokens(data, epoch, plan.batch as int, k))),
            plan.batch as int,
        ),
        plan.batch > 0 ==> r.v(inv_batch::<F>(plan.batch)) * (plan.batch as real) == 1real,
{
    let (workers, batch) = (plan.workers, plan.batch as int);
    let inv = r.v(inv_batch::<F>(plan.batch));
    lemma_batch_entry(r, m, data, plan, p, epoch, workers, x);
    let entry = |k: int| document_entry(r, m, data, batch, p, epoch, k, x);
    let loss = |k: int| r.v(doc_loss(m, p, step_tokens(data, epoch, batch, k)));
    let part = |w: int| r.v(worker_grad(m, data, plan, p, epoch, w, batch)[x]);
    let loss_part = |w: int| r.v(worker_loss(m, data, plan, p, epoch, w, batch));
    let table = |w: int, k: int| entry_share(r, m, data, plan, p, epoch, w, x, k);
    let loss_table = |w: int, k: int| loss_share(r, m, data, plan, p, epoch, w, k);
    assert forall|w: int| 0 <= w < workers implies #[trigger] part(w) == sum(
        |k: int| table(w, k),
        batch,
    ) by {
        lemma_worker_entry(r, m, data, plan, p, epoch, w, batch, x);
        lemma_sum_eq(
            |j: int| entry_share(r, m, data, plan, p, epoch, w, x, j),
            |k: int| table(w, k),
            batch,
        );
    }
    assert forall|w: int| 0 <= w < workers implies #[trigger] loss_part(w) == sum(
        |k: int| loss_table(w, k),
        batch,
    ) by {
        lemma_worker_entry(r, m, data, plan, p, epoch, w, batch, x);
        lemma_sum_eq(
            |j: int| loss_share(r, m, data, plan, p, epoch, w, j),
            |k: int| loss_table(w, k),
            batch,
        );
    }
    assert forall|k: int| 0 <= k < batch implies #[trigger] entry(k) == sum(
        |w: int| table(w, k),
        workers,
    ) by {
        let owner = (plan.owner)(epoch, k);
        lemma_sum_single(|w: int| table(w, k), owner, workers);
    }
    assert forall|k: int| 0 <= k < batch implies #[trigger] loss(k) == sum(
        |w: int| loss_table(w, k),
        workers,
    ) by {
        let owner = (plan.owner)(epoch, k);
        lemma_sum_single(|w: int| loss_table(w, k), owner, workers);
    }
    lemma_exchange(table, part, entry, workers, batch);
    lemma_exchange(loss_table, loss_part, loss, workers, batch);
    lemma_sum_scaled(inv, part, workers);
    assert forall|w: int| 0 <= w < workers implies #[trigger] part(w) * inv == inv * part(w) by {
        let z = part(w);
        assert(z * inv == inv * z) by (nonlinear_arith);
    }
    let scaled = |u: int|
        r.v(worker_grad(m, data, plan, p, epoch, u, plan.batch as int)[x]) * r.v(
            inv_batch::<F>(plan.batch),
        );
    assert forall|w: int| 0 <= w < workers implies #[trigger] scaled(w) == inv * part(w) by {
        assert(part(w) * inv == inv * part(w));
    }
    lemma_sum_eq(scaled, |w: int| inv * part(w), workers);
}

/// Every number has a value of its own.
pub open spec fn faithful<F: Float>(r: Reading<F>) -> bool {
    forall|a: F, b: F| #![trigger r.v(a), r.v(b)] r.v(a) == r.v(b) ==> a == b
}

/// Training does not depend on how the documents are spread over the workers: in exact arithmetic
/// two runs that differ in nothing else agree after every step, in the parameters, the optimizer,
/// the losses and the loss log.
pub proof fn law_workers_do_not_matter<F: Float>(
    r: Reading<F>,
    m: Model,
    data: Dataset,
    a: Plan<F>,
    b: Plan<F>,
    p: Seq<F>,
    steps: int,
)
    requires
        r.exact(),
        faithful(r),
        m.wf(),
        0 <= a.workers,
        0 <= b.workers,
        a == (Plan { workers: a.workers, owner: a.owner, ..b }),
        forall|epoch: int| 1 <= epoch <= steps ==> #[trigger] owners_exist(a, epoch),
        forall|epoch: int| 1 <= epoch <= steps ==> #[trigger] owners_exist(b, epoch),
    ensures
        run_after(m, data, a, p, steps) == run_after(m, data, b, p, steps),
    decreases steps,
{
    if steps > 0 {
        law_workers_do_not_matter(r, m, data, a, b, p, steps - 1);
        let run = run_after(m, data, a, p, steps - 1);
        assert(owners_exist(a, steps));
        assert(owners_exist(b, steps));
        let ga = batch_grad(m, data, a, run.p, steps, a.workers);
        let gb = batch_grad(m, data, b, run.p, steps, b.workers);
        lemma_same_batch(r, m, data, a, b, run.p, steps);
        assert(ga == gb);
    }
}

/// The part of [`law_workers_do_not_matter`] that speaks of one step.
proof fn lemma_same_batch<F: Float>(
    r: Reading<F>,
    m: Model,
    data: Dataset,
    a: Plan<F>,
    b: Plan<F>,
    p: Seq<F>,
    epoch: int,
)
    requires
        r.exact(),
        faithful(r),
        m.wf(),
        0 <= a.workers,
        0 <= b.workers,
        a.batch == b.batch,
        owners_exist(a, epoch),
        owners_exist(b, epoch),
    ensures
        batch_grad(m, data, a, p, epoch, a.workers) == batch_grad(
            m,
            data,
            b,
            p,
            epoch,
            b.workers,
        ),
        batch_loss(m, data, a, p, epoch, a.workers) == batch_loss(
            m,
            data,
            b,
            p,
            epoch,
            b.workers,
        ),
{
    let ga = batch_grad(m, data, a, p, epoch, a.workers);
    let gb = batch_grad(m, data, b, p, epoch, b.workers);
    lemma_has_parameters(m);
    law_batch_is_mean(r, m, data, a, p, epoch, 0);
    law_batch_is_mean(r, m, data, b, p, epoch, 0);
    assert forall|x: int| 0 <= x < m.n_params implies ga[x] == gb[x] by {
        law_batch_is_mean(r, m, data, a, p, epoch, x);
        law_batch_is_mean(r, m, data, b, p, epoch, x);
        assert(r.v(ga[x]) == r.v(gb[x]));
    }
    assert(ga =~= gb);
    let (la, lb) = (
        batch_loss(m, data, a, p, epoch, a.workers),
        batch_loss(m, data, b, p, epoch, b.workers),
    );
    assert(r.v(la) == r.v(lb));
}

/// A model has at least one parameter.
pub proof fn lemma_has_parameters(m: Model)
    requires
        m.wf(),
    ensures
        m.n_params > 0,
{
    let (e, v, t) = (m.shape.n_embd as int, m.vocab_size as int, m.shape.block_size as int);
    assert(0 <= v * e && 1 <= t * e && 0 <= m.shape.n_layer * m.shape.layer_params())
        by (nonlinear_arith)
        requires
            1 <= e,
            0 <= v,
            1 <= t,
            m.shape.layer_params() == 12 * (e * e),
    ;
}

/// One thread or many: training in turns gives the same run for any number of threads.
pub proof fn law_threads_do_not_matter<F: Float>(
    r: Reading<F>,
    m: Model,
    data: Dataset,
    a: TrainConfig<F>,
    b: TrainConfig<F>,
    p: Seq<F>,
    steps: int,
)
    requires
        r.exact(),
        faithful(r),
        m.wf(),
        a == (TrainConfig { n_threads: a.n_threads, ..b }),
    ensures
        run_after(m, data, in_turns(a), p, steps) == run_after(m, data, in_turns(b), p, steps),
{
    lemma_turns(a);
    lemma_turns(b);
    law_workers_do_not_matter(r, m, data, in_turns(a), in_turns(b), p, steps);
}

/// In turns every document has an owner.
proof fn lemma_turns<F>(cfg: TrainConfig<F>)
    ensures
        forall|epoch: int| #[trigger] owners_exist(in_turns(cfg), epoch),
{
    let plan = in_turns(cfg);
    let workers = cfg.threads_of() as int;
    assert forall|epoch: int| #[trigger] owners_exist(plan, epoch) by {
        assert forall|k: int| 0 <= k < plan.batch implies 0 <= #[trigger] (plan.owner)(epoch, k)
            < plan.workers by {
            assert((plan.owner)(epoch, k) == k % workers);
        }
    }
}

/// The learning rate starts at its peak and decays linearly to zero: after `step` of `num_steps`
/// steps, the part of the steps that is left is the part of the rate that is left.
pub proof fn law_rate_decays<F: Float>(r: Reading<F>, lr: F, step: usize, num_steps: usize)
    requires
        r.exact(),
        0 < num_steps,
        step <= num_steps,
    ensures
        r.v(rate_at(lr, step, num_steps)) * (num_steps as real) == r.v(lr) * ((num_steps - step)
            as real),
{
    let q = over(num::<F>(step), num::<F>(num_steps));
    let (vq, n, l) = (r.v(q), num_steps as real, r.v(lr));
    assert(vq * n == step as real);
    let z = 1real - vq;
    assert((l * z) * n == l * (z * n)) by (nonlinear_arith);
    assert((1real - vq) * n == n - vq * n) by (nonlinear_arith);
}

/// A uniform number lies in `[0, 1)`.
pub proof fn law_uniform_is_a_fraction<F: Float>(r: Reading<F>, s: Seq<u64>)
    requires
        r.exact(),
    ensures
        0real <= r.v(uniform_of::<F>(s)) < 1real,
{
    let out = output(s);
    let k = out >> 11;
    assert(k < 0x20_0000_0000_0000) by (bit_vector)
        requires
            k == out >> 11,
    ;
    let u = r.v(unit::<F>(k));
    let whole = 0x20_0000_0000_0000real;
    if u < 0real {
        assert(u * whole < 0real);
    }
    if u >= 1real {
        assert(u * whole >= whole);
    }
}

/// The sampled index is proportional to the weights: put end to end, the weights cover the
/// interval from zero to their sum, and the index is that of the weight that covers the uniform
/// number times the sum.
pub proof fn law_choice_is_proportional<F: Float>(r: Reading<F>, weights: Seq<F>, s: Seq<u64>)
    requires
        r.exact(),
        forall|i: int| 0 <= i < weights.len() ==> r.v(#[trigger] weights[i]) >= 0real,
        sum(|i: int| r.v(weights[i]), weights.len() as int) > 0real,
    ensures
        ({
            let at = r.v(uniform_of::<F>(s)) * sum(|i: int| r.v(weights[i]), weights.len() as int);
            let i = choice_of(weights, s);
            &&& 0 <= i < weights.len()
            &&& sum(|k: int| r.v(weights[k]), i) <= at < sum(|k: int| r.v(weights[k]), i + 1)
        }),
{
    let n = weights.len() as int;
    let f = |i: int| r.v(weights[i]);
    let u = uniform_of::<F>(s);
    let total = plus_chain(weights, zero(), n);
    let first = times(u, total);
    law_uniform_is_a_fraction(r, s);
    lemma_plus_chain_value(r, weights, zero(), n);
    assert(r.v(total) == sum(f, n));
    let (a, b) = (r.v(u), sum(f, n));
    assert(0real <= a * b && a * b < b) by {
        lemma_part_of(a, b);
    }
    lemma_picked(r, weights, first, 0, a * b);
}

/// A fraction of a positive number.
proof fn lemma_part_of(a: real, b: real)
    requires
        0real <= a < 1real,
        b > 0real,
    ensures
        0real <= a * b < b,
{
    assert(0real <= a * b) by (nonlinear_arith)
        requires
            0real <= a,
            b > 0real,
    ;
    let c = 1real - a;
    assert(c * b > 0real) by (nonlinear_arith)
        requires
            c > 0real,
            b > 0real,
    ;
    assert((1real - a) * b == b - a * b) by (nonlinear_arith);
}

/// The search from index `i` on, where `rest` is what is left of `at` behind the weights before.
proof fn lemma_picked<F: Float>(r: Reading<F>, weights: Seq<F>, rest: F, i: int, at: real)
    requires
        r.exact(),
        0 <= i <= weights.len(),
        r.v(rest) == at - sum(|k: int| r.v(weights[k]), i),
        r.v(rest) >= 0real,
        at < sum(|k: int| r.v(weights[k]), weights.len() as int),
    ensures
        ({
            let j = picked(weights, rest, i);
            &&& 0 <= j < weights.len()
            &&& sum(|k: int| r.v(weights[k]), j) <= at < sum(|k: int| r.v(weights[k]), j + 1)
        }),
    decreases weights.len() - i,
{
    let f = |k: int| r.v(weights[k]);
    if i < weights.len() {
        assert(sum(f, i + 1) == sum(f, i) + f(i));
        if !is_less(rest, weights[i]) {
            lemma_picked(r, weights, minus(rest, weights[i]), i + 1, at);
        }
    }
}

/// The weights need not add up to one: multiplied by one positive number they give the same
/// index.
pub proof fn law_choice_ignores_scale<F: Float>(
    r: Reading<F>,
    weights: Seq<F>,
    scaled: Seq<F>,
    factor: real,
    s: Seq<u64>,
)
    requires
        r.exact(),
        factor > 0real,
        scaled.len() == weights.len(),
        forall|i: int|
            0 <= i < weights.len() ==> r.v(#[trigger] scaled[i]) == factor * r.v(weights[i]),
    ensures
        choice_of(scaled, s) == choice_of(weights, s),
{
    let n = weights.len() as int;
    let (f, h) = (|i: int| r.v(weights[i]), |i: int| r.v(scaled[i]));
    let u = uniform_of::<F>(s);
    let (a, b) = (plus_chain(weights, zero(), n), plus_chain(scaled, zero(), n));
    lemma_plus_chain_value(r, weights, zero(), n);
    lemma_plus_chain_value(r, scaled, zero(), n);
    lemma_sum_scaled(factor, f, n);
    lemma_sum_eq(h, |i: int| factor * f(i), n);
    let (vu, va) = (r.v(u), r.v(a));
    assert(r.v(b) == factor * va);
    assert(vu * (factor * va) == factor * (vu * va)) by (nonlinear_arith);
    lemma_picked_scaled(r, weights, scaled, factor, times(u, a), times(u, b), 0);
}

/// The search from index `i` on, where both the weights and what is left are scaled.
proof fn lemma_picked_scaled<F: Float>(
    r: Reading<F>,
    weights: Seq<F>,
    scaled: Seq<F>,
    factor: real,
    rest: F,
    scaled_rest: F,
    i: int,
)
    requires
        r.exact(),
        factor > 0real,
        0 <= i,
        scaled.len() == weights.len(),
        forall|i: int|
            0 <= i < weights.len() ==> r.v(#[trigger] scaled[i]) == factor * r.v(weights[i]),
        r.v(scaled_rest) == factor * r.v(rest),
    ensures
        picked(scaled, scaled_rest, i) == picked(weights, rest, i),
    decreases weights.len() - i,
{
    if i < weights.len() {
        let (a, w) = (r.v(rest), r.v(weights[i]));
        assert(r.v(scaled[i]) == factor * w);
        lemma_factor_keeps_order(w, a, factor);
        assert(w * factor == factor * w) by (nonlinear_arith);
        assert(a * factor == factor * a) by (nonlinear_arith);
        assert(factor * (a - w) == factor * a - factor * w) by (nonlinear_arith);
        lemma_picked_scaled(
            r,
            weights,
            scaled,
            factor,
            minus(rest, weights[i]),
            minus(scaled_rest, scaled[i]),
            i + 1,
        );
    }
}

/// The second moments of the optimizer are never negative.
pub proof fn law_second_moments_stay_nonnegative<F: Float>(
    r: Reading<F>,
    v: Seq<F>,
    g: Seq<F>,
    n: int,
)
    requires
        r.exact(),
        forall|i: int| 0 <= i < v.len() ==> r.v(#[trigger] v[i]) >= 0real,
    ensures
        second_moments(v, g, n).len() == v.len(),
        forall|i: int| 0 <= i < v.len() ==> r.v(#[trigger] second_moments(v, g, n)[i]) >= 0real,
{
    assert forall|i: int| 0 <= i < v.len() implies r.v(#[trigger] second_moments(v, g, n)[i])
        >= 0real by {
        assert(r.v(v[i]) >= 0real);
        if i < n {
            lemma_second_moment(r, v[i], g[i]);
        }
    }
}

/// A second moment that is not negative stays so.
proof fn lemma_second_moment<F: Float>(r: Reading<F>, v: F, g: F)
    requires
        r.exact(),
        r.v(v) >= 0real,
    ensures
        r.v(second_moment(v, g)) >= 0real,
{
    let (b, vv, vg) = (r.v(beta2_of::<F>()), r.v(v), r.v(g));
    assert(b * 100real == 99real);
    let c = 1real - b;
    lemma_not_negative(b, vv);
    assert(vg * vg >= 0real) by (nonlinear_arith);
    lemma_not_negative(c, vg * vg);
    assert((c * vg) * vg == c * (vg * vg)) by (nonlinear_arith);
}

/// The product of numbers that are not negative.
pub proof fn lemma_not_negative(a: real, b: real)
    requires
        a >= 0real,
        b >= 0real,
    ensures
        a * b >= 0real,
{
    assert(a * b >= 0real) by (nonlinear_arith)
        requires
            a >= 0real,
            b >= 0real,
    ;
}

/// Throughout a run the second moments of the optimizer are not negative.
pub proof fn law_run_keeps_second_moments_nonnegative<F: Float>(
    r: Reading<F>,
    m: Model,
    data: Dataset,
    plan: Plan<F>,
    p: Seq<F>,
    steps: int,
)
    requires
        r.exact(),
    ensures
        run_after(m, data, plan, p, steps).v.len() == m.n_params,
        forall|i: int|
            0 <= i < m.n_params ==> r.v(#[trigger] run_after(m, data, plan, p, steps).v[i])
                >= 0real,
    decreases steps,
{
    if steps > 0 {
        law_run_keeps_second_moments_nonnegative(r, m, data, plan, p, steps - 1);
        let run = run_after(m, data, plan, p, steps - 1);
        law_second_moments_stay_nonnegative(
            r,
            run.v,
            batch_grad(m, data, plan, run.p, steps, plan.workers),
            run.p.len() as int,
        );
    }
}

/// A step with a learning rate of zero keeps the parameters.
pub proof fn law_zero_rate_keeps_parameters<F: Float>(
    r: Reading<F>,
    p: Seq<F>,
    m: Seq<F>,
    v: Seq<F>,
    g: Seq<F>,
    lr: F,
    t: usize,
)
    requires
        r.exact(),
        r.roots_and_powers(),
        r.v(lr) == 0real,
        t as i32 >= 1,
        forall|i: int| 0 <= i < p.len() ==> r.v(#[trigger] v[i]) >= 0real,
    ensures
        adam_params(p, m, v, g, lr, t).len() == p.len(),
        forall|i: int|
            0 <= i < p.len() ==> r.v(#[trigger] adam_params(p, m, v, g, lr, t)[i]) == r.v(p[i]),
{
    assert forall|i: int| 0 <= i < p.len() implies r.v(
        #[trigger] adam_params(p, m, v, g, lr, t)[i],
    ) == r.v(p[i]) by {
        assert(r.v(v[i]) >= 0real);
        lemma_second_moment(r, v[i], g[i]);
        let (m1, v1) = (first_moment(m[i], g[i]), second_moment(v[i], g[i]));
        let z = r.v(times(m1, bias_correction(beta1_of(), t)));
        assert(0real * z == 0real) by (nonlinear_arith);
        lemma_no_change(r, p[i], m1, v1, lr, t);
    }
}

/// Where what the step is made of is zero, the parameter stays.
pub proof fn lemma_no_change<F: Float>(r: Reading<F>, p: F, m1: F, v1: F, lr: F, t: usize)
    requires
        r.exact(),
        r.roots_and_powers(),
        t as i32 >= 1,
        r.v(v1) >= 0real,
        r.v(times(lr, times(m1, bias_correction(beta1_of(), t)))) == 0real,
    ensures
        r.v(adam_param(p, m1, v1, lr, t)) == r.v(p),
{
    let c2 = bias_correction(beta2_of::<F>(), t);
    let below = plus(root(times(v1, c2)), adam_eps_of());
    let above = times(lr, times(m1, bias_correction(beta1_of(), t)));
    lemma_bias_correction(r, t);
    lemma_not_negative(r.v(v1), r.v(c2));
    assert(r.v(adam_eps_of::<F>()) * 100_000_000real == 1real);
    let d = r.v(below);
    assert(d > 0real);
    assert(0real * d == 0real) by (nonlinear_arith);
    lemma_cancel(r.v(over(above, below)), 0real, d);
}

/// The correction of the second moment is positive.
proof fn lemma_bias_correction<F: Float>(r: Reading<F>, t: usize)
    requires
        r.exact(),
        r.roots_and_powers(),
        t as i32 >= 1,
    ensures
        r.v(bias_correction(beta2_of::<F>(), t)) > 0real,
{
    let n = t as i32;
    let b = r.v(beta2_of::<F>());
    assert(b * 100real == 99real);
    lemma_power_of_fraction(b, n as int);
    let left = minus(one(), power(beta2_of::<F>(), n));
    assert(r.v(left) == 1real - nth_power(b, n as int));
    lemma_quotient_sign(r.v(over(one(), left)), r.v(left), 1real);
}

/// A power of a fraction is a fraction.
pub proof fn lemma_power_of_fraction(x: real, n: int)
    requires
        0real <= x < 1real,
        1 <= n,
    ensures
        0real <= nth_power(x, n) < 1real,
    decreases n,
{
    if n == 1 {
        assert(nth_power(x, 0) == 1real);
        assert(x * 1real == x) by (nonlinear_arith);
    } else {
        lemma_power_of_fraction(x, n - 1);
        let y = nth_power(x, n - 1);
        if y == 0real {
            assert(x * 0real == 0real) by (nonlinear_arith);
        } else {
            lemma_part_of(x, y);
        }
    }
}

} // verus!
