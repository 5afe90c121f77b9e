//! Hidden units that never fire: a unit of the MLP whose input weights are zero stays as it is
//! under training.
use vstd::prelude::*;

use crate::adam::{adam_param, beta1_of, beta2_of, bias_correction, first_moment, second_moment};
use crate::arith::{lemma_cell, lemma_position};
use crate::backprop_network::{lemma_layer_values_sized, lemma_streams_sized, lemma_tensor_sized};
use crate::dataset::Dataset;
use crate::document::{doc_grad, doc_len, fits_data, lemma_tokens_in_range, tokens_known};
use crate::gradient::{
    embeddings_grad, gradient, input_grad, layer_grads, layer_weight_grads, layers_grad, logit_grad,
    weight_grad,
};
use crate::laws_exact::{document_entry, law_batch_is_mean, lemma_no_change, owners_exist};
use crate::loss::probs_of;
use crate::matrix::{atb_acc, col, dot_of, lemma_row_entry, linear, Mat};
use crate::model::{is_layer, lemma_layer_inside, lemma_tables_inside, Model, Tensor};
use crate::network::{layer_sized, layer_trace, layer_weights, network, stream, trace_sized, Trace};
use crate::reading::{lemma_chain_value, lemma_dot_value, Reading};
use crate::sample::lemma_network_sized;
use crate::scalar::{larger, times, zero, Float};
use crate::stages::relu_of;
use crate::sums::{lemma_sum_eq, lemma_sum_zero, sum};
use crate::train::{
    batch_grad, doc_index, has_documents, inv_batch, lemma_doc_covered, rate_at, run_after,
    step_tokens, zero_vec, Plan,
};

verus! {

/// Parameter `x` is an input weight of unit `j` of the MLP in layer `l`: it stands in row `j` of
/// the first matrix.
pub open spec fn feeds_unit(m: Model, l: int, j: int, x: int) -> bool {
    let t = m.layers@[l].fc1;
    t.off <= x < t.end() && (x - t.off) / t.cols as int == j
}

/// Parameter `x` is an output weight of unit `j` of the MLP in layer `l`: it stands in column `j`
/// of the second matrix.
pub open spec fn reads_unit(m: Model, l: int, j: int, x: int) -> bool {
    let t = m.layers@[l].fc2;
    t.off <= x < t.end() && (x - t.off) % t.cols as int == j
}

/// Parameter `x` is a weight of unit `j` of the MLP in layer `l`.
pub open spec fn in_unit(m: Model, l: int, j: int, x: int) -> bool {
    feeds_unit(m, l, j, x) || reads_unit(m, l, j, x)
}

/// Unit `j` of the MLP in layer `l` has the value zero at the first `n` positions.
pub open spec fn unit_is_dead<F: Float>(
    r: Reading<F>,
    t: Trace<F>,
    l: int,
    j: int,
    n: int,
) -> bool {
    forall|i: int| 0 <= i < n ==> r.v(#[trigger] t.layers[l].r[i][j]) == 0real
}

/// What a linear layer adds to the gradient of one weight.
proof fn lemma_weight_entry<F: Float>(
    r: Reading<F>,
    g: Seq<F>,
    t: Tensor,
    a: Mat<F>,
    b: Mat<F>,
    x: int,
)
    requires
        r.exact(),
        t.end() <= g.len(),
        t.off <= x < t.end(),
        b.len() <= a.len(),
    ensures
        ({
            let (o, j) = ((x - t.off) / t.cols as int, (x - t.off) % t.cols as int);
            &&& 0 <= o < t.rows
            &&& 0 <= j < t.cols
            &&& r.v(weight_grad(g, t, a, b)[x]) == r.v(g[x]) + sum(
                |i: int| r.v(a[i][o]) * r.v(b[i][j]),
                b.len() as int,
            )
        }),
{
    let (rows, cols, n, y) = (t.rows as int, t.cols as int, b.len() as int, x - t.off);
    lemma_position(y, rows, cols);
    let (o, j) = (y / cols, y % cols);
    lemma_row_entry(t.slice_of(g), o, j, rows, cols);
    let (ca, cb) = (col(a, o), col(b, j));
    lemma_chain_value(r, ca, cb, t.of(g)[o][j], n);
    assert(weight_grad(g, t, a, b)[x] == atb_acc(a, b, t.of(g))[o][j]);
    lemma_sum_eq(
        |i: int| r.v(ca[i]) * r.v(cb[i]),
        |i: int| r.v(a[i][o]) * r.v(b[i][j]),
        n,
    );
}

/// A sum of products in which one factor is always zero.
proof fn lemma_zero_products(f: spec_fn(int) -> real, g: spec_fn(int) -> real, n: int)
    requires
        forall|i: int| 0 <= i < n ==> #[trigger] f(i) == 0real || g(i) == 0real,
    ensures
        sum(|i: int| f(i) * g(i), n) == 0real,
{
    let h = |i: int| f(i) * g(i);
    assert forall|i: int| 0 <= i < n implies #[trigger] h(i) == 0real by {
        let (a, b) = (f(i), g(i));
        assert(f(i) == 0real || g(i) == 0real);
        assert(0real * b == 0real) by (nonlinear_arith);
        assert(a * 0real == 0real) by (nonlinear_arith);
    }
    lemma_sum_zero(h, n);
}

/// The weights of a unit stand inside the parameters of its layer.
proof fn lemma_unit_inside(m: Model, l: int, j: int, x: int)
    requires
        m.wf(),
        0 <= l < m.shape.n_layer,
        in_unit(m, l, j, x),
    ensures
        m.layer_base(l) <= x < m.layer_base(l + 1),
        m.lm_head.end() <= x < m.n_params,
{
    lemma_layer_inside(m, l);
    lemma_tables_inside(m);
    lemma_bases_ascend(m, 0, l);
}

/// Later layers start later.
proof fn lemma_bases_ascend(m: Model, k: int, l: int)
    requires
        0 <= k <= l,
    ensures
        m.layer_base(k) <= m.layer_base(l),
{
    let q = m.shape.layer_params();
    let e = m.shape.n_embd as int;
    assert(0 <= e * e) by (nonlinear_arith);
    assert(k * q <= l * q) by (nonlinear_arith)
        requires
            k <= l,
            0 <= q,
    ;
}

/// A layer adds nothing to the gradients of the weights of a dead unit: not of one of its own, and
/// not of one in another layer.
#[verifier::rlimit(30)]
proof fn lemma_layer_keeps_unit<F: Float>(
    r: Reading<F>,
    m: Model,
    p: Seq<F>,
    t: Trace<F>,
    g: Seq<F>,
    dx: Mat<F>,
    n: int,
    k: int,
    l: int,
    j: int,
    x: int,
)
    requires
        r.exact(),
        m.wf(),
        m.n_params <= g.len(),
        0 <= k < m.shape.n_layer,
        0 <= l < m.shape.n_layer,
        trace_sized(m.shape, t, n),
        dx.len() == n,
        unit_is_dead(r, t, l, j, n),
        in_unit(m, l, j, x),
    ensures
        ({
            let (sh, lt) = (m.layers@[k], t.layers[k]);
            let d = layer_grads(m.shape, layer_weights(sh, p), t.xs[k], lt, dx);
            let g2 = layer_weight_grads(sh, g, lt, dx, d);
            &&& d.dx.len() == n
            &&& g2.len() == g.len()
            &&& r.v(g2[x]) == r.v(g[x])
        }),
{
    let (s, sh, lt) = (m.shape, m.layers@[k], t.layers[k]);
    let w = layer_weights(sh, p);
    let d = layer_grads(s, w, t.xs[k], lt, dx);
    lemma_layer_inside(m, k);
    lemma_layer_inside(m, l);
    lemma_unit_inside(m, l, j, x);
    if k < l {
        lemma_bases_ascend(m, k + 1, l);
    } else if l < k {
        lemma_bases_ascend(m, l + 1, k);
    }
    let g1 = weight_grad(g, sh.fc2, dx, lt.r);
    let g2 = weight_grad(g1, sh.fc1, d.dr, lt.h2);
    let g3 = weight_grad(g2, sh.wo, d.dx2, lt.attn_out);
    let g4 = weight_grad(g3, sh.wqkv, d.dqkv, lt.h);
    assert(g4 == layer_weight_grads(sh, g, lt, dx, d));
    assert(g4[x] == g2[x]);
    if k == l {
        assert(is_layer(sh, m.layer_base(l), s));
        assert(layer_sized(s, lt, n));
        if reads_unit(m, l, j, x) {
            lemma_weight_entry(r, g, sh.fc2, dx, lt.r, x);
            let o = (x - sh.fc2.off) / sh.fc2.cols as int;
            let (a, b) = (|i: int| r.v(dx[i][o]), |i: int| r.v(lt.r[i][j]));
            assert forall|i: int| 0 <= i < n implies #[trigger] a(i) == 0real || b(i) == 0real by {
                assert(r.v(t.layers[l].r[i][j]) == 0real);
            }
            lemma_zero_products(a, b, n);
            lemma_sum_eq(
                |i: int| a(i) * b(i),
                |i: int| r.v(dx[i][o]) * r.v(lt.r[i][j]),
                n,
            );
            assert(r.v(g1[x]) == r.v(g[x]));
            assert(g2[x] == g1[x]);
        } else {
            lemma_weight_entry(r, g1, sh.fc1, d.dr, lt.h2, x);
            let c = (x - sh.fc1.off) % sh.fc1.cols as int;
            let (a, b) = (|i: int| r.v(d.dr[i][j]), |i: int| r.v(lt.h2[i][c]));
            let din = input_grad(dx, w.fc2, s.hidden());
            assert forall|i: int| 0 <= i < n implies #[trigger] a(i) == 0real || b(i) == 0real by {
                assert(r.v(t.layers[l].r[i][j]) == 0real);
                assert(din[i].len() == s.hidden());
                assert(d.dr[i][j] == zero::<F>());
            }
            lemma_zero_products(a, b, n);
            lemma_sum_eq(
                |i: int| a(i) * b(i),
                |i: int| r.v(d.dr[i][j]) * r.v(lt.h2[i][c]),
                n,
            );
            assert(g1[x] == g[x]);
        }
    } else {
        assert(g2[x] == g[x]);
    }
}

/// The layers add nothing to the gradients of the weights of a dead unit.
proof fn lemma_layers_keep_unit<F: Float>(
    r: Reading<F>,
    m: Model,
    p: Seq<F>,
    t: Trace<F>,
    g: Seq<F>,
    dx: Mat<F>,
    n: int,
    k: int,
    l: int,
    j: int,
    x: int,
)
    requires
        r.exact(),
        m.wf(),
        m.n_params <= g.len(),
        0 <= k <= m.shape.n_layer,
        0 <= l < m.shape.n_layer,
        trace_sized(m.shape, t, n),
        dx.len() == n,
        unit_is_dead(r, t, l, j, n),
        in_unit(m, l, j, x),
    ensures
        layers_grad(m, p, t, g, dx, k).0.len() == g.len(),
        r.v(layers_grad(m, p, t, g, dx, k).0[x]) == r.v(g[x]),
    decreases k,
{
    if k > 0 {
        let (sh, lt) = (m.layers@[k - 1], t.layers[k - 1]);
        let d = layer_grads(m.shape, layer_weights(sh, p), t.xs[k - 1], lt, dx);
        let g2 = layer_weight_grads(sh, g, lt, dx, d);
        lemma_layer_keeps_unit(r, m, p, t, g, dx, n, k - 1, l, j, x);
        lemma_layers_keep_unit(r, m, p, t, g2, d.dx, n, k - 1, l, j, x);
    }
}

/// The embeddings change nothing behind the tables.
proof fn lemma_embeddings_keep<F: Float>(
    m: Model,
    tokens: Seq<usize>,
    x0: Mat<F>,
    dx: Mat<F>,
    g: Seq<F>,
    n: int,
    k: int,
    x: int,
)
    requires
        m.wf(),
        0 <= k <= n <= m.shape.block_size,
        forall|i: int| 0 <= i < n ==> (#[trigger] tokens[i]) < m.vocab_size,
        forall|i: int| 0 <= i < n ==> (#[trigger] x0[i]).len() == m.shape.n_embd,
        m.lm_head.end() <= x < g.len(),
    ensures
        embeddings_grad(m, tokens, x0, dx, g, k).len() == g.len(),
        embeddings_grad(m, tokens, x0, dx, g, k)[x] == g[x],
    decreases k,
{
    if k > 0 {
        lemma_embeddings_keep(m, tokens, x0, dx, g, n, k - 1, x);
        lemma_tables_inside(m);
        let e = m.shape.n_embd as int;
        let tok = tokens[k - 1] as int;
        assert(x0[k - 1].len() == e);
        lemma_cell(tok, 0, m.vocab_size as int, e);
        lemma_cell(k - 1, 0, m.shape.block_size as int, e);
        assert(m.vocab_size * e <= x && m.wpe.end() <= x) by {
            assert(0 <= m.lm_head.size()) by (nonlinear_arith)
                requires
                    m.lm_head.size() == m.lm_head.rows * m.lm_head.cols,
            ;
            assert(0 <= m.wpe.size()) by (nonlinear_arith)
                requires
                    m.wpe.size() == m.wpe.rows * m.wpe.cols,
            ;
        }
    }
}

/// A unit that never fires gets no gradient: where its value is zero at every position, the
/// backward pass adds nothing to the gradients of its input and output weights.
pub proof fn law_dead_unit_gets_no_gradient<F: Float>(
    r: Reading<F>,
    m: Model,
    p: Seq<F>,
    tokens: Seq<usize>,
    t: Trace<F>,
    probs: Mat<F>,
    g: Seq<F>,
    n: int,
    l: int,
    j: int,
)
    requires
        r.exact(),
        m.wf(),
        m.n_params <= g.len(),
        0 <= n <= m.shape.block_size,
        tokens_known(m, tokens, n),
        trace_sized(m.shape, t, n),
        forall|i: int| 0 <= i < n ==> (#[trigger] t.x0[i]).len() == m.shape.n_embd,
        0 <= l < m.shape.n_layer,
        unit_is_dead(r, t, l, j, n),
    ensures
        forall|x: int|
            in_unit(m, l, j, x) ==> r.v(
                #[trigger] gradient(m, p, tokens, t, probs, g, n)[x],
            ) == r.v(g[x]),
{
    let (e, depth) = (m.shape.n_embd as int, m.shape.n_layer as int);
    let dl = logit_grad(probs, tokens, n);
    let g1 = weight_grad(g, m.lm_head, dl, t.xs[depth]);
    let dx = input_grad(dl, m.lm_head.of(p), e);
    let (g2, dx0) = layers_grad(m, p, t, g1, dx, depth);
    let g3 = embeddings_grad(m, tokens, t.x0, dx0, g2, n);
    assert(g3 == gradient(m, p, tokens, t, probs, g, n));
    assert forall|x: int| in_unit(m, l, j, x) implies r.v(
        #[trigger] g3[x],
    ) == r.v(g[x]) by {
        lemma_unit_inside(m, l, j, x);
        assert(g1[x] == g[x]);
        lemma_layers_keep_unit(r, m, p, t, g1, dx, n, depth, l, j, x);
        lemma_embeddings_keep(m, tokens, t.x0, dx0, g2, n, n, x);
    }
}

/// The positive part of a dot product with zeros.
proof fn lemma_zero_input<F: Float>(r: Reading<F>, h: Seq<F>, row: Seq<F>)
    requires
        r.exact(),
        r.maxima(),
        h.len() == row.len(),
        forall|c: int| 0 <= c < row.len() ==> r.v(#[trigger] row[c]) == 0real,
    ensures
        r.v(larger(dot_of(h, row), zero())) == 0real,
{
    let e = row.len() as int;
    lemma_dot_value(r, h, row);
    let (a, b) = (|c: int| r.v(h[c]), |c: int| r.v(row[c]));
    assert forall|c: int| 0 <= c < e implies #[trigger] a(c) == 0real || b(c) == 0real by {
        assert(r.v(row[c]) == 0real);
    }
    lemma_zero_products(a, b, e);
    lemma_sum_eq(|c: int| a(c) * b(c), |c: int| r.v(h[c]) * r.v(row[c]), e);
}

/// The input weights of a unit are a row of the first matrix.
proof fn lemma_unit_row<F: Float>(r: Reading<F>, m: Model, p: Seq<F>, l: int, j: int)
    requires
        m.wf(),
        m.n_params <= p.len(),
        0 <= l < m.shape.n_layer,
        0 <= j < m.shape.hidden(),
        forall|x: int| feeds_unit(m, l, j, x) ==> r.v(#[trigger] p[x]) == 0real,
    ensures
        m.layers@[l].fc1.of(p)[j].len() == m.shape.n_embd,
        forall|c: int|
            0 <= c < m.shape.n_embd ==> r.v(#[trigger] m.layers@[l].fc1.of(p)[j][c]) == 0real,
{
    let sh = m.layers@[l];
    let (e, rows) = (m.shape.n_embd as int, m.shape.hidden());
    lemma_layer_inside(m, l);
    assert(is_layer(sh, m.layer_base(l), m.shape));
    lemma_tensor_sized(sh.fc1, p);
    assert forall|c: int| 0 <= c < e implies r.v(#[trigger] sh.fc1.of(p)[j][c]) == 0real by {
        lemma_row_entry(sh.fc1.slice_of(p), j, c, rows, e);
        lemma_cell(j, c, rows, e);
        let k = sh.fc1.off + (j * e + c);
        assert(feeds_unit(m, l, j, k));
        assert(r.v(p[k]) == 0real);
    }
}

/// A unit whose input weights are zero never fires.
pub proof fn law_unit_without_inputs_is_dead<F: Float>(
    r: Reading<F>,
    m: Model,
    p: Seq<F>,
    tokens: Seq<usize>,
    n: int,
    l: int,
    j: int,
)
    requires
        r.exact(),
        r.maxima(),
        m.wf(),
        m.n_params <= p.len(),
        0 <= n,
        0 <= l < m.shape.n_layer,
        0 <= j < m.shape.hidden(),
        forall|x: int| feeds_unit(m, l, j, x) ==> r.v(#[trigger] p[x]) == 0real,
    ensures
        unit_is_dead(r, network(m, p, tokens, n), l, j, n),
{
    let (s, sh) = (m.shape, m.layers@[l]);
    let e = s.n_embd as int;
    let w = layer_weights(sh, p);
    let x = stream(m, p, tokens, n, l);
    let t = layer_trace(s, w, x);
    lemma_layer_inside(m, l);
    assert(is_layer(sh, m.layer_base(l), s));
    lemma_streams_sized(m, p, tokens, n, l);
    lemma_tensor_sized(sh.fc1, p);
    lemma_layer_values_sized(s, w, x);
    lemma_unit_row(r, m, p, l, j);
    assert(network(m, p, tokens, n).layers[l] == t);
    assert forall|i: int| 0 <= i < n implies r.v(
        #[trigger] network(m, p, tokens, n).layers[l].r[i][j],
    ) == 0real by {
        assert(t.h2[i].len() == e);
        lemma_zero_input(r, t.h2[i], w.fc1[j]);
        assert(t.r[i] == relu_of(linear(t.h2[i], w.fc1)));
        assert(linear(t.h2[i], w.fc1)[j] == dot_of(t.h2[i], w.fc1[j]));
    }
}

/// What a document adds to the gradient of a weight of a unit without inputs: nothing.
proof fn lemma_document_keeps_unit<F: Float>(
    r: Reading<F>,
    m: Model,
    data: Dataset,
    batch: int,
    p: Seq<F>,
    epoch: int,
    k: int,
    l: int,
    j: int,
    x: int,
)
    requires
        r.exact(),
        r.maxima(),
        m.wf(),
        m.n_params <= p.len(),
        data.wf(),
        fits_data(m, data),
        has_documents(data),
        1 <= epoch,
        0 <= k < batch,
        0 <= l < m.shape.n_layer,
        0 <= j < m.shape.hidden(),
        in_unit(m, l, j, x),
        forall|y: int| feeds_unit(m, l, j, y) ==> r.v(#[trigger] p[y]) == 0real,
    ensures
        document_entry(r, m, data, batch, p, epoch, k, x) == 0real,
{
    let d = doc_index(epoch, batch, k, data.n_train as int);
    let tokens = step_tokens(data, epoch, batch, k);
    let n = doc_len(m, tokens);
    let t = network(m, p, tokens, n);
    let none = zero_vec::<F>(m.n_params as int);
    lemma_doc_covered(data, d);
    lemma_tokens_in_range(data.uchars@, data.docs@[d]@);
    assert(tokens_known(m, tokens, n)) by {
        assert forall|i: int| 0 <= i <= n implies #[trigger] tokens[i] < m.vocab_size by {
            assert(tokens[i] < data.uchars@.len() + 1);
        }
    }
    lemma_network_sized(m, p, tokens, n);
    law_unit_without_inputs_is_dead(r, m, p, tokens, n, l, j);
    law_dead_unit_gets_no_gradient(r, m, p, tokens, t, probs_of(t.logits), none, n, l, j);
    lemma_unit_inside(m, l, j, x);
    assert(doc_grad(m, p, tokens, none) == gradient(m, p, tokens, t, probs_of(t.logits), none, n));
}

/// What a step adds to the gradient of a weight of a unit without inputs: nothing.
proof fn lemma_batch_keeps_unit<F: Float>(
    r: Reading<F>,
    m: Model,
    data: Dataset,
    plan: Plan<F>,
    p: Seq<F>,
    epoch: int,
    l: int,
    j: int,
    x: int,
)
    requires
        r.exact(),
        r.maxima(),
        m.wf(),
        m.n_params <= p.len(),
        data.wf(),
        fits_data(m, data),
        has_documents(data),
        0 <= plan.workers,
        owners_exist(plan, epoch),
        1 <= epoch,
        0 <= l < m.shape.n_layer,
        0 <= j < m.shape.hidden(),
        in_unit(m, l, j, x),
        forall|y: int| feeds_unit(m, l, j, y) ==> r.v(#[trigger] p[y]) == 0real,
    ensures
        r.v(batch_grad(m, data, plan, p, epoch, plan.workers)[x]) == 0real,
{
    let batch = plan.batch as int;
    lemma_unit_inside(m, l, j, x);
    lemma_tables_inside(m);
    assert(0 <= x) by {
        assert(0 <= m.lm_head.size()) by (nonlinear_arith)
            requires
                m.lm_head.size() == m.lm_head.rows * m.lm_head.cols,
        ;
    }
    law_batch_is_mean(r, m, data, plan, p, epoch, x);
    let f = |k: int| document_entry(r, m, data, batch, p, epoch, k, x);
    assert forall|k: int| 0 <= k < batch implies #[trigger] f(k) == 0real by {
        lemma_document_keeps_unit(r, m, data, batch, p, epoch, k, l, j, x);
    }
    lemma_sum_zero(f, batch);
    let inv = r.v(inv_batch::<F>(plan.batch));
    assert(inv * 0real == 0real) by (nonlinear_arith);
}

/// A step of the optimizer keeps a parameter whose moments and gradient are zero.
proof fn lemma_optimizer_keeps<F: Float>(
    r: Reading<F>,
    p: F,
    m: F,
    v: F,
    g: F,
    lr: F,
    t: usize,
)
    requires
        r.exact(),
        r.roots_and_powers(),
        t as i32 >= 1,
        r.v(m) == 0real,
        r.v(v) == 0real,
        r.v(g) == 0real,
    ensures
        r.v(first_moment(m, g)) == 0real,
        r.v(second_moment(v, g)) == 0real,
        r.v(adam_param(p, first_moment(m, g), second_moment(v, g), lr, t)) == r.v(p),
{
    let (m1, v1) = (first_moment(m, g), second_moment(v, g));
    let (b1, b2) = (r.v(beta1_of::<F>()), r.v(beta2_of::<F>()));
    let (n1, n2) = (1real - b1, 1real - b2);
    assert(b1 * 0real == 0real) by (nonlinear_arith);
    assert(b2 * 0real == 0real) by (nonlinear_arith);
    assert(n1 * 0real == 0real) by (nonlinear_arith);
    assert(n2 * 0real == 0real) by (nonlinear_arith);
    assert(0real * 0real == 0real) by (nonlinear_arith);
    assert(r.v(m1) == 0real);
    assert(r.v(v1) == 0real);
    let (c, rate) = (r.v(bias_correction(beta1_of::<F>(), t)), r.v(lr));
    assert(0real * c == 0real) by (nonlinear_arith);
    assert(rate * 0real == 0real) by (nonlinear_arith);
    assert(r.v(times(lr, times(m1, bias_correction(beta1_of(), t)))) == 0real);
    lemma_no_change(r, p, m1, v1, lr, t);
}

/// A unit without inputs stays dead under training: its input weights stay zero and its output
/// weights stay what they are, through every step of a run.
pub proof fn law_dead_unit_stays_dead<F: Float>(
    r: Reading<F>,
    m: Model,
    data: Dataset,
    plan: Plan<F>,
    p: Seq<F>,
    steps: int,
    l: int,
    j: int,
)
    requires
        r.exact(),
        r.maxima(),
        r.roots_and_powers(),
        m.wf(),
        p.len() == m.n_params,
        data.wf(),
        fits_data(m, data),
        has_documents(data),
        0 <= plan.workers,
        forall|epoch: int| 1 <= epoch <= steps ==> #[trigger] owners_exist(plan, epoch),
        0 <= steps <= i32::MAX,
        0 <= l < m.shape.n_layer,
        0 <= j < m.shape.hidden(),
        forall|x: int| feeds_unit(m, l, j, x) ==> r.v(#[trigger] p[x]) == 0real,
    ensures
        ({
            let run = run_after(m, data, plan, p, steps);
            &&& run.p.len() == p.len()
            &&& run.m.len() == p.len()
            &&& run.v.len() == p.len()
            &&& forall|x: int| #[trigger]
                in_unit(m, l, j, x) ==> {
                    &&& r.v(run.p[x]) == r.v(p[x])
                    &&& r.v(run.m[x]) == 0real
                    &&& r.v(run.v[x]) == 0real
                }
        }),
    decreases steps,
{
    let run = run_after(m, data, plan, p, steps);
    if steps == 0 {
        assert forall|x: int| #[trigger] in_unit(m, l, j, x) implies r.v(run.m[x]) == 0real && r.v(
            run.v[x],
        ) == 0real by {
            lemma_unit_index(m, l, j, x);
        }
    } else {
        law_dead_unit_stays_dead(r, m, data, plan, p, steps - 1, l, j);
        let before = run_after(m, data, plan, p, steps - 1);
        let g = batch_grad(m, data, plan, before.p, steps, plan.workers);
        let lr = rate_at(plan.lr, (steps - 1) as usize, plan.num_steps);
        let t = steps as usize;
        assert(owners_exist(plan, steps));
        assert(t as i32 >= 1);
        assert forall|y: int| feeds_unit(m, l, j, y) implies r.v(#[trigger] before.p[y])
            == 0real by {
            assert(in_unit(m, l, j, y));
            assert(r.v(p[y]) == 0real);
        }
        assert forall|x: int| #[trigger] in_unit(m, l, j, x) implies r.v(run.p[x]) == r.v(p[x])
            && r.v(run.m[x]) == 0real && r.v(run.v[x]) == 0real by {
            lemma_unit_index(m, l, j, x);
            lemma_batch_keeps_unit(r, m, data, plan, before.p, steps, l, j, x);
            lemma_optimizer_keeps(r, before.p[x], before.m[x], before.v[x], g[x], lr, t);
        }
    }
}

/// The weights of a unit are parameters.
proof fn lemma_unit_index(m: Model, l: int, j: int, x: int)
    requires
        m.wf(),
        0 <= l < m.shape.n_layer,
        in_unit(m, l, j, x),
    ensures
        0 <= x < m.n_params,
{
    lemma_unit_inside(m, l, j, x);
}

} // verus!
