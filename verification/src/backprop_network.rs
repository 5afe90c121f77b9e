//! Why the backward pass through the whole network is right.
use vstd::prelude::*;

use crate::backprop::{
    lemma_linear_dual, lemma_loss_rate, lemma_norm_dual, lemma_params_step, lemma_params_stretch,
    lemma_params_unchanged, lemma_plus_dual, lemma_relu_dual, lemma_weight_grad, paired,
    params_paired, row_paired,
};
use crate::backprop_attention::{attends, lemma_attention_dual};
use crate::derivative::{lemma_distributes, lemma_rmsnorm_dual};
use crate::document::{doc_grad, doc_len, doc_loss, tokens_known};
use crate::gradient::{
    embedding_grad, embeddings_grad, gradient, input_grad, layer_grads, layer_weight_grads,
    layers_grad, logit_grad, weight_grad, with_added,
};
use crate::kernels::rmsnorm_of;
use crate::loss::{loss_of, probs_of};
use crate::matrix::{lemma_row_len, linear, Mat};
use crate::model::{is_layer, lemma_layer_inside, lemma_tables_inside, Model, Shape, Tensor};
use crate::network::{
    embedded, layer_out, layer_trace, layer_weights, network, stream, LayerWeights,
};
use crate::reading::Reading;
use crate::scalar::{plus, zero, Float};
use crate::sums::{lemma_sum_eq, lemma_sum_plus, lemma_sum_single, sum};

verus! {

/// A matrix with `n` rows and `w` columns.
pub open spec fn sized<F>(a: Mat<F>, n: int, w: int) -> bool {
    &&& a.len() == n
    &&& forall|i: int| 0 <= i < n ==> (#[trigger] a[i]).len() == w
}

/// The matrix inside a buffer has the size that the tensor says.
pub proof fn lemma_tensor_sized<F>(t: Tensor, buf: Seq<F>)
    requires
        t.end() <= buf.len(),
    ensures
        sized(t.of(buf), t.rows as int, t.cols as int),
{
    assert(0 <= t.size()) by (nonlinear_arith)
        requires
            t.size() == t.rows * t.cols,
    ;
    assert forall|i: int| 0 <= i < t.rows implies (#[trigger] t.of(buf)[i]).len() == t.cols by {
        lemma_row_len(t.slice_of(buf), i, t.rows as int, t.cols as int);
    }
}

/// The values of a layer have the sizes that its shape says.
pub proof fn lemma_layer_values_sized<F: Float>(s: Shape, w: LayerWeights<F>, x: Mat<F>)
    requires
        sized(x, x.len() as int, s.n_embd as int),
        w.wqkv.len() == 3 * s.n_embd,
        w.wo.len() == s.n_embd,
        w.fc1.len() == s.hidden(),
        w.fc2.len() == s.n_embd,
    ensures
        ({
            let t = layer_trace(s, w, x);
            let (n, e) = (x.len() as int, s.n_embd as int);
            &&& sized(t.h, n, e)
            &&& sized(t.qkv, n, 3 * e)
            &&& sized(t.attn_out, n, e)
            &&& sized(t.x2, n, e)
            &&& sized(t.h2, n, e)
            &&& sized(t.r, n, s.hidden())
            &&& sized(layer_out(s, w, x), n, e)
        }),
{
    let t = layer_trace(s, w, x);
    assert forall|i: int| 0 <= i < x.len() implies (#[trigger] t.h[i]).len() == s.n_embd by {
        assert(x[i].len() == s.n_embd);
    }
    assert forall|i: int| 0 <= i < x.len() implies (#[trigger] t.h2[i]).len() == s.n_embd by {
        assert(t.x2[i].len() == s.n_embd);
    }
}

/// The gradients of one layer: of its weights and of its input.
#[verifier::rlimit(30)]
proof fn lemma_layer_dual<F: Float>(
    r: Reading<F>,
    m: Model,
    p: Seq<F>,
    l: int,
    x: Mat<F>,
    dx: Mat<F>,
    g: Seq<F>,
)
    requires
        r.dual(),
        m.wf(),
        m.n_params <= p.len(),
        g.len() == p.len(),
        0 <= l < m.shape.n_layer,
        sized(x, x.len() as int, m.shape.n_embd as int),
        sized(dx, x.len() as int, m.shape.n_embd as int),
    ensures
        ({
            let (s, sh) = (m.shape, m.layers@[l]);
            let w = layer_weights(sh, p);
            let t = layer_trace(s, w, x);
            let d = layer_grads(s, w, x, t, dx);
            let g2 = layer_weight_grads(sh, g, t, dx, d);
            let (n, e) = (x.len() as int, s.n_embd as int);
            &&& g2.len() == g.len()
            &&& sized(d.dx, n, e)
            &&& paired(r, dx, layer_out(s, w, x), n, e) == params_paired(r, g, g2, p) + paired(
                r,
                d.dx,
                x,
                n,
                e,
            )
        }),
{
    let (s, sh) = (m.shape, m.layers@[l]);
    let w = layer_weights(sh, p);
    let t = layer_trace(s, w, x);
    let out = layer_out(s, w, x);
    let d = layer_grads(s, w, x, t, dx);
    let (n, e, hidden) = (x.len() as int, s.n_embd as int, s.hidden());
    lemma_layer_inside(m, l);
    assert(is_layer(sh, m.layer_base(l), s));
    lemma_tensor_sized(sh.wqkv, p);
    lemma_tensor_sized(sh.wo, p);
    lemma_tensor_sized(sh.fc1, p);
    lemma_tensor_sized(sh.fc2, p);
    lemma_layer_values_sized(s, w, x);
    // the MLP
    let y1 = Seq::new(n as nat, |i: int| linear(t.r[i], w.fc2));
    let u = Seq::new(n as nat, |i: int| linear(t.h2[i], w.fc1));
    let din = input_grad(dx, w.fc2, hidden);
    let dh2 = input_grad(d.dr, w.fc1, e);
    lemma_plus_dual(r, dx, y1, t.x2, out, n, e);
    lemma_linear_dual(r, dx, t.r, w.fc2, y1, hidden);
    lemma_relu_dual(r, u, din, t.r, n, hidden);
    lemma_linear_dual(r, d.dr, t.h2, w.fc1, u, e);
    lemma_norm_dual(r, t.x2, dh2, dx, t.h2, n, e);
    // the attention
    let y2 = Seq::new(n as nat, |i: int| linear(t.attn_out[i], w.wo));
    let datt = input_grad(d.dx2, w.wo, e);
    let dh = input_grad(d.dqkv, w.wqkv, e);
    lemma_plus_dual(r, d.dx2, y2, x, t.x2, n, e);
    lemma_linear_dual(r, d.dx2, t.attn_out, w.wo, y2, e);
    assert(attends(s, t, datt, n));
    lemma_attention_dual(r, s, t, datt, n);
    lemma_linear_dual(r, d.dqkv, t.h, w.wqkv, t.qkv, e);
    lemma_norm_dual(r, x, dh, d.dx2, t.h, n, e);
    // the weights
    let g1 = weight_grad(g, sh.fc2, dx, t.r);
    let g2 = weight_grad(g1, sh.fc1, d.dr, t.h2);
    let g3 = weight_grad(g2, sh.wo, d.dx2, t.attn_out);
    let g4 = weight_grad(g3, sh.wqkv, d.dqkv, t.h);
    lemma_weight_grad(r, g, sh.fc2, dx, t.r, p);
    lemma_weight_grad(r, g1, sh.fc1, d.dr, t.h2, p);
    lemma_weight_grad(r, g2, sh.wo, d.dx2, t.attn_out, p);
    lemma_weight_grad(r, g3, sh.wqkv, d.dqkv, t.h, p);
    lemma_params_step(r, g, g1, g2, p);
    lemma_params_step(r, g, g2, g3, p);
    lemma_params_step(r, g, g3, g4, p);
    assert(g4 == layer_weight_grads(sh, g, t, dx, d));
}

/// The gradients of the first `l` layers.
proof fn lemma_layers_dual<F: Float>(
    r: Reading<F>,
    m: Model,
    p: Seq<F>,
    tokens: Seq<usize>,
    n: int,
    dx: Mat<F>,
    g: Seq<F>,
    l: int,
)
    requires
        r.dual(),
        m.wf(),
        m.n_params <= p.len(),
        g.len() == p.len(),
        0 <= n,
        0 <= l <= m.shape.n_layer,
        sized(stream(m, p, tokens, n, 0), n, m.shape.n_embd as int),
        sized(dx, n, m.shape.n_embd as int),
    ensures
        ({
            let (g2, dx0) = layers_grad(m, p, network(m, p, tokens, n), g, dx, l);
            let e = m.shape.n_embd as int;
            &&& g2.len() == g.len()
            &&& sized(dx0, n, e)
            &&& sized(stream(m, p, tokens, n, l), n, e)
            &&& paired(r, dx, stream(m, p, tokens, n, l), n, e) == params_paired(r, g, g2, p)
                + paired(r, dx0, stream(m, p, tokens, n, 0), n, e)
        }),
    decreases l,
{
    let e = m.shape.n_embd as int;
    let t = network(m, p, tokens, n);
    if l == 0 {
        lemma_params_unchanged(r, g, p);
    } else {
        let sh = m.layers@[l - 1];
        let w = layer_weights(sh, p);
        let x = stream(m, p, tokens, n, l - 1);
        let lt = layer_trace(m.shape, w, x);
        lemma_streams_sized(m, p, tokens, n, l - 1);
        lemma_streams_sized(m, p, tokens, n, l);
        assert(t.xs[l - 1] == x);
        assert(t.layers[l - 1] == lt);
        lemma_layer_dual(r, m, p, l - 1, x, dx, g);
        let d = layer_grads(m.shape, w, x, lt, dx);
        let g1 = layer_weight_grads(sh, g, lt, dx, d);
        lemma_layers_dual(r, m, p, tokens, n, d.dx, g1, l - 1);
        let (g2, dx0) = layers_grad(m, p, t, g1, d.dx, l - 1);
        lemma_params_step(r, g, g1, g2, p);
    }
}

/// The inputs of the layers have the width of the network.
pub proof fn lemma_streams_sized<F: Float>(
    m: Model,
    p: Seq<F>,
    tokens: Seq<usize>,
    n: int,
    l: int,
)
    requires
        m.wf(),
        m.n_params <= p.len(),
        0 <= n,
        0 <= l <= m.shape.n_layer,
    ensures
        sized(stream(m, p, tokens, n, l), n, m.shape.n_embd as int),
    decreases l,
{
    if l > 0 {
        lemma_streams_sized(m, p, tokens, n, l - 1);
        let sh = m.layers@[l - 1];
        let x = stream(m, p, tokens, n, l - 1);
        lemma_layer_inside(m, l - 1);
        assert(is_layer(sh, m.layer_base(l - 1), m.shape));
        lemma_layer_values_sized(m.shape, layer_weights(sh, p), x);
    }
}

/// A row added to the gradients of a stretch of the parameters.
proof fn lemma_with_added<F: Float>(
    r: Reading<F>,
    g: Seq<F>,
    off: int,
    row: Seq<F>,
    p: Seq<F>,
)
    requires
        r.exact(),
        0 <= off,
        off + row.len() <= p.len(),
        g.len() == p.len(),
    ensures
        params_paired(r, g, with_added(g, off, row), p) == row_paired(
            r,
            row,
            p.subrange(off, off + row.len()),
            row.len() as int,
        ),
{
    let g2 = with_added(g, off, row);
    let part = p.subrange(off, off + row.len());
    lemma_params_stretch(r, g, g2, p, off, row.len() as int);
    lemma_sum_eq(
        |k: int| (r.v(g2[off + k]) - r.v(g[off + k])) * r.d(p[off + k]),
        |k: int| r.v(row[k]) * r.d(part[k]),
        row.len() as int,
    );
}

/// The gradients of the embeddings at the first `k` positions.
proof fn lemma_embeddings_dual<F: Float>(
    r: Reading<F>,
    m: Model,
    p: Seq<F>,
    tokens: Seq<usize>,
    dx: Mat<F>,
    g: Seq<F>,
    n: int,
    k: int,
)
    requires
        r.dual(),
        m.wf(),
        m.n_params <= p.len(),
        g.len() == p.len(),
        0 <= k <= n <= m.shape.block_size,
        sized(dx, n, m.shape.n_embd as int),
        forall|i: int| 0 <= i < n ==> (#[trigger] tokens[i]) < m.vocab_size,
    ensures
        ({
            let t = network(m, p, tokens, n);
            let g2 = embeddings_grad(m, tokens, t.x0, dx, g, k);
            &&& g2.len() == g.len()
            &&& paired(r, dx, stream(m, p, tokens, n, 0), k, m.shape.n_embd as int)
                == params_paired(r, g, g2, p)
        }),
    decreases k,
{
    let e = m.shape.n_embd as int;
    let t = network(m, p, tokens, n);
    let x0 = t.x0;
    if k == 0 {
        lemma_params_unchanged(r, g, p);
    } else {
        lemma_embeddings_dual(r, m, p, tokens, dx, g, n, k - 1);
        let i = k - 1;
        let tok = tokens[i] as int;
        let row = embedding_grad(x0, dx, i);
        let g1 = embeddings_grad(m, tokens, x0, dx, g, i);
        let (token_row, place_row) = (m.wte.of(p)[tok], m.wpe.of(p)[i]);
        let (a, b) = (m.wte.off + tok * e, m.wpe.off + i * e);
        lemma_tables_inside(m);
        lemma_table_row(m.wte, p, tok);
        lemma_table_row(m.wpe, p, i);
        assert(x0[i] == embedded(m, p, tokens, i));
        assert(dx[i].len() == e);
        let g2 = with_added(g1, a, row);
        let g3 = with_added(g2, b, row);
        lemma_with_added(r, g1, a, row, p);
        lemma_with_added(r, g2, b, row, p);
        lemma_params_step(r, g1, g2, g3, p);
        lemma_params_step(r, g, g1, g3, p);
        assert(row.len() == e);
        assert(p.subrange(a, a + e) =~= token_row);
        assert(p.subrange(b, b + e) =~= place_row);
        // the rates of the embedding are those of both rows
        let none = Seq::new(x0[i].len(), |d: int| zero::<F>());
        let y = stream(m, p, tokens, n, 0)[i];
        assert(y == rmsnorm_of(x0[i]));
        lemma_rmsnorm_dual(r, x0[i], dx[i], none);
        let added = |d: int| (r.v(row[d]) - r.v(none[d])) * r.d(x0[i][d]);
        let tokens_part = |d: int| r.v(row[d]) * r.d(token_row[d]);
        let places_part = |d: int| r.v(row[d]) * r.d(place_row[d]);
        assert forall|d: int| 0 <= d < e implies #[trigger] added(d) == tokens_part(d)
            + places_part(d) by {
            assert(x0[i][d] == plus(token_row[d], place_row[d]));
            lemma_distributes(r.v(row[d]), r.d(token_row[d]), r.d(place_row[d]));
        }
        lemma_sum_plus(tokens_part, places_part, e);
        lemma_sum_eq(added, |d: int| tokens_part(d) + places_part(d), e);
        assert(row_paired(r, dx[i], y, e) == sum(added, e));
    }
}

/// Row `i` of a table is a stretch of the parameters.
proof fn lemma_table_row<F>(t: Tensor, p: Seq<F>, i: int)
    requires
        t.end() <= p.len(),
        0 <= i < t.rows,
    ensures
        0 <= i * t.cols,
        t.off + i * t.cols + t.cols <= t.end(),
        t.of(p)[i] == p.subrange(t.off + i * t.cols, t.off + i * t.cols + t.cols),
{
    assert(0 <= t.size()) by (nonlinear_arith)
        requires
            t.size() == t.rows * t.cols,
    ;
    lemma_row_len(t.slice_of(p), i, t.rows as int, t.cols as int);
    assert(t.of(p)[i] =~= p.subrange(t.off + i * t.cols, t.off + i * t.cols + t.cols));
}

/// The backward pass computes the derivative of the loss. Read the numbers as dual numbers: let
/// the parameters change at given rates. The rate at which the loss over the first `n` positions
/// then changes is the sum of these rates, each weighted by what the backward pass adds to the
/// gradient of its parameter.
pub proof fn law_gradient_is_derivative<F: Float>(
    r: Reading<F>,
    m: Model,
    p: Seq<F>,
    tokens: Seq<usize>,
    n: int,
    g: Seq<F>,
)
    requires
        r.dual(),
        m.wf(),
        m.n_params <= p.len(),
        g.len() == p.len(),
        1 <= n <= m.shape.block_size,
        tokens_known(m, tokens, n),
    ensures
        ({
            let t = network(m, p, tokens, n);
            let after = gradient(m, p, tokens, t, probs_of(t.logits), g, n);
            r.d(loss_of(t.logits, tokens, n)) == sum(
                |k: int| (r.v(after[k]) - r.v(g[k])) * r.d(p[k]),
                p.len() as int,
            )
        }),
{
    let t = network(m, p, tokens, n);
    let (e, depth, v) = (m.shape.n_embd as int, m.shape.n_layer as int, m.vocab_size as int);
    let x = stream(m, p, tokens, n, depth);
    let head = m.lm_head.of(p);
    let probs = probs_of(t.logits);
    let dl = logit_grad(probs, tokens, n);
    let g1 = weight_grad(g, m.lm_head, dl, x);
    let dx = input_grad(dl, head, e);
    let (g2, dx0) = layers_grad(m, p, t, g1, dx, depth);
    let g3 = embeddings_grad(m, tokens, t.x0, dx0, g2, n);
    lemma_tables_inside(m);
    lemma_tensor_sized(m.lm_head, p);
    lemma_streams_sized(m, p, tokens, n, 0);
    lemma_streams_sized(m, p, tokens, n, depth);
    assert(t.xs[depth] == x);
    lemma_loss_rate(r, t.logits, tokens, n, v);
    lemma_linear_dual(r, dl, x, head, t.logits, e);
    lemma_weight_grad(r, g, m.lm_head, dl, x, p);
    lemma_layers_dual(r, m, p, tokens, n, dx, g1, depth);
    lemma_embeddings_dual(r, m, p, tokens, dx0, g2, n, n);
    lemma_params_step(r, g, g1, g2, p);
    lemma_params_step(r, g, g2, g3, p);
    assert(g3 == gradient(m, p, tokens, t, probs, g, n));
}

/// What the backward pass adds to the gradient of parameter `k` is the partial derivative of the
/// loss over the first `n` positions: the rate of the loss where that parameter alone changes, at
/// rate one.
pub proof fn law_gradient_is_partial_derivative<F: Float>(
    r: Reading<F>,
    m: Model,
    p: Seq<F>,
    tokens: Seq<usize>,
    n: int,
    g: Seq<F>,
    k: int,
)
    requires
        r.dual(),
        m.wf(),
        m.n_params <= p.len(),
        g.len() == p.len(),
        1 <= n <= m.shape.block_size,
        tokens_known(m, tokens, n),
        0 <= k < p.len(),
        r.d(p[k]) == 1real,
        forall|i: int| 0 <= i < p.len() && i != k ==> r.d(#[trigger] p[i]) == 0real,
    ensures
        ({
            let t = network(m, p, tokens, n);
            let after = gradient(m, p, tokens, t, probs_of(t.logits), g, n);
            r.v(after[k]) == r.v(g[k]) + r.d(loss_of(t.logits, tokens, n))
        }),
{
    law_gradient_is_derivative(r, m, p, tokens, n, g);
    let t = network(m, p, tokens, n);
    let after = gradient(m, p, tokens, t, probs_of(t.logits), g, n);
    let f = |i: int| (r.v(after[i]) - r.v(g[i])) * r.d(p[i]);
    assert forall|i: int| 0 <= i < p.len() && i != k implies #[trigger] f(i) == 0real by {
        let z = r.v(after[i]) - r.v(g[i]);
        assert(r.d(p[i]) == 0real);
        assert(z * 0real == 0real) by (nonlinear_arith);
    }
    lemma_sum_single(f, k, p.len() as int);
    let z = r.v(after[k]) - r.v(g[k]);
    assert(z * 1real == z) by (nonlinear_arith);
}

/// For a whole document: the rate of its loss is the sum of the rates of the parameters, each
/// weighted by what its gradient adds.
pub proof fn law_document_gradient_is_derivative<F: Float>(
    r: Reading<F>,
    m: Model,
    p: Seq<F>,
    tokens: Seq<usize>,
    g: Seq<F>,
)
    requires
        r.dual(),
        m.wf(),
        m.n_params <= p.len(),
        g.len() == p.len(),
        2 <= tokens.len(),
        tokens_known(m, tokens, doc_len(m, tokens)),
    ensures
        r.d(doc_loss(m, p, tokens)) == sum(
            |k: int| (r.v(doc_grad(m, p, tokens, g)[k]) - r.v(g[k])) * r.d(p[k]),
            p.len() as int,
        ),
{
    law_gradient_is_derivative(r, m, p, tokens, doc_len(m, tokens), g);
}

} // verus!
