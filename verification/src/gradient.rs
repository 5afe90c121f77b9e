//! What the backward pass computes, as mathematics: the gradient of the loss with respect to
//! every parameter, from the values that the forward pass left behind.
use vstd::prelude::*;

use crate::kernels::rmsnorm_grad;
use crate::matrix::{ab_acc, atb_acc, dot_of, filled, fma_chain, Mat};
use crate::model::{LayerShapes, Model, Shape, Tensor};
use crate::network::{attn_scale, key, layer_weights, query, value, LayerTrace, LayerWeights, Trace};
use crate::scalar::{is_at_most, minus, num, one, over, plus, times, zero, Float};

verus! {

/// `buf` with the matrix `m` in the place of the tensor `t`.
pub open spec fn with_matrix<F>(buf: Seq<F>, t: Tensor, m: Mat<F>) -> Seq<F> {
    Seq::new(
        buf.len(),
        |x: int|
            if t.off <= x < t.end() {
                m[(x - t.off) / t.cols as int][(x - t.off) % t.cols as int]
            } else {
                buf[x]
            },
    )
}

/// The gradient buffer `g` with `a^T * b` added to the tensor `t`: what a linear layer with the
/// output gradients `a` and the inputs `b` adds to the gradient of its weights.
pub open spec fn weight_grad<F: Float>(g: Seq<F>, t: Tensor, a: Mat<F>, b: Mat<F>) -> Seq<F> {
    with_matrix(g, t, atb_acc(a, b, t.of(g)))
}

/// The gradient of the inputs of a linear layer: `a * w`.
pub open spec fn input_grad<F: Float>(a: Mat<F>, w: Mat<F>, width: int) -> Mat<F> {
    ab_acc(a, w, filled(a.len() as int, width, zero()))
}

/// The gradient of the scores: probabilities less one at the target, divided by the number of
/// positions.
pub open spec fn logit_grad<F: Float>(probs: Mat<F>, tokens: Seq<usize>, n: int) -> Mat<F> {
    let inv_n = over(one(), num(n as usize));
    Seq::new(
        n as nat,
        |i: int|
            Seq::new(
                probs[i].len(),
                |o: int|
                    times(
                        if o == tokens[i + 1] {
                            minus(probs[i][o], one())
                        } else {
                            probs[i][o]
                        },
                        inv_n,
                    ),
            ),
    )
}

/// The gradient of the hidden values of the MLP before their positive part was taken: nothing
/// where the value was not positive.
pub open spec fn hidden_grad<F: Float>(r: Mat<F>, d: Mat<F>) -> Mat<F> {
    Seq::new(
        d.len(),
        |i: int|
            Seq::new(
                d[i].len(),
                |h: int|
                    if is_at_most(r[i][h], zero()) {
                        zero()
                    } else {
                        d[i][h]
                    },
            ),
    )
}

/// The gradient of [`crate::kernels::rmsnorm`] at each row, added to the rows of `dx`.
pub open spec fn norm_grad<F: Float>(x: Mat<F>, dy: Mat<F>, dx: Mat<F>) -> Mat<F> {
    Seq::new(dx.len(), |i: int| rmsnorm_grad(x[i], dy[i], dx[i]))
}

/// The gradient of the weights of head `hd` at position `i`. `datt` holds the gradients of the
/// outputs of the heads.
pub open spec fn head_weight_grad<F: Float>(
    s: Shape,
    qkv: Mat<F>,
    datt: Mat<F>,
    hd: int,
    i: int,
) -> Seq<F> {
    Seq::new(
        (i + 1) as nat,
        |j: int| dot_of(query(s, datt[i], hd), value(s, qkv[j], hd)),
    )
}

/// The products of the first `n` weights with their gradients, added up.
pub open spec fn weighted_sum<F: Float>(w: Seq<F>, dw: Seq<F>, n: int) -> F
    decreases n,
{
    if n <= 0 {
        zero()
    } else {
        plus(weighted_sum(w, dw, n - 1), times(w[n - 1], dw[n - 1]))
    }
}

/// The gradient of the unscaled scores that head `hd` gives at position `i`: back through the
/// softmax with the weights `w`, then through the scale.
pub open spec fn score_grad<F: Float>(
    s: Shape,
    qkv: Mat<F>,
    w: Seq<F>,
    datt: Mat<F>,
    hd: int,
    i: int,
) -> Seq<F> {
    let dw = head_weight_grad(s, qkv, datt, hd, i);
    let total = weighted_sum(w, dw, i + 1);
    Seq::new(
        (i + 1) as nat,
        |j: int| times(times(w[j], minus(dw[j], total)), attn_scale(s)),
    )
}

/// Entry `d` of the keys of head `hd` at the positions up to `i`.
pub open spec fn key_entries<F>(s: Shape, qkv: Mat<F>, hd: int, i: int, d: int) -> Seq<F> {
    Seq::new((i + 1) as nat, |j: int| key(s, qkv[j], hd)[d])
}

/// Entry `d` of the gradient of the query of head `hd` at position `r`.
pub open spec fn query_grad<F: Float>(
    s: Shape,
    t: LayerTrace<F>,
    datt: Mat<F>,
    hd: int,
    r: int,
    d: int,
) -> F {
    fma_chain(
        score_grad(s, t.qkv, t.attn_w[hd][r], datt, hd, r),
        key_entries(s, t.qkv, hd, r, d),
        zero(),
        r + 1,
    )
}

/// The gradients of the scores that the positions `r..n` give to position `r`.
pub open spec fn scores_onto<F: Float>(
    s: Shape,
    t: LayerTrace<F>,
    datt: Mat<F>,
    hd: int,
    r: int,
    n: int,
) -> Seq<F> {
    Seq::new(
        (n - r) as nat,
        |k: int| score_grad(s, t.qkv, t.attn_w[hd][r + k], datt, hd, r + k)[r],
    )
}

/// Entry `d` of the queries of head `hd` in the rows `r..n`.
pub open spec fn queries_from<F>(s: Shape, rows: Mat<F>, hd: int, r: int, n: int, d: int) -> Seq<
    F,
> {
    Seq::new((n - r) as nat, |k: int| query(s, rows[r + k], hd)[d])
}

/// The weights that the positions `r..n` give to position `r`.
pub open spec fn weights_onto<F>(t: LayerTrace<F>, hd: int, r: int, n: int) -> Seq<F> {
    Seq::new((n - r) as nat, |k: int| t.attn_w[hd][r + k][r])
}

/// Entry `d` of the gradient of the key of head `hd` at position `r`, from the positions `r..n`.
pub open spec fn key_grad<F: Float>(
    s: Shape,
    t: LayerTrace<F>,
    datt: Mat<F>,
    hd: int,
    r: int,
    d: int,
    n: int,
) -> F {
    fma_chain(
        scores_onto(s, t, datt, hd, r, n),
        queries_from(s, t.qkv, hd, r, n, d),
        zero(),
        n - r,
    )
}

/// Entry `d` of the gradient of the value of head `hd` at position `r`, from the positions
/// `r..n`.
pub open spec fn value_grad<F: Float>(
    s: Shape,
    t: LayerTrace<F>,
    datt: Mat<F>,
    hd: int,
    r: int,
    d: int,
    n: int,
) -> F {
    fma_chain(
        weights_onto(t, hd, r, n),
        queries_from(s, datt, hd, r, n, d),
        zero(),
        n - r,
    )
}

/// The gradient of query, key and value at every position.
pub open spec fn qkv_grad<F: Float>(s: Shape, t: LayerTrace<F>, datt: Mat<F>) -> Mat<F> {
    let (e, n) = (s.n_embd as int, datt.len() as int);
    Seq::new(
        n as nat,
        |r: int|
            Seq::new(
                (3 * e) as nat,
                |x: int|
                    if x < e {
                        query_grad(s, t, datt, x / s.hd(), r, x % s.hd())
                    } else if x < 2 * e {
                        key_grad(s, t, datt, (x - e) / s.hd(), r, (x - e) % s.hd(), n)
                    } else {
                        value_grad(s, t, datt, (x - 2 * e) / s.hd(), r, (x - 2 * e) % s.hd(), n)
                    },
            ),
    )
}

/// The gradients inside one layer.
pub struct LayerGrads<F> {
    /// The gradient of the hidden values of the MLP.
    pub dr: Mat<F>,
    /// The gradient of the residual stream behind the attention.
    pub dx2: Mat<F>,
    /// The gradient of query, key and value.
    pub dqkv: Mat<F>,
    /// The gradient of the input of the layer.
    pub dx: Mat<F>,
}

/// The gradients inside a layer with the input `x` and the values `t`, where the output of the
/// layer has the gradient `dx`.
pub open spec fn layer_grads<F: Float>(
    s: Shape,
    w: LayerWeights<F>,
    x: Mat<F>,
    t: LayerTrace<F>,
    dx: Mat<F>,
) -> LayerGrads<F> {
    let e = s.n_embd as int;
    let dr = hidden_grad(t.r, input_grad(dx, w.fc2, s.hidden()));
    let dx2 = norm_grad(t.x2, input_grad(dr, w.fc1, e), dx);
    let datt = input_grad(dx2, w.wo, e);
    let dqkv = qkv_grad(s, t, datt);
    LayerGrads { dr, dx2, dqkv, dx: norm_grad(x, input_grad(dqkv, w.wqkv, e), dx2) }
}

/// The gradient buffer `g` with what one layer adds to the gradients of its weights.
pub open spec fn layer_weight_grads<F: Float>(
    sh: LayerShapes,
    g: Seq<F>,
    t: LayerTrace<F>,
    dx: Mat<F>,
    d: LayerGrads<F>,
) -> Seq<F> {
    let g1 = weight_grad(g, sh.fc2, dx, t.r);
    let g2 = weight_grad(g1, sh.fc1, d.dr, t.h2);
    let g3 = weight_grad(g2, sh.wo, d.dx2, t.attn_out);
    weight_grad(g3, sh.wqkv, d.dqkv, t.h)
}

/// Back through the layers `l - 1`, ..., `0`: the gradient buffer, and the gradient of the input
/// of the first layer.
pub open spec fn layers_grad<F: Float>(
    m: Model,
    p: Seq<F>,
    t: Trace<F>,
    g: Seq<F>,
    dx: Mat<F>,
    l: int,
) -> (Seq<F>, Mat<F>)
    decreases l,
{
    if l <= 0 {
        (g, dx)
    } else {
        let sh = m.layers@[l - 1];
        let lt = t.layers[l - 1];
        let d = layer_grads(m.shape, layer_weights(sh, p), t.xs[l - 1], lt, dx);
        layers_grad(m, p, t, layer_weight_grads(sh, g, lt, dx, d), d.dx, l - 1)
    }
}

/// The gradient of the output of layer `l`: back through the layers `k - 1`, ..., `l + 1`.
pub open spec fn output_grad<F: Float>(
    m: Model,
    p: Seq<F>,
    t: Trace<F>,
    dx: Mat<F>,
    k: int,
    l: int,
) -> Mat<F>
    decreases k - l,
{
    if k <= l + 1 {
        dx
    } else {
        let w = layer_weights(m.layers@[k - 1], p);
        let d = layer_grads(m.shape, w, t.xs[k - 1], t.layers[k - 1], dx);
        output_grad(m, p, t, d.dx, k - 1, l)
    }
}

/// `buf` with `row` added to the entries from `off` on.
pub open spec fn with_added<F: Float>(buf: Seq<F>, off: int, row: Seq<F>) -> Seq<F> {
    Seq::new(
        buf.len(),
        |x: int|
            if off <= x < off + row.len() {
                plus(buf[x], row[x - off])
            } else {
                buf[x]
            },
    )
}

/// The gradient of the embedding at position `i`.
pub open spec fn embedding_grad<F: Float>(x0: Mat<F>, dx: Mat<F>, i: int) -> Seq<F> {
    rmsnorm_grad(x0[i], dx[i], Seq::new(x0[i].len(), |d: int| zero()))
}

/// The gradient buffer `g` with the gradients of the first `n` embeddings added to the rows of
/// their tokens and of their positions.
pub open spec fn embeddings_grad<F: Float>(
    m: Model,
    tokens: Seq<usize>,
    x0: Mat<F>,
    dx: Mat<F>,
    g: Seq<F>,
    n: int,
) -> Seq<F>
    decreases n,
{
    if n <= 0 {
        g
    } else {
        let e = m.shape.n_embd as int;
        let d = embedding_grad(x0, dx, n - 1);
        with_added(
            with_added(
                embeddings_grad(m, tokens, x0, dx, g, n - 1),
                m.wte.off + tokens[n - 1] * e,
                d,
            ),
            m.wpe.off + (n - 1) * e,
            d,
        )
    }
}

/// The gradient buffer `g` with the gradient of the loss over the first `n` positions added, for
/// the values `t` and the probabilities `probs` that the forward pass left behind.
pub open spec fn gradient<F: Float>(
    m: Model,
    p: Seq<F>,
    tokens: Seq<usize>,
    t: Trace<F>,
    probs: Mat<F>,
    g: Seq<F>,
    n: int,
) -> Seq<F> {
    let (e, depth) = (m.shape.n_embd as int, m.shape.n_layer as int);
    let dl = logit_grad(probs, tokens, n);
    let g1 = weight_grad(g, m.lm_head, dl, t.xs[depth]);
    let dx = input_grad(dl, m.lm_head.of(p), e);
    let (g2, dx0) = layers_grad(m, p, t, g1, dx, depth);
    embeddings_grad(m, tokens, t.x0, dx0, g2, n)
}

} // verus!
