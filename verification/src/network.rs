//! What the network computes, as mathematics: the values of every layer at every position, from
//! the parameters and the tokens alone.
use vstd::prelude::*;

use crate::kernels::{rmsnorm_of, softmax_of, vec_plus};
use crate::matrix::{dot_of, fma_chain, linear, Mat};
use crate::model::{LayerShapes, Model, Shape};
use crate::scalar::{num, one, over, plus, root, times, zero, Float};
use crate::stages::relu_of;

verus! {

/// The matrices of one layer.
pub struct LayerWeights<F> {
    /// The query, key and value projections.
    pub wqkv: Mat<F>,
    /// The output projection of the attention.
    pub wo: Mat<F>,
    /// The first matrix of the MLP.
    pub fc1: Mat<F>,
    /// The second matrix of the MLP.
    pub fc2: Mat<F>,
}

/// The matrices of a layer inside a parameter buffer.
pub open spec fn layer_weights<F>(l: LayerShapes, p: Seq<F>) -> LayerWeights<F> {
    LayerWeights { wqkv: l.wqkv.of(p), wo: l.wo.of(p), fc1: l.fc1.of(p), fc2: l.fc2.of(p) }
}

/// The values of one layer, a row per position.
#[verifier::ext_equal]
pub struct LayerTrace<F> {
    /// The normalised input.
    pub h: Mat<F>,
    /// Queries, keys and values.
    pub qkv: Mat<F>,
    /// For each head and each position, the weights of the positions up to it.
    pub attn_w: Seq<Mat<F>>,
    /// The outputs of the heads, side by side.
    pub attn_out: Mat<F>,
    /// The residual stream behind the attention.
    pub x2: Mat<F>,
    /// The normalised residual stream.
    pub h2: Mat<F>,
    /// The hidden values of the MLP.
    pub r: Mat<F>,
}

/// The values of the whole network, a row per position.
#[verifier::ext_equal]
pub struct Trace<F> {
    /// Token embedding plus position embedding.
    pub x0: Mat<F>,
    /// The input of each layer, and behind the last its output.
    pub xs: Seq<Mat<F>>,
    /// The values of each layer.
    pub layers: Seq<LayerTrace<F>>,
    /// The scores of the next token.
    pub logits: Mat<F>,
}

/// The query of head `hd` in a row of queries, keys and values.
pub open spec fn query<F>(s: Shape, r: Seq<F>, hd: int) -> Seq<F> {
    r.subrange(hd * s.hd(), hd * s.hd() + s.hd())
}

/// The key of head `hd` in a row of queries, keys and values.
pub open spec fn key<F>(s: Shape, r: Seq<F>, hd: int) -> Seq<F> {
    r.subrange(s.n_embd + hd * s.hd(), s.n_embd + hd * s.hd() + s.hd())
}

/// The value of head `hd` in a row of queries, keys and values.
pub open spec fn value<F>(s: Shape, r: Seq<F>, hd: int) -> Seq<F> {
    r.subrange(2 * s.n_embd + hd * s.hd(), 2 * s.n_embd + hd * s.hd() + s.hd())
}

/// What attention scores are scaled by: one over the root of the dimension of a head.
pub open spec fn attn_scale<F: Float>(s: Shape) -> F {
    over(one(), root(num(s.hd() as usize)))
}

/// The scores that head `hd` gives at position `i` to each position up to it.
pub open spec fn attn_scores<F: Float>(s: Shape, qkv: Mat<F>, hd: int, i: int) -> Seq<F> {
    Seq::new(
        (i + 1) as nat,
        |j: int| times(dot_of(query(s, qkv[i], hd), key(s, qkv[j], hd)), attn_scale(s)),
    )
}

/// The weights that head `hd` gives at position `i` to each position up to it.
pub open spec fn attn_weights<F: Float>(s: Shape, qkv: Mat<F>, hd: int, i: int) -> Seq<F> {
    softmax_of(attn_scores(s, qkv, hd, i))
}

/// Entry `d` of the values of head `hd` at the positions up to `i`.
pub open spec fn value_entries<F>(s: Shape, qkv: Mat<F>, hd: int, i: int, d: int) -> Seq<F> {
    Seq::new((i + 1) as nat, |j: int| value(s, qkv[j], hd)[d])
}

/// The output of head `hd` at position `i`: the values of the positions up to it, weighted.
pub open spec fn head_out<F: Float>(s: Shape, qkv: Mat<F>, w: Seq<F>, hd: int, i: int) -> Seq<F> {
    Seq::new(
        s.hd() as nat,
        |d: int| fma_chain(w, value_entries(s, qkv, hd, i, d), zero(), i + 1),
    )
}

/// The outputs of all heads at position `i`, side by side.
pub open spec fn attn_row<F: Float>(s: Shape, qkv: Mat<F>, w: Seq<Mat<F>>, i: int) -> Seq<F> {
    Seq::new(
        s.n_embd as nat,
        |x: int| head_out(s, qkv, w[x / s.hd()][i], x / s.hd(), i)[x % s.hd()],
    )
}

/// The values `t` of a layer and its output `out` follow at position `i` from its input `x`.
pub open spec fn layer_row<F: Float>(
    s: Shape,
    w: LayerWeights<F>,
    x: Mat<F>,
    t: LayerTrace<F>,
    out: Mat<F>,
    i: int,
) -> bool {
    &&& t.h[i] == rmsnorm_of(x[i])
    &&& t.qkv[i] == linear(t.h[i], w.wqkv)
    &&& forall|hd: int|
        0 <= hd < s.n_head ==> #[trigger] t.attn_w[hd][i] == attn_weights(s, t.qkv, hd, i)
    &&& t.attn_out[i] == attn_row(s, t.qkv, t.attn_w, i)
    &&& t.x2[i] == vec_plus(linear(t.attn_out[i], w.wo), x[i])
    &&& t.h2[i] == rmsnorm_of(t.x2[i])
    &&& t.r[i] == relu_of(linear(t.h2[i], w.fc1))
    &&& out[i] == vec_plus(linear(t.r[i], w.fc2), t.x2[i])
}

/// Token embedding plus position embedding.
pub open spec fn embedded<F: Float>(m: Model, p: Seq<F>, tokens: Seq<usize>, i: int) -> Seq<F> {
    Seq::new(
        m.shape.n_embd as nat,
        |d: int| plus(m.wte.of(p)[tokens[i] as int][d], m.wpe.of(p)[i][d]),
    )
}

/// The values `t` of the network follow at position `i` from the tokens up to it.
pub open spec fn trace_row<F: Float>(
    m: Model,
    p: Seq<F>,
    tokens: Seq<usize>,
    t: Trace<F>,
    i: int,
) -> bool {
    &&& t.x0[i] == embedded(m, p, tokens, i)
    &&& t.xs[0][i] == rmsnorm_of(t.x0[i])
    &&& forall|l: int|
        0 <= l < m.shape.n_layer ==> layer_row(
            m.shape,
            layer_weights(#[trigger] m.layers@[l], p),
            t.xs[l],
            t.layers[l],
            t.xs[l + 1],
            i,
        )
    &&& t.logits[i] == linear(t.xs[m.shape.n_layer as int][i], m.lm_head.of(p))
}

/// The values of a layer whose input is `x`.
pub open spec fn layer_trace<F: Float>(s: Shape, w: LayerWeights<F>, x: Mat<F>) -> LayerTrace<F> {
    let n = x.len();
    let h = Seq::new(n, |i: int| rmsnorm_of(x[i]));
    let qkv = Seq::new(n, |i: int| linear(h[i], w.wqkv));
    let attn_w = Seq::new(
        s.n_head as nat,
        |hd: int| Seq::new(n, |i: int| attn_weights(s, qkv, hd, i)),
    );
    let attn_out = Seq::new(n, |i: int| attn_row(s, qkv, attn_w, i));
    let x2 = Seq::new(n, |i: int| vec_plus(linear(attn_out[i], w.wo), x[i]));
    let h2 = Seq::new(n, |i: int| rmsnorm_of(x2[i]));
    let r = Seq::new(n, |i: int| relu_of(linear(h2[i], w.fc1)));
    LayerTrace { h, qkv, attn_w, attn_out, x2, h2, r }
}

/// The output of a layer whose input is `x`.
pub open spec fn layer_out<F: Float>(s: Shape, w: LayerWeights<F>, x: Mat<F>) -> Mat<F> {
    let t = layer_trace(s, w, x);
    Seq::new(x.len(), |i: int| vec_plus(linear(t.r[i], w.fc2), t.x2[i]))
}

/// The input of layer `l` at the first `n` positions; for `l` the number of layers, the output of
/// the last.
pub open spec fn stream<F: Float>(m: Model, p: Seq<F>, tokens: Seq<usize>, n: int, l: int) -> Mat<F>
    decreases l,
{
    if l <= 0 {
        Seq::new(n as nat, |i: int| rmsnorm_of(embedded(m, p, tokens, i)))
    } else {
        layer_out(m.shape, layer_weights(m.layers@[l - 1], p), stream(m, p, tokens, n, l - 1))
    }
}

/// The values of the network at the first `n` positions.
pub open spec fn network<F: Float>(m: Model, p: Seq<F>, tokens: Seq<usize>, n: int) -> Trace<F> {
    let depth = m.shape.n_layer as int;
    Trace {
        x0: Seq::new(n as nat, |i: int| embedded(m, p, tokens, i)),
        xs: Seq::new((depth + 1) as nat, |l: int| stream(m, p, tokens, n, l)),
        layers: Seq::new(
            depth as nat,
            |l: int|
                layer_trace(m.shape, layer_weights(m.layers@[l], p), stream(m, p, tokens, n, l)),
        ),
        logits: Seq::new(
            n as nat,
            |i: int| linear(stream(m, p, tokens, n, depth)[i], m.lm_head.of(p)),
        ),
    }
}

/// A trace of `n` positions has a row per position in every buffer.
pub open spec fn trace_sized<F>(s: Shape, t: Trace<F>, n: int) -> bool {
    &&& t.x0.len() == n
    &&& t.xs.len() == s.n_layer + 1
    &&& t.layers.len() == s.n_layer
    &&& t.logits.len() == n
    &&& forall|l: int| 0 <= l <= s.n_layer ==> (#[trigger] t.xs[l]).len() == n
    &&& forall|l: int| 0 <= l < s.n_layer ==> layer_sized(s, #[trigger] t.layers[l], n)
}

/// The values of a layer at `n` positions have a row per position.
pub open spec fn layer_sized<F>(s: Shape, t: LayerTrace<F>, n: int) -> bool {
    &&& t.h.len() == n
    &&& t.qkv.len() == n
    &&& t.attn_w.len() == s.n_head
    &&& forall|hd: int| 0 <= hd < s.n_head ==> (#[trigger] t.attn_w[hd]).len() == n
    &&& t.attn_out.len() == n
    &&& t.x2.len() == n
    &&& t.h2.len() == n
    &&& t.r.len() == n
}

/// The values of a layer that follow at every position are the values that its input gives.
pub proof fn lemma_layer_determined<F: Float>(
    s: Shape,
    w: LayerWeights<F>,
    x: Mat<F>,
    t: LayerTrace<F>,
    out: Mat<F>,
    n: int,
)
    requires
        s.wf(),
        0 <= n,
        x.len() == n,
        out.len() == n,
        layer_sized(s, t, n),
        forall|i: int| 0 <= i < n ==> #[trigger] layer_row(s, w, x, t, out, i),
    ensures
        t == layer_trace(s, w, x),
        out == layer_out(s, w, x),
{
    let u = layer_trace(s, w, x);
    assert forall|i: int| 0 <= i < n implies t.h[i] == u.h[i] && t.qkv[i] == u.qkv[i] by {
        assert(layer_row(s, w, x, t, out, i));
    }
    assert(t.h =~= u.h);
    assert(t.qkv =~= u.qkv);
    assert forall|hd: int| 0 <= hd < s.n_head implies #[trigger] t.attn_w[hd] == u.attn_w[hd] by {
        assert forall|i: int| 0 <= i < n implies #[trigger] t.attn_w[hd][i] == u.attn_w[hd][i] by {
            assert(layer_row(s, w, x, t, out, i));
        }
        assert(t.attn_w[hd] =~= u.attn_w[hd]);
    }
    assert(t.attn_w =~= u.attn_w);
    assert forall|i: int| 0 <= i < n implies #[trigger] t.attn_out[i] == u.attn_out[i] by {
        assert(layer_row(s, w, x, t, out, i));
    }
    assert(t.attn_out =~= u.attn_out);
    assert forall|i: int| 0 <= i < n implies #[trigger] t.x2[i] == u.x2[i] by {
        assert(layer_row(s, w, x, t, out, i));
    }
    assert(t.x2 =~= u.x2);
    assert forall|i: int| 0 <= i < n implies #[trigger] t.h2[i] == u.h2[i] by {
        assert(layer_row(s, w, x, t, out, i));
    }
    assert(t.h2 =~= u.h2);
    assert forall|i: int| 0 <= i < n implies #[trigger] t.r[i] == u.r[i] by {
        assert(layer_row(s, w, x, t, out, i));
    }
    assert(t.r =~= u.r);
    assert forall|i: int| 0 <= i < n implies #[trigger] out[i] == layer_out(s, w, x)[i] by {
        assert(layer_row(s, w, x, t, out, i));
    }
    assert(out =~= layer_out(s, w, x));
}

/// Values that follow at every position from the tokens up to it are the values of the network.
pub proof fn lemma_trace_determined<F: Float>(
    m: Model,
    p: Seq<F>,
    tokens: Seq<usize>,
    t: Trace<F>,
    n: int,
)
    requires
        m.wf(),
        0 <= n,
        trace_sized(m.shape, t, n),
        forall|i: int| 0 <= i < n ==> #[trigger] trace_row(m, p, tokens, t, i),
    ensures
        t == network(m, p, tokens, n),
{
    let u = network(m, p, tokens, n);
    let depth = m.shape.n_layer as int;
    assert forall|i: int| 0 <= i < n implies t.x0[i] == u.x0[i] && t.xs[0][i] == u.xs[0][i] by {
        assert(trace_row(m, p, tokens, t, i));
    }
    assert(t.x0 =~= u.x0);
    lemma_streams_determined(m, p, tokens, t, n, depth);
    assert(t.xs =~= u.xs) by {
        assert forall|l: int| 0 <= l <= depth implies t.xs[l] == u.xs[l] by {
            lemma_streams_determined(m, p, tokens, t, n, l);
        }
    }
    assert(t.layers =~= u.layers) by {
        assert forall|l: int| 0 <= l < depth implies t.layers[l] == u.layers[l] by {
            lemma_streams_determined(m, p, tokens, t, n, l);
            let w = layer_weights(m.layers@[l], p);
            assert forall|i: int| 0 <= i < n implies #[trigger] layer_row(
                m.shape,
                w,
                t.xs[l],
                t.layers[l],
                t.xs[l + 1],
                i,
            ) by {
                assert(trace_row(m, p, tokens, t, i));
            }
            assert(t.xs[l + 1].len() == n);
            lemma_layer_determined(m.shape, w, t.xs[l], t.layers[l], t.xs[l + 1], n);
        }
    }
    assert forall|i: int| 0 <= i < n implies t.logits[i] == u.logits[i] by {
        assert(trace_row(m, p, tokens, t, i));
    }
    assert(t.logits =~= u.logits);
}

/// The part of [`lemma_trace_determined`] that speaks of the input of layer `l`.
proof fn lemma_streams_determined<F: Float>(
    m: Model,
    p: Seq<F>,
    tokens: Seq<usize>,
    t: Trace<F>,
    n: int,
    l: int,
)
    requires
        m.wf(),
        0 <= n,
        0 <= l <= m.shape.n_layer,
        trace_sized(m.shape, t, n),
        forall|i: int| 0 <= i < n ==> #[trigger] trace_row(m, p, tokens, t, i),
    ensures
        t.xs[l] == stream(m, p, tokens, n, l),
    decreases l,
{
    if l == 0 {
        assert forall|i: int| 0 <= i < n implies t.xs[0][i] == stream(m, p, tokens, n, 0)[i] by {
            assert(trace_row(m, p, tokens, t, i));
        }
        assert(t.xs[0] =~= stream(m, p, tokens, n, 0));
    } else {
        lemma_streams_determined(m, p, tokens, t, n, l - 1);
        let w = layer_weights(m.layers@[l - 1], p);
        assert forall|i: int| 0 <= i < n implies #[trigger] layer_row(
            m.shape,
            w,
            t.xs[l - 1],
            t.layers[l - 1],
            t.xs[l],
            i,
        ) by {
            assert(trace_row(m, p, tokens, t, i));
        }
        assert(t.xs[l].len() == n);
        assert(t.xs[l - 1].len() == n);
        assert(layer_sized(m.shape, t.layers[l - 1], n));
        lemma_layer_determined(m.shape, w, t.xs[l - 1], t.layers[l - 1], t.xs[l], n);
    }
}

} // verus!
