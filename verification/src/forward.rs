//! The forward pass.
use vstd::prelude::*;

use crate::acts::{Acts, LayerActs};
use crate::arith::lemma_position;
use crate::attention::{
    attention_rows, lemma_attention_prefix, lemma_head, lemma_weights_outside, weights_of,
};
use crate::kernels::{rmsnorm_of, row_mut};
use crate::matrix::{lemma_row_len, linear, mat, row_of, same_outside, Mat};
use crate::model::{is_layer, lemma_layer_inside, lemma_tables_inside, LayerShapes, Model, Shape};
use crate::network::{
    attn_row, attn_weights, embedded, head_out, layer_out, layer_row, layer_sized, layer_trace,
    layer_weights, lemma_trace_determined, network, stream, trace_row, trace_sized, LayerTrace,
    LayerWeights, Trace,
};
use crate::scalar::{deterministic, plus, Float};
use crate::stages::{
    add_rows, lemma_row_outside, lemma_row_replaced, linear_rows, relu_rows, rmsnorm_rows,
};

verus! {

/// The matrices of a layer have the sizes that the shape asks for and lie inside a buffer.
pub open spec fn layer_fits(s: Shape, sh: LayerShapes, len: int) -> bool {
    let e = s.n_embd as int;
    &&& sh.wqkv.rows == 3 * e && sh.wqkv.cols == e && sh.wqkv.end() <= len
    &&& sh.wo.rows == e && sh.wo.cols == e && sh.wo.end() <= len
    &&& sh.fc1.rows == 4 * e && sh.fc1.cols == e && sh.fc1.end() <= len
    &&& sh.fc2.rows == e && sh.fc2.cols == 4 * e && sh.fc2.end() <= len
}

/// One layer at the positions `from..to`, stage by stage: attention, then the MLP, each added to
/// the residual stream.
#[verifier::rlimit(60)]
pub fn forward_layer<F: Float>(
    s: &Shape,
    sh: &LayerShapes,
    p: &[F],
    x_in: &[F],
    la: &mut LayerActs<F>,
    x_out: &mut [F],
    from: usize,
    to: usize,
)
    requires
        s.wf(),
        layer_fits(*s, *sh, p@.len() as int),
        old(la).wf(*s),
        x_in@.len() == s.block_size * s.n_embd,
        old(x_out)@.len() == s.block_size * s.n_embd,
        from <= to <= s.block_size,
        s.block_size * (4 * s.n_embd) <= usize::MAX,
    ensures
        final(la).wf(*s),
        final(la).same_outside(*old(la), *s, from as int, to as int),
        same_outside(old(x_out)@, final(x_out)@, from * s.n_embd, to * s.n_embd),
        deterministic::<F>() ==> forall|i: int|
            from <= i < to ==> #[trigger] layer_row(
                *s,
                layer_weights(*sh, p@),
                mat(x_in@, to as int, s.n_embd as int),
                final(la).trace(*s, to as int),
                mat(final(x_out)@, to as int, s.n_embd as int),
                i,
            ),
{
    let e: usize = s.n_embd;
    let ghost (t, n) = (s.block_size as int, to as int);
    proof {
        assert(to * e <= t * e && to * (3 * e) <= t * (3 * e) && to * (4 * e) <= t * (4 * e) && 4
            * e <= t * (4 * e)) by (nonlinear_arith)
            requires
                to <= t,
                t >= 1,
        ;
    }
    rmsnorm_rows(x_in, la.h.as_mut_slice(), e, from, to);
    linear_rows(la.h.as_slice(), e, sh.wqkv.view(p), 3 * e, la.qkv.as_mut_slice(), from, to);
    attention_rows(
        s,
        la.qkv.as_slice(),
        la.attn_w.as_mut_slice(),
        la.attn_out.as_mut_slice(),
        from,
        to,
    );
    linear_rows(la.attn_out.as_slice(), e, sh.wo.view(p), e, la.x2.as_mut_slice(), from, to);
    let ghost projected = la.x2@;
    add_rows(x_in, la.x2.as_mut_slice(), e, from, to);
    rmsnorm_rows(la.x2.as_slice(), la.h2.as_mut_slice(), e, from, to);
    linear_rows(la.h2.as_slice(), e, sh.fc1.view(p), 4 * e, la.r.as_mut_slice(), from, to);
    let ghost hidden = la.r@;
    relu_rows(la.r.as_mut_slice(), 4 * e, from, to);
    linear_rows(la.r.as_slice(), 4 * e, sh.fc2.view(p), e, x_out, from, to);
    let ghost mixed = x_out@;
    add_rows(la.x2.as_slice(), x_out, e, from, to);
    proof {
        if deterministic::<F>() {
            let tr = la.trace(*s, n);
            let w = layer_weights(*sh, p@);
            assert forall|i: int| from <= i < to implies #[trigger] layer_row(
                *s,
                w,
                mat(x_in@, n, e as int),
                tr,
                mat(x_out@, n, e as int),
                i,
            ) by {
                assert(tr.h[i] == row_of(la.h@, i, e as int));
                assert(tr.qkv[i] == row_of(la.qkv@, i, 3 * e));
                assert forall|hd: int| 0 <= hd < s.n_head implies #[trigger] tr.attn_w[hd][i]
                    == attn_weights(*s, tr.qkv, hd, i) by {
                    assert(tr.attn_w[hd][i] == weights_of(la.attn_w@, *s, hd, i));
                }
                assert(tr.attn_out[i] == row_of(la.attn_out@, i, e as int));
                assert(tr.x2[i] == row_of(la.x2@, i, e as int));
                assert(row_of(projected, i, e as int) == linear(tr.attn_out[i], w.wo));
                assert(tr.h2[i] == row_of(la.h2@, i, e as int));
                assert(tr.r[i] == row_of(la.r@, i, 4 * e));
                assert(row_of(hidden, i, 4 * e) == linear(tr.h2[i], w.fc1));
                assert(row_of(mixed, i, e as int) == linear(tr.r[i], w.fc2));
            }
        }
    }
}

/// Two traces agree at position `i`.
pub open spec fn same_row<F>(s: Shape, t: Trace<F>, u: Trace<F>, i: int) -> bool {
    &&& t.x0[i] == u.x0[i]
    &&& t.logits[i] == u.logits[i]
    &&& forall|l: int| 0 <= l <= s.n_layer ==> (#[trigger] t.xs[l])[i] == u.xs[l][i]
    &&& forall|l: int|
        0 <= l < s.n_layer ==> same_layer_row(s, #[trigger] t.layers[l], u.layers[l], i)
}

/// The values of two layers agree at position `i`.
pub open spec fn same_layer_row<F>(s: Shape, t: LayerTrace<F>, u: LayerTrace<F>, i: int) -> bool {
    &&& t.h[i] == u.h[i]
    &&& t.qkv[i] == u.qkv[i]
    &&& forall|hd: int| 0 <= hd < s.n_head ==> (#[trigger] t.attn_w[hd])[i] == u.attn_w[hd][i]
    &&& t.attn_out[i] == u.attn_out[i]
    &&& t.x2[i] == u.x2[i]
    &&& t.h2[i] == u.h2[i]
    &&& t.r[i] == u.r[i]
}

/// What follows at a position depends on the rows up to it.
proof fn lemma_layer_row_prefix<F: Float>(
    s: Shape,
    w: LayerWeights<F>,
    x: Mat<F>,
    t: LayerTrace<F>,
    out: Mat<F>,
    y: Mat<F>,
    u: LayerTrace<F>,
    out2: Mat<F>,
    i: int,
)
    requires
        s.wf(),
        0 <= i,
        layer_row(s, w, x, t, out, i),
        x[i] == y[i],
        out[i] == out2[i],
        forall|j: int| 0 <= j <= i ==> same_layer_row(s, t, u, j),
    ensures
        layer_row(s, w, y, u, out2, i),
{
    assert(same_layer_row(s, t, u, i));
    assert forall|j: int| 0 <= j <= i implies #[trigger] t.qkv[j] == u.qkv[j] by {
        assert(same_layer_row(s, t, u, j));
    }
    assert forall|hd: int| 0 <= hd < s.n_head implies #[trigger] u.attn_w[hd][i] == attn_weights(
        s,
        u.qkv,
        hd,
        i,
    ) by {
        lemma_attention_prefix(s, t.qkv, u.qkv, hd, i);
        assert(t.attn_w[hd][i] == attn_weights(s, t.qkv, hd, i));
        assert(t.attn_w[hd][i] == u.attn_w[hd][i]);
    }
    lemma_attn_row_prefix(s, t.qkv, u.qkv, t.attn_w, u.attn_w, i);
}

/// The output of the attention at a position depends on the rows up to it.
proof fn lemma_attn_row_prefix<F: Float>(
    s: Shape,
    a: Mat<F>,
    b: Mat<F>,
    wa: Seq<Mat<F>>,
    wb: Seq<Mat<F>>,
    i: int,
)
    requires
        s.wf(),
        0 <= i,
        forall|j: int| 0 <= j <= i ==> #[trigger] a[j] == b[j],
        forall|hd: int| 0 <= hd < s.n_head ==> (#[trigger] wa[hd])[i] == wb[hd][i],
    ensures
        attn_row(s, a, wa, i) == attn_row(s, b, wb, i),
{
    lemma_head(s, 0);
    assert forall|x: int| 0 <= x < s.n_embd implies #[trigger] attn_row(s, a, wa, i)[x] == attn_row(
        s,
        b,
        wb,
        i,
    )[x] by {
        lemma_position(x, s.n_head as int, s.hd());
        let hd = x / s.hd();
        lemma_attention_prefix(s, a, b, hd, i);
        assert(wa[hd][i] == wb[hd][i]);
        assert(head_out(s, a, wa[hd][i], hd, i) == head_out(s, b, wa[hd][i], hd, i));
    }
    assert(attn_row(s, a, wa, i) =~= attn_row(s, b, wb, i));
}

/// What follows at a position depends on the rows up to it.
pub proof fn lemma_trace_row_prefix<F: Float>(
    m: Model,
    p: Seq<F>,
    tokens: Seq<usize>,
    t: Trace<F>,
    u: Trace<F>,
    i: int,
)
    requires
        m.wf(),
        0 <= i,
        trace_row(m, p, tokens, t, i),
        forall|j: int| 0 <= j <= i ==> #[trigger] same_row(m.shape, t, u, j),
    ensures
        trace_row(m, p, tokens, u, i),
{
    let depth = m.shape.n_layer as int;
    assert(same_row(m.shape, t, u, i));
    assert(t.xs[0][i] == u.xs[0][i]);
    assert(t.xs[depth][i] == u.xs[depth][i]);
    assert forall|l: int| 0 <= l < depth implies layer_row(
        m.shape,
        layer_weights(#[trigger] m.layers@[l], p),
        u.xs[l],
        u.layers[l],
        u.xs[l + 1],
        i,
    ) by {
        assert(t.xs[l][i] == u.xs[l][i]);
        assert(t.xs[l + 1][i] == u.xs[l + 1][i]);
        assert forall|j: int| 0 <= j <= i implies same_layer_row(
            m.shape,
            t.layers[l],
            u.layers[l],
            j,
        ) by {
            assert(same_row(m.shape, t, u, j));
        }
        lemma_layer_row_prefix(
            m.shape,
            layer_weights(m.layers@[l], p),
            t.xs[l],
            t.layers[l],
            t.xs[l + 1],
            u.xs[l],
            u.layers[l],
            u.xs[l + 1],
            i,
        );
    }
}

/// The values of a layer follow at every position.
proof fn lemma_layer_rows<F: Float>(s: Shape, w: LayerWeights<F>, x: Mat<F>, i: int)
    requires
        s.wf(),
        0 <= i < x.len(),
    ensures
        layer_row(s, w, x, layer_trace(s, w, x), layer_out(s, w, x), i),
{
}

/// The values of the network follow at every position.
pub proof fn lemma_network_rows<F: Float>(
    m: Model,
    p: Seq<F>,
    tokens: Seq<usize>,
    n: int,
    i: int,
)
    requires
        m.wf(),
        0 <= i < n,
    ensures
        trace_row(m, p, tokens, network(m, p, tokens, n), i),
{
    let t = network(m, p, tokens, n);
    assert forall|l: int| 0 <= l < m.shape.n_layer implies layer_row(
        m.shape,
        layer_weights(#[trigger] m.layers@[l], p),
        t.xs[l],
        t.layers[l],
        t.xs[l + 1],
        i,
    ) by {
        lemma_stream_len(m, p, tokens, n, l);
        lemma_layer_rows(m.shape, layer_weights(m.layers@[l], p), t.xs[l], i);
    }
}

/// The input of every layer has a row per position.
pub proof fn lemma_stream_len<F: Float>(m: Model, p: Seq<F>, tokens: Seq<usize>, n: int, l: int)
    requires
        0 <= n,
        0 <= l,
    ensures
        stream(m, p, tokens, n, l).len() == n,
    decreases l,
{
    if l > 0 {
        lemma_stream_len(m, p, tokens, n, l - 1);
    }
}

/// A trace of activations has a row per position in every buffer.
pub proof fn lemma_trace_sized<F>(a: Acts<F>, s: Shape, v: int, n: int)
    requires
        a.wf(s, v),
        0 <= n,
    ensures
        trace_sized(s, a.trace(s, v, n), n),
{
}

/// A pass over the positions `from..to` leaves the trace of the positions below as it was.
pub proof fn lemma_rows_below<F>(a: Acts<F>, b: Acts<F>, s: Shape, v: int, from: int, to: int)
    requires
        s.wf(),
        0 <= v,
        a.wf(s, v),
        b.wf(s, v),
        0 <= from <= to <= s.block_size,
        b.same_outside(a, s, v, from, to),
    ensures
        forall|i: int|
            0 <= i < from ==> #[trigger] same_row(s, a.trace(s, v, from), b.trace(s, v, to), i),
        b.trace(s, v, from) == a.trace(s, v, from),
{
    let (e, t) = (s.n_embd as int, s.block_size as int);
    let (ta, tb, tc) = (a.trace(s, v, from), b.trace(s, v, to), b.trace(s, v, from));
    assert forall|i: int|
        #![trigger same_row(s, ta, tb, i)]
        #![trigger same_row(s, ta, tc, i)]
        0 <= i < from implies same_row(s, ta, tb, i) && same_row(s, ta, tc, i) by {
        assert((i + 1) * e <= t * e && (i + 1) * v <= t * v && (i + 1) * (3 * e) <= t * (3 * e) && (
        i + 1) * (4 * e) <= t * (4 * e)) by (nonlinear_arith)
            requires
                i + 1 <= t,
                0 <= e,
                0 <= v,
        ;
        lemma_row_outside(a.x0@, b.x0@, from, to, i, e);
        lemma_row_outside(a.logits@, b.logits@, from, to, i, v);
        assert forall|l: int| 0 <= l <= s.n_layer implies (#[trigger] ta.xs[l])[i] == tb.xs[l][i]
            && ta.xs[l][i] == tc.xs[l][i] by {
            assert(same_outside(a.xs@[l]@, b.xs@[l]@, from * e, to * e));
            lemma_row_outside(a.xs@[l]@, b.xs@[l]@, from, to, i, e);
        }
        assert forall|l: int| 0 <= l < s.n_layer implies same_layer_row(
            s,
            #[trigger] ta.layers[l],
            tb.layers[l],
            i,
        ) && same_layer_row(s, ta.layers[l], tc.layers[l], i) by {
            let (la, lb) = (a.layers@[l], b.layers@[l]);
            assert(lb.same_outside(la, s, from, to));
            assert(la.wf(s));
            lemma_row_outside(la.h@, lb.h@, from, to, i, e);
            lemma_row_outside(la.qkv@, lb.qkv@, from, to, i, 3 * e);
            lemma_row_outside(la.attn_out@, lb.attn_out@, from, to, i, e);
            lemma_row_outside(la.x2@, lb.x2@, from, to, i, e);
            lemma_row_outside(la.h2@, lb.h2@, from, to, i, e);
            lemma_row_outside(la.r@, lb.r@, from, to, i, s.hidden());
            assert forall|hd: int| 0 <= hd < s.n_head implies (#[trigger] ta.layers[l].attn_w[hd])[i]
                == tb.layers[l].attn_w[hd][i] && ta.layers[l].attn_w[hd][i]
                == tc.layers[l].attn_w[hd][i] by {
                lemma_weights_outside(la.attn_w@, lb.attn_w@, s, from, to, hd, i);
            }
        }
    }
    lemma_same_rows(s, ta, tc, from);
}

/// Traces that agree at every position are equal.
pub proof fn lemma_same_rows<F>(s: Shape, t: Trace<F>, u: Trace<F>, n: int)
    requires
        trace_sized(s, t, n),
        trace_sized(s, u, n),
        forall|i: int| 0 <= i < n ==> #[trigger] same_row(s, t, u, i),
    ensures
        t == u,
{
    assert forall|i: int| 0 <= i < n implies #[trigger] t.x0[i] == u.x0[i] by {
        assert(same_row(s, t, u, i));
    }
    assert(t.x0 =~= u.x0);
    assert forall|i: int| 0 <= i < n implies #[trigger] t.logits[i] == u.logits[i] by {
        assert(same_row(s, t, u, i));
    }
    assert(t.logits =~= u.logits);
    assert forall|l: int| 0 <= l <= s.n_layer implies t.xs[l] == u.xs[l] by {
        assert forall|i: int| 0 <= i < n implies #[trigger] t.xs[l][i] == u.xs[l][i] by {
            assert(same_row(s, t, u, i));
        }
        assert(t.xs[l].len() == n);
        assert(u.xs[l].len() == n);
        assert(t.xs[l] =~= u.xs[l]);
    }
    assert(t.xs =~= u.xs);
    assert forall|l: int| 0 <= l < s.n_layer implies t.layers[l] == u.layers[l] by {
        let (a, b) = (t.layers[l], u.layers[l]);
        assert(layer_sized(s, a, n));
        assert(layer_sized(s, b, n));
        assert forall|i: int|
            #![trigger a.h[i]]
            #![trigger a.qkv[i]]
            #![trigger a.attn_out[i]]
            #![trigger a.x2[i]]
            #![trigger a.h2[i]]
            #![trigger a.r[i]]
            0 <= i < n implies same_layer_row(s, a, b, i) by {
            assert(same_row(s, t, u, i));
        }
        assert(a.h =~= b.h);
        assert(a.qkv =~= b.qkv);
        assert forall|hd: int| 0 <= hd < s.n_head implies a.attn_w[hd] == b.attn_w[hd] by {
            assert forall|i: int| 0 <= i < n implies #[trigger] a.attn_w[hd][i]
                == b.attn_w[hd][i] by {
                assert(same_row(s, t, u, i));
                assert(same_layer_row(s, a, b, i));
            }
            assert(a.attn_w[hd].len() == n);
            assert(b.attn_w[hd].len() == n);
            assert(a.attn_w[hd] =~= b.attn_w[hd]);
        }
        assert(a.attn_w =~= b.attn_w);
        assert(a.attn_out =~= b.attn_out);
        assert(a.x2 =~= b.x2);
        assert(a.h2 =~= b.h2);
        assert(a.r =~= b.r);
    }
    assert(t.layers =~= u.layers);
}

/// `b` is what a pass over the positions `from..to` makes of `a`: those positions hold the values
/// that follow from the tokens and from the positions below them, and nothing else changed.
pub open spec fn is_pass<F: Float>(
    m: Model,
    p: Seq<F>,
    tokens: Seq<usize>,
    a: Acts<F>,
    b: Acts<F>,
    from: int,
    to: int,
) -> bool {
    let (s, v) = (m.shape, m.vocab_size as int);
    &&& b.wf(s, v)
    &&& b.same_outside(a, s, v, from, to)
    &&& forall|i: int|
        from <= i < to ==> #[trigger] trace_row(m, p, tokens, b.trace(s, v, to), i)
}

/// Where the positions below `from` hold what the network computes, a pass over `from..to` makes
/// the positions below `to` hold what it computes: the stored rows are a cache.
pub proof fn lemma_cache<F: Float>(
    m: Model,
    p: Seq<F>,
    tokens: Seq<usize>,
    a: Acts<F>,
    b: Acts<F>,
    from: int,
    to: int,
)
    requires
        m.wf(),
        a.wf(m.shape, m.vocab_size as int),
        0 <= from <= to <= m.shape.block_size,
        a.trace(m.shape, m.vocab_size as int, from) == network(m, p, tokens, from),
        is_pass(m, p, tokens, a, b, from, to),
    ensures
        b.trace(m.shape, m.vocab_size as int, to) == network(m, p, tokens, to),
{
    let (s, v) = (m.shape, m.vocab_size as int);
    let (ta, tb) = (a.trace(s, v, from), b.trace(s, v, to));
    lemma_rows_below(a, b, s, v, from, to);
    lemma_trace_sized(b, s, v, to);
    assert forall|i: int| 0 <= i < to implies #[trigger] trace_row(m, p, tokens, tb, i) by {
        if i < from {
            lemma_network_rows(m, p, tokens, from, i);
            lemma_trace_row_prefix(m, p, tokens, ta, tb, i);
        }
    }
    lemma_trace_determined(m, p, tokens, tb, to);
}

/// Token embedding plus position embedding at the positions `from..to`.
fn embed_rows<F: Float>(
    m: &Model,
    p: &[F],
    tokens: &[usize],
    x0: &mut [F],
    from: usize,
    to: usize,
)
    requires
        m.wf(),
        m.n_params <= p@.len(),
        from <= to <= m.shape.block_size,
        to <= tokens@.len(),
        forall|i: int| from <= i < to ==> #[trigger] tokens@[i] < m.vocab_size,
        old(x0)@.len() == m.shape.block_size * m.shape.n_embd,
    ensures
        same_outside(old(x0)@, final(x0)@, from * m.shape.n_embd, to * m.shape.n_embd),
        deterministic::<F>() ==> forall|i: int|
            from <= i < to ==> #[trigger] row_of(final(x0)@, i, m.shape.n_embd as int) == embedded(
                *m,
                p@,
                tokens@,
                i,
            ),
{
    let e: usize = m.shape.n_embd;
    let ghost t = m.shape.block_size as int;
    proof {
        lemma_tables_inside(*m);
    }
    let mut i: usize = from;
    while i < to
        invariant
            m.wf(),
            m.n_params <= p@.len(),
            m.wte.end() <= m.n_params,
            m.wpe.end() <= m.n_params,
            e == m.shape.n_embd,
            t == m.shape.block_size,
            from <= i <= to,
            to <= t,
            to <= tokens@.len(),
            forall|i: int| from <= i < to ==> #[trigger] tokens@[i] < m.vocab_size,
            x0.len() == t * e,
            x0.len() == old(x0).len(),
            same_outside(old(x0)@, x0@, from * e, i * e),
            deterministic::<F>() ==> forall|k: int|
                from <= k < i ==> #[trigger] row_of(x0@, k, e as int) == embedded(
                    *m,
                    p@,
                    tokens@,
                    k,
                ),
        decreases to - i,
    {
        let wte = m.wte.row(p, tokens[i]);
        let wpe = m.wpe.row(p, i);
        proof {
            lemma_row_len(x0@, i as int, t, e as int);
            assert(from * e <= i * e) by (nonlinear_arith)
                requires
                    from <= i,
            ;
        }
        let ghost before = x0@;
        let xi = row_mut(x0, i, e);
        let mut d: usize = 0;
        while d < e
            invariant
                d <= e,
                xi.len() == e,
                wte.len() == e,
                wpe.len() == e,
                deterministic::<F>() ==> forall|k: int|
                    0 <= k < d ==> #[trigger] xi@[k] == plus(wte@[k], wpe@[k]),
            decreases e - d,
        {
            xi[d] = wte[d].plus(wpe[d]);
            d = d + 1;
        }
        let ghost new_row = xi@;
        proof {
            lemma_row_replaced(before, new_row, i as int, t, e as int);
            assert(x0@ == before.take(i * e) + new_row + before.skip((i + 1) * e));
            if deterministic::<F>() {
                assert(new_row =~= embedded(*m, p@, tokens@, i as int));
            }
        }
        i = i + 1;
    }
}

impl Model {
    /// Runs the positions `from..to` of `tokens` through the model and fills `a` with every
    /// intermediate value and with the scores of the next token.
    ///
    /// The positions below `from` have to be in `a` already: they act as a cache. So training
    /// calls this with `from = 0`, and generation with `from = pos, to = pos + 1`.
    #[verifier::rlimit(60)]
    pub fn forward<F: Float>(
        &self,
        p: &[F],
        tokens: &[usize],
        from: usize,
        to: usize,
        a: &mut Acts<F>,
    )
        requires
            self.wf(),
            self.shape.buffers_fit(self.vocab_size as int),
            self.n_params <= p@.len(),
            from <= to <= self.shape.block_size,
            to <= tokens@.len(),
            forall|i: int| from <= i < to ==> #[trigger] tokens@[i] < self.vocab_size,
            old(a).wf(self.shape, self.vocab_size as int),
        ensures
            final(a).wf(self.shape, self.vocab_size as int),
            final(a).same_outside(
                *old(a),
                self.shape,
                self.vocab_size as int,
                from as int,
                to as int,
            ),
            deterministic::<F>() ==> is_pass(
                *self,
                p@,
                tokens@,
                *old(a),
                *final(a),
                from as int,
                to as int,
            ),
            deterministic::<F>() && old(a).trace(
                self.shape,
                self.vocab_size as int,
                from as int,
            ) == network(*self, p@, tokens@, from as int) ==> final(a).trace(
                self.shape,
                self.vocab_size as int,
                to as int,
            ) == network(*self, p@, tokens@, to as int),
    {
        let s = &self.shape;
        let e: usize = s.n_embd;
        let v: usize = self.vocab_size;
        let ghost (t, n, depth) = (s.block_size as int, to as int, s.n_layer as int);
        proof {
            lemma_tables_inside(*self);
            assert(to * e <= t * e && to * v <= t * v && e <= t * (4 * e)) by (nonlinear_arith)
                requires
                    to <= t,
                    t >= 1,
            ;
        }
        embed_rows(self, p, tokens, a.x0.as_mut_slice(), from, to);
        rmsnorm_rows(a.x0.as_slice(), a.xs[0].as_mut_slice(), e, from, to);
        assert(same_outside(old(a).xs@[0]@, a.xs@[0]@, from * e, to * e));
        let mut l: usize = 0;
        while l < s.n_layer
            invariant
                self.wf(),
                *s == self.shape,
                s.buffers_fit(v as int),
                e == s.n_embd,
                v == self.vocab_size,
                (t, n, depth) == (s.block_size as int, to as int, s.n_layer as int),
                self.n_params <= p@.len(),
                from <= to <= t,
                l <= depth,
                a.wf(*s, v as int),
                a.logits@ == old(a).logits@,
                a.probs@ == old(a).probs@,
                same_outside(old(a).x0@, a.x0@, from * e, to * e),
                old(a).wf(*s, v as int),
                forall|k: int|
                    0 <= k <= depth ==> same_outside(
                        old(a).xs@[k]@,
                        (#[trigger] a.xs@[k])@,
                        from * e,
                        to * e,
                    ),
                forall|k: int|
                    0 <= k < l ==> (#[trigger] a.layers@[k]).same_outside(
                        old(a).layers@[k],
                        *s,
                        from as int,
                        to as int,
                    ),
                forall|k: int| l <= k < depth ==> #[trigger] a.layers@[k] == old(a).layers@[k],
                deterministic::<F>() ==> forall|i: int|
                    from <= i < to ==> #[trigger] row_of(a.x0@, i, e as int) == embedded(
                        *self,
                        p@,
                        tokens@,
                        i,
                    ),
                deterministic::<F>() ==> forall|i: int|
                    from <= i < to ==> #[trigger] row_of(a.xs@[0]@, i, e as int) == rmsnorm_of(
                        row_of(a.x0@, i, e as int),
                    ),
                deterministic::<F>() ==> forall|k: int, i: int|
                    0 <= k < l && from <= i < to ==> #[trigger] layer_row(
                        *s,
                        layer_weights(self.layers@[k], p@),
                        mat(a.xs@[k]@, n, e as int),
                        a.layers@[k].trace(*s, n),
                        mat(a.xs@[k + 1]@, n, e as int),
                        i,
                    ),
            decreases s.n_layer - l,
        {
            let ghost before = *a;
            proof {
                lemma_layer_inside(*self, l as int);
                assert(is_layer(self.layers@[l as int], self.layer_base(l as int), self.shape));
            }
            let (lo, hi) = a.xs.as_mut_slice().split_at_mut(l + 1);
            forward_layer(
                s,
                &self.layers[l],
                p,
                lo[l].as_slice(),
                &mut a.layers[l],
                hi[0].as_mut_slice(),
                from,
                to,
            );
            l = l + 1;
        }
        linear_rows(
            a.xs[s.n_layer].as_slice(),
            e,
            self.lm_head.view(p),
            v,
            a.logits.as_mut_slice(),
            from,
            to,
        );
        proof {
            if deterministic::<F>() {
                let tr = a.trace(*s, v as int, n);
                assert forall|i: int| from <= i < to implies #[trigger] trace_row(
                    *self,
                    p@,
                    tokens@,
                    tr,
                    i,
                ) by {
                    assert(tr.x0[i] == row_of(a.x0@, i, e as int));
                    assert(tr.xs[0][i] == row_of(a.xs@[0]@, i, e as int));
                    assert(tr.logits[i] == row_of(a.logits@, i, v as int));
                    assert(tr.xs[depth][i] == row_of(a.xs@[depth]@, i, e as int));
                    assert forall|k: int| 0 <= k < depth implies layer_row(
                        *s,
                        layer_weights(#[trigger] self.layers@[k], p@),
                        tr.xs[k],
                        tr.layers[k],
                        tr.xs[k + 1],
                        i,
                    ) by {
                        assert(layer_row(
                            *s,
                            layer_weights(self.layers@[k], p@),
                            mat(a.xs@[k]@, n, e as int),
                            a.layers@[k].trace(*s, n),
                            mat(a.xs@[k + 1]@, n, e as int),
                            i,
                        ));
                    }
                }
                if old(a).trace(*s, v as int, from as int) == network(
                    *self,
                    p@,
                    tokens@,
                    from as int,
                ) {
                    lemma_cache(*self, p@, tokens@, *old(a), *a, from as int, n);
                }
            }
        }
    }
}

} // verus!
