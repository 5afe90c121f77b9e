//! What the forward pass is for: the transformer, entry by entry over the parameter buffer.
//!
//! Each law says, in exact arithmetic, which parameters a value of the network is made of and how.
//! Together they are the formulas of the network: token plus position embedding, norm, causal
//! attention and MLP with their residual connections, and the scores of the next token.
use vstd::prelude::*;

use crate::acts::Acts;
use crate::arith::{lemma_cell, lemma_rows_apart};
use crate::attention::{lemma_head, lemma_weight_base};
use crate::backprop_network::{
    lemma_layer_values_sized, lemma_streams_sized, lemma_tensor_sized, sized,
};
use crate::derivative::{lemma_quotient_sign, lemma_sum_not_negative};
use crate::kernels::{rms_eps, rms_scale, rmsnorm_of};
use crate::laws_loss::law_softmax_weighs_exponentials;
use crate::matrix::{dot_of, lemma_row_entry, linear};
use crate::model::{is_layer, lemma_layer_inside, lemma_tables_inside, Model, Shape, Tensor};
use crate::network::{
    attn_row, attn_scale, attn_scores, attn_weights, embedded, head_out, key, layer_out,
    layer_trace, layer_weights, network, query, stream, value, value_entries,
};
use crate::reading::{lemma_chain_value, lemma_dot_value, Curves, Reading};
use crate::scalar::{num, one, over, plus, root, zero, Float};
use crate::sums::{lemma_sum_eq, sum};

verus! {

/// Entry `(o, c)` of a matrix inside the parameter buffer.
proof fn lemma_entry<F>(t: Tensor, p: Seq<F>, o: int, c: int)
    requires
        t.end() <= p.len(),
        0 <= o < t.rows,
        0 <= c < t.cols,
    ensures
        t.of(p)[o][c] == p[t.off + o * t.cols + c],
        0 <= t.off + o * t.cols + c < p.len(),
{
    lemma_row_entry(t.slice_of(p), o, c, t.rows as int, t.cols as int);
    lemma_cell(o, c, t.rows as int, t.cols as int);
}

/// A linear layer over the parameter buffer.
proof fn lemma_linear<F: Float>(r: Reading<F>, x: Seq<F>, t: Tensor, p: Seq<F>, o: int)
    requires
        r.exact(),
        t.end() <= p.len(),
        x.len() == t.cols,
        0 <= o < t.rows,
    ensures
        linear(x, t.of(p)).len() == t.rows,
        r.v(linear(x, t.of(p))[o]) == sum(
            |c: int| r.v(x[c]) * r.v(p[t.off + o * t.cols + c]),
            t.cols as int,
        ),
{
    let row = t.of(p)[o];
    lemma_tensor_sized(t, p);
    assert(row.len() == t.cols);
    lemma_dot_value(r, x, row);
    let (a, b) = (
        |c: int| r.v(x[c]) * r.v(row[c]),
        |c: int| r.v(x[c]) * r.v(p[t.off + o * t.cols + c]),
    );
    assert forall|c: int| 0 <= c < t.cols implies #[trigger] a(c) == b(c) by {
        lemma_entry(t, p, o, c);
    }
    lemma_sum_eq(a, b, t.cols as int);
}

/// The embedding of position `i` is the row of its token in the token table plus row `i` of the
/// position table, entry by entry.
pub proof fn law_embedding_adds_token_and_position<F: Float>(
    r: Reading<F>,
    m: Model,
    p: Seq<F>,
    tokens: Seq<usize>,
    n: int,
    i: int,
    d: int,
)
    requires
        r.exact(),
        m.wf(),
        m.n_params <= p.len(),
        0 <= i < n <= m.shape.block_size,
        tokens[i] < m.vocab_size,
        0 <= d < m.shape.n_embd,
    ensures
        network(m, p, tokens, n).x0[i].len() == m.shape.n_embd,
        r.v(network(m, p, tokens, n).x0[i][d]) == r.v(p[tokens[i] * m.shape.n_embd + d]) + r.v(
            p[m.vocab_size * m.shape.n_embd + i * m.shape.n_embd + d],
        ),
{
    lemma_tables_inside(m);
    lemma_entry(m.wte, p, tokens[i] as int, d);
    lemma_entry(m.wpe, p, i, d);
    assert(network(m, p, tokens, n).x0[i] == embedded(m, p, tokens, i));
}

/// Each position has a row of its own in the position table: where only row `at` is changed, by
/// `delta`, the embedding at position `at` changes by `delta` and no other embedding changes.
pub proof fn law_position_row_moves_its_own_embedding<F: Float>(
    r: Reading<F>,
    m: Model,
    p: Seq<F>,
    q: Seq<F>,
    tokens: Seq<usize>,
    n: int,
    at: int,
    delta: spec_fn(int) -> real,
    i: int,
    d: int,
)
    requires
        r.exact(),
        m.wf(),
        m.n_params <= p.len(),
        q.len() == p.len(),
        0 <= at < m.shape.block_size,
        forall|x: int|
            0 <= x < p.len() && !(m.vocab_size * m.shape.n_embd + at * m.shape.n_embd <= x
                < m.vocab_size * m.shape.n_embd + at * m.shape.n_embd + m.shape.n_embd) ==> r.v(
                #[trigger] q[x],
            ) == r.v(p[x]),
        forall|k: int|
            0 <= k < m.shape.n_embd ==> r.v(
                q[m.vocab_size * m.shape.n_embd + at * m.shape.n_embd + k],
            ) == r.v(p[m.vocab_size * m.shape.n_embd + at * m.shape.n_embd + k])
                + #[trigger] delta(k),
        0 <= i < n <= m.shape.block_size,
        tokens[i] < m.vocab_size,
        0 <= d < m.shape.n_embd,
    ensures
        r.v(network(m, q, tokens, n).x0[i][d]) == r.v(network(m, p, tokens, n).x0[i][d]) + (if i
            == at {
            delta(d)
        } else {
            0real
        }),
{
    let (e, v, t) = (m.shape.n_embd as int, m.vocab_size as int, m.shape.block_size as int);
    law_embedding_adds_token_and_position(r, m, p, tokens, n, i, d);
    law_embedding_adds_token_and_position(r, m, q, tokens, n, i, d);
    lemma_tables_inside(m);
    lemma_entry(m.wte, p, tokens[i] as int, d);
    lemma_entry(m.wpe, p, i, d);
    lemma_cell(tokens[i] as int, d, v, e);
    lemma_cell(at, 0, t, e);
    lemma_cell(i, d, t, e);
    if i == at {
        assert(delta(d) == delta(d));
    } else if i < at {
        lemma_rows_apart(i, at, e);
    } else {
        lemma_rows_apart(at, i, e);
    }
}

/// The norm of a row: every entry is multiplied by one positive number, whose square is one over
/// the mean of the squares of the row plus one hundred-thousandth.
pub proof fn law_norm_scales_by_the_mean_square<F: Float>(r: Reading<F>, x: Seq<F>) -> (scale: real)
    requires
        r.exact(),
        r.roots_and_powers(),
        1 <= x.len() <= usize::MAX,
    ensures
        scale > 0real,
        (scale * scale) * (100_000real * sum(|k: int| r.v(x[k]) * r.v(x[k]), x.len() as int)
            + x.len() as real) == 100_000real * (x.len() as real),
        rmsnorm_of(x).len() == x.len(),
        forall|k: int|
            0 <= k < x.len() ==> r.v(#[trigger] rmsnorm_of(x)[k]) == r.v(x[k]) * scale,
{
    let len = x.len() as int;
    let squares = |k: int| r.v(x[k]) * r.v(x[k]);
    let total = sum(squares, len);
    lemma_dot_value(r, x, x);
    assert forall|k: int| 0 <= k < len implies #[trigger] squares(k) >= 0real by {
        let a = r.v(x[k]);
        assert(a * a >= 0real) by (nonlinear_arith);
    }
    lemma_sum_not_negative(squares, len);
    let n = x.len() as real;
    let ms = over(dot_of(x, x), num::<F>(x.len() as usize));
    let inner = plus(ms, rms_eps());
    let u = root(inner);
    let (vm, ve, vu) = (r.v(ms), r.v(rms_eps::<F>()), r.v(u));
    assert(vm * n == total);
    assert(ve * 100_000real == 1real);
    lemma_quotient_sign(vm, n, total);
    assert(vu * vu == vm + ve);
    if vu == 0real {
        assert(0real * 0real == 0real) by (nonlinear_arith);
    }
    let scale = r.v(rms_scale(x));
    assert(scale * vu == 1real);
    lemma_quotient_sign(scale, vu, 1real);
    // scale^2 * 100000 n (ms + eps) = 100000 n
    let w = vu * vu;
    assert((scale * scale) * (vu * vu) == (scale * vu) * (scale * vu)) by {
        assert((scale * scale) * w == scale * (scale * w)) by (nonlinear_arith);
        assert(scale * (vu * vu) == (scale * vu) * vu) by (nonlinear_arith);
        let z = scale * vu;
        assert(scale * (z * vu) == z * (scale * vu)) by (nonlinear_arith);
    }
    assert(1real * 1real == 1real) by (nonlinear_arith);
    let k = 100_000real * n;
    assert(100_000real * total + n == w * k) by {
        assert((vm + ve) * k == vm * k + ve * k) by (nonlinear_arith);
        assert(vm * (100_000real * n) == 100_000real * (vm * n)) by (nonlinear_arith);
        assert(ve * (100_000real * n) == (ve * 100_000real) * n) by (nonlinear_arith);
        assert(1real * n == n) by (nonlinear_arith);
    }
    let s2 = scale * scale;
    assert(s2 * (w * k) == (s2 * w) * k) by (nonlinear_arith);
    assert(1real * k == k) by (nonlinear_arith);
    scale
}

/// The residual stream starts as the norm of the embeddings.
pub proof fn law_stream_starts_with_the_norm<F: Float>(
    m: Model,
    p: Seq<F>,
    tokens: Seq<usize>,
    n: int,
    i: int,
)
    requires
        m.wf(),
        0 <= i < n,
    ensures
        network(m, p, tokens, n).xs[0][i] == rmsnorm_of(network(m, p, tokens, n).x0[i]),
{
}

/// The values of layer `l` at position `i`, where `base` is where the layer starts in the
/// parameter buffer: the norm of the input, the queries, keys and values of it, the residual
/// stream behind the attention, its norm, the hidden values and the output.
pub proof fn law_layer_formulas<F: Float>(
    r: Reading<F>,
    m: Model,
    p: Seq<F>,
    tokens: Seq<usize>,
    n: int,
    l: int,
    base: int,
    i: int,
    o: int,
)
    requires
        r.exact(),
        r.maxima(),
        m.wf(),
        m.n_params <= p.len(),
        0 <= i < n,
        0 <= l < m.shape.n_layer,
        base == 2 * (m.vocab_size * m.shape.n_embd) + m.shape.block_size * m.shape.n_embd + l * (12
            * (m.shape.n_embd * m.shape.n_embd)),
    ensures
        ({
            let t = network(m, p, tokens, n);
            let (x, a, y) = (t.xs[l], t.layers[l], t.xs[l + 1]);
            let e = m.shape.n_embd as int;
            &&& x[i].len() == e
            &&& a.h[i] == rmsnorm_of(x[i])
            &&& a.h2[i] == rmsnorm_of(a.x2[i])
            &&& 0 <= o < 3 * e ==> r.v(a.qkv[i][o]) == sum(
                |c: int| r.v(a.h[i][c]) * r.v(p[base + o * e + c]),
                e,
            )
            &&& 0 <= o < e ==> r.v(a.x2[i][o]) == r.v(x[i][o]) + sum(
                |c: int| r.v(a.attn_out[i][c]) * r.v(p[base + 3 * (e * e) + o * e + c]),
                e,
            )
            &&& 0 <= o < 4 * e ==> ({
                let u = sum(
                    |c: int| r.v(a.h2[i][c]) * r.v(p[base + 4 * (e * e) + o * e + c]),
                    e,
                );
                r.v(a.r[i][o]) == (if u > 0real {
                    u
                } else {
                    0real
                })
            })
            &&& 0 <= o < e ==> r.v(y[i][o]) == r.v(a.x2[i][o]) + sum(
                |c: int| r.v(a.r[i][c]) * r.v(p[base + 8 * (e * e) + o * (4 * e) + c]),
                4 * e,
            )
        }),
{
    let t = network(m, p, tokens, n);
    let (s, sh) = (m.shape, m.layers@[l]);
    let w = layer_weights(sh, p);
    let (x, a, y) = (t.xs[l], t.layers[l], t.xs[l + 1]);
    let e = s.n_embd as int;
    lemma_layer_inside(m, l);
    assert(is_layer(sh, m.layer_base(l), s));
    lemma_streams_sized(m, p, tokens, n, l);
    assert(x == stream(m, p, tokens, n, l));
    assert(a == layer_trace(s, w, x));
    assert(y == layer_out(s, w, x));
    lemma_tensor_sized(sh.wqkv, p);
    lemma_tensor_sized(sh.wo, p);
    lemma_tensor_sized(sh.fc1, p);
    lemma_tensor_sized(sh.fc2, p);
    lemma_layer_values_sized(s, w, x);
    assert(x[i].len() == e && a.h[i].len() == e && a.h2[i].len() == e);
    assert(a.attn_out[i].len() == e && a.x2[i].len() == e && a.r[i].len() == 4 * e);
    if 0 <= o < 3 * e {
        lemma_linear(r, a.h[i], sh.wqkv, p, o);
        lemma_sum_eq(
            |c: int| r.v(a.h[i][c]) * r.v(p[sh.wqkv.off + o * sh.wqkv.cols + c]),
            |c: int| r.v(a.h[i][c]) * r.v(p[base + o * e + c]),
            e,
        );
    }
    if 0 <= o < e {
        lemma_linear(r, a.attn_out[i], sh.wo, p, o);
        lemma_sum_eq(
            |c: int| r.v(a.attn_out[i][c]) * r.v(p[sh.wo.off + o * sh.wo.cols + c]),
            |c: int| r.v(a.attn_out[i][c]) * r.v(p[base + 3 * (e * e) + o * e + c]),
            e,
        );
        lemma_linear(r, a.r[i], sh.fc2, p, o);
        lemma_sum_eq(
            |c: int| r.v(a.r[i][c]) * r.v(p[sh.fc2.off + o * sh.fc2.cols + c]),
            |c: int| r.v(a.r[i][c]) * r.v(p[base + 8 * (e * e) + o * (4 * e) + c]),
            4 * e,
        );
    }
    if 0 <= o < 4 * e {
        lemma_linear(r, a.h2[i], sh.fc1, p, o);
        lemma_sum_eq(
            |c: int| r.v(a.h2[i][c]) * r.v(p[sh.fc1.off + o * sh.fc1.cols + c]),
            |c: int| r.v(a.h2[i][c]) * r.v(p[base + 4 * (e * e) + o * e + c]),
            e,
        );
        assert(r.v(zero::<F>()) == 0real);
    }
}

/// The scores at a position are the products of the last values of the residual stream with the
/// rows of the output head.
pub proof fn law_scores_read_the_output_head<F: Float>(
    r: Reading<F>,
    m: Model,
    p: Seq<F>,
    tokens: Seq<usize>,
    n: int,
    i: int,
    o: int,
)
    requires
        r.exact(),
        m.wf(),
        m.n_params <= p.len(),
        0 <= i < n,
        0 <= o < m.vocab_size,
    ensures
        ({
            let t = network(m, p, tokens, n);
            let e = m.shape.n_embd as int;
            let head = m.vocab_size * e + m.shape.block_size * e;
            &&& t.logits[i].len() == m.vocab_size
            &&& r.v(t.logits[i][o]) == sum(
                |c: int| r.v(t.xs[m.shape.n_layer as int][i][c]) * r.v(p[head + o * e + c]),
                e,
            )
        }),
{
    let t = network(m, p, tokens, n);
    let (e, depth) = (m.shape.n_embd as int, m.shape.n_layer as int);
    let head = m.vocab_size * e + m.shape.block_size * e;
    lemma_tables_inside(m);
    lemma_tensor_sized(m.lm_head, p);
    lemma_streams_sized(m, p, tokens, n, depth);
    assert(t.xs[depth] == stream(m, p, tokens, n, depth));
    let x = t.xs[depth][i];
    assert(x.len() == e);
    lemma_linear(r, x, m.lm_head, p, o);
    lemma_sum_eq(
        |c: int| r.v(x[c]) * r.v(p[m.lm_head.off + o * m.lm_head.cols + c]),
        |c: int| r.v(t.xs[m.shape.n_layer as int][i][c]) * r.v(p[head + o * e + c]),
        e,
    );
}

/// The product of the query of position `i` with the key of position `j`, in one head.
pub open spec fn query_times_key<F: Float>(
    r: Reading<F>,
    s: Shape,
    qkv: Seq<Seq<F>>,
    hd: int,
    i: int,
    j: int,
) -> real {
    sum(
        |d: int|
            r.v(qkv[i][hd * s.hd() + d]) * r.v(qkv[j][s.n_embd + hd * s.hd() + d]),
        s.hd(),
    )
}

/// Attention: at position `i` a head weighs the positions up to it, and no other, by the
/// exponentials of the products of its query with their keys, each divided by the root of the
/// dimension of the head, and its output is the sum of their values with these weights.
pub proof fn law_attention_formulas<F: Float>(
    r: Reading<F>,
    c: Curves,
    m: Model,
    p: Seq<F>,
    tokens: Seq<usize>,
    n: int,
    l: int,
    hd: int,
    i: int,
) -> (scale: real)
    requires
        r.exact(),
        c.known(),
        r.follows(c),
        r.roots_and_powers(),
        m.wf(),
        m.n_params <= p.len(),
        0 <= i < n,
        0 <= l < m.shape.n_layer,
        0 <= hd < m.shape.n_head,
    ensures
        scale > 0real,
        (scale * scale) * (m.shape.hd() as real) == 1real,
        m.shape.hd() * m.shape.n_head == m.shape.n_embd,
        ({
            let a = network(m, p, tokens, n).layers[l];
            let (s, w) = (m.shape, a.attn_w[hd][i]);
            &&& w.len() == i + 1
            &&& forall|j: int|
                0 <= j <= i ==> r.v(#[trigger] w[j]) * sum(
                    |k: int| c.e(query_times_key(r, s, a.qkv, hd, i, k) * scale),
                    i + 1,
                ) == c.e(query_times_key(r, s, a.qkv, hd, i, j) * scale)
            &&& forall|d: int|
                0 <= d < s.hd() ==> r.v(#[trigger] a.attn_out[i][hd * s.hd() + d]) == sum(
                    |j: int| r.v(w[j]) * r.v(a.qkv[j][2 * s.n_embd + hd * s.hd() + d]),
                    i + 1,
                )
        }),
{
    let (s, sh) = (m.shape, m.layers@[l]);
    let a = network(m, p, tokens, n).layers[l];
    let x = stream(m, p, tokens, n, l);
    let lw = layer_weights(sh, p);
    let (e, dim, mm) = (s.n_embd as int, s.hd(), i + 1);
    lemma_head(s, hd);
    lemma_layer_inside(m, l);
    assert(is_layer(sh, m.layer_base(l), s));
    lemma_streams_sized(m, p, tokens, n, l);
    lemma_tensor_sized(sh.wqkv, p);
    lemma_tensor_sized(sh.wo, p);
    lemma_tensor_sized(sh.fc1, p);
    lemma_tensor_sized(sh.fc2, p);
    lemma_layer_values_sized(s, lw, x);
    assert(a == layer_trace(s, lw, x));
    assert(sized(a.qkv, n, 3 * e));
    let w = a.attn_w[hd][i];
    assert(w == attn_weights(s, a.qkv, hd, i));
    let scores = attn_scores(s, a.qkv, hd, i);
    let scale = lemma_scale(r, s);
    let f = |k: int| c.e(query_times_key(r, s, a.qkv, hd, i, k) * scale);
    let g = |k: int| c.e(r.v(scores[k]));
    assert forall|k: int| 0 <= k < mm implies #[trigger] f(k) == g(k) by {
        lemma_score(r, s, a.qkv, n, hd, i, k);
    }
    lemma_sum_eq(f, g, mm);
    assert forall|j: int| 0 <= j <= i implies r.v(#[trigger] w[j]) * sum(f, mm) == f(j) by {
        law_softmax_weighs_exponentials(r, c, scores, j);
        assert(f(j) == g(j));
    }
    assert forall|d: int| 0 <= d < dim implies r.v(#[trigger] a.attn_out[i][hd * dim + d]) == sum(
        |j: int| r.v(w[j]) * r.v(a.qkv[j][2 * s.n_embd + hd * s.hd() + d]),
        mm,
    ) by {
        lemma_cell(hd, d, s.n_head as int, dim);
        assert(a.attn_out[i] == attn_row(s, a.qkv, a.attn_w, i));
        assert(a.attn_out[i][hd * dim + d] == head_out(s, a.qkv, w, hd, i)[d]);
        let y = value_entries(s, a.qkv, hd, i, d);
        lemma_chain_value(r, w, y, zero(), mm);
        let (h1, h2) = (
            |j: int| r.v(w[j]) * r.v(y[j]),
            |j: int| r.v(w[j]) * r.v(a.qkv[j][2 * s.n_embd + hd * s.hd() + d]),
        );
        assert forall|j: int| 0 <= j < mm implies #[trigger] h1(j) == h2(j) by {
            assert(a.qkv[j].len() == 3 * e);
            assert(y[j] == value(s, a.qkv[j], hd)[d]);
        }
        lemma_sum_eq(h1, h2, mm);
    }
    scale
}

/// What attention scores are scaled by.
proof fn lemma_scale<F: Float>(r: Reading<F>, s: Shape) -> (scale: real)
    requires
        r.exact(),
        r.roots_and_powers(),
        s.wf(),
    ensures
        scale > 0real,
        (scale * scale) * (s.hd() as real) == 1real,
        scale == r.v(attn_scale::<F>(s)),
{
    lemma_head(s, 0);
    assert(0 * s.hd() == 0) by (nonlinear_arith);
    let count = num::<F>(s.hd() as usize);
    let u = root(count);
    let (vu, h) = (r.v(u), s.hd() as real);
    let scale = r.v(over(one::<F>(), u));
    assert(vu * vu == h);
    if vu == 0real {
        assert(0real * 0real == 0real) by (nonlinear_arith);
    }
    lemma_quotient_sign(scale, vu, 1real);
    assert((scale * scale) * (vu * vu) == (scale * vu) * (scale * vu)) by {
        let w = vu * vu;
        assert((scale * scale) * w == scale * (scale * w)) by (nonlinear_arith);
        assert(scale * (vu * vu) == (scale * vu) * vu) by (nonlinear_arith);
        let z = scale * vu;
        assert(scale * (z * vu) == z * (scale * vu)) by (nonlinear_arith);
    }
    assert(1real * 1real == 1real) by (nonlinear_arith);
    scale
}

/// The value of an attention score.
proof fn lemma_score<F: Float>(
    r: Reading<F>,
    s: Shape,
    qkv: Seq<Seq<F>>,
    n: int,
    hd: int,
    i: int,
    j: int,
)
    requires
        r.exact(),
        s.wf(),
        0 <= hd < s.n_head,
        0 <= j <= i < n,
        sized(qkv, n, 3 * s.n_embd),
    ensures
        r.v(attn_scores(s, qkv, hd, i)[j]) == query_times_key(r, s, qkv, hd, i, j) * r.v(
            attn_scale::<F>(s),
        ),
{
    lemma_head(s, hd);
    assert(qkv[i].len() == 3 * s.n_embd && qkv[j].len() == 3 * s.n_embd);
    let (q, k) = (query(s, qkv[i], hd), key(s, qkv[j], hd));
    lemma_dot_value(r, q, k);
    lemma_sum_eq(
        |d: int| r.v(q[d]) * r.v(k[d]),
        |d: int| r.v(qkv[i][hd * s.hd() + d]) * r.v(qkv[j][s.n_embd + hd * s.hd() + d]),
        s.hd(),
    );
}

/// Where the values of the network stand in the activation buffers: row by row, and the attention
/// weights by head, position and the position looked at.
pub proof fn law_activations_are_row_major<F: Float>(
    s: Shape,
    v: int,
    a: Acts<F>,
    n: int,
    l: int,
    i: int,
    k: int,
)
    requires
        s.wf(),
        a.wf(s, v),
        0 <= v,
        0 <= i < n <= s.block_size,
        0 <= l < s.n_layer,
        0 <= k,
    ensures
        ({
            let t = a.trace(s, v, n);
            let (x, b) = (t.layers[l], a.layers@[l]);
            let e = s.n_embd as int;
            &&& k < v ==> t.logits[i][k] == a.logits@[i * v + k]
            &&& k < e ==> {
                &&& t.x0[i][k] == a.x0@[i * e + k]
                &&& t.xs[l][i][k] == a.xs@[l]@[i * e + k]
                &&& t.xs[l + 1][i][k] == a.xs@[l + 1]@[i * e + k]
                &&& x.h[i][k] == b.h@[i * e + k]
                &&& x.attn_out[i][k] == b.attn_out@[i * e + k]
                &&& x.x2[i][k] == b.x2@[i * e + k]
                &&& x.h2[i][k] == b.h2@[i * e + k]
            }
            &&& k < 3 * e ==> x.qkv[i][k] == b.qkv@[i * (3 * e) + k]
            &&& k < 4 * e ==> x.r[i][k] == b.r@[i * (4 * e) + k]
            &&& forall|hd: int|
                0 <= hd < s.n_head && k <= i ==> (#[trigger] x.attn_w[hd])[i][k] == b.attn_w@[(hd
                    * s.block_size + i) * s.block_size + k]
        }),
{
    let (e, t) = (s.n_embd as int, s.block_size as int);
    let b = a.layers@[l];
    assert(b.wf(s));
    if k < v {
        lemma_row_entry(a.logits@, i, k, t, v);
    }
    if k < e {
        lemma_row_entry(a.x0@, i, k, t, e);
        assert(a.xs@[l]@.len() == t * e);
        assert(a.xs@[l + 1]@.len() == t * e);
        lemma_row_entry(a.xs@[l]@, i, k, t, e);
        lemma_row_entry(a.xs@[l + 1]@, i, k, t, e);
        lemma_row_entry(b.h@, i, k, t, e);
        lemma_row_entry(b.attn_out@, i, k, t, e);
        lemma_row_entry(b.x2@, i, k, t, e);
        lemma_row_entry(b.h2@, i, k, t, e);
    }
    if k < 3 * e {
        lemma_row_entry(b.qkv@, i, k, t, 3 * e);
    }
    if k < 4 * e {
        lemma_row_entry(b.r@, i, k, t, 4 * e);
    }
    assert forall|hd: int| 0 <= hd < s.n_head && k <= i implies (#[trigger] a.trace(
        s,
        v,
        n,
    ).layers[l].attn_w[hd])[i][k] == b.attn_w@[(hd * s.block_size + i) * s.block_size + k] by {
        lemma_weight_base(s, hd, i);
    }
}

} // verus!
