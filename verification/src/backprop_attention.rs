//! Why the backward pass through the attention is right.
use vstd::prelude::*;

use crate::arith::lemma_cell;
use crate::attention::lemma_head;
use crate::backprop::{paired, row_paired};
use crate::derivative::{lemma_attn_scale, lemma_distributes, lemma_softmax_dual};
use crate::gradient::{
    head_weight_grad, key_entries, key_grad, qkv_grad, queries_from, query_grad, score_grad,
    scores_onto, value_grad, weighted_sum, weights_onto,
};
use crate::kernels::softmax_of;
use crate::matrix::{dot_of, Mat};
use crate::model::Shape;
use crate::network::{
    attn_row, attn_scale, attn_scores, attn_weights, head_out, key, query, value, value_entries,
    LayerTrace,
};
use crate::reading::{lemma_chain_rate, lemma_chain_value, lemma_dot_rate, lemma_dot_value, Reading};
use crate::scalar::{zero, Float};
use crate::sums::{
    lemma_exchange, lemma_sum_eq, lemma_sum_flat, lemma_sum_plus, lemma_sum_scaled, lemma_sum_split,
    lemma_sum_triangle, sum, sum2, sum_above, sum_below,
};

verus! {

/// The rates of the output of head `hd` at position `i`, weighted by their gradients.
spec fn out_term<F: Float>(
    r: Reading<F>,
    s: Shape,
    t: LayerTrace<F>,
    datt: Mat<F>,
    hd: int,
    i: int,
) -> real {
    sum(
        |d: int|
            r.v(query(s, datt[i], hd)[d]) * r.d(
                head_out(s, t.qkv, t.attn_w[hd][i], hd, i)[d],
            ),
        s.hd(),
    )
}

/// The rates of the query of head `hd` at position `i`, weighted by their gradients.
spec fn query_term<F: Float>(
    r: Reading<F>,
    s: Shape,
    t: LayerTrace<F>,
    datt: Mat<F>,
    hd: int,
    i: int,
) -> real {
    sum(
        |d: int| r.v(query_grad(s, t, datt, hd, i, d)) * r.d(query(s, t.qkv[i], hd)[d]),
        s.hd(),
    )
}

/// The rates of the key of head `hd` at position `j`, weighted by their gradients.
spec fn key_term<F: Float>(
    r: Reading<F>,
    s: Shape,
    t: LayerTrace<F>,
    datt: Mat<F>,
    hd: int,
    j: int,
    n: int,
) -> real {
    sum(
        |d: int| r.v(key_grad(s, t, datt, hd, j, d, n)) * r.d(key(s, t.qkv[j], hd)[d]),
        s.hd(),
    )
}

/// The rates of the value of head `hd` at position `j`, weighted by their gradients.
spec fn value_term<F: Float>(
    r: Reading<F>,
    s: Shape,
    t: LayerTrace<F>,
    datt: Mat<F>,
    hd: int,
    j: int,
    n: int,
) -> real {
    sum(
        |d: int| r.v(value_grad(s, t, datt, hd, j, d, n)) * r.d(value(s, t.qkv[j], hd)[d]),
        s.hd(),
    )
}

/// What the rates of the key at position `j` make of the score that position `i` gives it.
spec fn key_pair<F: Float>(
    r: Reading<F>,
    s: Shape,
    t: LayerTrace<F>,
    datt: Mat<F>,
    hd: int,
    i: int,
    j: int,
) -> real {
    sum(
        |d: int|
            (r.v(score_grad(s, t.qkv, t.attn_w[hd][i], datt, hd, i)[j]) * r.v(
                query(s, t.qkv[i], hd)[d],
            )) * r.d(key(s, t.qkv[j], hd)[d]),
        s.hd(),
    )
}

/// What the rates of the query at position `i` make of the score that it gives to position `j`.
spec fn query_pair<F: Float>(
    r: Reading<F>,
    s: Shape,
    t: LayerTrace<F>,
    datt: Mat<F>,
    hd: int,
    i: int,
    j: int,
) -> real {
    sum(
        |d: int|
            (r.v(score_grad(s, t.qkv, t.attn_w[hd][i], datt, hd, i)[j]) * r.v(
                key(s, t.qkv[j], hd)[d],
            )) * r.d(query(s, t.qkv[i], hd)[d]),
        s.hd(),
    )
}

/// What the rates of the value at position `j` make of the output at position `i`.
spec fn value_pair<F: Float>(
    r: Reading<F>,
    s: Shape,
    t: LayerTrace<F>,
    datt: Mat<F>,
    hd: int,
    i: int,
    j: int,
) -> real {
    sum(
        |d: int|
            (r.v(t.attn_w[hd][i][j]) * r.v(query(s, datt[i], hd)[d])) * r.d(
                value(s, t.qkv[j], hd)[d],
            ),
        s.hd(),
    )
}

/// The values of the attention at the first `n` positions.
pub open spec fn attends<F: Float>(s: Shape, t: LayerTrace<F>, datt: Mat<F>, n: int) -> bool {
    &&& s.wf()
    &&& datt.len() == n
    &&& forall|i: int| 0 <= i < n ==> (#[trigger] datt[i]).len() == s.n_embd
    &&& forall|i: int| 0 <= i < n ==> (#[trigger] t.qkv[i]).len() == 3 * s.n_embd
    &&& forall|hd: int, i: int|
        0 <= hd < s.n_head && 0 <= i < n ==> #[trigger] t.attn_w[hd][i] == attn_weights(
            s,
            t.qkv,
            hd,
            i,
        )
    &&& forall|i: int|
        0 <= i < n ==> #[trigger] t.attn_out[i] == attn_row(s, t.qkv, t.attn_w, i)
}

/// The lengths of the parts of a row.
proof fn lemma_parts<F: Float>(
    s: Shape,
    t: LayerTrace<F>,
    datt: Mat<F>,
    n: int,
    hd: int,
    i: int,
)
    requires
        attends(s, t, datt, n),
        0 <= hd < s.n_head,
        0 <= i < n,
    ensures
        s.hd() >= 1,
        query(s, datt[i], hd).len() == s.hd(),
        query(s, t.qkv[i], hd).len() == s.hd(),
        key(s, t.qkv[i], hd).len() == s.hd(),
        value(s, t.qkv[i], hd).len() == s.hd(),
        t.attn_w[hd][i] == attn_weights(s, t.qkv, hd, i),
        t.attn_w[hd][i].len() == i + 1,
{
    lemma_head(s, hd);
    assert(datt[i].len() == s.n_embd);
    assert(t.qkv[i].len() == 3 * s.n_embd);
}

/// The rates of the output of a head: what the values make of it, and what the weights make.
proof fn lemma_out_term<F: Float>(
    r: Reading<F>,
    s: Shape,
    t: LayerTrace<F>,
    datt: Mat<F>,
    n: int,
    hd: int,
    i: int,
)
    requires
        r.dual(),
        attends(s, t, datt, n),
        0 <= hd < s.n_head,
        0 <= i < n,
    ensures
        out_term(r, s, t, datt, hd, i) == sum(
            |j: int| value_pair(r, s, t, datt, hd, i, j),
            i + 1,
        ) + sum(
            |j: int|
                r.v(head_weight_grad(s, t.qkv, datt, hd, i)[j]) * r.d(t.attn_w[hd][i][j]),
            i + 1,
        ),
{
    let w = t.attn_w[hd][i];
    let g = query(s, datt[i], hd);
    let dw = head_weight_grad(s, t.qkv, datt, hd, i);
    let (m, dim) = (i + 1, s.hd());
    lemma_parts(s, t, datt, n, hd, i);
    // by entry, and for each entry by position
    let a = |d: int, j: int| (r.v(w[j]) * r.v(g[d])) * r.d(value(s, t.qkv[j], hd)[d]);
    let b = |d: int, j: int| (r.v(g[d]) * r.v(value(s, t.qkv[j], hd)[d])) * r.d(w[j]);
    let a_rows = |d: int| sum(|j: int| a(d, j), m);
    let b_rows = |d: int| sum(|j: int| b(d, j), m);
    let out = |d: int| r.v(g[d]) * r.d(head_out(s, t.qkv, w, hd, i)[d]);
    assert forall|d: int| 0 <= d < dim implies #[trigger] out(d) == a_rows(d) + b_rows(d) by {
        let y = value_entries(s, t.qkv, hd, i, d);
        let rates = |j: int| r.product_rate(w[j], y[j]);
        let (aj, bj) = (|j: int| a(d, j), |j: int| b(d, j));
        let vg = r.v(g[d]);
        lemma_chain_rate(r, w, y, zero(), m);
        lemma_sum_scaled(vg, rates, m);
        lemma_sum_plus(aj, bj, m);
        assert forall|j: int| 0 <= j < m implies #[trigger] aj(j) + bj(j) == vg * rates(j) by {
            let (vw, w1, vy, y1) = (r.v(w[j]), r.d(w[j]), r.v(y[j]), r.d(y[j]));
            lemma_distributes(vg, vw * y1, w1 * vy);
            assert(vg * (vw * y1) == (vw * vg) * y1) by (nonlinear_arith);
            assert(vg * (w1 * vy) == (vg * vy) * w1) by (nonlinear_arith);
        }
        lemma_sum_eq(|j: int| aj(j) + bj(j), |j: int| vg * rates(j), m);
    }
    lemma_sum_plus(a_rows, b_rows, dim);
    lemma_sum_eq(out, |d: int| a_rows(d) + b_rows(d), dim);
    // by position
    let values = |j: int| value_pair(r, s, t, datt, hd, i, j);
    assert forall|j: int| 0 <= j < m implies #[trigger] values(j) == sum(
        |d: int| a(d, j),
        dim,
    ) by {
        lemma_sum_eq(
            |d: int| (r.v(w[j]) * r.v(g[d])) * r.d(value(s, t.qkv[j], hd)[d]),
            |d: int| a(d, j),
            dim,
        );
    }
    lemma_exchange(a, a_rows, values, dim, m);
    let weights = |j: int| r.v(dw[j]) * r.d(w[j]);
    assert forall|j: int| 0 <= j < m implies #[trigger] weights(j) == sum(
        |d: int| b(d, j),
        dim,
    ) by {
        let y = value(s, t.qkv[j], hd);
        let w1 = r.d(w[j]);
        lemma_parts(s, t, datt, n, hd, j);
        lemma_dot_value(r, g, y);
        let products = |d: int| r.v(g[d]) * r.v(y[d]);
        lemma_sum_scaled(w1, products, dim);
        assert forall|d: int| 0 <= d < dim implies #[trigger] b(d, j) == w1 * products(d) by {
            let z = products(d);
            assert(z * w1 == w1 * z) by (nonlinear_arith);
        }
        lemma_sum_eq(|d: int| b(d, j), |d: int| w1 * products(d), dim);
        let z = sum(products, dim);
        assert(w1 * z == z * w1) by (nonlinear_arith);
    }
    lemma_exchange(b, b_rows, weights, dim, m);
}

/// The value of a weighted sum.
proof fn lemma_weighted_sum<F: Float>(r: Reading<F>, w: Seq<F>, dw: Seq<F>, n: int)
    requires
        r.exact(),
        0 <= n,
    ensures
        r.v(weighted_sum(w, dw, n)) == sum(|k: int| r.v(w[k]) * r.v(dw[k]), n),
    decreases n,
{
    if n > 0 {
        lemma_weighted_sum(r, w, dw, n - 1);
    }
}

/// The rate of a score, weighted by its gradient before the scale.
proof fn lemma_score_rate<F: Float>(
    r: Reading<F>,
    s: Shape,
    t: LayerTrace<F>,
    datt: Mat<F>,
    n: int,
    hd: int,
    i: int,
    j: int,
)
    requires
        r.dual(),
        attends(s, t, datt, n),
        0 <= hd < s.n_head,
        0 <= j <= i < n,
    ensures
        ({
            let w = t.attn_w[hd][i];
            let dw = head_weight_grad(s, t.qkv, datt, hd, i);
            let total = r.v(weighted_sum(w, dw, i + 1));
            (r.v(w[j]) * (r.v(dw[j]) - total)) * r.d(attn_scores(s, t.qkv, hd, i)[j])
        }) == key_pair(r, s, t, datt, hd, i, j) + query_pair(r, s, t, datt, hd, i, j),
{
    let w = t.attn_w[hd][i];
    let dw = head_weight_grad(s, t.qkv, datt, hd, i);
    let total = r.v(weighted_sum(w, dw, i + 1));
    let (q, k) = (query(s, t.qkv[i], hd), key(s, t.qkv[j], hd));
    let dim = s.hd();
    lemma_parts(s, t, datt, n, hd, i);
    lemma_parts(s, t, datt, n, hd, j);
    lemma_head(s, hd);
    lemma_head(s, 0);
    assert(dim <= s.n_embd) by {
        lemma_head(s, 0);
        assert(0 * s.hd() == 0) by (nonlinear_arith);
    }
    lemma_attn_scale(r, s);
    lemma_dot_rate(r, q, k);
    let g = r.v(w[j]) * (r.v(dw[j]) - total);
    let c = r.v(attn_scale::<F>(s));
    let dot = dot_of(q, k);
    let (vdot, ddot) = (r.v(dot), r.d(dot));
    let sg = r.v(score_grad(s, t.qkv, w, datt, hd, i)[j]);
    assert(sg == g * c);
    assert(vdot * 0real == 0real) by (nonlinear_arith);
    assert(g * (ddot * c) == (g * c) * ddot) by (nonlinear_arith);
    let rates = |d: int| r.product_rate(q[d], k[d]);
    let a = |d: int| (sg * r.v(q[d])) * r.d(k[d]);
    let b = |d: int| (sg * r.v(k[d])) * r.d(q[d]);
    lemma_sum_scaled(sg, rates, dim);
    lemma_sum_plus(a, b, dim);
    assert forall|d: int| 0 <= d < dim implies #[trigger] a(d) + b(d) == sg * rates(d) by {
        let (vq, dq, vk, dk) = (r.v(q[d]), r.d(q[d]), r.v(k[d]), r.d(k[d]));
        lemma_distributes(sg, vq * dk, dq * vk);
        assert(sg * (vq * dk) == (sg * vq) * dk) by (nonlinear_arith);
        assert(sg * (dq * vk) == (sg * vk) * dq) by (nonlinear_arith);
    }
    lemma_sum_eq(|d: int| a(d) + b(d), |d: int| sg * rates(d), dim);
}

/// What the rates of the query make of the scores, entry by entry.
proof fn lemma_query_term<F: Float>(
    r: Reading<F>,
    s: Shape,
    t: LayerTrace<F>,
    datt: Mat<F>,
    n: int,
    hd: int,
    i: int,
)
    requires
        r.dual(),
        attends(s, t, datt, n),
        0 <= hd < s.n_head,
        0 <= i < n,
    ensures
        sum(|j: int| query_pair(r, s, t, datt, hd, i, j), i + 1) == query_term(
            r,
            s,
            t,
            datt,
            hd,
            i,
        ),
{
    let sg = score_grad(s, t.qkv, t.attn_w[hd][i], datt, hd, i);
    let q = query(s, t.qkv[i], hd);
    let (m, dim) = (i + 1, s.hd());
    let f = |j: int, d: int| (r.v(sg[j]) * r.v(key(s, t.qkv[j], hd)[d])) * r.d(q[d]);
    let rows = |j: int| query_pair(r, s, t, datt, hd, i, j);
    let columns = |d: int| r.v(query_grad(s, t, datt, hd, i, d)) * r.d(q[d]);
    assert forall|j: int| 0 <= j < m implies #[trigger] rows(j) == sum(
        |d: int| f(j, d),
        dim,
    ) by {
        lemma_sum_eq(
            |d: int| (r.v(sg[j]) * r.v(key(s, t.qkv[j], hd)[d])) * r.d(q[d]),
            |d: int| f(j, d),
            dim,
        );
    }
    assert forall|d: int| 0 <= d < dim implies #[trigger] columns(d) == sum(
        |j: int| f(j, d),
        m,
    ) by {
        let k = key_entries(s, t.qkv, hd, i, d);
        let dq = r.d(q[d]);
        let products = |j: int| r.v(sg[j]) * r.v(k[j]);
        lemma_chain_value(r, sg, k, zero(), m);
        lemma_sum_scaled(dq, products, m);
        assert forall|j: int| 0 <= j < m implies #[trigger] f(j, d) == dq * products(j) by {
            let z = products(j);
            assert(z * dq == dq * z) by (nonlinear_arith);
        }
        lemma_sum_eq(|j: int| f(j, d), |j: int| dq * products(j), m);
        let z = sum(products, m);
        assert(dq * z == z * dq) by (nonlinear_arith);
    }
    lemma_exchange(f, rows, columns, m, dim);
}

/// The gradients of one head at one position: of its query, and of the keys and values that it
/// looks at.
proof fn lemma_head_dual<F: Float>(
    r: Reading<F>,
    s: Shape,
    t: LayerTrace<F>,
    datt: Mat<F>,
    n: int,
    hd: int,
    i: int,
)
    requires
        r.dual(),
        attends(s, t, datt, n),
        0 <= hd < s.n_head,
        0 <= i < n,
    ensures
        out_term(r, s, t, datt, hd, i) == query_term(r, s, t, datt, hd, i) + sum(
            |j: int| key_pair(r, s, t, datt, hd, i, j),
            i + 1,
        ) + sum(|j: int| value_pair(r, s, t, datt, hd, i, j), i + 1),
{
    let m = i + 1;
    let x = attn_scores(s, t.qkv, hd, i);
    let w = t.attn_w[hd][i];
    let dw = head_weight_grad(s, t.qkv, datt, hd, i);
    let total = r.v(weighted_sum(w, dw, m));
    lemma_parts(s, t, datt, n, hd, i);
    lemma_out_term(r, s, t, datt, n, hd, i);
    lemma_query_term(r, s, t, datt, n, hd, i);
    lemma_weighted_sum(r, w, dw, m);
    assert(w == softmax_of(x));
    lemma_softmax_dual(r, x, dw, total);
    let scores = |j: int| (r.v(w[j]) * (r.v(dw[j]) - total)) * r.d(x[j]);
    let keys = |j: int| key_pair(r, s, t, datt, hd, i, j);
    let queries = |j: int| query_pair(r, s, t, datt, hd, i, j);
    assert forall|j: int| 0 <= j < m implies #[trigger] scores(j) == keys(j) + queries(j) by {
        lemma_score_rate(r, s, t, datt, n, hd, i, j);
    }
    lemma_sum_plus(keys, queries, m);
    lemma_sum_eq(scores, |j: int| keys(j) + queries(j), m);
}

/// What the rates of the keys make of all scores, key by key.
proof fn lemma_key_terms<F: Float>(
    r: Reading<F>,
    s: Shape,
    t: LayerTrace<F>,
    datt: Mat<F>,
    n: int,
    hd: int,
)
    requires
        r.dual(),
        attends(s, t, datt, n),
        0 <= hd < s.n_head,
    ensures
        sum(|i: int| sum(|j: int| key_pair(r, s, t, datt, hd, i, j), i + 1), n) == sum(
            |j: int| key_term(r, s, t, datt, hd, j, n),
            n,
        ),
{
    let dim = s.hd();
    let f = |i: int, j: int| key_pair(r, s, t, datt, hd, i, j);
    let by_score = |i: int| sum(|j: int| key_pair(r, s, t, datt, hd, i, j), i + 1);
    let by_row = |i: int| sum(|j: int| f(i, j), i + 1);
    let by_column = |j: int| sum(|k: int| f(j + k, j), n - j);
    let terms = |j: int| key_term(r, s, t, datt, hd, j, n);
    lemma_sum_triangle(f, n);
    assert(sum_below(f, n) == sum(by_row, n));
    assert(sum_above(f, n) == sum(by_column, n));
    assert forall|i: int| 0 <= i < n implies #[trigger] by_score(i) == by_row(i) by {
        lemma_sum_eq(|j: int| key_pair(r, s, t, datt, hd, i, j), |j: int| f(i, j), i + 1);
    }
    lemma_sum_eq(by_score, by_row, n);
    assert forall|j: int| 0 <= j < n implies #[trigger] by_column(j) == terms(j) by {
        let key_j = key(s, t.qkv[j], hd);
        let sg = scores_onto(s, t, datt, hd, j, n);
        let table = |k: int, d: int|
            (r.v(sg[k]) * r.v(query(s, t.qkv[j + k], hd)[d])) * r.d(key_j[d]);
        let rows = |k: int| f(j + k, j);
        let columns = |d: int| r.v(key_grad(s, t, datt, hd, j, d, n)) * r.d(key_j[d]);
        assert forall|k: int| 0 <= k < n - j implies #[trigger] rows(k) == sum(
            |d: int| table(k, d),
            dim,
        ) by {
            let i = j + k;
            assert(sg[k] == score_grad(s, t.qkv, t.attn_w[hd][i], datt, hd, i)[j]);
            lemma_sum_eq(
                |d: int|
                    (r.v(score_grad(s, t.qkv, t.attn_w[hd][i], datt, hd, i)[j]) * r.v(
                        query(s, t.qkv[i], hd)[d],
                    )) * r.d(key(s, t.qkv[j], hd)[d]),
                |d: int| table(k, d),
                dim,
            );
        }
        assert forall|d: int| 0 <= d < dim implies #[trigger] columns(d) == sum(
            |k: int| table(k, d),
            n - j,
        ) by {
            let q = queries_from(s, t.qkv, hd, j, n, d);
            let dk = r.d(key_j[d]);
            let products = |k: int| r.v(sg[k]) * r.v(q[k]);
            lemma_chain_value(r, sg, q, zero(), n - j);
            lemma_sum_scaled(dk, products, n - j);
            assert forall|k: int| 0 <= k < n - j implies #[trigger] table(k, d) == dk * products(
                k,
            ) by {
                let z = products(k);
                assert(z * dk == dk * z) by (nonlinear_arith);
            }
            lemma_sum_eq(|k: int| table(k, d), |k: int| dk * products(k), n - j);
            let z = sum(products, n - j);
            assert(dk * z == z * dk) by (nonlinear_arith);
        }
        lemma_exchange(table, rows, columns, n - j, dim);
    }
    lemma_sum_eq(by_column, terms, n);
}

/// What the rates of the values make of all outputs, value by value.
proof fn lemma_value_terms<F: Float>(
    r: Reading<F>,
    s: Shape,
    t: LayerTrace<F>,
    datt: Mat<F>,
    n: int,
    hd: int,
)
    requires
        r.dual(),
        attends(s, t, datt, n),
        0 <= hd < s.n_head,
    ensures
        sum(|i: int| sum(|j: int| value_pair(r, s, t, datt, hd, i, j), i + 1), n) == sum(
            |j: int| value_term(r, s, t, datt, hd, j, n),
            n,
        ),
{
    let dim = s.hd();
    let f = |i: int, j: int| value_pair(r, s, t, datt, hd, i, j);
    let by_output = |i: int| sum(|j: int| value_pair(r, s, t, datt, hd, i, j), i + 1);
    let by_row = |i: int| sum(|j: int| f(i, j), i + 1);
    let by_column = |j: int| sum(|k: int| f(j + k, j), n - j);
    let terms = |j: int| value_term(r, s, t, datt, hd, j, n);
    lemma_sum_triangle(f, n);
    assert(sum_below(f, n) == sum(by_row, n));
    assert(sum_above(f, n) == sum(by_column, n));
    assert forall|i: int| 0 <= i < n implies #[trigger] by_output(i) == by_row(i) by {
        lemma_sum_eq(|j: int| value_pair(r, s, t, datt, hd, i, j), |j: int| f(i, j), i + 1);
    }
    lemma_sum_eq(by_output, by_row, n);
    assert forall|j: int| 0 <= j < n implies #[trigger] by_column(j) == terms(j) by {
        let value_j = value(s, t.qkv[j], hd);
        let w = weights_onto(t, hd, j, n);
        let table = |k: int, d: int|
            (r.v(w[k]) * r.v(query(s, datt[j + k], hd)[d])) * r.d(value_j[d]);
        let rows = |k: int| f(j + k, j);
        let columns = |d: int| r.v(value_grad(s, t, datt, hd, j, d, n)) * r.d(value_j[d]);
        assert forall|k: int| 0 <= k < n - j implies #[trigger] rows(k) == sum(
            |d: int| table(k, d),
            dim,
        ) by {
            let i = j + k;
            assert(w[k] == t.attn_w[hd][i][j]);
            lemma_sum_eq(
                |d: int|
                    (r.v(t.attn_w[hd][i][j]) * r.v(query(s, datt[i], hd)[d])) * r.d(
                        value(s, t.qkv[j], hd)[d],
                    ),
                |d: int| table(k, d),
                dim,
            );
        }
        assert forall|d: int| 0 <= d < dim implies #[trigger] columns(d) == sum(
            |k: int| table(k, d),
            n - j,
        ) by {
            let q = queries_from(s, datt, hd, j, n, d);
            let dv = r.d(value_j[d]);
            let products = |k: int| r.v(w[k]) * r.v(q[k]);
            lemma_chain_value(r, w, q, zero(), n - j);
            lemma_sum_scaled(dv, products, n - j);
            assert forall|k: int| 0 <= k < n - j implies #[trigger] table(k, d) == dv * products(
                k,
            ) by {
                let z = products(k);
                assert(z * dv == dv * z) by (nonlinear_arith);
            }
            lemma_sum_eq(|k: int| table(k, d), |k: int| dv * products(k), n - j);
            let z = sum(products, n - j);
            assert(dv * z == z * dv) by (nonlinear_arith);
        }
        lemma_exchange(table, rows, columns, n - j, dim);
    }
    lemma_sum_eq(by_column, terms, n);
}

/// The gradients of one head at all positions.
proof fn lemma_head_sums<F: Float>(
    r: Reading<F>,
    s: Shape,
    t: LayerTrace<F>,
    datt: Mat<F>,
    n: int,
    hd: int,
)
    requires
        r.dual(),
        attends(s, t, datt, n),
        0 <= hd < s.n_head,
    ensures
        sum(|i: int| out_term(r, s, t, datt, hd, i), n) == sum(
            |i: int|
                query_term(r, s, t, datt, hd, i) + key_term(r, s, t, datt, hd, i, n) + value_term(
                    r,
                    s,
                    t,
                    datt,
                    hd,
                    i,
                    n,
                ),
            n,
        ),
{
    let outs = |i: int| out_term(r, s, t, datt, hd, i);
    let q = |i: int| query_term(r, s, t, datt, hd, i);
    let k = |i: int| sum(|j: int| key_pair(r, s, t, datt, hd, i, j), i + 1);
    let v = |i: int| sum(|j: int| value_pair(r, s, t, datt, hd, i, j), i + 1);
    let qk = |i: int| q(i) + k(i);
    let key_terms = |j: int| key_term(r, s, t, datt, hd, j, n);
    let value_terms = |j: int| value_term(r, s, t, datt, hd, j, n);
    let q_key = |i: int| q(i) + key_terms(i);
    assert forall|i: int| 0 <= i < n implies #[trigger] outs(i) == qk(i) + v(i) by {
        lemma_head_dual(r, s, t, datt, n, hd, i);
    }
    lemma_sum_eq(outs, |i: int| qk(i) + v(i), n);
    lemma_sum_plus(qk, v, n);
    lemma_sum_plus(q, k, n);
    lemma_key_terms(r, s, t, datt, n, hd);
    lemma_value_terms(r, s, t, datt, n, hd);
    lemma_sum_plus(q, key_terms, n);
    lemma_sum_plus(q_key, value_terms, n);
    lemma_sum_eq(
        |i: int| q_key(i) + value_terms(i),
        |i: int|
            query_term(r, s, t, datt, hd, i) + key_term(r, s, t, datt, hd, i, n) + value_term(
                r,
                s,
                t,
                datt,
                hd,
                i,
                n,
            ),
        n,
    );
}

/// A sum over the entries of all heads side by side, head by head.
proof fn lemma_by_head(
    f: spec_fn(int) -> real,
    terms: spec_fn(int) -> real,
    heads: int,
    dim: int,
)
    requires
        0 <= heads,
        0 <= dim,
        forall|hd: int|
            0 <= hd < heads ==> #[trigger] terms(hd) == sum(|d: int| f(hd * dim + d), dim),
    ensures
        sum(f, heads * dim) == sum(terms, heads),
{
    let g = |hd: int, d: int| f(hd * dim + d);
    let rows = |hd: int| sum(|d: int| g(hd, d), dim);
    lemma_sum_flat(f, heads, dim);
    assert(sum2(g, heads, dim) == sum(rows, heads));
    assert forall|hd: int| 0 <= hd < heads implies #[trigger] rows(hd) == terms(hd) by {
        lemma_sum_eq(|d: int| g(hd, d), |d: int| f(hd * dim + d), dim);
    }
    lemma_sum_eq(rows, terms, heads);
}

/// The outputs of the heads side by side.
proof fn lemma_out_row<F: Float>(
    r: Reading<F>,
    s: Shape,
    t: LayerTrace<F>,
    datt: Mat<F>,
    n: int,
    i: int,
)
    requires
        attends(s, t, datt, n),
        0 <= i < n,
    ensures
        row_paired(r, datt[i], t.attn_out[i], s.n_embd as int) == sum(
            |hd: int| out_term(r, s, t, datt, hd, i),
            s.n_head as int,
        ),
{
    let (heads, dim) = (s.n_head as int, s.hd());
    lemma_head(s, 0);
    let f = |x: int| r.v(datt[i][x]) * r.d(t.attn_out[i][x]);
    let terms = |hd: int| out_term(r, s, t, datt, hd, i);
    assert forall|hd: int| 0 <= hd < heads implies #[trigger] terms(hd) == sum(
        |d: int| f(hd * dim + d),
        dim,
    ) by {
        lemma_head(s, hd);
        lemma_parts(s, t, datt, n, hd, i);
        let a = |d: int| f(hd * dim + d);
        let b = |d: int|
            r.v(query(s, datt[i], hd)[d]) * r.d(head_out(s, t.qkv, t.attn_w[hd][i], hd, i)[d]);
        assert forall|d: int| 0 <= d < dim implies #[trigger] a(d) == b(d) by {
            lemma_cell(hd, d, heads, dim);
            assert(t.attn_out[i] == attn_row(s, t.qkv, t.attn_w, i));
        }
        lemma_sum_eq(a, b, dim);
    }
    lemma_by_head(f, terms, heads, dim);
}

/// Entry `x` of the rates of a row of queries, keys and values, weighted by their gradients.
spec fn qkv_entry<F: Float>(
    r: Reading<F>,
    s: Shape,
    t: LayerTrace<F>,
    datt: Mat<F>,
    i: int,
    x: int,
) -> real {
    r.v(qkv_grad(s, t, datt)[i][x]) * r.d(t.qkv[i][x])
}

/// The queries of the heads side by side.
proof fn lemma_query_row<F: Float>(
    r: Reading<F>,
    s: Shape,
    t: LayerTrace<F>,
    datt: Mat<F>,
    n: int,
    i: int,
)
    requires
        attends(s, t, datt, n),
        0 <= i < n,
    ensures
        sum(|x: int| qkv_entry(r, s, t, datt, i, x), s.n_embd as int) == sum(
            |hd: int| query_term(r, s, t, datt, hd, i),
            s.n_head as int,
        ),
{
    let (heads, dim) = (s.n_head as int, s.hd());
    lemma_head(s, 0);
    let f = |x: int| qkv_entry(r, s, t, datt, i, x);
    let terms = |hd: int| query_term(r, s, t, datt, hd, i);
    assert forall|hd: int| 0 <= hd < heads implies #[trigger] terms(hd) == sum(
        |d: int| f(hd * dim + d),
        dim,
    ) by {
        lemma_head(s, hd);
        lemma_parts(s, t, datt, n, hd, i);
        let a = |d: int| f(hd * dim + d);
        let b = |d: int| r.v(query_grad(s, t, datt, hd, i, d)) * r.d(query(s, t.qkv[i], hd)[d]);
        assert forall|d: int| 0 <= d < dim implies #[trigger] a(d) == b(d) by {
            lemma_cell(hd, d, heads, dim);
        }
        lemma_sum_eq(a, b, dim);
    }
    lemma_by_head(f, terms, heads, dim);
}

/// The keys of the heads side by side.
proof fn lemma_key_row<F: Float>(
    r: Reading<F>,
    s: Shape,
    t: LayerTrace<F>,
    datt: Mat<F>,
    n: int,
    i: int,
)
    requires
        attends(s, t, datt, n),
        0 <= i < n,
    ensures
        sum(|x: int| qkv_entry(r, s, t, datt, i, s.n_embd + x), s.n_embd as int) == sum(
            |hd: int| key_term(r, s, t, datt, hd, i, n),
            s.n_head as int,
        ),
{
    let (heads, dim, e) = (s.n_head as int, s.hd(), s.n_embd as int);
    lemma_head(s, 0);
    let f = |x: int| qkv_entry(r, s, t, datt, i, s.n_embd + x);
    let terms = |hd: int| key_term(r, s, t, datt, hd, i, n);
    assert forall|hd: int| 0 <= hd < heads implies #[trigger] terms(hd) == sum(
        |d: int| f(hd * dim + d),
        dim,
    ) by {
        lemma_head(s, hd);
        lemma_parts(s, t, datt, n, hd, i);
        let a = |d: int| f(hd * dim + d);
        let b = |d: int|
            r.v(key_grad(s, t, datt, hd, i, d, n)) * r.d(key(s, t.qkv[i], hd)[d]);
        assert forall|d: int| 0 <= d < dim implies #[trigger] a(d) == b(d) by {
            lemma_cell(hd, d, heads, dim);
        }
        lemma_sum_eq(a, b, dim);
    }
    lemma_by_head(f, terms, heads, dim);
}

/// The values of the heads side by side.
proof fn lemma_value_row<F: Float>(
    r: Reading<F>,
    s: Shape,
    t: LayerTrace<F>,
    datt: Mat<F>,
    n: int,
    i: int,
)
    requires
        attends(s, t, datt, n),
        0 <= i < n,
    ensures
        sum(|x: int| qkv_entry(r, s, t, datt, i, 2 * s.n_embd + x), s.n_embd as int) == sum(
            |hd: int| value_term(r, s, t, datt, hd, i, n),
            s.n_head as int,
        ),
{
    let (heads, dim, e) = (s.n_head as int, s.hd(), s.n_embd as int);
    lemma_head(s, 0);
    let f = |x: int| qkv_entry(r, s, t, datt, i, 2 * s.n_embd + x);
    let terms = |hd: int| value_term(r, s, t, datt, hd, i, n);
    assert forall|hd: int| 0 <= hd < heads implies #[trigger] terms(hd) == sum(
        |d: int| f(hd * dim + d),
        dim,
    ) by {
        lemma_head(s, hd);
        lemma_parts(s, t, datt, n, hd, i);
        let a = |d: int| f(hd * dim + d);
        let b = |d: int|
            r.v(value_grad(s, t, datt, hd, i, d, n)) * r.d(value(s, t.qkv[i], hd)[d]);
        assert forall|d: int| 0 <= d < dim implies #[trigger] a(d) == b(d) by {
            lemma_cell(hd, d, heads, dim);
        }
        lemma_sum_eq(a, b, dim);
    }
    lemma_by_head(f, terms, heads, dim);
}

/// The queries, keys and values of the heads side by side.
proof fn lemma_qkv_row<F: Float>(
    r: Reading<F>,
    s: Shape,
    t: LayerTrace<F>,
    datt: Mat<F>,
    n: int,
    i: int,
)
    requires
        attends(s, t, datt, n),
        0 <= i < n,
    ensures
        row_paired(r, qkv_grad(s, t, datt)[i], t.qkv[i], 3 * s.n_embd) == sum(
            |hd: int|
                query_term(r, s, t, datt, hd, i) + key_term(r, s, t, datt, hd, i, n) + value_term(
                    r,
                    s,
                    t,
                    datt,
                    hd,
                    i,
                    n,
                ),
            s.n_head as int,
        ),
{
    let (heads, e) = (s.n_head as int, s.n_embd as int);
    let g = qkv_grad(s, t, datt)[i];
    let f = |x: int| qkv_entry(r, s, t, datt, i, x);
    let f1 = |x: int| qkv_entry(r, s, t, datt, i, s.n_embd + x);
    let f2 = |x: int| qkv_entry(r, s, t, datt, i, 2 * s.n_embd + x);
    lemma_sum_eq(|j: int| r.v(g[j]) * r.d(t.qkv[i][j]), f, 3 * e);
    lemma_sum_split(f, e, 2 * e);
    lemma_sum_eq(|x: int| f(e + x), f1, 2 * e);
    lemma_sum_split(f1, e, e);
    lemma_sum_eq(|x: int| f1(e + x), f2, e);
    lemma_query_row(r, s, t, datt, n, i);
    lemma_key_row(r, s, t, datt, n, i);
    lemma_value_row(r, s, t, datt, n, i);
    let q = |hd: int| query_term(r, s, t, datt, hd, i);
    let k = |hd: int| key_term(r, s, t, datt, hd, i, n);
    let v = |hd: int| value_term(r, s, t, datt, hd, i, n);
    let qk = |hd: int| q(hd) + k(hd);
    lemma_sum_plus(q, k, heads);
    lemma_sum_plus(qk, v, heads);
    lemma_sum_eq(
        |hd: int| qk(hd) + v(hd),
        |hd: int|
            query_term(r, s, t, datt, hd, i) + key_term(r, s, t, datt, hd, i, n) + value_term(
                r,
                s,
                t,
                datt,
                hd,
                i,
                n,
            ),
        heads,
    );
}

/// The gradients of the attention: of the queries, keys and values at all positions.
pub proof fn lemma_attention_dual<F: Float>(
    r: Reading<F>,
    s: Shape,
    t: LayerTrace<F>,
    datt: Mat<F>,
    n: int,
)
    requires
        r.dual(),
        attends(s, t, datt, n),
    ensures
        paired(r, datt, t.attn_out, n, s.n_embd as int) == paired(
            r,
            qkv_grad(s, t, datt),
            t.qkv,
            n,
            3 * s.n_embd,
        ),
{
    let heads = s.n_head as int;
    let g = qkv_grad(s, t, datt);
    let outs = |i: int, hd: int| out_term(r, s, t, datt, hd, i);
    let ins = |i: int, hd: int|
        query_term(r, s, t, datt, hd, i) + key_term(r, s, t, datt, hd, i, n) + value_term(
            r,
            s,
            t,
            datt,
            hd,
            i,
            n,
        );
    let out_rows = |i: int| row_paired(r, datt[i], t.attn_out[i], s.n_embd as int);
    let in_rows = |i: int| row_paired(r, g[i], t.qkv[i], 3 * s.n_embd);
    let by_head = |hd: int| sum(|i: int| outs(i, hd), n);
    assert forall|i: int| 0 <= i < n implies #[trigger] out_rows(i) == sum(
        |hd: int| outs(i, hd),
        heads,
    ) by {
        lemma_out_row(r, s, t, datt, n, i);
        lemma_sum_eq(
            |hd: int| out_term(r, s, t, datt, hd, i),
            |hd: int| outs(i, hd),
            heads,
        );
    }
    assert forall|i: int| 0 <= i < n implies #[trigger] in_rows(i) == sum(
        |hd: int| ins(i, hd),
        heads,
    ) by {
        lemma_qkv_row(r, s, t, datt, n, i);
        lemma_sum_eq(
            |hd: int|
                query_term(r, s, t, datt, hd, i) + key_term(r, s, t, datt, hd, i, n) + value_term(
                    r,
                    s,
                    t,
                    datt,
                    hd,
                    i,
                    n,
                ),
            |hd: int| ins(i, hd),
            heads,
        );
    }
    assert forall|hd: int| 0 <= hd < heads implies #[trigger] by_head(hd) == sum(
        |i: int| ins(i, hd),
        n,
    ) by {
        lemma_head_sums(r, s, t, datt, n, hd);
        lemma_sum_eq(|i: int| outs(i, hd), |i: int| out_term(r, s, t, datt, hd, i), n);
        lemma_sum_eq(
            |i: int|
                query_term(r, s, t, datt, hd, i) + key_term(r, s, t, datt, hd, i, n) + value_term(
                    r,
                    s,
                    t,
                    datt,
                    hd,
                    i,
                    n,
                ),
            |i: int| ins(i, hd),
            n,
        );
    }
    lemma_exchange(outs, out_rows, by_head, n, heads);
    lemma_exchange(ins, in_rows, by_head, n, heads);
}

} // verus!
