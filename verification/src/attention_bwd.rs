//! The backward pass of causal multi-head attention.
use vstd::prelude::*;

use crate::acts::LayerActs;
use crate::arith::{lemma_cell, lemma_position};
use crate::attention::{all_weights, lemma_head, lemma_weight_base, weight_base, weights_of};
use crate::gradient::{
    head_weight_grad, key_entries, key_grad, qkv_grad, queries_from, query_grad, score_grad,
    scores_onto, value_grad, weighted_sum, weights_onto,
};
use crate::kernels::dot;
use crate::matrix::{
    cell, fma_chain, lemma_fma_chain_same, lemma_mat_from_cells, lemma_row_len, mat, same_outside,
    Mat,
};
use crate::model::Shape;
use crate::network::{attn_scale, key, query, value, LayerTrace};
use crate::scalar::{deterministic, fma, minus, times, zero, Float};
use crate::stages::zero_rows;

verus! {

/// Where entry `d` of head `h` at position `r` stands: of its query for part 0, of its key for
/// part 1, of its value for part 2.
pub open spec fn slot_at(s: Shape, part: int, r: int, h: int, d: int) -> int {
    r * (3 * s.n_embd) + part * s.n_embd + h * s.hd() + d
}

/// The entry at [`slot_at`].
pub open spec fn slot<F>(buf: Seq<F>, s: Shape, part: int, r: int, h: int, d: int) -> F {
    buf[slot_at(s, part, r, h, d)]
}

/// The numbers name an entry of a query, a key or a value at the first `n` positions.
pub open spec fn is_slot(s: Shape, part: int, r: int, h: int, d: int, n: int) -> bool {
    0 <= part < 3 && 0 <= r < n && 0 <= h < s.n_head && 0 <= d < s.hd()
}

/// Different entries stand at different places, inside the buffer.
proof fn lemma_slots_apart(
    s: Shape,
    n: int,
    part: int,
    r: int,
    h: int,
    d: int,
    part2: int,
    r2: int,
    h2: int,
    d2: int,
)
    requires
        s.wf(),
        is_slot(s, part, r, h, d, n),
        is_slot(s, part2, r2, h2, d2, n),
    ensures
        0 <= slot_at(s, part, r, h, d) < n * (3 * s.n_embd),
        slot_at(s, part, r, h, d) == slot_at(s, part2, r2, h2, d2) ==> part == part2 && r == r2
            && h == h2 && d == d2,
{
    let e = s.n_embd as int;
    lemma_head(s, h);
    lemma_head(s, h2);
    lemma_cell(h, d, s.n_head as int, s.hd());
    lemma_cell(h2, d2, s.n_head as int, s.hd());
    let (x, x2) = (h * s.hd() + d, h2 * s.hd() + d2);
    assert(0 <= x < e && 0 <= x2 < e);
    let (y, y2) = (part * e + x, part2 * e + x2);
    assert(0 <= y < 3 * e && 0 <= y2 < 3 * e && (y == y2 ==> part == part2 && x == x2))
        by (nonlinear_arith)
        requires
            y == part * e + x,
            y2 == part2 * e + x2,
            0 <= x < e,
            0 <= x2 < e,
            0 <= part < 3,
            0 <= part2 < 3,
    ;
    lemma_cell(r, y, n, 3 * e);
    lemma_cell(r2, y2, n, 3 * e);
}

/// What an update of one entry does to the entries.
proof fn lemma_slot_update<F>(
    buf: Seq<F>,
    s: Shape,
    n: int,
    part: int,
    r: int,
    h: int,
    d: int,
    v: F,
)
    requires
        s.wf(),
        is_slot(s, part, r, h, d, n),
        n * (3 * s.n_embd) <= buf.len(),
    ensures
        0 <= slot_at(s, part, r, h, d) < buf.len(),
        forall|part2: int, r2: int, h2: int, d2: int|
            is_slot(s, part2, r2, h2, d2, n) ==> #[trigger] slot(
                buf.update(slot_at(s, part, r, h, d), v),
                s,
                part2,
                r2,
                h2,
                d2,
            ) == (if part2 == part && r2 == r && h2 == h && d2 == d {
                v
            } else {
                slot(buf, s, part2, r2, h2, d2)
            }),
{
    lemma_slots_apart(s, n, part, r, h, d, part, r, h, d);
    assert forall|part2: int, r2: int, h2: int, d2: int|
        is_slot(s, part2, r2, h2, d2, n) implies #[trigger] slot(
        buf.update(slot_at(s, part, r, h, d), v),
        s,
        part2,
        r2,
        h2,
        d2,
    ) == (if part2 == part && r2 == r && h2 == h && d2 == d {
        v
    } else {
        slot(buf, s, part2, r2, h2, d2)
    }) by {
        lemma_slots_apart(s, n, part, r, h, d, part2, r2, h2, d2);
        lemma_slots_apart(s, n, part2, r2, h2, d2, part2, r2, h2, d2);
    }
}

/// What head `hd` at position `i` makes of an entry that was `before`. `w` are its weights, `ds`
/// the gradients of its scores, `q` its query, `d_o` the gradient of its output.
pub open spec fn entry_grad<F: Float>(
    s: Shape,
    qkv: Mat<F>,
    w: Seq<F>,
    ds: Seq<F>,
    q: Seq<F>,
    d_o: Seq<F>,
    hd: int,
    i: int,
    part: int,
    r: int,
    h: int,
    d: int,
    before: F,
) -> F {
    if h != hd || r > i {
        before
    } else if part == 0 {
        if r == i {
            fma_chain(ds, key_entries(s, qkv, hd, i, d), before, i + 1)
        } else {
            before
        }
    } else if part == 1 {
        fma(ds[r], q[d], before)
    } else {
        fma(w[r], d_o[d], before)
    }
}

/// One head at one position, backwards: adds to the gradients of its query and of the keys and
/// values of the positions up to it.
#[verifier::rlimit(80)]
fn attend_bwd<F: Float>(
    s: &Shape,
    n: usize,
    qkv: &[F],
    attn_w: &[F],
    datt: &[F],
    dqkv: &mut [F],
    dw: &mut [F],
    scale: F,
    hd: usize,
    i: usize,
)
    requires
        s.wf(),
        hd < s.n_head,
        i < n <= s.block_size,
        n * (3 * s.n_embd) <= qkv.len(),
        (s.n_head * s.block_size) * s.block_size <= attn_w.len(),
        n * s.n_embd <= datt.len(),
        n * (3 * s.n_embd) <= old(dqkv).len(),
        s.block_size <= old(dw).len(),
        deterministic::<F>() ==> scale == attn_scale::<F>(*s),
    ensures
        same_outside(old(dqkv)@, final(dqkv)@, 0, n * (3 * s.n_embd)),
        same_outside(old(dw)@, final(dw)@, 0, i + 1),
        deterministic::<F>() ==> ({
            let rows = mat(qkv@, n as int, 3 * s.n_embd);
            let outs = mat(datt@, n as int, s.n_embd as int);
            let w = weights_of(attn_w@, *s, hd as int, i as int);
            let ds = score_grad(*s, rows, w, outs, hd as int, i as int);
            forall|part: int, r: int, h: int, d: int|
                is_slot(*s, part, r, h, d, n as int) ==> #[trigger] slot(
                    final(dqkv)@,
                    *s,
                    part,
                    r,
                    h,
                    d,
                ) == entry_grad(
                    *s,
                    rows,
                    w,
                    ds,
                    query(*s, rows[i as int], hd as int),
                    query(*s, outs[i as int], hd as int),
                    hd as int,
                    i as int,
                    part,
                    r,
                    h,
                    d,
                    slot(old(dqkv)@, *s, part, r, h, d),
                )
        }),
{
    let e: usize = s.n_embd;
    let t: usize = s.block_size;
    let dim: usize = s.head_dim();
    proof {
        lemma_head(*s, hd as int);
        lemma_weight_base(*s, hd as int, i as int);
        lemma_row_len(qkv@, i as int, n as int, 3 * e);
        lemma_row_len(datt@, i as int, n as int, e as int);
    }
    let hs: usize = hd * dim;
    let base: usize = (hd * t + i) * t;
    let ghost rows = mat(qkv@, n as int, 3 * e);
    let ghost outs = mat(datt@, n as int, e as int);
    let ghost w = weights_of(attn_w@, *s, hd as int, i as int);
    let ghost dws = head_weight_grad(*s, rows, outs, hd as int, i as int);
    let ghost qg = query(*s, rows[i as int], hd as int);
    let ghost og = query(*s, outs[i as int], hd as int);
    let ghost start = dqkv@;
    let os: usize = i * e + hs;
    let d_o = &datt[os..os + dim];
    assert(d_o@ =~= og);
    let mut wdot = F::from_usize(0);
    let mut j: usize = 0;
    while j <= i
        invariant
            j <= i + 1,
            i < n <= t,
            e == s.n_embd,
            t == s.block_size,
            s.wf(),
            hd < s.n_head,
            dim == s.hd(),
            hs == hd * dim,
            hs + dim <= e,
            n * (3 * e) <= qkv.len(),
            base + t <= attn_w.len(),
            base == weight_base(*s, hd as int, i as int),
            t <= dw.len(),
            n * (3 * e) <= dqkv.len(),
            dw.len() == old(dw).len(),
            same_outside(old(dw)@, dw@, 0, i + 1),
            dqkv.len() == start.len(),
            same_outside(start, dqkv@, 0, n * (3 * e)),
            rows == mat(qkv@, n as int, 3 * e),
            w == weights_of(attn_w@, *s, hd as int, i as int),
            dws == head_weight_grad(*s, rows, outs, hd as int, i as int),
            d_o@ == og,
            og == query(*s, outs[i as int], hd as int),
            d_o@.len() == dim,
            deterministic::<F>() ==> forall|k: int| 0 <= k < j ==> #[trigger] dw@[k] == dws[k],
            deterministic::<F>() ==> wdot == weighted_sum(w, dws, j as int),
            deterministic::<F>() ==> forall|part: int, r: int, h: int, d: int|
                is_slot(*s, part, r, h, d, n as int) ==> #[trigger] slot(
                    dqkv@,
                    *s,
                    part,
                    r,
                    h,
                    d,
                ) == (if part == 2 && h == hd && r < j {
                    fma(w[r], og[d], slot(start, *s, part, r, h, d))
                } else {
                    slot(start, *s, part, r, h, d)
                }),
        decreases i + 1 - j,
    {
        proof {
            lemma_row_len(qkv@, j as int, n as int, 3 * e);
        }
        let vs: usize = j * (3 * e) + 2 * e + hs;
        let vj = &qkv[vs..vs + dim];
        assert(vj@ =~= value(*s, rows[j as int], hd as int));
        let wj = attn_w[base + j];
        assert(wj == w[j as int]);
        dw[j] = dot(d_o, vj);
        wdot = wdot.plus(wj.times(dw[j]));
        let mut d: usize = 0;
        while d < dim
            invariant
                d <= dim,
                j <= i,
                i < n,
                e == s.n_embd,
                s.wf(),
                hd < s.n_head,
                dim == s.hd(),
                hs == hd * dim,
                vs == j * (3 * e) + 2 * e + hs,
                n * (3 * e) <= dqkv.len(),
                dqkv.len() == start.len(),
                same_outside(start, dqkv@, 0, n * (3 * e)),
                wj == w[j as int],
                d_o@ == og,
                d_o@.len() == dim,
                deterministic::<F>() ==> forall|part: int, r: int, h: int, c: int|
                    is_slot(*s, part, r, h, c, n as int) ==> #[trigger] slot(
                        dqkv@,
                        *s,
                        part,
                        r,
                        h,
                        c,
                    ) == (if part == 2 && h == hd && (r < j || (r == j && c < d)) {
                        fma(w[r], og[c], slot(start, *s, part, r, h, c))
                    } else {
                        slot(start, *s, part, r, h, c)
                    }),
            decreases dim - d,
        {
            proof {
                lemma_slots_apart(
                    *s,
                    n as int,
                    2,
                    j as int,
                    hd as int,
                    d as int,
                    2,
                    j as int,
                    hd as int,
                    d as int,
                );
                assert(slot_at(*s, 2, j as int, hd as int, d as int) == vs + d);
                assert(slot(dqkv@, *s, 2, j as int, hd as int, d as int) == dqkv@[vs + d]);
            }
            let x = wj.mul_add(d_o[d], dqkv[vs + d]);
            proof {
                lemma_slot_update(
                    dqkv@,
                    *s,
                    n as int,
                    2,
                    j as int,
                    hd as int,
                    d as int,
                    x,
                );
            }
            dqkv[vs + d] = x;
            d = d + 1;
        }
        j = j + 1;
    }
    let ghost middle = dqkv@;
    let ghost ds = score_grad(*s, rows, w, outs, hd as int, i as int);
    let qs: usize = i * (3 * e) + hs;
    let q = &qkv[qs..qs + dim];
    assert(q@ =~= qg);
    j = 0;
    while j <= i
        invariant
            j <= i + 1,
            i < n <= t,
            e == s.n_embd,
            t == s.block_size,
            s.wf(),
            hd < s.n_head,
            dim == s.hd(),
            hs == hd * dim,
            hs + dim <= e,
            qs == i * (3 * e) + hs,
            n * (3 * e) <= qkv.len(),
            base + t <= attn_w.len(),
            base == weight_base(*s, hd as int, i as int),
            t <= dw.len(),
            dw.len() == old(dw).len(),
            same_outside(old(dw)@, dw@, 0, i + 1),
            n * (3 * e) <= dqkv.len(),
            dqkv.len() == start.len(),
            same_outside(start, dqkv@, 0, n * (3 * e)),
            rows == mat(qkv@, n as int, 3 * e),
            w == weights_of(attn_w@, *s, hd as int, i as int),
            dws == head_weight_grad(*s, rows, outs, hd as int, i as int),
            ds == score_grad(*s, rows, w, outs, hd as int, i as int),
            q@ == qg,
            qg == query(*s, rows[i as int], hd as int),
            q@.len() == dim,
            deterministic::<F>() ==> scale == attn_scale::<F>(*s),
            deterministic::<F>() ==> forall|k: int| 0 <= k <= i ==> #[trigger] dw@[k] == dws[k],
            deterministic::<F>() ==> wdot == weighted_sum(w, dws, i + 1),
            deterministic::<F>() ==> forall|part: int, r: int, h: int, d: int|
                is_slot(*s, part, r, h, d, n as int) ==> #[trigger] slot(
                    dqkv@,
                    *s,
                    part,
                    r,
                    h,
                    d,
                ) == (if part == 0 && h == hd && r == i {
                    fma_chain(
                        ds,
                        key_entries(*s, rows, hd as int, i as int, d),
                        slot(middle, *s, part, r, h, d),
                        j as int,
                    )
                } else if part == 1 && h == hd && r < j {
                    fma(ds[r], qg[d], slot(middle, *s, part, r, h, d))
                } else {
                    slot(middle, *s, part, r, h, d)
                }),
        decreases i + 1 - j,
    {
        proof {
            lemma_row_len(qkv@, j as int, n as int, 3 * e);
        }
        let wj = attn_w[base + j];
        assert(wj == w[j as int]);
        let dsj = wj.times(dw[j].minus(wdot)).times(scale);
        assert(deterministic::<F>() ==> dsj == ds[j as int]);
        let ks: usize = j * (3 * e) + e + hs;
        let k = &qkv[ks..ks + dim];
        assert(k@ =~= key(*s, rows[j as int], hd as int));
        let mut d: usize = 0;
        while d < dim
            invariant
                d <= dim,
                j <= i,
                i < n,
                e == s.n_embd,
                s.wf(),
                hd < s.n_head,
                dim == s.hd(),
                hs == hd * dim,
                qs == i * (3 * e) + hs,
                ks == j * (3 * e) + e + hs,
                n * (3 * e) <= dqkv.len(),
                dqkv.len() == start.len(),
                same_outside(start, dqkv@, 0, n * (3 * e)),
                rows == mat(qkv@, n as int, 3 * e),
                k@ == key(*s, rows[j as int], hd as int),
                k@.len() == dim,
                deterministic::<F>() ==> dsj == ds[j as int],
                q@ == qg,
                q@.len() == dim,
                deterministic::<F>() ==> forall|part: int, r: int, h: int, c: int|
                    is_slot(*s, part, r, h, c, n as int) ==> #[trigger] slot(
                        dqkv@,
                        *s,
                        part,
                        r,
                        h,
                        c,
                    ) == (if part == 0 && h == hd && r == i {
                        fma_chain(
                            ds,
                            key_entries(*s, rows, hd as int, i as int, c),
                            slot(middle, *s, part, r, h, c),
                            if c < d {
                                j + 1
                            } else {
                                j as int
                            },
                        )
                    } else if part == 1 && h == hd && (r < j || (r == j && c < d)) {
                        fma(ds[r], qg[c], slot(middle, *s, part, r, h, c))
                    } else {
                        slot(middle, *s, part, r, h, c)
                    }),
            decreases dim - d,
        {
            proof {
                let (hi, di) = (hd as int, d as int);
                lemma_slots_apart(*s, n as int, 0, i as int, hi, di, 0, i as int, hi, di);
                lemma_slots_apart(*s, n as int, 1, j as int, hi, di, 1, j as int, hi, di);
                assert(slot_at(*s, 0, i as int, hi, di) == qs + d);
                assert(slot_at(*s, 1, j as int, hi, di) == ks + d);
                assert(slot(dqkv@, *s, 0, i as int, hi, di) == dqkv@[qs + d]);
                assert(slot(dqkv@, *s, 1, j as int, hi, di) == dqkv@[ks + d]);
            }
            let x = dsj.mul_add(k[d], dqkv[qs + d]);
            proof {
                lemma_slot_update(
                    dqkv@,
                    *s,
                    n as int,
                    0,
                    i as int,
                    hd as int,
                    d as int,
                    x,
                );
            }
            dqkv[qs + d] = x;
            let y = dsj.mul_add(q[d], dqkv[ks + d]);
            proof {
                assert(slot(dqkv@, *s, 1, j as int, hd as int, d as int) == dqkv@[ks + d]);
                lemma_slot_update(
                    dqkv@,
                    *s,
                    n as int,
                    1,
                    j as int,
                    hd as int,
                    d as int,
                    y,
                );
                assert(key_entries(*s, rows, hd as int, i as int, d as int)[j as int]
                    == k@[d as int]);
            }
            dqkv[ks + d] = y;
            d = d + 1;
        }
        j = j + 1;
    }
}

/// The gradient of a key grows by one product per position.
proof fn lemma_key_grad_step<F: Float>(
    s: Shape,
    t: LayerTrace<F>,
    datt: Mat<F>,
    hd: int,
    r: int,
    d: int,
    i: int,
)
    requires
        0 <= r,
    ensures
        key_grad(s, t, datt, hd, r, d, i + 1) == (if r <= i {
            fma(
                score_grad(s, t.qkv, t.attn_w[hd][i], datt, hd, i)[r],
                query(s, t.qkv[i], hd)[d],
                key_grad(s, t, datt, hd, r, d, i),
            )
        } else {
            key_grad(s, t, datt, hd, r, d, i)
        }),
{
    if r <= i {
        let (x, x2) = (scores_onto(s, t, datt, hd, r, i + 1), scores_onto(s, t, datt, hd, r, i));
        let (y, y2) = (
            queries_from(s, t.qkv, hd, r, i + 1, d),
            queries_from(s, t.qkv, hd, r, i, d),
        );
        lemma_fma_chain_same(x, y, x2, y2, zero(), i - r);
        assert(x[i - r] == score_grad(s, t.qkv, t.attn_w[hd][i], datt, hd, i)[r]);
        assert(y[i - r] == query(s, t.qkv[i], hd)[d]);
    }
}

/// The gradient of a value grows by one product per position.
proof fn lemma_value_grad_step<F: Float>(
    s: Shape,
    t: LayerTrace<F>,
    datt: Mat<F>,
    hd: int,
    r: int,
    d: int,
    i: int,
)
    requires
        0 <= r,
    ensures
        value_grad(s, t, datt, hd, r, d, i + 1) == (if r <= i {
            fma(
                t.attn_w[hd][i][r],
                query(s, datt[i], hd)[d],
                value_grad(s, t, datt, hd, r, d, i),
            )
        } else {
            value_grad(s, t, datt, hd, r, d, i)
        }),
{
    if r <= i {
        let (x, x2) = (weights_onto(t, hd, r, i + 1), weights_onto(t, hd, r, i));
        let (y, y2) = (queries_from(s, datt, hd, r, i + 1, d), queries_from(s, datt, hd, r, i, d));
        lemma_fma_chain_same(x, y, x2, y2, zero(), i - r);
        assert(x[i - r] == t.attn_w[hd][i][r]);
        assert(y[i - r] == query(s, datt[i], hd)[d]);
    }
}

/// An entry after the heads below `hd`, and the positions below `i` of head `hd`.
spec fn entry_so_far<F: Float>(
    s: Shape,
    t: LayerTrace<F>,
    datt: Mat<F>,
    n: int,
    hd: int,
    i: int,
    part: int,
    r: int,
    h: int,
    d: int,
) -> F {
    let upto = if h < hd {
        n
    } else if h == hd {
        i
    } else {
        0
    };
    if part == 0 {
        if r < upto {
            query_grad(s, t, datt, h, r, d)
        } else {
            zero()
        }
    } else if part == 1 {
        key_grad(s, t, datt, h, r, d, upto)
    } else {
        value_grad(s, t, datt, h, r, d, upto)
    }
}

/// Entries that are all done make up the gradient of query, key and value.
proof fn lemma_entries_done<F: Float>(
    s: Shape,
    t: LayerTrace<F>,
    datt: Mat<F>,
    n: int,
    buf: Seq<F>,
)
    requires
        s.wf(),
        0 <= n,
        datt.len() == n,
        n * (3 * s.n_embd) <= buf.len(),
        forall|part: int, r: int, h: int, d: int|
            is_slot(s, part, r, h, d, n) ==> #[trigger] slot(buf, s, part, r, h, d) == entry_so_far(
                s,
                t,
                datt,
                n,
                s.n_head as int,
                0,
                part,
                r,
                h,
                d,
            ),
    ensures
        mat(buf, n, 3 * s.n_embd) == qkv_grad(s, t, datt),
{
    let e = s.n_embd as int;
    let target = qkv_grad(s, t, datt);
    lemma_head(s, 0);
    assert forall|r: int, x: int| 0 <= r < n && 0 <= x < 3 * e implies #[trigger] cell(
        buf,
        3 * e,
        r,
        x,
    ) == target[r][x] by {
        let part: int = if x < e {
            0
        } else if x < 2 * e {
            1
        } else {
            2
        };
        let y = x - part * e;
        assert(0 <= y < e) by (nonlinear_arith)
            requires
                y == x - part * e,
                0 <= x < 3 * e,
                part == (if x < e {
                    0int
                } else if x < 2 * e {
                    1int
                } else {
                    2int
                }),
        ;
        assert(y == (if x < e {
            x
        } else if x < 2 * e {
            x - e
        } else {
            x - 2 * e
        }));
        lemma_position(y, s.n_head as int, s.hd());
        let (h, d) = (y / s.hd(), y % s.hd());
        assert(is_slot(s, part, r, h, d, n));
        assert(slot_at(s, part, r, h, d) == r * (3 * e) + x);
        assert(slot(buf, s, part, r, h, d) == cell(buf, 3 * e, r, x));
    }
    lemma_mat_from_cells(buf, n, 3 * e, target);
}

/// The gradient of query, key and value at the first `n` positions, from the gradient of the
/// outputs of the heads. `dw` is scratch.
#[verifier::rlimit(80)]
pub fn attention_bwd_rows<F: Float>(
    s: &Shape,
    n: usize,
    la: &LayerActs<F>,
    datt: &[F],
    dqkv: &mut [F],
    dw: &mut [F],
)
    requires
        s.wf(),
        n <= s.block_size,
        la.wf(*s),
        n * s.n_embd <= datt.len(),
        n * (3 * s.n_embd) <= old(dqkv).len(),
        s.block_size <= old(dw).len(),
    ensures
        same_outside(old(dqkv)@, final(dqkv)@, 0, n * (3 * s.n_embd)),
        same_outside(old(dw)@, final(dw)@, 0, n as int),
        deterministic::<F>() ==> mat(final(dqkv)@, n as int, 3 * s.n_embd) == qkv_grad(
            *s,
            la.trace(*s, n as int),
            mat(datt@, n as int, s.n_embd as int),
        ),
{
    let ghost e = s.n_embd as int;
    let ghost t = la.trace(*s, n as int);
    let qkv = la.qkv.as_slice();
    let attn_w = la.attn_w.as_slice();
    let ghost outs = mat(datt@, n as int, e);
    let scale = F::from_usize(1).over(F::from_usize(s.head_dim()).sqrt());
    proof {
        assert(3 * e <= n * (3 * e) || n == 0) by (nonlinear_arith)
            requires
                e >= 0,
        ;
        assert(n * (3 * e) <= s.block_size * (3 * e)) by (nonlinear_arith)
            requires
                n <= s.block_size,
                e >= 0,
        ;
    }
    if n > 0 {
        zero_rows(dqkv, n, 3 * s.n_embd);
    }
    proof {
        if deterministic::<F>() {
            assert forall|part: int, r: int, h: int, d: int|
                is_slot(*s, part, r, h, d, n as int) implies #[trigger] slot(
                dqkv@,
                *s,
                part,
                r,
                h,
                d,
            ) == entry_so_far(*s, t, outs, n as int, 0, 0, part, r, h, d) by {
                lemma_slots_apart(*s, n as int, part, r, h, d, part, r, h, d);
                lemma_head(*s, h);
            }
        }
    }
    let mut hd: usize = 0;
    while hd < s.n_head
        invariant
            s.wf(),
            e == s.n_embd,
            hd <= s.n_head,
            n <= s.block_size,
            n * (3 * s.n_embd) <= qkv.len(),
            (s.n_head * s.block_size) * s.block_size <= attn_w.len(),
            n * s.n_embd <= datt.len(),
            n * (3 * s.n_embd) <= dqkv.len(),
            s.block_size <= dw.len(),
            dqkv.len() == old(dqkv).len(),
            dw.len() == old(dw).len(),
            same_outside(old(dqkv)@, dqkv@, 0, n * (3 * s.n_embd)),
            same_outside(old(dw)@, dw@, 0, n as int),
            t.qkv == mat(qkv@, n as int, 3 * s.n_embd),
            t.attn_w == all_weights(attn_w@, *s, n as int),
            outs == mat(datt@, n as int, e),
            deterministic::<F>() ==> scale == attn_scale::<F>(*s),
            deterministic::<F>() ==> forall|part: int, r: int, h: int, d: int|
                is_slot(*s, part, r, h, d, n as int) ==> #[trigger] slot(
                    dqkv@,
                    *s,
                    part,
                    r,
                    h,
                    d,
                ) == entry_so_far(*s, t, outs, n as int, hd as int, 0, part, r, h, d),
        decreases s.n_head - hd,
    {
        let mut i: usize = 0;
        while i < n
            invariant
                s.wf(),
                e == s.n_embd,
                hd < s.n_head,
                i <= n,
                n <= s.block_size,
                n * (3 * s.n_embd) <= qkv.len(),
                (s.n_head * s.block_size) * s.block_size <= attn_w.len(),
                n * s.n_embd <= datt.len(),
                n * (3 * s.n_embd) <= dqkv.len(),
                s.block_size <= dw.len(),
                dqkv.len() == old(dqkv).len(),
                dw.len() == old(dw).len(),
                same_outside(old(dqkv)@, dqkv@, 0, n * (3 * s.n_embd)),
                same_outside(old(dw)@, dw@, 0, n as int),
                t.qkv == mat(qkv@, n as int, 3 * s.n_embd),
                t.attn_w == all_weights(attn_w@, *s, n as int),
                outs == mat(datt@, n as int, e),
                deterministic::<F>() ==> scale == attn_scale::<F>(*s),
                deterministic::<F>() ==> forall|part: int, r: int, h: int, d: int|
                    is_slot(*s, part, r, h, d, n as int) ==> #[trigger] slot(
                        dqkv@,
                        *s,
                        part,
                        r,
                        h,
                        d,
                    ) == entry_so_far(*s, t, outs, n as int, hd as int, i as int, part, r, h, d),
            decreases n - i,
        {
            let ghost before = dqkv@;
            attend_bwd(s, n, qkv, attn_w, datt, dqkv, dw, scale, hd, i);
            proof {
                if deterministic::<F>() {
                    let (hi, ii) = (hd as int, i as int);
                    let w = weights_of(attn_w@, *s, hi, ii);
                    let ds = score_grad(*s, t.qkv, w, outs, hi, ii);
                    assert(t.attn_w[hi][ii] == w);
                    assert forall|part: int, r: int, h: int, d: int|
                        is_slot(*s, part, r, h, d, n as int) implies #[trigger] slot(
                        dqkv@,
                        *s,
                        part,
                        r,
                        h,
                        d,
                    ) == entry_so_far(*s, t, outs, n as int, hi, ii + 1, part, r, h, d) by {
                        assert(slot(before, *s, part, r, h, d) == entry_so_far(
                            *s,
                            t,
                            outs,
                            n as int,
                            hi,
                            ii,
                            part,
                            r,
                            h,
                            d,
                        ));
                        lemma_key_grad_step(*s, t, outs, hi, r, d, ii);
                        lemma_value_grad_step(*s, t, outs, hi, r, d, ii);
                    }
                }
            }
            i = i + 1;
        }
        proof {
            if deterministic::<F>() {
                assert forall|part: int, r: int, h: int, d: int|
                    is_slot(*s, part, r, h, d, n as int) implies #[trigger] slot(
                    dqkv@,
                    *s,
                    part,
                    r,
                    h,
                    d,
                ) == entry_so_far(*s, t, outs, n as int, hd + 1, 0, part, r, h, d) by {
                    assert(slot(dqkv@, *s, part, r, h, d) == entry_so_far(
                        *s,
                        t,
                        outs,
                        n as int,
                        hd as int,
                        n as int,
                        part,
                        r,
                        h,
                        d,
                    ));
                }
            }
        }
        hd = hd + 1;
    }
    proof {
        if deterministic::<F>() {
            lemma_entries_done(*s, t, outs, n as int, dqkv@);
        }
    }
}

} // verus!
