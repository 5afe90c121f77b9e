//! The backward pass: derived by hand, stage by stage in the reverse order of the forward pass.
//! Every linear layer adds one product over all positions to the gradient of its weights.
use vstd::prelude::*;

use crate::acts::{Acts, Grads, LayerActs};
use crate::arith::{lemma_cell, lemma_position};
use crate::attention_bwd::attention_bwd_rows;
use crate::document::tokens_known;
use crate::gradient::{
    embedding_grad, embeddings_grad, gradient, hidden_grad, input_grad, layer_grads,
    layer_weight_grads, layers_grad, logit_grad, norm_grad, output_grad, weight_grad, with_added,
    with_matrix, LayerGrads,
};
use crate::kernels::{
    fill, matmul_ab_acc, matmul_atb_acc, rmsnorm_bwd, rmsnorm_grad, row, written_over,
};
use crate::matrix::{
    atb_acc, cell, lemma_mat_from_cells, lemma_row_entry, lemma_row_len, lemma_update_cell, mat,
    row_of, same_outside, Mat,
};
use crate::model::{is_layer, lemma_layer_inside, lemma_tables_inside, Model, Shape, Tensor};
use crate::network::{layer_weights, LayerWeights, Trace};
use crate::scalar::{deterministic, is_at_most, minus, num, one, over, plus, times, zero, Float};
use crate::stages::{copy_rows, rmsnorm_bwd_rows, zero_rows};

verus! {

/// What the backward pass through one layer leaves in the scratch: the gradients `d` inside the
/// layer at the first `n` positions. `w` are its weights.
pub open spec fn scratch_of_layer<F: Float>(
    s: Shape,
    w: LayerWeights<F>,
    d: LayerGrads<F>,
    sc: Grads<F>,
    n: int,
) -> bool {
    let e = s.n_embd as int;
    &&& mat(sc.dr@, n, s.hidden()) == d.dr
    &&& mat(sc.dx2@, n, e) == d.dx2
    &&& mat(sc.datt@, n, e) == input_grad(d.dx2, w.wo, e)
    &&& mat(sc.dqkv@, n, 3 * e) == d.dqkv
    &&& mat(sc.dh@, n, e) == input_grad(d.dqkv, w.wqkv, e)
    &&& mat(sc.dx@, n, e) == d.dx
}

/// What the backward pass leaves in the scratch: the gradient of the scores, the gradients inside
/// the first layer, and the gradient of the last embedding.
pub open spec fn scratch_left<F: Float>(
    m: Model,
    p: Seq<F>,
    tokens: Seq<usize>,
    t: Trace<F>,
    probs: Mat<F>,
    sc: Grads<F>,
    n: int,
) -> bool {
    let w = layer_weights(m.layers@[0], p);
    let dl = logit_grad(probs, tokens, n);
    let dx = input_grad(dl, m.lm_head.of(p), m.shape.n_embd as int);
    let out = output_grad(m, p, t, dx, m.shape.n_layer as int, 0);
    let d = layer_grads(m.shape, w, t.xs[0], t.layers[0], out);
    &&& mat(sc.dlogits@, n, m.vocab_size as int) == dl
    &&& scratch_of_layer(m.shape, w, d, sc, n)
    &&& n > 0 ==> sc.dx0@ == embedding_grad(t.x0, d.dx, n - 1)
}

/// The backward pass over the first `n` positions changes the scratch at these positions only.
pub open spec fn scratch_kept<F>(s: Shape, v: int, old_sc: Grads<F>, sc: Grads<F>, n: int) -> bool {
    let e = s.n_embd as int;
    &&& same_outside(old_sc.dx@, sc.dx@, 0, n * e)
    &&& same_outside(old_sc.dx2@, sc.dx2@, 0, n * e)
    &&& same_outside(old_sc.datt@, sc.datt@, 0, n * e)
    &&& same_outside(old_sc.dh@, sc.dh@, 0, n * e)
    &&& same_outside(old_sc.dr@, sc.dr@, 0, n * s.hidden())
    &&& same_outside(old_sc.dqkv@, sc.dqkv@, 0, n * (3 * e))
    &&& same_outside(old_sc.dw@, sc.dw@, 0, n)
    &&& same_outside(old_sc.dlogits@, sc.dlogits@, 0, n * v)
    &&& n == 0 ==> sc.dx0@ == old_sc.dx0@
}

/// Adds to the gradient of the weights `t` what `n` positions with the output gradients `a` and
/// the inputs `b` give.
fn acc_weight<F: Float>(t: &Tensor, g: &mut [F], a: &[F], n: usize, b: &[F])
    requires
        t.end() <= old(g).len(),
        n * t.rows <= a.len(),
        n * t.cols <= b.len(),
    ensures
        same_outside(old(g)@, final(g)@, t.off as int, t.end()),
        deterministic::<F>() ==> final(g)@ == weight_grad(
            old(g)@,
            *t,
            mat(a@, n as int, t.rows as int),
            mat(b@, n as int, t.cols as int),
        ),
{
    let ghost am = mat(a@, n as int, t.rows as int);
    let ghost bm = mat(b@, n as int, t.cols as int);
    let ghost (rows, cols) = (t.rows as int, t.cols as int);
    proof {
        assert(0 <= t.size()) by (nonlinear_arith)
            requires
                t.size() == t.rows * t.cols,
        ;
    }
    let view = t.view_mut(g);
    matmul_atb_acc(a, n, t.rows, b, t.cols, view);
    let ghost out = view@;
    proof {
        assert(g@ == old(g)@.take(t.off as int) + out + old(g)@.skip(t.end()));
        if deterministic::<F>() {
            let m = atb_acc(am, bm, t.of(old(g)@));
            assert(mat(out, rows, cols) == m);
            assert forall|x: int| t.off <= x < t.end() implies #[trigger] g@[x] == m[(x - t.off)
                / cols][(x - t.off) % cols] by {
                let y = x - t.off;
                lemma_position(y, rows, cols);
                lemma_row_entry(out, y / cols, y % cols, rows, cols);
                assert(mat(out, rows, cols)[y / cols] == row_of(out, y / cols, cols));
            }
            assert(g@ =~= with_matrix(old(g)@, *t, m));
        }
    }
}

/// The gradient of the inputs of the linear layer with the weights `t`, for `n` positions with
/// the output gradients `a`.
fn linear_bwd<F: Float>(t: &Tensor, p: &[F], a: &[F], n: usize, c: &mut [F])
    requires
        t.end() <= p.len(),
        n * t.rows <= a.len(),
        n * t.cols <= old(c).len(),
    ensures
        same_outside(old(c)@, final(c)@, 0, n * t.cols),
        deterministic::<F>() ==> mat(final(c)@, n as int, t.cols as int) == input_grad(
            mat(a@, n as int, t.rows as int),
            t.of(p@),
            t.cols as int,
        ),
{
    zero_rows(c, n, t.cols);
    let ghost cleared = c@;
    matmul_ab_acc(a, n, t.rows, t.view(p), t.cols, c);
    proof {
        let k = n * t.cols;
        assert(0 <= k) by (nonlinear_arith)
            requires
                k == n * t.cols,
        ;
        assert forall|x: int| 0 <= x < c@.len() && !(0 <= x < k) implies #[trigger] c@[x]
            == old(c)@[x] by {
            assert(c@.skip(k)[x - k] == cleared.skip(k)[x - k]);
        }
    }
}

/// Clears the gradient of the hidden values where the value was not positive.
fn relu_bwd<F: Float>(r: &[F], d: &mut [F], n: usize, w: usize)
    requires
        n * w <= r.len(),
        n * w <= old(d).len(),
    ensures
        same_outside(old(d)@, final(d)@, 0, n * w),
        deterministic::<F>() ==> mat(final(d)@, n as int, w as int) == hidden_grad(
            mat(r@, n as int, w as int),
            mat(old(d)@, n as int, w as int),
        ),
{
    let len: usize = n * w;
    let z = F::from_usize(0);
    let mut x: usize = 0;
    while x < len
        invariant
            x <= len,
            len == n * w,
            len <= r.len(),
            len <= d.len(),
            d.len() == old(d).len(),
            same_outside(old(d)@, d@, 0, n * w),
            deterministic::<F>() ==> z == zero::<F>(),
            deterministic::<F>() ==> forall|k: int|
                0 <= k < len ==> #[trigger] d@[k] == (if k < x && is_at_most(r@[k], zero()) {
                    zero()
                } else {
                    old(d)@[k]
                }),
        decreases len - x,
    {
        if r[x].at_most(z) {
            d[x] = z;
        }
        x = x + 1;
    }
    proof {
        if deterministic::<F>() {
            let (ni, wi) = (n as int, w as int);
            let target = hidden_grad(mat(r@, ni, wi), mat(old(d)@, ni, wi));
            assert forall|i: int| 0 <= i < n implies (#[trigger] target[i]).len() == w by {
                lemma_row_len(old(d)@, i, ni, wi);
            }
            assert forall|i: int, j: int| 0 <= i < n && 0 <= j < w implies #[trigger] cell(
                d@,
                wi,
                i,
                j,
            ) == target[i][j] by {
                lemma_cell(i, j, ni, wi);
                lemma_row_entry(r@, i, j, ni, wi);
                lemma_row_entry(old(d)@, i, j, ni, wi);
            }
            lemma_mat_from_cells(d@, ni, wi, target);
        }
    }
}

/// The gradient of the scores at the first `n` positions.
fn logits_bwd<F: Float>(probs: &[F], tokens: &[usize], n: usize, v: usize, dl: &mut [F])
    requires
        n * v <= probs.len(),
        n * v <= old(dl).len(),
        n == 0 || n < tokens.len(),
        forall|i: int| 0 < i <= n ==> #[trigger] tokens@[i] < v,
    ensures
        same_outside(old(dl)@, final(dl)@, 0, n * v),
        deterministic::<F>() ==> mat(final(dl)@, n as int, v as int) == logit_grad(
            mat(probs@, n as int, v as int),
            tokens@,
            n as int,
        ),
{
    let inv_n = F::from_usize(1).over(F::from_usize(n));
    let ghost target = logit_grad(mat(probs@, n as int, v as int), tokens@, n as int);
    let mut i: usize = 0;
    while i < n
        invariant
            i <= n,
            n * v <= probs.len(),
            n * v <= dl.len(),
            dl.len() == old(dl).len(),
            same_outside(old(dl)@, dl@, 0, n * v),
            n == 0 || n < tokens.len(),
            deterministic::<F>() ==> inv_n == over(one::<F>(), num(n)),
            target == logit_grad(mat(probs@, n as int, v as int), tokens@, n as int),
            deterministic::<F>() ==> forall|r: int, o: int|
                0 <= r < i && 0 <= o < v ==> #[trigger] cell(dl@, v as int, r, o) == target[r][o],
        decreases n - i,
    {
        let mut o: usize = 0;
        while o < v
            invariant
                i < n,
                o <= v,
                n * v <= probs.len(),
                n * v <= dl.len(),
                dl.len() == old(dl).len(),
                same_outside(old(dl)@, dl@, 0, n * v),
                n < tokens.len(),
                deterministic::<F>() ==> inv_n == over(one::<F>(), num(n)),
                target == logit_grad(mat(probs@, n as int, v as int), tokens@, n as int),
                deterministic::<F>() ==> forall|r: int, c: int|
                    0 <= r < n && 0 <= c < v && (r < i || (r == i && c < o)) ==> #[trigger] cell(
                        dl@,
                        v as int,
                        r,
                        c,
                    ) == target[r][c],
            decreases v - o,
        {
            proof {
                lemma_cell(i as int, o as int, n as int, v as int);
                lemma_row_entry(probs@, i as int, o as int, n as int, v as int);
            }
            let pr = probs[i * v + o];
            let x = if o == tokens[i + 1] {
                pr.minus(F::from_usize(1))
            } else {
                pr
            };
            let y = x.times(inv_n);
            proof {
                lemma_update_cell(
                    dl@,
                    n as int,
                    v as int,
                    i as int,
                    o as int,
                    y,
                );
            }
            dl[i * v + o] = y;
            o = o + 1;
        }
        i = i + 1;
    }
    proof {
        if deterministic::<F>() {
            assert forall|r: int| 0 <= r < n implies (#[trigger] target[r]).len() == v by {
                lemma_row_len(probs@, r, n as int, v as int);
            }
            lemma_mat_from_cells(dl@, n as int, v as int, target);
        }
    }
}

/// Back through layer `l`. On entry `sc.dx` holds the gradient of the output of the layer, on
/// return that of its input.
#[verifier::rlimit(60)]
fn backward_layer<F: Float>(
    m: &Model,
    l: usize,
    p: &[F],
    g: &mut [F],
    x_in: &[F],
    la: &LayerActs<F>,
    n: usize,
    sc: &mut Grads<F>,
)
    requires
        m.wf(),
        m.shape.buffers_fit(m.vocab_size as int),
        l < m.shape.n_layer,
        m.n_params <= p@.len(),
        m.n_params <= old(g)@.len(),
        x_in@.len() == m.shape.block_size * m.shape.n_embd,
        la.wf(m.shape),
        n <= m.shape.block_size,
        old(sc).wf(m.shape, m.vocab_size as int),
    ensures
        final(sc).wf(m.shape, m.vocab_size as int),
        scratch_kept(m.shape, m.vocab_size as int, *old(sc), *final(sc), n as int),
        final(sc).dlogits == old(sc).dlogits,
        final(sc).dx0 == old(sc).dx0,
        same_outside(old(g)@, final(g)@, 0, m.n_params as int),
        deterministic::<F>() ==> ({
            let e = m.shape.n_embd as int;
            let sh = m.layers@[l as int];
            let dx = mat(old(sc).dx@, n as int, e);
            let t = la.trace(m.shape, n as int);
            let d = layer_grads(
                m.shape,
                layer_weights(sh, p@),
                mat(x_in@, n as int, e),
                t,
                dx,
            );
            &&& mat(final(sc).dx@, n as int, e) == d.dx
            &&& scratch_of_layer(m.shape, layer_weights(sh, p@), d, *final(sc), n as int)
            &&& final(g)@ == layer_weight_grads(sh, old(g)@, t, dx, d)
        }),
{
    let s = &m.shape;
    let sh = &m.layers[l];
    proof {
        lemma_layer_inside(*m, l as int);
        assert(is_layer(m.layers@[l as int], m.layer_base(l as int), m.shape));
    }
    let e: usize = s.n_embd;
    let ghost (ei, ni) = (e as int, n as int);
    proof {
        let t = s.block_size as int;
        assert(n * e <= t * e && n * (3 * e) <= t * (3 * e) && n * (4 * e) <= t * (4 * e) && 4 * e
            <= t * (4 * e)) by (nonlinear_arith)
            requires
                n <= t,
                t >= 1,
        ;
    }
    let ghost t = la.trace(*s, ni);
    let ghost w = layer_weights(*sh, p@);
    let ghost dx = mat(sc.dx@, ni, ei);
    // the MLP: x_out = x2 + fc2(relu(fc1(rmsnorm(x2))))
    acc_weight(&sh.fc2, g, sc.dx.as_slice(), n, la.r.as_slice());
    linear_bwd(&sh.fc2, p, sc.dx.as_slice(), n, sc.dr.as_mut_slice());
    relu_bwd(la.r.as_slice(), sc.dr.as_mut_slice(), n, 4 * e);
    acc_weight(&sh.fc1, g, sc.dr.as_slice(), n, la.h2.as_slice());
    linear_bwd(&sh.fc1, p, sc.dr.as_slice(), n, sc.dh.as_mut_slice());
    copy_rows(sc.dx.as_slice(), sc.dx2.as_mut_slice(), n, e);
    let ghost dx2_old = sc.dx2@;
    rmsnorm_bwd_rows(la.x2.as_slice(), sc.dh.as_slice(), sc.dx2.as_mut_slice(), e, n);
    proof {
        if deterministic::<F>() {
            lemma_norm_grad(la.x2@, sc.dh@, dx2_old, sc.dx2@, ni, ei);
        }
    }
    // the output projection: x2 = x_in + wo(attn_out)
    acc_weight(&sh.wo, g, sc.dx2.as_slice(), n, la.attn_out.as_slice());
    linear_bwd(&sh.wo, p, sc.dx2.as_slice(), n, sc.datt.as_mut_slice());
    // the attention, which mixes positions
    attention_bwd_rows(
        s,
        n,
        la,
        sc.datt.as_slice(),
        sc.dqkv.as_mut_slice(),
        sc.dw.as_mut_slice(),
    );
    // the projections of query, key and value: h = rmsnorm(x_in)
    acc_weight(&sh.wqkv, g, sc.dqkv.as_slice(), n, la.h.as_slice());
    linear_bwd(&sh.wqkv, p, sc.dqkv.as_slice(), n, sc.dh.as_mut_slice());
    copy_rows(sc.dx2.as_slice(), sc.dx.as_mut_slice(), n, e);
    let ghost dx_old = sc.dx@;
    rmsnorm_bwd_rows(x_in, sc.dh.as_slice(), sc.dx.as_mut_slice(), e, n);
    proof {
        if deterministic::<F>() {
            lemma_norm_grad(x_in@, sc.dh@, dx_old, sc.dx@, ni, ei);
        }
    }
}

/// The gradient of the output of a layer is the gradient of the input of the next.
proof fn lemma_output_grad<F: Float>(
    m: Model,
    p: Seq<F>,
    t: Trace<F>,
    dx: Mat<F>,
    k: int,
    l: int,
)
    requires
        0 <= l < k,
    ensures
        output_grad(m, p, t, dx, k, l) == (if l + 1 == k {
            dx
        } else {
            layer_grads(
                m.shape,
                layer_weights(m.layers@[l + 1], p),
                t.xs[l + 1],
                t.layers[l + 1],
                output_grad(m, p, t, dx, k, l + 1),
            ).dx
        }),
    decreases k,
{
    reveal_with_fuel(output_grad, 2);
    if l + 2 < k {
        let w = layer_weights(m.layers@[k - 1], p);
        let d = layer_grads(m.shape, w, t.xs[k - 1], t.layers[k - 1], dx);
        lemma_output_grad(m, p, t, d.dx, k - 1, l);
    }
}

/// Rows that are each the gradient of a norm make up [`norm_grad`].
proof fn lemma_norm_grad<F: Float>(
    x: Seq<F>,
    dy: Seq<F>,
    before: Seq<F>,
    after: Seq<F>,
    n: int,
    w: int,
)
    requires
        0 <= n,
        forall|i: int|
            0 <= i < n ==> #[trigger] row_of(after, i, w) == rmsnorm_grad(
                row_of(x, i, w),
                row_of(dy, i, w),
                row_of(before, i, w),
            ),
    ensures
        mat(after, n, w) == norm_grad(mat(x, n, w), mat(dy, n, w), mat(before, n, w)),
{
    assert(mat(after, n, w) =~= norm_grad(mat(x, n, w), mat(dy, n, w), mat(before, n, w)));
}

/// Adds `row` to the entries from `off` on.
fn add_at<F: Float>(g: &mut [F], off: usize, row: &[F])
    requires
        off + row.len() <= old(g).len(),
    ensures
        same_outside(old(g)@, final(g)@, off as int, off + row.len()),
        deterministic::<F>() ==> final(g)@ == with_added(old(g)@, off as int, row@),
{
    let mut d: usize = 0;
    while d < row.len()
        invariant
            d <= row.len(),
            off + row.len() <= g.len(),
            g.len() == old(g).len(),
            same_outside(old(g)@, g@, off as int, off + d),
            deterministic::<F>() ==> forall|x: int|
                off <= x < off + d ==> #[trigger] g@[x] == plus(old(g)@[x], row@[x - off]),
        decreases row.len() - d,
    {
        g[off + d] = g[off + d].plus(row[d]);
        d = d + 1;
    }
    proof {
        if deterministic::<F>() {
            assert(g@ =~= with_added(old(g)@, off as int, row@));
        }
    }
}

/// Adds the gradients of the embeddings at the first `n` positions to the rows of their tokens
/// and of their positions. `dx0` is scratch.
fn embeddings_bwd<F: Float>(
    m: &Model,
    tokens: &[usize],
    x0: &[F],
    dx: &[F],
    g: &mut [F],
    n: usize,
    dx0: &mut [F],
)
    requires
        m.wf(),
        n <= m.shape.block_size,
        n <= tokens@.len(),
        forall|i: int| 0 <= i < n ==> #[trigger] tokens@[i] < m.vocab_size,
        n * m.shape.n_embd <= x0.len(),
        n * m.shape.n_embd <= dx.len(),
        m.n_params <= old(g).len(),
        old(dx0).len() == m.shape.n_embd,
    ensures
        final(dx0)@.len() == old(dx0)@.len(),
        n == 0 ==> final(dx0)@ == old(dx0)@,
        n > 0 && deterministic::<F>() ==> final(dx0)@ == embedding_grad(
            mat(x0@, n as int, m.shape.n_embd as int),
            mat(dx@, n as int, m.shape.n_embd as int),
            n - 1,
        ),
        same_outside(old(g)@, final(g)@, 0, m.n_params as int),
        deterministic::<F>() ==> final(g)@ == embeddings_grad(
            *m,
            tokens@,
            mat(x0@, n as int, m.shape.n_embd as int),
            mat(dx@, n as int, m.shape.n_embd as int),
            old(g)@,
            n as int,
        ),
{
    let e: usize = m.shape.n_embd;
    let ghost xm = mat(x0@, n as int, e as int);
    let ghost dm = mat(dx@, n as int, e as int);
    proof {
        lemma_tables_inside(*m);
    }
    let mut i: usize = 0;
    while i < n
        invariant
            i <= n,
            m.wf(),
            m.wte.end() <= m.n_params,
            m.wpe.end() <= m.n_params,
            e == m.shape.n_embd,
            n <= m.shape.block_size,
            n <= tokens@.len(),
            forall|i: int| 0 <= i < n ==> #[trigger] tokens@[i] < m.vocab_size,
            n * e <= x0.len(),
            n * e <= dx.len(),
            m.n_params <= g.len(),
            dx0.len() == e,
            dx0.len() == old(dx0).len(),
            i == 0 ==> dx0@ == old(dx0)@,
            i > 0 && deterministic::<F>() ==> dx0@ == embedding_grad(xm, dm, i - 1),
            g.len() == old(g).len(),
            xm == mat(x0@, n as int, e as int),
            dm == mat(dx@, n as int, e as int),
            same_outside(old(g)@, g@, 0, m.n_params as int),
            deterministic::<F>() ==> g@ == embeddings_grad(
                *m,
                tokens@,
                xm,
                dm,
                old(g)@,
                i as int,
            ),
        decreases n - i,
    {
        let t: usize = tokens[i];
        proof {
            lemma_row_len(x0@, i as int, n as int, e as int);
            lemma_row_len(dx@, i as int, n as int, e as int);
            lemma_cell(t as int, 0, m.vocab_size as int, e as int);
            lemma_cell(i as int, 0, m.shape.block_size as int, e as int);
        }
        fill(dx0, F::from_usize(0));
        let ghost zeros = dx0@;
        rmsnorm_bwd(row(x0, i, e), row(dx, i, e), dx0);
        proof {
            if deterministic::<F>() {
                assert(zeros =~= Seq::new(xm[i as int].len(), |d: int| zero()));
                let d = embedding_grad(xm, dm, i as int);
                assert(dx0@ =~= written_over(d, zeros));
                assert(dx0@ =~= d);
            }
        }
        add_at(g, m.wte.off + t * e, dx0);
        add_at(g, m.wpe.off + i * e, dx0);
        i = i + 1;
    }
}

impl Model {
    /// Adds the gradient of the loss over the first `n` positions, with respect to every
    /// parameter, to `g`. `a` has to hold what the forward pass and the loss left behind; `s` is
    /// scratch.
    #[verifier::rlimit(60)]
    pub fn backward<F: Float>(
        &self,
        p: &[F],
        g: &mut [F],
        tokens: &[usize],
        n: usize,
        a: &Acts<F>,
        s: &mut Grads<F>,
    )
        requires
            self.wf(),
            self.shape.buffers_fit(self.vocab_size as int),
            self.n_params <= p@.len(),
            self.n_params <= old(g)@.len(),
            n <= self.shape.block_size,
            tokens_known(*self, tokens@, n as int),
            a.wf(self.shape, self.vocab_size as int),
            old(s).wf(self.shape, self.vocab_size as int),
        ensures
            final(s).wf(self.shape, self.vocab_size as int),
            scratch_kept(self.shape, self.vocab_size as int, *old(s), *final(s), n as int),
            deterministic::<F>() ==> scratch_left(
                *self,
                p@,
                tokens@,
                a.trace(self.shape, self.vocab_size as int, n as int),
                mat(a.probs@, n as int, self.vocab_size as int),
                *final(s),
                n as int,
            ),
            same_outside(old(g)@, final(g)@, 0, self.n_params as int),
            deterministic::<F>() ==> final(g)@ == gradient(
                *self,
                p@,
                tokens@,
                a.trace(self.shape, self.vocab_size as int, n as int),
                mat(a.probs@, n as int, self.vocab_size as int),
                old(g)@,
                n as int,
            ),
    {
        let e: usize = self.shape.n_embd;
        let v: usize = self.vocab_size;
        let depth: usize = self.shape.n_layer;
        let ghost (t, ei, ni) = (self.shape.block_size as int, e as int, n as int);
        let ghost tr = a.trace(self.shape, v as int, ni);
        proof {
            lemma_tables_inside(*self);
            assert(n * e <= t * e && n * v <= t * v) by (nonlinear_arith)
                requires
                    n <= t,
            ;
        }
        logits_bwd(a.probs.as_slice(), tokens, n, v, s.dlogits.as_mut_slice());
        let ghost dl = mat(s.dlogits@, ni, v as int);
        acc_weight(&self.lm_head, g, s.dlogits.as_slice(), n, a.xs[depth].as_slice());
        linear_bwd(&self.lm_head, p, s.dlogits.as_slice(), n, s.dx.as_mut_slice());
        let ghost g1 = g@;
        let ghost dx1 = mat(s.dx@, ni, ei);
        let mut l: usize = depth;
        while l > 0
            invariant
                self.wf(),
                self.shape.buffers_fit(v as int),
                self.n_params <= p@.len(),
                self.n_params <= g@.len(),
                same_outside(old(g)@, g@, 0, self.n_params as int),
                n <= self.shape.block_size,
                (t, ei, ni) == (self.shape.block_size as int, e as int, n as int),
                e == self.shape.n_embd,
                v == self.vocab_size,
                depth == self.shape.n_layer,
                l <= depth,
                a.wf(self.shape, v as int),
                s.wf(self.shape, v as int),
                tr == a.trace(self.shape, v as int, ni),
                scratch_kept(self.shape, v as int, *old(s), *s, ni),
                s.dx0 == old(s).dx0,
                mat(s.dlogits@, ni, v as int) == dl,
                l == depth ==> mat(s.dx@, ni, ei) == dx1,
                l < depth && deterministic::<F>() ==> ({
                    let w = layer_weights(self.layers@[l as int], p@);
                    let out = output_grad(*self, p@, tr, dx1, depth as int, l as int);
                    let d = layer_grads(
                        self.shape,
                        w,
                        tr.xs[l as int],
                        tr.layers[l as int],
                        out,
                    );
                    scratch_of_layer(self.shape, w, d, *s, ni)
                }),
                deterministic::<F>() ==> layers_grad(
                    *self,
                    p@,
                    tr,
                    g@,
                    mat(s.dx@, ni, ei),
                    l as int,
                ) == layers_grad(*self, p@, tr, g1, dx1, depth as int),
            decreases l,
        {
            proof {
                lemma_output_grad(*self, p@, tr, dx1, depth as int, l - 1);
            }
            l = l - 1;
            backward_layer(self, l, p, g, a.xs[l].as_slice(), &a.layers[l], n, s);
            proof {
                assert(tr.xs[l as int] == mat(a.xs@[l as int]@, ni, ei));
                assert(tr.layers[l as int] == a.layers@[l as int].trace(self.shape, ni));
            }
        }
        embeddings_bwd(
            self,
            tokens,
            a.x0.as_slice(),
            s.dx.as_slice(),
            g,
            n,
            s.dx0.as_mut_slice(),
        );
    }
}

} // verus!
