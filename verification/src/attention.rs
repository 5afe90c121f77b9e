//! Causal multi-head attention over a range of positions.
use vstd::prelude::*;

use crate::arith::{lemma_cell, lemma_position, lemma_rows_apart};
use crate::kernels::{dot, softmax_inplace};
use crate::matrix::{fma_chain, lemma_row_len, mat, row_of, same_outside, Mat};
use crate::model::Shape;
use crate::network::{
    attn_row, attn_scale, attn_scores, attn_weights, head_out, key, query, value, value_entries,
};
use crate::scalar::{deterministic, times, zero, Float};

verus! {

/// The heads share the width of the network.
pub proof fn lemma_head(s: Shape, hd: int)
    requires
        s.wf(),
        0 <= hd < s.n_head,
    ensures
        s.hd() >= 1,
        s.hd() * s.n_head == s.n_embd,
        s.n_head * s.hd() == s.n_embd,
        0 <= hd * s.hd(),
        hd * s.hd() + s.hd() == (hd + 1) * s.hd(),
        hd * s.hd() + s.hd() <= s.n_embd,
{
    let (e, h) = (s.n_embd as int, s.n_head as int);
    vstd::arithmetic::div_mod::lemma_fundamental_div_mod(e, h);
    assert(h * (e / h) == (e / h) * h) by (nonlinear_arith);
    assert(e / h >= 1) by (nonlinear_arith)
        requires
            e == (e / h) * h,
            e >= 1,
            h >= 1,
    ;
    lemma_cell(hd, 0, h, s.hd());
}

/// Where the weights of head `hd` at position `i` start.
pub open spec fn weight_base(s: Shape, hd: int, i: int) -> int {
    (hd * s.block_size + i) * s.block_size
}

/// The weights of head `hd` at position `i` lie inside the buffer.
pub proof fn lemma_weight_base(s: Shape, hd: int, i: int)
    requires
        0 <= hd < s.n_head,
        0 <= i < s.block_size,
    ensures
        0 <= hd * s.block_size,
        0 <= hd * s.block_size + i < s.n_head * s.block_size,
        hd * s.block_size + i <= weight_base(s, hd, i),
        weight_base(s, hd, i) + s.block_size <= (s.n_head * s.block_size) * s.block_size,
{
    let t = s.block_size as int;
    lemma_cell(hd, i, s.n_head as int, t);
    lemma_cell(hd * t + i, 0, s.n_head * t, t);
    assert(hd * t + i <= (hd * t + i) * t) by (nonlinear_arith)
        requires
            0 <= hd * t + i,
            t >= 1,
    ;
}

/// One head at one position: its weights over the positions up to it, and its output.
#[verifier::rlimit(40)]
fn attend<F: Float>(
    s: &Shape,
    qkv: &[F],
    attn_w: &mut [F],
    attn_out: &mut [F],
    scale: F,
    hd: usize,
    i: usize,
)
    requires
        s.wf(),
        hd < s.n_head,
        i < s.block_size,
        (i + 1) * (3 * s.n_embd) <= qkv.len(),
        (s.n_head * s.block_size) * s.block_size <= old(attn_w).len(),
        (i + 1) * s.n_embd <= old(attn_out).len(),
        deterministic::<F>() ==> scale == attn_scale::<F>(*s),
    ensures
        same_outside(
            old(attn_w)@,
            final(attn_w)@,
            weight_base(*s, hd as int, i as int),
            weight_base(*s, hd as int, i as int) + i + 1,
        ),
        same_outside(
            old(attn_out)@,
            final(attn_out)@,
            i * s.n_embd + hd * s.hd(),
            i * s.n_embd + hd * s.hd() + s.hd(),
        ),
        deterministic::<F>() ==> ({
            let rows = mat(qkv@, i + 1, 3 * s.n_embd);
            let base = weight_base(*s, hd as int, i as int);
            let w = attn_weights(*s, rows, hd as int, i as int);
            let start = i * s.n_embd + hd * s.hd();
            &&& final(attn_w)@.subrange(base, base + i + 1) == w
            &&& final(attn_out)@.subrange(start, start + s.hd()) == head_out(
                *s,
                rows,
                w,
                hd as int,
                i as int,
            )
        }),
{
    let e: usize = s.n_embd;
    let t: usize = s.block_size;
    let dim: usize = s.head_dim();
    proof {
        lemma_head(*s, hd as int);
        lemma_weight_base(*s, hd as int, i as int);
        lemma_row_len(qkv@, i as int, i + 1, 3 * e);
        lemma_row_len(attn_out@, i as int, i + 1, e as int);
    }
    let hs: usize = hd * dim;
    let base: usize = (hd * t + i) * t;
    let ghost rows = mat(qkv@, i + 1, 3 * e);
    let ghost scores = attn_scores(*s, rows, hd as int, i as int);
    let ghost w_old = attn_w@;
    let qs: usize = i * (3 * e) + hs;
    let q = &qkv[qs..qs + dim];
    assert(q@ =~= query(*s, rows[i as int], hd as int));
    let mut j: usize = 0;
    while j <= i
        invariant
            j <= i + 1,
            i < t,
            e == s.n_embd,
            s.wf(),
            hd < s.n_head,
            dim == s.hd(),
            hs == hd * dim,
            hs + dim <= e,
            (i + 1) * (3 * e) <= qkv.len(),
            base + t <= attn_w.len(),
            base == weight_base(*s, hd as int, i as int),
            rows == mat(qkv@, i + 1, 3 * e),
            scores == attn_scores(*s, rows, hd as int, i as int),
            q@ == query(*s, rows[i as int], hd as int),
            deterministic::<F>() ==> scale == attn_scale::<F>(*s),
            same_outside(w_old, attn_w@, base as int, base + i + 1),
            deterministic::<F>() ==> forall|k: int|
                0 <= k < j ==> #[trigger] attn_w@[base + k] == scores[k],
        decreases i + 1 - j,
    {
        proof {
            lemma_row_len(qkv@, j as int, i + 1, 3 * e);
        }
        let ks: usize = j * (3 * e) + e + hs;
        let k = &qkv[ks..ks + dim];
        assert(k@ =~= key(*s, rows[j as int], hd as int));
        attn_w[base + j] = dot(q, k).times(scale);
        j = j + 1;
    }
    let ghost w_scores = attn_w@;
    let (_head, rest) = attn_w.split_at_mut(base);
    let (w, _tail) = rest.split_at_mut(i + 1);
    assert(deterministic::<F>() ==> w@ =~= scores) by {
        assert forall|k: int| 0 <= k < i + 1 implies w@[k] == w_scores[base + k] by {}
    }
    softmax_inplace(w);
    let ghost weights = w@;
    assert(attn_w@.subrange(base as int, base + i + 1) =~= weights);
    assert(same_outside(w_old, attn_w@, base as int, base + i + 1));
    let os: usize = i * e + hs;
    let ghost out_old = attn_out@;
    let mut d: usize = 0;
    let z = F::from_usize(0);
    while d < dim
        invariant
            d <= dim,
            os + dim <= attn_out.len(),
            deterministic::<F>() ==> z == zero::<F>(),
            same_outside(out_old, attn_out@, os as int, os + dim),
            deterministic::<F>() ==> forall|c: int|
                0 <= c < d ==> #[trigger] attn_out@[os + c] == zero::<F>(),
        decreases dim - d,
    {
        attn_out[os + d] = z;
        d = d + 1;
    }
    let mut j: usize = 0;
    while j <= i
        invariant
            j <= i + 1,
            i < t,
            e == s.n_embd,
            s.wf(),
            hd < s.n_head,
            dim == s.hd(),
            hs == hd * dim,
            hs + dim <= e,
            (i + 1) * (3 * e) <= qkv.len(),
            base + t <= attn_w.len(),
            os + dim <= attn_out.len(),
            rows == mat(qkv@, i + 1, 3 * e),
            attn_w@.subrange(base as int, base + i + 1) == weights,
            same_outside(out_old, attn_out@, os as int, os + dim),
            deterministic::<F>() ==> forall|c: int|
                0 <= c < dim ==> #[trigger] attn_out@[os + c] == fma_chain(
                    weights,
                    value_entries(*s, rows, hd as int, i as int, c),
                    zero(),
                    j as int,
                ),
        decreases i + 1 - j,
    {
        proof {
            lemma_row_len(qkv@, j as int, i + 1, 3 * e);
        }
        let vs: usize = j * (3 * e) + 2 * e + hs;
        let v = &qkv[vs..vs + dim];
        assert(v@ =~= value(*s, rows[j as int], hd as int));
        let wj = attn_w[base + j];
        assert(wj == weights[j as int]) by {
            assert(attn_w@.subrange(base as int, base + i + 1)[j as int] == attn_w@[base + j]);
        }
        let mut d: usize = 0;
        while d < dim
            invariant
                d <= dim,
                j <= i,
                dim == s.hd(),
                v@.len() == dim,
                v@ == value(*s, rows[j as int], hd as int),
                rows == mat(qkv@, i + 1, 3 * e),
                wj == weights[j as int],
                os + dim <= attn_out.len(),
                same_outside(out_old, attn_out@, os as int, os + dim),
                deterministic::<F>() ==> forall|c: int|
                    0 <= c < dim ==> #[trigger] attn_out@[os + c] == fma_chain(
                        weights,
                        value_entries(*s, rows, hd as int, i as int, c),
                        zero(),
                        if c < d {
                            j + 1
                        } else {
                            j as int
                        },
                    ),
            decreases dim - d,
        {
            attn_out[os + d] = wj.mul_add(v[d], attn_out[os + d]);
            d = d + 1;
        }
        j = j + 1;
    }
    proof {
        if deterministic::<F>() {
            let result = head_out(*s, rows, weights, hd as int, i as int);
            assert forall|c: int| 0 <= c < dim implies #[trigger] result[c] == attn_out@.subrange(
                os as int,
                os + dim,
            )[c] by {
                assert(attn_out@[os + c] == result[c]);
            }
            assert(attn_out@.subrange(os as int, os + dim) =~= result);
        }
    }
}

/// The weights of head `hd` at position `i` in a buffer.
pub open spec fn weights_of<F>(buf: Seq<F>, s: Shape, hd: int, i: int) -> Seq<F> {
    buf.subrange(weight_base(s, hd, i), weight_base(s, hd, i) + i + 1)
}

/// The weights of every head at the first `n` positions.
pub open spec fn all_weights<F>(buf: Seq<F>, s: Shape, n: int) -> Seq<Mat<F>> {
    Seq::new(
        s.n_head as nat,
        |hd: int| Seq::new(n as nat, |i: int| weights_of(buf, s, hd, i)),
    )
}

/// `new` is `old` but for the weights at the positions `from..to`.
pub open spec fn weights_same_outside<F>(
    old_buf: Seq<F>,
    new_buf: Seq<F>,
    s: Shape,
    from: int,
    to: int,
) -> bool {
    &&& new_buf.len() == old_buf.len()
    &&& forall|x: int|
        0 <= x < old_buf.len() && !(exists|hd: int, i: int|
            0 <= hd < s.n_head && from <= i < to && #[trigger] weight_base(s, hd, i) <= x
                < weight_base(s, hd, i) + i + 1) ==> #[trigger] new_buf[x] == old_buf[x]
}

/// Two different heads or positions have their weights apart.
pub proof fn lemma_weights_apart(s: Shape, hd: int, i: int, h: int, r: int)
    requires
        0 <= hd < s.n_head,
        0 <= i < s.block_size,
        0 <= h < s.n_head,
        0 <= r < s.block_size,
        hd != h || i != r,
    ensures
        weight_base(s, hd, i) + s.block_size <= weight_base(s, h, r) || weight_base(s, h, r)
            + s.block_size <= weight_base(s, hd, i),
{
    let t = s.block_size as int;
    lemma_cell(hd, i, s.n_head as int, t);
    lemma_cell(h, r, s.n_head as int, t);
    let (a, b) = (hd * t + i, h * t + r);
    assert(a != b);
    if a < b {
        lemma_rows_apart(a, b, t);
    } else {
        lemma_rows_apart(b, a, t);
    }
}

/// The weights outside the changed positions are unchanged.
pub proof fn lemma_weights_outside<F>(
    a: Seq<F>,
    b: Seq<F>,
    s: Shape,
    from: int,
    to: int,
    hd: int,
    i: int,
)
    requires
        0 <= from <= to <= s.block_size,
        weights_same_outside(a, b, s, from, to),
        (s.n_head * s.block_size) * s.block_size <= a.len(),
        0 <= hd < s.n_head,
        0 <= i < s.block_size,
        !(from <= i < to),
    ensures
        weights_of(a, s, hd, i) == weights_of(b, s, hd, i),
{
    lemma_weight_base(s, hd, i);
    let base = weight_base(s, hd, i);
    assert forall|x: int| base <= x < base + i + 1 implies a[x] == b[x] by {
        assert forall|h: int, r: int|
            0 <= h < s.n_head && from <= r < to implies !(#[trigger] weight_base(s, h, r) <= x
            < weight_base(s, h, r) + r + 1) by {
            lemma_weights_apart(s, hd, i, h, r);
        }
        assert(b[x] == a[x]);
    }
    assert(weights_of(a, s, hd, i) =~= weights_of(b, s, hd, i));
}

/// Attention at a position depends on the rows up to it.
pub proof fn lemma_attention_prefix<F: Float>(s: Shape, a: Mat<F>, b: Mat<F>, hd: int, i: int)
    requires
        0 <= i,
        forall|j: int| 0 <= j <= i ==> #[trigger] a[j] == b[j],
    ensures
        attn_weights(s, a, hd, i) == attn_weights(s, b, hd, i),
        forall|w: Seq<F>| #[trigger] head_out(s, a, w, hd, i) == head_out(s, b, w, hd, i),
{
    assert(attn_scores(s, a, hd, i) =~= attn_scores(s, b, hd, i)) by {
        assert(a[i] == b[i]);
    }
    assert forall|w: Seq<F>| #[trigger] head_out(s, a, w, hd, i) == head_out(s, b, w, hd, i) by {
        assert forall|d: int| value_entries(s, a, hd, i, d) == value_entries(s, b, hd, i, d) by {
            assert(value_entries(s, a, hd, i, d) =~= value_entries(s, b, hd, i, d));
        }
        assert(head_out(s, a, w, hd, i) =~= head_out(s, b, w, hd, i));
    }
}

/// The output of head `h` at position `r` in a buffer.
spec fn segment<F>(buf: Seq<F>, s: Shape, h: int, r: int) -> Seq<F> {
    buf.subrange(r * s.n_embd + h * s.hd(), r * s.n_embd + h * s.hd() + s.hd())
}

/// Two different heads or positions have their outputs apart.
proof fn lemma_segments_apart(s: Shape, hd: int, i: int, h: int, r: int)
    requires
        s.wf(),
        0 <= hd < s.n_head,
        0 <= i,
        0 <= h < s.n_head,
        0 <= r,
        hd != h || i != r,
    ensures
        ({
            let a = i * s.n_embd + hd * s.hd();
            let b = r * s.n_embd + h * s.hd();
            a + s.hd() <= b || b + s.hd() <= a
        }),
{
    lemma_head(s, hd);
    lemma_head(s, h);
    if i < r {
        lemma_rows_apart(i, r, s.n_embd as int);
    } else if r < i {
        lemma_rows_apart(r, i, s.n_embd as int);
    } else if hd < h {
        lemma_rows_apart(hd, h, s.hd());
    } else {
        lemma_rows_apart(h, hd, s.hd());
    }
}

/// The outputs of all heads make up the row of a position.
proof fn lemma_segments_make_row<F: Float>(
    buf: Seq<F>,
    s: Shape,
    qkv: Mat<F>,
    w: Seq<Mat<F>>,
    i: int,
)
    requires
        s.wf(),
        0 <= i,
        (i + 1) * s.n_embd <= buf.len(),
        forall|hd: int|
            0 <= hd < s.n_head ==> #[trigger] segment(buf, s, hd, i) == head_out(
                s,
                qkv,
                w[hd][i],
                hd,
                i,
            ),
    ensures
        row_of(buf, i, s.n_embd as int) == attn_row(s, qkv, w, i),
{
    let e = s.n_embd as int;
    lemma_row_len(buf, i, i + 1, e);
    lemma_head(s, 0);
    assert forall|x: int| 0 <= x < e implies row_of(buf, i, e)[x] == #[trigger] attn_row(
        s,
        qkv,
        w,
        i,
    )[x] by {
        lemma_position(x, s.n_head as int, s.hd());
        let (hd, d) = (x / s.hd(), x % s.hd());
        lemma_head(s, hd);
        assert(segment(buf, s, hd, i)[d] == buf[i * e + x]);
    }
    assert(row_of(buf, i, e) =~= attn_row(s, qkv, w, i));
}

/// Causal attention at the positions `from..to`: fills the weights and the outputs of every head.
/// The keys and values of all positions below `to` have to be there.
#[verifier::rlimit(60)]
pub fn attention_rows<F: Float>(
    s: &Shape,
    qkv: &[F],
    attn_w: &mut [F],
    attn_out: &mut [F],
    from: usize,
    to: usize,
)
    requires
        s.wf(),
        from <= to <= s.block_size,
        to * (3 * s.n_embd) <= qkv.len(),
        (s.n_head * s.block_size) * s.block_size <= old(attn_w).len(),
        to * s.n_embd <= old(attn_out).len(),
    ensures
        weights_same_outside(old(attn_w)@, final(attn_w)@, *s, from as int, to as int),
        same_outside(old(attn_out)@, final(attn_out)@, from * s.n_embd, to * s.n_embd),
        deterministic::<F>() ==> ({
            let rows = mat(qkv@, to as int, 3 * s.n_embd);
            let w = all_weights(final(attn_w)@, *s, to as int);
            &&& forall|hd: int, i: int|
                0 <= hd < s.n_head && from <= i < to ==> #[trigger] weights_of(
                    final(attn_w)@,
                    *s,
                    hd,
                    i,
                ) == attn_weights(*s, rows, hd, i)
            &&& forall|i: int|
                from <= i < to ==> #[trigger] row_of(final(attn_out)@, i, s.n_embd as int)
                    == attn_row(*s, rows, w, i)
        }),
{
    let ghost e = s.n_embd as int;
    let ghost rows = mat(qkv@, to as int, 3 * s.n_embd);
    let scale = F::from_usize(1).over(F::from_usize(s.head_dim()).sqrt());
    let mut i: usize = from;
    while i < to
        invariant
            s.wf(),
            e == s.n_embd,
            from <= i <= to,
            to <= s.block_size,
            to * (3 * s.n_embd) <= qkv.len(),
            (s.n_head * s.block_size) * s.block_size <= attn_w.len(),
            to * s.n_embd <= attn_out.len(),
            attn_w.len() == old(attn_w).len(),
            rows == mat(qkv@, to as int, 3 * s.n_embd),
            deterministic::<F>() ==> scale == attn_scale::<F>(*s),
            weights_same_outside(old(attn_w)@, attn_w@, *s, from as int, i as int),
            same_outside(old(attn_out)@, attn_out@, from * e, i * e),
            deterministic::<F>() ==> forall|h: int, r: int|
                0 <= h < s.n_head && from <= r < i ==> #[trigger] weights_of(attn_w@, *s, h, r)
                    == attn_weights(*s, rows, h, r),
            deterministic::<F>() ==> forall|h: int, r: int|
                0 <= h < s.n_head && from <= r < i ==> #[trigger] segment(attn_out@, *s, h, r)
                    == head_out(*s, rows, attn_weights(*s, rows, h, r), h, r),
        decreases to - i,
    {
        let mut hd: usize = 0;
        proof {
            assert((i + 1) * (3 * e) <= to * (3 * e)) by (nonlinear_arith)
                requires
                    i + 1 <= to,
                    e >= 0,
            ;
            assert((i + 1) * e <= to * e && from * e <= i * e && (i + 1) * e == i * e + e)
                by (nonlinear_arith)
                requires
                    i + 1 <= to,
                    from <= i,
                    e >= 0,
            ;
        }
        while hd < s.n_head
            invariant
                s.wf(),
                e == s.n_embd,
                hd <= s.n_head,
                from <= i < to,
                to <= s.block_size,
                (i + 1) * (3 * e) <= qkv.len(),
                to * (3 * s.n_embd) <= qkv.len(),
                (s.n_head * s.block_size) * s.block_size <= attn_w.len(),
                (i + 1) * e <= attn_out.len(),
                from * e <= i * e,
                (i + 1) * e == i * e + e,
                to * s.n_embd <= attn_out.len(),
                attn_w.len() == old(attn_w).len(),
                rows == mat(qkv@, to as int, 3 * s.n_embd),
                deterministic::<F>() ==> scale == attn_scale::<F>(*s),
                weights_same_outside(old(attn_w)@, attn_w@, *s, from as int, i + 1),
                same_outside(old(attn_out)@, attn_out@, from * e, (i + 1) * e),
                deterministic::<F>() ==> forall|h: int, r: int|
                    0 <= h < s.n_head && from <= r <= i && (r < i || h < hd)
                        ==> #[trigger] weights_of(attn_w@, *s, h, r) == attn_weights(
                        *s,
                        rows,
                        h,
                        r,
                    ),
                deterministic::<F>() ==> forall|h: int, r: int|
                    0 <= h < s.n_head && from <= r <= i && (r < i || h < hd)
                        ==> #[trigger] segment(attn_out@, *s, h, r) == head_out(
                        *s,
                        rows,
                        attn_weights(*s, rows, h, r),
                        h,
                        r,
                    ),
            decreases s.n_head - hd,
        {
            let ghost w_before = attn_w@;
            let ghost o_before = attn_out@;
            attend(s, qkv, attn_w, attn_out, scale, hd, i);
            proof {
                lemma_head(*s, hd as int);
                lemma_weight_base(*s, hd as int, i as int);
                let base = weight_base(*s, hd as int, i as int);
                assert(weights_same_outside(old(attn_w)@, attn_w@, *s, from as int, i + 1));
                if deterministic::<F>() {
                    let short = mat(qkv@, i + 1, 3 * e);
                    lemma_attention_prefix(*s, short, rows, hd as int, i as int);
                    assert forall|h: int, r: int|
                        0 <= h < s.n_head && from <= r <= i && (r < i || h
                            < hd + 1) implies #[trigger] weights_of(attn_w@, *s, h, r)
                        == attn_weights(*s, rows, h, r) by {
                        if h != hd || r != i {
                            lemma_weights_apart(*s, hd as int, i as int, h, r);
                            lemma_weight_base(*s, h, r);
                            assert(weights_of(attn_w@, *s, h, r) =~= weights_of(w_before, *s, h, r));
                        }
                    }
                    assert forall|h: int, r: int|
                        0 <= h < s.n_head && from <= r <= i && (r < i || h
                            < hd + 1) implies #[trigger] segment(attn_out@, *s, h, r) == head_out(
                        *s,
                        rows,
                        attn_weights(*s, rows, h, r),
                        h,
                        r,
                    ) by {
                        if h != hd || r != i {
                            lemma_segments_apart(*s, hd as int, i as int, h, r);
                            lemma_head(*s, h);
                            lemma_row_len(attn_out@, r, i + 1, e);
                            assert(segment(attn_out@, *s, h, r) =~= segment(o_before, *s, h, r));
                        }
                    }
                }
            }
            hd = hd + 1;
        }
        i = i + 1;
    }
    proof {
        if deterministic::<F>() {
            let w = all_weights(attn_w@, *s, to as int);
            assert forall|r: int| from <= r < to implies #[trigger] row_of(attn_out@, r, e)
                == attn_row(*s, rows, w, r) by {
                assert((r + 1) * e <= to * e) by (nonlinear_arith)
                    requires
                        r + 1 <= to,
                        e >= 0,
                ;
                assert forall|hd: int| 0 <= hd < s.n_head implies #[trigger] segment(
                    attn_out@,
                    *s,
                    hd,
                    r,
                ) == head_out(*s, rows, w[hd][r], hd, r) by {
                    assert(weights_of(attn_w@, *s, hd, r) == attn_weights(*s, rows, hd, r));
                }
                lemma_segments_make_row(attn_out@, *s, rows, w, r);
            }
        }
    }
}

} // verus!
