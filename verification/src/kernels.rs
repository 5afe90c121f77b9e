//! Small dense linear-algebra kernels over contiguous slices. Matrices are row-major.
use vstd::prelude::*;

use crate::arith::lemma_cell;
use crate::matrix::{
    ab_acc, atb_acc, cell, col, dot_of, fma_chain, lane, lemma_mat_from_cells, lemma_row_entry,
    lemma_row_len, lemma_update_cell, linear, mat, plus_chain, row_of,
};
use crate::scalar::{
    deterministic, exponential, fma, larger, lowest, minus, negated, num, one, over, plus, ratio,
    ratio_of, root, times, zero, Float,
};

verus! {

/// Row `i` of a buffer whose rows are `width` wide.
pub fn row<F: Float>(buf: &[F], i: usize, width: usize) -> (r: &[F])
    requires
        (i + 1) * width <= buf.len(),
    ensures
        r@ == row_of(buf@, i as int, width as int),
        r@.len() == width,
{
    proof {
        lemma_row_len(buf@, i as int, i + 1, width as int);
    }
    let start: usize = i * width;
    &buf[start..start + width]
}

/// Row `i` of a buffer whose rows are `width` wide, to write to.
pub fn row_mut<F: Float>(buf: &mut [F], i: usize, width: usize) -> (r: &mut [F])
    requires
        (i + 1) * width <= old(buf).len(),
    ensures
        r@ == row_of(old(buf)@, i as int, width as int),
        r@.len() == width,
        final(r)@.len() == width ==> {
            &&& final(buf)@ == old(buf)@.take(i * width) + final(r)@ + old(buf)@.skip(
                (i + 1) * width,
            )
        },
{
    proof {
        lemma_row_len(buf@, i as int, i + 1, width as int);
    }
    let start: usize = i * width;
    let (_head, rest) = buf.split_at_mut(start);
    let (r, _tail) = rest.split_at_mut(width);
    r
}

/// The dot product.
///
/// Four independent lanes keep the additions of the whole groups of four from waiting for one
/// another.
pub fn dot<F: Float>(a: &[F], b: &[F]) -> (r: F)
    ensures
        deterministic::<F>() ==> r == dot_of(a@, b@),
{
    let ca: usize = a.len() / 4;
    let cb: usize = b.len() / 4;
    let c: usize = if ca <= cb {
        ca
    } else {
        cb
    };
    let z = F::from_usize(0);
    let mut acc: [F; 4] = [z, z, z, z];
    let mut t: usize = 0;
    while t < c
        invariant
            t <= c,
            c <= ca,
            c <= cb,
            ca == a.len() / 4,
            cb == b.len() / 4,
            deterministic::<F>() ==> forall|l: int|
                0 <= l < 4 ==> #[trigger] acc@[l] == lane(a@, b@, l, t as int),
        decreases c - t,
    {
        let mut l: usize = 0;
        while l < 4
            invariant
                l <= 4,
                t < c,
                c <= ca,
                c <= cb,
                ca == a.len() / 4,
                cb == b.len() / 4,
                deterministic::<F>() ==> forall|m: int|
                    0 <= m < 4 ==> #[trigger] acc@[m] == lane(
                        a@,
                        b@,
                        m,
                        if m < l {
                            t + 1
                        } else {
                            t as int
                        },
                    ),
            decreases 4 - l,
        {
            acc[l] = a[4 * t + l].mul_add(b[4 * t + l], acc[l]);
            l = l + 1;
        }
        t = t + 1;
    }
    let mut s = acc[0].plus(acc[1]).plus(acc[2].plus(acc[3]));
    let ghost lanes = s;
    let ra: usize = a.len() - 4 * ca;
    let rb: usize = b.len() - 4 * cb;
    let rest: usize = if ra <= rb {
        ra
    } else {
        rb
    };
    let mut i: usize = 0;
    while i < rest
        invariant
            i <= rest,
            rest <= ra,
            rest <= rb,
            ra == a.len() - 4 * ca,
            rb == b.len() - 4 * cb,
            ca == a.len() / 4,
            cb == b.len() / 4,
            deterministic::<F>() ==> s == fma_chain(
                a@.skip(4 * ca),
                b@.skip(4 * cb),
                lanes,
                i as int,
            ),
        decreases rest - i,
    {
        s = a[4 * ca + i].mul_add(b[4 * cb + i], s);
        i = i + 1;
    }
    s
}

/// How many outputs of a row the accumulating kernels keep at hand while they add up.
pub const ACC: usize = 16;

/// `c = a * b^T`: rows of `a` against the rows of a weight matrix, that is a linear layer over
/// `n` positions at once.
pub fn matmul_abt<F: Float>(a: &[F], n: usize, k: usize, b: &[F], m: usize, c: &mut [F])
    requires
        n * k <= a.len(),
        m * k == b.len(),
        n * m <= old(c).len(),
    ensures
        final(c)@.len() == old(c)@.len(),
        final(c)@.skip(n * m) == old(c)@.skip(n * m),
        deterministic::<F>() ==> mat(final(c)@, n as int, m as int) == Seq::new(
            n as nat,
            |i: int| linear(row_of(a@, i, k as int), mat(b@, m as int, k as int)),
        ),
{
    let ghost w = mat(b@, m as int, k as int);
    let ghost target = Seq::new(n as nat, |i: int| linear(row_of(a@, i, k as int), w));
    let mut i: usize = 0;
    while i < n
        invariant
            i <= n,
            n * k <= a.len(),
            m * k == b.len(),
            n * m <= c.len(),
            c.len() == old(c).len(),
            c@.skip(n * m) == old(c)@.skip(n * m),
            w == mat(b@, m as int, k as int),
            target == Seq::new(n as nat, |i: int| linear(row_of(a@, i, k as int), w)),
            deterministic::<F>() ==> forall|r: int, o: int|
                0 <= r < i && 0 <= o < m ==> #[trigger] cell(c@, m as int, r, o) == target[r][o],
        decreases n - i,
    {
        proof {
            lemma_row_len(a@, i as int, n as int, k as int);
            lemma_row_len(c@, i as int, n as int, m as int);
        }
        let ai = row(a, i, k);
        let mut o: usize = 0;
        while o < m
            invariant
                i < n,
                o <= m,
                n * k <= a.len(),
                m * k == b.len(),
                n * m <= c.len(),
                c.len() == old(c).len(),
                c@.skip(n * m) == old(c)@.skip(n * m),
                ai@ == row_of(a@, i as int, k as int),
                w == mat(b@, m as int, k as int),
                target == Seq::new(n as nat, |i: int| linear(row_of(a@, i, k as int), w)),
                deterministic::<F>() ==> forall|r: int, q: int|
                    0 <= r < n && 0 <= q < m && (r < i || (r == i && q < o)) ==> #[trigger] cell(
                        c@,
                        m as int,
                        r,
                        q,
                    ) == target[r][q],
            decreases m - o,
        {
            proof {
                lemma_row_len(b@, o as int, m as int, k as int);
                lemma_cell(i as int, o as int, n as int, m as int);
            }
            let v = dot(ai, row(b, o, k));
            proof {
                lemma_update_cell(c@, n as int, m as int, i as int, o as int, v);
            }
            let ghost before = c@;
            c[i * m + o] = v;
            assert(c@.skip(n * m) =~= before.skip(n * m));
            o = o + 1;
        }
        i = i + 1;
    }
    proof {
        if deterministic::<F>() {
            lemma_mat_from_cells(c@, n as int, m as int, target);
        }
    }
}

/// `c += a * b`: the gradient of the input of a linear layer, for a weight matrix with one row
/// per output. Up to [`ACC`] outputs of a row are added up before they are written back.
pub fn matmul_ab_acc<F: Float>(a: &[F], n: usize, m: usize, b: &[F], k: usize, c: &mut [F])
    requires
        n * m <= a.len(),
        m * k == b.len(),
        n * k <= old(c).len(),
    ensures
        final(c)@.len() == old(c)@.len(),
        final(c)@.skip(n * k) == old(c)@.skip(n * k),
        deterministic::<F>() ==> mat(final(c)@, n as int, k as int) == ab_acc(
            mat(a@, n as int, m as int),
            mat(b@, m as int, k as int),
            mat(old(c)@, n as int, k as int),
        ),
{
    let ghost am = mat(a@, n as int, m as int);
    let ghost bm = mat(b@, m as int, k as int);
    let ghost cm = mat(old(c)@, n as int, k as int);
    let ghost target = ab_acc(am, bm, cm);
    let z = F::from_usize(0);
    let mut i: usize = 0;
    proof {
        assert forall|r: int, j: int| 0 <= r < n && 0 <= j < k implies #[trigger] cell(
            c@,
            k as int,
            r,
            j,
        ) == cm[r][j] by {
            lemma_row_entry(c@, r, j, n as int, k as int);
        }
        assert forall|r: int| 0 <= r < n implies (#[trigger] cm[r]).len() == k by {
            lemma_row_len(c@, r, n as int, k as int);
        }
    }
    while i < n
        invariant
            i <= n,
            n * m <= a.len(),
            m * k == b.len(),
            n * k <= old(c).len(),
            c.len() == old(c).len(),
            c@.skip(n * k) == old(c)@.skip(n * k),
            am == mat(a@, n as int, m as int),
            bm == mat(b@, m as int, k as int),
            cm == mat(old(c)@, n as int, k as int),
            target == ab_acc(am, bm, cm),
            forall|r: int| 0 <= r < n ==> (#[trigger] cm[r]).len() == k,
            forall|r: int, j: int|
                i <= r < n && 0 <= j < k ==> #[trigger] cell(c@, k as int, r, j) == cm[r][j],
            deterministic::<F>() ==> forall|r: int, j: int|
                0 <= r < i && 0 <= j < k ==> #[trigger] cell(c@, k as int, r, j) == target[r][j],
        decreases n - i,
    {
        let mut cs: usize = 0;
        while cs < k
            invariant
                i < n,
                cs <= k,
                n * m <= a.len(),
                m * k == b.len(),
                n * k <= old(c).len(),
                c.len() == old(c).len(),
                c@.skip(n * k) == old(c)@.skip(n * k),
                am == mat(a@, n as int, m as int),
                bm == mat(b@, m as int, k as int),
                cm == mat(old(c)@, n as int, k as int),
                target == ab_acc(am, bm, cm),
                forall|r: int| 0 <= r < n ==> (#[trigger] cm[r]).len() == k,
                forall|r: int, j: int|
                    i <= r < n && 0 <= j < k && !(r == i && j < cs) ==> #[trigger] cell(
                        c@,
                        k as int,
                        r,
                        j,
                    ) == cm[r][j],
                deterministic::<F>() ==> forall|r: int, j: int|
                    0 <= r < n && 0 <= j < k && (r < i || (r == i && j < cs))
                        ==> #[trigger] cell(c@, k as int, r, j) == target[r][j],
            decreases k - cs,
        {
            let width: usize = if k - cs < ACC {
                k - cs
            } else {
                ACC
            };
            let mut acc: [F; ACC] = [z; ACC];
            let mut j: usize = 0;
            while j < width
                invariant
                    i < n,
                    j <= width,
                    cs + width <= k,
                    n * k <= c.len(),
                    width <= ACC,
                    forall|r: int, j: int|
                        i <= r < n && 0 <= j < k && !(r == i && j < cs) ==> #[trigger] cell(
                            c@,
                            k as int,
                            r,
                            j,
                        ) == cm[r][j],
                    forall|q: int| 0 <= q < j ==> #[trigger] acc@[q] == cm[i as int][cs + q],
                decreases width - j,
            {
                proof {
                    lemma_cell(i as int, cs + j, n as int, k as int);
                    assert(cell(c@, k as int, i as int, cs + j) == cm[i as int][cs + j]);
                }
                acc[j] = c[i * k + cs + j];
                j = j + 1;
            }
            let mut o: usize = 0;
            while o < m
                invariant
                    i < n,
                    o <= m,
                    cs + width <= k,
                    n * m <= a.len(),
                    m * k == b.len(),
                    n * k <= old(c).len(),
                    width <= ACC,
                    am == mat(a@, n as int, m as int),
                    bm == mat(b@, m as int, k as int),
                    deterministic::<F>() ==> forall|q: int|
                        0 <= q < width ==> #[trigger] acc@[q] == fma_chain(
                            am[i as int],
                            col(bm, cs + q),
                            cm[i as int][cs + q],
                            o as int,
                        ),
                decreases m - o,
            {
                proof {
                    lemma_cell(i as int, o as int, n as int, m as int);
                    lemma_row_entry(a@, i as int, o as int, n as int, m as int);
                }
                let g = a[i * m + o];
                let mut j: usize = 0;
                while j < width
                    invariant
                        i < n,
                        o < m,
                        j <= width,
                        cs + width <= k,
                        n * m <= a.len(),
                        m * k == b.len(),
                        n * k <= old(c).len(),
                        width <= ACC,
                        am == mat(a@, n as int, m as int),
                        bm == mat(b@, m as int, k as int),
                        g == am[i as int][o as int],
                        deterministic::<F>() ==> forall|q: int|
                            0 <= q < width ==> #[trigger] acc@[q] == fma_chain(
                                am[i as int],
                                col(bm, cs + q),
                                cm[i as int][cs + q],
                                if q < j {
                                    o + 1
                                } else {
                                    o as int
                                },
                            ),
                    decreases width - j,
                {
                    proof {
                        lemma_cell(o as int, cs + j, m as int, k as int);
                        lemma_row_entry(b@, o as int, cs + j, m as int, k as int);
                    }
                    acc[j] = g.mul_add(b[o * k + cs + j], acc[j]);
                    j = j + 1;
                }
                o = o + 1;
            }
            let mut j: usize = 0;
            while j < width
                invariant
                    i < n,
                    j <= width,
                    cs + width <= k,
                    n * m <= a.len(),
                    m * k == b.len(),
                    n * k <= old(c).len(),
                    c.len() == old(c).len(),
                    c@.skip(n * k) == old(c)@.skip(n * k),
                    width <= ACC,
                    target == ab_acc(am, bm, cm),
                    cm.len() == n,
                    bm.len() == m,
                    forall|r: int| 0 <= r < n ==> (#[trigger] cm[r]).len() == k,
                    deterministic::<F>() ==> forall|q: int|
                        0 <= q < width ==> #[trigger] acc@[q] == fma_chain(
                            am[i as int],
                            col(bm, cs + q),
                            cm[i as int][cs + q],
                            m as int,
                        ),
                    forall|r: int, q: int|
                        i <= r < n && 0 <= q < k && !(r == i && q < cs + j)
                            ==> #[trigger] cell(c@, k as int, r, q) == cm[r][q],
                    deterministic::<F>() ==> forall|r: int, q: int|
                        0 <= r < n && 0 <= q < k && (r < i || (r == i && q < cs + j))
                            ==> #[trigger] cell(c@, k as int, r, q) == target[r][q],
                decreases width - j,
            {
                proof {
                    lemma_cell(i as int, cs + j, n as int, k as int);
                    lemma_update_cell(
                        c@,
                        n as int,
                        k as int,
                        i as int,
                        cs + j,
                        acc@[j as int],
                    );
                }
                let ghost before = c@;
                c[i * k + cs + j] = acc[j];
                assert(c@.skip(n * k) =~= before.skip(n * k));
                j = j + 1;
            }
            cs = cs + width;
        }
        i = i + 1;
    }
    proof {
        if deterministic::<F>() {
            lemma_mat_from_cells(c@, n as int, k as int, target);
        }
    }
}

/// `c += a^T * b`: the gradient of a weight matrix, summed over the `n` positions of a document,
/// so that each weight is read and written once per document.
pub fn matmul_atb_acc<F: Float>(a: &[F], n: usize, m: usize, b: &[F], k: usize, c: &mut [F])
    requires
        n * m <= a.len(),
        n * k <= b.len(),
        m * k == old(c).len(),
    ensures
        final(c)@.len() == old(c)@.len(),
        final(c)@.skip(m * k) == old(c)@.skip(m * k),
        deterministic::<F>() ==> mat(final(c)@, m as int, k as int) == atb_acc(
            mat(a@, n as int, m as int),
            mat(b@, n as int, k as int),
            mat(old(c)@, m as int, k as int),
        ),
{
    let ghost am = mat(a@, n as int, m as int);
    let ghost bm = mat(b@, n as int, k as int);
    let ghost cm = mat(old(c)@, m as int, k as int);
    let ghost target = atb_acc(am, bm, cm);
    let z = F::from_usize(0);
    let mut o: usize = 0;
    proof {
        assert forall|r: int, j: int| 0 <= r < m && 0 <= j < k implies #[trigger] cell(
            c@,
            k as int,
            r,
            j,
        ) == cm[r][j] by {
            lemma_row_entry(c@, r, j, m as int, k as int);
        }
        assert forall|r: int| 0 <= r < m implies (#[trigger] cm[r]).len() == k by {
            lemma_row_len(c@, r, m as int, k as int);
        }
    }
    while o < m
        invariant
            o <= m,
            n * m <= a.len(),
            n * k <= b.len(),
            m * k == old(c).len(),
            c.len() == old(c).len(),
            c@.skip(m * k) == old(c)@.skip(m * k),
            am == mat(a@, n as int, m as int),
            bm == mat(b@, n as int, k as int),
            cm == mat(old(c)@, m as int, k as int),
            target == atb_acc(am, bm, cm),
            forall|r: int| 0 <= r < m ==> (#[trigger] cm[r]).len() == k,
            forall|r: int, j: int|
                o <= r < m && 0 <= j < k ==> #[trigger] cell(c@, k as int, r, j) == cm[r][j],
            deterministic::<F>() ==> forall|r: int, j: int|
                0 <= r < o && 0 <= j < k ==> #[trigger] cell(c@, k as int, r, j) == target[r][j],
        decreases m - o,
    {
        let mut cs: usize = 0;
        while cs < k
            invariant
                o < m,
                cs <= k,
                n * m <= a.len(),
                n * k <= b.len(),
                m * k == old(c).len(),
                c.len() == old(c).len(),
                c@.skip(m * k) == old(c)@.skip(m * k),
                am == mat(a@, n as int, m as int),
                bm == mat(b@, n as int, k as int),
                cm == mat(old(c)@, m as int, k as int),
                target == atb_acc(am, bm, cm),
                forall|r: int| 0 <= r < m ==> (#[trigger] cm[r]).len() == k,
                forall|r: int, j: int|
                    o <= r < m && 0 <= j < k && !(r == o && j < cs) ==> #[trigger] cell(
                        c@,
                        k as int,
                        r,
                        j,
                    ) == cm[r][j],
                deterministic::<F>() ==> forall|r: int, j: int|
                    0 <= r < m && 0 <= j < k && (r < o || (r == o && j < cs))
                        ==> #[trigger] cell(c@, k as int, r, j) == target[r][j],
            decreases k - cs,
        {
            let width: usize = if k - cs < ACC {
                k - cs
            } else {
                ACC
            };
            let mut acc: [F; ACC] = [z; ACC];
            let mut j: usize = 0;
            while j < width
                invariant
                    o < m,
                    j <= width,
                    cs + width <= k,
                    m * k <= c.len(),
                    width <= ACC,
                    forall|r: int, j: int|
                        o <= r < m && 0 <= j < k && !(r == o && j < cs) ==> #[trigger] cell(
                            c@,
                            k as int,
                            r,
                            j,
                        ) == cm[r][j],
                    forall|q: int| 0 <= q < j ==> #[trigger] acc@[q] == cm[o as int][cs + q],
                decreases width - j,
            {
                proof {
                    lemma_cell(o as int, cs + j, m as int, k as int);
                    assert(cell(c@, k as int, o as int, cs + j) == cm[o as int][cs + j]);
                }
                acc[j] = c[o * k + cs + j];
                j = j + 1;
            }
            let mut i: usize = 0;
            while i < n
                invariant
                    o < m,
                    i <= n,
                    cs + width <= k,
                    n * m <= a.len(),
                    n * k <= b.len(),
                    m * k == old(c).len(),
                    width <= ACC,
                    am == mat(a@, n as int, m as int),
                    bm == mat(b@, n as int, k as int),
                    deterministic::<F>() ==> forall|q: int|
                        0 <= q < width ==> #[trigger] acc@[q] == fma_chain(
                            col(am, o as int),
                            col(bm, cs + q),
                            cm[o as int][cs + q],
                            i as int,
                        ),
                decreases n - i,
            {
                proof {
                    lemma_cell(i as int, o as int, n as int, m as int);
                    lemma_row_entry(a@, i as int, o as int, n as int, m as int);
                }
                let g = a[i * m + o];
                let mut j: usize = 0;
                while j < width
                    invariant
                        o < m,
                        i < n,
                        j <= width,
                        cs + width <= k,
                        n * m <= a.len(),
                        n * k <= b.len(),
                        m * k == old(c).len(),
                        width <= ACC,
                        am == mat(a@, n as int, m as int),
                        bm == mat(b@, n as int, k as int),
                        g == col(am, o as int)[i as int],
                        deterministic::<F>() ==> forall|q: int|
                            0 <= q < width ==> #[trigger] acc@[q] == fma_chain(
                                col(am, o as int),
                                col(bm, cs + q),
                                cm[o as int][cs + q],
                                if q < j {
                                    i + 1
                                } else {
                                    i as int
                                },
                            ),
                    decreases width - j,
                {
                    proof {
                        lemma_cell(i as int, cs + j, n as int, k as int);
                        lemma_row_entry(b@, i as int, cs + j, n as int, k as int);
                    }
                    acc[j] = g.mul_add(b[i * k + cs + j], acc[j]);
                    j = j + 1;
                }
                i = i + 1;
            }
            let mut j: usize = 0;
            while j < width
                invariant
                    o < m,
                    j <= width,
                    cs + width <= k,
                    n * m <= a.len(),
                    n * k <= b.len(),
                    m * k == old(c).len(),
                    c.len() == old(c).len(),
                    c@.skip(m * k) == old(c)@.skip(m * k),
                    width <= ACC,
                    target == atb_acc(am, bm, cm),
                    cm.len() == m,
                    bm.len() == n,
                    forall|r: int| 0 <= r < m ==> (#[trigger] cm[r]).len() == k,
                    deterministic::<F>() ==> forall|q: int|
                        0 <= q < width ==> #[trigger] acc@[q] == fma_chain(
                            col(am, o as int),
                            col(bm, cs + q),
                            cm[o as int][cs + q],
                            n as int,
                        ),
                    forall|r: int, q: int|
                        o <= r < m && 0 <= q < k && !(r == o && q < cs + j)
                            ==> #[trigger] cell(c@, k as int, r, q) == cm[r][q],
                    deterministic::<F>() ==> forall|r: int, q: int|
                        0 <= r < m && 0 <= q < k && (r < o || (r == o && q < cs + j))
                            ==> #[trigger] cell(c@, k as int, r, q) == target[r][q],
                decreases width - j,
            {
                proof {
                    lemma_cell(o as int, cs + j, m as int, k as int);
                    lemma_update_cell(
                        c@,
                        m as int,
                        k as int,
                        o as int,
                        cs + j,
                        acc@[j as int],
                    );
                }
                let ghost before = c@;
                c[o * k + cs + j] = acc[j];
                assert(c@.skip(m * k) =~= before.skip(m * k));
                j = j + 1;
            }
            cs = cs + width;
        }
        o = o + 1;
    }
    proof {
        if deterministic::<F>() {
            lemma_mat_from_cells(c@, m as int, k as int, target);
        }
    }
}

/// `x + y` where both have an entry, `x` elsewhere.
pub open spec fn vec_plus<F: Float>(x: Seq<F>, y: Seq<F>) -> Seq<F> {
    Seq::new(
        x.len(),
        |i: int|
            if i < y.len() {
                plus(x[i], y[i])
            } else {
                x[i]
            },
    )
}

/// `new` on its own positions, `rest` behind them, cut to the length of `rest`.
pub open spec fn written_over<F>(new: Seq<F>, rest: Seq<F>) -> Seq<F> {
    Seq::new(
        rest.len(),
        |i: int|
            if i < new.len() {
                new[i]
            } else {
                rest[i]
            },
    )
}

/// `x[i] += y[i]`
pub fn add_assign<F: Float>(x: &mut [F], y: &[F])
    ensures
        final(x)@.len() == old(x)@.len(),
        deterministic::<F>() ==> final(x)@ == vec_plus(old(x)@, y@),
{
    let n: usize = if x.len() <= y.len() {
        x.len()
    } else {
        y.len()
    };
    let mut i: usize = 0;
    while i < n
        invariant
            i <= n,
            n <= x.len(),
            n <= y.len(),
            n == x.len() || n == y.len(),
            x.len() == old(x).len(),
            forall|j: int| i <= j < x.len() ==> #[trigger] x@[j] == old(x)@[j],
            deterministic::<F>() ==> forall|j: int|
                0 <= j < i ==> #[trigger] x@[j] == plus(old(x)@[j], y@[j]),
        decreases n - i,
    {
        x[i] = x[i].plus(y[i]);
        i = i + 1;
    }
    assert(deterministic::<F>() ==> x@ =~= vec_plus(old(x)@, y@));
}

/// The constant that keeps [`rmsnorm`] away from a division by zero: `1 / 100000`.
pub open spec fn rms_eps<F: Float>() -> F {
    ratio_of(1, 100_000)
}

/// `(mean(x^2) + eps)^(-1/2)`
pub open spec fn rms_scale<F: Float>(x: Seq<F>) -> F {
    over(one(), root(plus(over(dot_of(x, x), num(x.len() as usize)), rms_eps())))
}

/// `x * (mean(x^2) + eps)^(-1/2)`
pub open spec fn rmsnorm_of<F: Float>(x: Seq<F>) -> Seq<F> {
    Seq::new(x.len(), |i: int| times(x[i], rms_scale(x)))
}

/// The scale that [`rmsnorm`] multiplies by.
fn inverse_rms<F: Float>(x: &[F]) -> (scale: F)
    ensures
        deterministic::<F>() ==> scale == rms_scale(x@),
{
    let ms = dot(x, x).over(F::from_usize(x.len()));
    F::from_usize(1).over(ms.plus(ratio(1, 100_000)).sqrt())
}

/// `y = x * (mean(x^2) + eps)^(-1/2)`
pub fn rmsnorm<F: Float>(x: &[F], y: &mut [F])
    ensures
        final(y)@.len() == old(y)@.len(),
        deterministic::<F>() ==> final(y)@ == written_over(rmsnorm_of(x@), old(y)@),
{
    let scale = inverse_rms(x);
    let n: usize = if x.len() <= y.len() {
        x.len()
    } else {
        y.len()
    };
    let mut i: usize = 0;
    while i < n
        invariant
            i <= n,
            n <= x.len(),
            n <= y.len(),
            n == x.len() || n == y.len(),
            y.len() == old(y).len(),
            deterministic::<F>() ==> scale == rms_scale(x@),
            forall|j: int| i <= j < y.len() ==> #[trigger] y@[j] == old(y)@[j],
            deterministic::<F>() ==> forall|j: int|
                0 <= j < i ==> #[trigger] y@[j] == rmsnorm_of(x@)[j],
        decreases n - i,
    {
        y[i] = x[i].times(scale);
        i = i + 1;
    }
    assert(deterministic::<F>() ==> y@ =~= written_over(rmsnorm_of(x@), old(y)@));
}

/// The gradient of [`rmsnorm`] at `x` applied to `dy`, added to `dx`. With
/// `s = (mean(x^2) + eps)^(-1/2)` and `D` the length of `x`, entry `k` gets
/// `s * dy[k] - (s^3 / D) * (dy . x) * x[k]`.
pub open spec fn rmsnorm_grad<F: Float>(x: Seq<F>, dy: Seq<F>, dx: Seq<F>) -> Seq<F> {
    let s = rms_scale(x);
    let c = times(over(times(times(s, s), s), num(x.len() as usize)), dot_of(dy, x));
    Seq::new(x.len(), |k: int| fma(s, dy[k], fma(negated(c), x[k], dx[k])))
}

/// `dx += d rmsnorm(x) / dx` applied to `dy`.
pub fn rmsnorm_bwd<F: Float>(x: &[F], dy: &[F], dx: &mut [F])
    requires
        x.len() <= dy.len(),
        x.len() <= old(dx).len(),
    ensures
        final(dx)@.len() == old(dx)@.len(),
        deterministic::<F>() ==> final(dx)@ == written_over(
            rmsnorm_grad(x@, dy@, old(dx)@),
            old(dx)@,
        ),
{
    let d = F::from_usize(x.len());
    let s = inverse_rms(x);
    let c = s.times(s).times(s).over(d).times(dot(dy, x));
    let mut k: usize = 0;
    while k < x.len()
        invariant
            k <= x.len(),
            x.len() <= dy.len(),
            x.len() <= dx.len(),
            dx.len() == old(dx).len(),
            deterministic::<F>() ==> s == rms_scale(x@),
            deterministic::<F>() ==> c == times(
                over(times(times(s, s), s), num(x@.len() as usize)),
                dot_of(dy@, x@),
            ),
            forall|j: int| k <= j < dx.len() ==> #[trigger] dx@[j] == old(dx)@[j],
            deterministic::<F>() ==> forall|j: int|
                0 <= j < k ==> #[trigger] dx@[j] == rmsnorm_grad(x@, dy@, old(dx)@)[j],
        decreases x.len() - k,
    {
        dx[k] = s.mul_add(dy[k], c.negated().mul_add(x[k], dx[k]));
        k = k + 1;
    }
    assert(deterministic::<F>() ==> dx@ =~= written_over(
        rmsnorm_grad(x@, dy@, old(dx)@),
        old(dx)@,
    ));
}

/// The largest of the first `n` entries, and of the number below every other.
pub open spec fn max_chain<F: Float>(v: Seq<F>, n: int) -> F
    decreases n,
{
    if n <= 0 {
        lowest()
    } else {
        larger(max_chain(v, n - 1), v[n - 1])
    }
}

/// The exponentials of the entries, each less the largest of them.
pub open spec fn shifted_exps<F: Float>(v: Seq<F>) -> Seq<F> {
    Seq::new(v.len(), |i: int| exponential(minus(v[i], max_chain(v, v.len() as int))))
}

/// The softmax of a vector.
pub open spec fn softmax_of<F: Float>(v: Seq<F>) -> Seq<F> {
    let e = shifted_exps(v);
    let inv = over(one(), plus_chain(e, zero(), v.len() as int));
    Seq::new(v.len(), |i: int| times(e[i], inv))
}

/// Replaces a vector by its softmax.
pub fn softmax_inplace<F: Float>(v: &mut [F])
    ensures
        final(v)@.len() == old(v)@.len(),
        deterministic::<F>() ==> final(v)@ == softmax_of(old(v)@),
{
    let n: usize = v.len();
    let mut max = F::neg_infinity();
    let mut i: usize = 0;
    while i < n
        invariant
            i <= n,
            n == v.len(),
            v@ == old(v)@,
            deterministic::<F>() ==> max == max_chain(old(v)@, i as int),
        decreases n - i,
    {
        max = max.max(v[i]);
        i = i + 1;
    }
    let mut total = F::from_usize(0);
    let ghost e = shifted_exps(old(v)@);
    i = 0;
    while i < n
        invariant
            i <= n,
            n == v.len(),
            n == old(v).len(),
            e == shifted_exps(old(v)@),
            deterministic::<F>() ==> max == max_chain(old(v)@, n as int),
            deterministic::<F>() ==> total == plus_chain(e, zero(), i as int),
            forall|j: int| i <= j < n ==> #[trigger] v@[j] == old(v)@[j],
            deterministic::<F>() ==> forall|j: int| 0 <= j < i ==> #[trigger] v@[j] == e[j],
        decreases n - i,
    {
        v[i] = v[i].minus(max).exp();
        total = total.plus(v[i]);
        i = i + 1;
    }
    let inv = F::from_usize(1).over(total);
    i = 0;
    while i < n
        invariant
            i <= n,
            n == v.len(),
            n == old(v).len(),
            e == shifted_exps(old(v)@),
            deterministic::<F>() ==> inv == over(one(), plus_chain(e, zero(), n as int)),
            deterministic::<F>() ==> forall|j: int| i <= j < n ==> #[trigger] v@[j] == e[j],
            deterministic::<F>() ==> forall|j: int|
                0 <= j < i ==> #[trigger] v@[j] == softmax_of(old(v)@)[j],
        decreases n - i,
    {
        v[i] = v[i].times(inv);
        i = i + 1;
    }
    assert(deterministic::<F>() ==> v@ =~= softmax_of(old(v)@));
}

/// Sets every entry.
pub fn fill<F: Float>(v: &mut [F], x: F)
    ensures
        final(v)@ == Seq::new(old(v)@.len(), |i: int| x),
{
    let n: usize = v.len();
    let mut i: usize = 0;
    while i < n
        invariant
            i <= n,
            n == v.len(),
            n == old(v).len(),
            forall|j: int| 0 <= j < i ==> #[trigger] v@[j] == x,
        decreases n - i,
    {
        v[i] = x;
        i = i + 1;
    }
}

/// Copies one slice over another of the same length.
pub fn copy<F: Float>(from: &[F], to: &mut [F])
    requires
        from.len() == old(to).len(),
    ensures
        final(to)@ == from@,
{
    let n: usize = from.len();
    let mut i: usize = 0;
    while i < n
        invariant
            i <= n,
            n == from.len(),
            n == to.len(),
            forall|j: int| 0 <= j < i ==> #[trigger] to@[j] == from@[j],
        decreases n - i,
    {
        to[i] = from[i];
        i = i + 1;
    }
}

} // verus!
