//! The stages of a layer over a range of positions: each turns rows of one buffer into the same
//! rows of another.
use vstd::prelude::*;

use crate::arith::{lemma_cell, lemma_rows_apart};
use crate::kernels::{
    add_assign, copy, fill, matmul_abt, rmsnorm, rmsnorm_bwd, rmsnorm_grad, rmsnorm_of, row,
    row_mut, vec_plus, written_over,
};
use crate::matrix::{
    cell, filled, lemma_mat_from_cells, lemma_row_len, linear, mat, row_of, same_outside,
};
use crate::scalar::{deterministic, larger, zero, Float};

verus! {

/// What the replacement of one row does to the rows.
pub proof fn lemma_row_replaced<F>(before: Seq<F>, new_row: Seq<F>, i: int, n: int, w: int)
    requires
        0 <= i < n,
        0 <= w,
        n * w <= before.len(),
        new_row.len() == w,
    ensures
        ({
            let after = before.take(i * w) + new_row + before.skip((i + 1) * w);
            &&& same_outside(before, after, i * w, (i + 1) * w)
            &&& row_of(after, i, w) == new_row
            &&& forall|k: int|
                0 <= k < n && k != i ==> #[trigger] row_of(after, k, w) == row_of(before, k, w)
        }),
{
    let after = before.take(i * w) + new_row + before.skip((i + 1) * w);
    lemma_row_len(before, i, n, w);
    assert(row_of(after, i, w) =~= new_row);
    assert forall|k: int| 0 <= k < n && k != i implies #[trigger] row_of(after, k, w) == row_of(
        before,
        k,
        w,
    ) by {
        lemma_row_len(before, k, n, w);
        if k < i {
            lemma_rows_apart(k, i, w);
        } else {
            lemma_rows_apart(i, k, w);
        }
        assert(row_of(after, k, w) =~= row_of(before, k, w));
    }
}

/// A row outside the changed positions is unchanged.
pub proof fn lemma_row_outside<F>(a: Seq<F>, b: Seq<F>, lo: int, hi: int, k: int, w: int)
    requires
        same_outside(a, b, lo * w, hi * w),
        0 <= lo <= hi,
        0 <= k,
        0 <= w,
        (k + 1) * w <= a.len(),
        k < lo || k >= hi,
    ensures
        row_of(a, k, w) == row_of(b, k, w),
{
    assert(0 <= k * w && k * w + w == (k + 1) * w) by (nonlinear_arith)
        requires
            0 <= k,
            0 <= w,
    ;
    if k < lo {
        lemma_rows_apart(k, lo, w);
    } else {
        assert(hi * w <= k * w) by (nonlinear_arith)
            requires
                hi <= k,
                0 <= w,
        ;
    }
    assert(row_of(a, k, w) =~= row_of(b, k, w));
}

/// A row of a run of rows is a row of the whole.
pub proof fn lemma_row_of_run<F>(buf: Seq<F>, from: int, to: int, i: int, w: int)
    requires
        0 <= from,
        0 <= i < to - from,
        0 <= w,
        to * w <= buf.len(),
    ensures
        0 <= from * w <= to * w,
        (to - from) * w == to * w - from * w,
        row_of(buf.subrange(from * w, to * w), i, w) == row_of(buf, from + i, w),
{
    assert(0 <= from * w && (to - from) * w == to * w - from * w && (from + i) * w == from * w + i
        * w && (from + i + 1) * w == from * w + (i + 1) * w) by (nonlinear_arith)
        requires
            0 <= from,
            0 <= w,
    ;
    assert(0 <= i * w && i * w <= (i + 1) * w && (i + 1) * w <= (to - from) * w)
        by (nonlinear_arith)
        requires
            0 <= i < to - from,
            0 <= w,
    ;
    assert(row_of(buf.subrange(from * w, to * w), i, w) =~= row_of(buf, from + i, w));
}

/// [`rmsnorm`] on each of the rows `from..to`.
pub fn rmsnorm_rows<F: Float>(x: &[F], y: &mut [F], w: usize, from: usize, to: usize)
    requires
        from <= to,
        to * w <= x.len(),
        to * w <= old(y).len(),
    ensures
        same_outside(old(y)@, final(y)@, from * w, to * w),
        deterministic::<F>() ==> forall|k: int|
            from <= k < to ==> #[trigger] row_of(final(y)@, k, w as int) == rmsnorm_of(
                row_of(x@, k, w as int),
            ),
{
    let mut i: usize = from;
    while i < to
        invariant
            from <= i <= to,
            to * w <= x.len(),
            to * w <= y.len(),
            y.len() == old(y).len(),
            same_outside(old(y)@, y@, from * w, i * w),
            deterministic::<F>() ==> forall|k: int|
                from <= k < i ==> #[trigger] row_of(y@, k, w as int) == rmsnorm_of(
                    row_of(x@, k, w as int),
                ),
        decreases to - i,
    {
        proof {
            lemma_row_len(x@, i as int, to as int, w as int);
            lemma_row_len(y@, i as int, to as int, w as int);
            assert(from * w <= i * w) by (nonlinear_arith)
                requires
                    from <= i,
            ;
        }
        let ghost before = y@;
        let yi = row_mut(y, i, w);
        let ghost yi_old = yi@;
        rmsnorm(row(x, i, w), yi);
        proof {
            let new_row = row_of(y@, i as int, w as int);
            lemma_row_replaced(
                before,
                y@.subrange(i * w, (i + 1) * w),
                i as int,
                to as int,
                w as int,
            );
            assert(y@ =~= before.take(i * w) + y@.subrange(i * w, (i + 1) * w) + before.skip(
                (i + 1) * w,
            ));
            if deterministic::<F>() {
                assert(new_row =~= written_over(rmsnorm_of(row_of(x@, i as int, w as int)), yi_old));
                assert(new_row =~= rmsnorm_of(row_of(x@, i as int, w as int)));
            }
        }
        i = i + 1;
    }
}

/// A linear layer on each of the rows `from..to`: one matrix product over the positions.
pub fn linear_rows<F: Float>(
    x: &[F],
    k: usize,
    w: &[F],
    m: usize,
    y: &mut [F],
    from: usize,
    to: usize,
)
    requires
        from <= to,
        to * k <= x.len(),
        m * k == w.len(),
        to * m <= old(y).len(),
    ensures
        same_outside(old(y)@, final(y)@, from * m, to * m),
        deterministic::<F>() ==> forall|i: int|
            from <= i < to ==> #[trigger] row_of(final(y)@, i, m as int) == linear(
                row_of(x@, i, k as int),
                mat(w@, m as int, k as int),
            ),
{
    proof {
        assert(from * k <= to * k && from * m <= to * m && (to - from) * k == to * k - from * k && (
        to - from) * m == to * m - from * m && 0 <= from * k && 0 <= from * m)
            by (nonlinear_arith)
            requires
                from <= to,
        ;
    }
    let n: usize = to - from;
    let xs = &x[from * k..to * k];
    let (_head, rest) = y.split_at_mut(from * m);
    let (ys, _tail) = rest.split_at_mut(n * m);
    let ghost wm = mat(w@, m as int, k as int);
    matmul_abt(xs, n, k, w, m, ys);
    let ghost out = ys@;
    proof {
        let mid = y@.subrange(from * m, to * m);
        assert(mid =~= out);
        if deterministic::<F>() {
            let product = Seq::new(n as nat, |i: int| linear(row_of(xs@, i, k as int), wm));
            assert(mat(mid, n as int, m as int) == product);
            assert forall|i: int| from <= i < to implies #[trigger] row_of(y@, i, m as int)
                == linear(row_of(x@, i, k as int), wm) by {
                lemma_row_of_run(x@, from as int, to as int, i - from, k as int);
                lemma_row_of_run(y@, from as int, to as int, i - from, m as int);
                assert(mat(mid, n as int, m as int)[i - from] == product[i - from]);
            }
        }
    }
}

/// Adds to each of the rows `from..to` the same row of another buffer.
pub fn add_rows<F: Float>(x: &[F], y: &mut [F], w: usize, from: usize, to: usize)
    requires
        from <= to,
        to * w <= x.len(),
        to * w <= old(y).len(),
    ensures
        same_outside(old(y)@, final(y)@, from * w, to * w),
        deterministic::<F>() ==> forall|i: int|
            from <= i < to ==> #[trigger] row_of(final(y)@, i, w as int) == vec_plus(
                row_of(old(y)@, i, w as int),
                row_of(x@, i, w as int),
            ),
{
    proof {
        assert(from * w <= to * w && (to - from) * w == to * w - from * w && 0 <= from * w)
            by (nonlinear_arith)
            requires
                from <= to,
        ;
    }
    let xs = &x[from * w..to * w];
    let (_head, rest) = y.split_at_mut(from * w);
    let (ys, _tail) = rest.split_at_mut(to * w - from * w);
    add_assign(ys, xs);
    proof {
        let (lo, hi) = (from * w, to * w);
        if deterministic::<F>() {
            assert(y@.subrange(lo, hi) =~= vec_plus(old(y)@.subrange(lo, hi), xs@));
            assert forall|i: int| from <= i < to implies #[trigger] row_of(y@, i, w as int)
                == vec_plus(row_of(old(y)@, i, w as int), row_of(x@, i, w as int)) by {
                lemma_row_len(y@, i, to as int, w as int);
                assert(from * w <= i * w) by (nonlinear_arith)
                    requires
                        from <= i,
                ;
                assert((i + 1) * w <= to * w) by (nonlinear_arith)
                    requires
                        i + 1 <= to,
                ;
                assert forall|j: int| 0 <= j < w implies #[trigger] row_of(y@, i, w as int)[j]
                    == vec_plus(row_of(old(y)@, i, w as int), row_of(x@, i, w as int))[j] by {
                    let q = i * w + j - lo;
                    assert(y@.subrange(lo, hi)[q] == vec_plus(old(y)@.subrange(lo, hi), xs@)[q]);
                }
                assert(row_of(y@, i, w as int) =~= vec_plus(
                    row_of(old(y)@, i, w as int),
                    row_of(x@, i, w as int),
                ));
            }
        }
    }
}

/// The positive part of each entry.
pub open spec fn relu_of<F: Float>(x: Seq<F>) -> Seq<F> {
    Seq::new(x.len(), |i: int| larger(x[i], zero()))
}

/// Replaces each of the rows `from..to` by its positive part.
pub fn relu_rows<F: Float>(y: &mut [F], w: usize, from: usize, to: usize)
    requires
        from <= to,
        to * w <= old(y).len(),
    ensures
        same_outside(old(y)@, final(y)@, from * w, to * w),
        deterministic::<F>() ==> forall|i: int|
            from <= i < to ==> #[trigger] row_of(final(y)@, i, w as int) == relu_of(
                row_of(old(y)@, i, w as int),
            ),
{
    proof {
        assert(from * w <= to * w && 0 <= from * w) by (nonlinear_arith)
            requires
                from <= to,
        ;
    }
    let lo: usize = from * w;
    let hi: usize = to * w;
    let mut x: usize = lo;
    while x < hi
        invariant
            lo <= x <= hi,
            hi <= y.len(),
            y.len() == old(y).len(),
            same_outside(old(y)@, y@, lo as int, x as int),
            deterministic::<F>() ==> forall|q: int|
                lo <= q < x ==> #[trigger] y@[q] == larger(old(y)@[q], zero()),
        decreases hi - x,
    {
        y[x] = y[x].max(F::from_usize(0));
        x = x + 1;
    }
    proof {
        if deterministic::<F>() {
            assert forall|i: int| from <= i < to implies #[trigger] row_of(y@, i, w as int)
                == relu_of(row_of(old(y)@, i, w as int)) by {
                lemma_row_len(y@, i, to as int, w as int);
                assert(from * w <= i * w) by (nonlinear_arith)
                    requires
                        from <= i,
                ;
                assert((i + 1) * w <= to * w) by (nonlinear_arith)
                    requires
                        i + 1 <= to,
                ;
                assert(row_of(y@, i, w as int) =~= relu_of(row_of(old(y)@, i, w as int)));
            }
        }
    }
}

/// [`rmsnorm_bwd`] on each of the first `n` rows.
pub fn rmsnorm_bwd_rows<F: Float>(x: &[F], dy: &[F], dx: &mut [F], w: usize, n: usize)
    requires
        n * w <= x.len(),
        n * w <= dy.len(),
        n * w <= old(dx).len(),
    ensures
        same_outside(old(dx)@, final(dx)@, 0, n * w),
        deterministic::<F>() ==> forall|i: int|
            0 <= i < n ==> #[trigger] row_of(final(dx)@, i, w as int) == rmsnorm_grad(
                row_of(x@, i, w as int),
                row_of(dy@, i, w as int),
                row_of(old(dx)@, i, w as int),
            ),
{
    let mut i: usize = 0;
    while i < n
        invariant
            i <= n,
            n * w <= x.len(),
            n * w <= dy.len(),
            n * w <= dx.len(),
            dx.len() == old(dx).len(),
            same_outside(old(dx)@, dx@, 0, i * w),
            deterministic::<F>() ==> forall|k: int|
                0 <= k < i ==> #[trigger] row_of(dx@, k, w as int) == rmsnorm_grad(
                    row_of(x@, k, w as int),
                    row_of(dy@, k, w as int),
                    row_of(old(dx)@, k, w as int),
                ),
        decreases n - i,
    {
        proof {
            lemma_row_len(x@, i as int, n as int, w as int);
            lemma_row_len(dy@, i as int, n as int, w as int);
            lemma_row_len(dx@, i as int, n as int, w as int);
            lemma_row_outside(old(dx)@, dx@, 0, i as int, i as int, w as int);
        }
        let ghost before = dx@;
        let di = row_mut(dx, i, w);
        let ghost di_old = di@;
        rmsnorm_bwd(row(x, i, w), row(dy, i, w), di);
        proof {
            let new_row = row_of(dx@, i as int, w as int);
            lemma_row_replaced(before, new_row, i as int, n as int, w as int);
            assert(dx@ =~= before.take(i * w) + new_row + before.skip((i + 1) * w));
            if deterministic::<F>() {
                let g = rmsnorm_grad(
                    row_of(x@, i as int, w as int),
                    row_of(dy@, i as int, w as int),
                    di_old,
                );
                assert(new_row =~= written_over(g, di_old));
                assert(new_row =~= g);
            }
        }
        i = i + 1;
    }
}

/// Sets the first `n` rows to zero.
pub fn zero_rows<F: Float>(buf: &mut [F], n: usize, w: usize)
    requires
        n * w <= old(buf).len(),
    ensures
        same_outside(old(buf)@, final(buf)@, 0, n * w),
        deterministic::<F>() ==> forall|x: int|
            0 <= x < n * w ==> #[trigger] final(buf)@[x] == zero::<F>(),
        deterministic::<F>() ==> mat(final(buf)@, n as int, w as int) == filled(
            n as int,
            w as int,
            zero::<F>(),
        ),
{
    let z = F::from_usize(0);
    let (head, _tail) = buf.split_at_mut(n * w);
    fill(head, z);
    let ghost out = head@;
    proof {
        if deterministic::<F>() {
            assert forall|x: int| 0 <= x < n * w implies #[trigger] buf@[x] == zero::<F>() by {
                assert(out[x] == zero::<F>());
            }
            assert forall|i: int, j: int| 0 <= i < n && 0 <= j < w implies #[trigger] cell(
                buf@,
                w as int,
                i,
                j,
            ) == filled(n as int, w as int, zero::<F>())[i][j] by {
                lemma_cell(i, j, n as int, w as int);
            }
            lemma_mat_from_cells(
                buf@,
                n as int,
                w as int,
                filled(n as int, w as int, zero::<F>()),
            );
        }
    }
}

/// Copies the first `n` rows.
pub fn copy_rows<F: Float>(from: &[F], to: &mut [F], n: usize, w: usize)
    requires
        n * w <= from.len(),
        n * w <= old(to).len(),
    ensures
        same_outside(old(to)@, final(to)@, 0, n * w),
        mat(final(to)@, n as int, w as int) == mat(from@, n as int, w as int),
{
    let (head, _tail) = to.split_at_mut(n * w);
    copy(&from[0..n * w], head);
    let ghost out = head@;
    proof {
        assert forall|i: int| 0 <= i < n implies #[trigger] row_of(to@, i, w as int) == row_of(
            from@,
            i,
            w as int,
        ) by {
            lemma_row_len(from@, i, n as int, w as int);
            assert((i + 1) * w <= n * w) by (nonlinear_arith)
                requires
                    i + 1 <= n,
            ;
            assert forall|j: int| 0 <= j < w implies #[trigger] row_of(to@, i, w as int)[j]
                == row_of(from@, i, w as int)[j] by {
                assert(out[i * w + j] == from@[i * w + j]);
            }
            assert(row_of(to@, i, w as int) =~= row_of(from@, i, w as int));
        }
        assert(mat(to@, n as int, w as int) =~= mat(from@, n as int, w as int));
    }
}

} // verus!
