//! Vectors and matrices as mathematical values, and how a flat row-major buffer holds them.
use vstd::prelude::*;

use crate::arith::lemma_cell;
use crate::scalar::{fma, plus, zero, Float};

verus! {

/// A matrix as the sequence of its rows.
pub type Mat<F> = Seq<Seq<F>>;

/// Row `i` of a row-major buffer whose rows are `w` wide.
pub open spec fn row_of<F>(buf: Seq<F>, i: int, w: int) -> Seq<F> {
    buf.subrange(i * w, (i + 1) * w)
}

/// The first `n` rows of a row-major buffer whose rows are `w` wide.
pub open spec fn mat<F>(buf: Seq<F>, n: int, w: int) -> Mat<F> {
    Seq::new(n as nat, |i: int| row_of(buf, i, w))
}

/// Entry `(i, j)` of a row-major buffer whose rows are `w` wide.
pub open spec fn cell<F>(buf: Seq<F>, w: int, i: int, j: int) -> F {
    buf[i * w + j]
}

/// Column `j` of a matrix.
pub open spec fn col<F>(m: Mat<F>, j: int) -> Seq<F> {
    Seq::new(m.len(), |i: int| m[i][j])
}

/// The matrix with `n` rows, `w` columns and the entry `x` everywhere.
pub open spec fn filled<F>(n: int, w: int, x: F) -> Mat<F> {
    Seq::new(n as nat, |i: int| Seq::new(w as nat, |j: int| x))
}

/// `new` is `old` but for the positions `lo <= x < hi`.
pub open spec fn same_outside<F>(old_buf: Seq<F>, new_buf: Seq<F>, lo: int, hi: int) -> bool {
    &&& new_buf.len() == old_buf.len()
    &&& forall|x: int|
        0 <= x < old_buf.len() && !(lo <= x < hi) ==> #[trigger] new_buf[x] == old_buf[x]
}

/// `init` with the products `x[0] * y[0]`, ..., `x[n - 1] * y[n - 1]` added one after the other,
/// each by one fused multiply-add.
pub open spec fn fma_chain<F: Float>(x: Seq<F>, y: Seq<F>, init: F, n: int) -> F
    decreases n,
{
    if n <= 0 {
        init
    } else {
        fma(x[n - 1], y[n - 1], fma_chain(x, y, init, n - 1))
    }
}

/// `init` with `x[0]`, ..., `x[n - 1]` added one after the other.
pub open spec fn plus_chain<F: Float>(x: Seq<F>, init: F, n: int) -> F
    decreases n,
{
    if n <= 0 {
        init
    } else {
        plus(plus_chain(x, init, n - 1), x[n - 1])
    }
}

/// The products at positions `l`, `4 + l`, ..., `4 * (c - 1) + l`, added up.
pub open spec fn lane<F: Float>(a: Seq<F>, b: Seq<F>, l: int, c: int) -> F
    decreases c,
{
    if c <= 0 {
        zero()
    } else {
        fma(a[4 * (c - 1) + l], b[4 * (c - 1) + l], lane(a, b, l, c - 1))
    }
}

/// The smaller of two integers.
pub open spec fn least(a: int, b: int) -> int {
    if a <= b {
        a
    } else {
        b
    }
}

/// The dot product, in four lanes over the whole groups of four, then one by one over what is
/// left of each vector behind its last whole group.
pub open spec fn dot_of<F: Float>(a: Seq<F>, b: Seq<F>) -> F {
    let (ca, cb) = (a.len() as int / 4, b.len() as int / 4);
    let c = least(ca, cb);
    let lanes = plus(
        plus(lane(a, b, 0, c), lane(a, b, 1, c)),
        plus(lane(a, b, 2, c), lane(a, b, 3, c)),
    );
    fma_chain(
        a.skip(4 * ca),
        b.skip(4 * cb),
        lanes,
        least(a.len() - 4 * ca, b.len() - 4 * cb),
    )
}

/// A linear layer: the dot product of `x` with each row of the weight matrix.
pub open spec fn linear<F: Float>(x: Seq<F>, w: Mat<F>) -> Seq<F> {
    Seq::new(w.len(), |o: int| dot_of(x, w[o]))
}

/// `c + a * b`
pub open spec fn ab_acc<F: Float>(a: Mat<F>, b: Mat<F>, c: Mat<F>) -> Mat<F> {
    Seq::new(
        c.len(),
        |i: int|
            Seq::new(
                c[i].len(),
                |j: int| fma_chain(a[i], col(b, j), c[i][j], b.len() as int),
            ),
    )
}

/// `c + a^T * b`
pub open spec fn atb_acc<F: Float>(a: Mat<F>, b: Mat<F>, c: Mat<F>) -> Mat<F> {
    Seq::new(
        c.len(),
        |o: int|
            Seq::new(
                c[o].len(),
                |j: int| fma_chain(col(a, o), col(b, j), c[o][j], b.len() as int),
            ),
    )
}

/// A row of a buffer, entry by entry.
pub proof fn lemma_row_entry<F>(buf: Seq<F>, i: int, j: int, n: int, w: int)
    requires
        0 <= i < n,
        0 <= j < w,
        n * w <= buf.len(),
    ensures
        row_of(buf, i, w).len() == w,
        row_of(buf, i, w)[j] == cell(buf, w, i, j),
        0 <= i * w + j < buf.len(),
{
    lemma_cell(i, j, n, w);
}

/// The length of a row.
pub proof fn lemma_row_len<F>(buf: Seq<F>, i: int, n: int, w: int)
    requires
        0 <= i < n,
        0 <= w,
        n * w <= buf.len(),
    ensures
        row_of(buf, i, w).len() == w,
        0 <= i * w,
        i * w + w == (i + 1) * w,
        (i + 1) * w <= buf.len(),
{
    assert((i + 1) * w == i * w + w) by (nonlinear_arith);
    assert((i + 1) * w <= n * w) by (nonlinear_arith)
        requires
            i + 1 <= n,
            0 <= w,
    ;
    assert(0 <= i * w) by (nonlinear_arith)
        requires
            0 <= i,
            0 <= w,
    ;
}

/// A buffer whose cells are the entries of a matrix holds that matrix.
pub proof fn lemma_mat_from_cells<F>(buf: Seq<F>, n: int, w: int, m: Mat<F>)
    requires
        0 <= n,
        0 <= w,
        n * w <= buf.len(),
        m.len() == n,
        forall|i: int| 0 <= i < n ==> (#[trigger] m[i]).len() == w,
        forall|i: int, j: int|
            0 <= i < n && 0 <= j < w ==> #[trigger] cell(buf, w, i, j) == m[i][j],
    ensures
        mat(buf, n, w) == m,
{
    assert forall|i: int| 0 <= i < n implies row_of(buf, i, w) == #[trigger] m[i] by {
        lemma_row_len(buf, i, n, w);
        assert forall|j: int| 0 <= j < w implies #[trigger] row_of(buf, i, w)[j] == m[i][j] by {
            lemma_row_entry(buf, i, j, n, w);
            assert(cell(buf, w, i, j) == m[i][j]);
        }
        assert(row_of(buf, i, w) =~= m[i]);
    }
    assert(mat(buf, n, w) =~= m);
}

/// What an update of one cell does to the cells.
pub proof fn lemma_update_cell<F>(buf: Seq<F>, n: int, w: int, i: int, j: int, v: F)
    requires
        0 <= i < n,
        0 <= j < w,
        n * w <= buf.len(),
    ensures
        0 <= i * w + j < n * w,
        forall|r: int, c: int|
            0 <= r < n && 0 <= c < w ==> #[trigger] cell(buf.update(i * w + j, v), w, r, c) == (if r
                == i && c == j {
                v
            } else {
                cell(buf, w, r, c)
            }),
{
    lemma_cell(i, j, n, w);
    assert forall|r: int, c: int| 0 <= r < n && 0 <= c < w implies #[trigger] cell(
        buf.update(i * w + j, v),
        w,
        r,
        c,
    ) == (if r == i && c == j {
        v
    } else {
        cell(buf, w, r, c)
    }) by {
        lemma_cell(r, c, n, w);
    }
}

/// The value of a chain depends only on the entries that it reads.
pub proof fn lemma_fma_chain_same<F: Float>(
    x: Seq<F>,
    y: Seq<F>,
    x2: Seq<F>,
    y2: Seq<F>,
    init: F,
    n: int,
)
    requires
        forall|i: int| 0 <= i < n ==> #[trigger] x[i] == x2[i],
        forall|i: int| 0 <= i < n ==> #[trigger] y[i] == y2[i],
    ensures
        fma_chain(x, y, init, n) == fma_chain(x2, y2, init, n),
    decreases n,
{
    if n > 0 {
        lemma_fma_chain_same(x, y, x2, y2, init, n - 1);
    }
}

} // verus!
