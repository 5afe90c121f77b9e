//! Facts about positions in flat row-major buffers.
use vstd::prelude::*;

verus! {

/// Cell `(i, j)` of an `n` by `w` row-major buffer lies inside it, and its position gives back
/// its row and its column.
pub proof fn lemma_cell(i: int, j: int, n: int, w: int)
    requires
        0 <= i < n,
        0 <= j < w,
    ensures
        0 <= i * w <= i * w + j < (i + 1) * w <= n * w,
        (i + 1) * w == i * w + w,
        (i * w + j) / w == i,
        (i * w + j) % w == j,
{
    assert((i + 1) * w == i * w + w) by (nonlinear_arith);
    assert((i + 1) * w <= n * w) by (nonlinear_arith)
        requires
            i + 1 <= n,
            0 < w,
    ;
    assert(0 <= i * w) by (nonlinear_arith)
        requires
            0 <= i,
            0 < w,
    ;
    vstd::arithmetic::div_mod::lemma_fundamental_div_mod_converse(i * w + j, w, i, j);
}

/// A position inside an `n` by `w` row-major buffer is the position of its own row and column.
pub proof fn lemma_position(x: int, n: int, w: int)
    requires
        0 <= x < n * w,
        0 <= w,
    ensures
        0 < w,
        0 <= x / w < n,
        0 <= x % w < w,
        x == (x / w) * w + x % w,
{
    assert(0 < w) by (nonlinear_arith)
        requires
            0 <= x < n * w,
            0 <= w,
    ;
    vstd::arithmetic::div_mod::lemma_fundamental_div_mod(x, w);
    assert(w * (x / w) == (x / w) * w) by (nonlinear_arith);
    assert(0 <= x / w < n) by (nonlinear_arith)
        requires
            0 <= x < n * w,
            0 < w,
            x == (x / w) * w + x % w,
            0 <= x % w < w,
    ;
}

/// Rows follow one another without overlap.
pub proof fn lemma_rows_apart(i: int, j: int, w: int)
    requires
        0 <= i < j,
        0 <= w,
    ensures
        0 <= i * w,
        i * w + w == (i + 1) * w,
        (i + 1) * w <= j * w,
{
    assert(0 <= i * w) by (nonlinear_arith)
        requires
            0 <= i,
            0 <= w,
    ;
    assert(i * w + w == (i + 1) * w) by (nonlinear_arith);
    assert((i + 1) * w <= j * w) by (nonlinear_arith)
        requires
            i + 1 <= j,
            0 <= w,
    ;
}

} // verus!
