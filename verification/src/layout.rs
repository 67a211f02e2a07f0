//! Row-major linear indices: the cell at row `i`, column `j` of a matrix with
//! `w` columns lives at `i * w + j`.

use vstd::prelude::*;
use vstd::arithmetic::div_mod::{
    lemma_fundamental_div_mod,
    lemma_fundamental_div_mod_converse,
    lemma_mod_bound,
};

verus! {

/// The linear index of row `i`, column `j` in a matrix with `w` columns.
pub open spec fn offset(i: int, j: int, w: int) -> int {
    i * w + j
}

/// The row of the linear index `k` in a matrix with `w` columns.
pub open spec fn row_of(k: int, w: int) -> int {
    k / w
}

/// The column of the linear index `k` in a matrix with `w` columns.
pub open spec fn col_of(k: int, w: int) -> int {
    k % w
}

/// The element at row `i`, column `j` of a row-major buffer with `w` columns.
pub open spec fn at<T>(buf: Seq<T>, i: int, j: int, w: int) -> T {
    buf[offset(i, j, w)]
}

/// How many cells of row `r` come before the linear index `f` in a matrix
/// with `w` columns: all of them for a row above that of `f`, none for a row
/// below it.
pub open spec fn cells_before(f: int, w: int, r: int) -> int {
    if w <= 0 {
        0
    } else if r < row_of(f, w) {
        w
    } else if r == row_of(f, w) {
        col_of(f, w)
    } else {
        0
    }
}

/// The smaller of two sizes.
pub open spec fn smaller(n: int, m: int) -> int {
    if n <= m {
        n
    } else {
        m
    }
}

/// The larger of two sizes.
pub open spec fn larger(n: int, m: int) -> int {
    if n < m {
        m
    } else {
        n
    }
}

/// A cell inside an `h` by `w` matrix has a linear index below `h * w`.
pub proof fn lemma_offset_bound(i: int, j: int, h: int, w: int)
    requires
        0 <= i < h,
        0 <= j < w,
    ensures
        0 <= offset(i, j, w) < h * w,
        0 <= i * w,
        i * w + w <= h * w,
{
    assert(0 <= i * w && i * w + w <= h * w) by (nonlinear_arith)
        requires
            0 <= i < h,
            0 < w,
    ;
}

/// Row and column are recovered from the linear index of a cell.
pub proof fn lemma_offset_split(i: int, j: int, w: int)
    requires
        0 <= j < w,
    ensures
        row_of(offset(i, j, w), w) == i,
        col_of(offset(i, j, w), w) == j,
{
    lemma_fundamental_div_mod_converse(i * w + j, w, i, j);
}

/// A linear index is the index of the cell at its row and column.
pub proof fn lemma_offset_join(k: int, w: int)
    requires
        0 <= k,
        0 < w,
    ensures
        offset(row_of(k, w), col_of(k, w), w) == k,
        0 <= col_of(k, w) < w,
        0 <= row_of(k, w),
{
    lemma_fundamental_div_mod(k, w);
    lemma_mod_bound(k, w);
    assert(w * (k / w) == (k / w) * w) by (nonlinear_arith);
    if k / w < 0 {
        assert((k / w) * w <= -w) by (nonlinear_arith)
            requires
                k / w <= -1,
                w > 0,
        ;
    }
}

/// A linear index below `h * w` lies in a row below `h`.
pub proof fn lemma_row_bound(k: int, h: int, w: int)
    requires
        0 <= k < h * w,
        0 < w,
    ensures
        0 <= row_of(k, w) < h,
{
    lemma_offset_join(k, w);
    let r = row_of(k, w);
    if r >= h {
        assert(r * w >= h * w) by (nonlinear_arith)
            requires
                r >= h,
                w > 0,
        ;
    }
}

/// Linear indices order cells by row first and by column within a row.
pub proof fn lemma_offset_order(i1: int, j1: int, i2: int, j2: int, w: int)
    requires
        0 <= j1 < w,
        0 <= j2 < w,
    ensures
        offset(i1, j1, w) < offset(i2, j2, w) <==> (i1 < i2 || (i1 == i2 && j1 < j2)),
{
    if i1 < i2 {
        assert(i1 * w + w <= i2 * w) by (nonlinear_arith)
            requires
                i1 < i2,
                w > 0,
        ;
    } else if i2 < i1 {
        assert(i2 * w + w <= i1 * w) by (nonlinear_arith)
            requires
                i2 < i1,
                w > 0,
        ;
    }
}

/// The cells of row `r` from `cells_before(g, w, r)` up to
/// `cells_before(f, w, r)` are those whose linear index is at least `g` and
/// below `f`.
pub proof fn lemma_cells_before(g: int, f: int, w: int, r: int, k: int)
    requires
        0 <= g <= f,
        0 < w,
        0 <= r,
        0 <= k < w,
    ensures
        0 <= cells_before(g, w, r) <= cells_before(f, w, r) <= w,
        cells_before(g, w, r) <= k < cells_before(f, w, r) <==> g <= offset(r, k, w) < f,
{
    lemma_offset_join(g, w);
    lemma_offset_join(f, w);
    lemma_offset_order(row_of(g, w), col_of(g, w), row_of(f, w), col_of(f, w), w);
    lemma_offset_order(row_of(f, w), col_of(f, w), row_of(g, w), col_of(g, w), w);
    lemma_offset_order(r, k, row_of(g, w), col_of(g, w), w);
    lemma_offset_order(row_of(g, w), col_of(g, w), r, k, w);
    lemma_offset_order(r, k, row_of(f, w), col_of(f, w), w);
    lemma_offset_order(row_of(f, w), col_of(f, w), r, k, w);
}

} // verus!
