//! Rectangular blocks of a sparse matrix: extraction, injection and stacking.

use vstd::prelude::*;
use crate::error::MatrixError;
use crate::layout::{
    col_of,
    lemma_offset_bound,
    lemma_offset_join,
    lemma_offset_order,
    lemma_offset_split,
    lemma_row_bound,
    offset,
    row_of,
};
use crate::search::{ascending, binary_search_next};
use crate::sparse::algebra::{merge_union, merged};
use crate::sparse::matrix::{
    lemma_get_stored,
    lemma_strict_is_ascending,
    SparseMatrix,
    SparseView,
};

verus! {

/// The window of rows `r_start..=r_end` and columns `c_start..=c_end` is not
/// empty and is no taller and no wider than the matrix. It may hang over the
/// lower or the right edge; the part outside holds no entries.
pub open spec fn window_fits<T>(
    a: SparseView<T>,
    r_start: usize,
    r_end: usize,
    c_start: usize,
    c_end: usize,
) -> bool {
    &&& r_start <= r_end
    &&& c_start <= c_end
    &&& r_end - r_start + 1 <= a.rows
    &&& c_end - c_start + 1 <= a.cols
}

/// The linear key `k` of a matrix with `w` columns lies in the window.
pub open spec fn in_window(k: int, w: int, r_start: int, r_end: int, c_start: int, c_end: int) -> bool {
    &&& r_start <= row_of(k, w) <= r_end
    &&& c_start <= col_of(k, w) <= c_end
}

/// The key, relative to the window, of the cell that has key `k` in a matrix
/// with `w` columns.
pub open spec fn window_key(k: int, w: int, r_start: int, c_start: int, c_end: int) -> int {
    offset(row_of(k, w) - r_start, col_of(k, w) - c_start, c_end - c_start + 1)
}

/// The outcome of a selection pass: `o` holds exactly the entries of `a` that
/// lie in the window, re-keyed relative to it. `src[t]` is the position in `a`
/// of the entry at position `t` of `o`.
spec fn selects_window<T>(
    a: SparseView<T>,
    o: SparseView<T>,
    src: Seq<int>,
    upto: int,
    r_start: int,
    r_end: int,
    c_start: int,
    c_end: int,
) -> bool {
    &&& o.keys.len() == src.len()
    &&& o.values.len() == src.len()
    &&& forall|t: int|
        0 <= t < src.len() ==> {
            &&& 0 <= #[trigger] src[t] < upto
            &&& in_window(a.keys[src[t]] as int, a.cols as int, r_start, r_end, c_start, c_end)
            &&& o.keys[t] == window_key(a.keys[src[t]] as int, a.cols as int, r_start, c_start, c_end)
            &&& o.values[t] == a.values[src[t]]
        }
    &&& forall|s: int, t: int| 0 <= s < t < src.len() ==> src[s] < src[t]
    &&& forall|p: int|
        0 <= p < upto && in_window(
            #[trigger] a.keys[p] as int,
            a.cols as int,
            r_start,
            r_end,
            c_start,
            c_end,
        ) ==> src.contains(p)
}

/// Two keys in the window are ordered as their keys relative to the window.
proof fn lemma_window_key_order(
    k1: int,
    k2: int,
    w: int,
    r_start: int,
    r_end: int,
    c_start: int,
    c_end: int,
)
    requires
        0 <= k1,
        0 <= k2,
        0 < w,
        in_window(k1, w, r_start, r_end, c_start, c_end),
        in_window(k2, w, r_start, r_end, c_start, c_end),
    ensures
        k1 < k2 <==> window_key(k1, w, r_start, c_start, c_end) < window_key(
            k2,
            w,
            r_start,
            c_start,
            c_end,
        ),
        k1 == k2 <==> window_key(k1, w, r_start, c_start, c_end) == window_key(
            k2,
            w,
            r_start,
            c_start,
            c_end,
        ),
{
    let m = c_end - c_start + 1;
    lemma_offset_join(k1, w);
    lemma_offset_join(k2, w);
    lemma_offset_order(row_of(k1, w), col_of(k1, w), row_of(k2, w), col_of(k2, w), w);
    lemma_offset_order(row_of(k2, w), col_of(k2, w), row_of(k1, w), col_of(k1, w), w);
    lemma_offset_order(
        row_of(k1, w) - r_start,
        col_of(k1, w) - c_start,
        row_of(k2, w) - r_start,
        col_of(k2, w) - c_start,
        m,
    );
    lemma_offset_order(
        row_of(k2, w) - r_start,
        col_of(k2, w) - c_start,
        row_of(k1, w) - r_start,
        col_of(k1, w) - c_start,
        m,
    );
}

/// A finished selection pass gives a well-formed matrix whose entries are
/// those of the window.
proof fn lemma_selection_is_window<T>(
    a: SparseView<T>,
    o: SparseView<T>,
    src: Seq<int>,
    r_start: int,
    r_end: int,
    c_start: int,
    c_end: int,
)
    requires
        a.wf(),
        0 <= r_start <= r_end,
        0 <= c_start <= c_end,
        o.rows == r_end - r_start + 1,
        o.cols == c_end - c_start + 1,
        o.rows <= a.rows,
        o.cols <= a.cols,
        selects_window(a, o, src, a.keys.len() as int, r_start, r_end, c_start, c_end),
    ensures
        o.wf(),
        forall|i: int, j: int|
            0 <= i < o.rows && 0 <= j < o.cols ==> #[trigger] o.entry(i, j) == a.entry(
                r_start + i,
                c_start + j,
            ),
{
    let w = a.cols as int;
    let m = o.cols as int;
    assert(o.rows * o.cols <= a.rows * a.cols) by (nonlinear_arith)
        requires
            o.rows <= a.rows,
            o.cols <= a.cols,
    ;
    assert forall|s: int, t: int| 0 <= s < t < o.keys.len() implies o.keys[s] < o.keys[t] by {
        assert(a.keys[src[s]] < a.keys[src[t]]);
        lemma_window_key_order(
            a.keys[src[s]] as int,
            a.keys[src[t]] as int,
            w,
            r_start,
            r_end,
            c_start,
            c_end,
        );
    }
    assert forall|t: int| 0 <= t < o.keys.len() implies (#[trigger] o.keys[t]) < o.rows * o.cols by {
        let k = a.keys[src[t]] as int;
        lemma_offset_bound(row_of(k, w) - r_start, col_of(k, w) - c_start, o.rows as int, m);
    }
    assert(o.wf());
    assert forall|i: int, j: int| 0 <= i < o.rows && 0 <= j < o.cols implies #[trigger] o.entry(
        i,
        j,
    ) == a.entry(r_start + i, c_start + j) by {
        let ko = offset(i, j, m);
        let si = r_start + i;
        let sj = c_start + j;
        let ks = offset(si, sj, w);
        lemma_offset_split(i, j, m);
        if o.has(ko) {
            let t = o.position(ko);
            lemma_get_stored(o, t);
            let p = src[t];
            let kp = a.keys[p] as int;
            lemma_get_stored(a, p);
            lemma_offset_split(row_of(kp, w) - r_start, col_of(kp, w) - c_start, m);
            lemma_offset_join(kp, w);
            lemma_row_bound(kp, a.rows as int, w);
            assert(row_of(kp, w) == si);
            assert(col_of(kp, w) == sj);
            assert(kp == ks);
        } else if si < a.rows && sj < a.cols && a.has(ks) {
            let p = a.position(ks);
            lemma_get_stored(a, p);
            lemma_offset_split(si, sj, w);
            assert(in_window(a.keys[p] as int, w, r_start, r_end, c_start, c_end));
            let t = choose|t: int| 0 <= t < src.len() && src[t] == p;
            lemma_get_stored(o, t);
            assert(false);
        }
    }
}

/// Extracts the window of rows `r_start..=r_end` and columns `c_start..=c_end`
/// as a matrix of its own, with the entries re-keyed relative to the window.
pub fn get_sub_mat<T: Copy>(
    a: &SparseMatrix<T>,
    r_start: usize,
    r_end: usize,
    c_start: usize,
    c_end: usize,
) -> (res: Result<SparseMatrix<T>, MatrixError>)
    ensures
        match res {
            Ok(m) => {
                &&& window_fits(a@, r_start, r_end, c_start, c_end)
                &&& m@.wf()
                &&& m@.rows == r_end - r_start + 1
                &&& m@.cols == c_end - c_start + 1
                &&& forall|i: int, j: int|
                    0 <= i < m@.rows && 0 <= j < m@.cols ==> #[trigger] m@.entry(i, j) == a@.entry(
                        r_start + i,
                        c_start + j,
                    )
            },
            Err(e) => e == MatrixError::DimensionMismatch && !window_fits(
                a@,
                r_start,
                r_end,
                c_start,
                c_end,
            ),
        },
{
    let nrow = a.nrow();
    let ncol = a.ncol();
    let ak = a.keys();
    let ad = a.data();
    if r_end < r_start || c_end < c_start {
        return Err(MatrixError::DimensionMismatch);
    }
    if r_end - r_start >= nrow || c_end - c_start >= ncol {
        return Err(MatrixError::DimensionMismatch);
    }
    let n: usize = r_end - r_start + 1;
    let m: usize = c_end - c_start + 1;
    let na: usize = ak.len();
    let mut keys: Vec<usize> = Vec::new();
    let mut data: Vec<T> = Vec::new();
    let ghost mut src: Seq<int> = Seq::empty();
    let mut h: usize = na;
    let mut done: bool = true;
    proof {
        lemma_strict_is_ascending(ak@);
        assert(n * m <= nrow * ncol) by (nonlinear_arith)
            requires
                n <= nrow,
                m <= ncol,
        ;
    }
    if r_start < nrow && c_start < ncol {
        proof {
            lemma_offset_bound(r_start as int, c_start as int, nrow as int, ncol as int);
        }
        h = binary_search_next(ak.as_slice(), r_start * ncol + c_start);
        done = false;
        proof {
            assert forall|p: int| 0 <= p < h implies !in_window(
                #[trigger] ak[p] as int,
                ncol as int,
                r_start as int,
                r_end as int,
                c_start as int,
                c_end as int,
            ) by {
                let k = ak[p] as int;
                lemma_offset_join(k, ncol as int);
                lemma_offset_order(
                    row_of(k, ncol as int),
                    col_of(k, ncol as int),
                    r_start as int,
                    c_start as int,
                    ncol as int,
                );
            }
        }
    } else {
        proof {
            assert forall|p: int| 0 <= p < na implies !in_window(
                #[trigger] ak[p] as int,
                ncol as int,
                r_start as int,
                r_end as int,
                c_start as int,
                c_end as int,
            ) by {
                let k = ak[p] as int;
                lemma_offset_join(k, ncol as int);
                lemma_row_bound(k, nrow as int, ncol as int);
            }
        }
    }
    while h < na && !done
        invariant
            a@.wf(),
            ak@ == a@.keys,
            ad@ == a@.values,
            nrow == a@.rows,
            ncol == a@.cols,
            ncol > 0,
            na == ak.len(),
            r_start <= r_end,
            c_start <= c_end,
            n == r_end - r_start + 1,
            m == c_end - c_start + 1,
            n <= nrow,
            m <= ncol,
            n * m <= usize::MAX,
            h <= na,
            ascending(ak@),
            !done ==> r_start < nrow && c_start < ncol,
            !done ==> forall|p: int| h <= p < na ==> (#[trigger] ak[p]) >= r_start * ncol + c_start,
            selects_window(
                a@,
                SparseView { rows: n as nat, cols: m as nat, keys: keys@, values: data@ },
                src,
                h as int,
                r_start as int,
                r_end as int,
                c_start as int,
                c_end as int,
            ),
            done ==> forall|p: int|
                h <= p < na ==> !in_window(
                    #[trigger] ak[p] as int,
                    ncol as int,
                    r_start as int,
                    r_end as int,
                    c_start as int,
                    c_end as int,
                ),
        decreases (na - h) + (if done { 0int } else { 1int }),
    {
        let key: usize = ak[h];
        let i: usize = key / ncol;
        let j: usize = key % ncol;
        let ghost w = ncol as int;
        let ghost h0 = h as int;
        let ghost old_src = src;
        proof {
            lemma_offset_join(key as int, w);
            lemma_row_bound(key as int, nrow as int, w);
        }
        if i > r_end {
            done = true;
            proof {
                assert forall|p: int| h <= p < na implies !in_window(
                    #[trigger] ak[p] as int,
                    w,
                    r_start as int,
                    r_end as int,
                    c_start as int,
                    c_end as int,
                ) by {
                    let k = ak[p] as int;
                    assert(key <= k);
                    lemma_offset_join(k, w);
                    lemma_offset_order(row_of(k, w), col_of(k, w), i as int, j as int, w);
                }
            }
        } else if j >= c_start && j <= c_end {
            proof {
                assert(i >= r_start) by {
                    assert(ak[h0] >= r_start * ncol + c_start);
                    lemma_offset_order(i as int, j as int, r_start as int, c_start as int, w);
                }
                lemma_offset_bound((i - r_start) as int, (j - c_start) as int, n as int, m as int);
            }
            keys.push((i - r_start) * m + (j - c_start));
            data.push(ad[h]);
            proof {
                src = old_src.push(h0);
                assert(src[src.len() - 1] == h0);
                assert forall|p: int|
                    0 <= p < h0 + 1 && in_window(
                        #[trigger] ak[p] as int,
                        w,
                        r_start as int,
                        r_end as int,
                        c_start as int,
                        c_end as int,
                    ) implies src.contains(p) by {
                    if p < h0 {
                        assert(old_src.contains(p));
                        let t = choose|t: int| 0 <= t < old_src.len() && old_src[t] == p;
                        assert(src[t] == p);
                    } else {
                        assert(src[src.len() - 1] == p);
                    }
                }
            }
            h += 1;
        } else if j < c_start {
            proof {
                lemma_offset_bound(i as int, c_start as int, nrow as int, w);
            }
            let next = binary_search_next(ak.as_slice(), i * ncol + c_start);
            proof {
                assert(next > h) by {
                    if next <= h {
                        assert(ak[h0] >= i * ncol + c_start);
                    }
                }
                assert forall|p: int|
                    0 <= p < next && in_window(
                        #[trigger] ak[p] as int,
                        w,
                        r_start as int,
                        r_end as int,
                        c_start as int,
                        c_end as int,
                    ) implies src.contains(p) by {
                    if p >= h0 {
                        let k = ak[p] as int;
                        assert(key <= k);
                        lemma_offset_join(k, w);
                        lemma_offset_order(row_of(k, w), col_of(k, w), i as int, c_start as int, w);
                        lemma_offset_order(i as int, j as int, row_of(k, w), col_of(k, w), w);
                    }
                }
            }
            h = next;
        } else {
            if i + 1 >= nrow {
                done = true;
                proof {
                    assert forall|p: int| h <= p < na implies !in_window(
                        #[trigger] ak[p] as int,
                        w,
                        r_start as int,
                        r_end as int,
                        c_start as int,
                        c_end as int,
                    ) by {
                        let k = ak[p] as int;
                        assert(key <= k);
                        lemma_offset_join(k, w);
                        lemma_row_bound(k, nrow as int, w);
                        lemma_offset_order(i as int, j as int, row_of(k, w), col_of(k, w), w);
                    }
                }
            } else {
                proof {
                    lemma_offset_bound(i + 1, c_start as int, nrow as int, w);
                }
                let next = binary_search_next(ak.as_slice(), (i + 1) * ncol + c_start);
                proof {
                    lemma_offset_order(i as int, j as int, i + 1, c_start as int, w);
                    assert(next > h) by {
                        if next <= h {
                            assert(ak[h0] >= (i + 1) * ncol + c_start);
                        }
                    }
                    assert forall|p: int|
                        0 <= p < next && in_window(
                            #[trigger] ak[p] as int,
                            w,
                            r_start as int,
                            r_end as int,
                            c_start as int,
                            c_end as int,
                        ) implies src.contains(p) by {
                        if p >= h0 {
                            let k = ak[p] as int;
                            assert(key <= k);
                            lemma_offset_join(k, w);
                            lemma_offset_order(
                                row_of(k, w),
                                col_of(k, w),
                                i + 1,
                                c_start as int,
                                w,
                            );
                            lemma_offset_order(i as int, j as int, row_of(k, w), col_of(k, w), w);
                        }
                    }
                }
                h = next;
            }
        }
    }
    let ghost out = SparseView { rows: n as nat, cols: m as nat, keys: keys@, values: data@ };
    proof {
        assert(selects_window(
            a@,
            out,
            src,
            na as int,
            r_start as int,
            r_end as int,
            c_start as int,
            c_end as int,
        ));
        lemma_selection_is_window(
            a@,
            out,
            src,
            r_start as int,
            r_end as int,
            c_start as int,
            c_end as int,
        );
    }
    Ok(SparseMatrix::from_parts(n, m, keys, data))
}

/// The entries of one matrix stacked on top of another: the rows of `a`
/// first, the rows of `b` below them.
proof fn lemma_stacked_entries<T>(a: SparseView<T>, b: SparseView<T>, o: SparseView<T>)
    requires
        a.wf(),
        b.wf(),
        a.cols == b.cols,
        (a.rows + b.rows) * a.cols <= usize::MAX,
        o.rows == a.rows + b.rows,
        o.cols == a.cols,
        o.keys.len() == a.keys.len() + b.keys.len(),
        o.values == a.values + b.values,
        forall|t: int| 0 <= t < a.keys.len() ==> #[trigger] o.keys[t] == a.keys[t],
        forall|t: int|
            0 <= t < b.keys.len() ==> #[trigger] o.keys[a.keys.len() + t] == b.keys[t] + a.rows
                * a.cols,
    ensures
        o.wf(),
        forall|i: int, j: int|
            0 <= i < o.rows && 0 <= j < o.cols ==> #[trigger] o.entry(i, j) == (if i < a.rows {
                a.entry(i, j)
            } else {
                b.entry(i - a.rows, j)
            }),
{
    let na = a.keys.len() as int;
    let shift = (a.rows * a.cols) as int;
    let w = a.cols as int;
    assert((a.rows + b.rows) * a.cols == a.rows * a.cols + b.rows * a.cols) by (nonlinear_arith);
    assert forall|s: int, t: int| 0 <= s < t < o.keys.len() implies o.keys[s] < o.keys[t] by {
        if t < na {
            assert(a.keys[s] < a.keys[t]);
        } else if s < na {
            assert(o.keys[na + (t - na)] == b.keys[t - na] + shift);
        } else {
            assert(o.keys[na + (t - na)] == b.keys[t - na] + shift);
            assert(o.keys[na + (s - na)] == b.keys[s - na] + shift);
            assert(b.keys[s - na] < b.keys[t - na]);
        }
    }
    assert forall|t: int| 0 <= t < o.keys.len() implies (#[trigger] o.keys[t]) < o.rows * o.cols by {
        if t >= na {
            assert(o.keys[na + (t - na)] == b.keys[t - na] + shift);
        }
    }
    assert(o.wf());
    assert forall|i: int, j: int| 0 <= i < o.rows && 0 <= j < o.cols implies #[trigger] o.entry(
        i,
        j,
    ) == (if i < a.rows {
        a.entry(i, j)
    } else {
        b.entry(i - a.rows, j)
    }) by {
        let k = offset(i, j, w);
        if i < a.rows {
            lemma_offset_bound(i, j, a.rows as int, w);
            if a.has(k) {
                let p = a.position(k);
                lemma_get_stored(a, p);
                lemma_get_stored(o, p);
            } else if o.has(k) {
                let t = o.position(k);
                lemma_get_stored(o, t);
                if t >= na {
                    assert(o.keys[na + (t - na)] == b.keys[t - na] + shift);
                }
                assert(false);
            }
        } else {
            let kb = offset(i - a.rows, j, w);
            assert(k == kb + shift) by (nonlinear_arith)
                requires
                    k == i * w + j,
                    kb == (i - a.rows) * w + j,
                    shift == a.rows * w,
            ;
            lemma_offset_bound(i - a.rows, j, b.rows as int, w);
            if b.has(kb) {
                let p = b.position(kb);
                lemma_get_stored(b, p);
                assert(o.keys[na + p] == b.keys[p] + shift);
                lemma_get_stored(o, na + p);
            } else if o.has(k) {
                let t = o.position(k);
                lemma_get_stored(o, t);
                if t >= na {
                    assert(o.keys[na + (t - na)] == b.keys[t - na] + shift);
                    assert(b.keys[t - na] == kb);
                }
                assert(false);
            }
        }
    }
}

/// The stack of `a` on `b` has a shape whose row count and cell count fit in
/// `usize`.
pub open spec fn stack_fits<T>(a: SparseView<T>, b: SparseView<T>) -> bool {
    a.rows + b.rows <= usize::MAX && (a.rows + b.rows) * a.cols <= usize::MAX
}

/// Stacks `b` below `a`. Both must have the same number of columns.
pub fn vstack<T: Copy>(a: &SparseMatrix<T>, b: &SparseMatrix<T>) -> (res: Result<
    SparseMatrix<T>,
    MatrixError,
>)
    ensures
        match res {
            Ok(m) => {
                &&& a@.cols == b@.cols
                &&& stack_fits(a@, b@)
                &&& m@.wf()
                &&& m@.rows == a@.rows + b@.rows
                &&& m@.cols == a@.cols
                &&& forall|i: int, j: int|
                    0 <= i < m@.rows && 0 <= j < m@.cols ==> #[trigger] m@.entry(i, j) == (if i
                        < a@.rows {
                        a@.entry(i, j)
                    } else {
                        b@.entry(i - a@.rows, j)
                    })
            },
            Err(MatrixError::DimensionMismatch) => a@.cols != b@.cols,
            Err(MatrixError::TooLarge) => a@.cols == b@.cols && !stack_fits(a@, b@),
            Err(_) => false,
        },
{
    let ncol = a.ncol();
    if ncol != b.ncol() {
        return Err(MatrixError::DimensionMismatch);
    }
    let ak = a.keys();
    let ad = a.data();
    let bk = b.keys();
    let bd = b.data();
    let shift: usize = a.nrow() * ncol;
    let below: usize = b.nrow() * ncol;
    let nrow = match a.nrow().checked_add(b.nrow()) {
        Some(n) => n,
        None => { return Err(MatrixError::TooLarge); },
    };
    assert((a@.rows + b@.rows) * a@.cols == shift + below) by (nonlinear_arith)
        requires
            shift == a@.rows * a@.cols,
            below == b@.rows * a@.cols,
    ;
    if shift.checked_add(below).is_none() {
        return Err(MatrixError::TooLarge);
    }
    let na: usize = ak.len();
    let nb: usize = bk.len();
    let mut keys: Vec<usize> = Vec::new();
    let mut data: Vec<T> = Vec::new();
    let mut i: usize = 0;
    while i < na
        invariant
            ak@ == a@.keys,
            ad@ == a@.values,
            a@.wf(),
            na == ak.len(),
            i <= na,
            keys@ == ak@.subrange(0, i as int),
            data@ == ad@.subrange(0, i as int),
        decreases na - i,
    {
        keys.push(ak[i]);
        data.push(ad[i]);
        i += 1;
        assert(keys@ =~= ak@.subrange(0, i as int));
        assert(data@ =~= ad@.subrange(0, i as int));
    }
    assert(keys@ =~= ak@);
    assert(data@ =~= ad@);
    let mut j: usize = 0;
    while j < nb
        invariant
            ak@ == a@.keys,
            ad@ == a@.values,
            bk@ == b@.keys,
            bd@ == b@.values,
            b@.wf(),
            a@.wf(),
            na == ak.len(),
            nb == bk.len(),
            j <= nb,
            shift == a@.rows * a@.cols,
            below == b@.rows * b@.cols,
            shift + below <= usize::MAX,
            keys.len() == na + j,
            data@ == ad@ + bd@.subrange(0, j as int),
            forall|t: int| 0 <= t < na ==> #[trigger] keys[t] == ak[t],
            forall|t: int| 0 <= t < j ==> #[trigger] keys[na + t] == bk[t] + shift,
        decreases nb - j,
    {
        keys.push(bk[j] + shift);
        data.push(bd[j]);
        j += 1;
        assert(data@ =~= ad@ + bd@.subrange(0, j as int));
    }
    assert(bd@.subrange(0, nb as int) =~= bd@);
    proof {
        lemma_stacked_entries(
            a@,
            b@,
            SparseView { rows: nrow as nat, cols: ncol as nat, keys: keys@, values: data@ },
        );
    }
    Ok(SparseMatrix::from_parts(nrow, ncol, keys, data))
}

/// The window of rows `r_start..=r_end` and columns `c_start..=c_end` lies
/// inside `a` and has the shape of `b`.
pub open spec fn placement_fits<T>(
    a: SparseView<T>,
    b: SparseView<T>,
    r_start: usize,
    r_end: usize,
    c_start: usize,
    c_end: usize,
) -> bool {
    &&& r_start <= r_end < a.rows
    &&& c_start <= c_end < a.cols
    &&& b.rows == r_end - r_start + 1
    &&& b.cols == c_end - c_start + 1
}

/// The key in a matrix with `w` columns of the cell that has key `k` in a
/// block with `bw` columns placed with its first cell at row `r_start`, column
/// `c_start`.
pub open spec fn placed_key(k: int, bw: int, w: int, r_start: int, c_start: int) -> int {
    offset(row_of(k, bw) + r_start, col_of(k, bw) + c_start, w)
}

/// A block whose keys were moved to their place in a larger shape is a
/// well-formed matrix of that shape, with all entries in the window and the
/// block's entries at their places.
proof fn lemma_placed_block<T>(
    b: SparseView<T>,
    e: SparseView<T>,
    r_start: int,
    r_end: int,
    c_start: int,
    c_end: int,
)
    requires
        b.wf(),
        e.rows * e.cols <= usize::MAX,
        0 <= r_start <= r_end < e.rows,
        0 <= c_start <= c_end < e.cols,
        b.rows == r_end - r_start + 1,
        b.cols == c_end - c_start + 1,
        e.values == b.values,
        e.keys.len() == b.keys.len(),
        forall|t: int|
            0 <= t < b.keys.len() ==> #[trigger] e.keys[t] == placed_key(
                b.keys[t] as int,
                b.cols as int,
                e.cols as int,
                r_start,
                c_start,
            ),
    ensures
        e.wf(),
        forall|k: int| !in_window(k, e.cols as int, r_start, r_end, c_start, c_end) ==> e.get(k)
            == None::<T>,
        forall|i: int, j: int|
            0 <= i < b.rows && 0 <= j < b.cols ==> b.entry(i, j) == #[trigger] e.entry(
                r_start + i,
                c_start + j,
            ),
{
    let bw = b.cols as int;
    let w = e.cols as int;
    assert forall|t: int| 0 <= t < e.keys.len() implies {
        &&& in_window(#[trigger] e.keys[t] as int, w, r_start, r_end, c_start, c_end)
        &&& window_key(e.keys[t] as int, w, r_start, c_start, c_end) == b.keys[t]
        &&& e.keys[t] < e.rows * e.cols
    } by {
        let kb = b.keys[t] as int;
        lemma_offset_join(kb, bw);
        lemma_row_bound(kb, b.rows as int, bw);
        lemma_offset_split(row_of(kb, bw) + r_start, col_of(kb, bw) + c_start, w);
        lemma_offset_bound(row_of(kb, bw) + r_start, col_of(kb, bw) + c_start, e.rows as int, w);
    }
    assert forall|s: int, t: int| 0 <= s < t < e.keys.len() implies e.keys[s] < e.keys[t] by {
        assert(b.keys[s] < b.keys[t]);
        lemma_window_key_order(
            e.keys[s] as int,
            e.keys[t] as int,
            w,
            r_start,
            r_end,
            c_start,
            c_end,
        );
    }
    assert(e.wf());
    assert forall|k: int|
        !in_window(k, w, r_start, r_end, c_start, c_end) implies e.get(k) == None::<T> by {
        if e.has(k) {
            let t = e.position(k);
            assert(in_window(e.keys[t] as int, w, r_start, r_end, c_start, c_end));
        }
    }
    let src = Seq::new(e.keys.len(), |t: int| t);
    assert forall|p: int| 0 <= p < e.keys.len() implies src.contains(p) by {
        assert(src[p] == p);
    }
    assert(selects_window(e, b, src, e.keys.len() as int, r_start, r_end, c_start, c_end));
    lemma_selection_is_window(e, b, src, r_start, r_end, c_start, c_end);
}

/// Writes the block `b` into the window of rows `r_start..=r_end` and columns
/// `c_start..=c_end` of `a`. Inside the window the result has the entries of
/// `b` and nothing else; outside it has the entries of `a`.
pub fn copy<T: Copy>(
    a: &SparseMatrix<T>,
    b: &SparseMatrix<T>,
    r_start: usize,
    r_end: usize,
    c_start: usize,
    c_end: usize,
) -> (res: Result<SparseMatrix<T>, MatrixError>)
    ensures
        match res {
            Ok(m) => {
                &&& placement_fits(a@, b@, r_start, r_end, c_start, c_end)
                &&& m@.wf()
                &&& m@.rows == a@.rows
                &&& m@.cols == a@.cols
                &&& forall|i: int, j: int|
                    0 <= i < m@.rows && 0 <= j < m@.cols ==> #[trigger] m@.entry(i, j) == (if r_start
                        <= i <= r_end && c_start <= j <= c_end {
                        b@.entry(i - r_start, j - c_start)
                    } else {
                        a@.entry(i, j)
                    })
            },
            Err(e) => e == MatrixError::DimensionMismatch && !placement_fits(
                a@,
                b@,
                r_start,
                r_end,
                c_start,
                c_end,
            ),
        },
{
    let nrow = a.nrow();
    let ncol = a.ncol();
    let bcol = b.ncol();
    if r_end < r_start || c_end < c_start || r_end >= nrow || c_end >= ncol {
        return Err(MatrixError::DimensionMismatch);
    }
    if b.nrow() != r_end - r_start + 1 || bcol != c_end - c_start + 1 {
        return Err(MatrixError::DimensionMismatch);
    }
    let bk = b.keys();
    let bd = b.data();
    let nb: usize = bk.len();
    let mut placed: Vec<usize> = Vec::new();
    let mut values: Vec<T> = Vec::new();
    let mut t: usize = 0;
    while t < nb
        invariant
            b@.wf(),
            bk@ == b@.keys,
            bd@ == b@.values,
            nb == bk.len(),
            t <= nb,
            bcol == b@.cols,
            bcol > 0,
            nrow * ncol <= usize::MAX,
            r_start <= r_end < nrow,
            c_start <= c_end < ncol,
            b@.rows == r_end - r_start + 1,
            b@.cols == c_end - c_start + 1,
            placed.len() == t,
            values@ == bd@.subrange(0, t as int),
            forall|s: int|
                0 <= s < t ==> #[trigger] placed[s] == placed_key(
                    bk[s] as int,
                    bcol as int,
                    ncol as int,
                    r_start as int,
                    c_start as int,
                ),
        decreases nb - t,
    {
        let key: usize = bk[t];
        let r: usize = key / bcol;
        let c: usize = key % bcol;
        proof {
            lemma_offset_join(key as int, bcol as int);
            lemma_row_bound(key as int, b@.rows as int, bcol as int);
            lemma_offset_bound(r + r_start, c + c_start, nrow as int, ncol as int);
        }
        placed.push((r + r_start) * ncol + (c + c_start));
        values.push(bd[t]);
        t += 1;
        assert(values@ =~= bd@.subrange(0, t as int));
    }
    assert(bd@.subrange(0, nb as int) =~= bd@);
    let ghost e = SparseView { rows: nrow as nat, cols: ncol as nat, keys: placed@, values: values@ };
    proof {
        lemma_placed_block(
            b@,
            e,
            r_start as int,
            r_end as int,
            c_start as int,
            c_end as int,
        );
    }
    let block = SparseMatrix::from_parts(nrow, ncol, placed, values);
    let outside = |k: usize| -> (yes: bool)
        ensures
            yes == !in_window(
                k as int,
                ncol as int,
                r_start as int,
                r_end as int,
                c_start as int,
                c_end as int,
            ),
        {
            let r: usize = k / ncol;
            let c: usize = k % ncol;
            r < r_start || r > r_end || c < c_start || c > c_end
        };
    let newer = |u: T, v: T| -> (w: Option<T>)
        ensures
            w == Some(v),
        { Some(v) };
    let same = |v: T| -> (w: T)
        ensures
            w == v,
        { v };
    let m = merge_union(a, &block, outside, newer, same);
    proof {
        assert forall|i: int, j: int| 0 <= i < m@.rows && 0 <= j < m@.cols implies #[trigger] m@.entry(
            i,
            j,
        ) == (if r_start <= i <= r_end && c_start <= j <= c_end {
            b@.entry(i - r_start, j - c_start)
        } else {
            a@.entry(i, j)
        }) by {
            let k = offset(i, j, ncol as int);
            lemma_offset_split(i, j, ncol as int);
            lemma_offset_bound(i, j, nrow as int, ncol as int);
            assert(merged(outside, newer, same, k, a@.get(k), e.get(k), m@.get(k)));
            if r_start <= i <= r_end && c_start <= j <= c_end {
                assert(b@.entry(i - r_start, j - c_start) == e.entry(
                    r_start + (i - r_start),
                    c_start + (j - c_start),
                ));
            }
        }
    }
    Ok(m)
}

} // verus!
