//! Data movement on dense row-major buffers: copies, transposition, blocks
//! and row swaps. Nothing here computes on the elements, so the element type
//! is free.

use vstd::prelude::*;
use crate::layout::{
    at,
    col_of,
    lemma_offset_bound,
    lemma_offset_join,
    lemma_offset_order,
    lemma_offset_split,
    lemma_row_bound,
    offset,
    row_of,
};

verus! {

/// The linear index `k` lies in row `r` of a buffer with `w` columns.
pub open spec fn in_row(k: int, r: int, w: int) -> bool {
    r * w <= k < r * w + w
}

/// The window of rows `r_start..=r_end` and columns `c_start..=c_end` lies
/// inside an `n` by `m` matrix.
pub open spec fn block_inside(
    n: usize,
    m: usize,
    r_start: usize,
    r_end: usize,
    c_start: usize,
    c_end: usize,
) -> bool {
    r_start <= r_end < n && c_start <= c_end < m
}

/// The block of `rows` by `cols` cells of a row-major buffer with `w` columns
/// whose first cell is at row `r_start`, column `c_start`, as a row-major
/// buffer of its own.
pub open spec fn window<T>(
    buf: Seq<T>,
    w: int,
    r_start: int,
    c_start: int,
    rows: int,
    cols: int,
) -> Seq<T> {
    Seq::new(
        (rows * cols) as nat,
        |k: int| at(buf, r_start + row_of(k, cols), c_start + col_of(k, cols), w),
    )
}

/// The cell at row `i`, column `j` of a window is the cell of the buffer at
/// row `r_start + i`, column `c_start + j`.
pub proof fn lemma_window_at<T>(
    buf: Seq<T>,
    w: int,
    r_start: int,
    c_start: int,
    rows: int,
    cols: int,
    i: int,
    j: int,
)
    requires
        0 <= i < rows,
        0 <= j < cols,
    ensures
        0 <= offset(i, j, cols) < window(buf, w, r_start, c_start, rows, cols).len(),
        at(window(buf, w, r_start, c_start, rows, cols), i, j, cols) == at(
            buf,
            r_start + i,
            c_start + j,
            w,
        ),
{
    lemma_offset_bound(i, j, rows, cols);
    lemma_offset_split(i, j, cols);
}

/// The transpose of an `n` by `m` matrix, as an `m` by `n` row-major buffer.
pub open spec fn transposed<T>(buf: Seq<T>, n: int, m: int) -> Seq<T> {
    Seq::new((n * m) as nat, |k: int| at(buf, col_of(k, n), row_of(k, n), m))
}

/// The `n` by `n` identity matrix as a row-major buffer, with `one` on the
/// diagonal and `zero` elsewhere.
pub open spec fn identity_matrix<T>(n: int, zero: T, one: T) -> Seq<T> {
    Seq::new(
        (n * n) as nat,
        |k: int|
            if row_of(k, n) == col_of(k, n) {
                one
            } else {
                zero
            },
    )
}

/// The sequence of `len` copies of `value`.
pub open spec fn repeated<T>(len: int, value: T) -> Seq<T> {
    Seq::new(len as nat, |k: int| value)
}

/// A buffer of `len` copies of `value`.
pub(crate) fn filled<T: Copy>(len: usize, value: T) -> (out: Vec<T>)
    ensures
        out@ == repeated(len as int, value),
        out.len() == len,
        forall|q: int| 0 <= q < len ==> out[q] == value,
{
    let mut out: Vec<T> = Vec::new();
    let mut q: usize = 0;
    while q < len
        invariant
            q <= len,
            out.len() == q,
            forall|s: int| 0 <= s < q ==> out[s] == value,
        decreases len - q,
    {
        out.push(value);
        q += 1;
    }
    assert(out@ =~= repeated(len as int, value));
    out
}

/// A copy of the first `len` elements of a buffer.
pub(crate) fn prefix<T: Copy>(a: &[T], len: usize) -> (b: Vec<T>)
    requires
        len <= a.len(),
    ensures
        b@ == a@.subrange(0, len as int),
{
    let mut b: Vec<T> = Vec::new();
    let mut k: usize = 0;
    while k < len
        invariant
            k <= len <= a.len(),
            b@ == a@.subrange(0, k as int),
        decreases len - k,
    {
        b.push(a[k]);
        k += 1;
        assert(b@ =~= a@.subrange(0, k as int));
    }
    b
}

/// A copy of a buffer.
pub(crate) fn duplicate<T: Copy>(a: &[T]) -> (b: Vec<T>)
    ensures
        b@ == a@,
{
    let b = prefix(a, a.len());
    assert(a@.subrange(0, a.len() as int) =~= a@);
    b
}

/// Copies the first `n` elements of `a` over the first `n` elements of `b`.
pub fn copy<T: Copy>(a: &[T], b: &mut [T], n: usize)
    requires
        n <= a.len(),
        n <= old(b).len(),
    ensures
        final(b)@ == a@.subrange(0, n as int) + old(b)@.subrange(n as int, old(b)@.len() as int),
{
    let mut k: usize = 0;
    while k < n
        invariant
            k <= n,
            n <= a.len(),
            b@.len() == old(b)@.len(),
            n <= b@.len(),
            forall|q: int| 0 <= q < k ==> b@[q] == a@[q],
            forall|q: int| k <= q < b@.len() ==> b@[q] == old(b)@[q],
        decreases n - k,
    {
        b[k] = a[k];
        k += 1;
    }
    assert(b@ =~= a@.subrange(0, n as int) + old(b)@.subrange(n as int, old(b)@.len() as int));
}

/// Transposes an `n` by `m` matrix into an `m` by `n` one.
pub fn transpose<T: Copy>(a: &[T], n: usize, m: usize) -> (b: Vec<T>)
    requires
        n * m <= a.len(),
    ensures
        b@ == transposed(a@, n as int, m as int),
        b.len() == n * m,
        forall|i: int, j: int|
            0 <= i < n && 0 <= j < m ==> #[trigger] at(b@, j, i, n as int) == at(a@, i, j, m as int),
{
    let mut b: Vec<T> = Vec::new();
    let mut j: usize = 0;
    while j < m
        invariant
            j <= m,
            n * m <= a.len(),
            b.len() == j * n,
            forall|i: int, c: int|
                0 <= i < n && 0 <= c < j ==> #[trigger] at(b@, c, i, n as int) == at(
                    a@,
                    i,
                    c,
                    m as int,
                ),
        decreases m - j,
    {
        let mut i: usize = 0;
        while i < n
            invariant
                j < m,
                i <= n,
                n * m <= a.len(),
                b.len() == j * n + i,
                forall|r: int, c: int|
                    0 <= r < n && 0 <= c < j ==> #[trigger] at(b@, c, r, n as int) == at(
                        a@,
                        r,
                        c,
                        m as int,
                    ),
                forall|r: int| 0 <= r < i ==> #[trigger] at(b@, j as int, r, n as int) == at(
                    a@,
                    r,
                    j as int,
                    m as int,
                ),
            decreases n - i,
        {
            proof {
                lemma_offset_bound(i as int, j as int, n as int, m as int);
            }
            let ghost prior = b@;
            b.push(a[i * m + j]);
            proof {
                assert forall|r: int, c: int| 0 <= r < n && 0 <= c < j implies #[trigger] at(
                    b@,
                    c,
                    r,
                    n as int,
                ) == at(a@, r, c, m as int) by {
                    lemma_offset_bound(r, c, n as int, j as int);
                    lemma_offset_bound(c, r, j as int, n as int);
                    assert(at(prior, c, r, n as int) == at(a@, r, c, m as int));
                }
                assert forall|r: int| 0 <= r < i + 1 implies #[trigger] at(
                    b@,
                    j as int,
                    r,
                    n as int,
                ) == at(a@, r, j as int, m as int) by {
                    if r < i {
                        assert(at(prior, j as int, r, n as int) == at(a@, r, j as int, m as int));
                    }
                }
            }
            i += 1;
        }
        j += 1;
        assert(j * n == (j - 1) * n + n) by (nonlinear_arith);
    }
    assert(m * n == n * m) by (nonlinear_arith);
    proof {
        let t = transposed(a@, n as int, m as int);
        assert forall|k: int| 0 <= k < b@.len() implies b@[k] == t[k] by {
            lemma_offset_join(k, n as int);
            lemma_row_bound(k, m as int, n as int);
            assert(b@[k] == at(b@, row_of(k, n as int), col_of(k, n as int), n as int));
        }
        assert(b@ =~= t);
    }
    b
}

/// Extracts the window of rows `r_start..=r_end` and columns
/// `c_start..=c_end` of an `n` by `m` matrix as a matrix of its own.
pub fn sub_mat<T: Copy>(
    a: &[T],
    n: usize,
    m: usize,
    r_start: usize,
    r_end: usize,
    c_start: usize,
    c_end: usize,
) -> (b: Vec<T>)
    requires
        n * m <= a.len(),
        block_inside(n, m, r_start, r_end, c_start, c_end),
    ensures
        b@ == window(
            a@,
            m as int,
            r_start as int,
            c_start as int,
            r_end - r_start + 1,
            c_end - c_start + 1,
        ),
        forall|i: int, j: int|
            0 <= i <= r_end - r_start && 0 <= j <= c_end - c_start ==> #[trigger] at(
                b@,
                i,
                j,
                c_end - c_start + 1,
            ) == at(a@, r_start + i, c_start + j, m as int),
{
    let rows: usize = r_end - r_start + 1;
    let cols: usize = c_end - c_start + 1;
    let mut b: Vec<T> = Vec::new();
    let mut i: usize = 0;
    while i < rows
        invariant
            i <= rows,
            rows == r_end - r_start + 1,
            cols == c_end - c_start + 1,
            n * m <= a.len(),
            block_inside(n, m, r_start, r_end, c_start, c_end),
            b.len() == i * cols,
            forall|r: int, c: int|
                0 <= r < i && 0 <= c < cols ==> #[trigger] at(b@, r, c, cols as int) == at(
                    a@,
                    r_start + r,
                    c_start + c,
                    m as int,
                ),
        decreases rows - i,
    {
        let mut j: usize = 0;
        while j < cols
            invariant
                i < rows,
                j <= cols,
                rows == r_end - r_start + 1,
                cols == c_end - c_start + 1,
                n * m <= a.len(),
                block_inside(n, m, r_start, r_end, c_start, c_end),
                b.len() == i * cols + j,
                forall|r: int, c: int|
                    0 <= r < i && 0 <= c < cols ==> #[trigger] at(b@, r, c, cols as int) == at(
                        a@,
                        r_start + r,
                        c_start + c,
                        m as int,
                    ),
                forall|c: int|
                    0 <= c < j ==> #[trigger] at(b@, i as int, c, cols as int) == at(
                        a@,
                        r_start + i,
                        c_start + c,
                        m as int,
                    ),
            decreases cols - j,
        {
            proof {
                lemma_offset_bound(r_start + i, c_start + j, n as int, m as int);
            }
            let ghost prior = b@;
            b.push(a[(r_start + i) * m + (c_start + j)]);
            proof {
                assert forall|r: int, c: int| 0 <= r < i && 0 <= c < cols implies #[trigger] at(
                    b@,
                    r,
                    c,
                    cols as int,
                ) == at(a@, r_start + r, c_start + c, m as int) by {
                    lemma_offset_bound(r, c, i as int, cols as int);
                    assert(at(prior, r, c, cols as int) == at(
                        a@,
                        r_start + r,
                        c_start + c,
                        m as int,
                    ));
                }
                assert forall|c: int| 0 <= c < j + 1 implies #[trigger] at(
                    b@,
                    i as int,
                    c,
                    cols as int,
                ) == at(a@, r_start + i, c_start + c, m as int) by {
                    if c < j {
                        assert(at(prior, i as int, c, cols as int) == at(
                            a@,
                            r_start + i,
                            c_start + c,
                            m as int,
                        ));
                    }
                }
            }
            j += 1;
        }
        i += 1;
        assert(i * cols == (i - 1) * cols + cols) by (nonlinear_arith);
    }
    proof {
        let view = window(a@, m as int, r_start as int, c_start as int, rows as int, cols as int);
        assert forall|k: int| 0 <= k < b@.len() implies b@[k] == view[k] by {
            lemma_offset_join(k, cols as int);
            lemma_row_bound(k, rows as int, cols as int);
            assert(b@[k] == at(b@, row_of(k, cols as int), col_of(k, cols as int), cols as int));
        }
        assert(b@ =~= view);
    }
    b
}

/// Writes the block `b`, a matrix with `r_end - r_start + 1` rows and
/// `c_end - c_start + 1` columns, over the window of rows `r_start..=r_end`
/// and columns `c_start..=c_end` of the `n` by `m` matrix `a`.
pub fn copy_sub_mat<T: Copy>(
    a: &mut [T],
    b: &[T],
    n: usize,
    m: usize,
    r_start: usize,
    r_end: usize,
    c_start: usize,
    c_end: usize,
)
    requires
        n * m <= old(a).len(),
        block_inside(n, m, r_start, r_end, c_start, c_end),
        (r_end - r_start + 1) * (c_end - c_start + 1) <= b.len(),
    ensures
        final(a)@.len() == old(a)@.len(),
        forall|i: int, j: int|
            0 <= i < n && 0 <= j < m ==> #[trigger] at(final(a)@, i, j, m as int) == (if r_start
                <= i <= r_end && c_start <= j <= c_end {
                at(b@, i - r_start, j - c_start, c_end - c_start + 1)
            } else {
                at(old(a)@, i, j, m as int)
            }),
        forall|k: int| n * m <= k < old(a)@.len() ==> final(a)@[k] == old(a)@[k],
{
    let rows: usize = r_end - r_start + 1;
    let cols: usize = c_end - c_start + 1;
    let mut i: usize = 0;
    while i < rows
        invariant
            i <= rows,
            rows == r_end - r_start + 1,
            cols == c_end - c_start + 1,
            a.len() == old(a).len(),
            n * m <= a.len(),
            block_inside(n, m, r_start, r_end, c_start, c_end),
            rows * cols <= b.len(),
            forall|k: int| n * m <= k < a@.len() ==> a@[k] == old(a)@[k],
            forall|r: int, c: int|
                0 <= r < n && 0 <= c < m ==> #[trigger] at(a@, r, c, m as int) == (if r_start <= r
                    < r_start + i && c_start <= c <= c_end {
                    at(b@, r - r_start, c - c_start, cols as int)
                } else {
                    at(old(a)@, r, c, m as int)
                }),
        decreases rows - i,
    {
        let mut j: usize = 0;
        while j < cols
            invariant
                i < rows,
                j <= cols,
                rows == r_end - r_start + 1,
                cols == c_end - c_start + 1,
                a.len() == old(a).len(),
                n * m <= a.len(),
                block_inside(n, m, r_start, r_end, c_start, c_end),
                rows * cols <= b.len(),
                forall|k: int| n * m <= k < a@.len() ==> a@[k] == old(a)@[k],
                forall|r: int, c: int|
                    0 <= r < n && 0 <= c < m ==> #[trigger] at(a@, r, c, m as int) == (if (r_start
                        <= r < r_start + i && c_start <= c <= c_end) || (r == r_start + i && c_start
                        <= c < c_start + j) {
                        at(b@, r - r_start, c - c_start, cols as int)
                    } else {
                        at(old(a)@, r, c, m as int)
                    }),
            decreases cols - j,
        {
            proof {
                lemma_offset_bound(r_start + i, c_start + j, n as int, m as int);
                lemma_offset_bound(i as int, j as int, rows as int, cols as int);
            }
            let ghost prior = a@;
            let ghost target = offset(r_start + i, c_start + j, m as int);
            a[(r_start + i) * m + (c_start + j)] = b[i * cols + j];
            proof {
                assert forall|r: int, c: int| 0 <= r < n && 0 <= c < m implies #[trigger] at(
                    a@,
                    r,
                    c,
                    m as int,
                ) == (if (r_start <= r < r_start + i && c_start <= c <= c_end) || (r == r_start + i
                    && c_start <= c < c_start + j + 1) {
                    at(b@, r - r_start, c - c_start, cols as int)
                } else {
                    at(old(a)@, r, c, m as int)
                }) by {
                    lemma_offset_bound(r, c, n as int, m as int);
                    lemma_offset_order(r, c, r_start + i, c_start + j, m as int);
                    lemma_offset_order(r_start + i, c_start + j, r, c, m as int);
                    assert(at(prior, r, c, m as int) == (if (r_start <= r < r_start + i && c_start
                        <= c <= c_end) || (r == r_start + i && c_start <= c < c_start + j) {
                        at(b@, r - r_start, c - c_start, cols as int)
                    } else {
                        at(old(a)@, r, c, m as int)
                    }));
                }
            }
            j += 1;
        }
        i += 1;
    }
}

/// Swaps rows `p` and `q` of a matrix with `m` columns.
pub fn swap_rows<T: Copy>(inp: &mut [T], m: usize, p: usize, q: usize)
    requires
        p * m + m <= old(inp).len(),
        q * m + m <= old(inp).len(),
    ensures
        final(inp)@.len() == old(inp)@.len(),
        forall|j: int|
            0 <= j < m ==> #[trigger] at(final(inp)@, p as int, j, m as int) == at(
                old(inp)@,
                q as int,
                j,
                m as int,
            ),
        forall|j: int|
            0 <= j < m ==> #[trigger] at(final(inp)@, q as int, j, m as int) == at(
                old(inp)@,
                p as int,
                j,
                m as int,
            ),
        forall|k: int|
            0 <= k < old(inp)@.len() && !in_row(k, p as int, m as int) && !in_row(
                k,
                q as int,
                m as int,
            ) ==> final(inp)@[k] == old(inp)@[k],
{
    let mut j: usize = 0;
    while j < m
        invariant
            j <= m,
            inp.len() == old(inp).len(),
            p * m + m <= inp.len(),
            q * m + m <= inp.len(),
            forall|c: int|
                0 <= c < j ==> #[trigger] at(inp@, p as int, c, m as int) == at(
                    old(inp)@,
                    q as int,
                    c,
                    m as int,
                ),
            forall|c: int|
                0 <= c < j ==> #[trigger] at(inp@, q as int, c, m as int) == at(
                    old(inp)@,
                    p as int,
                    c,
                    m as int,
                ),
            forall|c: int|
                j <= c < m ==> #[trigger] at(inp@, p as int, c, m as int) == at(
                    old(inp)@,
                    p as int,
                    c,
                    m as int,
                ),
            forall|c: int|
                j <= c < m ==> #[trigger] at(inp@, q as int, c, m as int) == at(
                    old(inp)@,
                    q as int,
                    c,
                    m as int,
                ),
            forall|k: int|
                0 <= k < inp@.len() && !in_row(k, p as int, m as int) && !in_row(
                    k,
                    q as int,
                    m as int,
                ) ==> inp@[k] == old(inp)@[k],
        decreases m - j,
    {
        assert(p * m >= 0 && q * m >= 0) by (nonlinear_arith)
            requires
                p >= 0,
                q >= 0,
                m >= 0,
        ;
        let ghost prior = inp@;
        let upper = inp[p * m + j];
        let lower = inp[q * m + j];
        inp[p * m + j] = lower;
        inp[q * m + j] = upper;
        proof {
            let pi = p as int;
            let qi = q as int;
            let mi = m as int;
            assert forall|c: int| 0 <= c < m implies #[trigger] at(inp@, pi, c, mi) == (if c == j {
                at(prior, qi, c, mi)
            } else {
                at(prior, pi, c, mi)
            }) by {
                lemma_offset_order(pi, c, qi, j as int, mi);
                lemma_offset_order(qi, j as int, pi, c, mi);
            }
            assert forall|c: int| 0 <= c < m implies #[trigger] at(inp@, qi, c, mi) == (if c == j {
                at(prior, pi, c, mi)
            } else {
                at(prior, qi, c, mi)
            }) by {
                lemma_offset_order(qi, c, pi, j as int, mi);
                lemma_offset_order(pi, j as int, qi, c, mi);
            }
            assert forall|k: int|
                0 <= k < inp@.len() && !in_row(k, pi, mi) && !in_row(k, qi, mi) implies inp@[k]
                == old(inp)@[k] by {
                assert(prior[k] == old(inp)@[k]);
            }
        }
        j += 1;
    }
}

/// The `n` by `n` matrix with `one` on the diagonal and `zero` elsewhere.
pub fn identity<T: Copy>(n: usize, zero: T, one: T) -> (q: Vec<T>)
    requires
        n * n <= usize::MAX,
    ensures
        q@ == identity_matrix(n as int, zero, one),
        q.len() == n * n,
        forall|i: int, j: int|
            0 <= i < n && 0 <= j < n ==> #[trigger] at(q@, i, j, n as int) == (if i == j {
                one
            } else {
                zero
            }),
{
    let mut q: Vec<T> = Vec::new();
    let mut i: usize = 0;
    while i < n
        invariant
            i <= n,
            n * n <= usize::MAX,
            q.len() == i * n,
            forall|r: int, c: int|
                0 <= r < i && 0 <= c < n ==> #[trigger] at(q@, r, c, n as int) == (if r == c {
                    one
                } else {
                    zero
                }),
        decreases n - i,
    {
        let mut j: usize = 0;
        while j < n
            invariant
                i < n,
                j <= n,
                n * n <= usize::MAX,
                q.len() == i * n + j,
                forall|r: int, c: int|
                    0 <= r < i && 0 <= c < n ==> #[trigger] at(q@, r, c, n as int) == (if r == c {
                        one
                    } else {
                        zero
                    }),
                forall|c: int|
                    0 <= c < j ==> #[trigger] at(q@, i as int, c, n as int) == (if i == c {
                        one
                    } else {
                        zero
                    }),
            decreases n - j,
        {
            let ghost prior = q@;
            proof {
                lemma_offset_bound(i as int, j as int, n as int, n as int);
            }
            q.push(if i == j { one } else { zero });
            proof {
                assert forall|r: int, c: int| 0 <= r < i && 0 <= c < n implies #[trigger] at(
                    q@,
                    r,
                    c,
                    n as int,
                ) == (if r == c {
                    one
                } else {
                    zero
                }) by {
                    lemma_offset_bound(r, c, i as int, n as int);
                    assert(at(prior, r, c, n as int) == (if r == c {
                        one
                    } else {
                        zero
                    }));
                }
                assert forall|c: int| 0 <= c < j + 1 implies #[trigger] at(
                    q@,
                    i as int,
                    c,
                    n as int,
                ) == (if i == c {
                    one
                } else {
                    zero
                }) by {
                    if c < j {
                        assert(at(prior, i as int, c, n as int) == (if i == c {
                            one
                        } else {
                            zero
                        }));
                    }
                }
            }
            j += 1;
        }
        i += 1;
        assert(i * n == (i - 1) * n + n) by (nonlinear_arith);
    }
    proof {
        let eye = identity_matrix(n as int, zero, one);
        assert forall|k: int| 0 <= k < q@.len() implies q@[k] == eye[k] by {
            lemma_offset_join(k, n as int);
            lemma_row_bound(k, n as int, n as int);
            assert(q@[k] == at(q@, row_of(k, n as int), col_of(k, n as int), n as int));
        }
        assert(q@ =~= eye);
    }
    q
}

} // verus!
