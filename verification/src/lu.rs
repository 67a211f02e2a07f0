//! LU decomposition with partial pivoting by Gaussian elimination.
//!
//! The arithmetic is the caller's. `greater(x, best)` says whether the
//! candidate `x` beats the best pivot found so far; `is_zero(x)` says whether
//! an element needs no elimination; `divide(x, pivot)` gives the elimination
//! factor; `eliminate(x, h, y)` gives the element `x` with `h` times the
//! pivot row's element `y` taken off.

use vstd::prelude::*;
use crate::dense::{filled, identity, identity_matrix, in_row, prefix, repeated, swap_rows};
use crate::layout::{
    at,
    lemma_offset_bound,
    lemma_offset_join,
    lemma_offset_order,
    lemma_offset_split,
    lemma_row_bound,
    offset,
    smaller,
};
use crate::rows::reduce_row;

verus! {

/// The four operations may be called on all arguments.
pub open spec fn elimination_callable<
    T,
    C: Fn(T, T) -> bool,
    Z: Fn(T) -> bool,
    D: Fn(T, T) -> T,
    E: Fn(T, T, T) -> T,
>(greater: C, is_zero: Z, divide: D, eliminate: E) -> bool {
    &&& forall|x: T, best: T| call_requires(greater, (x, best))
    &&& forall|x: T| call_requires(is_zero, (x,))
    &&& forall|x: T, pivot: T| call_requires(divide, (x, pivot))
    &&& forall|x: T, h: T, y: T| call_requires(eliminate, (x, h, y))
}

/// One step of the scan for a pivot, at the candidate `x` in row `i`: the
/// candidate and its row replace the best so far where `greater` said yes,
/// and the best stays where it said no.
pub open spec fn scan_step<T, C: Fn(T, T) -> bool>(
    greater: C,
    x: T,
    i: int,
    prev: (T, int),
    next: (T, int),
) -> bool {
    ||| call_ensures(greater, (x, prev.0), true) && next == (x, i)
    ||| call_ensures(greater, (x, prev.0), false) && next == prev
}

/// The scan for the pivot of column `j` in the rows from `j` on of the matrix
/// `u`, which has `m` columns. `bests` lists the best candidate and its row
/// after every row, from `lowest` and row `j` on.
pub open spec fn pivot_scan<T, C: Fn(T, T) -> bool>(
    greater: C,
    u: Seq<T>,
    m: int,
    j: int,
    lowest: T,
    bests: Seq<(T, int)>,
) -> bool {
    &&& bests.len() >= 1
    &&& bests[0] == (lowest, j)
    &&& forall|t: int|
        0 <= t < bests.len() - 1 ==> #[trigger] scan_step(
            greater,
            at(u, j + t, j, m),
            j + t,
            bests[t],
            bests[t + 1],
        )
}

/// `row` is the pivot row that the scan of column `j` over the rows `j..n`
/// ends with.
pub open spec fn pivot_found<T, C: Fn(T, T) -> bool>(
    greater: C,
    u: Seq<T>,
    n: int,
    m: int,
    j: int,
    lowest: T,
    row: int,
) -> bool {
    exists|bests: Seq<(T, int)>|
        #[trigger] pivot_scan(greater, u, m, j, lowest, bests) && bests.len() == n - j + 1
            && bests[n - j].1 == row
}

/// Rows `p` and `q` of a matrix with `m` columns changed places. Nothing else
/// changed.
pub open spec fn rows_swapped<T>(before: Seq<T>, after: Seq<T>, m: int, p: int, q: int) -> bool {
    &&& after.len() == before.len()
    &&& forall|k: int| 0 <= k < m ==> #[trigger] at(after, p, k, m) == at(before, q, k, m)
    &&& forall|k: int| 0 <= k < m ==> #[trigger] at(after, q, k, m) == at(before, p, k, m)
    &&& forall|k: int|
        0 <= k < before.len() && !in_row(k, p, m) && !in_row(k, q, m) ==> after[k] == before[k]
}

/// Row `q` of a matrix with `m` columns had `h` times row `p` taken off:
/// every element `x` of it became what `eliminate` returned for `x`, `h` and
/// the element of row `p` in the same column. Nothing else changed.
pub open spec fn row_reduced<T, E: Fn(T, T, T) -> T>(
    eliminate: E,
    h: T,
    before: Seq<T>,
    after: Seq<T>,
    m: int,
    p: int,
    q: int,
) -> bool {
    &&& after.len() == before.len()
    &&& forall|k: int|
        0 <= k < m ==> call_ensures(
            eliminate,
            (at(before, q, k, m), h, at(before, p, k, m)),
            #[trigger] at(after, q, k, m),
        )
    &&& forall|k: int| 0 <= k < before.len() && !in_row(k, q, m) ==> after[k] == before[k]
}

/// The elimination of column `j` in row `i` of the `n` by `m` matrix `u0`,
/// with the factor recorded in the `n` by `n` matrix `l0`. Where `is_zero`
/// said yes of the element, nothing changes. Otherwise the factor is what
/// `divide` returned for the element and the pivot, the row is reduced by the
/// pivot row, and the factor is written to row `i`, column `j` of `l0`.
pub open spec fn row_eliminated<T, Z: Fn(T) -> bool, D: Fn(T, T) -> T, E: Fn(T, T, T) -> T>(
    is_zero: Z,
    divide: D,
    eliminate: E,
    n: int,
    m: int,
    j: int,
    i: int,
    l0: Seq<T>,
    u0: Seq<T>,
    l1: Seq<T>,
    u1: Seq<T>,
) -> bool {
    ||| call_ensures(is_zero, (at(u0, i, j, m),), true) && l1 == l0 && u1 == u0
    ||| call_ensures(is_zero, (at(u0, i, j, m),), false) && exists|h: T|
        {
            &&& #[trigger] call_ensures(divide, (at(u0, i, j, m), at(u0, j, j, m)), h)
            &&& row_reduced(eliminate, h, u0, u1, m, j, i)
            &&& l1 == l0.update(offset(i, j, n), h)
        }
}

/// The elimination of column `j` below the diagonal. `run` lists the pairs of
/// factors and matrix after every row from `j + 1` on.
pub open spec fn column_run<T, Z: Fn(T) -> bool, D: Fn(T, T) -> T, E: Fn(T, T, T) -> T>(
    is_zero: Z,
    divide: D,
    eliminate: E,
    n: int,
    m: int,
    j: int,
    run: Seq<(Seq<T>, Seq<T>)>,
) -> bool {
    &&& run.len() >= 1
    &&& forall|t: int|
        0 <= t < run.len() - 1 ==> #[trigger] row_eliminated(
            is_zero,
            divide,
            eliminate,
            n,
            m,
            j,
            j + 1 + t,
            run[t].0,
            run[t].1,
            run[t + 1].0,
            run[t + 1].1,
        )
}

/// Column `j` of `u0` was eliminated in all the rows `j + 1..n`, which took
/// the factors `l0` and the matrix `u0` to `l1` and `u1`.
pub open spec fn column_eliminated<T, Z: Fn(T) -> bool, D: Fn(T, T) -> T, E: Fn(T, T, T) -> T>(
    is_zero: Z,
    divide: D,
    eliminate: E,
    n: int,
    m: int,
    j: int,
    l0: Seq<T>,
    u0: Seq<T>,
    l1: Seq<T>,
    u1: Seq<T>,
) -> bool {
    exists|run: Seq<(Seq<T>, Seq<T>)>|
        {
            &&& #[trigger] column_run(is_zero, divide, eliminate, n, m, j, run)
            &&& run.len() == n - j
            &&& run[0] == (l0, u0)
            &&& run[n - j - 1] == (l1, u1)
        }
}

/// A state of the decomposition: the permutation, the factors and the matrix
/// being reduced.
pub struct Factors<T> {
    pub p: Seq<T>,
    pub l: Seq<T>,
    pub u: Seq<T>,
}

/// The step of the decomposition at column `j`, for `j < n`: the pivot row is
/// found in column `j` of `s0.u`; if it is not row `j`, the two rows change
/// places in all three matrices; then column `j` is eliminated.
pub open spec fn column_step<
    T,
    C: Fn(T, T) -> bool,
    Z: Fn(T) -> bool,
    D: Fn(T, T) -> T,
    E: Fn(T, T, T) -> T,
>(
    greater: C,
    is_zero: Z,
    divide: D,
    eliminate: E,
    n: int,
    m: int,
    lowest: T,
    j: int,
    s0: Factors<T>,
    s1: Factors<T>,
) -> bool {
    exists|row: int, mid: Factors<T>|
        {
            &&& #[trigger] pivot_found(greater, s0.u, n, m, j, lowest, row)
            &&& j <= row < n
            &&& if row == j {
                mid == s0
            } else {
                &&& rows_swapped(s0.u, mid.u, m, j, row)
                &&& rows_swapped(s0.p, mid.p, n, j, row)
                &&& rows_swapped(s0.l, mid.l, n, j, row)
            }
            &&& s1.p == mid.p
            &&& #[trigger] column_eliminated(
                is_zero,
                divide,
                eliminate,
                n,
                m,
                j,
                mid.l,
                mid.u,
                s1.l,
                s1.u,
            )
        }
}

/// A decomposition of the `n` by `m` matrix `a`: `run` lists the states from
/// the identity, factors of `zero` and `a` on, one step for every column that
/// has a diagonal element.
pub open spec fn elimination_run<
    T,
    C: Fn(T, T) -> bool,
    Z: Fn(T) -> bool,
    D: Fn(T, T) -> T,
    E: Fn(T, T, T) -> T,
>(
    greater: C,
    is_zero: Z,
    divide: D,
    eliminate: E,
    a: Seq<T>,
    n: int,
    m: int,
    zero: T,
    one: T,
    lowest: T,
    run: Seq<Factors<T>>,
) -> bool {
    &&& run.len() >= 1
    &&& run[0] == (Factors {
        p: identity_matrix(n, zero, one),
        l: repeated(n * n, zero),
        u: a.subrange(0, n * m),
    })
    &&& forall|j: int|
        0 <= j < run.len() - 1 ==> #[trigger] column_step(
            greater,
            is_zero,
            divide,
            eliminate,
            n,
            m,
            lowest,
            j,
            run[j],
            run[j + 1],
        )
}

/// The `n` by `n` matrix `l` with `one` written to its diagonal.
pub open spec fn with_unit_diagonal<T>(l: Seq<T>, n: int, one: T) -> Seq<T> {
    Seq::new(
        l.len(),
        |k: int|
            if 0 <= k < n * n && k / n == k % n {
                one
            } else {
                l[k]
            },
    )
}

/// `p`, `l` and `u` are a decomposition of the `n` by `m` matrix `a`: the end
/// of a run of elimination steps, with `one` written to the diagonal of the
/// factors.
pub open spec fn decomposed<
    T,
    C: Fn(T, T) -> bool,
    Z: Fn(T) -> bool,
    D: Fn(T, T) -> T,
    E: Fn(T, T, T) -> T,
>(
    greater: C,
    is_zero: Z,
    divide: D,
    eliminate: E,
    a: Seq<T>,
    n: int,
    m: int,
    zero: T,
    one: T,
    lowest: T,
    p: Seq<T>,
    l: Seq<T>,
    u: Seq<T>,
) -> bool {
    exists|run: Seq<Factors<T>>|
        {
            &&& #[trigger] elimination_run(
                greater,
                is_zero,
                divide,
                eliminate,
                a,
                n,
                m,
                zero,
                one,
                lowest,
                run,
            )
            &&& run.len() == smaller(n, m) + 1
            &&& p == run[run.len() - 1].p
            &&& l == with_unit_diagonal(run[run.len() - 1].l, n, one)
            &&& u == run[run.len() - 1].u
        }
}

/// Finds the pivot row of column `j` among the rows `j..n` of the `n` by `m`
/// matrix `u`: the row of the last element that `greater` preferred to the
/// best before it, starting from `lowest`; row `j` if there was none.
pub fn pivot_row<T: Copy, C: Fn(T, T) -> bool>(
    u: &[T],
    n: usize,
    m: usize,
    j: usize,
    lowest: T,
    greater: C,
) -> (row: usize)
    requires
        j < n,
        j < m,
        n * m <= u.len(),
        forall|x: T, best: T| call_requires(greater, (x, best)),
    ensures
        j <= row < n,
        pivot_found(greater, u@, n as int, m as int, j as int, lowest, row as int),
{
    let mut best: T = lowest;
    let mut row: usize = j;
    let ghost mut bests: Seq<(T, int)> = seq![(lowest, j as int)];
    let mut i: usize = j;
    while i < n
        invariant
            j <= i <= n,
            j < m,
            j <= row < n,
            n * m <= u.len(),
            forall|x: T, b: T| call_requires(greater, (x, b)),
            pivot_scan(greater, u@, m as int, j as int, lowest, bests),
            bests.len() == i - j + 1,
            bests[i - j] == (best, row as int),
        decreases n - i,
    {
        proof {
            lemma_offset_bound(i as int, j as int, n as int, m as int);
        }
        let ghost before = bests;
        let x = u[i * m + j];
        if greater(x, best) {
            best = x;
            row = i;
        }
        proof {
            bests = before.push((best, row as int));
            assert forall|t: int| 0 <= t < bests.len() - 1 implies #[trigger] scan_step(
                greater,
                at(u@, j + t, j as int, m as int),
                j + t,
                bests[t],
                bests[t + 1],
            ) by {
                if t < i - j {
                    assert(scan_step(
                        greater,
                        at(u@, j + t, j as int, m as int),
                        j + t,
                        before[t],
                        before[t + 1],
                    ));
                }
            }
        }
        i += 1;
    }
    row
}

/// Eliminates column `j` of the `n` by `m` matrix `u` in the rows below the
/// diagonal and records the factors in column `j` of the `n` by `n` matrix
/// `l`.
pub fn eliminate_column<T: Copy, Z: Fn(T) -> bool, D: Fn(T, T) -> T, E: Fn(T, T, T) -> T + Copy>(
    l: &mut Vec<T>,
    u: &mut Vec<T>,
    n: usize,
    m: usize,
    j: usize,
    is_zero: Z,
    divide: D,
    eliminate: E,
)
    requires
        j < n,
        j < m,
        n * m <= old(u).len(),
        n * n <= old(l).len(),
        forall|x: T| call_requires(is_zero, (x,)),
        forall|x: T, pivot: T| call_requires(divide, (x, pivot)),
        forall|x: T, h: T, y: T| call_requires(eliminate, (x, h, y)),
    ensures
        final(u).len() == old(u).len(),
        final(l).len() == old(l).len(),
        column_eliminated(
            is_zero,
            divide,
            eliminate,
            n as int,
            m as int,
            j as int,
            old(l)@,
            old(u)@,
            final(l)@,
            final(u)@,
        ),
{
    let ghost mut run: Seq<(Seq<T>, Seq<T>)> = seq![(l@, u@)];
    let mut i: usize = j + 1;
    while i < n
        invariant
            j < i <= n,
            j < m,
            u.len() == old(u).len(),
            l.len() == old(l).len(),
            n * m <= u.len(),
            n * n <= l.len(),
            forall|x: T| call_requires(is_zero, (x,)),
            forall|x: T, pivot: T| call_requires(divide, (x, pivot)),
            forall|x: T, h: T, y: T| call_requires(eliminate, (x, h, y)),
            column_run(is_zero, divide, eliminate, n as int, m as int, j as int, run),
            run.len() == i - j,
            run[0] == (old(l)@, old(u)@),
            run[i - j - 1] == (l@, u@),
        decreases n - i,
    {
        proof {
            lemma_offset_bound(i as int, j as int, n as int, m as int);
            lemma_offset_bound(j as int, j as int, n as int, m as int);
            lemma_offset_bound(i as int, j as int, n as int, n as int);
        }
        let ghost before = run;
        let ghost l0 = l@;
        let ghost u0 = u@;
        let x = u[i * m + j];
        if !is_zero(x) {
            let h = divide(x, u[j * m + j]);
            let take_off = |a: T, b: T| -> (out: T)
                requires
                    call_requires(eliminate, (a, h, b)),
                ensures
                    call_ensures(eliminate, (a, h, b), out),
                { eliminate(a, h, b) };
            reduce_row(u.as_mut_slice(), m, j, i, take_off);
            l[i * n + j] = h;
            proof {
                assert(row_reduced(eliminate, h, u0, u@, m as int, j as int, i as int));
                assert(call_ensures(
                    divide,
                    (at(u0, i as int, j as int, m as int), at(u0, j as int, j as int, m as int)),
                    h,
                ));
            }
        }
        proof {
            assert(row_eliminated(
                is_zero,
                divide,
                eliminate,
                n as int,
                m as int,
                j as int,
                i as int,
                l0,
                u0,
                l@,
                u@,
            ));
            run = before.push((l@, u@));
            assert forall|t: int| 0 <= t < run.len() - 1 implies #[trigger] row_eliminated(
                is_zero,
                divide,
                eliminate,
                n as int,
                m as int,
                j as int,
                j + 1 + t,
                run[t].0,
                run[t].1,
                run[t + 1].0,
                run[t + 1].1,
            ) by {
                if t < i - j - 1 {
                    assert(row_eliminated(
                        is_zero,
                        divide,
                        eliminate,
                        n as int,
                        m as int,
                        j as int,
                        j + 1 + t,
                        before[t].0,
                        before[t].1,
                        before[t + 1].0,
                        before[t + 1].1,
                    ));
                }
            }
        }
        i += 1;
    }
}

/// Factors the `n` by `m` matrix `a` into a permutation `P`, a lower
/// triangular `L` with `one` on its diagonal and an upper triangular `U`,
/// returned in this order, by Gaussian elimination with a pivot search in
/// every column that has a diagonal element.
pub fn lu_decomposition<
    T: Copy,
    C: Fn(T, T) -> bool + Copy,
    Z: Fn(T) -> bool + Copy,
    D: Fn(T, T) -> T + Copy,
    E: Fn(T, T, T) -> T + Copy,
>(
    a: &[T],
    n: usize,
    m: usize,
    zero: T,
    one: T,
    lowest: T,
    greater: C,
    is_zero: Z,
    divide: D,
    eliminate: E,
) -> (res: (Vec<T>, Vec<T>, Vec<T>))
    requires
        n * m <= a.len(),
        n * n <= usize::MAX,
        elimination_callable(greater, is_zero, divide, eliminate),
    ensures
        res.0.len() == n * n,
        res.1.len() == n * n,
        res.2.len() == n * m,
        decomposed(
            greater,
            is_zero,
            divide,
            eliminate,
            a@,
            n as int,
            m as int,
            zero,
            one,
            lowest,
            res.0@,
            res.1@,
            res.2@,
        ),
{
    let mut u = prefix(a, n * m);
    let mut l = filled(n * n, zero);
    let mut eye = identity(n, zero, one);
    let w: usize = if n <= m {
        n
    } else {
        m
    };
    let ghost mut run: Seq<Factors<T>> = seq![Factors { p: eye@, l: l@, u: u@ }];
    let mut j: usize = 0;
    while j < w
        invariant
            j <= w,
            w == smaller(n as int, m as int),
            u.len() == n * m,
            l.len() == n * n,
            eye.len() == n * n,
            elimination_callable(greater, is_zero, divide, eliminate),
            elimination_run(
                greater,
                is_zero,
                divide,
                eliminate,
                a@,
                n as int,
                m as int,
                zero,
                one,
                lowest,
                run,
            ),
            run.len() == j + 1,
            run[j as int] == (Factors { p: eye@, l: l@, u: u@ }),
        decreases w - j,
    {
        let ghost before = run;
        let ghost s0 = Factors { p: eye@, l: l@, u: u@ };
        let row = pivot_row(u.as_slice(), n, m, j, lowest, greater);
        proof {
            lemma_offset_bound(row as int, 0, n as int, m as int);
            lemma_offset_bound(j as int, 0, n as int, m as int);
            lemma_offset_bound(row as int, 0, n as int, n as int);
            lemma_offset_bound(j as int, 0, n as int, n as int);
        }
        if row != j {
            swap_rows(u.as_mut_slice(), m, j, row);
            swap_rows(eye.as_mut_slice(), n, j, row);
            swap_rows(l.as_mut_slice(), n, j, row);
        }
        let ghost mid = Factors { p: eye@, l: l@, u: u@ };
        eliminate_column(&mut l, &mut u, n, m, j, is_zero, divide, eliminate);
        proof {
            let s1 = Factors { p: eye@, l: l@, u: u@ };
            if row != j {
                assert(rows_swapped(s0.u, mid.u, m as int, j as int, row as int));
                assert(rows_swapped(s0.p, mid.p, n as int, j as int, row as int));
                assert(rows_swapped(s0.l, mid.l, n as int, j as int, row as int));
            }
            assert(column_eliminated(
                is_zero,
                divide,
                eliminate,
                n as int,
                m as int,
                j as int,
                mid.l,
                mid.u,
                s1.l,
                s1.u,
            ));
            assert(column_step(
                greater,
                is_zero,
                divide,
                eliminate,
                n as int,
                m as int,
                lowest,
                j as int,
                s0,
                s1,
            ));
            run = before.push(s1);
            assert forall|c: int| 0 <= c < run.len() - 1 implies #[trigger] column_step(
                greater,
                is_zero,
                divide,
                eliminate,
                n as int,
                m as int,
                lowest,
                c,
                run[c],
                run[c + 1],
            ) by {
                if c < j {
                    assert(column_step(
                        greater,
                        is_zero,
                        divide,
                        eliminate,
                        n as int,
                        m as int,
                        lowest,
                        c,
                        before[c],
                        before[c + 1],
                    ));
                }
            }
        }
        j += 1;
    }
    let ghost reduced = l@;
    let mut i: usize = 0;
    while i < n
        invariant
            i <= n,
            l.len() == n * n,
            reduced.len() == n * n,
            forall|r: int| 0 <= r < i ==> #[trigger] at(l@, r, r, n as int) == one,
            forall|r: int, c: int|
                0 <= r < n && 0 <= c < n && !(r == c && r < i) ==> #[trigger] at(
                    l@,
                    r,
                    c,
                    n as int,
                ) == at(reduced, r, c, n as int),
        decreases n - i,
    {
        proof {
            lemma_offset_bound(i as int, i as int, n as int, n as int);
        }
        let ghost prior = l@;
        l[i * n + i] = one;
        proof {
            assert forall|r: int| 0 <= r < i + 1 implies #[trigger] at(l@, r, r, n as int)
                == one by {
                if r < i {
                    lemma_offset_order(r, r, i as int, i as int, n as int);
                    assert(at(prior, r, r, n as int) == one);
                }
            }
            assert forall|r: int, c: int|
                0 <= r < n && 0 <= c < n && !(r == c && r < i + 1) implies #[trigger] at(
                l@,
                r,
                c,
                n as int,
            ) == at(reduced, r, c, n as int) by {
                lemma_offset_bound(r, c, n as int, n as int);
                lemma_offset_order(r, c, i as int, i as int, n as int);
                lemma_offset_order(i as int, i as int, r, c, n as int);
                assert(at(prior, r, c, n as int) == at(reduced, r, c, n as int));
            }
        }
        i += 1;
    }
    proof {
        let unit = with_unit_diagonal(reduced, n as int, one);
        assert forall|k: int| 0 <= k < l@.len() implies l@[k] == unit[k] by {
            lemma_offset_join(k, n as int);
            lemma_row_bound(k, n as int, n as int);
            let r = k / (n as int);
            let c = k % (n as int);
            assert(l@[k] == at(l@, r, c, n as int));
            assert(reduced[k] == at(reduced, r, c, n as int));
        }
        assert(l@ =~= unit);
        assert(elimination_run(
            greater,
            is_zero,
            divide,
            eliminate,
            a@,
            n as int,
            m as int,
            zero,
            one,
            lowest,
            run,
        ));
    }
    (eye, l, u)
}

/// The `n` by `n` matrix `l` of factors holds `zero` in the columns from `j`
/// on and on and above its diagonal: the part that the elimination has not
/// written yet.
pub open spec fn unwritten<T>(l: Seq<T>, n: int, j: int, zero: T) -> bool {
    &&& l.len() == n * n
    &&& forall|r: int, c: int|
        0 <= r < n && 0 <= c < n && (c >= j || c >= r) ==> #[trigger] at(l, r, c, n) == zero
}

/// The elimination of column `j` writes below the diagonal of that column
/// only.
proof fn lemma_rows_keep_unwritten<T, Z: Fn(T) -> bool, D: Fn(T, T) -> T, E: Fn(T, T, T) -> T>(
    is_zero: Z,
    divide: D,
    eliminate: E,
    n: int,
    m: int,
    j: int,
    zero: T,
    run: Seq<(Seq<T>, Seq<T>)>,
    t: int,
)
    requires
        0 <= j < n,
        column_run(is_zero, divide, eliminate, n, m, j, run),
        0 <= t < run.len(),
        run.len() <= n - j,
        unwritten(run[0].0, n, j + 1, zero),
    ensures
        unwritten(run[t].0, n, j + 1, zero),
    decreases t,
{
    if t > 0 {
        lemma_rows_keep_unwritten(is_zero, divide, eliminate, n, m, j, zero, run, t - 1);
        let l0 = run[t - 1].0;
        let l1 = run[t].0;
        let i = j + 1 + (t - 1);
        assert(row_eliminated(
            is_zero,
            divide,
            eliminate,
            n,
            m,
            j,
            i,
            run[t - 1].0,
            run[t - 1].1,
            run[t - 1 + 1].0,
            run[t - 1 + 1].1,
        ));
        if l1 != l0 {
            lemma_offset_bound(i, j, n, n);
            assert forall|r: int, c: int|
                0 <= r < n && 0 <= c < n && (c >= j + 1 || c >= r) implies #[trigger] at(l1, r, c, n)
                == zero by {
                lemma_offset_bound(r, c, n, n);
                lemma_offset_order(r, c, i, j, n);
                lemma_offset_order(i, j, r, c, n);
                assert(at(l0, r, c, n) == zero);
            }
        }
    }
}

/// A step of the decomposition at column `j` leaves the factors unwritten
/// from column `j + 1` on.
proof fn lemma_step_keeps_unwritten<
    T,
    C: Fn(T, T) -> bool,
    Z: Fn(T) -> bool,
    D: Fn(T, T) -> T,
    E: Fn(T, T, T) -> T,
>(
    greater: C,
    is_zero: Z,
    divide: D,
    eliminate: E,
    n: int,
    m: int,
    lowest: T,
    zero: T,
    j: int,
    s0: Factors<T>,
    s1: Factors<T>,
)
    requires
        0 <= j < n,
        column_step(greater, is_zero, divide, eliminate, n, m, lowest, j, s0, s1),
        unwritten(s0.l, n, j, zero),
    ensures
        unwritten(s1.l, n, j + 1, zero),
{
    let (row, mid) = choose|row: int, mid: Factors<T>|
        {
            &&& #[trigger] pivot_found(greater, s0.u, n, m, j, lowest, row)
            &&& j <= row < n
            &&& if row == j {
                mid == s0
            } else {
                &&& rows_swapped(s0.u, mid.u, m, j, row)
                &&& rows_swapped(s0.p, mid.p, n, j, row)
                &&& rows_swapped(s0.l, mid.l, n, j, row)
            }
            &&& s1.p == mid.p
            &&& #[trigger] column_eliminated(
                is_zero,
                divide,
                eliminate,
                n,
                m,
                j,
                mid.l,
                mid.u,
                s1.l,
                s1.u,
            )
        };
    assert(unwritten(mid.l, n, j, zero)) by {
        if row != j {
            assert forall|r: int, c: int|
                0 <= r < n && 0 <= c < n && (c >= j || c >= r) implies #[trigger] at(mid.l, r, c, n)
                == zero by {
                lemma_offset_bound(r, c, n, n);
                lemma_offset_bound(j, 0, n, n);
                lemma_offset_bound(row, 0, n, n);
                if r == j {
                    assert(at(mid.l, j, c, n) == at(s0.l, row, c, n));
                    assert(at(s0.l, row, c, n) == zero);
                } else if r == row {
                    assert(at(mid.l, row, c, n) == at(s0.l, j, c, n));
                    assert(at(s0.l, j, c, n) == zero);
                } else {
                    lemma_offset_order(r, c, j, 0, n);
                    lemma_offset_order(j, n - 1, r, c, n);
                    lemma_offset_order(r, c, row, 0, n);
                    lemma_offset_order(row, n - 1, r, c, n);
                    assert(!in_row(offset(r, c, n), j, n));
                    assert(!in_row(offset(r, c, n), row, n));
                    assert(at(s0.l, r, c, n) == zero);
                }
            }
        }
    }
    let run = choose|run: Seq<(Seq<T>, Seq<T>)>|
        {
            &&& #[trigger] column_run(is_zero, divide, eliminate, n, m, j, run)
            &&& run.len() == n - j
            &&& run[0] == (mid.l, mid.u)
            &&& run[n - j - 1] == (s1.l, s1.u)
        };
    assert(unwritten(run[0].0, n, j + 1, zero)) by {
        assert forall|r: int, c: int|
            0 <= r < n && 0 <= c < n && (c >= j + 1 || c >= r) implies #[trigger] at(
            run[0].0,
            r,
            c,
            n,
        ) == zero by {
            assert(at(mid.l, r, c, n) == zero);
        }
    }
    lemma_rows_keep_unwritten(is_zero, divide, eliminate, n, m, j, zero, run, n - j - 1);
}

/// After `j` steps the factors are unwritten from column `j` on.
proof fn lemma_run_keeps_unwritten<
    T,
    C: Fn(T, T) -> bool,
    Z: Fn(T) -> bool,
    D: Fn(T, T) -> T,
    E: Fn(T, T, T) -> T,
>(
    greater: C,
    is_zero: Z,
    divide: D,
    eliminate: E,
    a: Seq<T>,
    n: int,
    m: int,
    zero: T,
    one: T,
    lowest: T,
    run: Seq<Factors<T>>,
    j: int,
)
    requires
        0 <= n,
        elimination_run(greater, is_zero, divide, eliminate, a, n, m, zero, one, lowest, run),
        0 <= j < run.len(),
        run.len() <= n + 1,
    ensures
        unwritten(run[j].l, n, j, zero),
    decreases j,
{
    if j == 0 {
        assert forall|r: int, c: int| 0 <= r < n && 0 <= c < n implies #[trigger] at(
            run[0].l,
            r,
            c,
            n,
        ) == zero by {
            lemma_offset_bound(r, c, n, n);
        }
        assert(n * n >= 0) by (nonlinear_arith)
            requires
                n >= 0,
        ;
    } else {
        lemma_run_keeps_unwritten(
            greater,
            is_zero,
            divide,
            eliminate,
            a,
            n,
            m,
            zero,
            one,
            lowest,
            run,
            j - 1,
        );
        assert(column_step(
            greater,
            is_zero,
            divide,
            eliminate,
            n,
            m,
            lowest,
            j - 1,
            run[j - 1],
            run[j - 1 + 1],
        ));
        lemma_step_keeps_unwritten(
            greater,
            is_zero,
            divide,
            eliminate,
            n,
            m,
            lowest,
            zero,
            j - 1,
            run[j - 1],
            run[j],
        );
    }
}

/// The factor `L` of a decomposition is lower triangular with `one` on its
/// diagonal: whatever the arithmetic, it holds `one` on the diagonal and
/// `zero` above it.
pub proof fn lemma_factor_is_unit_lower_triangular<
    T,
    C: Fn(T, T) -> bool,
    Z: Fn(T) -> bool,
    D: Fn(T, T) -> T,
    E: Fn(T, T, T) -> T,
>(
    greater: C,
    is_zero: Z,
    divide: D,
    eliminate: E,
    a: Seq<T>,
    n: int,
    m: int,
    zero: T,
    one: T,
    lowest: T,
    p: Seq<T>,
    l: Seq<T>,
    u: Seq<T>,
)
    requires
        0 <= n,
        0 <= m,
        decomposed(greater, is_zero, divide, eliminate, a, n, m, zero, one, lowest, p, l, u),
    ensures
        l.len() == n * n,
        forall|r: int| 0 <= r < n ==> #[trigger] at(l, r, r, n) == one,
        forall|r: int, c: int| 0 <= r < c < n ==> #[trigger] at(l, r, c, n) == zero,
{
    let run = choose|run: Seq<Factors<T>>|
        {
            &&& #[trigger] elimination_run(
                greater,
                is_zero,
                divide,
                eliminate,
                a,
                n,
                m,
                zero,
                one,
                lowest,
                run,
            )
            &&& run.len() == smaller(n, m) + 1
            &&& p == run[run.len() - 1].p
            &&& l == with_unit_diagonal(run[run.len() - 1].l, n, one)
            &&& u == run[run.len() - 1].u
        };
    let w = smaller(n, m);
    lemma_run_keeps_unwritten(
        greater,
        is_zero,
        divide,
        eliminate,
        a,
        n,
        m,
        zero,
        one,
        lowest,
        run,
        w,
    );
    let last = run[w].l;
    assert forall|r: int| 0 <= r < n implies #[trigger] at(l, r, r, n) == one by {
        lemma_offset_bound(r, r, n, n);
        lemma_offset_split(r, r, n);
    }
    assert forall|r: int, c: int| 0 <= r < c < n implies #[trigger] at(l, r, c, n) == zero by {
        lemma_offset_bound(r, c, n, n);
        lemma_offset_split(r, c, n);
        assert(at(last, r, c, n) == zero);
    }
}

/// The `n` by `n` matrix `p` is the identity with its rows rearranged: row `r`
/// of `p` is row `perm[r]` of the identity, and no row of the identity is
/// used twice.
pub open spec fn permutes<T>(p: Seq<T>, n: int, zero: T, one: T, perm: Seq<int>) -> bool {
    &&& p.len() == n * n
    &&& perm.len() == n
    &&& forall|r: int| 0 <= r < n ==> 0 <= #[trigger] perm[r] < n
    &&& forall|r1: int, r2: int| 0 <= r1 < r2 < n ==> perm[r1] != perm[r2]
    &&& forall|r: int, c: int|
        0 <= r < n && 0 <= c < n ==> #[trigger] at(p, r, c, n) == (if perm[r] == c {
            one
        } else {
            zero
        })
}

/// After any number of steps the permutation is the identity with its rows
/// rearranged.
proof fn lemma_run_permutes<
    T,
    C: Fn(T, T) -> bool,
    Z: Fn(T) -> bool,
    D: Fn(T, T) -> T,
    E: Fn(T, T, T) -> T,
>(
    greater: C,
    is_zero: Z,
    divide: D,
    eliminate: E,
    a: Seq<T>,
    n: int,
    m: int,
    zero: T,
    one: T,
    lowest: T,
    run: Seq<Factors<T>>,
    j: int,
) -> (perm: Seq<int>)
    requires
        0 <= n,
        elimination_run(greater, is_zero, divide, eliminate, a, n, m, zero, one, lowest, run),
        0 <= j < run.len(),
        run.len() <= n + 1,
    ensures
        permutes(run[j].p, n, zero, one, perm),
    decreases j,
{
    if j == 0 {
        let perm = Seq::new(n as nat, |r: int| r);
        assert(n * n >= 0) by (nonlinear_arith)
            requires
                n >= 0,
        ;
        assert forall|r: int, c: int| 0 <= r < n && 0 <= c < n implies #[trigger] at(
            run[0].p,
            r,
            c,
            n,
        ) == (if perm[r] == c {
            one
        } else {
            zero
        }) by {
            lemma_offset_bound(r, c, n, n);
            lemma_offset_split(r, c, n);
        }
        perm
    } else {
        let before = lemma_run_permutes(
            greater,
            is_zero,
            divide,
            eliminate,
            a,
            n,
            m,
            zero,
            one,
            lowest,
            run,
            j - 1,
        );
        let s0 = run[j - 1];
        let s1 = run[j];
        assert(column_step(
            greater,
            is_zero,
            divide,
            eliminate,
            n,
            m,
            lowest,
            j - 1,
            run[j - 1],
            run[j - 1 + 1],
        ));
        let (row, mid) = choose|row: int, mid: Factors<T>|
            {
                &&& #[trigger] pivot_found(greater, s0.u, n, m, j - 1, lowest, row)
                &&& j - 1 <= row < n
                &&& if row == j - 1 {
                    mid == s0
                } else {
                    &&& rows_swapped(s0.u, mid.u, m, j - 1, row)
                    &&& rows_swapped(s0.p, mid.p, n, j - 1, row)
                    &&& rows_swapped(s0.l, mid.l, n, j - 1, row)
                }
                &&& s1.p == mid.p
                &&& #[trigger] column_eliminated(
                    is_zero,
                    divide,
                    eliminate,
                    n,
                    m,
                    j - 1,
                    mid.l,
                    mid.u,
                    s1.l,
                    s1.u,
                )
            };
        if row == j - 1 {
            before
        } else {
            let perm = before.update(j - 1, before[row]).update(row, before[j - 1]);
            assert forall|r: int, c: int| 0 <= r < n && 0 <= c < n implies #[trigger] at(
                s1.p,
                r,
                c,
                n,
            ) == (if perm[r] == c {
                one
            } else {
                zero
            }) by {
                lemma_offset_bound(r, c, n, n);
                if r == j - 1 {
                    assert(at(mid.p, j - 1, c, n) == at(s0.p, row, c, n));
                } else if r == row {
                    assert(at(mid.p, row, c, n) == at(s0.p, j - 1, c, n));
                } else {
                    lemma_offset_order(r, c, j - 1, 0, n);
                    lemma_offset_order(j - 1, n - 1, r, c, n);
                    lemma_offset_order(r, c, row, 0, n);
                    lemma_offset_order(row, n - 1, r, c, n);
                    assert(!in_row(offset(r, c, n), j - 1, n));
                    assert(!in_row(offset(r, c, n), row, n));
                    assert(at(s0.p, r, c, n) == (if before[r] == c {
                        one
                    } else {
                        zero
                    }));
                }
            }
            assert forall|r1: int, r2: int| 0 <= r1 < r2 < n implies perm[r1] != perm[r2] by {
                let q1 = if r1 == j - 1 {
                    row
                } else if r1 == row {
                    j - 1
                } else {
                    r1
                };
                let q2 = if r2 == j - 1 {
                    row
                } else if r2 == row {
                    j - 1
                } else {
                    r2
                };
                assert(perm[r1] == before[q1] && perm[r2] == before[q2]);
                if q1 < q2 {
                    assert(before[q1] != before[q2]);
                } else {
                    assert(before[q2] != before[q1]);
                }
            }
            perm
        }
    }
}

/// The factor `P` of a decomposition is a permutation matrix: whatever the
/// arithmetic, it is the identity with its rows rearranged.
pub proof fn lemma_factor_is_permutation<
    T,
    C: Fn(T, T) -> bool,
    Z: Fn(T) -> bool,
    D: Fn(T, T) -> T,
    E: Fn(T, T, T) -> T,
>(
    greater: C,
    is_zero: Z,
    divide: D,
    eliminate: E,
    a: Seq<T>,
    n: int,
    m: int,
    zero: T,
    one: T,
    lowest: T,
    p: Seq<T>,
    l: Seq<T>,
    u: Seq<T>,
)
    requires
        0 <= n,
        0 <= m,
        decomposed(greater, is_zero, divide, eliminate, a, n, m, zero, one, lowest, p, l, u),
    ensures
        exists|perm: Seq<int>| permutes(p, n, zero, one, perm),
{
    let run = choose|run: Seq<Factors<T>>|
        {
            &&& #[trigger] elimination_run(
                greater,
                is_zero,
                divide,
                eliminate,
                a,
                n,
                m,
                zero,
                one,
                lowest,
                run,
            )
            &&& run.len() == smaller(n, m) + 1
            &&& p == run[run.len() - 1].p
            &&& l == with_unit_diagonal(run[run.len() - 1].l, n, one)
            &&& u == run[run.len() - 1].u
        };
    let perm = lemma_run_permutes(
        greater,
        is_zero,
        divide,
        eliminate,
        a,
        n,
        m,
        zero,
        one,
        lowest,
        run,
        smaller(n, m),
    );
    assert(permutes(p, n, zero, one, perm));
}

} // verus!
