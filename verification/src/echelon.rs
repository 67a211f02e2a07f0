//! Reduction of a matrix to row echelon form, column by column.
//!
//! The arithmetic is the caller's. `is_zero(x)` and `is_one(x)` say whether an
//! element is zero or one; `scale(x, h)` gives the element `x` of a row that
//! is divided by `h`; `eliminate(x, h, y)` gives the element `x` with `h`
//! times the pivot row's element `y` taken off.

use vstd::prelude::*;
use crate::dense::{in_row, swap_rows};
use crate::layout::{at, lemma_offset_bound};
use crate::lu::{row_reduced, rows_swapped};
use crate::rows::{normalize_row, reduce_row};

verus! {

/// The four operations may be called on all arguments.
pub open spec fn echelon_callable<
    T,
    Z: Fn(T) -> bool,
    O: Fn(T) -> bool,
    S: Fn(T, T) -> T,
    E: Fn(T, T, T) -> T,
>(is_zero: Z, is_one: O, scale: S, eliminate: E) -> bool {
    &&& forall|x: T| call_requires(is_zero, (x,))
    &&& forall|x: T| call_requires(is_one, (x,))
    &&& forall|x: T, h: T| call_requires(scale, (x, h))
    &&& forall|x: T, h: T, y: T| call_requires(eliminate, (x, h, y))
}

/// Row `p` of a matrix with `m` columns was divided by `h`: every element `x`
/// of it became what `scale` returned for `x` and `h`. Nothing else changed.
pub open spec fn row_scaled<T, S: Fn(T, T) -> T>(
    scale: S,
    h: T,
    before: Seq<T>,
    after: Seq<T>,
    m: int,
    p: int,
) -> bool {
    &&& after.len() == before.len()
    &&& forall|k: int|
        0 <= k < m ==> call_ensures(scale, (at(before, p, k, m), h), #[trigger] at(after, p, k, m))
    &&& forall|k: int| 0 <= k < before.len() && !in_row(k, p, m) ==> after[k] == before[k]
}

/// The treatment of the element `x` at row `i`, column `j`, for `i >= j`.
/// Where `is_zero` said yes of `x`, nothing changes. On the diagonal, row `j`
/// is divided by `x`. Below it, where `is_one` denied that the diagonal
/// element of the column is one, rows `j` and `i` change places and the new
/// row `j` is divided by `x`; where it said so, row `i` is reduced by `x`
/// times row `j`.
pub open spec fn element_reduced<
    T,
    Z: Fn(T) -> bool,
    O: Fn(T) -> bool,
    S: Fn(T, T) -> T,
    E: Fn(T, T, T) -> T,
>(
    is_zero: Z,
    is_one: O,
    scale: S,
    eliminate: E,
    m: int,
    j: int,
    i: int,
    before: Seq<T>,
    after: Seq<T>,
) -> bool {
    let x = at(before, i, j, m);
    ||| call_ensures(is_zero, (x,), true) && after == before
    ||| {
        &&& call_ensures(is_zero, (x,), false)
        &&& i == j
        &&& row_scaled(scale, x, before, after, m, j)
    }
    ||| {
        &&& call_ensures(is_zero, (x,), false)
        &&& i != j
        &&& call_ensures(is_one, (at(before, j, j, m),), false)
        &&& exists|mid: Seq<T>|
            #[trigger] rows_swapped(before, mid, m, j, i) && row_scaled(scale, x, mid, after, m, j)
    }
    ||| {
        &&& call_ensures(is_zero, (x,), false)
        &&& i != j
        &&& call_ensures(is_one, (at(before, j, j, m),), true)
        &&& row_reduced(eliminate, x, before, after, m, j, i)
    }
}

/// The treatment of column `j` from the diagonal down: `run` lists the
/// matrix after every row from `j` on.
pub open spec fn column_run<
    T,
    Z: Fn(T) -> bool,
    O: Fn(T) -> bool,
    S: Fn(T, T) -> T,
    E: Fn(T, T, T) -> T,
>(is_zero: Z, is_one: O, scale: S, eliminate: E, m: int, j: int, run: Seq<Seq<T>>) -> bool {
    &&& run.len() >= 1
    &&& forall|t: int|
        0 <= t < run.len() - 1 ==> #[trigger] element_reduced(
            is_zero,
            is_one,
            scale,
            eliminate,
            m,
            j,
            j + t,
            run[t],
            run[t + 1],
        )
}

/// The number of rows from the diagonal of column `j` down in a matrix with
/// `n` rows.
pub open spec fn rows_below(n: int, j: int) -> int {
    if j < n {
        n - j
    } else {
        0
    }
}

/// Column `j` of the `n` by `m` matrix `before` was treated from the diagonal
/// down, which gave `after`.
pub open spec fn column_reduced<
    T,
    Z: Fn(T) -> bool,
    O: Fn(T) -> bool,
    S: Fn(T, T) -> T,
    E: Fn(T, T, T) -> T,
>(
    is_zero: Z,
    is_one: O,
    scale: S,
    eliminate: E,
    n: int,
    m: int,
    j: int,
    before: Seq<T>,
    after: Seq<T>,
) -> bool {
    exists|run: Seq<Seq<T>>|
        {
            &&& #[trigger] column_run(is_zero, is_one, scale, eliminate, m, j, run)
            &&& run.len() == rows_below(n, j) + 1
            &&& run[0] == before
            &&& run[run.len() - 1] == after
        }
}

/// The reduction of the `n` by `m` matrix: `run` lists the matrix after
/// every column.
pub open spec fn echelon_run<
    T,
    Z: Fn(T) -> bool,
    O: Fn(T) -> bool,
    S: Fn(T, T) -> T,
    E: Fn(T, T, T) -> T,
>(is_zero: Z, is_one: O, scale: S, eliminate: E, n: int, m: int, run: Seq<Seq<T>>) -> bool {
    &&& run.len() >= 1
    &&& forall|j: int|
        0 <= j < run.len() - 1 ==> #[trigger] column_reduced(
            is_zero,
            is_one,
            scale,
            eliminate,
            n,
            m,
            j,
            run[j],
            run[j + 1],
        )
}

/// Treats column `j` of the `n` by `m` matrix `inp` from the diagonal down.
fn reduce_column<
    T: Copy,
    Z: Fn(T) -> bool,
    O: Fn(T) -> bool,
    S: Fn(T, T) -> T + Copy,
    E: Fn(T, T, T) -> T + Copy,
>(inp: &mut [T], n: usize, m: usize, j: usize, is_zero: Z, is_one: O, scale: S, eliminate: E)
    requires
        j < m,
        n * m <= old(inp).len(),
        echelon_callable(is_zero, is_one, scale, eliminate),
    ensures
        final(inp).len() == old(inp).len(),
        column_reduced(
            is_zero,
            is_one,
            scale,
            eliminate,
            n as int,
            m as int,
            j as int,
            old(inp)@,
            final(inp)@,
        ),
{
    let ghost mi = m as int;
    let ghost mut run: Seq<Seq<T>> = seq![inp@];
    if j >= n {
        assert(column_run(is_zero, is_one, scale, eliminate, mi, j as int, run));
        return ;
    }
    let mut i: usize = j;
    while i < n
        invariant
            j <= i <= n,
            j < n,
            j < m,
            mi == m,
            inp.len() == old(inp).len(),
            n * m <= inp.len(),
            echelon_callable(is_zero, is_one, scale, eliminate),
            column_run(is_zero, is_one, scale, eliminate, mi, j as int, run),
            run.len() == i - j + 1,
            run[0] == old(inp)@,
            run[i - j] == inp@,
        decreases n - i,
    {
        proof {
            lemma_offset_bound(i as int, j as int, n as int, mi);
            lemma_offset_bound(j as int, j as int, n as int, mi);
            lemma_offset_bound(i as int, 0, n as int, mi);
            lemma_offset_bound(j as int, 0, n as int, mi);
        }
        let ghost before = run;
        let ghost s0 = inp@;
        let x = inp[i * m + j];
        if !is_zero(x) {
            let divide = |y: T| -> (out: T)
                requires
                    call_requires(scale, (y, x)),
                ensures
                    call_ensures(scale, (y, x), out),
                { scale(y, x) };
            if i == j {
                normalize_row(inp, divide, m, j);
                assert(row_scaled(scale, x, s0, inp@, mi, j as int));
            } else if !is_one(inp[j * m + j]) {
                swap_rows(inp, m, j, i);
                let ghost mid = inp@;
                normalize_row(inp, divide, m, j);
                assert(rows_swapped(s0, mid, mi, j as int, i as int));
                assert(row_scaled(scale, x, mid, inp@, mi, j as int));
            } else {
                let take_off = |a: T, b: T| -> (out: T)
                    requires
                        call_requires(eliminate, (a, x, b)),
                    ensures
                        call_ensures(eliminate, (a, x, b), out),
                    { eliminate(a, x, b) };
                reduce_row(inp, m, j, i, take_off);
                assert(row_reduced(eliminate, x, s0, inp@, mi, j as int, i as int));
            }
        }
        proof {
            assert(element_reduced(
                is_zero,
                is_one,
                scale,
                eliminate,
                mi,
                j as int,
                i as int,
                s0,
                inp@,
            ));
            run = before.push(inp@);
            assert forall|t: int| 0 <= t < run.len() - 1 implies #[trigger] element_reduced(
                is_zero,
                is_one,
                scale,
                eliminate,
                mi,
                j as int,
                j + t,
                run[t],
                run[t + 1],
            ) by {
                if t < i - j {
                    assert(element_reduced(
                        is_zero,
                        is_one,
                        scale,
                        eliminate,
                        mi,
                        j as int,
                        j + t,
                        before[t],
                        before[t + 1],
                    ));
                }
            }
        }
        i += 1;
    }
    assert(column_run(is_zero, is_one, scale, eliminate, mi, j as int, run));
}

/// Reduces the `n` by `m` matrix `inp` to row echelon form in place: the
/// columns are treated in turn, each from the diagonal down.
pub fn row_echelon<
    T: Copy,
    Z: Fn(T) -> bool + Copy,
    O: Fn(T) -> bool + Copy,
    S: Fn(T, T) -> T + Copy,
    E: Fn(T, T, T) -> T + Copy,
>(inp: &mut [T], n: usize, m: usize, is_zero: Z, is_one: O, scale: S, eliminate: E)
    requires
        n * m <= old(inp).len(),
        echelon_callable(is_zero, is_one, scale, eliminate),
    ensures
        final(inp).len() == old(inp).len(),
        exists|run: Seq<Seq<T>>|
            {
                &&& #[trigger] echelon_run(is_zero, is_one, scale, eliminate, n as int, m as int, run)
                &&& run.len() == m + 1
                &&& run[0] == old(inp)@
                &&& run[m as int] == final(inp)@
            },
{
    let ghost mut run: Seq<Seq<T>> = seq![inp@];
    let mut j: usize = 0;
    while j < m
        invariant
            j <= m,
            inp.len() == old(inp).len(),
            n * m <= inp.len(),
            echelon_callable(is_zero, is_one, scale, eliminate),
            echelon_run(is_zero, is_one, scale, eliminate, n as int, m as int, run),
            run.len() == j + 1,
            run[0] == old(inp)@,
            run[j as int] == inp@,
        decreases m - j,
    {
        let ghost before = run;
        let ghost s0 = inp@;
        reduce_column(inp, n, m, j, is_zero, is_one, scale, eliminate);
        proof {
            run = before.push(inp@);
            assert forall|c: int| 0 <= c < run.len() - 1 implies #[trigger] column_reduced(
                is_zero,
                is_one,
                scale,
                eliminate,
                n as int,
                m as int,
                c,
                run[c],
                run[c + 1],
            ) by {
                if c < j {
                    assert(column_reduced(
                        is_zero,
                        is_one,
                        scale,
                        eliminate,
                        n as int,
                        m as int,
                        c,
                        before[c],
                        before[c + 1],
                    ));
                }
            }
        }
        j += 1;
    }
    assert(echelon_run(is_zero, is_one, scale, eliminate, n as int, m as int, run));
}

} // verus!
