//! Reduction of a matrix by Householder reflections: to triangular form from
//! the left, to the form with one element left beyond the diagonal of every
//! row from the right, and to bidiagonal form from both sides in turn.
//!
//! The arithmetic is the caller's. `normal(x)` gives the unit normal of the
//! reflection that takes the vector `x` onto a multiple of the first unit
//! vector, or `None` when `x` needs none; a normal of another length than
//! that of `x` is passed over like `None`. `mul_add` and `reflect` are those
//! of the module `reflection`.

use vstd::prelude::*;
use crate::dense::{duplicate, identity, identity_matrix};
use crate::kernel::always_callable;
use crate::layout::{at, lemma_offset_bound, smaller};
use crate::reflection::{
    reflect_callable,
    reflect_left,
    reflect_right,
    reflected_from_left,
    reflected_from_right,
};

verus! {

/// `normal` may be called on every vector.
pub open spec fn normal_callable<T, N: Fn(Vec<T>) -> Option<Vec<T>>>(normal: N) -> bool {
    forall|x: Vec<T>| call_requires(normal, (x,))
}

/// The `len` elements of column `j` of a matrix with `m` columns, from row `i`
/// on.
pub open spec fn column_from<T>(buf: Seq<T>, m: int, i: int, j: int, len: int) -> Seq<T> {
    Seq::new(len as nat, |k: int| at(buf, i + k, j, m))
}

/// The `len` elements of row `i` of a matrix with `m` columns, from column `j`
/// on.
pub open spec fn row_from<T>(buf: Seq<T>, m: int, i: int, j: int, len: int) -> Seq<T> {
    Seq::new(len as nat, |k: int| at(buf, i, j + k, m))
}

/// The step of a reduction from the left at the diagonal element `i`: the
/// part of column `i` of `r0` from the diagonal down is handed to `normal`;
/// with the normal that comes back, the blocks of `r0` from row `i` and
/// column `i` on and of `q0` from row `i` on are reflected from the left.
/// Where no normal comes back, nothing changes. `r0` is `n` by `m`, `q0` is
/// `n` by `n`.
pub open spec fn left_step<
    T,
    N: Fn(Vec<T>) -> Option<Vec<T>>,
    F: Fn(T, T, T) -> T,
    G: Fn(T, T, T) -> T,
>(
    normal: N,
    mul_add: F,
    reflect: G,
    n: int,
    m: int,
    zero: T,
    i: int,
    q0: Seq<T>,
    r0: Seq<T>,
    q1: Seq<T>,
    r1: Seq<T>,
) -> bool {
    exists|x: Vec<T>, out: Option<Vec<T>>|
        {
            &&& x@ == column_from(r0, m, i, i, n - i)
            &&& #[trigger] call_ensures(normal, (x,), out)
            &&& if out is Some && out->0@.len() == n - i {
                &&& reflected_from_left(mul_add, reflect, r0, r1, n, m, i, i, out->0@, zero)
                &&& reflected_from_left(mul_add, reflect, q0, q1, n, n, i, 0, out->0@, zero)
            } else {
                q1 == q0 && r1 == r0
            }
        }
}

/// The step of a reduction from the right at the diagonal element `i`, for
/// `i + 1 < m`: the part of row `i` of `r0` beyond the diagonal is handed to
/// `normal`; with the normal that comes back, the blocks of `r0` from row `i`
/// and column `i + 1` on and of `q0` from column `i + 1` on are reflected
/// from the right. Where no normal comes back, or for `i + 1 == m`, nothing
/// changes. `r0` is `n` by `m`, `q0` is `m` by `m`.
pub open spec fn right_step<
    T,
    N: Fn(Vec<T>) -> Option<Vec<T>>,
    F: Fn(T, T, T) -> T,
    G: Fn(T, T, T) -> T,
>(
    normal: N,
    mul_add: F,
    reflect: G,
    n: int,
    m: int,
    zero: T,
    i: int,
    q0: Seq<T>,
    r0: Seq<T>,
    q1: Seq<T>,
    r1: Seq<T>,
) -> bool {
    if i + 1 >= m {
        q1 == q0 && r1 == r0
    } else {
        exists|x: Vec<T>, out: Option<Vec<T>>|
            {
                &&& x@ == row_from(r0, m, i, i + 1, m - i - 1)
                &&& #[trigger] call_ensures(normal, (x,), out)
                &&& if out is Some && out->0@.len() == m - i - 1 {
                    &&& reflected_from_right(
                        mul_add,
                        reflect,
                        r0,
                        r1,
                        n,
                        m,
                        i,
                        i + 1,
                        out->0@,
                        zero,
                    )
                    &&& reflected_from_right(
                        mul_add,
                        reflect,
                        q0,
                        q1,
                        m,
                        m,
                        0,
                        i + 1,
                        out->0@,
                        zero,
                    )
                } else {
                    q1 == q0 && r1 == r0
                }
            }
    }
}

/// A reduction from the left: `run` lists the pairs of accumulated
/// reflections and reduced matrix, from the identity and `a` on, each pair
/// following from the one before by the step at the next diagonal element.
pub open spec fn left_run<
    T,
    N: Fn(Vec<T>) -> Option<Vec<T>>,
    F: Fn(T, T, T) -> T,
    G: Fn(T, T, T) -> T,
>(
    normal: N,
    mul_add: F,
    reflect: G,
    a: Seq<T>,
    n: int,
    m: int,
    zero: T,
    one: T,
    run: Seq<(Seq<T>, Seq<T>)>,
) -> bool {
    &&& run.len() >= 1
    &&& run[0] == (identity_matrix(n, zero, one), a)
    &&& forall|i: int|
        0 <= i < run.len() - 1 ==> #[trigger] left_step(
            normal,
            mul_add,
            reflect,
            n,
            m,
            zero,
            i,
            run[i].0,
            run[i].1,
            run[i + 1].0,
            run[i + 1].1,
        )
}

/// A reduction from the right, listed as in `left_run`.
pub open spec fn right_run<
    T,
    N: Fn(Vec<T>) -> Option<Vec<T>>,
    F: Fn(T, T, T) -> T,
    G: Fn(T, T, T) -> T,
>(
    normal: N,
    mul_add: F,
    reflect: G,
    a: Seq<T>,
    n: int,
    m: int,
    zero: T,
    one: T,
    run: Seq<(Seq<T>, Seq<T>)>,
) -> bool {
    &&& run.len() >= 1
    &&& run[0] == (identity_matrix(m, zero, one), a)
    &&& forall|i: int|
        0 <= i < run.len() - 1 ==> #[trigger] right_step(
            normal,
            mul_add,
            reflect,
            n,
            m,
            zero,
            i,
            run[i].0,
            run[i].1,
            run[i + 1].0,
            run[i + 1].1,
        )
}

/// The step of a bidiagonalization at the diagonal element `i`: the step from
/// the left, then on its result the step from the right. A state is the
/// triple of the reflections from the left, the matrix, and the reflections
/// from the right.
pub open spec fn both_step<
    T,
    N: Fn(Vec<T>) -> Option<Vec<T>>,
    F: Fn(T, T, T) -> T,
    G: Fn(T, T, T) -> T,
>(
    normal: N,
    mul_add: F,
    reflect: G,
    n: int,
    m: int,
    zero: T,
    i: int,
    s0: (Seq<T>, Seq<T>, Seq<T>),
    s1: (Seq<T>, Seq<T>, Seq<T>),
) -> bool {
    exists|mid: Seq<T>|
        #[trigger] left_step(normal, mul_add, reflect, n, m, zero, i, s0.0, s0.1, s1.0, mid)
            && right_step(normal, mul_add, reflect, n, m, zero, i, s0.2, mid, s1.2, s1.1)
}

/// A bidiagonalization, listed as in `left_run`.
pub open spec fn both_run<
    T,
    N: Fn(Vec<T>) -> Option<Vec<T>>,
    F: Fn(T, T, T) -> T,
    G: Fn(T, T, T) -> T,
>(
    normal: N,
    mul_add: F,
    reflect: G,
    a: Seq<T>,
    n: int,
    m: int,
    zero: T,
    one: T,
    run: Seq<(Seq<T>, Seq<T>, Seq<T>)>,
) -> bool {
    &&& run.len() >= 1
    &&& run[0] == (identity_matrix(n, zero, one), a, identity_matrix(m, zero, one))
    &&& forall|i: int|
        0 <= i < run.len() - 1 ==> #[trigger] both_step(
            normal,
            mul_add,
            reflect,
            n,
            m,
            zero,
            i,
            run[i],
            run[i + 1],
        )
}

/// Performs the step from the left at the diagonal element `i` on the `n` by
/// `m` matrix `r` and the `n` by `n` matrix `q`.
fn step_left<
    T: Copy,
    N: Fn(Vec<T>) -> Option<Vec<T>> + Copy,
    F: Fn(T, T, T) -> T + Copy,
    G: Fn(T, T, T) -> T + Copy,
>(
    q: &mut Vec<T>,
    r: &mut Vec<T>,
    n: usize,
    m: usize,
    i: usize,
    zero: T,
    normal: N,
    mul_add: F,
    reflect: G,
)
    requires
        i < n,
        i < m,
        n * m <= old(r).len(),
        n * n == old(q).len(),
        normal_callable(normal),
        always_callable(mul_add),
        reflect_callable(reflect),
    ensures
        final(r).len() == old(r).len(),
        final(q).len() == old(q).len(),
        left_step(
            normal,
            mul_add,
            reflect,
            n as int,
            m as int,
            zero,
            i as int,
            old(q)@,
            old(r)@,
            final(q)@,
            final(r)@,
        ),
{
    let mut column: Vec<T> = Vec::new();
    let mut k: usize = i;
    while k < n
        invariant
            i <= k <= n,
            i < m,
            n * m <= r.len(),
            column.len() == k - i,
            forall|t: int| 0 <= t < k - i ==> column[t] == at(r@, i + t, i as int, m as int),
        decreases n - k,
    {
        proof {
            lemma_offset_bound(k as int, i as int, n as int, m as int);
        }
        column.push(r[k * m + i]);
        k += 1;
    }
    let ghost x = column;
    assert(x@ =~= column_from(r@, m as int, i as int, i as int, n - i));
    let out = normal(column);
    assert(call_ensures(normal, (x,), out));
    match &out {
        Some(u) => {
            if u.len() == n - i {
                reflect_left(r.as_mut_slice(), n, m, i, i, u.as_slice(), zero, mul_add, reflect);
                reflect_left(q.as_mut_slice(), n, n, i, 0, u.as_slice(), zero, mul_add, reflect);
            }
        },
        None => {},
    }
}

/// Performs the step from the right at the diagonal element `i` on the `n` by
/// `m` matrix `r` and the `m` by `m` matrix `q`.
fn step_right<
    T: Copy,
    N: Fn(Vec<T>) -> Option<Vec<T>> + Copy,
    F: Fn(T, T, T) -> T + Copy,
    G: Fn(T, T, T) -> T + Copy,
>(
    q: &mut Vec<T>,
    r: &mut Vec<T>,
    n: usize,
    m: usize,
    i: usize,
    zero: T,
    normal: N,
    mul_add: F,
    reflect: G,
)
    requires
        i < n,
        i < m,
        n * m <= old(r).len(),
        m * m == old(q).len(),
        normal_callable(normal),
        always_callable(mul_add),
        reflect_callable(reflect),
    ensures
        final(r).len() == old(r).len(),
        final(q).len() == old(q).len(),
        right_step(
            normal,
            mul_add,
            reflect,
            n as int,
            m as int,
            zero,
            i as int,
            old(q)@,
            old(r)@,
            final(q)@,
            final(r)@,
        ),
{
    if m - i - 1 == 0 {
        return ;
    }
    let mut row: Vec<T> = Vec::new();
    let mut k: usize = i + 1;
    while k < m
        invariant
            i + 1 <= k <= m,
            i < n,
            n * m <= r.len(),
            row.len() == k - i - 1,
            forall|t: int| 0 <= t < k - i - 1 ==> row[t] == at(r@, i as int, i + 1 + t, m as int),
        decreases m - k,
    {
        proof {
            lemma_offset_bound(i as int, k as int, n as int, m as int);
        }
        row.push(r[i * m + k]);
        k += 1;
    }
    let ghost x = row;
    assert(x@ =~= row_from(r@, m as int, i as int, i + 1, m - i - 1));
    let out = normal(row);
    assert(call_ensures(normal, (x,), out));
    match &out {
        Some(u) => {
            if u.len() == m - i - 1 {
                reflect_right(
                    r.as_mut_slice(),
                    n,
                    m,
                    i,
                    i + 1,
                    u.as_slice(),
                    zero,
                    mul_add,
                    reflect,
                );
                reflect_right(
                    q.as_mut_slice(),
                    m,
                    m,
                    0,
                    i + 1,
                    u.as_slice(),
                    zero,
                    mul_add,
                    reflect,
                );
            }
        },
        None => {},
    }
}

/// Reduces the `n` by `m` matrix `a` to upper triangular form by reflections
/// from the left, one for each of the first `min(n, m)` columns. Returns the
/// accumulated reflections, an `n` by `n` matrix, and the reduced matrix.
pub fn householder_reflection_left_multiply<
    T: Copy,
    N: Fn(Vec<T>) -> Option<Vec<T>> + Copy,
    F: Fn(T, T, T) -> T + Copy,
    G: Fn(T, T, T) -> T + Copy,
>(a: &[T], n: usize, m: usize, zero: T, one: T, normal: N, mul_add: F, reflect: G) -> (res: (
    Vec<T>,
    Vec<T>,
))
    requires
        n * m <= a.len(),
        n * n <= usize::MAX,
        normal_callable(normal),
        always_callable(mul_add),
        reflect_callable(reflect),
    ensures
        res.0.len() == n * n,
        res.1.len() == a.len(),
        exists|run: Seq<(Seq<T>, Seq<T>)>|
            #[trigger] left_run(normal, mul_add, reflect, a@, n as int, m as int, zero, one, run)
                && run.len() == smaller(n as int, m as int) + 1 && run[run.len() - 1] == (
                res.0@,
                res.1@,
            ),
{
    let mut q = identity(n, zero, one);
    let mut r = duplicate(a);
    let w: usize = if n <= m {
        n
    } else {
        m
    };
    let ghost mut run: Seq<(Seq<T>, Seq<T>)> = seq![(q@, r@)];
    let mut i: usize = 0;
    while i < w
        invariant
            i <= w,
            w == smaller(n as int, m as int),
            n * m <= r.len(),
            r.len() == a.len(),
            n * n == q.len(),
            normal_callable(normal),
            always_callable(mul_add),
            reflect_callable(reflect),
            left_run(normal, mul_add, reflect, a@, n as int, m as int, zero, one, run),
            run.len() == i + 1,
            run[i as int] == (q@, r@),
        decreases w - i,
    {
        let ghost before = run;
        step_left(&mut q, &mut r, n, m, i, zero, normal, mul_add, reflect);
        proof {
            run = before.push((q@, r@));
            assert forall|k: int| 0 <= k < run.len() - 1 implies #[trigger] left_step(
                normal,
                mul_add,
                reflect,
                n as int,
                m as int,
                zero,
                k,
                run[k].0,
                run[k].1,
                run[k + 1].0,
                run[k + 1].1,
            ) by {
                if k < i {
                    assert(left_step(
                        normal,
                        mul_add,
                        reflect,
                        n as int,
                        m as int,
                        zero,
                        k,
                        before[k].0,
                        before[k].1,
                        before[k + 1].0,
                        before[k + 1].1,
                    ));
                }
            }
        }
        i += 1;
    }
    (q, r)
}

/// Reduces every row of the `n` by `m` matrix `a` to its diagonal element and
/// the one after it by reflections from the right, one for each of the first
/// `min(n, m)` rows. Returns the accumulated reflections, an `m` by `m`
/// matrix, and the reduced matrix.
pub fn householder_reflection_right_multiply<
    T: Copy,
    N: Fn(Vec<T>) -> Option<Vec<T>> + Copy,
    F: Fn(T, T, T) -> T + Copy,
    G: Fn(T, T, T) -> T + Copy,
>(a: &[T], n: usize, m: usize, zero: T, one: T, normal: N, mul_add: F, reflect: G) -> (res: (
    Vec<T>,
    Vec<T>,
))
    requires
        n * m <= a.len(),
        m * m <= usize::MAX,
        normal_callable(normal),
        always_callable(mul_add),
        reflect_callable(reflect),
    ensures
        res.0.len() == m * m,
        res.1.len() == a.len(),
        exists|run: Seq<(Seq<T>, Seq<T>)>|
            #[trigger] right_run(normal, mul_add, reflect, a@, n as int, m as int, zero, one, run)
                && run.len() == smaller(n as int, m as int) + 1 && run[run.len() - 1] == (
                res.0@,
                res.1@,
            ),
{
    let mut q = identity(m, zero, one);
    let mut r = duplicate(a);
    let w: usize = if n <= m {
        n
    } else {
        m
    };
    let ghost mut run: Seq<(Seq<T>, Seq<T>)> = seq![(q@, r@)];
    let mut i: usize = 0;
    while i < w
        invariant
            i <= w,
            w == smaller(n as int, m as int),
            n * m <= r.len(),
            r.len() == a.len(),
            m * m == q.len(),
            normal_callable(normal),
            always_callable(mul_add),
            reflect_callable(reflect),
            right_run(normal, mul_add, reflect, a@, n as int, m as int, zero, one, run),
            run.len() == i + 1,
            run[i as int] == (q@, r@),
        decreases w - i,
    {
        let ghost before = run;
        step_right(&mut q, &mut r, n, m, i, zero, normal, mul_add, reflect);
        proof {
            run = before.push((q@, r@));
            assert forall|k: int| 0 <= k < run.len() - 1 implies #[trigger] right_step(
                normal,
                mul_add,
                reflect,
                n as int,
                m as int,
                zero,
                k,
                run[k].0,
                run[k].1,
                run[k + 1].0,
                run[k + 1].1,
            ) by {
                if k < i {
                    assert(right_step(
                        normal,
                        mul_add,
                        reflect,
                        n as int,
                        m as int,
                        zero,
                        k,
                        before[k].0,
                        before[k].1,
                        before[k + 1].0,
                        before[k + 1].1,
                    ));
                }
            }
        }
        i += 1;
    }
    (q, r)
}

/// Reduces the `n` by `m` matrix `a` to bidiagonal form: for each of the
/// first `min(n, m)` diagonal elements a reflection from the left that clears
/// the column below it, then one from the right that clears the row beyond
/// the element after it. Returns the reflections from the left, an `n` by `n`
/// matrix, the reduced matrix, and the reflections from the right, an `m` by
/// `m` matrix.
pub fn householder_reflection_bidiagonalization<
    T: Copy,
    N: Fn(Vec<T>) -> Option<Vec<T>> + Copy,
    F: Fn(T, T, T) -> T + Copy,
    G: Fn(T, T, T) -> T + Copy,
>(a: &[T], n: usize, m: usize, zero: T, one: T, normal: N, mul_add: F, reflect: G) -> (res: (
    Vec<T>,
    Vec<T>,
    Vec<T>,
))
    requires
        n * m <= a.len(),
        n * n <= usize::MAX,
        m * m <= usize::MAX,
        normal_callable(normal),
        always_callable(mul_add),
        reflect_callable(reflect),
    ensures
        res.0.len() == n * n,
        res.1.len() == a.len(),
        res.2.len() == m * m,
        exists|run: Seq<(Seq<T>, Seq<T>, Seq<T>)>|
            #[trigger] both_run(normal, mul_add, reflect, a@, n as int, m as int, zero, one, run)
                && run.len() == smaller(n as int, m as int) + 1 && run[run.len() - 1] == (
                res.0@,
                res.1@,
                res.2@,
            ),
{
    let mut q_lt = identity(n, zero, one);
    let mut q_rt = identity(m, zero, one);
    let mut r = duplicate(a);
    let w: usize = if n <= m {
        n
    } else {
        m
    };
    let ghost mut run: Seq<(Seq<T>, Seq<T>, Seq<T>)> = seq![(q_lt@, r@, q_rt@)];
    let mut i: usize = 0;
    while i < w
        invariant
            i <= w,
            w == smaller(n as int, m as int),
            n * m <= r.len(),
            r.len() == a.len(),
            n * n == q_lt.len(),
            m * m == q_rt.len(),
            normal_callable(normal),
            always_callable(mul_add),
            reflect_callable(reflect),
            both_run(normal, mul_add, reflect, a@, n as int, m as int, zero, one, run),
            run.len() == i + 1,
            run[i as int] == (q_lt@, r@, q_rt@),
        decreases w - i,
    {
        let ghost before = run;
        let ghost s0 = (q_lt@, r@, q_rt@);
        step_left(&mut q_lt, &mut r, n, m, i, zero, normal, mul_add, reflect);
        let ghost mid = r@;
        step_right(&mut q_rt, &mut r, n, m, i, zero, normal, mul_add, reflect);
        proof {
            let s1 = (q_lt@, r@, q_rt@);
            assert(left_step(
                normal,
                mul_add,
                reflect,
                n as int,
                m as int,
                zero,
                i as int,
                s0.0,
                s0.1,
                s1.0,
                mid,
            ));
            assert(both_step(normal, mul_add, reflect, n as int, m as int, zero, i as int, s0, s1));
            run = before.push(s1);
            assert forall|k: int| 0 <= k < run.len() - 1 implies #[trigger] both_step(
                normal,
                mul_add,
                reflect,
                n as int,
                m as int,
                zero,
                k,
                run[k],
                run[k + 1],
            ) by {
                if k < i {
                    assert(both_step(
                        normal,
                        mul_add,
                        reflect,
                        n as int,
                        m as int,
                        zero,
                        k,
                        before[k],
                        before[k + 1],
                    ));
                }
            }
        }
        i += 1;
    }
    (q_lt, r, q_rt)
}

} // verus!
