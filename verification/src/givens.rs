//! QR factorization by Givens rotations: the elements below the diagonal are
//! cleared column by column, each from the bottom up, by a rotation of the
//! element's row with the row above it.
//!
//! The arithmetic is the caller's. `make(x, y)` gives the rotation that takes
//! the pair `(x, y)` onto its first axis, in whatever form the caller keeps
//! rotations; `rotate(rotation, p, q)` gives the pair `(p, q)` after that
//! rotation.

use vstd::prelude::*;
use crate::dense::{duplicate, identity, identity_matrix, transpose, transposed};
use crate::layout::{at, lemma_offset_bound, offset};
use crate::rotation::{givens_left_rotation_multiply, givens_right_rotation_multiply};

verus! {

/// `make` and `rotate` may be called on all arguments.
pub open spec fn rotations_callable<T, R, M: Fn(T, T) -> R, A: Fn(R, T, T) -> (T, T)>(
    make: M,
    rotate: A,
) -> bool {
    &&& forall|x: T, y: T| call_requires(make, (x, y))
    &&& forall|rot: R, p: T, q: T| call_requires(rotate, (rot, p, q))
}

/// Rows `i - 1` and `i` of the matrix `before`, which has `m` columns, were
/// rotated in the columns `c1..=c2`: the pair of elements in each of these
/// columns became what `rotate` returned for the rotation and the pair.
/// Nothing else changed.
pub open spec fn rows_rotated<T, R, A: Fn(R, T, T) -> (T, T)>(
    rotate: A,
    rot: R,
    before: Seq<T>,
    after: Seq<T>,
    m: int,
    i: int,
    c1: int,
    c2: int,
) -> bool {
    &&& after.len() == before.len()
    &&& forall|c: int|
        c1 <= c <= c2 ==> call_ensures(
            rotate,
            (rot, at(before, i - 1, c, m), at(before, i, c, m)),
            (#[trigger] at(after, i - 1, c, m), at(after, i, c, m)),
        )
    &&& forall|k: int|
        0 <= k < before.len() && !(offset(i - 1, c1, m) <= k <= offset(i - 1, c2, m)) && !(offset(
            i,
            c1,
            m,
        ) <= k <= offset(i, c2, m)) ==> after[k] == before[k]
}

/// Columns `j - 1` and `j` of the matrix `before`, which has `m` columns, were
/// rotated in the rows `r1..=r2`: the pair of elements in each of these rows
/// became what `rotate` returned for the rotation and the pair. Nothing else
/// changed.
pub open spec fn columns_rotated<T, R, A: Fn(R, T, T) -> (T, T)>(
    rotate: A,
    rot: R,
    before: Seq<T>,
    after: Seq<T>,
    m: int,
    j: int,
    r1: int,
    r2: int,
) -> bool {
    &&& after.len() == before.len()
    &&& forall|i: int|
        r1 <= i <= r2 ==> call_ensures(
            rotate,
            (rot, at(before, i, j - 1, m), at(before, i, j, m)),
            (#[trigger] at(after, i, j - 1, m), at(after, i, j, m)),
        )
    &&& forall|i: int, c: int|
        0 <= i && 0 <= c < m && offset(i, c, m) < before.len() && !(r1 <= i <= r2 && (c == j - 1
            || c == j)) ==> #[trigger] at(after, i, c, m) == at(before, i, c, m)
}

/// Rotates rows `i - 1` and `i` of the `n` by `m` matrix `a` by `rot` in the
/// columns `c1..=c2`.
pub fn rotate_rows<T: Copy, R: Copy, A: Fn(R, T, T) -> (T, T) + Copy>(
    a: &mut [T],
    n: usize,
    m: usize,
    rot: R,
    rotate: A,
    i: usize,
    c1: usize,
    c2: usize,
)
    requires
        1 <= i < n,
        c1 <= c2 < m,
        n * m <= old(a).len(),
        forall|p: T, q: T| call_requires(rotate, (rot, p, q)),
    ensures
        rows_rotated(rotate, rot, old(a)@, final(a)@, m as int, i as int, c1 as int, c2 as int),
{
    let turn = |p: T, q: T| -> (out: (T, T))
        requires
            call_requires(rotate, (rot, p, q)),
        ensures
            call_ensures(rotate, (rot, p, q), out),
        { rotate(rot, p, q) };
    givens_left_rotation_multiply(a, n, m, turn, i, c1, 0, n - 1, c1, c2);
}

/// Rotates columns `j - 1` and `j` of the `n` by `m` matrix `a` by `rot` in
/// the rows `r1..=r2`.
pub fn rotate_columns<T: Copy, R: Copy, A: Fn(R, T, T) -> (T, T) + Copy>(
    a: &mut [T],
    n: usize,
    m: usize,
    rot: R,
    rotate: A,
    j: usize,
    r1: usize,
    r2: usize,
)
    requires
        1 <= j < m,
        r1 <= r2 < n,
        n * m <= old(a).len(),
        forall|p: T, q: T| call_requires(rotate, (rot, p, q)),
    ensures
        columns_rotated(rotate, rot, old(a)@, final(a)@, m as int, j as int, r1 as int, r2 as int),
{
    let turn = |p: T, q: T| -> (out: (T, T))
        requires
            call_requires(rotate, (rot, p, q)),
        ensures
            call_ensures(rotate, (rot, p, q), out),
        { rotate(rot, p, q) };
    givens_right_rotation_multiply(a, n, m, turn, r1, j, r1, r2, 0, m - 1);
}

/// The step of a sweep that clears the element at row `i`, column `j` of the
/// `h` by `w` matrix `r0`: the rotation is made from that element and the one
/// above it, and rows `i - 1` and `i` of `r0` and of the `h` by `h` matrix
/// `q0` are rotated by it.
pub open spec fn rotation_step<T, R, M: Fn(T, T) -> R, A: Fn(R, T, T) -> (T, T)>(
    make: M,
    rotate: A,
    h: int,
    w: int,
    i: int,
    j: int,
    q0: Seq<T>,
    r0: Seq<T>,
    q1: Seq<T>,
    r1: Seq<T>,
) -> bool {
    exists|rot: R|
        {
            &&& #[trigger] call_ensures(make, (at(r0, i - 1, j, w), at(r0, i, j, w)), rot)
            &&& rows_rotated(rotate, rot, r0, r1, w, i, 0, w - 1)
            &&& rows_rotated(rotate, rot, q0, q1, h, i, 0, h - 1)
        }
}

/// The number of steps of a sweep before it reaches column `j`: the columns
/// before have `h - 1`, `h - 2`, ... elements below the diagonal.
pub open spec fn steps_before(h: int, j: int) -> int
    decreases j,
{
    if j <= 0 {
        0
    } else {
        steps_before(h, j - 1) + (h - j)
    }
}

/// A sweep over the first `w` columns of an `h` by `w` matrix, with `h >= w`.
/// `run` lists the pairs of accumulated rotations and matrix, from the
/// identity and `a` on; the step that clears the element at row `i`, column
/// `j` is the one of index `steps_before(h, j) + (h - 1 - i)`.
pub open spec fn sweep_run<T, R, M: Fn(T, T) -> R, A: Fn(R, T, T) -> (T, T)>(
    make: M,
    rotate: A,
    a: Seq<T>,
    h: int,
    w: int,
    zero: T,
    one: T,
    run: Seq<(Seq<T>, Seq<T>)>,
) -> bool {
    &&& run.len() == steps_before(h, w) + 1
    &&& run[0] == (identity_matrix(h, zero, one), a)
    &&& forall|j: int, i: int|
        0 <= j < w && j < i < h ==> rotation_step(
            make,
            rotate,
            h,
            w,
            i,
            j,
            (#[trigger] run[steps_before(h, j) + (h - 1 - i)]).0,
            run[steps_before(h, j) + (h - 1 - i)].1,
            run[steps_before(h, j) + (h - 1 - i) + 1].0,
            run[steps_before(h, j) + (h - 1 - i) + 1].1,
        )
}

/// The steps before a column are at least as many as the column's index
/// allows, and grow with it.
proof fn lemma_steps_before(h: int, j: int)
    requires
        0 <= j < h,
    ensures
        0 <= steps_before(h, j),
        steps_before(h, j + 1) == steps_before(h, j) + (h - 1 - j),
    decreases j,
{
    if j > 0 {
        lemma_steps_before(h, j - 1);
    }
}

/// Sweeps the `h` by `w` matrix `r`, with `h >= w`, into upper triangular
/// form and applies the rotations to the `h` by `h` matrix `q` too.
fn rotate_to_triangle<
    T: Copy,
    R: Copy,
    M: Fn(T, T) -> R + Copy,
    A: Fn(R, T, T) -> (T, T) + Copy,
>(r: &mut Vec<T>, q: &mut Vec<T>, h: usize, w: usize, zero: T, one: T, make: M, rotate: A)
    requires
        w <= h,
        h * w <= old(r).len(),
        old(q)@ == identity_matrix(h as int, zero, one),
        old(q).len() == h * h,
        rotations_callable(make, rotate),
    ensures
        final(r).len() == old(r).len(),
        final(q).len() == old(q).len(),
        exists|run: Seq<(Seq<T>, Seq<T>)>|
            #[trigger] sweep_run(make, rotate, old(r)@, h as int, w as int, zero, one, run)
                && run[run.len() - 1] == (final(q)@, final(r)@),
{
    let ghost a = r@;
    let ghost mut run: Seq<(Seq<T>, Seq<T>)> = seq![(q@, r@)];
    let mut j: usize = 0;
    while j < w
        invariant
            j <= w <= h,
            h * w <= r.len(),
            r.len() == old(r).len(),
            q.len() == h * h,
            rotations_callable(make, rotate),
            run.len() == steps_before(h as int, j as int) + 1,
            run[0] == (identity_matrix(h as int, zero, one), a),
            run[run.len() - 1] == (q@, r@),
            forall|c: int, i: int|
                0 <= c < j && c < i < h ==> rotation_step(
                    make,
                    rotate,
                    h as int,
                    w as int,
                    i,
                    c,
                    (#[trigger] run[steps_before(h as int, c) + (h - 1 - i)]).0,
                    run[steps_before(h as int, c) + (h - 1 - i)].1,
                    run[steps_before(h as int, c) + (h - 1 - i) + 1].0,
                    run[steps_before(h as int, c) + (h - 1 - i) + 1].1,
                ),
        decreases w - j,
    {
        proof {
            lemma_steps_before(h as int, j as int);
        }
        let mut i: usize = h - 1;
        while i > j
            invariant
                j < w <= h,
                j <= i < h,
                h * w <= r.len(),
                r.len() == old(r).len(),
                q.len() == h * h,
                rotations_callable(make, rotate),
                0 <= steps_before(h as int, j as int),
                run.len() == steps_before(h as int, j as int) + (h - 1 - i) + 1,
                run[0] == (identity_matrix(h as int, zero, one), a),
                run[run.len() - 1] == (q@, r@),
                forall|c: int, t: int|
                    (0 <= c < j && c < t < h) || (c == j && i < t < h) ==> rotation_step(
                        make,
                        rotate,
                        h as int,
                        w as int,
                        t,
                        c,
                        (#[trigger] run[steps_before(h as int, c) + (h - 1 - t)]).0,
                        run[steps_before(h as int, c) + (h - 1 - t)].1,
                        run[steps_before(h as int, c) + (h - 1 - t) + 1].0,
                        run[steps_before(h as int, c) + (h - 1 - t) + 1].1,
                    ),
            decreases i,
        {
            proof {
                lemma_offset_bound(i as int, j as int, h as int, w as int);
                lemma_offset_bound(i - 1, j as int, h as int, w as int);
            }
            let ghost before = run;
            let ghost q0 = q@;
            let ghost r0 = r@;
            let rot = make(r[(i - 1) * w + j], r[i * w + j]);
            rotate_rows(r.as_mut_slice(), h, w, rot, rotate, i, 0, w - 1);
            rotate_rows(q.as_mut_slice(), h, h, rot, rotate, i, 0, h - 1);
            proof {
                assert(call_ensures(
                    make,
                    (at(r0, i - 1, j as int, w as int), at(r0, i as int, j as int, w as int)),
                    rot,
                ));
                assert(rotation_step(
                    make,
                    rotate,
                    h as int,
                    w as int,
                    i as int,
                    j as int,
                    q0,
                    r0,
                    q@,
                    r@,
                ));
                run = before.push((q@, r@));
                assert forall|c: int, t: int|
                    (0 <= c < j && c < t < h) || (c == j && i - 1 < t < h) implies rotation_step(
                    make,
                    rotate,
                    h as int,
                    w as int,
                    t,
                    c,
                    (#[trigger] run[steps_before(h as int, c) + (h - 1 - t)]).0,
                    run[steps_before(h as int, c) + (h - 1 - t)].1,
                    run[steps_before(h as int, c) + (h - 1 - t) + 1].0,
                    run[steps_before(h as int, c) + (h - 1 - t) + 1].1,
                ) by {
                    let s = steps_before(h as int, c) + (h - 1 - t);
                    if c < j {
                        lemma_steps_before(h as int, c);
                        lemma_steps_monotone(h as int, c + 1, j as int);
                    }
                    if !(c == j && t == i) {
                        assert(rotation_step(
                            make,
                            rotate,
                            h as int,
                            w as int,
                            t,
                            c,
                            before[s].0,
                            before[s].1,
                            before[s + 1].0,
                            before[s + 1].1,
                        ));
                    }
                }
            }
            i -= 1;
        }
        j += 1;
    }
    assert(sweep_run(make, rotate, a, h as int, w as int, zero, one, run));
}

/// The steps before a column grow with the column.
proof fn lemma_steps_monotone(h: int, j1: int, j2: int)
    requires
        0 <= j1 <= j2 < h,
    ensures
        steps_before(h, j1) <= steps_before(h, j2),
    decreases j2 - j1,
{
    if j1 < j2 {
        lemma_steps_monotone(h, j1, j2 - 1);
        lemma_steps_before(h, j2 - 1);
    }
}

/// `res` is a factorization of the `n` by `m` matrix `a` by Givens rotations,
/// as `givens_rotation_qr` returns it.
pub open spec fn givens_factored<T, R, M: Fn(T, T) -> R, A: Fn(R, T, T) -> (T, T)>(
    make: M,
    rotate: A,
    a: Seq<T>,
    n: int,
    m: int,
    zero: T,
    one: T,
    res: (Seq<T>, Seq<T>, int, int, int),
) -> bool {
    &&& n >= m ==> (res.2, res.3, res.4) == (n, n, m) && exists|run: Seq<(Seq<T>, Seq<T>)>|
        {
            &&& #[trigger] sweep_run(make, rotate, a, n, m, zero, one, run)
            &&& res.0 == transposed(run[run.len() - 1].0, n, n)
            &&& res.1 == run[run.len() - 1].1
        }
    &&& n < m ==> (res.2, res.3, res.4) == (n, m, m) && exists|run: Seq<(Seq<T>, Seq<T>)>|
        {
            &&& #[trigger] sweep_run(make, rotate, transposed(a, n, m), m, n, zero, one, run)
            &&& res.0 == transposed(run[run.len() - 1].1, m, n)
            &&& res.1 == run[run.len() - 1].0
        }
}

/// Factors the `n` by `m` matrix `a` by Givens rotations. For `n >= m` the
/// matrix is swept into the upper triangular `R`, and the result is
/// `(Q, R, n, n, m)` with the transpose `Q` of the accumulated rotations, so
/// that `a` is `Q·R`. For `n < m` the transpose of `a` is swept, and the
/// result is `(L, Q, n, m, m)` with the transpose `L` of the swept matrix and
/// the accumulated rotations `Q`, so that `a` is `L·Q`. The three numbers are
/// the row count of the first factor, its column count, and the column count
/// of the second factor.
pub fn givens_rotation_qr<
    T: Copy,
    R: Copy,
    M: Fn(T, T) -> R + Copy,
    A: Fn(R, T, T) -> (T, T) + Copy,
>(a: &[T], n: usize, m: usize, zero: T, one: T, make: M, rotate: A) -> (res: (
    Vec<T>,
    Vec<T>,
    usize,
    usize,
    usize,
))
    requires
        n * m <= a.len(),
        n * n <= usize::MAX,
        m * m <= usize::MAX,
        rotations_callable(make, rotate),
    ensures
        n >= m ==> res.0.len() == n * n && res.1.len() == a.len(),
        n < m ==> res.0.len() == n * m && res.1.len() == m * m,
        givens_factored(
            make,
            rotate,
            a@,
            n as int,
            m as int,
            zero,
            one,
            (res.0@, res.1@, res.2 as int, res.3 as int, res.4 as int),
        ),
{
    if n < m {
        let mut r = transpose(a, n, m);
        let mut q = identity(m, zero, one);
        assert(m * n == n * m) by (nonlinear_arith);
        rotate_to_triangle(&mut r, &mut q, m, n, zero, one, make, rotate);
        (transpose(r.as_slice(), m, n), q, n, m, m)
    } else {
        let mut r = duplicate(a);
        let mut q = identity(n, zero, one);
        rotate_to_triangle(&mut r, &mut q, n, m, zero, one, make, rotate);
        (transpose(q.as_slice(), n, n), r, n, n, m)
    }
}

} // verus!
