//! QR factorization by Householder reflections, with a triangular factor
//! whose diagonal is not negative, and the reduced factorization.
//!
//! The arithmetic is the caller's. `normal`, `mul_add` and `reflect` are those
//! of the module `householder`, `make` and `rotate` those of the module
//! `givens`; `is_negative(x)` says whether a diagonal element is negative and
//! `negate(x)` gives the negative of an element.

use vstd::prelude::*;
use crate::dense::{sub_mat, transpose, transposed, window};
use crate::givens::{givens_factored, givens_rotation_qr, rotations_callable};
use crate::householder::{householder_reflection_left_multiply, left_run, normal_callable};
use crate::kernel::always_callable;
use crate::layout::{at, larger, lemma_offset_bound, lemma_offset_order, smaller};
use crate::reflection::reflect_callable;

verus! {

/// The sign of row `i` of the `h` by `w` matrix `r0` was settled: where
/// `is_negative` denied that the diagonal element is negative, the row and
/// row `i` of the `h` by `h` matrix `q0` stay; where it said so, every
/// element of both rows became what `negate` returned for it.
pub open spec fn row_sign_settled<T, NG: Fn(T) -> bool, NE: Fn(T) -> T>(
    is_negative: NG,
    negate: NE,
    h: int,
    w: int,
    i: int,
    q0: Seq<T>,
    r0: Seq<T>,
    q1: Seq<T>,
    r1: Seq<T>,
) -> bool {
    ||| {
        &&& call_ensures(is_negative, (at(r0, i, i, w),), false)
        &&& forall|j: int| 0 <= j < w ==> #[trigger] at(r1, i, j, w) == at(r0, i, j, w)
        &&& forall|j: int| 0 <= j < h ==> #[trigger] at(q1, i, j, h) == at(q0, i, j, h)
    }
    ||| {
        &&& call_ensures(is_negative, (at(r0, i, i, w),), true)
        &&& forall|j: int|
            0 <= j < w ==> call_ensures(negate, (at(r0, i, j, w),), #[trigger] at(r1, i, j, w))
        &&& forall|j: int|
            0 <= j < h ==> call_ensures(negate, (at(q0, i, j, h),), #[trigger] at(q1, i, j, h))
    }
}

/// The signs of the rows that have a diagonal element were settled. Nothing
/// else changed.
pub open spec fn row_signs_settled<T, NG: Fn(T) -> bool, NE: Fn(T) -> T>(
    is_negative: NG,
    negate: NE,
    h: int,
    w: int,
    q0: Seq<T>,
    r0: Seq<T>,
    q1: Seq<T>,
    r1: Seq<T>,
) -> bool {
    &&& q1.len() == q0.len()
    &&& r1.len() == r0.len()
    &&& forall|i: int|
        0 <= i < smaller(h, w) ==> #[trigger] row_sign_settled(
            is_negative,
            negate,
            h,
            w,
            i,
            q0,
            r0,
            q1,
            r1,
        )
    &&& forall|i: int, j: int|
        smaller(h, w) <= i < h && 0 <= j < w ==> #[trigger] at(r1, i, j, w) == at(r0, i, j, w)
    &&& forall|i: int, j: int|
        smaller(h, w) <= i < h && 0 <= j < h ==> #[trigger] at(q1, i, j, h) == at(q0, i, j, h)
    &&& forall|k: int| h * w <= k < r0.len() ==> r1[k] == r0[k]
    &&& forall|k: int| h * h <= k < q0.len() ==> q1[k] == q0[k]
}

/// Replaces every element of row `i` of a matrix with `m` columns by what
/// `negate` returns for it.
fn negate_row<T: Copy, NE: Fn(T) -> T>(a: &mut [T], n: usize, m: usize, i: usize, negate: NE)
    requires
        i < n,
        n * m <= old(a).len(),
        forall|x: T| call_requires(negate, (x,)),
    ensures
        final(a).len() == old(a).len(),
        forall|j: int|
            0 <= j < m ==> call_ensures(
                negate,
                (at(old(a)@, i as int, j, m as int),),
                #[trigger] at(final(a)@, i as int, j, m as int),
            ),
        forall|t: int, j: int|
            0 <= t < n && 0 <= j < m && t != i ==> #[trigger] at(final(a)@, t, j, m as int) == at(
                old(a)@,
                t,
                j,
                m as int,
            ),
        forall|k: int| n * m <= k < old(a)@.len() ==> final(a)@[k] == old(a)@[k],
{
    let ghost mi = m as int;
    let mut j: usize = 0;
    while j < m
        invariant
            i < n,
            j <= m,
            mi == m,
            a.len() == old(a).len(),
            n * m <= a.len(),
            forall|x: T| call_requires(negate, (x,)),
            forall|c: int|
                0 <= c < j ==> call_ensures(
                    negate,
                    (at(old(a)@, i as int, c, mi),),
                    #[trigger] at(a@, i as int, c, mi),
                ),
            forall|t: int, c: int|
                0 <= t < n && 0 <= c < m && !(t == i && c < j) ==> #[trigger] at(a@, t, c, mi)
                    == at(old(a)@, t, c, mi),
            forall|k: int| n * m <= k < a@.len() ==> a@[k] == old(a)@[k],
        decreases m - j,
    {
        proof {
            lemma_offset_bound(i as int, j as int, n as int, mi);
        }
        let ghost prior = a@;
        let flipped = negate(a[i * m + j]);
        a[i * m + j] = flipped;
        proof {
            assert forall|c: int| 0 <= c < j + 1 implies call_ensures(
                negate,
                (at(old(a)@, i as int, c, mi),),
                #[trigger] at(a@, i as int, c, mi),
            ) by {
                if c < j {
                    assert(at(a@, i as int, c, mi) == at(prior, i as int, c, mi));
                } else {
                    assert(at(prior, i as int, j as int, mi) == at(old(a)@, i as int, j as int, mi));
                }
            }
            assert forall|t: int, c: int|
                0 <= t < n && 0 <= c < m && !(t == i && c < j + 1) implies #[trigger] at(
                a@,
                t,
                c,
                mi,
            ) == at(old(a)@, t, c, mi) by {
                lemma_offset_bound(t, c, n as int, mi);
                lemma_offset_order(t, c, i as int, j as int, mi);
                lemma_offset_order(i as int, j as int, t, c, mi);
                assert(at(prior, t, c, mi) == at(old(a)@, t, c, mi));
            }
        }
        j += 1;
    }
}

/// Settles the signs of the diagonal of the `h` by `w` upper triangular
/// matrix `r`: a row with a negative diagonal element is negated together
/// with the same row of the `h` by `h` matrix `q`, which leaves the product
/// of the transpose of `q` and `r` as it is.
pub fn settle_row_signs<T: Copy, NG: Fn(T) -> bool, NE: Fn(T) -> T + Copy>(
    q: &mut [T],
    r: &mut [T],
    h: usize,
    w: usize,
    is_negative: NG,
    negate: NE,
)
    requires
        h * h <= old(q).len(),
        h * w <= old(r).len(),
        forall|x: T| call_requires(is_negative, (x,)),
        forall|x: T| call_requires(negate, (x,)),
    ensures
        row_signs_settled(
            is_negative,
            negate,
            h as int,
            w as int,
            old(q)@,
            old(r)@,
            final(q)@,
            final(r)@,
        ),
{
    let ghost hi = h as int;
    let ghost wi = w as int;
    let count: usize = if h <= w {
        h
    } else {
        w
    };
    let mut i: usize = 0;
    while i < count
        invariant
            i <= count,
            count == smaller(hi, wi),
            hi == h,
            wi == w,
            q.len() == old(q).len(),
            r.len() == old(r).len(),
            h * h <= q.len(),
            h * w <= r.len(),
            forall|x: T| call_requires(is_negative, (x,)),
            forall|x: T| call_requires(negate, (x,)),
            forall|t: int|
                0 <= t < i ==> #[trigger] row_sign_settled(
                    is_negative,
                    negate,
                    hi,
                    wi,
                    t,
                    old(q)@,
                    old(r)@,
                    q@,
                    r@,
                ),
            forall|t: int, j: int|
                i <= t < h && 0 <= j < w ==> #[trigger] at(r@, t, j, wi) == at(old(r)@, t, j, wi),
            forall|t: int, j: int|
                i <= t < h && 0 <= j < h ==> #[trigger] at(q@, t, j, hi) == at(old(q)@, t, j, hi),
            forall|k: int| h * w <= k < r@.len() ==> r@[k] == old(r)@[k],
            forall|k: int| h * h <= k < q@.len() ==> q@[k] == old(q)@[k],
        decreases count - i,
    {
        proof {
            lemma_offset_bound(i as int, i as int, hi, wi);
        }
        let ghost q_prior = q@;
        let ghost r_prior = r@;
        if is_negative(r[i * w + i]) {
            negate_row(r, h, w, i, negate);
            negate_row(q, h, h, i, negate);
        }
        proof {
            assert(at(r_prior, i as int, i as int, wi) == at(old(r)@, i as int, i as int, wi));
            assert forall|j: int| 0 <= j < w implies at(r_prior, i as int, j, wi) == at(
                old(r)@,
                i as int,
                j,
                wi,
            ) by {
                assert(at(r_prior, i as int, j, wi) == at(old(r)@, i as int, j, wi));
            }
            assert forall|j: int| 0 <= j < h implies at(q_prior, i as int, j, hi) == at(
                old(q)@,
                i as int,
                j,
                hi,
            ) by {
                assert(at(q_prior, i as int, j, hi) == at(old(q)@, i as int, j, hi));
            }
            assert(row_sign_settled(
                is_negative,
                negate,
                hi,
                wi,
                i as int,
                old(q)@,
                old(r)@,
                q@,
                r@,
            ));
            assert forall|t: int| 0 <= t < i + 1 implies #[trigger] row_sign_settled(
                is_negative,
                negate,
                hi,
                wi,
                t,
                old(q)@,
                old(r)@,
                q@,
                r@,
            ) by {
                if t < i {
                    assert(row_sign_settled(
                        is_negative,
                        negate,
                        hi,
                        wi,
                        t,
                        old(q)@,
                        old(r)@,
                        q_prior,
                        r_prior,
                    ));
                    assert forall|j: int| 0 <= j < w implies #[trigger] at(r@, t, j, wi) == at(
                        r_prior,
                        t,
                        j,
                        wi,
                    ) by {}
                    assert forall|j: int| 0 <= j < h implies #[trigger] at(q@, t, j, hi) == at(
                        q_prior,
                        t,
                        j,
                        hi,
                    ) by {}
                }
            }
        }
        i += 1;
    }
}

/// The matrix that is reduced: the `n` by `m` matrix `a` itself, or its
/// transpose where it has fewer rows than columns.
pub open spec fn oriented<T>(a: Seq<T>, n: int, m: int) -> Seq<T> {
    if n < m {
        transposed(a, n, m)
    } else {
        a
    }
}

/// `res` is a Householder factorization of the `n` by `m` matrix `a`. For
/// `n >= m` the matrix is reduced from the left, the signs of the rows are
/// settled, and the result is `(Q, R, n, n, m)` with the transpose `Q` of the
/// accumulated reflections. For `n < m` the same is done to the transpose of
/// `a`, and the result is `(L, Q, n, m, m)` with the transpose `L` of the
/// reduced matrix and the accumulated reflections `Q`.
pub open spec fn householder_factored<
    T,
    N: Fn(Vec<T>) -> Option<Vec<T>>,
    F: Fn(T, T, T) -> T,
    G: Fn(T, T, T) -> T,
    NG: Fn(T) -> bool,
    NE: Fn(T) -> T,
>(
    normal: N,
    mul_add: F,
    reflect: G,
    is_negative: NG,
    negate: NE,
    a: Seq<T>,
    n: int,
    m: int,
    zero: T,
    one: T,
    res: (Seq<T>, Seq<T>, int, int, int),
) -> bool {
    exists|run: Seq<(Seq<T>, Seq<T>)>, q1: Seq<T>, r1: Seq<T>|
        {
            &&& #[trigger] left_run(
                normal,
                mul_add,
                reflect,
                oriented(a, n, m),
                larger(n, m),
                smaller(n, m),
                zero,
                one,
                run,
            )
            &&& run.len() == smaller(n, m) + 1
            &&& #[trigger] row_signs_settled(
                is_negative,
                negate,
                larger(n, m),
                smaller(n, m),
                run[run.len() - 1].0,
                run[run.len() - 1].1,
                q1,
                r1,
            )
            &&& if n < m {
                res == (transposed(r1, m, n), q1, n, m, m)
            } else {
                res == (transposed(q1, n, n), r1, n, n, m)
            }
        }
}

/// Factors the `n` by `m` matrix `a` by Householder reflections, with the
/// results laid out as those of `givens_rotation_qr` and the diagonal of the
/// triangular factor made non-negative.
pub fn householder_reflection_qr<
    T: Copy,
    N: Fn(Vec<T>) -> Option<Vec<T>> + Copy,
    F: Fn(T, T, T) -> T + Copy,
    G: Fn(T, T, T) -> T + Copy,
    NG: Fn(T) -> bool,
    NE: Fn(T) -> T + Copy,
>(
    a: &[T],
    n: usize,
    m: usize,
    zero: T,
    one: T,
    normal: N,
    mul_add: F,
    reflect: G,
    is_negative: NG,
    negate: NE,
) -> (res: (Vec<T>, Vec<T>, usize, usize, usize))
    requires
        n * m <= a.len(),
        n * n <= usize::MAX,
        m * m <= usize::MAX,
        normal_callable(normal),
        always_callable(mul_add),
        reflect_callable(reflect),
        forall|x: T| call_requires(is_negative, (x,)),
        forall|x: T| call_requires(negate, (x,)),
    ensures
        n >= m ==> res.0.len() == n * n && res.1.len() == a.len(),
        n < m ==> res.0.len() == n * m && res.1.len() == m * m,
        householder_factored(
            normal,
            mul_add,
            reflect,
            is_negative,
            negate,
            a@,
            n as int,
            m as int,
            zero,
            one,
            (res.0@, res.1@, res.2 as int, res.3 as int, res.4 as int),
        ),
{
    if n < m {
        let a1 = transpose(a, n, m);
        assert(m * n == n * m) by (nonlinear_arith);
        let (mut q, mut r) = householder_reflection_left_multiply(
            a1.as_slice(),
            m,
            n,
            zero,
            one,
            normal,
            mul_add,
            reflect,
        );
        let ghost q0 = q@;
        let ghost r0 = r@;
        let ghost run = choose|run: Seq<(Seq<T>, Seq<T>)>|
            #[trigger] left_run(normal, mul_add, reflect, a1@, m as int, n as int, zero, one, run)
                && run.len() == smaller(m as int, n as int) + 1 && run[run.len() - 1] == (q0, r0);
        settle_row_signs(q.as_mut_slice(), r.as_mut_slice(), m, n, is_negative, negate);
        let l = transpose(r.as_slice(), m, n);
        proof {
            let ni = n as int;
            let mi = m as int;
            assert(oriented(a@, ni, mi) == a1@ && larger(ni, mi) == mi && smaller(ni, mi) == ni);
            assert(smaller(mi, ni) == ni);
            assert(left_run(
                normal,
                mul_add,
                reflect,
                oriented(a@, ni, mi),
                larger(ni, mi),
                smaller(ni, mi),
                zero,
                one,
                run,
            ));
            assert(row_signs_settled(
                is_negative,
                negate,
                larger(ni, mi),
                smaller(ni, mi),
                run[run.len() - 1].0,
                run[run.len() - 1].1,
                q@,
                r@,
            ));
        }
        (l, q, n, m, m)
    } else {
        let (mut q, mut r) = householder_reflection_left_multiply(
            a,
            n,
            m,
            zero,
            one,
            normal,
            mul_add,
            reflect,
        );
        let ghost q0 = q@;
        let ghost r0 = r@;
        let ghost run = choose|run: Seq<(Seq<T>, Seq<T>)>|
            #[trigger] left_run(normal, mul_add, reflect, a@, n as int, m as int, zero, one, run)
                && run.len() == smaller(n as int, m as int) + 1 && run[run.len() - 1] == (q0, r0);
        settle_row_signs(q.as_mut_slice(), r.as_mut_slice(), n, m, is_negative, negate);
        let qt = transpose(q.as_slice(), n, n);
        proof {
            let ni = n as int;
            let mi = m as int;
            assert(oriented(a@, ni, mi) == a@ && larger(ni, mi) == ni && smaller(ni, mi) == mi);
            assert(left_run(
                normal,
                mul_add,
                reflect,
                oriented(a@, ni, mi),
                larger(ni, mi),
                smaller(ni, mi),
                zero,
                one,
                run,
            ));
            assert(row_signs_settled(
                is_negative,
                negate,
                larger(ni, mi),
                smaller(ni, mi),
                run[run.len() - 1].0,
                run[run.len() - 1].1,
                q@,
                r@,
            ));
        }
        (qt, r, n, n, m)
    }
}

/// The reduced factorization of the `n` by `m` matrix `a` by Givens
/// rotations. For `n > m > 0` it is the first `m` columns of the orthogonal
/// factor and the first `m` rows of the triangular one. For any other shape
/// it is the two factors of `givens_rotation_qr`.
pub fn qr<T: Copy, R: Copy, M: Fn(T, T) -> R + Copy, A: Fn(R, T, T) -> (T, T) + Copy>(
    a: &[T],
    n: usize,
    m: usize,
    zero: T,
    one: T,
    make: M,
    rotate: A,
) -> (res: (Vec<T>, Vec<T>))
    requires
        n * m <= a.len(),
        n * n <= usize::MAX,
        m * m <= usize::MAX,
        rotations_callable(make, rotate),
    ensures
        exists|q: Seq<T>, r: Seq<T>|
            {
                &&& #[trigger] givens_factored(
                    make,
                    rotate,
                    a@,
                    n as int,
                    m as int,
                    zero,
                    one,
                    (q, r, n as int, larger(n as int, m as int), m as int),
                )
                &&& if n > m > 0 {
                    &&& res.0@ == window(q, n as int, 0, 0, n as int, m as int)
                    &&& res.1@ == window(r, m as int, 0, 0, m as int, m as int)
                } else {
                    res.0@ == q && res.1@ == r
                }
            },
{
    let (q, r, _, _, _) = givens_rotation_qr(a, n, m, zero, one, make, rotate);
    proof {
        assert(givens_factored(
            make,
            rotate,
            a@,
            n as int,
            m as int,
            zero,
            one,
            (q@, r@, n as int, larger(n as int, m as int), m as int),
        ));
    }
    if m < n && m > 0 {
        let x = sub_mat(q.as_slice(), n, n, 0, n - 1, 0, m - 1);
        let y = sub_mat(r.as_slice(), n, m, 0, m - 1, 0, m - 1);
        return (x, y);
    }
    (q, r)
}

} // verus!
