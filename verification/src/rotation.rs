//! Plane rotations of a row-major matrix: a transform of pairs of elements,
//! applied along two neighbouring rows or two neighbouring columns.
//!
//! The transform itself is the caller's: `rotate(p, q)` gives the new pair for
//! the pair `(p, q)`, the first element being that of the upper row or the
//! left column.
//!
//! Both functions take the position `(i, j)` of the element that the rotation
//! is meant for and the window of rows `r1..=r2` and columns `c1..=c2` that it
//! acts on. A rotation of rows reads the row and the columns of these, a
//! rotation of columns the column and the rows.

use vstd::prelude::*;
use crate::layout::{at, lemma_offset_bound, lemma_offset_order, offset};

verus! {

/// `rotate` may be called on every pair of elements.
pub open spec fn rotation_callable<T, F: Fn(T, T) -> (T, T)>(rotate: F) -> bool {
    forall|p: T, q: T| call_requires(rotate, (p, q))
}

/// Makes the rotation of rows `i - 1` and `i` of the `n` by `m` matrix `a` that
/// is meant for the element at row `i`, column `j`: what `make` returned for
/// the element above it, the element itself, and `flip`, which asks for the
/// rotation onto the second axis instead of the first.
pub fn givens_left_rotation<T: Copy, R, M: Fn(T, T, bool) -> R>(
    a: &[T],
    n: usize,
    m: usize,
    i: usize,
    j: usize,
    flip: bool,
    make: M,
) -> (rot: R)
    requires
        1 <= i < n,
        j < m,
        n * m <= a.len(),
        forall|x: T, y: T, f: bool| call_requires(make, (x, y, f)),
    ensures
        call_ensures(make, (at(a@, i - 1, j as int, m as int), at(a@, i as int, j as int, m as int), flip), rot),
{
    proof {
        lemma_offset_bound(i as int, j as int, n as int, m as int);
        lemma_offset_bound(i - 1, j as int, n as int, m as int);
    }
    make(a[(i - 1) * m + j], a[i * m + j], flip)
}

/// Makes the rotation of columns `j - 1` and `j` of the `n` by `m` matrix `a`
/// that is meant for the element at row `i`, column `j`: what `make` returned
/// for the element to its left, the element itself, and `flip`.
pub fn givens_right_rotation<T: Copy, R, M: Fn(T, T, bool) -> R>(
    a: &[T],
    n: usize,
    m: usize,
    i: usize,
    j: usize,
    flip: bool,
    make: M,
) -> (rot: R)
    requires
        i < n,
        1 <= j < m,
        n * m <= a.len(),
        forall|x: T, y: T, f: bool| call_requires(make, (x, y, f)),
    ensures
        call_ensures(make, (at(a@, i as int, j - 1, m as int), at(a@, i as int, j as int, m as int), flip), rot),
{
    proof {
        lemma_offset_bound(i as int, j as int, n as int, m as int);
        lemma_offset_bound(i as int, j - 1, n as int, m as int);
    }
    make(a[i * m + j - 1], a[i * m + j], flip)
}

/// Applies `rotate` to rows `i - 1` and `i` of `a`, an `n` by `m` matrix, in
/// the columns `c1..=c2`: the pair of elements in each of these columns is
/// replaced by what `rotate` returned for it. Nothing else changes.
pub fn givens_left_rotation_multiply<T: Copy, F: Fn(T, T) -> (T, T)>(
    a: &mut [T],
    n: usize,
    m: usize,
    rotate: F,
    i: usize,
    _j: usize,
    _r1: usize,
    _r2: usize,
    c1: usize,
    c2: usize,
)
    requires
        1 <= i < n,
        c1 <= c2 < m,
        n * m <= old(a).len(),
        rotation_callable(rotate),
    ensures
        final(a)@.len() == old(a)@.len(),
        forall|j: int|
            c1 <= j <= c2 ==> call_ensures(
                rotate,
                (at(old(a)@, i - 1, j, m as int), at(old(a)@, i as int, j, m as int)),
                (#[trigger] at(final(a)@, i - 1, j, m as int), at(final(a)@, i as int, j, m as int)),
            ),
        forall|k: int|
            0 <= k < old(a)@.len() && !(offset(i - 1, c1 as int, m as int) <= k <= offset(
                i - 1,
                c2 as int,
                m as int,
            )) && !(offset(i as int, c1 as int, m as int) <= k <= offset(
                i as int,
                c2 as int,
                m as int,
            )) ==> final(a)@[k] == old(a)@[k],
{
    let mut j: usize = c1;
    proof {
        lemma_offset_bound(i as int, c2 as int, n as int, m as int);
        lemma_offset_bound(i - 1, c2 as int, n as int, m as int);
        assert((i - 1) * m + m == i * m) by (nonlinear_arith);
    }
    while j <= c2
        invariant
            1 <= i,
            c1 <= j <= c2 + 1,
            c2 < m,
            a.len() == old(a).len(),
            i * m + m <= a.len(),
            0 <= (i - 1) * m,
            (i - 1) * m + m == i * m,
            rotation_callable(rotate),
            forall|c: int|
                c1 <= c < j ==> call_ensures(
                    rotate,
                    (at(old(a)@, i - 1, c, m as int), at(old(a)@, i as int, c, m as int)),
                    (#[trigger] at(a@, i - 1, c, m as int), at(a@, i as int, c, m as int)),
                ),
            forall|k: int|
                0 <= k < a@.len() && !(offset(i - 1, c1 as int, m as int) <= k < offset(
                    i - 1,
                    j as int,
                    m as int,
                )) && !(offset(i as int, c1 as int, m as int) <= k < offset(
                    i as int,
                    j as int,
                    m as int,
                )) ==> a@[k] == old(a)@[k],
        decreases c2 + 1 - j,
    {
        let ghost prior = a@;
        let p = a[(i - 1) * m + j];
        let q = a[i * m + j];
        let (upper, lower) = rotate(p, q);
        a[(i - 1) * m + j] = upper;
        a[i * m + j] = lower;
        proof {
            assert forall|c: int| c1 <= c < j + 1 implies call_ensures(
                rotate,
                (at(old(a)@, i - 1, c, m as int), at(old(a)@, i as int, c, m as int)),
                (#[trigger] at(a@, i - 1, c, m as int), at(a@, i as int, c, m as int)),
            ) by {
                if c < j {
                    assert(call_ensures(
                        rotate,
                        (at(old(a)@, i - 1, c, m as int), at(old(a)@, i as int, c, m as int)),
                        (at(prior, i - 1, c, m as int), at(prior, i as int, c, m as int)),
                    ));
                }
            }
        }
        j += 1;
    }
}

/// Applies `rotate` to columns `j - 1` and `j` of `a`, an `n` by `m` matrix,
/// in the rows `r1..=r2`: the pair of elements in each of these rows is
/// replaced by what `rotate` returned for it. Nothing else changes.
pub fn givens_right_rotation_multiply<T: Copy, F: Fn(T, T) -> (T, T)>(
    a: &mut [T],
    n: usize,
    m: usize,
    rotate: F,
    _i: usize,
    j: usize,
    r1: usize,
    r2: usize,
    _c1: usize,
    _c2: usize,
)
    requires
        1 <= j < m,
        r1 <= r2 < n,
        n * m <= old(a).len(),
        rotation_callable(rotate),
    ensures
        final(a)@.len() == old(a)@.len(),
        forall|i: int|
            r1 <= i <= r2 ==> call_ensures(
                rotate,
                (at(old(a)@, i, j - 1, m as int), at(old(a)@, i, j as int, m as int)),
                (#[trigger] at(final(a)@, i, j - 1, m as int), at(final(a)@, i, j as int, m as int)),
            ),
        forall|i: int, c: int|
            0 <= i && 0 <= c < m && offset(i, c, m as int) < old(a)@.len() && !(r1 <= i <= r2 && (c
                == j - 1 || c == j)) ==> #[trigger] at(final(a)@, i, c, m as int) == at(
                old(a)@,
                i,
                c,
                m as int,
            ),
{
    let mut i: usize = r1;
    proof {
        lemma_offset_bound(r2 as int, 0, n as int, m as int);
    }
    while i <= r2
        invariant
            1 <= j < m,
            r1 <= i <= r2 + 1,
            r2 < n,
            a.len() == old(a).len(),
            r2 * m + m <= a.len(),
            rotation_callable(rotate),
            forall|r: int|
                r1 <= r < i ==> call_ensures(
                    rotate,
                    (at(old(a)@, r, j - 1, m as int), at(old(a)@, r, j as int, m as int)),
                    (#[trigger] at(a@, r, j - 1, m as int), at(a@, r, j as int, m as int)),
                ),
            forall|r: int, c: int|
                0 <= r && 0 <= c < m && offset(r, c, m as int) < a@.len() && !(r1 <= r < i && (c
                    == j - 1 || c == j)) ==> #[trigger] at(a@, r, c, m as int) == at(
                    old(a)@,
                    r,
                    c,
                    m as int,
                ),
        decreases r2 + 1 - i,
    {
        proof {
            lemma_offset_bound(i as int, j as int, r2 + 1, m as int);
            assert((r2 + 1) * m == r2 * m + m) by (nonlinear_arith);
        }
        let ghost prior = a@;
        let p = a[i * m + j - 1];
        let q = a[i * m + j];
        let (left, right) = rotate(p, q);
        a[i * m + j - 1] = left;
        a[i * m + j] = right;
        proof {
            let mi = m as int;
            assert forall|r: int| r1 <= r < i + 1 implies call_ensures(
                rotate,
                (at(old(a)@, r, j - 1, mi), at(old(a)@, r, j as int, mi)),
                (#[trigger] at(a@, r, j - 1, mi), at(a@, r, j as int, mi)),
            ) by {
                lemma_offset_order(r, j - 1, i as int, j - 1, mi);
                lemma_offset_order(i as int, j - 1, r, j - 1, mi);
                lemma_offset_order(r, j as int, i as int, j - 1, mi);
                lemma_offset_order(i as int, j - 1, r, j as int, mi);
                lemma_offset_order(r, j - 1, i as int, j as int, mi);
                lemma_offset_order(i as int, j as int, r, j - 1, mi);
                lemma_offset_order(r, j as int, i as int, j as int, mi);
                lemma_offset_order(i as int, j as int, r, j as int, mi);
                if r < i {
                    assert(call_ensures(
                        rotate,
                        (at(old(a)@, r, j - 1, mi), at(old(a)@, r, j as int, mi)),
                        (at(prior, r, j - 1, mi), at(prior, r, j as int, mi)),
                    ));
                } else {
                    assert(at(prior, r, j - 1, mi) == at(old(a)@, r, j - 1, mi));
                    assert(at(prior, r, j as int, mi) == at(old(a)@, r, j as int, mi));
                }
            }
            assert forall|r: int, c: int|
                0 <= r && 0 <= c < m && offset(r, c, mi) < a@.len() && !(r1 <= r < i + 1 && (c == j
                    - 1 || c == j)) implies #[trigger] at(a@, r, c, mi) == at(
                old(a)@,
                r,
                c,
                mi,
            ) by {
                lemma_offset_order(r, c, i as int, j - 1, mi);
                lemma_offset_order(i as int, j - 1, r, c, mi);
                lemma_offset_order(r, c, i as int, j as int, mi);
                lemma_offset_order(i as int, j as int, r, c, mi);
                assert(at(prior, r, c, mi) == at(old(a)@, r, c, mi));
            }
        }
        i += 1;
    }
}

} // verus!
