//! Singular value decomposition of a bidiagonalized matrix by implicit-shift
//! sweeps.
//!
//! The arithmetic is the caller's. `shift(d1, d2, d3, d4)` gives the shift of
//! a step from the last three diagonal and superdiagonal entries of its block
//! and the superdiagonal entry before them; `head(u, v, mu)` gives the pair
//! that the first rotation of a step is made from, for the first diagonal and
//! superdiagonal entry of the block and the shift; `make` and `rotate` are
//! those of the module `givens`.

use vstd::prelude::*;
use crate::dense::{prefix, sub_mat, transpose, transposed, window};
use crate::error::MatrixError;
use crate::givens::{
    columns_rotated,
    givens_factored,
    givens_rotation_qr,
    rotate_columns,
    rotate_rows,
    rotations_callable,
    rows_rotated,
};
use crate::householder::{both_run, householder_reflection_bidiagonalization, normal_callable};
use crate::kernel::{always_callable, is_product, matrix_multiply_simd};
use crate::layout::{at, larger, lemma_offset_bound, lemma_offset_order, smaller};
use crate::reflection::reflect_callable;
use crate::sweep::{active_block, is_active_block};

verus! {

/// The state of the sweeps: the bidiagonal matrix and the accumulated
/// rotations from the left and from the right.
pub struct Sweep<T> {
    pub b: Seq<T>,
    pub l: Seq<T>,
    pub r: Seq<T>,
}

/// `shift` and `head` may be called on all arguments.
pub open spec fn shift_callable<T, S: Fn(T, T, T, T) -> T, H: Fn(T, T, T) -> (T, T)>(
    shift: S,
    head: H,
) -> bool {
    &&& forall|d1: T, d2: T, d3: T, d4: T| call_requires(shift, (d1, d2, d3, d4))
    &&& forall|u: T, v: T, mu: T| call_requires(head, (u, v, mu))
}

/// The pair that the rotation from the right at position `k` of a step on
/// the block from `i` on is made from: the pair `lead` at the start of the
/// block, and after it the superdiagonal entry of row `k - 1` and the bulge
/// beside it.
pub open spec fn right_pair<T>(b: Seq<T>, z: int, i: int, k: int, lead: (T, T)) -> (T, T) {
    if k == i {
        lead
    } else {
        (at(b, k - 1, k, z), at(b, k - 1, k + 1, z))
    }
}

/// The part of a step at position `k` of the block from `i` to `j`: a
/// rotation of columns `k` and `k + 1`, applied to the `z` by `z` matrix
/// `s0.b` in the rows of the block and to all rows of the `m` by `z` matrix
/// `s0.r`; then a rotation of rows `k` and `k + 1`, made from the diagonal
/// entry and the bulge below it, applied to the matrix in the columns of the
/// block and to all columns of the `z` by `n` matrix `s0.l`.
pub open spec fn chase_step<T, R, M: Fn(T, T) -> R, A: Fn(R, T, T) -> (T, T)>(
    make: M,
    rotate: A,
    n: int,
    m: int,
    z: int,
    i: int,
    j: int,
    lead: (T, T),
    k: int,
    s0: Sweep<T>,
    s1: Sweep<T>,
) -> bool {
    exists|right: R, mid: Seq<T>, left: R|
        {
            &&& #[trigger] call_ensures(make, right_pair(s0.b, z, i, k, lead), right)
            &&& #[trigger] columns_rotated(rotate, right, s0.b, mid, z, k + 1, i, j)
            &&& columns_rotated(rotate, right, s0.r, s1.r, z, k + 1, 0, m - 1)
            &&& #[trigger] call_ensures(make, (at(mid, k, k, z), at(mid, k + 1, k, z)), left)
            &&& rows_rotated(rotate, left, mid, s1.b, z, k + 1, i, j)
            &&& rows_rotated(rotate, left, s0.l, s1.l, n, k + 1, 0, n - 1)
        }
}

/// The chase of a step along the block from `i` to `j`: `run` lists the
/// states after every position from `i` on.
pub open spec fn chase_run<T, R, M: Fn(T, T) -> R, A: Fn(R, T, T) -> (T, T)>(
    make: M,
    rotate: A,
    n: int,
    m: int,
    z: int,
    i: int,
    j: int,
    lead: (T, T),
    run: Seq<Sweep<T>>,
) -> bool {
    &&& run.len() >= 1
    &&& forall|t: int|
        0 <= t < run.len() - 1 ==> #[trigger] chase_step(
            make,
            rotate,
            n,
            m,
            z,
            i,
            j,
            lead,
            i + t,
            run[t],
            run[t + 1],
        )
}

/// The superdiagonal entry before the last three entries of the block that
/// ends at diagonal entry `j`, or `zero` where the matrix starts later.
pub open spec fn entry_before<T>(b: Seq<T>, z: int, j: int, zero: T) -> T {
    if j >= 2 {
        at(b, j - 2, j - 1, z)
    } else {
        zero
    }
}

/// The number of diagonal entries up to the end of a block whose last row is
/// `i2` and whose last column is `j2`.
pub open spec fn block_size(i2: int, j2: int) -> int {
    if i2 <= j2 {
        i2 + 1
    } else {
        j2 + 1
    }
}

/// The shift for the block of the bidiagonal matrix `a`, a matrix with `m`
/// columns, that ends at row `i2` and column `j2`: what `shift` returns for
/// the last two diagonal entries of the block, the superdiagonal entry
/// between them and the one before, where `zero` stands for an entry that a
/// block of one or two diagonal entries lacks.
pub fn eigenvalue_bidiagonal<T: Copy, S: Fn(T, T, T, T) -> T>(
    a: &[T],
    n: usize,
    m: usize,
    _i1: usize,
    i2: usize,
    _j1: usize,
    j2: usize,
    zero: T,
    shift: S,
) -> (mu: T)
    requires
        i2 < n,
        j2 < m,
        n * m <= a.len(),
        forall|d1: T, d2: T, d3: T, d4: T| call_requires(shift, (d1, d2, d3, d4)),
    ensures
        call_ensures(
            shift,
            (
                if block_size(i2 as int, j2 as int) >= 3 {
                    at(
                        a@,
                        block_size(i2 as int, j2 as int) - 3,
                        block_size(i2 as int, j2 as int) - 2,
                        m as int,
                    )
                } else {
                    zero
                },
                if block_size(i2 as int, j2 as int) >= 2 {
                    at(
                        a@,
                        block_size(i2 as int, j2 as int) - 2,
                        block_size(i2 as int, j2 as int) - 2,
                        m as int,
                    )
                } else {
                    zero
                },
                if block_size(i2 as int, j2 as int) >= 2 {
                    at(
                        a@,
                        block_size(i2 as int, j2 as int) - 2,
                        block_size(i2 as int, j2 as int) - 1,
                        m as int,
                    )
                } else {
                    zero
                },
                at(
                    a@,
                    block_size(i2 as int, j2 as int) - 1,
                    block_size(i2 as int, j2 as int) - 1,
                    m as int,
                ),
            ),
            mu,
        ),
{
    let h: usize = if i2 <= j2 {
        i2 + 1
    } else {
        j2 + 1
    };
    let ghost ni = n as int;
    let ghost mi = m as int;
    proof {
        lemma_offset_bound(h - 1, h - 1, ni, mi);
        if h >= 2 {
            lemma_offset_bound(h - 2, h - 2, ni, mi);
            lemma_offset_bound(h - 2, h - 1, ni, mi);
        }
        if h >= 3 {
            lemma_offset_bound(h - 3, h - 2, ni, mi);
        }
    }
    let d1 = if h >= 3 {
        a[(h - 3) * m + (h - 2)]
    } else {
        zero
    };
    let d2 = if h >= 2 {
        a[(h - 2) * m + (h - 2)]
    } else {
        zero
    };
    let d3 = if h >= 2 {
        a[(h - 2) * m + (h - 1)]
    } else {
        zero
    };
    let d4 = a[(h - 1) * m + (h - 1)];
    shift(d1, d2, d3, d4)
}

/// One implicit-shift step on the block from diagonal entry `i` to diagonal
/// entry `j` took the state `s0` to `s1`: the shift is what `shift` returned
/// for the end of the block, the first pair what `head` returned for the
/// start of the block and the shift, and the chase ran from `i` to `j`.
pub open spec fn stepped<
    T,
    R,
    S: Fn(T, T, T, T) -> T,
    H: Fn(T, T, T) -> (T, T),
    M: Fn(T, T) -> R,
    A: Fn(R, T, T) -> (T, T),
>(
    shift: S,
    head: H,
    make: M,
    rotate: A,
    n: int,
    m: int,
    z: int,
    i: int,
    j: int,
    zero: T,
    s0: Sweep<T>,
    s1: Sweep<T>,
) -> bool {
    exists|mu: T, lead: (T, T), run: Seq<Sweep<T>>|
        {
            &&& #[trigger] call_ensures(
                shift,
                (
                    entry_before(s0.b, z, j, zero),
                    at(s0.b, j - 1, j - 1, z),
                    at(s0.b, j - 1, j, z),
                    at(s0.b, j, j, z),
                ),
                mu,
            )
            &&& #[trigger] call_ensures(head, (at(s0.b, i, i, z), at(s0.b, i, i + 1, z), mu), lead)
            &&& #[trigger] chase_run(make, rotate, n, m, z, i, j, lead, run)
            &&& run.len() == j - i + 1
            &&& run[0] == s0
            &&& run[j - i] == s1
        }
}

/// Performs one implicit-shift step on the block from diagonal entry `i` to
/// diagonal entry `j` of the `z` by `z` bidiagonal matrix `a`. The rotations
/// from the left are applied to the `z` by `n` matrix `l` too, those from the
/// right to the `m` by `z` matrix `r`.
pub fn golub_kahan<
    T: Copy,
    R: Copy,
    S: Fn(T, T, T, T) -> T,
    H: Fn(T, T, T) -> (T, T),
    M: Fn(T, T) -> R + Copy,
    A: Fn(R, T, T) -> (T, T) + Copy,
>(
    a: &mut [T],
    l: &mut [T],
    r: &mut [T],
    n: usize,
    m: usize,
    z: usize,
    i: usize,
    j: usize,
    zero: T,
    shift: S,
    head: H,
    make: M,
    rotate: A,
)
    requires
        i < j < z,
        0 < n,
        0 < m,
        z * z <= old(a).len(),
        z * n <= old(l).len(),
        m * z <= old(r).len(),
        shift_callable(shift, head),
        rotations_callable(make, rotate),
    ensures
        final(a).len() == old(a).len(),
        final(l).len() == old(l).len(),
        final(r).len() == old(r).len(),
        stepped(
            shift,
            head,
            make,
            rotate,
            n as int,
            m as int,
            z as int,
            i as int,
            j as int,
            zero,
            Sweep { b: old(a)@, l: old(l)@, r: old(r)@ },
            Sweep { b: final(a)@, l: final(l)@, r: final(r)@ },
        ),
{
    let ghost s0 = Sweep { b: a@, l: l@, r: r@ };
    let ghost zi = z as int;
    proof {
        lemma_offset_bound(j as int, j as int, zi, zi);
        lemma_offset_bound(j - 1, j as int, zi, zi);
        lemma_offset_bound(j - 1, j - 1, zi, zi);
        lemma_offset_bound(i as int, i as int, zi, zi);
        lemma_offset_bound(i as int, i + 1, zi, zi);
        if j >= 2 {
            lemma_offset_bound(j - 2, j - 1, zi, zi);
        }
    }
    let mu = eigenvalue_bidiagonal(a, z, z, i, j, i, j, zero, shift);
    let lead = head(a[i * z + i], a[i * z + i + 1], mu);
    let ghost mut run: Seq<Sweep<T>> = seq![s0];
    let mut k: usize = i;
    while k < j
        invariant
            i <= k <= j < z,
            0 < n,
            0 < m,
            zi == z,
            a.len() == old(a).len(),
            l.len() == old(l).len(),
            r.len() == old(r).len(),
            z * z <= a.len(),
            z * n <= l.len(),
            m * z <= r.len(),
            rotations_callable(make, rotate),
            chase_run(make, rotate, n as int, m as int, zi, i as int, j as int, lead, run),
            run.len() == k - i + 1,
            run[0] == s0,
            run[k - i] == (Sweep { b: a@, l: l@, r: r@ }),
        decreases j - k,
    {
        let ghost before = run;
        let ghost t0 = Sweep { b: a@, l: l@, r: r@ };
        proof {
            lemma_offset_bound(k as int, k as int, zi, zi);
            lemma_offset_bound(k + 1, k as int, zi, zi);
            if k > i {
                lemma_offset_bound(k - 1, k as int, zi, zi);
                lemma_offset_bound(k - 1, k + 1, zi, zi);
            }
        }
        let right = if k == i {
            make(lead.0, lead.1)
        } else {
            make(a[(k - 1) * z + k], a[(k - 1) * z + k + 1])
        };
        assert(call_ensures(make, right_pair(t0.b, zi, i as int, k as int, lead), right));
        rotate_columns(a, z, z, right, rotate, k + 1, i, j);
        rotate_columns(r, m, z, right, rotate, k + 1, 0, m - 1);
        let ghost mid = a@;
        let left = make(a[k * z + k], a[(k + 1) * z + k]);
        rotate_rows(a, z, z, left, rotate, k + 1, i, j);
        rotate_rows(l, z, n, left, rotate, k + 1, 0, n - 1);
        proof {
            let t1 = Sweep { b: a@, l: l@, r: r@ };
            assert(columns_rotated(rotate, right, t0.b, mid, zi, k + 1, i as int, j as int));
            assert(call_ensures(
                make,
                (at(mid, k as int, k as int, zi), at(mid, k + 1, k as int, zi)),
                left,
            ));
            assert(chase_step(
                make,
                rotate,
                n as int,
                m as int,
                zi,
                i as int,
                j as int,
                lead,
                k as int,
                t0,
                t1,
            ));
            run = before.push(t1);
            assert forall|t: int| 0 <= t < run.len() - 1 implies #[trigger] chase_step(
                make,
                rotate,
                n as int,
                m as int,
                zi,
                i as int,
                j as int,
                lead,
                i + t,
                run[t],
                run[t + 1],
            ) by {
                if t < k - i {
                    assert(chase_step(
                        make,
                        rotate,
                        n as int,
                        m as int,
                        zi,
                        i as int,
                        j as int,
                        lead,
                        i + t,
                        before[t],
                        before[t + 1],
                    ));
                }
            }
        }
        k += 1;
    }
    proof {
        assert(call_ensures(
            shift,
            (
                entry_before(s0.b, zi, j as int, zero),
                at(s0.b, j - 1, j - 1, zi),
                at(s0.b, j - 1, j as int, zi),
                at(s0.b, j as int, j as int, zi),
            ),
            mu,
        ));
        assert(call_ensures(
            head,
            (at(s0.b, i as int, i as int, zi), at(s0.b, i as int, i + 1, zi), mu),
            lead,
        ));
        assert(chase_run(make, rotate, n as int, m as int, zi, i as int, j as int, lead, run));
    }
}

/// The test of the superdiagonal entry `i` of the `r` by `r` matrix `before`:
/// where `negligible` said yes of the entry and its two diagonal neighbours,
/// the entry is `zero` in `after`, else it stays; and `coupled` is what
/// `is_zero` denied of the entry of `after`.
pub open spec fn entry_deflated<T, Q: Fn(T, T, T) -> bool, Z: Fn(T) -> bool>(
    negligible: Q,
    is_zero: Z,
    r: int,
    zero: T,
    i: int,
    before: Seq<T>,
    after: Seq<T>,
    coupled: bool,
) -> bool {
    let e = at(before, i, i + 1, r);
    let d1 = at(before, i, i, r);
    let d2 = at(before, i + 1, i + 1, r);
    &&& (call_ensures(negligible, (e, d1, d2), true) && at(after, i, i + 1, r) == zero)
        || (call_ensures(negligible, (e, d1, d2), false) && at(after, i, i + 1, r) == e)
    &&& call_ensures(is_zero, (at(after, i, i + 1, r),), !coupled)
}

/// The negligible entries of the superdiagonal of the `r` by `r` matrix
/// `before` were set to `zero`, which gave `after`, and `coupled` says of
/// every superdiagonal entry of `after` whether it is still different from
/// zero. Nothing but the superdiagonal changed.
pub open spec fn deflated<T, Q: Fn(T, T, T) -> bool, Z: Fn(T) -> bool>(
    negligible: Q,
    is_zero: Z,
    r: int,
    zero: T,
    before: Seq<T>,
    after: Seq<T>,
    coupled: Seq<bool>,
) -> bool {
    &&& after.len() == before.len()
    &&& coupled.len() == (if r >= 1 {
        r - 1
    } else {
        0
    })
    &&& forall|i: int|
        0 <= i < r - 1 ==> #[trigger] entry_deflated(
            negligible,
            is_zero,
            r,
            zero,
            i,
            before,
            after,
            coupled[i],
        )
    &&& forall|i: int, j: int|
        0 <= i < r && 0 <= j < r && j != i + 1 ==> #[trigger] at(after, i, j, r) == at(
            before,
            i,
            j,
            r,
        )
    &&& forall|k: int| r * r <= k < before.len() ==> after[k] == before[k]
}

/// Sets the negligible entries of the superdiagonal of the `r` by `r` matrix
/// `b` to `zero` and says of every superdiagonal entry whether it is still
/// different from zero.
pub fn deflate<T: Copy, Q: Fn(T, T, T) -> bool, Z: Fn(T) -> bool>(
    b: &mut [T],
    r: usize,
    zero: T,
    negligible: Q,
    is_zero: Z,
) -> (coupled: Vec<bool>)
    requires
        r * r <= old(b).len(),
        forall|e: T, d1: T, d2: T| call_requires(negligible, (e, d1, d2)),
        forall|x: T| call_requires(is_zero, (x,)),
    ensures
        deflated(negligible, is_zero, r as int, zero, old(b)@, final(b)@, coupled@),
{
    let mut coupled: Vec<bool> = Vec::new();
    if r == 0 {
        return coupled;
    }
    let ghost ri = r as int;
    let mut i: usize = 0;
    while i < r - 1
        invariant
            1 <= r,
            ri == r,
            i <= r - 1,
            b.len() == old(b).len(),
            r * r <= b.len(),
            coupled.len() == i,
            forall|e: T, d1: T, d2: T| call_requires(negligible, (e, d1, d2)),
            forall|x: T| call_requires(is_zero, (x,)),
            forall|t: int|
                0 <= t < i ==> #[trigger] entry_deflated(
                    negligible,
                    is_zero,
                    ri,
                    zero,
                    t,
                    old(b)@,
                    b@,
                    coupled@[t],
                ),
            forall|t: int, j: int|
                0 <= t < r && 0 <= j < r && !(j == t + 1 && t < i) ==> #[trigger] at(b@, t, j, ri)
                    == at(old(b)@, t, j, ri),
            forall|k: int| r * r <= k < b@.len() ==> b@[k] == old(b)@[k],
        decreases r - 1 - i,
    {
        proof {
            lemma_offset_bound(i as int, i + 1, ri, ri);
            lemma_offset_bound(i as int, i as int, ri, ri);
            lemma_offset_bound(i + 1, i + 1, ri, ri);
        }
        let ghost prior = b@;
        let ghost marks = coupled@;
        let e = b[i * r + i + 1];
        if negligible(e, b[i * r + i], b[(i + 1) * r + i + 1]) {
            b[i * r + i + 1] = zero;
        }
        let off = is_zero(b[i * r + i + 1]);
        coupled.push(!off);
        proof {
            assert forall|t: int, j: int|
                0 <= t < r && 0 <= j < r && !(j == t + 1 && t < i + 1) implies #[trigger] at(
                b@,
                t,
                j,
                ri,
            ) == at(old(b)@, t, j, ri) by {
                lemma_offset_bound(t, j, ri, ri);
                lemma_offset_order(t, j, i as int, i + 1, ri);
                lemma_offset_order(i as int, i + 1, t, j, ri);
                assert(at(prior, t, j, ri) == at(old(b)@, t, j, ri));
            }
            assert forall|t: int| 0 <= t < i + 1 implies #[trigger] entry_deflated(
                negligible,
                is_zero,
                ri,
                zero,
                t,
                old(b)@,
                b@,
                coupled@[t],
            ) by {
                if t < i {
                    lemma_offset_order(t, t + 1, i as int, i + 1, ri);
                    assert(entry_deflated(
                        negligible,
                        is_zero,
                        ri,
                        zero,
                        t,
                        old(b)@,
                        prior,
                        marks[t],
                    ));
                    assert(at(b@, t, t + 1, ri) == at(prior, t, t + 1, ri));
                } else {
                    assert(at(prior, i as int, i + 1, ri) == at(old(b)@, i as int, i + 1, ri));
                    assert(at(prior, i as int, i as int, ri) == at(old(b)@, i as int, i as int, ri));
                    assert(at(prior, i + 1, i + 1, ri) == at(old(b)@, i + 1, i + 1, ri));
                }
            }
        }
        i += 1;
    }
    coupled
}

/// One rotation of the chase of a zero diagonal entry in row `i` of the `r` by
/// `r` matrix `b0`: the rotation is made from the entries of rows `i` and
/// `i + 1` in column `j`, and applied to these two rows of the matrix and of
/// the `r` by `n` matrix `l0`.
pub open spec fn flip_step<T, R, M: Fn(T, T) -> R, A: Fn(R, T, T) -> (T, T)>(
    make_flipped: M,
    rotate: A,
    n: int,
    r: int,
    i: int,
    j: int,
    s0: (Seq<T>, Seq<T>),
    s1: (Seq<T>, Seq<T>),
) -> bool {
    exists|rot: R|
        {
            &&& #[trigger] call_ensures(
                make_flipped,
                (at(s0.0, i, j, r), at(s0.0, i + 1, j, r)),
                rot,
            )
            &&& rows_rotated(rotate, rot, s0.0, s1.0, r, i + 1, 0, r - 1)
            &&& rows_rotated(rotate, rot, s0.1, s1.1, n, i + 1, 0, n - 1)
        }
}

/// The chase of a zero diagonal entry in row `i`: `run` lists the pairs of
/// matrix and rotations from the left after the rotation for every column
/// from `i + 1` on.
pub open spec fn flip_run<T, R, M: Fn(T, T) -> R, A: Fn(R, T, T) -> (T, T)>(
    make_flipped: M,
    rotate: A,
    n: int,
    r: int,
    i: int,
    run: Seq<(Seq<T>, Seq<T>)>,
) -> bool {
    &&& run.len() >= 1
    &&& forall|t: int|
        0 <= t < run.len() - 1 ==> #[trigger] flip_step(
            make_flipped,
            rotate,
            n,
            r,
            i,
            i + 1 + t,
            run[t],
            run[t + 1],
        )
}

/// The treatment of the diagonal entry `i`: where `is_zero` denied that it is
/// zero, nothing changes and the flag stays; where it said so, the flag is
/// set and the entry is chased through the columns `i + 1..r`.
pub open spec fn row_chased<T, R, Z: Fn(T) -> bool, M: Fn(T, T) -> R, A: Fn(R, T, T) -> (T, T)>(
    is_zero: Z,
    make_flipped: M,
    rotate: A,
    n: int,
    r: int,
    i: int,
    s0: (Seq<T>, Seq<T>, bool),
    s1: (Seq<T>, Seq<T>, bool),
) -> bool {
    ||| call_ensures(is_zero, (at(s0.0, i, i, r),), false) && s1 == s0
    ||| call_ensures(is_zero, (at(s0.0, i, i, r),), true) && s1.2 && exists|
        run: Seq<(Seq<T>, Seq<T>)>,
    |
        {
            &&& #[trigger] flip_run(make_flipped, rotate, n, r, i, run)
            &&& run.len() == r - i
            &&& run[0] == (s0.0, s0.1)
            &&& run[r - i - 1] == (s1.0, s1.1)
        }
}

/// The treatment of the diagonal entries from `p` on in turn: `run` lists the
/// matrix, the rotations from the left and the flag that says whether any
/// entry so far was zero.
pub open spec fn block_run<T, R, Z: Fn(T) -> bool, M: Fn(T, T) -> R, A: Fn(R, T, T) -> (T, T)>(
    is_zero: Z,
    make_flipped: M,
    rotate: A,
    n: int,
    r: int,
    p: int,
    run: Seq<(Seq<T>, Seq<T>, bool)>,
) -> bool {
    &&& run.len() >= 1
    &&& forall|t: int|
        0 <= t < run.len() - 1 ==> #[trigger] row_chased(
            is_zero,
            make_flipped,
            rotate,
            n,
            r,
            p + t,
            run[t],
            run[t + 1],
        )
}

/// The zero diagonal entries of the block from `p` to `q` of the `r` by `r`
/// matrix `b0` were chased, which took the matrix to `b1` and the `r` by `n`
/// matrix `l0` to `l1`; `flag` says whether there was any.
pub open spec fn zeros_chased<T, R, Z: Fn(T) -> bool, M: Fn(T, T) -> R, A: Fn(R, T, T) -> (T, T)>(
    is_zero: Z,
    make_flipped: M,
    rotate: A,
    n: int,
    r: int,
    p: int,
    q: int,
    b0: Seq<T>,
    l0: Seq<T>,
    b1: Seq<T>,
    l1: Seq<T>,
    flag: bool,
) -> bool {
    exists|run: Seq<(Seq<T>, Seq<T>, bool)>|
        {
            &&& #[trigger] block_run(is_zero, make_flipped, rotate, n, r, p, run)
            &&& run.len() == q - p + 1
            &&& run[0] == (b0, l0, false)
            &&& run[q - p] == (b1, l1, flag)
        }
}

/// Chases the zero diagonal entry of row `i` of the `r` by `r` matrix `b`
/// through the columns `i + 1..r`, and applies the rotations to the `r` by `n`
/// matrix `u` too.
fn chase_row<T: Copy, R: Copy, M: Fn(T, T) -> R, A: Fn(R, T, T) -> (T, T) + Copy>(
    b: &mut [T],
    u: &mut [T],
    n: usize,
    r: usize,
    i: usize,
    make_flipped: M,
    rotate: A,
)
    requires
        i + 1 < r,
        0 < n,
        r * r <= old(b).len(),
        r * n <= old(u).len(),
        forall|x: T, y: T| call_requires(make_flipped, (x, y)),
        forall|rot: R, x: T, y: T| call_requires(rotate, (rot, x, y)),
    ensures
        final(b).len() == old(b).len(),
        final(u).len() == old(u).len(),
        exists|run: Seq<(Seq<T>, Seq<T>)>|
            {
                &&& #[trigger] flip_run(make_flipped, rotate, n as int, r as int, i as int, run)
                &&& run.len() == r - i
                &&& run[0] == (old(b)@, old(u)@)
                &&& run[r - i - 1] == (final(b)@, final(u)@)
            },
{
    let ghost ri = r as int;
    let ghost mut run: Seq<(Seq<T>, Seq<T>)> = seq![(b@, u@)];
    let mut j: usize = i + 1;
    while j < r
        invariant
            i + 1 <= j <= r,
            i + 1 < r,
            0 < n,
            ri == r,
            b.len() == old(b).len(),
            u.len() == old(u).len(),
            r * r <= b.len(),
            r * n <= u.len(),
            forall|x: T, y: T| call_requires(make_flipped, (x, y)),
            forall|rot: R, x: T, y: T| call_requires(rotate, (rot, x, y)),
            flip_run(make_flipped, rotate, n as int, ri, i as int, run),
            run.len() == j - i,
            run[0] == (old(b)@, old(u)@),
            run[j - i - 1] == (b@, u@),
        decreases r - j,
    {
        proof {
            lemma_offset_bound(i as int, j as int, ri, ri);
            lemma_offset_bound(i + 1, j as int, ri, ri);
        }
        let ghost before = run;
        let ghost t0 = (b@, u@);
        let rot = make_flipped(b[i * r + j], b[(i + 1) * r + j]);
        rotate_rows(b, r, r, rot, rotate, i + 1, 0, r - 1);
        rotate_rows(u, r, n, rot, rotate, i + 1, 0, n - 1);
        proof {
            let t1 = (b@, u@);
            assert(call_ensures(
                make_flipped,
                (at(t0.0, i as int, j as int, ri), at(t0.0, i + 1, j as int, ri)),
                rot,
            ));
            assert(flip_step(make_flipped, rotate, n as int, ri, i as int, j as int, t0, t1));
            run = before.push(t1);
            assert forall|t: int| 0 <= t < run.len() - 1 implies #[trigger] flip_step(
                make_flipped,
                rotate,
                n as int,
                ri,
                i as int,
                i + 1 + t,
                run[t],
                run[t + 1],
            ) by {
                if t < j - i - 1 {
                    assert(flip_step(
                        make_flipped,
                        rotate,
                        n as int,
                        ri,
                        i as int,
                        i + 1 + t,
                        before[t],
                        before[t + 1],
                    ));
                }
            }
        }
        j += 1;
    }
    assert(flip_run(make_flipped, rotate, n as int, ri, i as int, run));
}

/// Chases the zero diagonal entries of the block from `p` to `q` of the `r` by
/// `r` matrix `b` and applies the rotations to the `r` by `n` matrix `u` too.
/// Says whether there was any.
pub fn chase_zero_diagonals<
    T: Copy,
    R: Copy,
    Z: Fn(T) -> bool,
    M: Fn(T, T) -> R + Copy,
    A: Fn(R, T, T) -> (T, T) + Copy,
>(
    b: &mut [T],
    u: &mut [T],
    n: usize,
    r: usize,
    p: usize,
    q: usize,
    is_zero: Z,
    make_flipped: M,
    rotate: A,
) -> (flag: bool)
    requires
        p < q < r,
        0 < n,
        r * r <= old(b).len(),
        r * n <= old(u).len(),
        forall|x: T| call_requires(is_zero, (x,)),
        forall|x: T, y: T| call_requires(make_flipped, (x, y)),
        forall|rot: R, x: T, y: T| call_requires(rotate, (rot, x, y)),
    ensures
        final(b).len() == old(b).len(),
        final(u).len() == old(u).len(),
        zeros_chased(
            is_zero,
            make_flipped,
            rotate,
            n as int,
            r as int,
            p as int,
            q as int,
            old(b)@,
            old(u)@,
            final(b)@,
            final(u)@,
            flag,
        ),
{
    let ghost ri = r as int;
    let mut flag: bool = false;
    let ghost mut run: Seq<(Seq<T>, Seq<T>, bool)> = seq![(b@, u@, false)];
    let mut i: usize = p;
    while i < q
        invariant
            p <= i <= q < r,
            0 < n,
            ri == r,
            b.len() == old(b).len(),
            u.len() == old(u).len(),
            r * r <= b.len(),
            r * n <= u.len(),
            forall|x: T| call_requires(is_zero, (x,)),
            forall|x: T, y: T| call_requires(make_flipped, (x, y)),
            forall|rot: R, x: T, y: T| call_requires(rotate, (rot, x, y)),
            block_run(is_zero, make_flipped, rotate, n as int, ri, p as int, run),
            run.len() == i - p + 1,
            run[0] == (old(b)@, old(u)@, false),
            run[i - p] == (b@, u@, flag),
        decreases q - i,
    {
        proof {
            lemma_offset_bound(i as int, i as int, ri, ri);
        }
        let ghost before = run;
        let ghost t0 = (b@, u@, flag);
        if is_zero(b[i * r + i]) {
            flag = true;
            chase_row(b, u, n, r, i, make_flipped, rotate);
        }
        proof {
            let t1 = (b@, u@, flag);
            assert(row_chased(is_zero, make_flipped, rotate, n as int, ri, i as int, t0, t1));
            run = before.push(t1);
            assert forall|t: int| 0 <= t < run.len() - 1 implies #[trigger] row_chased(
                is_zero,
                make_flipped,
                rotate,
                n as int,
                ri,
                p + t,
                run[t],
                run[t + 1],
            ) by {
                if t < i - p {
                    assert(row_chased(
                        is_zero,
                        make_flipped,
                        rotate,
                        n as int,
                        ri,
                        p + t,
                        before[t],
                        before[t + 1],
                    ));
                }
            }
        }
        i += 1;
    }
    assert(block_run(is_zero, make_flipped, rotate, n as int, ri, p as int, run));
    flag
}

/// No entry of the superdiagonal is still different from zero.
pub open spec fn uncoupled(coupled: Seq<bool>) -> bool {
    forall|i: int| 0 <= i < coupled.len() ==> !coupled[i]
}

/// What follows the deflation in a sweep that is not the last: the zero
/// diagonal entries of the active block from `p` to `q` are chased; if there
/// was none, one implicit-shift step is made on the block.
pub open spec fn block_worked<
    T,
    R,
    Z: Fn(T) -> bool,
    S: Fn(T, T, T, T) -> T,
    H: Fn(T, T, T) -> (T, T),
    M: Fn(T, T) -> R,
    MF: Fn(T, T) -> R,
    A: Fn(R, T, T) -> (T, T),
>(
    is_zero: Z,
    shift: S,
    head: H,
    make: M,
    make_flipped: MF,
    rotate: A,
    n: int,
    m: int,
    r: int,
    zero: T,
    p: int,
    q: int,
    s0: Sweep<T>,
    s1: Sweep<T>,
) -> bool {
    exists|b2: Seq<T>, l2: Seq<T>, flag: bool|
        {
            &&& #[trigger] zeros_chased(
                is_zero,
                make_flipped,
                rotate,
                n,
                r,
                p,
                q,
                s0.b,
                s0.l,
                b2,
                l2,
                flag,
            )
            &&& if flag {
                s1 == (Sweep { b: b2, l: l2, r: s0.r })
            } else {
                stepped(
                    shift,
                    head,
                    make,
                    rotate,
                    n,
                    m,
                    r,
                    p,
                    q,
                    zero,
                    Sweep { b: b2, l: l2, r: s0.r },
                    s1,
                )
            }
        }
}

/// One sweep over the `r` by `r` bidiagonal matrix took the state `s0` to
/// `s1`: the superdiagonal is deflated; if no entry of it is left, the sweep
/// is the last and `done` is true; else the active block is worked on and
/// `done` is false.
pub open spec fn swept<
    T,
    R,
    Q: Fn(T, T, T) -> bool,
    Z: Fn(T) -> bool,
    S: Fn(T, T, T, T) -> T,
    H: Fn(T, T, T) -> (T, T),
    M: Fn(T, T) -> R,
    MF: Fn(T, T) -> R,
    A: Fn(R, T, T) -> (T, T),
>(
    negligible: Q,
    is_zero: Z,
    shift: S,
    head: H,
    make: M,
    make_flipped: MF,
    rotate: A,
    n: int,
    m: int,
    r: int,
    zero: T,
    s0: Sweep<T>,
    s1: Sweep<T>,
    done: bool,
) -> bool {
    exists|mid: Seq<T>, coupled: Seq<bool>|
        {
            &&& #[trigger] deflated(negligible, is_zero, r, zero, s0.b, mid, coupled)
            &&& done == uncoupled(coupled)
            &&& if done {
                s1 == (Sweep { b: mid, l: s0.l, r: s0.r })
            } else {
                exists|p: int, q: int|
                    #[trigger] is_active_block(coupled, p, q) && block_worked(
                        is_zero,
                        shift,
                        head,
                        make,
                        make_flipped,
                        rotate,
                        n,
                        m,
                        r,
                        zero,
                        p,
                        q,
                        Sweep { b: mid, l: s0.l, r: s0.r },
                        s1,
                    )
            }
        }
}

/// All the operations of a sweep may be called on all arguments.
pub open spec fn sweep_callable<
    T,
    R,
    Q: Fn(T, T, T) -> bool,
    Z: Fn(T) -> bool,
    S: Fn(T, T, T, T) -> T,
    H: Fn(T, T, T) -> (T, T),
    M: Fn(T, T) -> R,
    MF: Fn(T, T) -> R,
    A: Fn(R, T, T) -> (T, T),
>(negligible: Q, is_zero: Z, shift: S, head: H, make: M, make_flipped: MF, rotate: A) -> bool {
    &&& forall|e: T, d1: T, d2: T| call_requires(negligible, (e, d1, d2))
    &&& forall|x: T| call_requires(is_zero, (x,))
    &&& shift_callable(shift, head)
    &&& rotations_callable(make, rotate)
    &&& forall|x: T, y: T| call_requires(make_flipped, (x, y))
}

/// Makes one sweep over the `r` by `r` bidiagonal matrix `b`, with the
/// rotations from the left accumulated in the `r` by `n` matrix `u` and those
/// from the right in the `m` by `r` matrix `v`. Says whether the sweep found
/// nothing left to do.
pub fn sweep<
    T: Copy,
    R: Copy,
    Q: Fn(T, T, T) -> bool,
    Z: Fn(T) -> bool + Copy,
    S: Fn(T, T, T, T) -> T,
    H: Fn(T, T, T) -> (T, T),
    M: Fn(T, T) -> R + Copy,
    MF: Fn(T, T) -> R + Copy,
    A: Fn(R, T, T) -> (T, T) + Copy,
>(
    b: &mut [T],
    u: &mut [T],
    v: &mut [T],
    n: usize,
    m: usize,
    r: usize,
    zero: T,
    negligible: Q,
    is_zero: Z,
    shift: S,
    head: H,
    make: M,
    make_flipped: MF,
    rotate: A,
) -> (done: bool)
    requires
        0 < n,
        0 < m,
        r * r <= old(b).len(),
        r * n <= old(u).len(),
        m * r <= old(v).len(),
        sweep_callable(negligible, is_zero, shift, head, make, make_flipped, rotate),
    ensures
        final(b).len() == old(b).len(),
        final(u).len() == old(u).len(),
        final(v).len() == old(v).len(),
        swept(
            negligible,
            is_zero,
            shift,
            head,
            make,
            make_flipped,
            rotate,
            n as int,
            m as int,
            r as int,
            zero,
            Sweep { b: old(b)@, l: old(u)@, r: old(v)@ },
            Sweep { b: final(b)@, l: final(u)@, r: final(v)@ },
            done,
        ),
{
    let ghost s0 = Sweep { b: b@, l: u@, r: v@ };
    let coupled = deflate(b, r, zero, negligible, is_zero);
    let ghost mid = b@;
    assert(deflated(negligible, is_zero, r as int, zero, s0.b, mid, coupled@));
    match active_block(coupled.as_slice()) {
        None => {
            assert(uncoupled(coupled@));
            assert(swept(
                negligible,
                is_zero,
                shift,
                head,
                make,
                make_flipped,
                rotate,
                n as int,
                m as int,
                r as int,
                zero,
                s0,
                Sweep { b: b@, l: u@, r: v@ },
                true,
            ));
            true
        },
        Some((p, q)) => {
            assert(!uncoupled(coupled@)) by {
                assert(coupled@[q - 1]);
            }
            let flag = chase_zero_diagonals(b, u, n, r, p, q, is_zero, make_flipped, rotate);
            let ghost b2 = b@;
            let ghost l2 = u@;
            if !flag {
                golub_kahan(b, u, v, n, m, r, p, q, zero, shift, head, make, rotate);
            }
            proof {
                let s1 = Sweep { b: b@, l: u@, r: v@ };
                let after = Sweep { b: mid, l: s0.l, r: s0.r };
                assert(zeros_chased(
                    is_zero,
                    make_flipped,
                    rotate,
                    n as int,
                    r as int,
                    p as int,
                    q as int,
                    after.b,
                    after.l,
                    b2,
                    l2,
                    flag,
                ));
                assert(block_worked(
                    is_zero,
                    shift,
                    head,
                    make,
                    make_flipped,
                    rotate,
                    n as int,
                    m as int,
                    r as int,
                    zero,
                    p as int,
                    q as int,
                    after,
                    s1,
                ));
                assert(is_active_block(coupled@, p as int, q as int));
                assert(swept(
                    negligible,
                    is_zero,
                    shift,
                    head,
                    make,
                    make_flipped,
                    rotate,
                    n as int,
                    m as int,
                    r as int,
                    zero,
                    s0,
                    s1,
                    false,
                ));
            }
            false
        },
    }
}

/// A run of sweeps none of which was the last: `run` lists the states.
pub open spec fn sweeps_run<
    T,
    R,
    Q: Fn(T, T, T) -> bool,
    Z: Fn(T) -> bool,
    S: Fn(T, T, T, T) -> T,
    H: Fn(T, T, T) -> (T, T),
    M: Fn(T, T) -> R,
    MF: Fn(T, T) -> R,
    A: Fn(R, T, T) -> (T, T),
>(
    negligible: Q,
    is_zero: Z,
    shift: S,
    head: H,
    make: M,
    make_flipped: MF,
    rotate: A,
    n: int,
    m: int,
    r: int,
    zero: T,
    run: Seq<Sweep<T>>,
) -> bool {
    &&& run.len() >= 1
    &&& forall|t: int|
        0 <= t < run.len() - 1 ==> #[trigger] swept(
            negligible,
            is_zero,
            shift,
            head,
            make,
            make_flipped,
            rotate,
            n,
            m,
            r,
            zero,
            run[t],
            run[t + 1],
            false,
        )
}

/// The sweeps from the state `start` came to an end within `max_sweeps`
/// sweeps: fewer than `max_sweeps` sweeps that were not the last, then the
/// last one, which gave `end`.
pub open spec fn converged_from<
    T,
    R,
    Q: Fn(T, T, T) -> bool,
    Z: Fn(T) -> bool,
    S: Fn(T, T, T, T) -> T,
    H: Fn(T, T, T) -> (T, T),
    M: Fn(T, T) -> R,
    MF: Fn(T, T) -> R,
    A: Fn(R, T, T) -> (T, T),
>(
    negligible: Q,
    is_zero: Z,
    shift: S,
    head: H,
    make: M,
    make_flipped: MF,
    rotate: A,
    n: int,
    m: int,
    r: int,
    zero: T,
    max_sweeps: int,
    start: Sweep<T>,
    end: Sweep<T>,
) -> bool {
    exists|run: Seq<Sweep<T>>|
        {
            &&& #[trigger] sweeps_run(
                negligible,
                is_zero,
                shift,
                head,
                make,
                make_flipped,
                rotate,
                n,
                m,
                r,
                zero,
                run,
            )
            &&& run[0] == start
            &&& run.len() <= max_sweeps
            &&& swept(
                negligible,
                is_zero,
                shift,
                head,
                make,
                make_flipped,
                rotate,
                n,
                m,
                r,
                zero,
                run[run.len() - 1],
                end,
                true,
            )
        }
}

/// The sweeps from the state `start` did not come to an end: `max_sweeps`
/// sweeps were made and none was the last.
pub open spec fn stalled_from<
    T,
    R,
    Q: Fn(T, T, T) -> bool,
    Z: Fn(T) -> bool,
    S: Fn(T, T, T, T) -> T,
    H: Fn(T, T, T) -> (T, T),
    M: Fn(T, T) -> R,
    MF: Fn(T, T) -> R,
    A: Fn(R, T, T) -> (T, T),
>(
    negligible: Q,
    is_zero: Z,
    shift: S,
    head: H,
    make: M,
    make_flipped: MF,
    rotate: A,
    n: int,
    m: int,
    r: int,
    zero: T,
    max_sweeps: int,
    start: Sweep<T>,
) -> bool {
    exists|run: Seq<Sweep<T>>|
        {
            &&& #[trigger] sweeps_run(
                negligible,
                is_zero,
                shift,
                head,
                make,
                make_flipped,
                rotate,
                n,
                m,
                r,
                zero,
                run,
            )
            &&& run[0] == start
            &&& run.len() == max_sweeps + 1
        }
}

/// Makes sweeps over the `r` by `r` bidiagonal matrix `b` until one finds
/// nothing left to do, but no more than `max_sweeps`. Says whether the sweeps
/// came to an end.
pub fn sweep_until_converged<
    T: Copy,
    R: Copy,
    Q: Fn(T, T, T) -> bool + Copy,
    Z: Fn(T) -> bool + Copy,
    S: Fn(T, T, T, T) -> T + Copy,
    H: Fn(T, T, T) -> (T, T) + Copy,
    M: Fn(T, T) -> R + Copy,
    MF: Fn(T, T) -> R + Copy,
    A: Fn(R, T, T) -> (T, T) + Copy,
>(
    b: &mut [T],
    u: &mut [T],
    v: &mut [T],
    n: usize,
    m: usize,
    r: usize,
    zero: T,
    max_sweeps: usize,
    negligible: Q,
    is_zero: Z,
    shift: S,
    head: H,
    make: M,
    make_flipped: MF,
    rotate: A,
) -> (converged: bool)
    requires
        0 < n,
        0 < m,
        r * r <= old(b).len(),
        r * n <= old(u).len(),
        m * r <= old(v).len(),
        sweep_callable(negligible, is_zero, shift, head, make, make_flipped, rotate),
    ensures
        final(b).len() == old(b).len(),
        final(u).len() == old(u).len(),
        final(v).len() == old(v).len(),
        converged ==> converged_from(
            negligible,
            is_zero,
            shift,
            head,
            make,
            make_flipped,
            rotate,
            n as int,
            m as int,
            r as int,
            zero,
            max_sweeps as int,
            Sweep { b: old(b)@, l: old(u)@, r: old(v)@ },
            Sweep { b: final(b)@, l: final(u)@, r: final(v)@ },
        ),
        !converged ==> stalled_from(
            negligible,
            is_zero,
            shift,
            head,
            make,
            make_flipped,
            rotate,
            n as int,
            m as int,
            r as int,
            zero,
            max_sweeps as int,
            Sweep { b: old(b)@, l: old(u)@, r: old(v)@ },
        ),
{
    let ghost start = Sweep { b: b@, l: u@, r: v@ };
    let ghost mut run: Seq<Sweep<T>> = seq![start];
    let mut made: usize = 0;
    while made < max_sweeps
        invariant
            made <= max_sweeps,
            0 < n,
            0 < m,
            b.len() == old(b).len(),
            u.len() == old(u).len(),
            v.len() == old(v).len(),
            r * r <= b.len(),
            r * n <= u.len(),
            m * r <= v.len(),
            sweep_callable(negligible, is_zero, shift, head, make, make_flipped, rotate),
            sweeps_run(
                negligible,
                is_zero,
                shift,
                head,
                make,
                make_flipped,
                rotate,
                n as int,
                m as int,
                r as int,
                zero,
                run,
            ),
            run.len() == made + 1,
            start == (Sweep { b: old(b)@, l: old(u)@, r: old(v)@ }),
            run[0] == start,
            run[made as int] == (Sweep { b: b@, l: u@, r: v@ }),
        decreases max_sweeps - made,
    {
        let ghost before = run;
        let done = sweep(
            b,
            u,
            v,
            n,
            m,
            r,
            zero,
            negligible,
            is_zero,
            shift,
            head,
            make,
            make_flipped,
            rotate,
        );
        if done {
            proof {
                assert(sweeps_run(
                    negligible,
                    is_zero,
                    shift,
                    head,
                    make,
                    make_flipped,
                    rotate,
                    n as int,
                    m as int,
                    r as int,
                    zero,
                    before,
                ));
                assert(swept(
                    negligible,
                    is_zero,
                    shift,
                    head,
                    make,
                    make_flipped,
                    rotate,
                    n as int,
                    m as int,
                    r as int,
                    zero,
                    before[before.len() - 1],
                    Sweep { b: b@, l: u@, r: v@ },
                    true,
                ));
            }
            return true;
        }
        proof {
            run = before.push(Sweep { b: b@, l: u@, r: v@ });
            assert forall|t: int| 0 <= t < run.len() - 1 implies #[trigger] swept(
                negligible,
                is_zero,
                shift,
                head,
                make,
                make_flipped,
                rotate,
                n as int,
                m as int,
                r as int,
                zero,
                run[t],
                run[t + 1],
                false,
            ) by {
                if t < made {
                    assert(swept(
                        negligible,
                        is_zero,
                        shift,
                        head,
                        make,
                        make_flipped,
                        rotate,
                        n as int,
                        m as int,
                        r as int,
                        zero,
                        before[t],
                        before[t + 1],
                        false,
                    ));
                }
            }
        }
        made += 1;
    }
    false
}

/// The sign of the diagonal entry `i` of the `r` by `r` matrix `b0` was
/// settled: where `is_negative` denied that it is negative, the entry and row
/// `i` of the `r` by `h` matrix `l0` stay; where it said so, the entry and
/// every element of the row became what `negate` returned for them.
pub open spec fn sign_settled<T, NG: Fn(T) -> bool, NE: Fn(T) -> T>(
    is_negative: NG,
    negate: NE,
    r: int,
    h: int,
    i: int,
    b0: Seq<T>,
    l0: Seq<T>,
    b1: Seq<T>,
    l1: Seq<T>,
) -> bool {
    let d = at(b0, i, i, r);
    ||| {
        &&& call_ensures(is_negative, (d,), false)
        &&& at(b1, i, i, r) == d
        &&& forall|j: int| 0 <= j < h ==> #[trigger] at(l1, i, j, h) == at(l0, i, j, h)
    }
    ||| {
        &&& call_ensures(is_negative, (d,), true)
        &&& call_ensures(negate, (d,), at(b1, i, i, r))
        &&& forall|j: int|
            0 <= j < h ==> call_ensures(negate, (at(l0, i, j, h),), #[trigger] at(l1, i, j, h))
    }
}

/// The signs of all diagonal entries were settled. Nothing but the diagonal
/// of the matrix and the rows of the negative entries changed.
pub open spec fn signs_settled<T, NG: Fn(T) -> bool, NE: Fn(T) -> T>(
    is_negative: NG,
    negate: NE,
    r: int,
    h: int,
    b0: Seq<T>,
    l0: Seq<T>,
    b1: Seq<T>,
    l1: Seq<T>,
) -> bool {
    &&& b1.len() == b0.len()
    &&& l1.len() == l0.len()
    &&& forall|i: int|
        0 <= i < r ==> #[trigger] sign_settled(is_negative, negate, r, h, i, b0, l0, b1, l1)
    &&& forall|i: int, j: int|
        0 <= i < r && 0 <= j < r && i != j ==> #[trigger] at(b1, i, j, r) == at(b0, i, j, r)
    &&& forall|k: int| r * r <= k < b0.len() ==> b1[k] == b0[k]
    &&& forall|k: int| r * h <= k < l0.len() ==> l1[k] == l0[k]
}

/// Settles the signs of the diagonal of the `r` by `r` matrix `b`: a negative
/// entry is negated together with its row of the `r` by `h` matrix `u`.
pub fn make_non_negative<T: Copy, NG: Fn(T) -> bool, NE: Fn(T) -> T>(
    b: &mut [T],
    u: &mut [T],
    r: usize,
    h: usize,
    is_negative: NG,
    negate: NE,
)
    requires
        r * r <= old(b).len(),
        r * h <= old(u).len(),
        forall|x: T| call_requires(is_negative, (x,)),
        forall|x: T| call_requires(negate, (x,)),
    ensures
        signs_settled(
            is_negative,
            negate,
            r as int,
            h as int,
            old(b)@,
            old(u)@,
            final(b)@,
            final(u)@,
        ),
{
    let ghost ri = r as int;
    let ghost hi = h as int;
    let mut i: usize = 0;
    while i < r
        invariant
            i <= r,
            ri == r,
            hi == h,
            b.len() == old(b).len(),
            u.len() == old(u).len(),
            r * r <= b.len(),
            r * h <= u.len(),
            forall|x: T| call_requires(is_negative, (x,)),
            forall|x: T| call_requires(negate, (x,)),
            forall|t: int|
                0 <= t < i ==> #[trigger] sign_settled(
                    is_negative,
                    negate,
                    ri,
                    hi,
                    t,
                    old(b)@,
                    old(u)@,
                    b@,
                    u@,
                ),
            forall|t: int, j: int|
                0 <= t < r && 0 <= j < r && !(t == j && t < i) ==> #[trigger] at(b@, t, j, ri)
                    == at(old(b)@, t, j, ri),
            forall|t: int, j: int|
                i <= t < r && 0 <= j < h ==> #[trigger] at(u@, t, j, hi) == at(old(u)@, t, j, hi),
            forall|k: int| r * r <= k < b@.len() ==> b@[k] == old(b)@[k],
            forall|k: int| r * h <= k < u@.len() ==> u@[k] == old(u)@[k],
        decreases r - i,
    {
        proof {
            lemma_offset_bound(i as int, i as int, ri, ri);
        }
        let ghost b_prior = b@;
        let ghost u_prior = u@;
        let d = b[i * r + i];
        let negative = is_negative(d);
        if negative {
            b[i * r + i] = negate(d);
            let mut j: usize = 0;
            while j < h
                invariant
                    i < r,
                    j <= h,
                    hi == h,
                    ri == r,
                    u.len() == old(u).len(),
                    u_prior.len() == u.len(),
                    r * h <= u.len(),
                    forall|x: T| call_requires(negate, (x,)),
                    forall|c: int|
                        0 <= c < j ==> call_ensures(
                            negate,
                            (at(u_prior, i as int, c, hi),),
                            #[trigger] at(u@, i as int, c, hi),
                        ),
                    forall|t: int, c: int|
                        0 <= t < r && 0 <= c < h && !(t == i && c < j) ==> #[trigger] at(
                            u@,
                            t,
                            c,
                            hi,
                        ) == at(u_prior, t, c, hi),
                    forall|k: int| r * h <= k < u@.len() ==> u@[k] == u_prior[k],
                decreases h - j,
            {
                proof {
                    lemma_offset_bound(i as int, j as int, ri, hi);
                }
                let ghost row_prior = u@;
                let flipped = negate(u[i * h + j]);
                u[i * h + j] = flipped;
                proof {
                    assert forall|c: int| 0 <= c < j + 1 implies call_ensures(
                        negate,
                        (at(u_prior, i as int, c, hi),),
                        #[trigger] at(u@, i as int, c, hi),
                    ) by {
                        if c < j {
                            assert(at(u@, i as int, c, hi) == at(row_prior, i as int, c, hi));
                        } else {
                            assert(at(row_prior, i as int, j as int, hi) == at(
                                u_prior,
                                i as int,
                                j as int,
                                hi,
                            ));
                        }
                    }
                    assert forall|t: int, c: int|
                        0 <= t < r && 0 <= c < h && !(t == i && c < j + 1) implies #[trigger] at(
                        u@,
                        t,
                        c,
                        hi,
                    ) == at(u_prior, t, c, hi) by {
                        lemma_offset_bound(t, c, ri, hi);
                        lemma_offset_order(t, c, i as int, j as int, hi);
                        lemma_offset_order(i as int, j as int, t, c, hi);
                        assert(at(row_prior, t, c, hi) == at(u_prior, t, c, hi));
                    }
                }
                j += 1;
            }
        }
        proof {
            assert forall|t: int, j: int|
                0 <= t < r && 0 <= j < r && !(t == j && t < i + 1) implies #[trigger] at(
                b@,
                t,
                j,
                ri,
            ) == at(old(b)@, t, j, ri) by {
                lemma_offset_bound(t, j, ri, ri);
                lemma_offset_order(t, j, i as int, i as int, ri);
                lemma_offset_order(i as int, i as int, t, j, ri);
                assert(at(b_prior, t, j, ri) == at(old(b)@, t, j, ri));
            }
            assert(at(b_prior, i as int, i as int, ri) == at(old(b)@, i as int, i as int, ri));
            assert forall|j: int| 0 <= j < h implies at(u_prior, i as int, j, hi) == at(
                old(u)@,
                i as int,
                j,
                hi,
            ) by {
                assert(at(u_prior, i as int, j, hi) == at(old(u)@, i as int, j, hi));
            }
            assert(sign_settled(
                is_negative,
                negate,
                ri,
                hi,
                i as int,
                old(b)@,
                old(u)@,
                b@,
                u@,
            ));
            assert forall|t: int| 0 <= t < i + 1 implies #[trigger] sign_settled(
                is_negative,
                negate,
                ri,
                hi,
                t,
                old(b)@,
                old(u)@,
                b@,
                u@,
            ) by {
                if t < i {
                    assert(sign_settled(
                        is_negative,
                        negate,
                        ri,
                        hi,
                        t,
                        old(b)@,
                        old(u)@,
                        b_prior,
                        u_prior,
                    ));
                    lemma_offset_order(t, t, i as int, i as int, ri);
                    assert(at(b@, t, t, ri) == at(b_prior, t, t, ri));
                    assert forall|j: int| 0 <= j < h implies #[trigger] at(u@, t, j, hi) == at(
                        u_prior,
                        t,
                        j,
                        hi,
                    ) by {}
                }
            }
        }
        i += 1;
    }
}

/// The `n` by `m` matrix `a` with at least as many rows as columns: `a`
/// itself, or its transpose where it has fewer rows than columns.
pub open spec fn upright<T>(a: Seq<T>, n: int, m: int) -> Seq<T> {
    if n < m {
        transposed(a, n, m)
    } else {
        a.subrange(0, n * m)
    }
}

/// The state that the sweeps start from, for an `h` by `w` matrix `a` with
/// `h >= w`: `a` is bidiagonalized, and the state holds the first `w` rows of
/// the reflections from the left, the leading `w` by `w` block of the reduced
/// matrix, and the reflections from the right.
pub open spec fn bidiagonal_start<
    T,
    N: Fn(Vec<T>) -> Option<Vec<T>>,
    F: Fn(T, T, T) -> T,
    G: Fn(T, T, T) -> T,
>(
    normal: N,
    mul_add: F,
    reflect: G,
    a: Seq<T>,
    h: int,
    w: int,
    zero: T,
    one: T,
    start: Sweep<T>,
) -> bool {
    exists|run: Seq<(Seq<T>, Seq<T>, Seq<T>)>|
        {
            &&& #[trigger] both_run(normal, mul_add, reflect, a, h, w, zero, one, run)
            &&& run.len() == smaller(h, w) + 1
            &&& start.l == window(run[run.len() - 1].0, h, 0, 0, w, h)
            &&& start.b == window(run[run.len() - 1].1, w, 0, 0, w, w)
            &&& start.r == window(run[run.len() - 1].2, w, 0, 0, w, w)
        }
}

/// The factors `u`, `s` and `vt` are what the end state `end` of the sweeps
/// gives for an `n` by `m` matrix, after the signs of the diagonal are
/// settled: for `n >= m` the transpose of the rotations from the left, the
/// diagonal matrix and the transpose of the rotations from the right; for
/// `n < m`, where the transpose of the matrix was decomposed, the rotations
/// from the right, the transpose of the diagonal matrix and the rotations
/// from the left.
pub open spec fn factors_of<T, NG: Fn(T) -> bool, NE: Fn(T) -> T>(
    is_negative: NG,
    negate: NE,
    n: int,
    m: int,
    end: Sweep<T>,
    u: Seq<T>,
    s: Seq<T>,
    vt: Seq<T>,
) -> bool {
    let h = larger(n, m);
    let w = smaller(n, m);
    exists|b1: Seq<T>, l1: Seq<T>|
        {
            &&& #[trigger] signs_settled(is_negative, negate, w, h, end.b, end.l, b1, l1)
            &&& if n < m {
                u == end.r && s == transposed(b1, w, w) && vt == l1
            } else {
                u == transposed(l1, w, h) && s == b1 && vt == transposed(end.r, w, w)
            }
        }
}

/// The three factors of a decomposition as sequences, or its failure.
pub open spec fn factor_views<T>(res: Result<(Vec<T>, Vec<T>, Vec<T>), MatrixError>) -> Result<
    (Seq<T>, Seq<T>, Seq<T>),
    MatrixError,
> {
    match res {
        Ok((u, s, vt)) => Ok((u@, s@, vt@)),
        Err(e) => Err(e),
    }
}

/// `res` is the outcome of the singular value decomposition of the `n` by `m`
/// matrix `a`. A matrix without rows or without columns has empty factors.
/// Any other is bidiagonalized, upright; where the sweeps from there came to
/// an end within `max_sweeps` sweeps, `res` holds the factors of the end
/// state, and where they did not, it is `DidNotConverge`.
pub open spec fn decomposed_svd<
    T,
    R,
    N: Fn(Vec<T>) -> Option<Vec<T>>,
    F: Fn(T, T, T) -> T,
    G: Fn(T, T, T) -> T,
    Q: Fn(T, T, T) -> bool,
    Z: Fn(T) -> bool,
    S: Fn(T, T, T, T) -> T,
    H: Fn(T, T, T) -> (T, T),
    M: Fn(T, T) -> R,
    MF: Fn(T, T) -> R,
    A: Fn(R, T, T) -> (T, T),
    NG: Fn(T) -> bool,
    NE: Fn(T) -> T,
>(
    normal: N,
    mul_add: F,
    reflect: G,
    negligible: Q,
    is_zero: Z,
    shift: S,
    head: H,
    make: M,
    make_flipped: MF,
    rotate: A,
    is_negative: NG,
    negate: NE,
    a: Seq<T>,
    n: int,
    m: int,
    zero: T,
    one: T,
    max_sweeps: int,
    res: Result<(Seq<T>, Seq<T>, Seq<T>), MatrixError>,
) -> bool {
    if smaller(n, m) <= 0 {
        res == Ok::<(Seq<T>, Seq<T>, Seq<T>), MatrixError>(
            (Seq::<T>::empty(), Seq::<T>::empty(), Seq::<T>::empty()),
        )
    } else {
        exists|start: Sweep<T>|
            {
                &&& #[trigger] bidiagonal_start(
                    normal,
                    mul_add,
                    reflect,
                    upright(a, n, m),
                    larger(n, m),
                    smaller(n, m),
                    zero,
                    one,
                    start,
                )
                &&& match res {
                    Ok((u, s, vt)) => exists|end: Sweep<T>|
                        #[trigger] converged_from(
                            negligible,
                            is_zero,
                            shift,
                            head,
                            make,
                            make_flipped,
                            rotate,
                            larger(n, m),
                            smaller(n, m),
                            smaller(n, m),
                            zero,
                            max_sweeps,
                            start,
                            end,
                        ) && factors_of(is_negative, negate, n, m, end, u, s, vt),
                    Err(e) => e == MatrixError::DidNotConverge && stalled_from(
                        negligible,
                        is_zero,
                        shift,
                        head,
                        make,
                        make_flipped,
                        rotate,
                        larger(n, m),
                        smaller(n, m),
                        smaller(n, m),
                        zero,
                        max_sweeps,
                        start,
                    ),
                }
            }
    }
}

/// The singular value decomposition of the `n` by `m` matrix `a`: `(U, S,
/// Vᵗ)`, where with `r = min(n, m)` the factor `U` is `n` by `r`, `S` is `r`
/// by `r` and `Vᵗ` is `r` by `m`. The matrix, or its transpose if it has
/// fewer rows than columns, is bidiagonalized; sweeps are made until one
/// finds every superdiagonal entry negligible, which leaves the singular
/// values on the diagonal; and the signs of the singular values are settled.
/// When `max_sweeps` sweeps did not get there, the result is
/// `DidNotConverge`. A matrix without rows or without columns has empty
/// factors.
pub fn golub_reisch_svd<
    T: Copy,
    R: Copy,
    N: Fn(Vec<T>) -> Option<Vec<T>> + Copy,
    F: Fn(T, T, T) -> T + Copy,
    G: Fn(T, T, T) -> T + Copy,
    Q: Fn(T, T, T) -> bool + Copy,
    Z: Fn(T) -> bool + Copy,
    S: Fn(T, T, T, T) -> T + Copy,
    H: Fn(T, T, T) -> (T, T) + Copy,
    M: Fn(T, T) -> R + Copy,
    MF: Fn(T, T) -> R + Copy,
    A: Fn(R, T, T) -> (T, T) + Copy,
    NG: Fn(T) -> bool,
    NE: Fn(T) -> T,
>(
    a: &[T],
    n: usize,
    m: usize,
    zero: T,
    one: T,
    max_sweeps: usize,
    normal: N,
    mul_add: F,
    reflect: G,
    negligible: Q,
    is_zero: Z,
    shift: S,
    head: H,
    make: M,
    make_flipped: MF,
    rotate: A,
    is_negative: NG,
    negate: NE,
) -> (res: Result<(Vec<T>, Vec<T>, Vec<T>), MatrixError>)
    requires
        n * m <= a.len(),
        n * n <= usize::MAX,
        m * m <= usize::MAX,
        normal_callable(normal),
        always_callable(mul_add),
        reflect_callable(reflect),
        sweep_callable(negligible, is_zero, shift, head, make, make_flipped, rotate),
        forall|x: T| call_requires(is_negative, (x,)),
        forall|x: T| call_requires(negate, (x,)),
    ensures
        res matches Ok((u, s, vt)) ==> {
            &&& u.len() == n * smaller(n as int, m as int)
            &&& s.len() == smaller(n as int, m as int) * smaller(n as int, m as int)
            &&& vt.len() == smaller(n as int, m as int) * m
        },
        decomposed_svd(
            normal,
            mul_add,
            reflect,
            negligible,
            is_zero,
            shift,
            head,
            make,
            make_flipped,
            rotate,
            is_negative,
            negate,
            a@,
            n as int,
            m as int,
            zero,
            one,
            max_sweeps as int,
            factor_views(res),
        ),
{
    let wide = n < m;
    let h: usize = if wide {
        m
    } else {
        n
    };
    let w: usize = if wide {
        n
    } else {
        m
    };
    assert(h == larger(n as int, m as int) && w == smaller(n as int, m as int));
    if w == 0 {
        let u: Vec<T> = Vec::new();
        let s: Vec<T> = Vec::new();
        let vt: Vec<T> = Vec::new();
        assert(u@ =~= Seq::<T>::empty() && s@ =~= Seq::<T>::empty() && vt@ =~= Seq::<T>::empty());
        assert(n * w == 0 && w * w == 0 && w * m == 0) by (nonlinear_arith)
            requires
                w == 0,
        ;
        return Ok((u, s, vt));
    }
    assert(h * w == n * m && w * w <= h * h && w * h == h * w && w * w <= h * w) by (nonlinear_arith)
        requires
            (h == m && w == n) || (h == n && w == m),
            w <= h,
    ;
    let a1 = if wide {
        transpose(a, n, m)
    } else {
        prefix(a, n * m)
    };
    assert(a1@ == upright(a@, n as int, m as int));
    let (q_lt, bd, q_rt) = householder_reflection_bidiagonalization(
        a1.as_slice(),
        h,
        w,
        zero,
        one,
        normal,
        mul_add,
        reflect,
    );
    let mut u = sub_mat(q_lt.as_slice(), h, h, 0, w - 1, 0, h - 1);
    let mut b = sub_mat(bd.as_slice(), h, w, 0, w - 1, 0, w - 1);
    let mut v = sub_mat(q_rt.as_slice(), w, w, 0, w - 1, 0, w - 1);
    let ghost start = Sweep { b: b@, l: u@, r: v@ };
    proof {
        assert(bidiagonal_start(
            normal,
            mul_add,
            reflect,
            a1@,
            h as int,
            w as int,
            zero,
            one,
            start,
        ));
        assert(start.b.len() == w * w);
        assert(start.l.len() == w * h);
    }
    let converged = sweep_until_converged(
        b.as_mut_slice(),
        u.as_mut_slice(),
        v.as_mut_slice(),
        h,
        w,
        w,
        zero,
        max_sweeps,
        negligible,
        is_zero,
        shift,
        head,
        make,
        make_flipped,
        rotate,
    );
    if !converged {
        proof {
            assert(stalled_from(
                negligible,
                is_zero,
                shift,
                head,
                make,
                make_flipped,
                rotate,
                h as int,
                w as int,
                w as int,
                zero,
                max_sweeps as int,
                start,
            ));
        }
        return Err(MatrixError::DidNotConverge);
    }
    let ghost end = Sweep { b: b@, l: u@, r: v@ };
    proof {
        assert(converged_from(
            negligible,
            is_zero,
            shift,
            head,
            make,
            make_flipped,
            rotate,
            h as int,
            w as int,
            w as int,
            zero,
            max_sweeps as int,
            start,
            end,
        ));
    }
    make_non_negative(b.as_mut_slice(), u.as_mut_slice(), w, h, is_negative, negate);
    proof {
        assert(signs_settled(is_negative, negate, w as int, h as int, end.b, end.l, b@, u@));
    }
    if wide {
        let s = transpose(b.as_slice(), w, w);
        proof {
            assert(factors_of(is_negative, negate, n as int, m as int, end, v@, s@, u@));
        }
        Ok((v, s, u))
    } else {
        let ut = transpose(u.as_slice(), w, h);
        let vt = transpose(v.as_slice(), w, w);
        proof {
            assert(factors_of(is_negative, negate, n as int, m as int, end, ut@, b@, vt@));
        }
        Ok((ut, b, vt))
    }
}

/// The columns that the randomized decomposition samples beyond the rank
/// asked for.
pub const OVERSAMPLING: usize = 10;

/// The number of columns of the sketch for rank `k` and a matrix with `m`
/// columns: `k + OVERSAMPLING`, but no more than `m`.
pub open spec fn sketch_width(k: int, m: int) -> int {
    if k + OVERSAMPLING < m {
        k + OVERSAMPLING
    } else {
        m
    }
}

/// The number of columns of the sketch for rank `k` and a matrix with `m`
/// columns.
pub fn sketch_columns(k: usize, m: usize) -> (l: usize)
    ensures
        l == sketch_width(k as int, m as int),
{
    if k < m && m - k > OVERSAMPLING {
        k + OVERSAMPLING
    } else {
        m
    }
}

/// `res` is the outcome of the randomized decomposition of rank `k` of the
/// `n` by `m` matrix `a` with the sketch `sketch`, a matrix with `m` rows and
/// `l = sketch_width(k, m)` columns. The product of `a` and the sketch is
/// factored by Givens rotations; with the first `l` columns `q` of the first
/// factor, the product of the transpose of `q` and `a` is decomposed; and the
/// first factor of that decomposition is multiplied by `q`. A matrix without
/// rows or without columns has empty factors.
pub open spec fn sketched_svd<
    T,
    R,
    N: Fn(Vec<T>) -> Option<Vec<T>>,
    F: Fn(T, T, T) -> T,
    G: Fn(T, T, T) -> T,
    Q: Fn(T, T, T) -> bool,
    Z: Fn(T) -> bool,
    S: Fn(T, T, T, T) -> T,
    H: Fn(T, T, T) -> (T, T),
    M: Fn(T, T) -> R,
    MF: Fn(T, T) -> R,
    A: Fn(R, T, T) -> (T, T),
    NG: Fn(T) -> bool,
    NE: Fn(T) -> T,
>(
    normal: N,
    mul_add: F,
    reflect: G,
    negligible: Q,
    is_zero: Z,
    shift: S,
    head: H,
    make: M,
    make_flipped: MF,
    rotate: A,
    is_negative: NG,
    negate: NE,
    a: Seq<T>,
    sketch: Seq<T>,
    n: int,
    m: int,
    k: int,
    zero: T,
    one: T,
    max_sweeps: int,
    res: Result<(Seq<T>, Seq<T>, Seq<T>), MatrixError>,
) -> bool {
    if n <= 0 || m <= 0 {
        res == Ok::<(Seq<T>, Seq<T>, Seq<T>), MatrixError>(
            (Seq::<T>::empty(), Seq::<T>::empty(), Seq::<T>::empty()),
        )
    } else {
        exists|
            b: Seq<T>,
            full: Seq<T>,
            other: Seq<T>,
            c: Seq<T>,
            inner: Result<(Seq<T>, Seq<T>, Seq<T>), MatrixError>,
        |
            {
                &&& #[trigger] is_product(mul_add, a, sketch, n, m, sketch_width(k, m), zero, b)
                &&& #[trigger] givens_factored(
                    make,
                    rotate,
                    b,
                    n,
                    sketch_width(k, m),
                    zero,
                    one,
                    (full, other, n, larger(n, sketch_width(k, m)), sketch_width(k, m)),
                )
                &&& #[trigger] is_product(
                    mul_add,
                    transposed(
                        window(
                            full,
                            larger(n, sketch_width(k, m)),
                            0,
                            0,
                            n,
                            sketch_width(k, m),
                        ),
                        n,
                        sketch_width(k, m),
                    ),
                    a,
                    sketch_width(k, m),
                    n,
                    m,
                    zero,
                    c,
                )
                &&& #[trigger] decomposed_svd(
                    normal,
                    mul_add,
                    reflect,
                    negligible,
                    is_zero,
                    shift,
                    head,
                    make,
                    make_flipped,
                    rotate,
                    is_negative,
                    negate,
                    c,
                    sketch_width(k, m),
                    m,
                    zero,
                    one,
                    max_sweeps,
                    inner,
                )
                &&& match inner {
                    Ok((u, s, vt)) => res is Ok && res->Ok_0.1 == s && res->Ok_0.2 == vt
                        && is_product(
                        mul_add,
                        window(
                            full,
                            larger(n, sketch_width(k, m)),
                            0,
                            0,
                            n,
                            sketch_width(k, m),
                        ),
                        u,
                        n,
                        sketch_width(k, m),
                        sketch_width(k, m),
                        zero,
                        res->Ok_0.0,
                    ),
                    Err(e) => res == Err::<(Seq<T>, Seq<T>, Seq<T>), MatrixError>(e),
                }
            }
    }
}

/// An approximate singular value decomposition of rank `k` of the `n` by `m`
/// matrix `a`, from the sketch `sketch` of its range: a matrix with `m` rows
/// and `sketch_columns(k, m)` columns, which the caller fills with samples of
/// a normal distribution. The factors approximate `a` the better the faster
/// its singular values fall off beyond the `k`-th; they are exact only for a
/// matrix of rank at most `k`.
pub fn randomized_svd<
    T: Copy,
    R: Copy,
    N: Fn(Vec<T>) -> Option<Vec<T>> + Copy,
    F: Fn(T, T, T) -> T + Copy,
    G: Fn(T, T, T) -> T + Copy,
    Q: Fn(T, T, T) -> bool + Copy,
    Z: Fn(T) -> bool + Copy,
    S: Fn(T, T, T, T) -> T + Copy,
    H: Fn(T, T, T) -> (T, T) + Copy,
    M: Fn(T, T) -> R + Copy,
    MF: Fn(T, T) -> R + Copy,
    A: Fn(R, T, T) -> (T, T) + Copy,
    NG: Fn(T) -> bool,
    NE: Fn(T) -> T,
>(
    a: &[T],
    sketch: &[T],
    n: usize,
    m: usize,
    k: usize,
    zero: T,
    one: T,
    max_sweeps: usize,
    normal: N,
    mul_add: F,
    reflect: G,
    negligible: Q,
    is_zero: Z,
    shift: S,
    head: H,
    make: M,
    make_flipped: MF,
    rotate: A,
    is_negative: NG,
    negate: NE,
) -> (res: Result<(Vec<T>, Vec<T>, Vec<T>), MatrixError>)
    requires
        n * m <= a.len(),
        m * sketch_width(k as int, m as int) <= sketch.len(),
        n * n <= usize::MAX,
        m * m <= usize::MAX,
        normal_callable(normal),
        always_callable(mul_add),
        reflect_callable(reflect),
        sweep_callable(negligible, is_zero, shift, head, make, make_flipped, rotate),
        forall|x: T| call_requires(is_negative, (x,)),
        forall|x: T| call_requires(negate, (x,)),
    ensures
        sketched_svd(
            normal,
            mul_add,
            reflect,
            negligible,
            is_zero,
            shift,
            head,
            make,
            make_flipped,
            rotate,
            is_negative,
            negate,
            a@,
            sketch@,
            n as int,
            m as int,
            k as int,
            zero,
            one,
            max_sweeps as int,
            factor_views(res),
        ),
{
    if n == 0 || m == 0 {
        let u: Vec<T> = Vec::new();
        let s: Vec<T> = Vec::new();
        let vt: Vec<T> = Vec::new();
        assert(u@ =~= Seq::<T>::empty() && s@ =~= Seq::<T>::empty() && vt@ =~= Seq::<T>::empty());
        return Ok((u, s, vt));
    }
    let l = sketch_columns(k, m);
    let ghost ni = n as int;
    let ghost mi = m as int;
    let ghost li = l as int;
    proof {
        assert(0 < l <= m);
        assert(n * l <= n * m && l * l <= m * m && l * n <= n * m && l * m <= m * m) by (nonlinear_arith)
            requires
                0 < l <= m,
                0 < n,
        ;
    }
    let b = matrix_multiply_simd(a, sketch, n, m, l, zero, mul_add);
    let (full, other, n1, m1, _) = givens_rotation_qr(b.as_slice(), n, l, zero, one, make, rotate);
    proof {
        assert(m1 == larger(ni, li));
        assert(n1 == n);
        assert(n * m1 <= full.len()) by {
            if n >= l {
                assert(full.len() == n * n);
            } else {
                assert(full.len() == n * l);
            }
        }
    }
    let q = sub_mat(full.as_slice(), n, m1, 0, n - 1, 0, l - 1);
    let qt = transpose(q.as_slice(), n, l);
    let c = matrix_multiply_simd(qt.as_slice(), a, l, n, m, zero, mul_add);
    let inner = golub_reisch_svd(
        c.as_slice(),
        l,
        m,
        zero,
        one,
        max_sweeps,
        normal,
        mul_add,
        reflect,
        negligible,
        is_zero,
        shift,
        head,
        make,
        make_flipped,
        rotate,
        is_negative,
        negate,
    );
    let ghost inner_view = factor_views(inner);
    proof {
        assert(is_product(mul_add, a@, sketch@, ni, mi, li, zero, b@));
        assert(givens_factored(
            make,
            rotate,
            b@,
            ni,
            li,
            zero,
            one,
            (full@, other@, ni, larger(ni, li), li),
        ));
        assert(q@ == window(full@, larger(ni, li), 0, 0, ni, li));
        assert(is_product(mul_add, transposed(q@, ni, li), a@, li, ni, mi, zero, c@));
    }
    match inner {
        Ok((u, s, vt)) => {
            let lifted = matrix_multiply_simd(q.as_slice(), u.as_slice(), n, l, l, zero, mul_add);
            Ok((lifted, s, vt))
        },
        Err(e) => Err(e),
    }
}

} // verus!
