//! Applying a Householder reflection to a block of a row-major matrix.
//!
//! A reflection with the unit normal `u` takes a block `X` to `X - 2·u·(uᵗ·X)`
//! from the left and to `X - 2·(X·u)·uᵗ` from the right. Both are a product
//! with `u` followed by an update of every element of the block. The
//! arithmetic on the elements is the caller's: `mul_add(acc, x, y)` gives the
//! running sum `acc` with the product of `x` and `y` added, and
//! `reflect(x, u, s)` gives the new element for the element `x`, the
//! component `u` of the normal and the element `s` of the product.

use vstd::prelude::*;
use crate::dense::window;
use crate::kernel::{
    always_callable,
    is_product,
    matrix_multiply_simd_on_slices_left_vector,
    matrix_multiply_simd_on_slices_right_vector,
};
use crate::layout::{at, lemma_offset_bound, lemma_offset_order};

verus! {

/// `reflect` may be called on every triple of elements.
pub open spec fn reflect_callable<T, G: Fn(T, T, T) -> T>(reflect: G) -> bool {
    forall|x: T, u: T, s: T| call_requires(reflect, (x, u, s))
}

/// The block of the `n` by `m` matrix `before` from row `r0` and column `c0`
/// on was updated from the left: every element `x` at row `i`, column `j` of
/// the block became what `reflect` returned for `x`, `u[i - r0]` and
/// `sums[j - c0]`. Nothing else changed.
pub open spec fn updated_from_left<T, G: Fn(T, T, T) -> T>(
    reflect: G,
    before: Seq<T>,
    after: Seq<T>,
    n: int,
    m: int,
    r0: int,
    c0: int,
    u: Seq<T>,
    sums: Seq<T>,
) -> bool {
    &&& after.len() == before.len()
    &&& forall|i: int, j: int|
        r0 <= i < n && c0 <= j < m ==> call_ensures(
            reflect,
            (at(before, i, j, m), u[i - r0], sums[j - c0]),
            #[trigger] at(after, i, j, m),
        )
    &&& forall|i: int, j: int|
        0 <= i < n && 0 <= j < m && !(r0 <= i && c0 <= j) ==> #[trigger] at(after, i, j, m) == at(
            before,
            i,
            j,
            m,
        )
    &&& forall|k: int| n * m <= k < before.len() ==> after[k] == before[k]
}

/// The block of the `n` by `m` matrix `before` from row `r0` and column `c0`
/// on was updated from the right: every element `x` at row `i`, column `j` of
/// the block became what `reflect` returned for `x`, `u[j - c0]` and
/// `sums[i - r0]`. Nothing else changed.
pub open spec fn updated_from_right<T, G: Fn(T, T, T) -> T>(
    reflect: G,
    before: Seq<T>,
    after: Seq<T>,
    n: int,
    m: int,
    r0: int,
    c0: int,
    u: Seq<T>,
    sums: Seq<T>,
) -> bool {
    &&& after.len() == before.len()
    &&& forall|i: int, j: int|
        r0 <= i < n && c0 <= j < m ==> call_ensures(
            reflect,
            (at(before, i, j, m), u[j - c0], sums[i - r0]),
            #[trigger] at(after, i, j, m),
        )
    &&& forall|i: int, j: int|
        0 <= i < n && 0 <= j < m && !(r0 <= i && c0 <= j) ==> #[trigger] at(after, i, j, m) == at(
            before,
            i,
            j,
            m,
        )
    &&& forall|k: int| n * m <= k < before.len() ==> after[k] == before[k]
}

/// `after` is `before` with its block from row `r0` and column `c0` on
/// reflected from the left: there is a product `sums` of the row vector `u`
/// and the block, and the block was updated with it.
pub open spec fn reflected_from_left<T, F: Fn(T, T, T) -> T, G: Fn(T, T, T) -> T>(
    mul_add: F,
    reflect: G,
    before: Seq<T>,
    after: Seq<T>,
    n: int,
    m: int,
    r0: int,
    c0: int,
    u: Seq<T>,
    zero: T,
) -> bool {
    exists|sums: Seq<T>|
        #[trigger] is_product(
            mul_add,
            window(u, u.len() as int, 0, 0, 1, n - r0),
            window(before, m, r0, c0, n - r0, m - c0),
            1,
            n - r0,
            m - c0,
            zero,
            sums,
        ) && updated_from_left(reflect, before, after, n, m, r0, c0, u, sums)
}

/// `after` is `before` with its block from row `r0` and column `c0` on
/// reflected from the right: there is a product `sums` of the block and the
/// column vector `u`, and the block was updated with it.
pub open spec fn reflected_from_right<T, F: Fn(T, T, T) -> T, G: Fn(T, T, T) -> T>(
    mul_add: F,
    reflect: G,
    before: Seq<T>,
    after: Seq<T>,
    n: int,
    m: int,
    r0: int,
    c0: int,
    u: Seq<T>,
    zero: T,
) -> bool {
    exists|sums: Seq<T>|
        #[trigger] is_product(
            mul_add,
            window(before, m, r0, c0, n - r0, m - c0),
            window(u, 1, 0, 0, m - c0, 1),
            n - r0,
            m - c0,
            1,
            zero,
            sums,
        ) && updated_from_right(reflect, before, after, n, m, r0, c0, u, sums)
}

/// Updates the block of `a` from row `r0` and column `c0` on, element by
/// element, with `reflect`: the second argument is the component of `u` for
/// the row of the element, or with `by_column` for its column, and the third
/// is the element of `sums` for the other of the two.
fn update_block<T: Copy, G: Fn(T, T, T) -> T>(
    a: &mut [T],
    n: usize,
    m: usize,
    r0: usize,
    c0: usize,
    u: &[T],
    sums: &[T],
    by_column: bool,
    reflect: G,
)
    requires
        r0 < n,
        c0 < m,
        n * m <= old(a).len(),
        u.len() == (if by_column {
            m - c0
        } else {
            n - r0
        }),
        sums.len() == (if by_column {
            n - r0
        } else {
            m - c0
        }),
        reflect_callable(reflect),
    ensures
        by_column ==> updated_from_right(
            reflect,
            old(a)@,
            final(a)@,
            n as int,
            m as int,
            r0 as int,
            c0 as int,
            u@,
            sums@,
        ),
        !by_column ==> updated_from_left(
            reflect,
            old(a)@,
            final(a)@,
            n as int,
            m as int,
            r0 as int,
            c0 as int,
            u@,
            sums@,
        ),
{
    let ghost mi = m as int;
    let mut i: usize = r0;
    while i < n
        invariant
            r0 <= i <= n,
            c0 < m,
            a.len() == old(a).len(),
            n * m <= a.len(),
            mi == m,
            u.len() == (if by_column {
                m - c0
            } else {
                n - r0
            }),
            sums.len() == (if by_column {
                n - r0
            } else {
                m - c0
            }),
            reflect_callable(reflect),
            forall|r: int, c: int|
                r0 <= r < i && c0 <= c < m ==> call_ensures(
                    reflect,
                    (
                        at(old(a)@, r, c, mi),
                        if by_column {
                            u@[c - c0]
                        } else {
                            u@[r - r0]
                        },
                        if by_column {
                            sums@[r - r0]
                        } else {
                            sums@[c - c0]
                        },
                    ),
                    #[trigger] at(a@, r, c, mi),
                ),
            forall|r: int, c: int|
                0 <= r < n && 0 <= c < m && !(r0 <= r < i && c0 <= c) ==> #[trigger] at(
                    a@,
                    r,
                    c,
                    mi,
                ) == at(old(a)@, r, c, mi),
            forall|k: int| n * m <= k < a@.len() ==> a@[k] == old(a)@[k],
        decreases n - i,
    {
        let mut j: usize = c0;
        while j < m
            invariant
                r0 <= i < n,
                c0 <= j <= m,
                a.len() == old(a).len(),
                n * m <= a.len(),
                mi == m,
                u.len() == (if by_column {
                    m - c0
                } else {
                    n - r0
                }),
                sums.len() == (if by_column {
                    n - r0
                } else {
                    m - c0
                }),
                reflect_callable(reflect),
                forall|r: int, c: int|
                    (r0 <= r < i && c0 <= c < m) || (r == i && c0 <= c < j) ==> call_ensures(
                        reflect,
                        (
                            at(old(a)@, r, c, mi),
                            if by_column {
                                u@[c - c0]
                            } else {
                                u@[r - r0]
                            },
                            if by_column {
                                sums@[r - r0]
                            } else {
                                sums@[c - c0]
                            },
                        ),
                        #[trigger] at(a@, r, c, mi),
                    ),
                forall|r: int, c: int|
                    0 <= r < n && 0 <= c < m && !((r0 <= r < i && c0 <= c) || (r == i && c0 <= c
                        < j)) ==> #[trigger] at(a@, r, c, mi) == at(old(a)@, r, c, mi),
                forall|k: int| n * m <= k < a@.len() ==> a@[k] == old(a)@[k],
            decreases m - j,
        {
            proof {
                lemma_offset_bound(i as int, j as int, n as int, mi);
            }
            let ghost prior = a@;
            let x = a[i * m + j];
            let next = if by_column {
                reflect(x, u[j - c0], sums[i - r0])
            } else {
                reflect(x, u[i - r0], sums[j - c0])
            };
            a[i * m + j] = next;
            proof {
                assert(at(prior, i as int, j as int, mi) == at(old(a)@, i as int, j as int, mi));
                assert forall|r: int, c: int|
                    (r0 <= r < i && c0 <= c < m) || (r == i && c0 <= c < j + 1) implies call_ensures(
                    reflect,
                    (
                        at(old(a)@, r, c, mi),
                        if by_column {
                            u@[c - c0]
                        } else {
                            u@[r - r0]
                        },
                        if by_column {
                            sums@[r - r0]
                        } else {
                            sums@[c - c0]
                        },
                    ),
                    #[trigger] at(a@, r, c, mi),
                ) by {
                    lemma_offset_bound(r, c, n as int, mi);
                    lemma_offset_order(r, c, i as int, j as int, mi);
                    lemma_offset_order(i as int, j as int, r, c, mi);
                    if !(r == i && c == j) {
                        assert(at(a@, r, c, mi) == at(prior, r, c, mi));
                    }
                }
                assert forall|r: int, c: int|
                    0 <= r < n && 0 <= c < m && !((r0 <= r < i && c0 <= c) || (r == i && c0 <= c < j
                        + 1)) implies #[trigger] at(a@, r, c, mi) == at(old(a)@, r, c, mi) by {
                    lemma_offset_bound(r, c, n as int, mi);
                    lemma_offset_order(r, c, i as int, j as int, mi);
                    lemma_offset_order(i as int, j as int, r, c, mi);
                    assert(at(prior, r, c, mi) == at(old(a)@, r, c, mi));
                }
            }
            j += 1;
        }
        i += 1;
    }
}

/// Reflects from the left the block of the `n` by `m` matrix `a` that starts
/// at row `r0` and column `c0` and runs to the last row and column. The
/// normal `u` has one component for every row of the block.
pub fn reflect_left<T: Copy, F: Fn(T, T, T) -> T, G: Fn(T, T, T) -> T>(
    a: &mut [T],
    n: usize,
    m: usize,
    r0: usize,
    c0: usize,
    u: &[T],
    zero: T,
    mul_add: F,
    reflect: G,
)
    requires
        r0 < n,
        c0 < m,
        n * m <= old(a).len(),
        u.len() == n - r0,
        always_callable(mul_add),
        reflect_callable(reflect),
    ensures
        reflected_from_left(
            mul_add,
            reflect,
            old(a)@,
            final(a)@,
            n as int,
            m as int,
            r0 as int,
            c0 as int,
            u@,
            zero,
        ),
{
    proof {
        lemma_offset_bound(n - 1, 0, n as int, m as int);
    }
    let sums = matrix_multiply_simd_on_slices_left_vector(
        u,
        a,
        m,
        0,
        n - r0 - 1,
        r0,
        n - 1,
        c0,
        m - 1,
        zero,
        mul_add,
    );
    let ghost product_of = (
        window(u@, u.len() as int, 0, 0, 1, n - r0),
        window(a@, m as int, r0 as int, c0 as int, n - r0, m - c0),
    );
    update_block(a, n, m, r0, c0, u, sums.as_slice(), false, reflect);
    proof {
        assert(is_product(
            mul_add,
            product_of.0,
            product_of.1,
            1,
            n - r0,
            m - c0,
            zero,
            sums@,
        ));
    }
}

/// Reflects from the right the block of the `n` by `m` matrix `a` that starts
/// at row `r0` and column `c0` and runs to the last row and column. The
/// normal `u` has one component for every column of the block.
pub fn reflect_right<T: Copy, F: Fn(T, T, T) -> T, G: Fn(T, T, T) -> T>(
    a: &mut [T],
    n: usize,
    m: usize,
    r0: usize,
    c0: usize,
    u: &[T],
    zero: T,
    mul_add: F,
    reflect: G,
)
    requires
        r0 < n,
        c0 < m,
        n * m <= old(a).len(),
        u.len() == m - c0,
        always_callable(mul_add),
        reflect_callable(reflect),
    ensures
        reflected_from_right(
            mul_add,
            reflect,
            old(a)@,
            final(a)@,
            n as int,
            m as int,
            r0 as int,
            c0 as int,
            u@,
            zero,
        ),
{
    proof {
        lemma_offset_bound(n - 1, 0, n as int, m as int);
    }
    let sums = matrix_multiply_simd_on_slices_right_vector(
        a,
        u,
        m,
        r0,
        n - 1,
        c0,
        m - 1,
        zero,
        mul_add,
    );
    let ghost product_of = (
        window(a@, m as int, r0 as int, c0 as int, n - r0, m - c0),
        window(u@, 1, 0, 0, m - c0, 1),
    );
    update_block(a, n, m, r0, c0, u, sums.as_slice(), true, reflect);
    proof {
        assert(is_product(
            mul_add,
            product_of.0,
            product_of.1,
            n - r0,
            m - c0,
            1,
            zero,
            sums@,
        ));
    }
}

} // verus!
