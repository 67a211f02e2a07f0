//! Solving square linear systems: substitution against triangular matrices,
//! the solution of a general system through its LU decomposition, and the
//! inverse column by column.
//!
//! The arithmetic is the caller's. `mul_add(acc, x, y)` gives the running sum
//! `acc` with the product of `x` and `y` added; `finish(b, p, d)` gives the
//! unknown for the right-hand side `b`, the sum `p` over the unknowns that are
//! known already, and the diagonal element `d`. The other operations are
//! those of the module `lu`.

use vstd::prelude::*;
use crate::dense::filled;
use crate::kernel::{
    always_callable,
    column,
    folded,
    is_product,
    lemma_fold_starts,
    lemma_fold_steps,
    matrix_multiply_simd,
};
use crate::layout::{at, lemma_offset_bound, lemma_offset_order};
use crate::lu::{decomposed, elimination_callable, lu_decomposition};

verus! {

/// `finish` may be called on every triple of elements.
pub open spec fn finish_callable<T, G: Fn(T, T, T) -> T>(finish: G) -> bool {
    forall|b: T, p: T, d: T| call_requires(finish, (b, p, d))
}

/// The part of row `i` of an `n` by `n` matrix before the diagonal.
pub open spec fn before_diagonal<T>(l: Seq<T>, n: int, i: int) -> Seq<T> {
    Seq::new(i as nat, |k: int| at(l, i, k, n))
}

/// The part of row `i` of an `n` by `n` matrix after the diagonal.
pub open spec fn after_diagonal<T>(u: Seq<T>, n: int, i: int) -> Seq<T> {
    Seq::new((n - i - 1) as nat, |k: int| at(u, i, i + 1 + k, n))
}

/// The unknown `i` of a forward substitution: it is what `finish` returned
/// for its right-hand side, a sum of the products of the row before the
/// diagonal with the unknowns before it, and the diagonal element.
pub open spec fn forward_unknown<T, F: Fn(T, T, T) -> T, G: Fn(T, T, T) -> T>(
    mul_add: F,
    finish: G,
    l: Seq<T>,
    b: Seq<T>,
    n: int,
    zero: T,
    x: Seq<T>,
    i: int,
) -> bool {
    exists|p: T|
        #[trigger] folded(mul_add, before_diagonal(l, n, i), x.subrange(0, i), zero, i, p)
            && call_ensures(finish, (b[i], p, at(l, i, i, n)), x[i])
}

/// `x` solves `L·x = b` by forward substitution.
pub open spec fn forward_solved<T, F: Fn(T, T, T) -> T, G: Fn(T, T, T) -> T>(
    mul_add: F,
    finish: G,
    l: Seq<T>,
    b: Seq<T>,
    n: int,
    zero: T,
    x: Seq<T>,
) -> bool {
    &&& x.len() == n
    &&& forall|i: int|
        0 <= i < n ==> #[trigger] forward_unknown(mul_add, finish, l, b, n, zero, x, i)
}

/// The unknown `i` of a backward substitution: it is what `finish` returned
/// for its right-hand side, a sum of the products of the row after the
/// diagonal with the unknowns after it, and the diagonal element.
pub open spec fn backward_unknown<T, F: Fn(T, T, T) -> T, G: Fn(T, T, T) -> T>(
    mul_add: F,
    finish: G,
    u: Seq<T>,
    b: Seq<T>,
    n: int,
    zero: T,
    x: Seq<T>,
    i: int,
) -> bool {
    exists|p: T|
        #[trigger] folded(
            mul_add,
            after_diagonal(u, n, i),
            x.subrange(i + 1, n),
            zero,
            n - i - 1,
            p,
        ) && call_ensures(finish, (b[i], p, at(u, i, i, n)), x[i])
}

/// `x` solves `U·x = b` by backward substitution.
pub open spec fn backward_solved<T, F: Fn(T, T, T) -> T, G: Fn(T, T, T) -> T>(
    mul_add: F,
    finish: G,
    u: Seq<T>,
    b: Seq<T>,
    n: int,
    zero: T,
    x: Seq<T>,
) -> bool {
    &&& x.len() == n
    &&& forall|i: int|
        0 <= i < n ==> #[trigger] backward_unknown(mul_add, finish, u, b, n, zero, x, i)
}

/// A sum over terms that two pairs of sequences share is a sum for either
/// pair.
proof fn lemma_fold_same_terms<T, F: Fn(T, T, T) -> T>(
    mul_add: F,
    x1: Seq<T>,
    y1: Seq<T>,
    x2: Seq<T>,
    y2: Seq<T>,
    zero: T,
    upto: int,
    acc: T,
)
    requires
        0 <= upto,
        forall|k: int| 0 <= k < upto ==> x1[k] == x2[k] && y1[k] == y2[k],
        folded(mul_add, x1, y1, zero, upto, acc),
    ensures
        folded(mul_add, x2, y2, zero, upto, acc),
{
    let chain = choose|chain: Seq<T>|
        #[trigger] crate::kernel::fold_chain(mul_add, x1, y1, zero, chain) && chain.len() == upto
            + 1 && chain[upto] == acc;
    assert forall|k: int| 0 <= k < chain.len() - 1 implies call_ensures(
        mul_add,
        (chain[k], x2[k], y2[k]),
        #[trigger] chain[k + 1],
    ) by {
        assert(call_ensures(mul_add, (chain[k], x1[k], y1[k]), chain[k + 1]));
    }
    assert(crate::kernel::fold_chain(mul_add, x2, y2, zero, chain));
}

/// Solves `L·x = b` for the lower triangular `n` by `n` matrix `l`, from the
/// first unknown to the last.
pub fn forward_sub<T: Copy, F: Fn(T, T, T) -> T, G: Fn(T, T, T) -> T>(
    l: &[T],
    b: &[T],
    n: usize,
    zero: T,
    mul_add: F,
    finish: G,
) -> (x: Vec<T>)
    requires
        n * n <= l.len(),
        n <= b.len(),
        always_callable(mul_add),
        finish_callable(finish),
    ensures
        forward_solved(mul_add, finish, l@, b@, n as int, zero, x@),
{
    let mut x: Vec<T> = Vec::new();
    let mut i: usize = 0;
    while i < n
        invariant
            i <= n,
            n * n <= l.len(),
            n <= b.len(),
            always_callable(mul_add),
            finish_callable(finish),
            x.len() == i,
            forall|r: int|
                0 <= r < i ==> #[trigger] forward_unknown(
                    mul_add,
                    finish,
                    l@,
                    b@,
                    n as int,
                    zero,
                    x@,
                    r,
                ),
        decreases n - i,
    {
        let ghost row = before_diagonal(l@, n as int, i as int);
        let ghost known = x@;
        let mut p: T = zero;
        let mut k: usize = 0;
        proof {
            lemma_fold_starts(mul_add, row, known, zero);
        }
        while k < i
            invariant
                k <= i < n,
                n * n <= l.len(),
                x.len() == i,
                x@ == known,
                row == before_diagonal(l@, n as int, i as int),
                always_callable(mul_add),
                folded(mul_add, row, known, zero, k as int, p),
            decreases i - k,
        {
            proof {
                lemma_offset_bound(i as int, k as int, n as int, n as int);
            }
            let next = mul_add(p, l[i * n + k], x[k]);
            proof {
                lemma_fold_steps(mul_add, row, known, zero, k as int, p, next);
            }
            p = next;
            k += 1;
        }
        proof {
            lemma_offset_bound(i as int, i as int, n as int, n as int);
        }
        let unknown = finish(b[i], p, l[i * n + i]);
        x.push(unknown);
        proof {
            assert forall|r: int| 0 <= r < i + 1 implies #[trigger] forward_unknown(
                mul_add,
                finish,
                l@,
                b@,
                n as int,
                zero,
                x@,
                r,
            ) by {
                if r < i {
                    assert(forward_unknown(mul_add, finish, l@, b@, n as int, zero, known, r));
                    assert(x@.subrange(0, r) =~= known.subrange(0, r));
                } else {
                    lemma_fold_same_terms(
                        mul_add,
                        row,
                        known,
                        row,
                        x@.subrange(0, i as int),
                        zero,
                        i as int,
                        p,
                    );
                }
            }
        }
        i += 1;
    }
    x
}

/// Solves `U·x = b` for the upper triangular `n` by `n` matrix `u`, from the
/// last unknown to the first.
pub fn backward_sub<T: Copy, F: Fn(T, T, T) -> T, G: Fn(T, T, T) -> T>(
    u: &[T],
    b: &[T],
    n: usize,
    zero: T,
    mul_add: F,
    finish: G,
) -> (x: Vec<T>)
    requires
        n * n <= u.len(),
        n <= b.len(),
        always_callable(mul_add),
        finish_callable(finish),
    ensures
        backward_solved(mul_add, finish, u@, b@, n as int, zero, x@),
{
    let mut x = filled(n, zero);
    let mut i: usize = n;
    while i > 0
        invariant
            i <= n,
            n * n <= u.len(),
            n <= b.len(),
            always_callable(mul_add),
            finish_callable(finish),
            x.len() == n,
            forall|r: int|
                i <= r < n ==> #[trigger] backward_unknown(
                    mul_add,
                    finish,
                    u@,
                    b@,
                    n as int,
                    zero,
                    x@,
                    r,
                ),
        decreases i,
    {
        i -= 1;
        let ghost row = after_diagonal(u@, n as int, i as int);
        let ghost known = x@;
        let ghost tail = x@.subrange(i + 1, n as int);
        let mut p: T = zero;
        let mut k: usize = i + 1;
        proof {
            lemma_fold_starts(mul_add, row, tail, zero);
        }
        while k < n
            invariant
                i < k <= n,
                n * n <= u.len(),
                x.len() == n,
                x@ == known,
                tail == known.subrange(i + 1, n as int),
                row == after_diagonal(u@, n as int, i as int),
                always_callable(mul_add),
                folded(mul_add, row, tail, zero, k - i - 1, p),
            decreases n - k,
        {
            proof {
                lemma_offset_bound(i as int, k as int, n as int, n as int);
            }
            let next = mul_add(p, u[i * n + k], x[k]);
            proof {
                lemma_fold_steps(mul_add, row, tail, zero, k - i - 1, p, next);
            }
            p = next;
            k += 1;
        }
        proof {
            lemma_offset_bound(i as int, i as int, n as int, n as int);
        }
        let unknown = finish(b[i], p, u[i * n + i]);
        x[i] = unknown;
        proof {
            assert forall|r: int| i <= r < n implies #[trigger] backward_unknown(
                mul_add,
                finish,
                u@,
                b@,
                n as int,
                zero,
                x@,
                r,
            ) by {
                assert(x@.subrange(r + 1, n as int) =~= known.subrange(r + 1, n as int));
                if r > i {
                    assert(backward_unknown(mul_add, finish, u@, b@, n as int, zero, known, r));
                } else {
                    assert(folded(mul_add, row, tail, zero, n - i - 1, p));
                }
            }
        }
    }
    x
}

/// `x` solves `A·x = b` for the `n` by `n` matrix `a` through its LU
/// decomposition: there are factors `p`, `l` and `u` of `a`, a product `b1`
/// of `p` and `b`, and a solution `y` of `L·y = b1` by forward substitution,
/// such that `x` solves `U·x = y` by backward substitution.
pub open spec fn solved<
    T,
    C: Fn(T, T) -> bool,
    Z: Fn(T) -> bool,
    D: Fn(T, T) -> T,
    E: Fn(T, T, T) -> T,
    F: Fn(T, T, T) -> T,
    G: Fn(T, T, T) -> T,
>(
    greater: C,
    is_zero: Z,
    divide: D,
    eliminate: E,
    mul_add: F,
    finish: G,
    a: Seq<T>,
    b: Seq<T>,
    n: int,
    zero: T,
    one: T,
    lowest: T,
    x: Seq<T>,
) -> bool {
    exists|p: Seq<T>, l: Seq<T>, u: Seq<T>, b1: Seq<T>, y: Seq<T>|
        {
            &&& #[trigger] decomposed(
                greater,
                is_zero,
                divide,
                eliminate,
                a,
                n,
                n,
                zero,
                one,
                lowest,
                p,
                l,
                u,
            )
            &&& #[trigger] is_product(mul_add, p, b, n, n, 1, zero, b1)
            &&& #[trigger] forward_solved(mul_add, finish, l, b1, n, zero, y)
            &&& backward_solved(mul_add, finish, u, y, n, zero, x)
        }
}

/// Solves `A·x = b` for the `n` by `n` matrix `a`: the matrix is factored,
/// the permutation applied to `b`, and the two triangular systems solved in
/// turn.
pub fn solve<
    T: Copy,
    C: Fn(T, T) -> bool + Copy,
    Z: Fn(T) -> bool + Copy,
    D: Fn(T, T) -> T + Copy,
    E: Fn(T, T, T) -> T + Copy,
    F: Fn(T, T, T) -> T + Copy,
    G: Fn(T, T, T) -> T + Copy,
>(
    a: &[T],
    b: &[T],
    n: usize,
    zero: T,
    one: T,
    lowest: T,
    greater: C,
    is_zero: Z,
    divide: D,
    eliminate: E,
    mul_add: F,
    finish: G,
) -> (x: Vec<T>)
    requires
        n * n <= a.len(),
        n <= b.len(),
        n * n <= usize::MAX,
        elimination_callable(greater, is_zero, divide, eliminate),
        always_callable(mul_add),
        finish_callable(finish),
    ensures
        x.len() == n,
        solved(
            greater,
            is_zero,
            divide,
            eliminate,
            mul_add,
            finish,
            a@,
            b@,
            n as int,
            zero,
            one,
            lowest,
            x@,
        ),
{
    let (p, l, u) = lu_decomposition(a, n, n, zero, one, lowest, greater, is_zero, divide, eliminate);
    assert(n * 1 == n) by (nonlinear_arith);
    let b1 = matrix_multiply_simd(p.as_slice(), b, n, n, 1, zero, mul_add);
    let y = forward_sub(l.as_slice(), b1.as_slice(), n, zero, mul_add, finish);
    let x = backward_sub(u.as_slice(), y.as_slice(), n, zero, mul_add, finish);
    proof {
        assert(decomposed(
            greater,
            is_zero,
            divide,
            eliminate,
            a@,
            n as int,
            n as int,
            zero,
            one,
            lowest,
            p@,
            l@,
            u@,
        ));
        assert(is_product(mul_add, p@, b@, n as int, n as int, 1, zero, b1@));
        assert(forward_solved(mul_add, finish, l@, b1@, n as int, zero, y@));
    }
    x
}

/// The unit vector `j` of length `n`: `one` at position `j`, `zero` elsewhere.
pub open spec fn unit_vector<T>(n: int, j: int, zero: T, one: T) -> Seq<T> {
    Seq::new(
        n as nat,
        |k: int|
            if k == j {
                one
            } else {
                zero
            },
    )
}

/// The inverse of the `n` by `n` matrix `inp`, column by column: column `j` is
/// the solution of the system with the unit vector `j` as its right-hand side.
pub fn inverse<
    T: Copy,
    C: Fn(T, T) -> bool + Copy,
    Z: Fn(T) -> bool + Copy,
    D: Fn(T, T) -> T + Copy,
    E: Fn(T, T, T) -> T + Copy,
    F: Fn(T, T, T) -> T + Copy,
    G: Fn(T, T, T) -> T + Copy,
>(
    inp: &[T],
    n: usize,
    zero: T,
    one: T,
    lowest: T,
    greater: C,
    is_zero: Z,
    divide: D,
    eliminate: E,
    mul_add: F,
    finish: G,
) -> (sol: Vec<T>)
    requires
        n * n <= inp.len(),
        n * n <= usize::MAX,
        elimination_callable(greater, is_zero, divide, eliminate),
        always_callable(mul_add),
        finish_callable(finish),
    ensures
        sol.len() == n * n,
        forall|j: int|
            0 <= j < n ==> solved(
                greater,
                is_zero,
                divide,
                eliminate,
                mul_add,
                finish,
                inp@,
                unit_vector(n as int, j, zero, one),
                n as int,
                zero,
                one,
                lowest,
                #[trigger] column(sol@, j, n as int, n as int),
            ),
{
    let mut sol = filled(n * n, zero);
    let mut j: usize = 0;
    while j < n
        invariant
            j <= n,
            n * n <= inp.len(),
            n * n <= usize::MAX,
            sol.len() == n * n,
            elimination_callable(greater, is_zero, divide, eliminate),
            always_callable(mul_add),
            finish_callable(finish),
            forall|c: int|
                0 <= c < j ==> solved(
                    greater,
                    is_zero,
                    divide,
                    eliminate,
                    mul_add,
                    finish,
                    inp@,
                    unit_vector(n as int, c, zero, one),
                    n as int,
                    zero,
                    one,
                    lowest,
                    #[trigger] column(sol@, c, n as int, n as int),
                ),
        decreases n - j,
    {
        let mut b = filled(n, zero);
        b[j] = one;
        assert(b@ =~= unit_vector(n as int, j as int, zero, one));
        let x = solve(
            inp,
            b.as_slice(),
            n,
            zero,
            one,
            lowest,
            greater,
            is_zero,
            divide,
            eliminate,
            mul_add,
            finish,
        );
        let ghost start = sol@;
        let mut k: usize = 0;
        while k < n
            invariant
                j < n,
                k <= n,
                sol.len() == n * n,
                x.len() == n,
                start.len() == n * n,
                forall|r: int| 0 <= r < k ==> #[trigger] at(sol@, r, j as int, n as int) == x@[r],
                forall|r: int, c: int|
                    0 <= r < n && 0 <= c < n && c != j ==> #[trigger] at(sol@, r, c, n as int)
                        == at(start, r, c, n as int),
            decreases n - k,
        {
            proof {
                lemma_offset_bound(k as int, j as int, n as int, n as int);
            }
            let ghost prior = sol@;
            sol[k * n + j] = x[k];
            proof {
                assert forall|r: int| 0 <= r < k + 1 implies #[trigger] at(
                    sol@,
                    r,
                    j as int,
                    n as int,
                ) == x@[r] by {
                    if r < k {
                        lemma_offset_order(r, j as int, k as int, j as int, n as int);
                        assert(at(prior, r, j as int, n as int) == x@[r]);
                    }
                }
                assert forall|r: int, c: int| 0 <= r < n && 0 <= c < n && c != j implies #[trigger] at(
                    sol@,
                    r,
                    c,
                    n as int,
                ) == at(start, r, c, n as int) by {
                    lemma_offset_bound(r, c, n as int, n as int);
                    lemma_offset_order(r, c, k as int, j as int, n as int);
                    lemma_offset_order(k as int, j as int, r, c, n as int);
                    assert(at(prior, r, c, n as int) == at(start, r, c, n as int));
                }
            }
            k += 1;
        }
        proof {
            assert forall|c: int| 0 <= c < j + 1 implies solved(
                greater,
                is_zero,
                divide,
                eliminate,
                mul_add,
                finish,
                inp@,
                unit_vector(n as int, c, zero, one),
                n as int,
                zero,
                one,
                lowest,
                #[trigger] column(sol@, c, n as int, n as int),
            ) by {
                if c < j {
                    assert(column(sol@, c, n as int, n as int) =~= column(
                        start,
                        c,
                        n as int,
                        n as int,
                    ));
                    assert(solved(
                        greater,
                        is_zero,
                        divide,
                        eliminate,
                        mul_add,
                        finish,
                        inp@,
                        unit_vector(n as int, c, zero, one),
                        n as int,
                        zero,
                        one,
                        lowest,
                        column(start, c, n as int, n as int),
                    ));
                } else {
                    assert(column(sol@, j as int, n as int, n as int) =~= x@);
                }
            }
        }
        j += 1;
    }
    sol
}

} // verus!
