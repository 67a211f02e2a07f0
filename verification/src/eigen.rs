//! Eigenvalues and eigenvectors of a symmetric matrix by QR iteration: the
//! matrix is factored into `Q·R` and replaced by `R·Q`, again and again,
//! until its diagonal settles.
//!
//! The arithmetic is the caller's. The operations of the factorization are
//! those of the module `qr`. `shift_out(x, s)` gives the diagonal element `x`
//! with the shift `s` taken off and `shift_in(x, s)` gives it with the shift
//! put back; `settled(new, old)` says whether a diagonal element changed
//! little enough from one iteration to the next.

use vstd::prelude::*;
use crate::dense::{duplicate, filled, identity, identity_matrix, repeated};
use crate::error::MatrixError;
use crate::householder::normal_callable;
use crate::kernel::{always_callable, is_product, matrix_multiply_simd};
use crate::layout::{at, lemma_offset_bound, lemma_offset_order};
use crate::qr::{householder_factored, householder_reflection_qr};
use crate::reflection::reflect_callable;

verus! {

/// The diagonal of the `n` by `n` matrix `before` was shifted: every diagonal
/// element became what `f` returned for it and `s`. Nothing else changed.
pub open spec fn diagonal_shifted<T, P: Fn(T, T) -> T>(
    f: P,
    n: int,
    s: T,
    before: Seq<T>,
    after: Seq<T>,
) -> bool {
    &&& after.len() == before.len()
    &&& forall|i: int|
        0 <= i < n ==> call_ensures(f, (at(before, i, i, n), s), #[trigger] at(after, i, i, n))
    &&& forall|i: int, j: int|
        0 <= i < n && 0 <= j < n && i != j ==> #[trigger] at(after, i, j, n) == at(
            before,
            i,
            j,
            n,
        )
    &&& forall|k: int| n * n <= k < before.len() ==> after[k] == before[k]
}

/// Replaces every diagonal element `x` of the `n` by `n` matrix `b` by what
/// `f` returns for `x` and `s`.
pub fn shift_diagonal<T: Copy, P: Fn(T, T) -> T>(b: &mut [T], n: usize, s: T, f: P)
    requires
        n * n <= old(b).len(),
        forall|x: T, y: T| call_requires(f, (x, y)),
    ensures
        diagonal_shifted(f, n as int, s, old(b)@, final(b)@),
{
    let ghost ni = n as int;
    let mut i: usize = 0;
    while i < n
        invariant
            i <= n,
            ni == n,
            b.len() == old(b).len(),
            n * n <= b.len(),
            forall|x: T, y: T| call_requires(f, (x, y)),
            forall|t: int|
                0 <= t < i ==> call_ensures(
                    f,
                    (at(old(b)@, t, t, ni), s),
                    #[trigger] at(b@, t, t, ni),
                ),
            forall|t: int, j: int|
                0 <= t < n && 0 <= j < n && !(t == j && t < i) ==> #[trigger] at(b@, t, j, ni)
                    == at(old(b)@, t, j, ni),
            forall|k: int| n * n <= k < b@.len() ==> b@[k] == old(b)@[k],
        decreases n - i,
    {
        proof {
            lemma_offset_bound(i as int, i as int, ni, ni);
        }
        let ghost prior = b@;
        let moved = f(b[i * n + i], s);
        b[i * n + i] = moved;
        proof {
            assert(at(prior, i as int, i as int, ni) == at(old(b)@, i as int, i as int, ni));
            assert forall|t: int| 0 <= t < i + 1 implies call_ensures(
                f,
                (at(old(b)@, t, t, ni), s),
                #[trigger] at(b@, t, t, ni),
            ) by {
                if t < i {
                    lemma_offset_order(t, t, i as int, i as int, ni);
                    assert(at(b@, t, t, ni) == at(prior, t, t, ni));
                }
            }
            assert forall|t: int, j: int|
                0 <= t < n && 0 <= j < n && !(t == j && t < i + 1) implies #[trigger] at(
                b@,
                t,
                j,
                ni,
            ) == at(old(b)@, t, j, ni) by {
                lemma_offset_bound(t, j, ni, ni);
                lemma_offset_order(t, j, i as int, i as int, ni);
                lemma_offset_order(i as int, i as int, t, j, ni);
                assert(at(prior, t, j, ni) == at(old(b)@, t, j, ni));
            }
        }
        i += 1;
    }
}

/// The diagonal of the `n` by `n` matrix `b`.
pub open spec fn diagonal<T>(b: Seq<T>, n: int) -> Seq<T> {
    Seq::new(n as nat, |i: int| at(b, i, i, n))
}

/// `flags` lists what `settled` answered for every diagonal element of `b`
/// and the value `old` had for it.
pub open spec fn compared<T, C: Fn(T, T) -> bool>(
    settled: C,
    n: int,
    b: Seq<T>,
    old: Seq<T>,
    flags: Seq<bool>,
) -> bool {
    &&& flags.len() == n
    &&& forall|i: int|
        0 <= i < n ==> call_ensures(settled, (at(b, i, i, n), old[i]), #[trigger] flags[i])
}

/// Every flag is set.
pub open spec fn all_set(flags: Seq<bool>) -> bool {
    forall|i: int| 0 <= i < flags.len() ==> flags[i]
}

/// Takes the diagonal of the `n` by `n` matrix `b` as the new values and says
/// whether every one of them is settled against the value before it.
pub fn settle<T: Copy, C: Fn(T, T) -> bool>(b: &[T], values: &mut Vec<T>, n: usize, settled: C) -> (done:
    bool)
    requires
        n * n <= b.len(),
        old(values).len() == n,
        forall|x: T, y: T| call_requires(settled, (x, y)),
    ensures
        final(values)@ == diagonal(b@, n as int),
        exists|flags: Seq<bool>|
            #[trigger] compared(settled, n as int, b@, old(values)@, flags) && done == all_set(
                flags,
            ),
{
    let ghost ni = n as int;
    let mut done: bool = true;
    let ghost mut flags: Seq<bool> = Seq::empty();
    let mut i: usize = 0;
    while i < n
        invariant
            i <= n,
            ni == n,
            n * n <= b.len(),
            values.len() == n,
            flags.len() == i,
            forall|x: T, y: T| call_requires(settled, (x, y)),
            forall|t: int|
                0 <= t < i ==> call_ensures(
                    settled,
                    (at(b@, t, t, ni), old(values)@[t]),
                    #[trigger] flags[t],
                ),
            done == all_set(flags),
            forall|t: int| 0 <= t < i ==> values@[t] == at(b@, t, t, ni),
            forall|t: int| i <= t < n ==> values@[t] == old(values)@[t],
        decreases n - i,
    {
        proof {
            lemma_offset_bound(i as int, i as int, ni, ni);
        }
        let ghost marks = flags;
        let d = b[i * n + i];
        let same = settled(d, values[i]);
        if !same {
            done = false;
        }
        values[i] = d;
        proof {
            flags = marks.push(same);
            assert forall|t: int| 0 <= t < i + 1 implies call_ensures(
                settled,
                (at(b@, t, t, ni), old(values)@[t]),
                #[trigger] flags[t],
            ) by {
                if t < i {
                    assert(flags[t] == marks[t]);
                }
            }
            if all_set(marks) && same {
                assert forall|t: int| 0 <= t < flags.len() implies flags[t] by {
                    if t < i {
                        assert(marks[t]);
                    }
                }
            } else if !same {
                assert(!flags[i as int]);
            } else {
                let t = choose|t: int| 0 <= t < marks.len() && !marks[t];
                assert(!flags[t]);
            }
        }
        i += 1;
    }
    assert(values@ =~= diagonal(b@, ni));
    assert(compared(settled, ni, b@, old(values)@, flags));
    done
}

/// One iteration with a shift took the matrix `b0` and the values `e0` to
/// `b1` and `e1`: the last diagonal element is taken off the diagonal as the
/// shift, the shifted matrix is factored, the factors are multiplied in the
/// other order, the shift is put back, and the diagonal becomes the new
/// values; `done` says whether every value is settled.
pub open spec fn shifted_iteration<
    T,
    N: Fn(Vec<T>) -> Option<Vec<T>>,
    F: Fn(T, T, T) -> T,
    G: Fn(T, T, T) -> T,
    NG: Fn(T) -> bool,
    NE: Fn(T) -> T,
    PO: Fn(T, T) -> T,
    PI: Fn(T, T) -> T,
    C: Fn(T, T) -> bool,
>(
    normal: N,
    mul_add: F,
    reflect: G,
    is_negative: NG,
    negate: NE,
    shift_out: PO,
    shift_in: PI,
    settled: C,
    n: int,
    zero: T,
    one: T,
    b0: Seq<T>,
    e0: Seq<T>,
    b1: Seq<T>,
    e1: Seq<T>,
    done: bool,
) -> bool {
    exists|low: Seq<T>, q: Seq<T>, r: Seq<T>, rq: Seq<T>, flags: Seq<bool>|
        {
            &&& #[trigger] diagonal_shifted(shift_out, n, at(b0, n - 1, n - 1, n), b0, low)
            &&& #[trigger] householder_factored(
                normal,
                mul_add,
                reflect,
                is_negative,
                negate,
                low,
                n,
                n,
                zero,
                one,
                (q, r, n, n, n),
            )
            &&& #[trigger] is_product(mul_add, r, q, n, n, n, zero, rq)
            &&& diagonal_shifted(shift_in, n, at(b0, n - 1, n - 1, n), rq, b1)
            &&& e1 == diagonal(b1, n)
            &&& #[trigger] compared(settled, n, b1, e0, flags)
            &&& done == all_set(flags)
        }
}

/// A run of iterations with a shift none of which settled: `run` lists the
/// pairs of matrix and values.
pub open spec fn shifted_run<
    T,
    N: Fn(Vec<T>) -> Option<Vec<T>>,
    F: Fn(T, T, T) -> T,
    G: Fn(T, T, T) -> T,
    NG: Fn(T) -> bool,
    NE: Fn(T) -> T,
    PO: Fn(T, T) -> T,
    PI: Fn(T, T) -> T,
    C: Fn(T, T) -> bool,
>(
    normal: N,
    mul_add: F,
    reflect: G,
    is_negative: NG,
    negate: NE,
    shift_out: PO,
    shift_in: PI,
    settled: C,
    n: int,
    zero: T,
    one: T,
    run: Seq<(Seq<T>, Seq<T>)>,
) -> bool {
    &&& run.len() >= 1
    &&& forall|t: int|
        0 <= t < run.len() - 1 ==> #[trigger] shifted_iteration(
            normal,
            mul_add,
            reflect,
            is_negative,
            negate,
            shift_out,
            shift_in,
            settled,
            n,
            zero,
            one,
            run[t].0,
            run[t].1,
            run[t + 1].0,
            run[t + 1].1,
            false,
        )
}

/// The iterations on the `n` by `n` matrix `a` settled within
/// `max_iterations` iterations and gave `values`: fewer than `max_iterations`
/// iterations that did not settle, from `a` and values of `zero` on, then one
/// that did.
pub open spec fn eigenvalues_settled<
    T,
    N: Fn(Vec<T>) -> Option<Vec<T>>,
    F: Fn(T, T, T) -> T,
    G: Fn(T, T, T) -> T,
    NG: Fn(T) -> bool,
    NE: Fn(T) -> T,
    PO: Fn(T, T) -> T,
    PI: Fn(T, T) -> T,
    C: Fn(T, T) -> bool,
>(
    normal: N,
    mul_add: F,
    reflect: G,
    is_negative: NG,
    negate: NE,
    shift_out: PO,
    shift_in: PI,
    settled: C,
    a: Seq<T>,
    n: int,
    zero: T,
    one: T,
    max_iterations: int,
    values: Seq<T>,
) -> bool {
    exists|run: Seq<(Seq<T>, Seq<T>)>, b: Seq<T>|
        {
            &&& #[trigger] shifted_run(
                normal,
                mul_add,
                reflect,
                is_negative,
                negate,
                shift_out,
                shift_in,
                settled,
                n,
                zero,
                one,
                run,
            )
            &&& run[0] == (a, repeated(n, zero))
            &&& run.len() <= max_iterations
            &&& #[trigger] shifted_iteration(
                normal,
                mul_add,
                reflect,
                is_negative,
                negate,
                shift_out,
                shift_in,
                settled,
                n,
                zero,
                one,
                run[run.len() - 1].0,
                run[run.len() - 1].1,
                b,
                values,
                true,
            )
        }
}

/// The iterations on the `n` by `n` matrix `a` did not settle: `max_iterations`
/// iterations were made and none did.
pub open spec fn eigenvalues_stalled<
    T,
    N: Fn(Vec<T>) -> Option<Vec<T>>,
    F: Fn(T, T, T) -> T,
    G: Fn(T, T, T) -> T,
    NG: Fn(T) -> bool,
    NE: Fn(T) -> T,
    PO: Fn(T, T) -> T,
    PI: Fn(T, T) -> T,
    C: Fn(T, T) -> bool,
>(
    normal: N,
    mul_add: F,
    reflect: G,
    is_negative: NG,
    negate: NE,
    shift_out: PO,
    shift_in: PI,
    settled: C,
    a: Seq<T>,
    n: int,
    zero: T,
    one: T,
    max_iterations: int,
) -> bool {
    exists|run: Seq<(Seq<T>, Seq<T>)>|
        {
            &&& #[trigger] shifted_run(
                normal,
                mul_add,
                reflect,
                is_negative,
                negate,
                shift_out,
                shift_in,
                settled,
                n,
                zero,
                one,
                run,
            )
            &&& run[0] == (a, repeated(n, zero))
            &&& run.len() == max_iterations + 1
        }
}

/// The operations of an iteration may be called on all arguments.
pub open spec fn iteration_callable<
    T,
    NG: Fn(T) -> bool,
    NE: Fn(T) -> T,
    PO: Fn(T, T) -> T,
    PI: Fn(T, T) -> T,
    C: Fn(T, T) -> bool,
>(is_negative: NG, negate: NE, shift_out: PO, shift_in: PI, settled: C) -> bool {
    &&& forall|x: T| call_requires(is_negative, (x,))
    &&& forall|x: T| call_requires(negate, (x,))
    &&& forall|x: T, s: T| call_requires(shift_out, (x, s))
    &&& forall|x: T, s: T| call_requires(shift_in, (x, s))
    &&& forall|x: T, y: T| call_requires(settled, (x, y))
}

/// The eigenvalues of the symmetric `n` by `n` matrix `a`, by QR iteration
/// with the last diagonal element as the shift. The values start at `zero`.
/// When `max_iterations` iterations did not settle them, the result is
/// `DidNotConverge`. A matrix without rows has no eigenvalues.
pub fn eigenvalues<
    T: Copy,
    N: Fn(Vec<T>) -> Option<Vec<T>> + Copy,
    F: Fn(T, T, T) -> T + Copy,
    G: Fn(T, T, T) -> T + Copy,
    NG: Fn(T) -> bool + Copy,
    NE: Fn(T) -> T + Copy,
    PO: Fn(T, T) -> T + Copy,
    PI: Fn(T, T) -> T + Copy,
    C: Fn(T, T) -> bool + Copy,
>(
    a: &[T],
    n: usize,
    zero: T,
    one: T,
    max_iterations: usize,
    normal: N,
    mul_add: F,
    reflect: G,
    is_negative: NG,
    negate: NE,
    shift_out: PO,
    shift_in: PI,
    settled: C,
) -> (res: Result<Vec<T>, MatrixError>)
    requires
        n * n <= a.len(),
        n * n <= usize::MAX,
        normal_callable(normal),
        always_callable(mul_add),
        reflect_callable(reflect),
        iteration_callable(is_negative, negate, shift_out, shift_in, settled),
    ensures
        n == 0 ==> res is Ok && res->Ok_0@.len() == 0,
        n > 0 ==> match res {
            Ok(values) => eigenvalues_settled(
                normal,
                mul_add,
                reflect,
                is_negative,
                negate,
                shift_out,
                shift_in,
                settled,
                a@,
                n as int,
                zero,
                one,
                max_iterations as int,
                values@,
            ),
            Err(e) => e == MatrixError::DidNotConverge && eigenvalues_stalled(
                normal,
                mul_add,
                reflect,
                is_negative,
                negate,
                shift_out,
                shift_in,
                settled,
                a@,
                n as int,
                zero,
                one,
                max_iterations as int,
            ),
        },
{
    let mut values = filled(n, zero);
    if n == 0 {
        return Ok(values);
    }
    let mut b = duplicate(a);
    let ghost ni = n as int;
    let ghost mut run: Seq<(Seq<T>, Seq<T>)> = seq![(b@, values@)];
    let mut made: usize = 0;
    while made < max_iterations
        invariant
            made <= max_iterations,
            0 < n,
            ni == n,
            n * n <= b.len(),
            n * n <= usize::MAX,
            values.len() == n,
            normal_callable(normal),
            always_callable(mul_add),
            reflect_callable(reflect),
            iteration_callable(is_negative, negate, shift_out, shift_in, settled),
            shifted_run(
                normal,
                mul_add,
                reflect,
                is_negative,
                negate,
                shift_out,
                shift_in,
                settled,
                ni,
                zero,
                one,
                run,
            ),
            run.len() == made + 1,
            run[0] == (a@, repeated(n as int, zero)),
            run[made as int] == (b@, values@),
        decreases max_iterations - made,
    {
        let ghost before = run;
        let ghost b0 = b@;
        let ghost e0 = values@;
        proof {
            lemma_offset_bound(n - 1, n - 1, ni, ni);
        }
        let s = b[(n - 1) * n + (n - 1)];
        shift_diagonal(b.as_mut_slice(), n, s, shift_out);
        let ghost low = b@;
        let (q, r, _, _, _) = householder_reflection_qr(
            b.as_slice(),
            n,
            n,
            zero,
            one,
            normal,
            mul_add,
            reflect,
            is_negative,
            negate,
        );
        let ghost used = (r@, q@);
        b = matrix_multiply_simd(r.as_slice(), q.as_slice(), n, n, n, zero, mul_add);
        let ghost rq = b@;
        shift_diagonal(b.as_mut_slice(), n, s, shift_in);
        let done = settle(b.as_slice(), &mut values, n, settled);
        proof {
            let flags = choose|flags: Seq<bool>|
                #[trigger] compared(settled, ni, b@, e0, flags) && done == all_set(flags);
            assert(diagonal_shifted(shift_out, ni, at(b0, n - 1, n - 1, ni), b0, low));
            assert(householder_factored(
                normal,
                mul_add,
                reflect,
                is_negative,
                negate,
                low,
                ni,
                ni,
                zero,
                one,
                (used.1, used.0, ni, ni, ni),
            ));
            assert(is_product(mul_add, used.0, used.1, ni, ni, ni, zero, rq));
            assert(compared(settled, ni, b@, e0, flags));
            assert(shifted_iteration(
                normal,
                mul_add,
                reflect,
                is_negative,
                negate,
                shift_out,
                shift_in,
                settled,
                ni,
                zero,
                one,
                b0,
                e0,
                b@,
                values@,
                done,
            ));
        }
        if done {
            proof {
                assert(shifted_run(
                    normal,
                    mul_add,
                    reflect,
                    is_negative,
                    negate,
                    shift_out,
                    shift_in,
                    settled,
                    ni,
                    zero,
                    one,
                    before,
                ));
                assert(before[0] == (a@, repeated(n as int, zero)));
                assert(before.len() <= max_iterations);
                assert(before[before.len() - 1] == (b0, e0));
                assert(shifted_iteration(
                    normal,
                    mul_add,
                    reflect,
                    is_negative,
                    negate,
                    shift_out,
                    shift_in,
                    settled,
                    ni,
                    zero,
                    one,
                    before[before.len() - 1].0,
                    before[before.len() - 1].1,
                    b@,
                    values@,
                    true,
                ));
            }
            return Ok(values);
        }
        proof {
            run = before.push((b@, values@));
            assert forall|t: int| 0 <= t < run.len() - 1 implies #[trigger] shifted_iteration(
                normal,
                mul_add,
                reflect,
                is_negative,
                negate,
                shift_out,
                shift_in,
                settled,
                ni,
                zero,
                one,
                run[t].0,
                run[t].1,
                run[t + 1].0,
                run[t + 1].1,
                false,
            ) by {
                if t < made {
                    assert(shifted_iteration(
                        normal,
                        mul_add,
                        reflect,
                        is_negative,
                        negate,
                        shift_out,
                        shift_in,
                        settled,
                        ni,
                        zero,
                        one,
                        before[t].0,
                        before[t].1,
                        before[t + 1].0,
                        before[t + 1].1,
                        false,
                    ));
                }
            }
        }
        made += 1;
    }
    Err(MatrixError::DidNotConverge)
}

/// The state of the iterations that keep the eigenvectors: the matrix, the
/// product of the orthogonal factors so far, and the values.
pub struct Iterate<T> {
    pub b: Seq<T>,
    pub vectors: Seq<T>,
    pub values: Seq<T>,
}

/// One iteration without a shift took the state `s0` to `s1`: the matrix is
/// factored, the orthogonal factor is multiplied onto the vectors, the
/// factors are multiplied in the other order, and the diagonal becomes the
/// new values; `done` says whether every value is settled.
pub open spec fn plain_iteration<
    T,
    N: Fn(Vec<T>) -> Option<Vec<T>>,
    F: Fn(T, T, T) -> T,
    G: Fn(T, T, T) -> T,
    NG: Fn(T) -> bool,
    NE: Fn(T) -> T,
    C: Fn(T, T) -> bool,
>(
    normal: N,
    mul_add: F,
    reflect: G,
    is_negative: NG,
    negate: NE,
    settled: C,
    n: int,
    zero: T,
    one: T,
    s0: Iterate<T>,
    s1: Iterate<T>,
    done: bool,
) -> bool {
    exists|q: Seq<T>, r: Seq<T>, flags: Seq<bool>|
        {
            &&& #[trigger] householder_factored(
                normal,
                mul_add,
                reflect,
                is_negative,
                negate,
                s0.b,
                n,
                n,
                zero,
                one,
                (q, r, n, n, n),
            )
            &&& is_product(mul_add, s0.vectors, q, n, n, n, zero, s1.vectors)
            &&& is_product(mul_add, r, q, n, n, n, zero, s1.b)
            &&& s1.values == diagonal(s1.b, n)
            &&& #[trigger] compared(settled, n, s1.b, s0.values, flags)
            &&& done == all_set(flags)
        }
}

/// A run of iterations without a shift none of which settled: `run` lists the
/// states.
pub open spec fn plain_run<
    T,
    N: Fn(Vec<T>) -> Option<Vec<T>>,
    F: Fn(T, T, T) -> T,
    G: Fn(T, T, T) -> T,
    NG: Fn(T) -> bool,
    NE: Fn(T) -> T,
    C: Fn(T, T) -> bool,
>(
    normal: N,
    mul_add: F,
    reflect: G,
    is_negative: NG,
    negate: NE,
    settled: C,
    n: int,
    zero: T,
    one: T,
    run: Seq<Iterate<T>>,
) -> bool {
    &&& run.len() >= 1
    &&& forall|t: int|
        0 <= t < run.len() - 1 ==> #[trigger] plain_iteration(
            normal,
            mul_add,
            reflect,
            is_negative,
            negate,
            settled,
            n,
            zero,
            one,
            run[t],
            run[t + 1],
            false,
        )
}

/// The iterations on the `n` by `n` matrix `a` settled within
/// `max_iterations` iterations and gave `values` and `vectors`: fewer than
/// `max_iterations` iterations that did not settle, from `a`, the identity
/// and values of `zero` on, then one that did.
pub open spec fn eigenvectors_settled<
    T,
    N: Fn(Vec<T>) -> Option<Vec<T>>,
    F: Fn(T, T, T) -> T,
    G: Fn(T, T, T) -> T,
    NG: Fn(T) -> bool,
    NE: Fn(T) -> T,
    C: Fn(T, T) -> bool,
>(
    normal: N,
    mul_add: F,
    reflect: G,
    is_negative: NG,
    negate: NE,
    settled: C,
    a: Seq<T>,
    n: int,
    zero: T,
    one: T,
    max_iterations: int,
    values: Seq<T>,
    vectors: Seq<T>,
) -> bool {
    exists|run: Seq<Iterate<T>>, b: Seq<T>|
        {
            &&& #[trigger] plain_run(
                normal,
                mul_add,
                reflect,
                is_negative,
                negate,
                settled,
                n,
                zero,
                one,
                run,
            )
            &&& run[0] == (Iterate {
                b: a,
                vectors: identity_matrix(n, zero, one),
                values: repeated(n, zero),
            })
            &&& run.len() <= max_iterations
            &&& #[trigger] plain_iteration(
                normal,
                mul_add,
                reflect,
                is_negative,
                negate,
                settled,
                n,
                zero,
                one,
                run[run.len() - 1],
                Iterate { b, vectors, values },
                true,
            )
        }
}

/// The iterations on the `n` by `n` matrix `a` did not settle: `max_iterations`
/// iterations were made and none did.
pub open spec fn eigenvectors_stalled<
    T,
    N: Fn(Vec<T>) -> Option<Vec<T>>,
    F: Fn(T, T, T) -> T,
    G: Fn(T, T, T) -> T,
    NG: Fn(T) -> bool,
    NE: Fn(T) -> T,
    C: Fn(T, T) -> bool,
>(
    normal: N,
    mul_add: F,
    reflect: G,
    is_negative: NG,
    negate: NE,
    settled: C,
    a: Seq<T>,
    n: int,
    zero: T,
    one: T,
    max_iterations: int,
) -> bool {
    exists|run: Seq<Iterate<T>>|
        {
            &&& #[trigger] plain_run(
                normal,
                mul_add,
                reflect,
                is_negative,
                negate,
                settled,
                n,
                zero,
                one,
                run,
            )
            &&& run[0] == (Iterate {
                b: a,
                vectors: identity_matrix(n, zero, one),
                values: repeated(n, zero),
            })
            &&& run.len() == max_iterations + 1
        }
}

/// The eigenvalues of the symmetric `n` by `n` matrix `a` and a matrix with
/// the eigenvectors as its columns, by QR iteration, returned in this order.
/// When `max_iterations` iterations did not settle the values, the result is
/// `DidNotConverge`. A matrix without rows has empty results.
pub fn eigenvectors<
    T: Copy,
    N: Fn(Vec<T>) -> Option<Vec<T>> + Copy,
    F: Fn(T, T, T) -> T + Copy,
    G: Fn(T, T, T) -> T + Copy,
    NG: Fn(T) -> bool + Copy,
    NE: Fn(T) -> T + Copy,
    C: Fn(T, T) -> bool + Copy,
>(
    a: &[T],
    n: usize,
    zero: T,
    one: T,
    max_iterations: usize,
    normal: N,
    mul_add: F,
    reflect: G,
    is_negative: NG,
    negate: NE,
    settled: C,
) -> (res: Result<(Vec<T>, Vec<T>), MatrixError>)
    requires
        n * n <= a.len(),
        n * n <= usize::MAX,
        normal_callable(normal),
        always_callable(mul_add),
        reflect_callable(reflect),
        forall|x: T| call_requires(is_negative, (x,)),
        forall|x: T| call_requires(negate, (x,)),
        forall|x: T, y: T| call_requires(settled, (x, y)),
    ensures
        n == 0 ==> res is Ok && res->Ok_0.0@.len() == 0 && res->Ok_0.1@.len() == 0,
        n > 0 ==> match res {
            Ok((values, vectors)) => eigenvectors_settled(
                normal,
                mul_add,
                reflect,
                is_negative,
                negate,
                settled,
                a@,
                n as int,
                zero,
                one,
                max_iterations as int,
                values@,
                vectors@,
            ),
            Err(e) => e == MatrixError::DidNotConverge && eigenvectors_stalled(
                normal,
                mul_add,
                reflect,
                is_negative,
                negate,
                settled,
                a@,
                n as int,
                zero,
                one,
                max_iterations as int,
            ),
        },
{
    let mut values = filled(n, zero);
    let mut vectors = identity(n, zero, one);
    if n == 0 {
        return Ok((values, vectors));
    }
    let mut b = duplicate(a);
    let ghost ni = n as int;
    let ghost mut run: Seq<Iterate<T>> = seq![Iterate { b: b@, vectors: vectors@, values: values@ }];
    let mut made: usize = 0;
    while made < max_iterations
        invariant
            made <= max_iterations,
            0 < n,
            ni == n,
            n * n <= b.len(),
            n * n <= usize::MAX,
            vectors.len() == n * n,
            values.len() == n,
            normal_callable(normal),
            always_callable(mul_add),
            reflect_callable(reflect),
            forall|x: T| call_requires(is_negative, (x,)),
            forall|x: T| call_requires(negate, (x,)),
            forall|x: T, y: T| call_requires(settled, (x, y)),
            plain_run(normal, mul_add, reflect, is_negative, negate, settled, ni, zero, one, run),
            run.len() == made + 1,
            run[0] == (Iterate {
                b: a@,
                vectors: identity_matrix(ni, zero, one),
                values: repeated(ni, zero),
            }),
            run[made as int] == (Iterate { b: b@, vectors: vectors@, values: values@ }),
        decreases max_iterations - made,
    {
        let ghost before = run;
        let ghost s0 = Iterate { b: b@, vectors: vectors@, values: values@ };
        let (q, r, _, _, _) = householder_reflection_qr(
            b.as_slice(),
            n,
            n,
            zero,
            one,
            normal,
            mul_add,
            reflect,
            is_negative,
            negate,
        );
        vectors = matrix_multiply_simd(vectors.as_slice(), q.as_slice(), n, n, n, zero, mul_add);
        b = matrix_multiply_simd(r.as_slice(), q.as_slice(), n, n, n, zero, mul_add);
        let done = settle(b.as_slice(), &mut values, n, settled);
        let ghost s1 = Iterate { b: b@, vectors: vectors@, values: values@ };
        proof {
            let flags = choose|flags: Seq<bool>|
                #[trigger] compared(settled, ni, b@, s0.values, flags) && done == all_set(flags);
            assert(householder_factored(
                normal,
                mul_add,
                reflect,
                is_negative,
                negate,
                s0.b,
                ni,
                ni,
                zero,
                one,
                (q@, r@, ni, ni, ni),
            ));
            assert(compared(settled, ni, s1.b, s0.values, flags));
            assert(plain_iteration(
                normal,
                mul_add,
                reflect,
                is_negative,
                negate,
                settled,
                ni,
                zero,
                one,
                s0,
                s1,
                done,
            ));
        }
        if done {
            proof {
                assert(plain_run(
                    normal,
                    mul_add,
                    reflect,
                    is_negative,
                    negate,
                    settled,
                    ni,
                    zero,
                    one,
                    before,
                ));
                assert(before[before.len() - 1] == s0);
            }
            return Ok((values, vectors));
        }
        proof {
            run = before.push(s1);
            assert forall|t: int| 0 <= t < run.len() - 1 implies #[trigger] plain_iteration(
                normal,
                mul_add,
                reflect,
                is_negative,
                negate,
                settled,
                ni,
                zero,
                one,
                run[t],
                run[t + 1],
                false,
            ) by {
                if t < made {
                    assert(plain_iteration(
                        normal,
                        mul_add,
                        reflect,
                        is_negative,
                        negate,
                        settled,
                        ni,
                        zero,
                        one,
                        before[t],
                        before[t + 1],
                        false,
                    ));
                }
            }
        }
        made += 1;
    }
    Err(MatrixError::DidNotConverge)
}

} // verus!
