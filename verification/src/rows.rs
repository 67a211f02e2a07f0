//! Elementary row operations on a row-major matrix.
//!
//! The arithmetic on the elements is the caller's: a function of one element
//! to rescale a row, a function of two elements to combine a row with another.

use vstd::prelude::*;
use crate::dense::in_row;
use crate::layout::at;

verus! {

/// Replaces every element `x` of row `p` of a matrix with `m` columns by what
/// `scale` returned for it. Nothing else changes.
pub fn normalize_row<T: Copy, F: Fn(T) -> T>(inp: &mut [T], scale: F, m: usize, p: usize)
    requires
        p * m + m <= old(inp).len(),
        forall|x: T| call_requires(scale, (x,)),
    ensures
        final(inp)@.len() == old(inp)@.len(),
        forall|k: int|
            0 <= k < m ==> call_ensures(
                scale,
                (at(old(inp)@, p as int, k, m as int),),
                #[trigger] at(final(inp)@, p as int, k, m as int),
            ),
        forall|k: int|
            0 <= k < old(inp)@.len() && !in_row(k, p as int, m as int) ==> final(inp)@[k] == old(
                inp,
            )@[k],
{
    assert(p * m >= 0) by (nonlinear_arith)
        requires
            p >= 0,
            m >= 0,
    ;
    let mut k: usize = 0;
    while k < m
        invariant
            k <= m,
            inp.len() == old(inp).len(),
            0 <= p * m,
            p * m + m <= inp.len(),
            forall|x: T| call_requires(scale, (x,)),
            forall|c: int|
                0 <= c < k ==> call_ensures(
                    scale,
                    (at(old(inp)@, p as int, c, m as int),),
                    #[trigger] at(inp@, p as int, c, m as int),
                ),
            forall|c: int|
                k <= c < m ==> #[trigger] at(inp@, p as int, c, m as int) == at(
                    old(inp)@,
                    p as int,
                    c,
                    m as int,
                ),
            forall|q: int|
                0 <= q < inp@.len() && !in_row(q, p as int, m as int) ==> inp@[q] == old(inp)@[q],
        decreases m - k,
    {
        let ghost prior = inp@;
        let scaled = scale(inp[p * m + k]);
        inp[p * m + k] = scaled;
        proof {
            assert forall|c: int| 0 <= c < k + 1 implies call_ensures(
                scale,
                (at(old(inp)@, p as int, c, m as int),),
                #[trigger] at(inp@, p as int, c, m as int),
            ) by {
                if c < k {
                    assert(at(inp@, p as int, c, m as int) == at(prior, p as int, c, m as int));
                } else {
                    assert(at(prior, p as int, c, m as int) == at(
                        old(inp)@,
                        p as int,
                        c,
                        m as int,
                    ));
                }
            }
            assert forall|c: int| k + 1 <= c < m implies #[trigger] at(
                inp@,
                p as int,
                c,
                m as int,
            ) == at(old(inp)@, p as int, c, m as int) by {
                assert(at(prior, p as int, c, m as int) == at(old(inp)@, p as int, c, m as int));
            }
        }
        k += 1;
    }
}

/// Replaces every element `x` of row `q` of a matrix with `m` columns by what
/// `combine` returned for `x` and the element `y` of row `p` in the same
/// column. Nothing else changes.
pub fn reduce_row<T: Copy, F: Fn(T, T) -> T>(inp: &mut [T], m: usize, p: usize, q: usize, combine: F)
    requires
        p * m + m <= old(inp).len(),
        q * m + m <= old(inp).len(),
        forall|x: T, y: T| call_requires(combine, (x, y)),
    ensures
        final(inp)@.len() == old(inp)@.len(),
        forall|k: int|
            0 <= k < m ==> call_ensures(
                combine,
                (at(old(inp)@, q as int, k, m as int), at(old(inp)@, p as int, k, m as int)),
                #[trigger] at(final(inp)@, q as int, k, m as int),
            ),
        forall|k: int|
            0 <= k < old(inp)@.len() && !in_row(k, q as int, m as int) ==> final(inp)@[k] == old(
                inp,
            )@[k],
{
    assert(p * m >= 0 && q * m >= 0) by (nonlinear_arith)
        requires
            p >= 0,
            q >= 0,
            m >= 0,
    ;
    assert(p != q ==> p * m + m <= q * m || q * m + m <= p * m) by (nonlinear_arith)
        requires
            m >= 0,
    ;
    let mut k: usize = 0;
    while k < m
        invariant
            k <= m,
            inp.len() == old(inp).len(),
            0 <= p * m,
            0 <= q * m,
            p != q ==> p * m + m <= q * m || q * m + m <= p * m,
            p * m + m <= inp.len(),
            q * m + m <= inp.len(),
            forall|x: T, y: T| call_requires(combine, (x, y)),
            forall|c: int|
                0 <= c < k ==> call_ensures(
                    combine,
                    (at(old(inp)@, q as int, c, m as int), at(old(inp)@, p as int, c, m as int)),
                    #[trigger] at(inp@, q as int, c, m as int),
                ),
            forall|c: int|
                k <= c < m ==> #[trigger] at(inp@, q as int, c, m as int) == at(
                    old(inp)@,
                    q as int,
                    c,
                    m as int,
                ),
            forall|t: int|
                0 <= t < inp@.len() && !in_row(t, q as int, m as int) ==> inp@[t] == old(inp)@[t],
        decreases m - k,
    {
        let ghost prior = inp@;
        let combined = combine(inp[q * m + k], inp[p * m + k]);
        inp[q * m + k] = combined;
        proof {
            if p != q {
                assert(!in_row(p * m + k, q as int, m as int));
                assert(prior[p * m + k] == old(inp)@[p * m + k]);
            } else {
                assert(at(prior, q as int, k as int, m as int) == at(
                    old(inp)@,
                    q as int,
                    k as int,
                    m as int,
                ));
            }
            assert forall|c: int| 0 <= c < k + 1 implies call_ensures(
                combine,
                (at(old(inp)@, q as int, c, m as int), at(old(inp)@, p as int, c, m as int)),
                #[trigger] at(inp@, q as int, c, m as int),
            ) by {
                if c < k {
                    assert(at(inp@, q as int, c, m as int) == at(prior, q as int, c, m as int));
                } else {
                    assert(at(prior, q as int, c, m as int) == at(
                        old(inp)@,
                        q as int,
                        c,
                        m as int,
                    ));
                }
            }
            assert forall|c: int| k + 1 <= c < m implies #[trigger] at(
                inp@,
                q as int,
                c,
                m as int,
            ) == at(old(inp)@, q as int, c, m as int) by {
                assert(at(prior, q as int, c, m as int) == at(old(inp)@, q as int, c, m as int));
            }
        }
        k += 1;
    }
}

} // verus!
