//! Block selection for the sweeps over a bidiagonal matrix.
//!
//! A sweep works on one block of the diagonal at a time. Which entries of the
//! superdiagonal are still different from zero is the caller's finding;
//! `coupled[i]` says so of the entry between the diagonal entries `i` and
//! `i + 1`. The choice of the block is made here.

use vstd::prelude::*;

verus! {

/// The block from diagonal entry `p` to diagonal entry `q` is the last one
/// that is still coupled: entry `q - 1` of the superdiagonal is the last one
/// different from zero, and the block reaches back over the entries before it
/// that are different from zero too.
pub open spec fn is_active_block(coupled: Seq<bool>, p: int, q: int) -> bool {
    &&& 0 <= p < q <= coupled.len()
    &&& forall|i: int| q <= i < coupled.len() ==> !coupled[i]
    &&& forall|i: int| p <= i < q ==> coupled[i]
    &&& p > 0 ==> !coupled[p - 1]
}

/// Finds the block that the next step of a sweep works on, or `None` when no
/// entry of the superdiagonal is left and the sweeps are done.
pub fn active_block(coupled: &[bool]) -> (block: Option<(usize, usize)>)
    ensures
        match block {
            Some((p, q)) => is_active_block(coupled@, p as int, q as int),
            None => forall|i: int| 0 <= i < coupled.len() ==> !coupled[i],
        },
{
    let mut q: usize = coupled.len();
    while q > 0 && !coupled[q - 1]
        invariant
            q <= coupled.len(),
            forall|i: int| q <= i < coupled.len() ==> !coupled[i],
        decreases q,
    {
        q -= 1;
    }
    if q == 0 {
        return None;
    }
    let mut p: usize = q - 1;
    while p > 0 && coupled[p - 1]
        invariant
            p < q <= coupled.len(),
            forall|i: int| p <= i < q ==> coupled[i],
        decreases p,
    {
        p -= 1;
    }
    Some((p, q))
}

/// At most one block is the active one.
pub proof fn lemma_active_block_unique(coupled: Seq<bool>, p1: int, q1: int, p2: int, q2: int)
    requires
        is_active_block(coupled, p1, q1),
        is_active_block(coupled, p2, q2),
    ensures
        p1 == p2,
        q1 == q2,
{
    if q1 < q2 {
        assert(coupled[q2 - 1]);
    } else if q2 < q1 {
        assert(coupled[q1 - 1]);
    }
    if p1 < p2 {
        assert(coupled[p2 - 1]);
    } else if p2 < p1 {
        assert(coupled[p1 - 1]);
    }
}

} // verus!
