//! Splitting a range of independent work items into contiguous chunks, one
//! for each worker.

use vstd::prelude::*;

verus! {

/// The chunk length for `n` items and `workers` workers: `n / workers`,
/// rounded up.
pub open spec fn chunk_len_spec(n: int, workers: int) -> int {
    if n % workers == 0 {
        n / workers
    } else {
        n / workers + 1
    }
}

/// The number of chunks of length `q` that cover `n` items.
pub open spec fn chunk_count(n: int, q: int) -> int {
    if q <= 0 {
        0
    } else {
        chunk_len_spec(n, q)
    }
}

/// The chunk of index `t`: it starts at `t * q` and ends before
/// `(t + 1) * q`, or at `n` if that comes first.
pub open spec fn chunk(n: int, q: int, t: int) -> (int, int) {
    (t * q, if (t + 1) * q < n { (t + 1) * q } else { n })
}

/// The least chunk length with which `workers` chunks cover `n` items.
pub fn chunk_len(n: usize, workers: usize) -> (q: usize)
    requires
        workers > 0,
    ensures
        q == chunk_len_spec(n as int, workers as int),
        q * workers >= n,
        n > 0 ==> (q - 1) * workers < n,
        n == 0 ==> q == 0,
{
    let whole: usize = n / workers;
    let rest: usize = n % workers;
    proof {
        vstd::arithmetic::div_mod::lemma_fundamental_div_mod(n as int, workers as int);
        assert(workers * (n / workers) == (n / workers) * workers) by (nonlinear_arith);
        assert((whole + 1) * workers == whole * workers + workers) by (nonlinear_arith);
        assert((whole - 1) * workers == whole * workers - workers) by (nonlinear_arith);
        if whole == 0 {
            assert(whole * workers == 0) by (nonlinear_arith)
                requires
                    whole == 0,
            ;
        }
        assert(whole * workers >= whole) by (nonlinear_arith)
            requires
                workers >= 1,
                whole >= 0,
        ;
    }
    if rest == 0 {
        whole
    } else {
        whole + 1
    }
}

/// Splits the items `0..n` among at most `workers` workers: consecutive
/// chunks of equal length, the last one possibly shorter, none empty.
pub fn partition(n: usize, workers: usize) -> (ranges: Vec<(usize, usize)>)
    requires
        workers > 0,
    ensures
        ranges.len() == chunk_count(n as int, chunk_len_spec(n as int, workers as int)),
        ranges.len() <= workers,
        forall|t: int|
            0 <= t < ranges.len() ==> {
                &&& (#[trigger] ranges[t]).0 == chunk(
                    n as int,
                    chunk_len_spec(n as int, workers as int),
                    t,
                ).0
                &&& ranges[t].1 == chunk(n as int, chunk_len_spec(n as int, workers as int), t).1
                &&& ranges[t].0 < ranges[t].1 <= n
            },
        ranges.len() > 0 ==> ranges[0].0 == 0 && ranges[ranges.len() - 1].1 == n,
        forall|t: int| 0 < t < ranges.len() ==> (#[trigger] ranges[t]).0 == ranges[t - 1].1,
        n == 0 <==> ranges.len() == 0,
{
    let q = chunk_len(n, workers);
    let mut ranges: Vec<(usize, usize)> = Vec::new();
    let mut start: usize = 0;
    while start < n
        invariant
            q == chunk_len_spec(n as int, workers as int),
            q * workers >= n,
            n > 0 ==> q > 0,
            start <= n,
            start == ranges.len() * q || start == n,
            start < n ==> start == ranges.len() * q,
            start == n && ranges.len() > 0 ==> (ranges.len() - 1) * q < n <= ranges.len() * q,
            start == n && ranges.len() == 0 ==> n == 0,
            forall|t: int|
                0 <= t < ranges.len() ==> {
                    &&& (#[trigger] ranges[t]).0 == chunk(n as int, q as int, t).0
                    &&& ranges[t].1 == chunk(n as int, q as int, t).1
                    &&& ranges[t].0 < ranges[t].1 <= n
                },
            ranges.len() > 0 ==> ranges[0].0 == 0 && ranges[ranges.len() - 1].1 == start,
            forall|t: int| 0 < t < ranges.len() ==> (#[trigger] ranges[t]).0 == ranges[t - 1].1,
        decreases n - start,
    {
        let ghost t = ranges.len() as int;
        let end: usize = if n - start < q {
            n
        } else {
            start + q
        };
        proof {
            assert((t + 1) * q == t * q + q) by (nonlinear_arith);
            assert(0 * q == 0) by (nonlinear_arith);
        }
        ranges.push((start, end));
        start = end;
    }
    proof {
        let len = ranges.len() as int;
        let qi = q as int;
        if n > 0 {
            // `len` chunks of length `q` cover `n` items, `len - 1` do not
            assert(len > 0);
            assert(chunk_len_spec(n as int, qi) == len) by {
                vstd::arithmetic::div_mod::lemma_fundamental_div_mod(n as int, qi);
                let d = (n as int) / qi;
                let r = (n as int) % qi;
                assert(qi * d == d * qi) by (nonlinear_arith);
                if r == 0 {
                    assert(d == len) by (nonlinear_arith)
                        requires
                            (len - 1) * qi < d * qi,
                            d * qi <= len * qi,
                            qi > 0,
                    ;
                } else {
                    assert(d + 1 == len) by (nonlinear_arith)
                        requires
                            (len - 1) * qi < d * qi + r,
                            d * qi + r <= len * qi,
                            0 < r < qi,
                    ;
                }
            }
            assert(len <= workers) by (nonlinear_arith)
                requires
                    (len - 1) * qi < n,
                    n > 0 ==> (qi - 1) * workers < n,
                    n > 0,
                    qi * workers >= n,
                    qi > 0,
                    workers > 0,
                    len > 0,
            ;
        }
    }
    ranges
}

} // verus!
