//! Transposition of a sparse matrix: every key is rewritten from row-major to
//! column-major order, and the entries are sorted by their new keys.

use vstd::prelude::*;
use crate::layout::{
    col_of,
    lemma_offset_bound,
    lemma_offset_join,
    lemma_offset_split,
    lemma_row_bound,
    offset,
    row_of,
};
use crate::sparse::matrix::{lemma_get_stored, SparseMatrix, SparseView};

verus! {

/// The key, in the transposed matrix, of the cell that has key `k` in a matrix
/// with `h` rows and `w` columns.
pub open spec fn transposed_key(k: int, h: int, w: int) -> int {
    offset(col_of(k, w), row_of(k, w), h)
}

/// The first components of `s` are in non-decreasing order.
pub open spec fn ordered_by_first(s: Seq<(usize, usize)>) -> bool {
    forall|i: int, j: int| 0 <= i <= j < s.len() ==> s[i].0 <= s[j].0
}

/// Sorts the pairs by their first component with `slice::sort_by_key` of the
/// standard library. Not proved: that the call leaves a rearrangement of the
/// pairs it was given, in non-decreasing order of the first component.
#[verifier::external_body]
fn sort_by_first(pairs: &mut Vec<(usize, usize)>)
    ensures
        final(pairs)@.to_multiset() == old(pairs)@.to_multiset(),
        ordered_by_first(final(pairs)@),
{
    pairs.sort_by_key(|pair| pair.0);
}

/// Two sequences with the same elements, counted with multiplicity, have the
/// same length and the same members.
proof fn lemma_same_members(x: Seq<(usize, usize)>, y: Seq<(usize, usize)>, e: (usize, usize))
    requires
        x.to_multiset() == y.to_multiset(),
    ensures
        x.len() == y.len(),
        x.contains(e) ==> y.contains(e),
{
    x.to_multiset_ensures();
    y.to_multiset_ensures();
    if x.contains(e) {
        assert(x.to_multiset().count(e) > 0);
        assert(y.to_multiset().count(e) > 0);
    }
}

/// The pairs of new key and old position, as built from the matrix before
/// sorting.
spec fn rekeyed<T>(a: SparseView<T>, pairs: Seq<(usize, usize)>) -> bool {
    &&& pairs.len() == a.keys.len()
    &&& forall|p: int|
        0 <= p < pairs.len() ==> {
            &&& (#[trigger] pairs[p]).0 == transposed_key(
                a.keys[p] as int,
                a.rows as int,
                a.cols as int,
            )
            &&& pairs[p].1 == p
        }
}

/// Sorted pairs give a well-formed matrix that holds, at column `i` of row
/// `j`, what the matrix holds at column `j` of row `i`.
proof fn lemma_sorted_pairs_transpose<T>(
    a: SparseView<T>,
    pairs: Seq<(usize, usize)>,
    sorted: Seq<(usize, usize)>,
    o: SparseView<T>,
)
    requires
        a.wf(),
        rekeyed(a, pairs),
        sorted.to_multiset() == pairs.to_multiset(),
        ordered_by_first(sorted),
        o.rows == a.cols,
        o.cols == a.rows,
        o.keys.len() == sorted.len(),
        o.values.len() == sorted.len(),
        forall|t: int|
            0 <= t < sorted.len() ==> {
                &&& #[trigger] o.keys[t] == sorted[t].0
                &&& 0 <= sorted[t].1 < a.values.len()
                &&& o.values[t] == a.values[sorted[t].1 as int]
            },
    ensures
        o.wf(),
        forall|i: int, j: int|
            0 <= i < a.rows && 0 <= j < a.cols ==> #[trigger] o.entry(j, i) == a.entry(i, j),
{
    let h = a.rows as int;
    let w = a.cols as int;
    assert(pairs.no_duplicates()) by {
        assert forall|p: int, q: int| 0 <= p < pairs.len() && 0 <= q < pairs.len() && p
            != q implies pairs[p] != pairs[q] by {
            assert(pairs[p].1 == p && pairs[q].1 == q);
        }
    }
    pairs.lemma_multiset_has_no_duplicates();
    sorted.lemma_multiset_has_no_duplicates_conv();
    assert(a.rows * a.cols == a.cols * a.rows) by (nonlinear_arith);
    // every sorted pair is one of the pairs that were built
    assert forall|t: int| 0 <= t < sorted.len() implies {
        &&& (#[trigger] sorted[t]).1 < a.keys.len()
        &&& sorted[t].0 == transposed_key(a.keys[sorted[t].1 as int] as int, h, w)
        &&& sorted[t].0 < o.rows * o.cols
    } by {
        assert(sorted.contains(sorted[t]));
        lemma_same_members(sorted, pairs, sorted[t]);
        let p = choose|p: int| 0 <= p < pairs.len() && pairs[p] == sorted[t];
        assert(pairs[p].1 == p);
        let k = a.keys[p] as int;
        if w > 0 {
            lemma_offset_join(k, w);
            lemma_row_bound(k, h, w);
            lemma_offset_bound(col_of(k, w), row_of(k, w), w, h);
        }
    }
    assert forall|s: int, t: int| 0 <= s < t < o.keys.len() implies o.keys[s] < o.keys[t] by {
        assert(sorted[s] != sorted[t]);
        assert(sorted[s].0 <= sorted[t].0);
        let p = sorted[s].1 as int;
        let q = sorted[t].1 as int;
        if sorted[s].0 == sorted[t].0 {
            assert(p != q);
            let kp = a.keys[p] as int;
            let kq = a.keys[q] as int;
            lemma_offset_join(kp, w);
            lemma_offset_join(kq, w);
            lemma_row_bound(kp, h, w);
            lemma_row_bound(kq, h, w);
            lemma_offset_split(col_of(kp, w), row_of(kp, w), h);
            lemma_offset_split(col_of(kq, w), row_of(kq, w), h);
            assert(kp == kq);
            if p < q {
                assert(a.keys[p] < a.keys[q]);
            } else {
                assert(a.keys[q] < a.keys[p]);
            }
        }
    }
    assert(o.wf());
    assert forall|i: int, j: int| 0 <= i < a.rows && 0 <= j < a.cols implies #[trigger] o.entry(
        j,
        i,
    ) == a.entry(i, j) by {
        let ka = offset(i, j, w);
        let ko = offset(j, i, h);
        lemma_offset_split(i, j, w);
        lemma_offset_split(j, i, h);
        if a.has(ka) {
            let p = a.position(ka);
            lemma_get_stored(a, p);
            assert(pairs[p].0 == ko);
            assert(pairs.contains(pairs[p]));
            lemma_same_members(pairs, sorted, pairs[p]);
            let t = choose|t: int| 0 <= t < sorted.len() && sorted[t] == pairs[p];
            lemma_get_stored(o, t);
        } else if o.has(ko) {
            let t = o.position(ko);
            lemma_get_stored(o, t);
            let p = sorted[t].1 as int;
            let kp = a.keys[p] as int;
            lemma_offset_join(kp, w);
            lemma_row_bound(kp, h, w);
            lemma_offset_split(col_of(kp, w), row_of(kp, w), h);
            assert(kp == ka);
            assert(false);
        }
    }
}

/// Transposes the matrix.
pub fn transpose<T: Copy>(a: &SparseMatrix<T>) -> (m: SparseMatrix<T>)
    ensures
        m@.wf(),
        m@.rows == a@.cols,
        m@.cols == a@.rows,
        forall|i: int, j: int|
            0 <= i < a@.rows && 0 <= j < a@.cols ==> #[trigger] m@.entry(j, i) == a@.entry(i, j),
{
    let nrow = a.nrow();
    let ncol = a.ncol();
    let ak = a.keys();
    let ad = a.data();
    let na: usize = ak.len();
    let mut pairs: Vec<(usize, usize)> = Vec::new();
    let mut p: usize = 0;
    while p < na
        invariant
            a@.wf(),
            ak@ == a@.keys,
            nrow == a@.rows,
            ncol == a@.cols,
            na == ak.len(),
            p <= na,
            pairs.len() == p,
            forall|q: int|
                0 <= q < p ==> {
                    &&& (#[trigger] pairs[q]).0 == transposed_key(
                        ak[q] as int,
                        nrow as int,
                        ncol as int,
                    )
                    &&& pairs[q].1 == q
                },
        decreases na - p,
    {
        let key: usize = ak[p];
        proof {
            // a stored key is below `nrow * ncol`, so there is a column
            assert(ncol > 0) by {
                if ncol == 0 {
                    assert(a@.rows * a@.cols == 0) by (nonlinear_arith)
                        requires
                            a@.cols == 0,
                    ;
                }
            }
        }
        let r: usize = key / ncol;
        let c: usize = key % ncol;
        proof {
            lemma_offset_join(key as int, ncol as int);
            lemma_row_bound(key as int, nrow as int, ncol as int);
            lemma_offset_bound(c as int, r as int, ncol as int, nrow as int);
            assert(a@.rows * a@.cols == a@.cols * a@.rows) by (nonlinear_arith);
        }
        pairs.push((c * nrow + r, p));
        p += 1;
    }
    let ghost built = pairs@;
    sort_by_first(&mut pairs);
    let ghost sorted = pairs@;
    proof {
        lemma_same_members(sorted, built, (0, 0));
        assert forall|t: int| 0 <= t < sorted.len() implies (#[trigger] sorted[t]).1 < na by {
            assert(sorted.contains(sorted[t]));
            lemma_same_members(sorted, built, sorted[t]);
            let q = choose|q: int| 0 <= q < built.len() && built[q] == sorted[t];
            assert(built[q].1 == q);
        }
    }
    let mut keys: Vec<usize> = Vec::new();
    let mut data: Vec<T> = Vec::new();
    let mut t: usize = 0;
    while t < na
        invariant
            ad@ == a@.values,
            a@.wf(),
            na == ak.len(),
            ak@ == a@.keys,
            pairs@ == sorted,
            sorted.len() == na,
            t <= na,
            keys.len() == t,
            data.len() == t,
            forall|s: int| 0 <= s < sorted.len() ==> (#[trigger] sorted[s]).1 < na,
            forall|s: int|
                0 <= s < t ==> {
                    &&& #[trigger] keys[s] == sorted[s].0
                    &&& data[s] == ad[sorted[s].1 as int]
                },
        decreases na - t,
    {
        let pair = pairs[t];
        keys.push(pair.0);
        data.push(ad[pair.1]);
        t += 1;
    }
    proof {
        let o = SparseView { rows: ncol as nat, cols: nrow as nat, keys: keys@, values: data@ };
        assert forall|t: int| 0 <= t < sorted.len() implies {
            &&& #[trigger] o.keys[t] == sorted[t].0
            &&& 0 <= sorted[t].1 < a@.values.len()
            &&& o.values[t] == a@.values[sorted[t].1 as int]
        } by {
            assert(keys[t] == sorted[t].0);
        }
        lemma_sorted_pairs_transpose(a@, built, sorted, o);
    }
    SparseMatrix::from_parts(ncol, nrow, keys, data)
}

} // verus!
