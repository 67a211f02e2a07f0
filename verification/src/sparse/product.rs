//! The matrix product of two sparse matrices.
//!
//! The arithmetic on the elements is the caller's: `mul_add(acc, x, y)` gives
//! the running sum `acc` with the product of `x` and `y` added, and `keep`
//! decides which sums are stored.

use vstd::prelude::*;
use crate::dense::filled;
use crate::error::MatrixError;
use crate::layout::{
    at,
    cells_before,
    col_of,
    lemma_cells_before,
    lemma_offset_bound,
    lemma_offset_join,
    lemma_offset_order,
    lemma_offset_split,
    lemma_row_bound,
    offset,
    row_of,
};
use crate::search::binary_search_next;
use crate::sparse::algebra::key_or_end;
use crate::sparse::matrix::{
    kept,
    lemma_get_gap,
    lemma_get_stored,
    lemma_strict_is_ascending,
    SparseMatrix,
    SparseView,
};

verus! {

/// One step of the running sum for the cell at row `r`, column `c` of the
/// product, at the inner index `k`. Where `a` stores `x` in row `r` and `b`
/// stores `y` in column `c`, the sum `prev` becomes what `mul_add` returned
/// for `(prev, x, y)`; elsewhere it stays as it is.
pub open spec fn sum_step<T, F: Fn(T, T, T) -> T>(
    mul_add: F,
    a: SparseView<T>,
    b: SparseView<T>,
    r: int,
    c: int,
    k: int,
    prev: T,
    next: T,
) -> bool {
    match (a.entry(r, k), b.entry(k, c)) {
        (Some(x), Some(y)) => call_ensures(mul_add, (prev, x, y), next),
        _ => next == prev,
    }
}

/// `chain` lists the running sums for one cell: it starts at `zero`, and
/// element `k + 1` follows from element `k` by the step at inner index `k`.
pub open spec fn sum_chain<T, F: Fn(T, T, T) -> T>(
    mul_add: F,
    a: SparseView<T>,
    b: SparseView<T>,
    r: int,
    c: int,
    zero: T,
    chain: Seq<T>,
) -> bool {
    &&& chain.len() >= 1
    &&& chain[0] == zero
    &&& forall|k: int|
        0 <= k < chain.len() - 1 ==> #[trigger] sum_step(
            mul_add,
            a,
            b,
            r,
            c,
            k,
            chain[k],
            chain[k + 1],
        )
}

/// `acc` is a value that the running sum for the cell at row `r`, column `c`
/// of the product can have after the inner indices below `upto`, taken in
/// ascending order.
pub open spec fn cell_sum<T, F: Fn(T, T, T) -> T>(
    mul_add: F,
    a: SparseView<T>,
    b: SparseView<T>,
    r: int,
    c: int,
    zero: T,
    upto: int,
    acc: T,
) -> bool {
    exists|chain: Seq<T>|
        #[trigger] sum_chain(mul_add, a, b, r, c, zero, chain) && chain.len() == upto + 1
            && chain[upto] == acc
}

/// Before any inner index the running sum is `zero`.
proof fn lemma_sum_starts<T, F: Fn(T, T, T) -> T>(
    mul_add: F,
    a: SparseView<T>,
    b: SparseView<T>,
    r: int,
    c: int,
    zero: T,
)
    ensures
        cell_sum(mul_add, a, b, r, c, zero, 0, zero),
{
    let chain = seq![zero];
    assert(sum_chain(mul_add, a, b, r, c, zero, chain));
}

/// A step at inner index `k` takes a running sum after the indices below `k`
/// to one after the indices up to `k`.
proof fn lemma_sum_steps<T, F: Fn(T, T, T) -> T>(
    mul_add: F,
    a: SparseView<T>,
    b: SparseView<T>,
    r: int,
    c: int,
    zero: T,
    k: int,
    prev: T,
    next: T,
)
    requires
        0 <= k,
        cell_sum(mul_add, a, b, r, c, zero, k, prev),
        sum_step(mul_add, a, b, r, c, k, prev, next),
    ensures
        cell_sum(mul_add, a, b, r, c, zero, k + 1, next),
{
    let chain = choose|chain: Seq<T>|
        #[trigger] sum_chain(mul_add, a, b, r, c, zero, chain) && chain.len() == k + 1 && chain[k]
            == prev;
    let longer = chain.push(next);
    assert forall|q: int| 0 <= q < longer.len() - 1 implies #[trigger] sum_step(
        mul_add,
        a,
        b,
        r,
        c,
        q,
        longer[q],
        longer[q + 1],
    ) by {
        if q < k {
            assert(sum_step(mul_add, a, b, r, c, q, chain[q], chain[q + 1]));
        }
    }
    assert(sum_chain(mul_add, a, b, r, c, zero, longer));
}

/// Inner indices at which the left operand stores nothing in row `r` leave the
/// running sum as it is.
proof fn lemma_sum_skips<T, F: Fn(T, T, T) -> T>(
    mul_add: F,
    a: SparseView<T>,
    b: SparseView<T>,
    r: int,
    c: int,
    zero: T,
    from: int,
    to: int,
    acc: T,
)
    requires
        0 <= from <= to,
        forall|k: int| from <= k < to ==> a.entry(r, k) is None,
        cell_sum(mul_add, a, b, r, c, zero, from, acc),
    ensures
        cell_sum(mul_add, a, b, r, c, zero, to, acc),
    decreases to - from,
{
    if from < to {
        lemma_sum_skips(mul_add, a, b, r, c, zero, from, to - 1, acc);
        assert(a.entry(r, to - 1) is None);
        lemma_sum_steps(mul_add, a, b, r, c, zero, to - 1, acc, acc);
    }
}

/// Moving the frontier of the pass over the left operand from key `g` to key
/// `f`, with no stored key from `g` up to `f`, leaves every running sum valid.
proof fn lemma_sum_advances<T, F: Fn(T, T, T) -> T>(
    mul_add: F,
    a: SparseView<T>,
    b: SparseView<T>,
    r: int,
    c: int,
    zero: T,
    g: int,
    f: int,
    acc: T,
)
    requires
        a.wf(),
        a.cols > 0,
        0 <= r < a.rows,
        0 <= g <= f,
        forall|k: int| g <= k < f ==> a.get(k) is None,
        cell_sum(mul_add, a, b, r, c, zero, cells_before(g, a.cols as int, r), acc),
    ensures
        cell_sum(mul_add, a, b, r, c, zero, cells_before(f, a.cols as int, r), acc),
{
    let w = a.cols as int;
    let p = cells_before(g, w, r);
    let q = cells_before(f, w, r);
    lemma_cells_before(g, f, w, r, 0);
    assert forall|k: int| p <= k < q implies a.entry(r, k) is None by {
        lemma_cells_before(g, f, w, r, k);
        assert(a.get(offset(r, k, w)) is None);
    }
    lemma_sum_skips(mul_add, a, b, r, c, zero, p, q, acc);
}

/// The number of cells of a row before the key that follows `f`.
proof fn lemma_cells_before_next(f: int, w: int, r: int)
    requires
        0 <= f,
        0 < w,
        0 <= r,
    ensures
        cells_before(f + 1, w, r) == (if r == row_of(f, w) {
            col_of(f, w) + 1
        } else {
            cells_before(f, w, r)
        }),
{
    lemma_offset_join(f, w);
    lemma_offset_join(f + 1, w);
    let i = row_of(f, w);
    let j = col_of(f, w);
    if j + 1 < w {
        lemma_offset_split(i, j + 1, w);
    } else {
        assert(f + 1 == (i + 1) * w + 0) by (nonlinear_arith)
            requires
                f == i * w + j,
                j + 1 == w,
        ;
        lemma_offset_split(i + 1, 0, w);
    }
}

/// Every running sum of the accumulator `sums` is valid for the inner indices
/// that come before the frontier key `f` of the pass over the left operand.
spec fn sums_valid<T, F: Fn(T, T, T) -> T>(
    mul_add: F,
    a: SparseView<T>,
    b: SparseView<T>,
    zero: T,
    sums: Seq<T>,
    f: int,
) -> bool {
    forall|r: int, c: int|
        0 <= r < a.rows && 0 <= c < b.cols ==> cell_sum(
            mul_add,
            a,
            b,
            r,
            c,
            zero,
            cells_before(f, a.cols as int, r),
            #[trigger] at(sums, r, c, b.cols as int),
        )
}

/// The running sums of row `r` while the entry of the left operand at inner
/// index `k` is combined with row `k` of the right operand: the columns before
/// `done` have it added, the others not yet.
spec fn row_valid<T, F: Fn(T, T, T) -> T>(
    mul_add: F,
    a: SparseView<T>,
    b: SparseView<T>,
    zero: T,
    sums: Seq<T>,
    r: int,
    k: int,
    done: int,
) -> bool {
    forall|c: int|
        0 <= c < b.cols ==> cell_sum(
            mul_add,
            a,
            b,
            r,
            c,
            zero,
            if c < done {
                k + 1
            } else {
                k
            },
            #[trigger] at(sums, r, c, b.cols as int),
        )
}

/// Multiplies `a` by `b` as matrices. The sum for each cell of the product
/// runs over the inner indices in ascending order, and the sums that `keep`
/// accepts are stored.
pub fn dot<T: Copy, F: Fn(T, T, T) -> T, K: Fn(T) -> bool>(
    a: &SparseMatrix<T>,
    b: &SparseMatrix<T>,
    zero: T,
    mul_add: F,
    keep: K,
) -> (res: Result<SparseMatrix<T>, MatrixError>)
    requires
        forall|acc: T, x: T, y: T| call_requires(mul_add, (acc, x, y)),
        forall|v: T| call_requires(keep, (v,)),
    ensures
        match res {
            Ok(m) => {
                &&& a@.cols == b@.rows
                &&& a@.rows * b@.cols <= usize::MAX
                &&& m@.wf()
                &&& m@.rows == a@.rows
                &&& m@.cols == b@.cols
                &&& forall|r: int, c: int|
                    0 <= r < m@.rows && 0 <= c < m@.cols ==> exists|acc: T|
                        cell_sum(mul_add, a@, b@, r, c, zero, a@.cols as int, acc) && kept(
                            keep,
                            acc,
                            #[trigger] m@.entry(r, c),
                        )
            },
            Err(MatrixError::DimensionMismatch) => a@.cols != b@.rows,
            Err(MatrixError::TooLarge) => a@.cols == b@.rows && a@.rows * b@.cols > usize::MAX,
            Err(_) => false,
        },
{
    let n = a.nrow();
    let w = a.ncol();
    let m = b.ncol();
    if w != b.nrow() {
        return Err(MatrixError::DimensionMismatch);
    }
    let total = match n.checked_mul(m) {
        Some(t) => t,
        None => { return Err(MatrixError::TooLarge); },
    };
    let ak = a.keys();
    let ad = a.data();
    let bk = b.keys();
    let bd = b.data();
    let na: usize = ak.len();
    let nb: usize = bk.len();
    let mut sums = filled(total, zero);
    proof {
        lemma_strict_is_ascending(bk@);
        assert(sums_valid(mul_add, a@, b@, zero, sums@, key_or_end(a@, 0))) by {
            assert forall|r: int, c: int| 0 <= r < a@.rows && 0 <= c < b@.cols implies cell_sum(
                mul_add,
                a@,
                b@,
                r,
                c,
                zero,
                cells_before(key_or_end(a@, 0), a@.cols as int, r),
                #[trigger] at(sums@, r, c, b@.cols as int),
            ) by {
                lemma_offset_bound(r, c, n as int, m as int);
                lemma_sum_starts(mul_add, a@, b@, r, c, zero);
                if w > 0 {
                    lemma_offset_split(0, 0, w as int);
                    assert forall|k: int| 0 <= k < key_or_end(a@, 0) implies a@.get(k) is None by {
                        lemma_get_gap(a@, 0, k);
                    }
                    lemma_sum_advances(
                        mul_add,
                        a@,
                        b@,
                        r,
                        c,
                        zero,
                        0,
                        key_or_end(a@, 0),
                        zero,
                    );
                }
            }
        }
    }
    let mut i: usize = 0;
    while i < na
        invariant
            a@.wf(),
            b@.wf(),
            a@.cols == b@.rows,
            ak@ == a@.keys,
            ad@ == a@.values,
            bk@ == b@.keys,
            bd@ == b@.values,
            n == a@.rows,
            w == a@.cols,
            m == b@.cols,
            total == n * m,
            na == ak.len(),
            nb == bk.len(),
            i <= na,
            sums.len() == total,
            crate::search::ascending(bk@),
            forall|acc: T, x: T, y: T| call_requires(mul_add, (acc, x, y)),
            sums_valid(mul_add, a@, b@, zero, sums@, key_or_end(a@, i as int)),
        decreases na - i,
    {
        let a_key: usize = ak[i];
        let a_d: T = ad[i];
        assert(w > 0) by {
            if w == 0 {
                assert(a@.rows * a@.cols == 0) by (nonlinear_arith)
                    requires
                        a@.cols == 0,
                ;
            }
        }
        let a_row: usize = a_key / w;
        let a_col: usize = a_key % w;
        let ghost before = sums@;
        proof {
            lemma_offset_join(a_key as int, w as int);
            lemma_row_bound(a_key as int, n as int, w as int);
            lemma_get_stored(a@, i as int);
            if m > 0 {
                lemma_offset_bound(a_col as int, 0, w as int, m as int);
            } else {
                assert(a_col * m == 0) by (nonlinear_arith)
                    requires
                        m == 0,
                ;
            }
        }
        let mut j: usize = binary_search_next(bk.as_slice(), a_col * m);
        let mut more: bool = true;
        proof {
            // the columns of row `a_col` of `b` before its first stored key
            assert(row_valid(
                mul_add,
                a@,
                b@,
                zero,
                sums@,
                a_row as int,
                a_col as int,
                cells_before(key_or_end(b@, j as int), m as int, a_col as int),
            )) by {
                assert forall|c: int| 0 <= c < b@.cols implies cell_sum(
                    mul_add,
                    a@,
                    b@,
                    a_row as int,
                    c,
                    zero,
                    if c < cells_before(key_or_end(b@, j as int), m as int, a_col as int) {
                        a_col + 1
                    } else {
                        a_col as int
                    },
                    #[trigger] at(sums@, a_row as int, c, b@.cols as int),
                ) by {
                    assert(cell_sum(
                        mul_add,
                        a@,
                        b@,
                        a_row as int,
                        c,
                        zero,
                        cells_before(a_key as int, w as int, a_row as int),
                        at(sums@, a_row as int, c, m as int),
                    ));
                    if c < cells_before(key_or_end(b@, j as int), m as int, a_col as int) {
                        lemma_offset_bound(a_col as int, c, w as int, m as int);
                        lemma_cells_before(
                            offset(a_col as int, 0, m as int),
                            key_or_end(b@, j as int),
                            m as int,
                            a_col as int,
                            c,
                        );
                        lemma_offset_split(a_col as int, 0, m as int);
                        lemma_get_gap(b@, j as int, offset(a_col as int, c, m as int));
                        lemma_sum_steps(
                            mul_add,
                            a@,
                            b@,
                            a_row as int,
                            c,
                            zero,
                            a_col as int,
                            at(sums@, a_row as int, c, m as int),
                            at(sums@, a_row as int, c, m as int),
                        );
                    }
                }
            }
        }
        while j < nb && more
            invariant
                a@.wf(),
                b@.wf(),
                a@.cols == b@.rows,
                ak@ == a@.keys,
                ad@ == a@.values,
                bk@ == b@.keys,
                bd@ == b@.values,
                n == a@.rows,
                w == a@.cols,
                m == b@.cols,
                total == n * m,
                na == ak.len(),
                nb == bk.len(),
                i < na,
                j <= nb,
                w > 0,
                a_key == ak[i as int],
                a_d == ad[i as int],
                a_row == row_of(a_key as int, w as int),
                a_col == col_of(a_key as int, w as int),
                a_row < n,
                a_col < w,
                a@.entry(a_row as int, a_col as int) == Some(a_d),
                sums.len() == total,
                before.len() == total,
                forall|acc: T, x: T, y: T| call_requires(mul_add, (acc, x, y)),
                j < nb ==> bk[j as int] >= a_col * m,
                forall|r: int, c: int|
                    0 <= r < n && 0 <= c < m && r != a_row ==> #[trigger] at(sums@, r, c, m as int)
                        == at(before, r, c, m as int),
                row_valid(
                    mul_add,
                    a@,
                    b@,
                    zero,
                    sums@,
                    a_row as int,
                    a_col as int,
                    if more {
                        cells_before(key_or_end(b@, j as int), m as int, a_col as int)
                    } else {
                        m as int
                    },
                ),
            decreases (nb - j) + (if more { 1int } else { 0int }),
        {
            let b_key: usize = bk[j];
            assert(m > 0) by {
                if m == 0 {
                    assert(b@.rows * b@.cols == 0) by (nonlinear_arith)
                        requires
                            b@.cols == 0,
                    ;
                }
            }
            let b_row: usize = b_key / m;
            let b_col: usize = b_key % m;
            proof {
                lemma_offset_join(b_key as int, m as int);
                lemma_row_bound(b_key as int, w as int, m as int);
                lemma_offset_order(a_col as int, 0, b_row as int, b_col as int, m as int);
                lemma_offset_order(b_row as int, b_col as int, a_col as int, 0, m as int);
            }
            if b_row != a_col {
                more = false;
            } else {
                proof {
                    lemma_offset_bound(a_row as int, b_col as int, n as int, m as int);
                    lemma_get_stored(b@, j as int);
                }
                let cell: usize = a_row * m + b_col;
                let ghost prior = sums@;
                let updated = mul_add(sums[cell], a_d, bd[j]);
                sums[cell] = updated;
                j += 1;
                proof {
                    let f = key_or_end(b@, j as int);
                    let r0 = a_row as int;
                    let k0 = a_col as int;
                    let mi = m as int;
                    if j < nb {
                        assert(bk[j - 1] < bk[j as int]);
                    }
                    assert(b_key < f);
                    assert forall|r: int, c: int|
                        0 <= r < n && 0 <= c < m && r != a_row implies #[trigger] at(
                        sums@,
                        r,
                        c,
                        mi,
                    ) == at(before, r, c, mi) by {
                        lemma_offset_bound(r, c, n as int, mi);
                        lemma_offset_order(r, c, r0, b_col as int, mi);
                        lemma_offset_order(r0, b_col as int, r, c, mi);
                        assert(at(prior, r, c, mi) == at(before, r, c, mi));
                    }
                    assert forall|c: int| 0 <= c < b@.cols implies cell_sum(
                        mul_add,
                        a@,
                        b@,
                        r0,
                        c,
                        zero,
                        if c < cells_before(f, mi, k0) {
                            k0 + 1
                        } else {
                            k0
                        },
                        #[trigger] at(sums@, r0, c, b@.cols as int),
                    ) by {
                        lemma_offset_bound(r0, c, n as int, mi);
                        lemma_offset_order(r0, c, r0, b_col as int, mi);
                        lemma_offset_order(r0, b_col as int, r0, c, mi);
                        lemma_cells_before(b_key as int, f, mi, k0, c);
                        assert(cell_sum(
                            mul_add,
                            a@,
                            b@,
                            r0,
                            c,
                            zero,
                            if c < b_col {
                                k0 + 1
                            } else {
                                k0
                            },
                            at(prior, r0, c, mi),
                        ));
                        assert(cell == offset(r0, b_col as int, mi));
                        assert(sums@ == prior.update(cell as int, updated));
                        assert(cells_before(b_key as int, mi, k0) == b_col);
                        if c == b_col {
                            assert(cell_sum(mul_add, a@, b@, r0, c, zero, k0, at(prior, r0, c, mi)));
                            assert(at(sums@, r0, c, mi) == updated);
                            assert(b@.entry(k0, c) == Some(bd[j - 1]));
                            assert(c < cells_before(f, mi, k0));
                            assert(a@.entry(r0, k0) == Some(a_d));
                            assert(call_ensures(
                                mul_add,
                                (at(prior, r0, c, mi), a_d, bd[j - 1]),
                                updated,
                            ));
                            lemma_sum_steps(
                                mul_add,
                                a@,
                                b@,
                                r0,
                                c,
                                zero,
                                k0,
                                at(prior, r0, c, mi),
                                updated,
                            );
                        } else if c > b_col && c < cells_before(f, mi, k0) {
                            lemma_get_gap(b@, j as int, offset(k0, c, mi));
                            assert(at(sums@, r0, c, mi) == at(prior, r0, c, mi));
                            assert(b@.entry(k0, c) == None::<T>);
                            lemma_sum_steps(
                                mul_add,
                                a@,
                                b@,
                                r0,
                                c,
                                zero,
                                k0,
                                at(prior, r0, c, mi),
                                at(prior, r0, c, mi),
                            );
                        } else {
                            assert(at(sums@, r0, c, mi) == at(prior, r0, c, mi));
                        }
                    }
                }
            }
        }
        i += 1;
        proof {
            let f = a_key as int;
            let g = key_or_end(a@, i as int);
            let wi = w as int;
            let mi = m as int;
            if i < na {
                assert(ak[i - 1] < ak[i as int]);
            }
            assert forall|k: int| f + 1 <= k < g implies a@.get(k) is None by {
                lemma_get_gap(a@, i as int, k);
            }
            // when the pass over row `a_col` of `b` ended early or ran out of
            // keys, every column of the row is done
            if more && mi > 0 {
                assert(cells_before(key_or_end(b@, nb as int), mi, a_col as int) == mi) by {
                    lemma_offset_split(w as int, 0, mi);
                }
            }
            assert forall|r: int, c: int| 0 <= r < a@.rows && 0 <= c < b@.cols implies cell_sum(
                mul_add,
                a@,
                b@,
                r,
                c,
                zero,
                cells_before(g, wi, r),
                #[trigger] at(sums@, r, c, mi),
            ) by {
                lemma_cells_before_next(f, wi, r);
                if r == a_row {
                    assert(cell_sum(
                        mul_add,
                        a@,
                        b@,
                        r,
                        c,
                        zero,
                        a_col + 1,
                        at(sums@, r, c, mi),
                    ));
                } else {
                    assert(at(sums@, r, c, mi) == at(before, r, c, mi));
                    assert(cell_sum(
                        mul_add,
                        a@,
                        b@,
                        r,
                        c,
                        zero,
                        cells_before(f, wi, r),
                        at(before, r, c, mi),
                    ));
                }
                lemma_sum_advances(mul_add, a@, b@, r, c, zero, f + 1, g, at(sums@, r, c, mi));
            }
        }
    }
    match SparseMatrix::create(n, m, sums.as_slice(), keep) {
        Ok(product) => {
            proof {
                assert forall|r: int, c: int|
                    0 <= r < product@.rows && 0 <= c < product@.cols implies exists|acc: T|
                    cell_sum(mul_add, a@, b@, r, c, zero, a@.cols as int, acc) && kept(
                        keep,
                        acc,
                        #[trigger] product@.entry(r, c),
                    ) by {
                    let acc = at(sums@, r, c, m as int);
                    lemma_offset_bound(r, c, n as int, m as int);
                    assert(cell_sum(
                        mul_add,
                        a@,
                        b@,
                        r,
                        c,
                        zero,
                        cells_before(key_or_end(a@, na as int), w as int, r),
                        acc,
                    ));
                    if w > 0 {
                        lemma_offset_split(n as int, 0, w as int);
                    }
                    assert(kept(keep, sums@[offset(r, c, m as int)], product@.get(offset(r, c, m as int))));
                }
            }
            Ok(product)
        },
        // the accumulator has one cell for every cell of the product
        Err(e) => Err(e),
    }
}

} // verus!
