//! Sparse operations and their dense counterparts: what an operation on
//! sparse matrices stores is what the same operation on the expanded dense
//! buffers computes.

use vstd::prelude::*;
use crate::kernel::{column, fold_chain, folded, is_product, lemma_fold_unique, row, single_valued};
use crate::layout::{at, col_of, lemma_offset_bound, lemma_offset_join, lemma_row_bound, row_of};
use crate::elementwise::zipped;
use crate::sparse::algebra::{multiplied, same_shape, subtracted, summed};
use crate::sparse::matrix::{kept, lemma_entries_determine, SparseView};
use crate::sparse::product::{cell_sum, sum_chain, sum_step};

verus! {

/// `t` holds at row `j`, column `i` what `a` holds at row `i`, column `j`.
pub open spec fn is_transpose<T>(a: SparseView<T>, t: SparseView<T>) -> bool {
    &&& t.rows == a.cols
    &&& t.cols == a.rows
    &&& forall|i: int, j: int|
        0 <= i < a.rows && 0 <= j < a.cols ==> #[trigger] t.entry(j, i) == a.entry(i, j)
}

/// The cell at row `i`, column `j` of the expanded matrix is the stored entry,
/// or `zero`.
pub proof fn lemma_dense_cell<T>(a: SparseView<T>, zero: T, i: int, j: int)
    requires
        0 <= i < a.rows,
        0 <= j < a.cols,
    ensures
        at(a.to_dense(zero), i, j, a.cols as int) == (match a.entry(i, j) {
            Some(v) => v,
            None => zero,
        }),
{
    lemma_offset_bound(i, j, a.rows as int, a.cols as int);
}

/// Expanding the transpose of a sparse matrix gives the dense transpose of its
/// expansion: cell `(j, i)` of the one is cell `(i, j)` of the other.
pub proof fn lemma_transpose_agrees_with_dense<T>(a: SparseView<T>, t: SparseView<T>, zero: T)
    requires
        a.wf(),
        t.wf(),
        is_transpose(a, t),
    ensures
        t.to_dense(zero).len() == a.rows * a.cols,
        forall|i: int, j: int|
            0 <= i < a.rows && 0 <= j < a.cols ==> #[trigger] at(
                t.to_dense(zero),
                j,
                i,
                a.rows as int,
            ) == at(a.to_dense(zero), i, j, a.cols as int),
{
    assert(a.rows * a.cols == a.cols * a.rows) by (nonlinear_arith);
    assert forall|i: int, j: int| 0 <= i < a.rows && 0 <= j < a.cols implies #[trigger] at(
        t.to_dense(zero),
        j,
        i,
        a.rows as int,
    ) == at(a.to_dense(zero), i, j, a.cols as int) by {
        lemma_dense_cell(a, zero, i, j);
        lemma_dense_cell(t, zero, j, i);
        assert(t.entry(j, i) == a.entry(i, j));
    }
}

/// Transposing twice gives the matrix back, key for key and value for value.
pub proof fn lemma_transpose_twice<T>(a: SparseView<T>, t: SparseView<T>, back: SparseView<T>)
    requires
        a.wf(),
        t.wf(),
        back.wf(),
        is_transpose(a, t),
        is_transpose(t, back),
    ensures
        back == a,
{
    assert forall|k: int| back.get(k) == a.get(k) by {
        if 0 <= k < a.rows * a.cols {
            assert(a.cols > 0) by {
                if a.cols == 0 {
                    assert(a.rows * a.cols == 0) by (nonlinear_arith)
                        requires
                            a.cols == 0,
                    ;
                }
            }
            lemma_offset_join(k, a.cols as int);
            lemma_row_bound(k, a.rows as int, a.cols as int);
            let i = row_of(k, a.cols as int);
            let j = col_of(k, a.cols as int);
            assert(back.entry(i, j) == t.entry(j, i));
            assert(t.entry(j, i) == a.entry(i, j));
        } else {
            if a.has(k) {
                let p = a.position(k);
                assert(a.keys[p] < a.rows * a.cols);
            }
            if back.has(k) {
                let p = back.position(k);
                assert(back.keys[p] < back.rows * back.cols);
            }
        }
    }
    lemma_entries_determine(back, a);
}

/// The operation `both` of a sparse merge stores what the dense operation
/// `op` computes: a value that `both` returned for a pair is the value that
/// `op` returns for it.
pub open spec fn stores_what<T, F: Fn(T, T) -> Option<T>, P: Fn(T, T) -> T>(both: F, op: P) -> bool {
    forall|u: T, v: T, w: T, d: T|
        #[trigger] call_ensures(both, (u, v), Some(w)) && #[trigger] call_ensures(op, (u, v), d)
            ==> d == w
}

/// `zero` on the right leaves the other operand of `op` as it is.
pub open spec fn right_neutral<T, P: Fn(T, T) -> T>(op: P, zero: T) -> bool {
    forall|u: T, d: T| #[trigger] call_ensures(op, (u, zero), d) ==> d == u
}

/// `zero` on the left leaves the other operand of `op` as it is.
pub open spec fn left_neutral<T, P: Fn(T, T) -> T>(op: P, zero: T) -> bool {
    forall|v: T, d: T| #[trigger] call_ensures(op, (zero, v), d) ==> d == v
}

/// What `negate` makes of a value is what `minus` makes of `zero` and the
/// value.
pub open spec fn negates_like<T, G: Fn(T) -> T, P: Fn(T, T) -> T>(negate: G, minus: P, zero: T) -> bool {
    forall|v: T, w: T, d: T|
        #[trigger] call_ensures(negate, (v,), w) && #[trigger] call_ensures(minus, (zero, v), d)
            ==> d == w
}

/// Whatever the sparse sum of two matrices stores is the dense sum of the
/// expanded matrices at that cell: given that the sparse operation stores
/// what the dense one computes and that `zero` is neutral for the dense one,
/// `sum` being a sparse sum of `a` and `b`, and `dense` being the dense sum
/// of their expansions.
pub proof fn lemma_sum_agrees_with_dense<T, F: Fn(T, T) -> Option<T>, P: Fn(T, T) -> T>(
    combine: F,
    plus: P,
    a: SparseView<T>,
    b: SparseView<T>,
    sum: SparseView<T>,
    zero: T,
    dense: Seq<T>,
)
    requires
        same_shape(a, b),
        same_shape(sum, a),
        forall|k: int| summed(combine, a.get(k), b.get(k), #[trigger] sum.get(k)),
        zipped(plus, a.to_dense(zero), b.to_dense(zero), (a.rows * a.cols) as int, dense),
        stores_what(combine, plus),
        right_neutral(plus, zero),
        left_neutral(plus, zero),
    ensures
        forall|k: int|
            0 <= k < a.rows * a.cols && (#[trigger] sum.get(k)) is Some ==> dense[k] == sum.get(
                k,
            )->0,
{
    assert forall|k: int| 0 <= k < a.rows * a.cols && (#[trigger] sum.get(k)) is Some implies dense[k]
        == sum.get(k)->0 by {
        assert(summed(combine, a.get(k), b.get(k), sum.get(k)));
        assert(call_ensures(plus, (a.to_dense(zero)[k], b.to_dense(zero)[k]), dense[k]));
    }
}

/// Whatever the sparse difference of two matrices stores is the dense
/// difference of the expanded matrices at that cell, under the conditions of
/// the sum and given that `negate` gives what the dense operation makes of
/// `zero` and a value.
pub proof fn lemma_difference_agrees_with_dense<
    T,
    F: Fn(T, T) -> Option<T>,
    G: Fn(T) -> T,
    P: Fn(T, T) -> T,
>(
    combine: F,
    negate: G,
    minus: P,
    a: SparseView<T>,
    b: SparseView<T>,
    difference: SparseView<T>,
    zero: T,
    dense: Seq<T>,
)
    requires
        same_shape(a, b),
        same_shape(difference, a),
        forall|k: int|
            subtracted(combine, negate, a.get(k), b.get(k), #[trigger] difference.get(k)),
        zipped(minus, a.to_dense(zero), b.to_dense(zero), (a.rows * a.cols) as int, dense),
        stores_what(combine, minus),
        right_neutral(minus, zero),
        negates_like(negate, minus, zero),
    ensures
        forall|k: int|
            0 <= k < a.rows * a.cols && (#[trigger] difference.get(k)) is Some ==> dense[k]
                == difference.get(k)->0,
{
    assert forall|k: int|
        0 <= k < a.rows * a.cols && (#[trigger] difference.get(k)) is Some implies dense[k]
        == difference.get(k)->0 by {
        assert(subtracted(combine, negate, a.get(k), b.get(k), difference.get(k)));
        assert(call_ensures(minus, (a.to_dense(zero)[k], b.to_dense(zero)[k]), dense[k]));
    }
}

/// Whatever the sparse element-wise product of two matrices stores is the
/// dense element-wise product of the expanded matrices at that cell, given
/// that the sparse operation stores what the dense one computes.
pub proof fn lemma_product_of_elements_agrees_with_dense<
    T,
    F: Fn(T, T) -> Option<T>,
    P: Fn(T, T) -> T,
>(
    combine: F,
    times: P,
    a: SparseView<T>,
    b: SparseView<T>,
    product: SparseView<T>,
    zero: T,
    dense: Seq<T>,
)
    requires
        same_shape(a, b),
        same_shape(product, a),
        forall|k: int| multiplied(combine, a.get(k), b.get(k), #[trigger] product.get(k)),
        zipped(times, a.to_dense(zero), b.to_dense(zero), (a.rows * a.cols) as int, dense),
        stores_what(combine, times),
    ensures
        forall|k: int|
            0 <= k < a.rows * a.cols && (#[trigger] product.get(k)) is Some ==> dense[k]
                == product.get(k)->0,
{
    assert forall|k: int|
        0 <= k < a.rows * a.cols && (#[trigger] product.get(k)) is Some implies dense[k]
        == product.get(k)->0 by {
        assert(multiplied(combine, a.get(k), b.get(k), product.get(k)));
        assert(call_ensures(times, (a.to_dense(zero)[k], b.to_dense(zero)[k]), dense[k]));
    }
}

/// Adding a product with `zero` to a sum gives the sum back, and nothing
/// else.
pub open spec fn zero_absorbs<T, F: Fn(T, T, T) -> T>(mul_add: F, zero: T) -> bool {
    forall|acc: T, x: T, y: T, r: T|
        (x == zero || y == zero) ==> (#[trigger] call_ensures(mul_add, (acc, x, y), r) <==> r
            == acc)
}

/// A chain of running sums for a cell of the sparse product is a chain of
/// running sums for the same cell of the product of the expanded matrices,
/// and the other way round.
proof fn lemma_chains_coincide<T, F: Fn(T, T, T) -> T>(
    mul_add: F,
    a: SparseView<T>,
    b: SparseView<T>,
    zero: T,
    r: int,
    c: int,
    chain: Seq<T>,
)
    requires
        a.cols == b.rows,
        0 <= r < a.rows,
        0 <= c < b.cols,
        chain.len() <= a.cols + 1,
        zero_absorbs(mul_add, zero),
    ensures
        sum_chain(mul_add, a, b, r, c, zero, chain) <==> fold_chain(
            mul_add,
            row(a.to_dense(zero), r, a.cols as int),
            column(b.to_dense(zero), c, a.cols as int, b.cols as int),
            zero,
            chain,
        ),
{
    let x = row(a.to_dense(zero), r, a.cols as int);
    let y = column(b.to_dense(zero), c, a.cols as int, b.cols as int);
    assert forall|k: int| 0 <= k < chain.len() - 1 implies (sum_step(
        mul_add,
        a,
        b,
        r,
        c,
        k,
        chain[k],
        chain[k + 1],
    ) <==> call_ensures(mul_add, (chain[k], x[k], y[k]), chain[k + 1])) by {
        lemma_dense_cell(a, zero, r, k);
        lemma_dense_cell(b, zero, k, c);
    }
    if sum_chain(mul_add, a, b, r, c, zero, chain) {
        assert forall|k: int| 0 <= k < chain.len() - 1 implies call_ensures(
            mul_add,
            (chain[k], x[k], y[k]),
            #[trigger] chain[k + 1],
        ) by {
            assert(sum_step(mul_add, a, b, r, c, k, chain[k], chain[k + 1]));
        }
    }
    if fold_chain(mul_add, x, y, zero, chain) {
        assert forall|k: int| 0 <= k < chain.len() - 1 implies #[trigger] sum_step(
            mul_add,
            a,
            b,
            r,
            c,
            k,
            chain[k],
            chain[k + 1],
        ) by {
            assert(call_ensures(mul_add, (chain[k], x[k], y[k]), chain[k + 1]));
        }
    }
}

/// The sums that a cell of the sparse product can have are the sums that the
/// same cell of the product of the expanded matrices can have, whenever
/// adding a product with `zero` changes nothing.
pub proof fn lemma_cell_sum_is_dense_sum<T, F: Fn(T, T, T) -> T>(
    mul_add: F,
    a: SparseView<T>,
    b: SparseView<T>,
    zero: T,
    r: int,
    c: int,
    acc: T,
)
    requires
        a.cols == b.rows,
        0 <= r < a.rows,
        0 <= c < b.cols,
        zero_absorbs(mul_add, zero),
    ensures
        cell_sum(mul_add, a, b, r, c, zero, a.cols as int, acc) <==> folded(
            mul_add,
            row(a.to_dense(zero), r, a.cols as int),
            column(b.to_dense(zero), c, a.cols as int, b.cols as int),
            zero,
            a.cols as int,
            acc,
        ),
{
    let x = row(a.to_dense(zero), r, a.cols as int);
    let y = column(b.to_dense(zero), c, a.cols as int, b.cols as int);
    let upto = a.cols as int;
    if cell_sum(mul_add, a, b, r, c, zero, upto, acc) {
        let chain = choose|chain: Seq<T>|
            #[trigger] sum_chain(mul_add, a, b, r, c, zero, chain) && chain.len() == upto + 1
                && chain[upto] == acc;
        lemma_chains_coincide(mul_add, a, b, zero, r, c, chain);
        assert(fold_chain(mul_add, x, y, zero, chain));
    }
    if folded(mul_add, x, y, zero, upto, acc) {
        let chain = choose|chain: Seq<T>|
            #[trigger] fold_chain(mul_add, x, y, zero, chain) && chain.len() == upto + 1
                && chain[upto] == acc;
        lemma_chains_coincide(mul_add, a, b, zero, r, c, chain);
        assert(sum_chain(mul_add, a, b, r, c, zero, chain));
    }
}

/// What the sparse product stores is what `keep` accepts of the dense product
/// of the expanded matrices, cell for cell: given an arithmetic that returns
/// one value for one triple of arguments and for which adding a product with
/// `zero` changes nothing, `product` being a sparse product of `a` and `b`,
/// and `dense` being a dense product of their expansions.
pub proof fn lemma_product_agrees_with_dense<T, F: Fn(T, T, T) -> T, K: Fn(T) -> bool>(
    mul_add: F,
    keep: K,
    a: SparseView<T>,
    b: SparseView<T>,
    zero: T,
    product: SparseView<T>,
    dense: Seq<T>,
)
    requires
        a.cols == b.rows,
        zero_absorbs(mul_add, zero),
        single_valued(mul_add),
        product.rows == a.rows,
        product.cols == b.cols,
        forall|r: int, c: int|
            0 <= r < product.rows && 0 <= c < product.cols ==> exists|acc: T|
                cell_sum(mul_add, a, b, r, c, zero, a.cols as int, acc) && kept(
                    keep,
                    acc,
                    #[trigger] product.entry(r, c),
                ),
        is_product(
            mul_add,
            a.to_dense(zero),
            b.to_dense(zero),
            a.rows as int,
            a.cols as int,
            b.cols as int,
            zero,
            dense,
        ),
    ensures
        forall|r: int, c: int|
            0 <= r < product.rows && 0 <= c < product.cols ==> kept(
                keep,
                at(dense, r, c, b.cols as int),
                #[trigger] product.entry(r, c),
            ),
{
    assert forall|r: int, c: int| 0 <= r < product.rows && 0 <= c < product.cols implies kept(
        keep,
        at(dense, r, c, b.cols as int),
        #[trigger] product.entry(r, c),
    ) by {
        let acc = choose|acc: T|
            cell_sum(mul_add, a, b, r, c, zero, a.cols as int, acc) && kept(
                keep,
                acc,
                product.entry(r, c),
            );
        lemma_cell_sum_is_dense_sum(mul_add, a, b, zero, r, c, acc);
        let x = row(a.to_dense(zero), r, a.cols as int);
        let y = column(b.to_dense(zero), c, a.cols as int, b.cols as int);
        assert(folded(mul_add, x, y, zero, a.cols as int, at(dense, r, c, b.cols as int)));
        lemma_fold_unique(mul_add, x, y, zero, a.cols as int, acc, at(dense, r, c, b.cols as int));
    }
}

} // verus!
