//! Products of dense row-major buffers: the dot product and the matrix
//! product, plain and blocked.
//!
//! The arithmetic on the elements is the caller's: `mul_add(acc, x, y)` gives
//! the running sum `acc` with the product of `x` and `y` added. Every sum runs
//! over its terms in ascending order of the inner index, so that the plain and
//! the blocked product perform the same operations on every cell.

use vstd::prelude::*;
use crate::dense::{block_inside, filled, lemma_window_at, window};
use crate::layout::{
    at,
    col_of,
    lemma_offset_bound,
    lemma_offset_join,
    lemma_offset_order,
    lemma_row_bound,
    offset,
    row_of,
};

verus! {

/// The width of a block of the blocked product.
pub const LANES: usize = 64;

/// `mul_add` may be called on every triple of elements.
pub open spec fn always_callable<T, F: Fn(T, T, T) -> T>(mul_add: F) -> bool {
    forall|acc: T, x: T, y: T| call_requires(mul_add, (acc, x, y))
}

/// `mul_add` returns one value for one triple of arguments.
pub open spec fn single_valued<T, F: Fn(T, T, T) -> T>(mul_add: F) -> bool {
    forall|acc: T, x: T, y: T, r1: T, r2: T|
        call_ensures(mul_add, (acc, x, y), r1) && call_ensures(mul_add, (acc, x, y), r2) ==> r1
            == r2
}

/// `chain` lists the running sums of the products `x[k] * y[k]`: it starts at
/// `zero`, and element `k + 1` is what `mul_add` returned for element `k`,
/// `x[k]` and `y[k]`.
pub open spec fn fold_chain<T, F: Fn(T, T, T) -> T>(
    mul_add: F,
    x: Seq<T>,
    y: Seq<T>,
    zero: T,
    chain: Seq<T>,
) -> bool {
    &&& chain.len() >= 1
    &&& chain[0] == zero
    &&& forall|k: int|
        0 <= k < chain.len() - 1 ==> call_ensures(
            mul_add,
            (chain[k], x[k], y[k]),
            #[trigger] chain[k + 1],
        )
}

/// `acc` is a value that the sum of the first `upto` products `x[k] * y[k]`,
/// taken in ascending order of `k`, can have.
pub open spec fn folded<T, F: Fn(T, T, T) -> T>(
    mul_add: F,
    x: Seq<T>,
    y: Seq<T>,
    zero: T,
    upto: int,
    acc: T,
) -> bool {
    exists|chain: Seq<T>|
        #[trigger] fold_chain(mul_add, x, y, zero, chain) && chain.len() == upto + 1 && chain[upto]
            == acc
}

/// Row `i` of a row-major buffer with `w` columns.
pub open spec fn row<T>(buf: Seq<T>, i: int, w: int) -> Seq<T> {
    Seq::new(w as nat, |k: int| at(buf, i, k, w))
}

/// The first `h` elements of column `j` of a row-major buffer with `w` columns.
pub open spec fn column<T>(buf: Seq<T>, j: int, h: int, w: int) -> Seq<T> {
    Seq::new(h as nat, |k: int| at(buf, k, j, w))
}

/// `out` is a product of the `n` by `m` matrix `a` and the `m` by `p` matrix
/// `b`: every cell holds a sum of row times column, over the inner index in
/// ascending order.
pub open spec fn is_product<T, F: Fn(T, T, T) -> T>(
    mul_add: F,
    a: Seq<T>,
    b: Seq<T>,
    n: int,
    m: int,
    p: int,
    zero: T,
    out: Seq<T>,
) -> bool {
    &&& out.len() == n * p
    &&& forall|i: int, j: int|
        0 <= i < n && 0 <= j < p ==> folded(
            mul_add,
            row(a, i, m),
            column(b, j, m, p),
            zero,
            m,
            #[trigger] at(out, i, j, p),
        )
}

/// Before any term the sum is `zero`.
pub proof fn lemma_fold_starts<T, F: Fn(T, T, T) -> T>(mul_add: F, x: Seq<T>, y: Seq<T>, zero: T)
    ensures
        folded(mul_add, x, y, zero, 0, zero),
{
    assert(fold_chain(mul_add, x, y, zero, seq![zero]));
}

/// One more term takes a sum of `k` terms to a sum of `k + 1` terms.
pub proof fn lemma_fold_steps<T, F: Fn(T, T, T) -> T>(
    mul_add: F,
    x: Seq<T>,
    y: Seq<T>,
    zero: T,
    k: int,
    prev: T,
    next: T,
)
    requires
        0 <= k,
        folded(mul_add, x, y, zero, k, prev),
        call_ensures(mul_add, (prev, x[k], y[k]), next),
    ensures
        folded(mul_add, x, y, zero, k + 1, next),
{
    let chain = choose|chain: Seq<T>|
        #[trigger] fold_chain(mul_add, x, y, zero, chain) && chain.len() == k + 1 && chain[k]
            == prev;
    let longer = chain.push(next);
    assert forall|q: int| 0 <= q < longer.len() - 1 implies call_ensures(
        mul_add,
        (longer[q], x[q], y[q]),
        #[trigger] longer[q + 1],
    ) by {
        if q < k {
            assert(call_ensures(mul_add, (chain[q], x[q], y[q]), chain[q + 1]));
        }
    }
    assert(fold_chain(mul_add, x, y, zero, longer));
}

/// With an arithmetic that returns one value for one triple of arguments, a
/// sum of `upto` terms has one value.
pub proof fn lemma_fold_unique<T, F: Fn(T, T, T) -> T>(
    mul_add: F,
    x: Seq<T>,
    y: Seq<T>,
    zero: T,
    upto: int,
    acc1: T,
    acc2: T,
)
    requires
        single_valued(mul_add),
        folded(mul_add, x, y, zero, upto, acc1),
        folded(mul_add, x, y, zero, upto, acc2),
    ensures
        acc1 == acc2,
{
    let c1 = choose|chain: Seq<T>|
        #[trigger] fold_chain(mul_add, x, y, zero, chain) && chain.len() == upto + 1 && chain[upto]
            == acc1;
    let c2 = choose|chain: Seq<T>|
        #[trigger] fold_chain(mul_add, x, y, zero, chain) && chain.len() == upto + 1 && chain[upto]
            == acc2;
    lemma_chains_agree(mul_add, x, y, zero, c1, c2, upto);
}

/// Two chains of sums over the same terms agree element for element.
proof fn lemma_chains_agree<T, F: Fn(T, T, T) -> T>(
    mul_add: F,
    x: Seq<T>,
    y: Seq<T>,
    zero: T,
    c1: Seq<T>,
    c2: Seq<T>,
    k: int,
)
    requires
        single_valued(mul_add),
        fold_chain(mul_add, x, y, zero, c1),
        fold_chain(mul_add, x, y, zero, c2),
        0 <= k < c1.len(),
        k < c2.len(),
    ensures
        c1[k] == c2[k],
    decreases k,
{
    if k > 0 {
        lemma_chains_agree(mul_add, x, y, zero, c1, c2, k - 1);
        assert(call_ensures(mul_add, (c1[k - 1], x[k - 1], y[k - 1]), c1[k - 1 + 1]));
        assert(call_ensures(mul_add, (c2[k - 1], x[k - 1], y[k - 1]), c2[k - 1 + 1]));
    }
}

/// The sum of the products of corresponding elements, in ascending order.
pub fn dot_product<T: Copy, F: Fn(T, T, T) -> T>(inp1: &[T], inp2: &[T], zero: T, mul_add: F) -> (sum: T)
    requires
        inp1.len() <= inp2.len(),
        always_callable(mul_add),
    ensures
        folded(mul_add, inp1@, inp2@, zero, inp1.len() as int, sum),
{
    let n: usize = inp1.len();
    let mut sum: T = zero;
    let mut i: usize = 0;
    proof {
        lemma_fold_starts(mul_add, inp1@, inp2@, zero);
    }
    while i < n
        invariant
            i <= n,
            n == inp1.len(),
            n <= inp2.len(),
            always_callable(mul_add),
            folded(mul_add, inp1@, inp2@, zero, i as int, sum),
        decreases n - i,
    {
        let next = mul_add(sum, inp1[i], inp2[i]);
        proof {
            lemma_fold_steps(mul_add, inp1@, inp2@, zero, i as int, sum, next);
        }
        sum = next;
        i += 1;
    }
    sum
}

/// The end of the block that starts at `start`: `LANES` elements on, or the
/// end of the `n` elements if that comes first.
pub open spec fn block_end(start: int, n: int) -> int {
    if n - start < LANES {
        n
    } else {
        start + LANES
    }
}

/// One block of the blocked dot product, from `start` on: the products of
/// the block are summed from `zero` in ascending order, and the sum `prev` of
/// the blocks before becomes what `plus` returned for it and the sum of the
/// block.
pub open spec fn block_step<T, F: Fn(T, T, T) -> T, P: Fn(T, T) -> T>(
    mul_add: F,
    plus: P,
    x: Seq<T>,
    y: Seq<T>,
    n: int,
    zero: T,
    start: int,
    prev: T,
    next: T,
) -> bool {
    exists|partial: T|
        #[trigger] folded(
            mul_add,
            x.subrange(start, block_end(start, n)),
            y.subrange(start, block_end(start, n)),
            zero,
            block_end(start, n) - start,
            partial,
        ) && call_ensures(plus, (prev, partial), next)
}

/// `sums` lists the running sums of the blocked dot product of the first `n`
/// elements after every block, from `zero` on.
pub open spec fn blocked_chain<T, F: Fn(T, T, T) -> T, P: Fn(T, T) -> T>(
    mul_add: F,
    plus: P,
    x: Seq<T>,
    y: Seq<T>,
    n: int,
    zero: T,
    sums: Seq<T>,
) -> bool {
    &&& sums.len() >= 1
    &&& sums[0] == zero
    &&& forall|t: int|
        0 <= t < sums.len() - 1 ==> #[trigger] block_step(
            mul_add,
            plus,
            x,
            y,
            n,
            zero,
            t * LANES,
            sums[t],
            sums[t + 1],
        )
}

/// `sum` is a value that the blocked dot product of the first `n` elements
/// can have: the end of a chain over all blocks.
pub open spec fn blocked_sum<T, F: Fn(T, T, T) -> T, P: Fn(T, T) -> T>(
    mul_add: F,
    plus: P,
    x: Seq<T>,
    y: Seq<T>,
    n: int,
    zero: T,
    sum: T,
) -> bool {
    exists|sums: Seq<T>|
        {
            &&& #[trigger] blocked_chain(mul_add, plus, x, y, n, zero, sums)
            &&& (sums.len() - 1) * LANES >= n
            &&& (sums.len() - 2) * LANES < n || sums.len() == 1
            &&& sums[sums.len() - 1] == sum
        }
}

/// The dot product with the products summed in blocks of `LANES`: each block
/// is summed on its own, in ascending order, and the sums of the blocks are
/// added up in turn. The last block may be shorter.
pub fn dot_product_simd<T: Copy, F: Fn(T, T, T) -> T, P: Fn(T, T) -> T>(
    inp1: &[T],
    inp2: &[T],
    zero: T,
    mul_add: F,
    plus: P,
) -> (sum: T)
    requires
        inp1.len() <= inp2.len(),
        always_callable(mul_add),
        forall|x: T, y: T| call_requires(plus, (x, y)),
    ensures
        blocked_sum(mul_add, plus, inp1@, inp2@, inp1.len() as int, zero, sum),
{
    let n: usize = inp1.len();
    let ghost ni = n as int;
    let mut sum: T = zero;
    let ghost mut sums: Seq<T> = seq![zero];
    let mut start: usize = 0;
    while start < n
        invariant
            start <= n,
            ni == n,
            n == inp1.len(),
            n <= inp2.len(),
            always_callable(mul_add),
            forall|x: T, y: T| call_requires(plus, (x, y)),
            blocked_chain(mul_add, plus, inp1@, inp2@, ni, zero, sums),
            start == (sums.len() - 1) * LANES || start == n,
            start < n ==> start == (sums.len() - 1) * LANES,
            start == n ==> (sums.len() - 1) * LANES >= n && ((sums.len() - 2) * LANES < n
                || sums.len() == 1),
            sums[sums.len() - 1] == sum,
        decreases n - start,
    {
        let end: usize = if n - start < LANES {
            n
        } else {
            start + LANES
        };
        let ghost xs = inp1@.subrange(start as int, end as int);
        let ghost ys = inp2@.subrange(start as int, end as int);
        let mut partial: T = zero;
        let mut k: usize = start;
        proof {
            lemma_fold_starts(mul_add, xs, ys, zero);
        }
        while k < end
            invariant
                start <= k <= end <= n,
                n == inp1.len(),
                n <= inp2.len(),
                always_callable(mul_add),
                xs == inp1@.subrange(start as int, end as int),
                ys == inp2@.subrange(start as int, end as int),
                folded(mul_add, xs, ys, zero, k - start, partial),
            decreases end - k,
        {
            let next = mul_add(partial, inp1[k], inp2[k]);
            proof {
                lemma_fold_steps(mul_add, xs, ys, zero, k - start, partial, next);
            }
            partial = next;
            k += 1;
        }
        let ghost before = sums;
        let total = plus(sum, partial);
        proof {
            let t = before.len() - 1;
            assert(end == block_end(start as int, ni));
            assert(block_step(mul_add, plus, inp1@, inp2@, ni, zero, t * LANES, sum, total));
            sums = before.push(total);
            assert forall|q: int| 0 <= q < sums.len() - 1 implies #[trigger] block_step(
                mul_add,
                plus,
                inp1@,
                inp2@,
                ni,
                zero,
                q * LANES,
                sums[q],
                sums[q + 1],
            ) by {
                if q < t {
                    assert(block_step(
                        mul_add,
                        plus,
                        inp1@,
                        inp2@,
                        ni,
                        zero,
                        q * LANES,
                        before[q],
                        before[q + 1],
                    ));
                }
            }
        }
        sum = total;
        start = end;
    }
    sum
}

/// How many terms the sum of the cell at row `r`, column `c` holds when the
/// product loop stands at row `i`, inner index `k` and column `j`: all `m` in
/// the rows above `i`, none in the rows below, and in row `i` one more in the
/// columns before `j` than in the others.
pub open spec fn terms_done(i: int, k: int, j: int, r: int, c: int, m: int) -> int {
    if r < i {
        m
    } else if r > i {
        0
    } else if c < j {
        k + 1
    } else {
        k
    }
}

/// The accumulator `out` of a product loop that stands at row `i`, inner index
/// `k` and column `j`.
pub open spec fn product_upto<T, F: Fn(T, T, T) -> T>(
    mul_add: F,
    a: Seq<T>,
    b: Seq<T>,
    n: int,
    m: int,
    p: int,
    zero: T,
    out: Seq<T>,
    i: int,
    k: int,
    j: int,
) -> bool {
    &&& out.len() == n * p
    &&& forall|r: int, c: int|
        0 <= r < n && 0 <= c < p ==> folded(
            mul_add,
            row(a, r, m),
            column(b, c, m, p),
            zero,
            terms_done(i, k, j, r, c, m),
            #[trigger] at(out, r, c, p),
        )
}

/// Adding the term of inner index `k` to the cell at row `i`, column `j` moves
/// the product loop on by one column.
proof fn lemma_cell_updated<T, F: Fn(T, T, T) -> T>(
    mul_add: F,
    a: Seq<T>,
    b: Seq<T>,
    n: int,
    m: int,
    p: int,
    zero: T,
    before: Seq<T>,
    after: Seq<T>,
    i: int,
    k: int,
    j: int,
    next: T,
)
    requires
        0 <= i < n,
        0 <= k < m,
        0 <= j < p,
        product_upto(mul_add, a, b, n, m, p, zero, before, i, k, j),
        call_ensures(mul_add, (at(before, i, j, p), at(a, i, k, m), at(b, k, j, p)), next),
        after == before.update(offset(i, j, p), next),
    ensures
        product_upto(mul_add, a, b, n, m, p, zero, after, i, k, j + 1),
{
    lemma_offset_bound(i, j, n, p);
    assert forall|r: int, c: int| 0 <= r < n && 0 <= c < p implies folded(
        mul_add,
        row(a, r, m),
        column(b, c, m, p),
        zero,
        terms_done(i, k, j + 1, r, c, m),
        #[trigger] at(after, r, c, p),
    ) by {
        lemma_offset_bound(r, c, n, p);
        lemma_offset_order(r, c, i, j, p);
        lemma_offset_order(i, j, r, c, p);
        assert(folded(
            mul_add,
            row(a, r, m),
            column(b, c, m, p),
            zero,
            terms_done(i, k, j, r, c, m),
            at(before, r, c, p),
        ));
        if r == i && c == j {
            lemma_fold_steps(
                mul_add,
                row(a, i, m),
                column(b, j, m, p),
                zero,
                k,
                at(before, i, j, p),
                next,
            );
        }
    }
}

/// An accumulator of zeros is the state of the product loop before its first
/// step.
proof fn lemma_product_starts<T, F: Fn(T, T, T) -> T>(
    mul_add: F,
    a: Seq<T>,
    b: Seq<T>,
    n: int,
    m: int,
    p: int,
    zero: T,
    out: Seq<T>,
)
    requires
        0 <= n,
        0 <= p,
        out.len() == n * p,
        forall|q: int| 0 <= q < out.len() ==> out[q] == zero,
    ensures
        product_upto(mul_add, a, b, n, m, p, zero, out, 0, 0, 0),
{
    assert forall|r: int, c: int| 0 <= r < n && 0 <= c < p implies folded(
        mul_add,
        row(a, r, m),
        column(b, c, m, p),
        zero,
        terms_done(0, 0, 0, r, c, m),
        #[trigger] at(out, r, c, p),
    ) by {
        lemma_offset_bound(r, c, n, p);
        lemma_fold_starts(mul_add, row(a, r, m), column(b, c, m, p), zero);
    }
}

/// The product of the `n` by `m` matrix `inp1` and the `m` by `p` matrix
/// `inp2`, by the plain triple loop.
pub fn matrix_multiply<T: Copy, F: Fn(T, T, T) -> T>(
    inp1: &[T],
    inp2: &[T],
    n: usize,
    m: usize,
    p: usize,
    zero: T,
    mul_add: F,
) -> (out: Vec<T>)
    requires
        n * m <= inp1.len(),
        m * p <= inp2.len(),
        n * p <= usize::MAX,
        always_callable(mul_add),
    ensures
        is_product(mul_add, inp1@, inp2@, n as int, m as int, p as int, zero, out@),
{
    let mut out = filled(n * p, zero);
    proof {
        lemma_product_starts(mul_add, inp1@, inp2@, n as int, m as int, p as int, zero, out@);
    }
    let mut i: usize = 0;
    while i < n
        invariant
            i <= n,
            n * m <= inp1.len(),
            m * p <= inp2.len(),
            n * p <= usize::MAX,
            always_callable(mul_add),
            product_upto(
                mul_add,
                inp1@,
                inp2@,
                n as int,
                m as int,
                p as int,
                zero,
                out@,
                i as int,
                0,
                0,
            ),
        decreases n - i,
    {
        let mut k: usize = 0;
        while k < m
            invariant
                i < n,
                k <= m,
                n * m <= inp1.len(),
                m * p <= inp2.len(),
                n * p <= usize::MAX,
                always_callable(mul_add),
                product_upto(
                    mul_add,
                    inp1@,
                    inp2@,
                    n as int,
                    m as int,
                    p as int,
                    zero,
                    out@,
                    i as int,
                    k as int,
                    0,
                ),
            decreases m - k,
        {
            let mut j: usize = 0;
            while j < p
                invariant
                    i < n,
                    k < m,
                    j <= p,
                    n * m <= inp1.len(),
                    m * p <= inp2.len(),
                    n * p <= usize::MAX,
                    always_callable(mul_add),
                    product_upto(
                        mul_add,
                        inp1@,
                        inp2@,
                        n as int,
                        m as int,
                        p as int,
                        zero,
                        out@,
                        i as int,
                        k as int,
                        j as int,
                    ),
                decreases p - j,
            {
                proof {
                    lemma_offset_bound(i as int, j as int, n as int, p as int);
                    lemma_offset_bound(i as int, k as int, n as int, m as int);
                    lemma_offset_bound(k as int, j as int, m as int, p as int);
                }
                let ghost before = out@;
                let next = mul_add(out[i * p + j], inp1[i * m + k], inp2[k * p + j]);
                out[i * p + j] = next;
                proof {
                    lemma_cell_updated(
                        mul_add,
                        inp1@,
                        inp2@,
                        n as int,
                        m as int,
                        p as int,
                        zero,
                        before,
                        out@,
                        i as int,
                        k as int,
                        j as int,
                        next,
                    );
                }
                j += 1;
            }
            k += 1;
        }
        i += 1;
    }
    out
}

/// The product of the `n` by `m` matrix `inp1` and the `m` by `p` matrix
/// `inp2`, with the columns of the result taken in blocks of `LANES` and a
/// shorter block at the end of a row.
pub fn matrix_multiply_simd<T: Copy, F: Fn(T, T, T) -> T>(
    inp1: &[T],
    inp2: &[T],
    n: usize,
    m: usize,
    p: usize,
    zero: T,
    mul_add: F,
) -> (out: Vec<T>)
    requires
        n * m <= inp1.len(),
        m * p <= inp2.len(),
        n * p <= usize::MAX,
        always_callable(mul_add),
    ensures
        is_product(mul_add, inp1@, inp2@, n as int, m as int, p as int, zero, out@),
{
    let mut out = filled(n * p, zero);
    proof {
        lemma_product_starts(mul_add, inp1@, inp2@, n as int, m as int, p as int, zero, out@);
    }
    let mut i: usize = 0;
    while i < n
        invariant
            i <= n,
            n * m <= inp1.len(),
            m * p <= inp2.len(),
            n * p <= usize::MAX,
            always_callable(mul_add),
            product_upto(
                mul_add,
                inp1@,
                inp2@,
                n as int,
                m as int,
                p as int,
                zero,
                out@,
                i as int,
                0,
                0,
            ),
        decreases n - i,
    {
        let mut k: usize = 0;
        while k < m
            invariant
                i < n,
                k <= m,
                n * m <= inp1.len(),
                m * p <= inp2.len(),
                n * p <= usize::MAX,
                always_callable(mul_add),
                product_upto(
                    mul_add,
                    inp1@,
                    inp2@,
                    n as int,
                    m as int,
                    p as int,
                    zero,
                    out@,
                    i as int,
                    k as int,
                    0,
                ),
            decreases m - k,
        {
            proof {
                lemma_offset_bound(i as int, k as int, n as int, m as int);
            }
            let scale = inp1[i * m + k];
            let mut block: usize = 0;
            while block < p
                invariant
                    i < n,
                    k < m,
                    block <= p,
                    n * m <= inp1.len(),
                    m * p <= inp2.len(),
                    n * p <= usize::MAX,
                    always_callable(mul_add),
                    scale == at(inp1@, i as int, k as int, m as int),
                    product_upto(
                        mul_add,
                        inp1@,
                        inp2@,
                        n as int,
                        m as int,
                        p as int,
                        zero,
                        out@,
                        i as int,
                        k as int,
                        block as int,
                    ),
                decreases p - block,
            {
                let end: usize = if p - block < LANES {
                    p
                } else {
                    block + LANES
                };
                let mut j: usize = block;
                while j < end
                    invariant
                        i < n,
                        k < m,
                        block <= j <= end,
                        end <= p,
                        n * m <= inp1.len(),
                        m * p <= inp2.len(),
                        n * p <= usize::MAX,
                        always_callable(mul_add),
                        scale == at(inp1@, i as int, k as int, m as int),
                        product_upto(
                            mul_add,
                            inp1@,
                            inp2@,
                            n as int,
                            m as int,
                            p as int,
                            zero,
                            out@,
                            i as int,
                            k as int,
                            j as int,
                        ),
                    decreases end - j,
                {
                    proof {
                        lemma_offset_bound(i as int, j as int, n as int, p as int);
                        lemma_offset_bound(k as int, j as int, m as int, p as int);
                    }
                    let ghost before = out@;
                    let next = mul_add(out[i * p + j], scale, inp2[k * p + j]);
                    out[i * p + j] = next;
                    proof {
                        lemma_cell_updated(
                            mul_add,
                            inp1@,
                            inp2@,
                            n as int,
                            m as int,
                            p as int,
                            zero,
                            before,
                            out@,
                            i as int,
                            k as int,
                            j as int,
                            next,
                        );
                    }
                    j += 1;
                }
                block = end;
            }
            k += 1;
        }
        i += 1;
    }
    out
}

/// The product of two windows: rows `x11..=x12` and columns `y11..=y12` of the
/// `n1` by `m1` matrix `inp1`, times rows `x21..=x22` and columns `y21..=y22`
/// of the `n2` by `m2` matrix `inp2`, without copying either window out. The
/// columns of the result are taken in blocks of `LANES`. Where the width of
/// the first window is not the height of the second, the result is all
/// `zero`.
pub fn matrix_multiply_simd_on_slices<T: Copy, F: Fn(T, T, T) -> T>(
    inp1: &[T],
    inp2: &[T],
    n1: usize,
    m1: usize,
    n2: usize,
    m2: usize,
    x11: usize,
    x12: usize,
    y11: usize,
    y12: usize,
    x21: usize,
    x22: usize,
    y21: usize,
    y22: usize,
    zero: T,
    mul_add: F,
) -> (out: Vec<T>)
    requires
        n1 * m1 <= inp1.len(),
        n2 * m2 <= inp2.len(),
        block_inside(n1, m1, x11, x12, y11, y12),
        block_inside(n2, m2, x21, x22, y21, y22),
        (x12 - x11 + 1) * (y22 - y21 + 1) <= usize::MAX,
        always_callable(mul_add),
    ensures
        out.len() == (x12 - x11 + 1) * (y22 - y21 + 1),
        y12 - y11 == x22 - x21 ==> is_product(
            mul_add,
            window(inp1@, m1 as int, x11 as int, y11 as int, x12 - x11 + 1, y12 - y11 + 1),
            window(inp2@, m2 as int, x21 as int, y21 as int, x22 - x21 + 1, y22 - y21 + 1),
            x12 - x11 + 1,
            y12 - y11 + 1,
            y22 - y21 + 1,
            zero,
            out@,
        ),
        y12 - y11 != x22 - x21 ==> forall|q: int| 0 <= q < out.len() ==> out[q] == zero,
{
    let q1: usize = x12 - x11 + 1;
    let r1: usize = y12 - y11 + 1;
    let q2: usize = x22 - x21 + 1;
    let r2: usize = y22 - y21 + 1;
    let mut out = filled(q1 * r2, zero);
    if r1 != q2 {
        return out;
    }
    let ghost wa = window(inp1@, m1 as int, x11 as int, y11 as int, q1 as int, r1 as int);
    let ghost wb = window(inp2@, m2 as int, x21 as int, y21 as int, q2 as int, r2 as int);
    proof {
        lemma_product_starts(mul_add, wa, wb, q1 as int, r1 as int, r2 as int, zero, out@);
    }
    let mut i: usize = 0;
    while i < q1
        invariant
            i <= q1,
            q1 == x12 - x11 + 1,
            r1 == y12 - y11 + 1,
            q2 == x22 - x21 + 1,
            r2 == y22 - y21 + 1,
            r1 == q2,
            n1 * m1 <= inp1.len(),
            n2 * m2 <= inp2.len(),
            block_inside(n1, m1, x11, x12, y11, y12),
            block_inside(n2, m2, x21, x22, y21, y22),
            q1 * r2 <= usize::MAX,
            always_callable(mul_add),
            wa == window(inp1@, m1 as int, x11 as int, y11 as int, q1 as int, r1 as int),
            wb == window(inp2@, m2 as int, x21 as int, y21 as int, q2 as int, r2 as int),
            product_upto(
                mul_add,
                wa,
                wb,
                q1 as int,
                r1 as int,
                r2 as int,
                zero,
                out@,
                i as int,
                0,
                0,
            ),
        decreases q1 - i,
    {
        let mut k: usize = 0;
        while k < r1
            invariant
                i < q1,
                k <= r1,
                q1 == x12 - x11 + 1,
                r1 == y12 - y11 + 1,
                q2 == x22 - x21 + 1,
                r2 == y22 - y21 + 1,
                r1 == q2,
                n1 * m1 <= inp1.len(),
                n2 * m2 <= inp2.len(),
                block_inside(n1, m1, x11, x12, y11, y12),
                block_inside(n2, m2, x21, x22, y21, y22),
                q1 * r2 <= usize::MAX,
                always_callable(mul_add),
                wa == window(inp1@, m1 as int, x11 as int, y11 as int, q1 as int, r1 as int),
                wb == window(inp2@, m2 as int, x21 as int, y21 as int, q2 as int, r2 as int),
                product_upto(
                    mul_add,
                    wa,
                    wb,
                    q1 as int,
                    r1 as int,
                    r2 as int,
                    zero,
                    out@,
                    i as int,
                    k as int,
                    0,
                ),
            decreases r1 - k,
        {
            proof {
                lemma_offset_bound(x11 + i, y11 + k, n1 as int, m1 as int);
                lemma_window_at(
                    inp1@,
                    m1 as int,
                    x11 as int,
                    y11 as int,
                    q1 as int,
                    r1 as int,
                    i as int,
                    k as int,
                );
            }
            let scale = inp1[(x11 + i) * m1 + (y11 + k)];
            let mut block: usize = 0;
            while block < r2
                invariant
                    i < q1,
                    k < r1,
                    block <= r2,
                    q1 == x12 - x11 + 1,
                    r1 == y12 - y11 + 1,
                    q2 == x22 - x21 + 1,
                    r2 == y22 - y21 + 1,
                    r1 == q2,
                    n2 * m2 <= inp2.len(),
                    block_inside(n2, m2, x21, x22, y21, y22),
                    q1 * r2 <= usize::MAX,
                    always_callable(mul_add),
                    wb == window(inp2@, m2 as int, x21 as int, y21 as int, q2 as int, r2 as int),
                    scale == at(wa, i as int, k as int, r1 as int),
                    product_upto(
                        mul_add,
                        wa,
                        wb,
                        q1 as int,
                        r1 as int,
                        r2 as int,
                        zero,
                        out@,
                        i as int,
                        k as int,
                        block as int,
                    ),
                decreases r2 - block,
            {
                let end: usize = if r2 - block < LANES {
                    r2
                } else {
                    block + LANES
                };
                let mut j: usize = block;
                while j < end
                    invariant
                        i < q1,
                        k < r1,
                        block <= j <= end,
                        end <= r2,
                        q1 == x12 - x11 + 1,
                        r1 == y12 - y11 + 1,
                        q2 == x22 - x21 + 1,
                        r2 == y22 - y21 + 1,
                        r1 == q2,
                        n2 * m2 <= inp2.len(),
                        block_inside(n2, m2, x21, x22, y21, y22),
                        q1 * r2 <= usize::MAX,
                        always_callable(mul_add),
                        wb == window(
                            inp2@,
                            m2 as int,
                            x21 as int,
                            y21 as int,
                            q2 as int,
                            r2 as int,
                        ),
                        scale == at(wa, i as int, k as int, r1 as int),
                        product_upto(
                            mul_add,
                            wa,
                            wb,
                            q1 as int,
                            r1 as int,
                            r2 as int,
                            zero,
                            out@,
                            i as int,
                            k as int,
                            j as int,
                        ),
                    decreases end - j,
                {
                    proof {
                        lemma_offset_bound(i as int, j as int, q1 as int, r2 as int);
                        lemma_offset_bound(x21 + k, y21 + j, n2 as int, m2 as int);
                        lemma_window_at(
                            inp2@,
                            m2 as int,
                            x21 as int,
                            y21 as int,
                            q2 as int,
                            r2 as int,
                            k as int,
                            j as int,
                        );
                    }
                    let ghost before = out@;
                    let next = mul_add(out[i * r2 + j], scale, inp2[(x21 + k) * m2 + (y21 + j)]);
                    out[i * r2 + j] = next;
                    proof {
                        lemma_cell_updated(
                            mul_add,
                            wa,
                            wb,
                            q1 as int,
                            r1 as int,
                            r2 as int,
                            zero,
                            before,
                            out@,
                            i as int,
                            k as int,
                            j as int,
                            next,
                        );
                    }
                    j += 1;
                }
                block = end;
            }
            k += 1;
        }
        i += 1;
    }
    out
}

/// The product of two windows of matrices that are given by their column
/// counts alone: rows `x11..=x12` and columns `y11..=y12` of `inp1`, which has
/// `m` columns, times rows `x21..=x22` and columns `y21..=y22` of `inp2`,
/// which has `p` columns. Where the width of the first window is not the
/// height of the second, the result is all `zero`.
pub fn matrix_multiply_simd_slices<T: Copy, F: Fn(T, T, T) -> T>(
    inp1: &[T],
    inp2: &[T],
    _n: usize,
    m: usize,
    p: usize,
    x11: usize,
    x12: usize,
    y11: usize,
    y12: usize,
    x21: usize,
    x22: usize,
    y21: usize,
    y22: usize,
    zero: T,
    mul_add: F,
) -> (out: Vec<T>)
    requires
        x11 <= x12,
        y11 <= y12 < m,
        x21 <= x22,
        y21 <= y22 < p,
        x12 * m + m <= inp1.len(),
        x22 * p + p <= inp2.len(),
        (x12 - x11 + 1) * (y22 - y21 + 1) <= usize::MAX,
        always_callable(mul_add),
    ensures
        out.len() == (x12 - x11 + 1) * (y22 - y21 + 1),
        y12 - y11 == x22 - x21 ==> is_product(
            mul_add,
            window(inp1@, m as int, x11 as int, y11 as int, x12 - x11 + 1, y12 - y11 + 1),
            window(inp2@, p as int, x21 as int, y21 as int, x22 - x21 + 1, y22 - y21 + 1),
            x12 - x11 + 1,
            y12 - y11 + 1,
            y22 - y21 + 1,
            zero,
            out@,
        ),
        y12 - y11 != x22 - x21 ==> forall|q: int| 0 <= q < out.len() ==> out[q] == zero,
{
    assert((x12 + 1) * m == x12 * m + m && x12 + 1 <= x12 * m + m) by (nonlinear_arith)
        requires
            m >= 1,
            x12 >= 0,
    ;
    assert((x22 + 1) * p == x22 * p + p && x22 + 1 <= x22 * p + p) by (nonlinear_arith)
        requires
            p >= 1,
            x22 >= 0,
    ;
    matrix_multiply_simd_on_slices(
        inp1,
        inp2,
        x12 + 1,
        m,
        x22 + 1,
        p,
        x11,
        x12,
        y11,
        y12,
        x21,
        x22,
        y21,
        y22,
        zero,
        mul_add,
    )
}

/// The product of a row vector and a window: elements `y11..=y12` of `inp1`
/// times rows `x21..=x22` and columns `y21..=y22` of the matrix `inp2`, which
/// has `m` columns. Where the two lengths differ, the result is all `zero`.
pub fn matrix_multiply_simd_on_slices_left_vector<T: Copy, F: Fn(T, T, T) -> T>(
    inp1: &[T],
    inp2: &[T],
    m: usize,
    y11: usize,
    y12: usize,
    x21: usize,
    x22: usize,
    y21: usize,
    y22: usize,
    zero: T,
    mul_add: F,
) -> (out: Vec<T>)
    requires
        y11 <= y12 < inp1.len(),
        x21 <= x22,
        y21 <= y22 < m,
        x22 * m + m <= inp2.len(),
        always_callable(mul_add),
    ensures
        out.len() == y22 - y21 + 1,
        y12 - y11 == x22 - x21 ==> is_product(
            mul_add,
            window(inp1@, inp1.len() as int, 0, y11 as int, 1, y12 - y11 + 1),
            window(inp2@, m as int, x21 as int, y21 as int, x22 - x21 + 1, y22 - y21 + 1),
            1,
            y12 - y11 + 1,
            y22 - y21 + 1,
            zero,
            out@,
        ),
        y12 - y11 != x22 - x21 ==> forall|q: int| 0 <= q < out.len() ==> out[q] == zero,
{
    assert((x22 + 1) * m == x22 * m + m && x22 + 1 <= x22 * m + m) by (nonlinear_arith)
        requires
            m >= 1,
            x22 >= 0,
    ;
    assert((0 - 0 + 1) * (y22 - y21 + 1) == y22 - y21 + 1) by (nonlinear_arith);
    assert(1 * inp1.len() == inp1.len()) by (nonlinear_arith);
    matrix_multiply_simd_on_slices(
        inp1,
        inp2,
        1,
        inp1.len(),
        x22 + 1,
        m,
        0,
        0,
        y11,
        y12,
        x21,
        x22,
        y21,
        y22,
        zero,
        mul_add,
    )
}

/// The product of a window and a column vector: rows `x11..=x12` and columns
/// `y11..=y12` of the matrix `inp1`, which has `m` columns, times the first
/// `y12 - y11 + 1` elements of `inp2`.
pub fn matrix_multiply_simd_on_slices_right_vector<T: Copy, F: Fn(T, T, T) -> T>(
    inp1: &[T],
    inp2: &[T],
    m: usize,
    x11: usize,
    x12: usize,
    y11: usize,
    y12: usize,
    zero: T,
    mul_add: F,
) -> (out: Vec<T>)
    requires
        x11 <= x12,
        y11 <= y12 < m,
        x12 * m + m <= inp1.len(),
        y12 - y11 + 1 <= inp2.len(),
        always_callable(mul_add),
    ensures
        out.len() == x12 - x11 + 1,
        is_product(
            mul_add,
            window(inp1@, m as int, x11 as int, y11 as int, x12 - x11 + 1, y12 - y11 + 1),
            window(inp2@, 1, 0, 0, y12 - y11 + 1, 1),
            x12 - x11 + 1,
            y12 - y11 + 1,
            1,
            zero,
            out@,
        ),
{
    let len: usize = y12 - y11 + 1;
    assert((x12 + 1) * m == x12 * m + m && x12 + 1 <= x12 * m + m) by (nonlinear_arith)
        requires
            m >= 1,
            x12 >= 0,
    ;
    assert((x12 - x11 + 1) * (0 - 0 + 1) == x12 - x11 + 1) by (nonlinear_arith);
    assert(len * 1 == len) by (nonlinear_arith);
    matrix_multiply_simd_on_slices(
        inp1,
        inp2,
        x12 + 1,
        m,
        len,
        1,
        x11,
        x12,
        y11,
        y12,
        0,
        len - 1,
        0,
        0,
        zero,
        mul_add,
    )
}

/// The plain and the blocked product agree: with an arithmetic that returns
/// one value for one triple of arguments, two products of the same matrices
/// are equal element for element.
pub proof fn lemma_product_unique<T, F: Fn(T, T, T) -> T>(
    mul_add: F,
    a: Seq<T>,
    b: Seq<T>,
    n: int,
    m: int,
    p: int,
    zero: T,
    out1: Seq<T>,
    out2: Seq<T>,
)
    requires
        0 <= n,
        0 <= p,
        single_valued(mul_add),
        is_product(mul_add, a, b, n, m, p, zero, out1),
        is_product(mul_add, a, b, n, m, p, zero, out2),
    ensures
        out1 == out2,
{
    assert forall|q: int| 0 <= q < out1.len() implies out1[q] == out2[q] by {
        if p == 0 {
            assert(n * p == 0) by (nonlinear_arith)
                requires
                    p == 0,
            ;
        } else {
            lemma_offset_join(q, p);
            lemma_row_bound(q, n, p);
            let i = row_of(q, p);
            let j = col_of(q, p);
            assert(folded(mul_add, row(a, i, m), column(b, j, m, p), zero, m, at(out1, i, j, p)));
            assert(folded(mul_add, row(a, i, m), column(b, j, m, p), zero, m, at(out2, i, j, p)));
            lemma_fold_unique(
                mul_add,
                row(a, i, m),
                column(b, j, m, p),
                zero,
                m,
                at(out1, i, j, p),
                at(out2, i, j, p),
            );
        }
    }
    assert(out1 =~= out2);
}

} // verus!
