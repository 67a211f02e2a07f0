//! The sparse matrix type, its mathematical view, and element access.

use vstd::prelude::*;
use crate::error::MatrixError;
use crate::kernel::{always_callable, blocked_sum, dot_product_simd};
use crate::search::{ascending, binary_search, strictly_ascending};

verus! {

/// What a sparse matrix is: a shape, and the stored entries as two parallel
/// sequences. Entry `t` sits at row `keys[t] / cols`, column `keys[t] % cols`.
pub ghost struct SparseView<T> {
    pub rows: nat,
    pub cols: nat,
    pub keys: Seq<usize>,
    pub values: Seq<T>,
}

impl<T> SparseView<T> {
    /// The keys are strictly ascending and inside the matrix, every key has a
    /// value, and every linear index of the shape fits in `usize`.
    pub open spec fn wf(self) -> bool {
        &&& self.rows * self.cols <= usize::MAX
        &&& self.keys.len() == self.values.len()
        &&& strictly_ascending(self.keys)
        &&& forall|t: int| 0 <= t < self.keys.len() ==> (#[trigger] self.keys[t]) < self.rows * self.cols
    }

    /// Some entry is stored under the linear key `k`.
    pub open spec fn has(self, k: int) -> bool {
        exists|t: int| 0 <= t < self.keys.len() && #[trigger] self.keys[t] == k
    }

    /// The position of key `k` among the stored entries.
    pub open spec fn position(self, k: int) -> int {
        choose|t: int| 0 <= t < self.keys.len() && #[trigger] self.keys[t] == k
    }

    /// The value stored under the linear key `k`, if any.
    pub open spec fn get(self, k: int) -> Option<T> {
        if self.has(k) {
            Some(self.values[self.position(k)])
        } else {
            None
        }
    }

    /// The value stored at row `i`, column `j`, if the position is inside the
    /// matrix and holds one.
    pub open spec fn entry(self, i: int, j: int) -> Option<T> {
        if 0 <= i < self.rows && 0 <= j < self.cols {
            self.get(i * self.cols + j)
        } else {
            None
        }
    }

    /// The dense row-major buffer of the matrix, with `zero` wherever nothing
    /// is stored.
    pub open spec fn to_dense(self, zero: T) -> Seq<T> {
        Seq::new(
            self.rows * self.cols,
            |k: int|
                match self.get(k) {
                    Some(v) => v,
                    None => zero,
                },
        )
    }
}

/// The entry at position `t` is what `get` finds under its key.
pub proof fn lemma_get_stored<T>(v: SparseView<T>, t: int)
    requires
        v.wf(),
        0 <= t < v.keys.len(),
    ensures
        v.has(v.keys[t] as int),
        v.position(v.keys[t] as int) == t,
        v.get(v.keys[t] as int) == Some(v.values[t]),
{
    let k = v.keys[t] as int;
    assert(v.has(k));
    let p = v.position(k);
    assert(0 <= p < v.keys.len() && v.keys[p] == k);
    if p < t {
        assert(v.keys[p] < v.keys[t]);
    } else if t < p {
        assert(v.keys[t] < v.keys[p]);
    }
}

/// No entry is stored under a key that falls strictly between two neighbouring
/// stored keys, before the first or after the last. `t` counts the stored keys
/// below `k`.
pub proof fn lemma_get_gap<T>(v: SparseView<T>, t: int, k: int)
    requires
        v.wf(),
        0 <= t <= v.keys.len(),
        t > 0 ==> v.keys[t - 1] < k,
        t < v.keys.len() ==> k < v.keys[t],
    ensures
        !v.has(k),
        v.get(k) == None::<T>,
{
    if v.has(k) {
        let p = v.position(k);
        assert(0 <= p < v.keys.len() && v.keys[p] == k);
        if p < t {
            if p < t - 1 {
                assert(v.keys[p] < v.keys[t - 1]);
            }
        } else {
            if t < p {
                assert(v.keys[t] < v.keys[p]);
            }
        }
    }
}

/// Appending an entry whose key is above every stored key adds that entry and
/// changes no other.
pub proof fn lemma_get_push<T>(v: SparseView<T>, key: usize, value: T, k: int)
    requires
        v.wf(),
        key < v.rows * v.cols,
        v.keys.len() > 0 ==> v.keys[v.keys.len() - 1] < key,
    ensures
        (SparseView { keys: v.keys.push(key), values: v.values.push(value), ..v }).wf(),
        (SparseView { keys: v.keys.push(key), values: v.values.push(value), ..v }).get(k) == (if k
            == key {
            Some(value)
        } else {
            v.get(k)
        }),
{
    let w = SparseView { keys: v.keys.push(key), values: v.values.push(value), ..v };
    let n = v.keys.len() as int;
    assert(strictly_ascending(w.keys)) by {
        assert forall|i: int, j: int| 0 <= i < j < w.keys.len() implies w.keys[i] < w.keys[j] by {
            if j < n {
                assert(v.keys[i] < v.keys[j]);
            } else if i < n - 1 {
                assert(v.keys[i] < v.keys[n - 1]);
            }
        }
    }
    assert(w.wf());
    if k == key {
        lemma_get_stored(w, n);
    } else if v.has(k) {
        let p = v.position(k);
        assert(w.keys[p] == k);
        lemma_get_stored(w, p);
        lemma_get_stored(v, p);
    } else {
        if w.has(k) {
            let p = w.position(k);
            assert(0 <= p < w.keys.len() && w.keys[p] == k);
            assert(p < n);
            assert(v.keys[p] == k);
        }
    }
}

/// Dropping the first entry removes that entry and changes no other.
proof fn lemma_get_rest<T>(v: SparseView<T>, k: int)
    requires
        v.wf(),
        v.keys.len() > 0,
    ensures
        (SparseView { keys: v.keys.drop_first(), values: v.values.drop_first(), ..v }).wf(),
        (SparseView { keys: v.keys.drop_first(), values: v.values.drop_first(), ..v }).get(k) == (if k
            == v.keys[0] {
            None
        } else {
            v.get(k)
        }),
{
    let w = SparseView { keys: v.keys.drop_first(), values: v.values.drop_first(), ..v };
    assert forall|i: int, j: int| 0 <= i < j < w.keys.len() implies w.keys[i] < w.keys[j] by {
        assert(v.keys[i + 1] < v.keys[j + 1]);
    }
    assert forall|t: int| 0 <= t < w.keys.len() implies (#[trigger] w.keys[t]) < w.rows * w.cols by {
        assert(v.keys[t + 1] < v.rows * v.cols);
    }
    assert(w.wf());
    if w.has(k) {
        let p = w.position(k);
        lemma_get_stored(w, p);
        lemma_get_stored(v, p + 1);
        assert(v.keys[0] < v.keys[p + 1]);
    } else if k != v.keys[0] && v.has(k) {
        let p = v.position(k);
        lemma_get_stored(v, p);
        assert(w.keys[p - 1] == k);
    }
}

/// A matrix is its shape and its entries: two well-formed matrices of one
/// shape that store the same value, or nothing, under every key have the same
/// keys and the same values.
pub proof fn lemma_entries_determine<T>(a: SparseView<T>, b: SparseView<T>)
    requires
        a.wf(),
        b.wf(),
        a.rows == b.rows,
        a.cols == b.cols,
        forall|k: int| a.get(k) == b.get(k),
    ensures
        a == b,
    decreases a.keys.len(),
{
    if a.keys.len() == 0 {
        if b.keys.len() > 0 {
            lemma_get_stored(b, 0);
            assert(a.get(b.keys[0] as int) == b.get(b.keys[0] as int));
        }
        assert(a.keys =~= b.keys);
        assert(a.values =~= b.values);
    } else {
        lemma_get_stored(a, 0);
        let ka = a.keys[0] as int;
        assert(a.get(ka) == b.get(ka));
        assert(b.has(ka));
        lemma_get_stored(b, 0);
        let kb = b.keys[0] as int;
        assert(a.get(kb) == b.get(kb));
        assert(a.has(kb));
        let pa = a.position(kb);
        let pb = b.position(ka);
        if pa > 0 {
            assert(a.keys[0] < a.keys[pa]);
        }
        if pb > 0 {
            assert(b.keys[0] < b.keys[pb]);
        }
        assert(ka == kb);
        let ra = SparseView { keys: a.keys.drop_first(), values: a.values.drop_first(), ..a };
        let rb = SparseView { keys: b.keys.drop_first(), values: b.values.drop_first(), ..b };
        assert forall|k: int| ra.get(k) == rb.get(k) by {
            lemma_get_rest(a, k);
            lemma_get_rest(b, k);
            assert(a.get(k) == b.get(k));
        }
        lemma_get_rest(a, 0);
        lemma_get_rest(b, 0);
        lemma_entries_determine(ra, rb);
        assert(a.keys =~= seq![a.keys[0]] + ra.keys);
        assert(b.keys =~= seq![b.keys[0]] + rb.keys);
        assert(a.values =~= seq![a.values[0]] + ra.values);
        assert(b.values =~= seq![b.values[0]] + rb.values);
    }
}

/// What a test `keep` answered for the dense element `x`: the entry `out` is `x`
/// itself where it answered yes, and is missing where it answered no.
pub open spec fn kept<T, F: Fn(T) -> bool>(keep: F, x: T, out: Option<T>) -> bool {
    match out {
        Some(v) => v == x && call_ensures(keep, (x,), true),
        None => call_ensures(keep, (x,), false),
    }
}

/// A sparse matrix: a shape and the entries that are stored, in ascending
/// order of their row-major linear index.
pub struct SparseMatrix<T> {
    nrow: usize,
    ncol: usize,
    keys: Vec<usize>,
    data: Vec<T>,
}

impl<T> View for SparseMatrix<T> {
    type V = SparseView<T>;

    closed spec fn view(&self) -> SparseView<T> {
        SparseView {
            rows: self.nrow as nat,
            cols: self.ncol as nat,
            keys: self.keys@,
            values: self.data@,
        }
    }
}

impl<T> SparseMatrix<T> {
    /// Every matrix value satisfies the layout rules of its view.
    #[verifier::type_invariant]
    pub closed spec fn inv(&self) -> bool {
        self@.wf()
    }

    /// Builds a matrix from its parts after checking them.
    pub fn new(nrow: usize, ncol: usize, keys: Vec<usize>, data: Vec<T>) -> (res: Result<
        Self,
        MatrixError,
    >)
        ensures
            match res {
                Ok(m) => m@ == (SparseView {
                    rows: nrow as nat,
                    cols: ncol as nat,
                    keys: keys@,
                    values: data@,
                }) && m@.wf(),
                Err(MatrixError::TooLarge) => nrow * ncol > usize::MAX,
                Err(MatrixError::DimensionMismatch) => nrow * ncol <= usize::MAX && keys.len()
                    != data.len(),
                Err(MatrixError::UnorderedKeys) => nrow * ncol <= usize::MAX && keys.len()
                    == data.len() && !(SparseView {
                    rows: nrow as nat,
                    cols: ncol as nat,
                    keys: keys@,
                    values: data@,
                }).wf(),
                Err(_) => false,
            },
    {
        let total = match nrow.checked_mul(ncol) {
            Some(t) => t,
            None => { return Err(MatrixError::TooLarge); },
        };
        if keys.len() != data.len() {
            return Err(MatrixError::DimensionMismatch);
        }
        let n: usize = keys.len();
        let mut t: usize = 0;
        while t < n
            invariant
                n == keys.len(),
                n == data.len(),
                total == nrow * ncol,
                t <= n,
                forall|i: int| 0 <= i < t ==> (#[trigger] keys[i]) < total,
                forall|i: int, j: int| 0 <= i < j < t ==> keys[i] < keys[j],
            decreases n - t,
        {
            let ghost v = SparseView {
                rows: nrow as nat,
                cols: ncol as nat,
                keys: keys@,
                values: data@,
            };
            if keys[t] >= total {
                assert(!(v.keys[t as int] < v.rows * v.cols));
                return Err(MatrixError::UnorderedKeys);
            }
            if t > 0 && keys[t - 1] >= keys[t] {
                assert(!(v.keys[t - 1] < v.keys[t as int]));
                return Err(MatrixError::UnorderedKeys);
            }
            proof {
                assert forall|i: int, j: int| 0 <= i < j < t + 1 implies keys[i] < keys[j] by {
                    if j == t && i < t - 1 {
                        assert(keys[i] < keys[t - 1]);
                    }
                }
            }
            t += 1;
        }
        Ok(SparseMatrix { nrow, ncol, keys, data })
    }

    /// Converts a dense row-major buffer, storing the elements that `keep`
    /// accepts and dropping the others.
    pub fn create<F: Fn(T) -> bool>(nrow: usize, ncol: usize, dense: &[T], keep: F) -> (res: Result<
        Self,
        MatrixError,
    >) where T: Copy
        requires
            forall|k: int| 0 <= k < dense.len() ==> call_requires(keep, (#[trigger] dense[k],)),
        ensures
            match res {
                Ok(m) => {
                    &&& dense.len() == nrow * ncol
                    &&& m@.wf()
                    &&& m@.rows == nrow
                    &&& m@.cols == ncol
                    &&& forall|k: int|
                        0 <= k < dense.len() ==> kept(keep, dense[k], #[trigger] m@.get(k))
                },
                Err(e) => e == MatrixError::DimensionMismatch && dense.len() != nrow * ncol,
            },
    {
        let total = match nrow.checked_mul(ncol) {
            Some(t) => t,
            None => { return Err(MatrixError::DimensionMismatch); },
        };
        if dense.len() != total {
            return Err(MatrixError::DimensionMismatch);
        }
        let mut keys: Vec<usize> = Vec::new();
        let mut data: Vec<T> = Vec::new();
        let mut k: usize = 0;
        while k < total
            invariant
                total == nrow * ncol,
                total == dense.len(),
                k <= total,
                forall|q: int| 0 <= q < dense.len() ==> call_requires(keep, (#[trigger] dense[q],)),
                (SparseView {
                    rows: nrow as nat,
                    cols: ncol as nat,
                    keys: keys@,
                    values: data@,
                }).wf(),
                keys.len() > 0 ==> keys[keys.len() - 1] < k,
                forall|q: int|
                    0 <= q < k ==> kept(
                        keep,
                        dense[q],
                        #[trigger] (SparseView {
                            rows: nrow as nat,
                            cols: ncol as nat,
                            keys: keys@,
                            values: data@,
                        }).get(q),
                    ),
            decreases total - k,
        {
            let ghost before = SparseView {
                rows: nrow as nat,
                cols: ncol as nat,
                keys: keys@,
                values: data@,
            };
            let x = dense[k];
            if keep(x) {
                keys.push(k);
                data.push(x);
                proof {
                    assert forall|q: int| 0 <= q < k + 1 implies kept(
                        keep,
                        dense[q],
                        #[trigger] (SparseView {
                            rows: nrow as nat,
                            cols: ncol as nat,
                            keys: keys@,
                            values: data@,
                        }).get(q),
                    ) by {
                        lemma_get_push(before, k, x, q);
                    }
                    lemma_get_push(before, k, x, 0);
                }
            } else {
                proof {
                    lemma_get_gap(before, before.keys.len() as int, k as int);
                }
            }
            k += 1;
        }
        Ok(SparseMatrix { nrow, ncol, keys, data })
    }

    /// Builds a matrix from parts that are known to be well formed.
    pub(crate) fn from_parts(nrow: usize, ncol: usize, keys: Vec<usize>, data: Vec<T>) -> (m: Self)
        requires
            (SparseView {
                rows: nrow as nat,
                cols: ncol as nat,
                keys: keys@,
                values: data@,
            }).wf(),
        ensures
            m@ == (SparseView {
                rows: nrow as nat,
                cols: ncol as nat,
                keys: keys@,
                values: data@,
            }),
            m@.wf(),
    {
        SparseMatrix { nrow, ncol, keys, data }
    }

    /// The number of rows.
    pub fn nrow(&self) -> (n: usize)
        ensures
            n == self@.rows,
            self@.wf(),
    {
        proof {
            use_type_invariant(self);
        }
        self.nrow
    }

    /// The number of columns.
    pub fn ncol(&self) -> (n: usize)
        ensures
            n == self@.cols,
            self@.wf(),
    {
        proof {
            use_type_invariant(self);
        }
        self.ncol
    }

    /// The linear keys of the stored entries, ascending.
    pub fn keys(&self) -> (k: &Vec<usize>)
        ensures
            k@ == self@.keys,
            self@.wf(),
    {
        proof {
            use_type_invariant(self);
        }
        &self.keys
    }

    /// The stored values, in the order of their keys.
    pub fn data(&self) -> (d: &Vec<T>)
        ensures
            d@ == self@.values,
            self@.wf(),
    {
        proof {
            use_type_invariant(self);
        }
        &self.data
    }
}

/// A strictly ascending sequence is ascending.
pub proof fn lemma_strict_is_ascending(s: Seq<usize>)
    requires
        strictly_ascending(s),
    ensures
        ascending(s),
{
    assert forall|i: int, j: int| 0 <= i <= j < s.len() implies s[i] <= s[j] by {
        if i < j {
            assert(s[i] < s[j]);
        }
    }
}

/// Looks up the entry whose linear key is `i * ncol + j`, which for a column
/// `j` inside the matrix is the entry at row `i`, column `j`.
pub fn loc<T: Copy>(a: &SparseMatrix<T>, i: usize, j: usize) -> (found: Option<T>)
    ensures
        found == a@.get(i * a@.cols + j),
        0 <= i < a@.rows && 0 <= j < a@.cols ==> found == a@.entry(i as int, j as int),
{
    let ncol = a.ncol();
    let keys = a.keys();
    let data = a.data();
    let ghost k_int: int = i * a@.cols + j;
    let k = match i.checked_mul(ncol) {
        Some(base) => match base.checked_add(j) {
            Some(k) => k,
            None => {
                assert(!a@.has(k_int));
                return None;
            },
        },
        None => {
            assert(!a@.has(k_int));
            return None;
        },
    };
    proof {
        lemma_strict_is_ascending(keys@);
    }
    let p = binary_search(keys.as_slice(), k);
    if p < data.len() {
        proof {
            lemma_get_stored(a@, p as int);
        }
        Some(data[p])
    } else {
        assert(!a@.has(k_int)) by {
            if a@.has(k_int) {
                let t = a@.position(k_int);
                assert(keys@[t] == k);
                assert(keys@.contains(k));
            }
        }
        None
    }
}

/// The `n` by `n` matrix that stores `one` on its diagonal and nothing else.
pub fn identity<T: Copy>(n: usize, one: T) -> (m: SparseMatrix<T>)
    requires
        n * n <= usize::MAX,
    ensures
        m@.wf(),
        m@.rows == n,
        m@.cols == n,
        forall|i: int, j: int|
            0 <= i < n && 0 <= j < n ==> #[trigger] m@.entry(i, j) == (if i == j {
                Some(one)
            } else {
                None
            }),
{
    let mut keys: Vec<usize> = Vec::new();
    let mut data: Vec<T> = Vec::new();
    let mut i: usize = 0;
    while i < n
        invariant
            n * n <= usize::MAX,
            i <= n,
            keys.len() == i,
            data.len() == i,
            forall|t: int| 0 <= t < i ==> #[trigger] keys[t] == t * n + t,
            forall|t: int| 0 <= t < i ==> #[trigger] data[t] == one,
        decreases n - i,
    {
        assert(i * n + i < n * n && i * n >= 0) by (nonlinear_arith)
            requires
                0 <= i < n,
        ;
        keys.push(i * n + i);
        data.push(one);
        i += 1;
    }
    let ghost v = SparseView { rows: n as nat, cols: n as nat, keys: keys@, values: data@ };
    proof {
        assert forall|s: int, t: int| 0 <= s < t < keys.len() implies keys[s] < keys[t] by {
            assert(s * n + s < t * n + t) by (nonlinear_arith)
                requires
                    0 <= s < t,
                    n >= 0,
            ;
        }
        assert forall|t: int| 0 <= t < v.keys.len() implies (#[trigger] v.keys[t]) < v.rows
            * v.cols by {
            assert(t * n + t < n * n) by (nonlinear_arith)
                requires
                    0 <= t < n,
            ;
        }
        assert(v.wf());
        assert forall|i: int, j: int| 0 <= i < n && 0 <= j < n implies #[trigger] v.entry(i, j)
            == (if i == j {
            Some(one)
        } else {
            None
        }) by {
            let k = i * n + j;
            if i == j {
                lemma_get_stored(v, i);
            } else {
                if v.has(k) {
                    let t = v.position(k);
                    assert(v.keys[t] == t * n + t);
                    assert(t == i && t == j) by (nonlinear_arith)
                        requires
                            t * n + t == i * n + j,
                            0 <= t < n,
                            0 <= i < n,
                            0 <= j < n,
                    ;
                }
            }
        }
    }
    SparseMatrix::from_parts(n, n, keys, data)
}

/// Expands the matrix into a dense row-major buffer, with `zero` wherever
/// nothing is stored.
pub fn convert_to_array<T: Copy>(a: &SparseMatrix<T>, zero: T) -> (out: Vec<T>)
    ensures
        out@ == a@.to_dense(zero),
{
    let nrow = a.nrow();
    let ncol = a.ncol();
    let keys = a.keys();
    let data = a.data();
    let total: usize = nrow * ncol;
    let n: usize = keys.len();
    let mut out: Vec<T> = Vec::new();
    let mut t: usize = 0;
    let mut k: usize = 0;
    while k < total
        invariant
            a@.wf(),
            keys@ == a@.keys,
            data@ == a@.values,
            total == a@.rows * a@.cols,
            n == keys.len(),
            k <= total,
            t <= n,
            out.len() == k,
            t > 0 ==> keys[t - 1] < k,
            t < n ==> keys[t as int] >= k,
            forall|q: int|
                0 <= q < k ==> #[trigger] out[q] == (match a@.get(q) {
                    Some(v) => v,
                    None => zero,
                }),
        decreases total - k,
    {
        if t < n && keys[t] == k {
            proof {
                lemma_get_stored(a@, t as int);
                if t + 1 < n {
                    assert(keys[t as int] < keys[t + 1]);
                }
            }
            out.push(data[t]);
            t += 1;
        } else {
            proof {
                lemma_get_gap(a@, t as int, k as int);
            }
            out.push(zero);
        }
        k += 1;
    }
    assert(out@ =~= a@.to_dense(zero));
    out
}

/// The norm of the matrix: what `root` returned for the blocked dot product
/// of the stored values with themselves.
pub fn norm<T: Copy, F: Fn(T, T, T) -> T, P: Fn(T, T) -> T, Q: Fn(T) -> T>(
    a: &SparseMatrix<T>,
    zero: T,
    mul_add: F,
    plus: P,
    root: Q,
) -> (length: T)
    requires
        always_callable(mul_add),
        forall|x: T, y: T| call_requires(plus, (x, y)),
        forall|x: T| call_requires(root, (x,)),
    ensures
        exists|squares: T|
            #[trigger] blocked_sum(
                mul_add,
                plus,
                a@.values,
                a@.values,
                a@.values.len() as int,
                zero,
                squares,
            ) && call_ensures(root, (squares,), length),
{
    let data = a.data();
    let squares = dot_product_simd(data.as_slice(), data.as_slice(), zero, mul_add, plus);
    root(squares)
}

} // verus!
