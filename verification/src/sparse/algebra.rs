//! Element-wise algebra by merging two ascending key arrays.
//!
//! The arithmetic on the elements is the caller's: each operation takes the
//! function that combines two elements and decides whether the result is
//! stored (`Some`) or dropped as negligible (`None`).

use vstd::prelude::*;
use crate::error::MatrixError;
use crate::sparse::matrix::{lemma_get_gap, lemma_get_push, lemma_get_stored, SparseMatrix, SparseView};

verus! {

/// The two matrices have the same shape.
pub open spec fn same_shape<T>(a: SparseView<T>, b: SparseView<T>) -> bool {
    a.rows == b.rows && a.cols == b.cols
}

/// `both` may be called on every pair of values that `a` and `b` store under a
/// common key.
pub open spec fn callable_on_common<T, F: Fn(T, T) -> Option<T>>(
    a: SparseView<T>,
    b: SparseView<T>,
    both: F,
) -> bool {
    forall|s: int, t: int|
        0 <= s < a.keys.len() && 0 <= t < b.keys.len() && a.keys[s] == b.keys[t]
            ==> call_requires(both, (#[trigger] a.values[s], #[trigger] b.values[t]))
}

/// `right` may be called on every value that `b` stores under a key that `a`
/// lacks.
pub open spec fn callable_on_right_only<T, G: Fn(T) -> T>(
    a: SparseView<T>,
    b: SparseView<T>,
    right: G,
) -> bool {
    forall|t: int|
        0 <= t < b.keys.len() && !a.has(b.keys[t] as int) ==> call_requires(
            right,
            (#[trigger] b.values[t],),
        )
}

/// `scale` may be called on every stored value of `a`.
pub open spec fn callable_on_stored<T, F: Fn(T) -> Option<T>>(a: SparseView<T>, scale: F) -> bool {
    forall|t: int| 0 <= t < a.keys.len() ==> call_requires(scale, (#[trigger] a.values[t],))
}

/// The entry `out` of a difference. Where both operands store a value, `out`
/// is what `combine` returned for the pair; a value of the left operand alone
/// is kept; a value `v` of the right operand alone becomes what `negate`
/// returned for it.
pub open spec fn subtracted<T, F: Fn(T, T) -> Option<T>, G: Fn(T) -> T>(
    combine: F,
    negate: G,
    x: Option<T>,
    y: Option<T>,
    out: Option<T>,
) -> bool {
    match (x, y) {
        (Some(u), Some(v)) => call_ensures(combine, (u, v), out),
        (Some(u), None) => out == Some(u),
        (None, Some(v)) => out is Some && call_ensures(negate, (v,), out->0),
        (None, None) => out is None,
    }
}

/// The entry `out` under key `k` of a merge over the union of the keys. Where
/// both operands store a value, `out` is what `both` returned for the pair; a
/// value of the left operand alone is kept or dropped as `keep_left` answered
/// for the key; a value `v` of the right operand alone becomes what `right`
/// returned for it.
pub open spec fn merged<T, L: Fn(usize) -> bool, F: Fn(T, T) -> Option<T>, G: Fn(T) -> T>(
    keep_left: L,
    both: F,
    right: G,
    k: int,
    x: Option<T>,
    y: Option<T>,
    out: Option<T>,
) -> bool {
    match (x, y) {
        (Some(u), Some(v)) => call_ensures(both, (u, v), out),
        (Some(u), None) => if out is Some {
            out == Some(u) && call_ensures(keep_left, (k as usize,), true)
        } else {
            call_ensures(keep_left, (k as usize,), false)
        },
        (None, Some(v)) => out is Some && call_ensures(right, (v,), out->0),
        (None, None) => out is None,
    }
}

/// The entry `out` of a sum: what `combine` returned where both operands store
/// a value, the one stored value where only one operand does.
pub open spec fn summed<T, F: Fn(T, T) -> Option<T>>(
    combine: F,
    x: Option<T>,
    y: Option<T>,
    out: Option<T>,
) -> bool {
    match (x, y) {
        (Some(u), Some(v)) => call_ensures(combine, (u, v), out),
        (Some(u), None) => out == Some(u),
        (None, Some(v)) => out == Some(v),
        (None, None) => out is None,
    }
}

/// The entry `out` of an element-wise product: what `combine` returned where
/// both operands store a value, nothing elsewhere.
pub open spec fn multiplied<T, F: Fn(T, T) -> Option<T>>(
    combine: F,
    x: Option<T>,
    y: Option<T>,
    out: Option<T>,
) -> bool {
    match (x, y) {
        (Some(u), Some(v)) => call_ensures(combine, (u, v), out),
        _ => out is None,
    }
}

/// The entry `out` of a scaling: what `scale` returned for a stored value,
/// nothing where nothing is stored.
pub open spec fn scaled<T, F: Fn(T) -> Option<T>>(scale: F, x: Option<T>, out: Option<T>) -> bool {
    match x {
        Some(u) => call_ensures(scale, (u,), out),
        None => out is None,
    }
}

/// The key at position `t`, or the number of cells once the keys are used up.
pub open spec fn key_or_end<T>(v: SparseView<T>, t: int) -> int {
    if 0 <= t < v.keys.len() {
        v.keys[t] as int
    } else {
        (v.rows * v.cols) as int
    }
}

/// The smaller of two keys.
pub open spec fn lower(x: int, y: int) -> int {
    if x <= y {
        x
    } else {
        y
    }
}

/// Merges the entries of two matrices of one shape over the union of their
/// keys, in one pass over both key arrays.
pub(crate) fn merge_union<
    T: Copy,
    L: Fn(usize) -> bool,
    F: Fn(T, T) -> Option<T>,
    G: Fn(T) -> T,
>(a: &SparseMatrix<T>, b: &SparseMatrix<T>, keep_left: L, both: F, right: G) -> (m: SparseMatrix<T>)
    requires
        same_shape(a@, b@),
        forall|k: usize| call_requires(keep_left, (k,)),
        callable_on_common(a@, b@, both),
        callable_on_right_only(a@, b@, right),
    ensures
        m@.wf(),
        same_shape(m@, a@),
        forall|k: int|
            merged(keep_left, both, right, k, a@.get(k), b@.get(k), #[trigger] m@.get(k)),
{
    let nrow = a.nrow();
    let ncol = a.ncol();
    let ak = a.keys();
    let ad = a.data();
    let bk = b.keys();
    let bd = b.data();
    let na: usize = ak.len();
    let nb: usize = bk.len();
    let mut keys: Vec<usize> = Vec::new();
    let mut data: Vec<T> = Vec::new();
    let mut i: usize = 0;
    let mut j: usize = 0;
    while i < na || j < nb
        invariant
            a@.wf(),
            b@.wf(),
            same_shape(a@, b@),
            forall|k: usize| call_requires(keep_left, (k,)),
            callable_on_common(a@, b@, both),
            callable_on_right_only(a@, b@, right),
            ak@ == a@.keys,
            ad@ == a@.values,
            bk@ == b@.keys,
            bd@ == b@.values,
            nrow == a@.rows,
            ncol == a@.cols,
            na == ak.len(),
            nb == bk.len(),
            i <= na,
            j <= nb,
            (SparseView { rows: a@.rows, cols: a@.cols, keys: keys@, values: data@ }).wf(),
            keys.len() > 0 ==> keys[keys.len() - 1] < lower(key_or_end(a@, i as int), key_or_end(b@, j as int)),
            i > 0 ==> ak[i - 1] < lower(key_or_end(a@, i as int), key_or_end(b@, j as int)),
            j > 0 ==> bk[j - 1] < lower(key_or_end(a@, i as int), key_or_end(b@, j as int)),
            forall|k: int|
                k < lower(key_or_end(a@, i as int), key_or_end(b@, j as int)) ==> merged(
                    keep_left,
                    both,
                    right,
                    k,
                    a@.get(k),
                    b@.get(k),
                    #[trigger] (SparseView {
                        rows: a@.rows,
                        cols: a@.cols,
                        keys: keys@,
                        values: data@,
                    }).get(k),
                ),
        decreases (na - i) + (nb - j),
    {
        let ghost before = SparseView { rows: a@.rows, cols: a@.cols, keys: keys@, values: data@ };
        let ghost f = lower(key_or_end(a@, i as int), key_or_end(b@, j as int));
        let ghost i0 = i as int;
        let ghost j0 = j as int;
        let take_left = j >= nb || (i < na && ak[i] < bk[j]);
        let take_right = !take_left && (i >= na || ak[i] > bk[j]);
        let key: usize = if take_left {
            ak[i]
        } else {
            bk[j]
        };
        assert(key == f);
        let mut stored: Option<T> = None;
        if take_left {
            if keep_left(key) {
                stored = Some(ad[i]);
            }
            i += 1;
        } else if take_right {
            proof {
                lemma_get_stored(b@, j0);
                lemma_get_gap(a@, i0, f);
            }
            stored = Some(right(bd[j]));
            j += 1;
        } else {
            stored = both(ad[i], bd[j]);
            i += 1;
            j += 1;
        }
        match stored {
            Some(value) => {
                keys.push(key);
                data.push(value);
            },
            None => {},
        }
        proof {
            let after = SparseView { rows: a@.rows, cols: a@.cols, keys: keys@, values: data@ };
            let g = lower(key_or_end(a@, i as int), key_or_end(b@, j as int));
            if i0 < na {
                lemma_get_stored(a@, i0);
                if i0 + 1 < na {
                    assert(ak[i0] < ak[i0 + 1]);
                }
            }
            if j0 < nb {
                lemma_get_stored(b@, j0);
                if j0 + 1 < nb {
                    assert(bk[j0] < bk[j0 + 1]);
                }
            }
            assert(f < g);
            if stored is Some {
                lemma_get_push(before, key, stored->0, f);
            }
            assert(after.wf());
            assert forall|k: int| k < g implies merged(
                keep_left,
                both,
                right,
                k,
                a@.get(k),
                b@.get(k),
                #[trigger] after.get(k),
            ) by {
                if stored is Some {
                    lemma_get_push(before, key, stored->0, k);
                }
                if k < f {
                } else if k == f {
                    if stored is None {
                        lemma_get_gap(before, before.keys.len() as int, k);
                    }
                    if i == i0 {
                        lemma_get_gap(a@, i0, k);
                    }
                    if j == j0 {
                        lemma_get_gap(b@, j0, k);
                    }
                } else {
                    lemma_get_gap(a@, i as int, k);
                    lemma_get_gap(b@, j as int, k);
                    lemma_get_gap(after, after.keys.len() as int, k);
                }
            }
        }
    }
    let ghost out = SparseView { rows: a@.rows, cols: a@.cols, keys: keys@, values: data@ };
    proof {
        assert forall|k: int|
            merged(keep_left, both, right, k, a@.get(k), b@.get(k), #[trigger] out.get(k)) by {
            if k >= a@.rows * a@.cols {
                lemma_get_gap(a@, na as int, k);
                lemma_get_gap(b@, nb as int, k);
                lemma_get_gap(out, out.keys.len() as int, k);
            }
        }
    }
    SparseMatrix::from_parts(nrow, ncol, keys, data)
}

/// Adds two matrices of one shape. Where both store a value under a key,
/// `combine` gives the stored sum or drops it; where only one does, its value
/// is kept as it is.
pub fn add<T: Copy, F: Fn(T, T) -> Option<T>>(
    a: &SparseMatrix<T>,
    b: &SparseMatrix<T>,
    combine: F,
) -> (res: Result<SparseMatrix<T>, MatrixError>)
    requires
        same_shape(a@, b@) ==> callable_on_common(a@, b@, combine),
    ensures
        match res {
            Ok(m) => {
                &&& same_shape(a@, b@)
                &&& m@.wf()
                &&& same_shape(m@, a@)
                &&& forall|k: int| summed(combine, a@.get(k), b@.get(k), #[trigger] m@.get(k))
            },
            Err(e) => e == MatrixError::DimensionMismatch && !same_shape(a@, b@),
        },
{
    if a.nrow() != b.nrow() || a.ncol() != b.ncol() {
        return Err(MatrixError::DimensionMismatch);
    }
    let every = |k: usize| -> (yes: bool)
        ensures
            yes,
        { true };
    let same = |v: T| -> (w: T)
        ensures
            w == v,
        { v };
    let m = merge_union(a, b, every, combine, same);
    proof {
        assert forall|k: int| summed(combine, a@.get(k), b@.get(k), #[trigger] m@.get(k)) by {
            assert(merged(every, combine, same, k, a@.get(k), b@.get(k), m@.get(k)));
        }
    }
    Ok(m)
}

/// Subtracts `b` from `a`, two matrices of one shape. Where both store a value
/// under a key, `combine` gives the stored difference or drops it; a value of
/// `a` alone is kept; a value of `b` alone is replaced by what `negate` makes
/// of it.
pub fn sub<T: Copy, F: Fn(T, T) -> Option<T>, G: Fn(T) -> T>(
    a: &SparseMatrix<T>,
    b: &SparseMatrix<T>,
    combine: F,
    negate: G,
) -> (res: Result<SparseMatrix<T>, MatrixError>)
    requires
        same_shape(a@, b@) ==> callable_on_common(a@, b@, combine),
        same_shape(a@, b@) ==> callable_on_right_only(a@, b@, negate),
    ensures
        match res {
            Ok(m) => {
                &&& same_shape(a@, b@)
                &&& m@.wf()
                &&& same_shape(m@, a@)
                &&& forall|k: int|
                    subtracted(combine, negate, a@.get(k), b@.get(k), #[trigger] m@.get(k))
            },
            Err(e) => e == MatrixError::DimensionMismatch && !same_shape(a@, b@),
        },
{
    if a.nrow() != b.nrow() || a.ncol() != b.ncol() {
        return Err(MatrixError::DimensionMismatch);
    }
    let every = |k: usize| -> (yes: bool)
        ensures
            yes,
        { true };
    let m = merge_union(a, b, every, combine, negate);
    proof {
        assert forall|k: int|
            subtracted(combine, negate, a@.get(k), b@.get(k), #[trigger] m@.get(k)) by {
            assert(merged(every, combine, negate, k, a@.get(k), b@.get(k), m@.get(k)));
        }
    }
    Ok(m)
}

/// Multiplies two matrices of one shape element by element. Only keys that
/// both store can give an entry: `combine` gives the stored product or drops
/// it.
pub fn mul<T: Copy, F: Fn(T, T) -> Option<T>>(
    a: &SparseMatrix<T>,
    b: &SparseMatrix<T>,
    combine: F,
) -> (res: Result<SparseMatrix<T>, MatrixError>)
    requires
        same_shape(a@, b@) ==> callable_on_common(a@, b@, combine),
    ensures
        match res {
            Ok(m) => {
                &&& same_shape(a@, b@)
                &&& m@.wf()
                &&& same_shape(m@, a@)
                &&& forall|k: int| multiplied(combine, a@.get(k), b@.get(k), #[trigger] m@.get(k))
            },
            Err(e) => e == MatrixError::DimensionMismatch && !same_shape(a@, b@),
        },
{
    if a.nrow() != b.nrow() || a.ncol() != b.ncol() {
        return Err(MatrixError::DimensionMismatch);
    }
    let nrow = a.nrow();
    let ncol = a.ncol();
    let ak = a.keys();
    let ad = a.data();
    let bk = b.keys();
    let bd = b.data();
    let na: usize = ak.len();
    let nb: usize = bk.len();
    let mut keys: Vec<usize> = Vec::new();
    let mut data: Vec<T> = Vec::new();
    let mut i: usize = 0;
    let mut j: usize = 0;
    while i < na && j < nb
        invariant
            a@.wf(),
            b@.wf(),
            same_shape(a@, b@),
            callable_on_common(a@, b@, combine),
            ak@ == a@.keys,
            ad@ == a@.values,
            bk@ == b@.keys,
            bd@ == b@.values,
            na == ak.len(),
            nb == bk.len(),
            i <= na,
            j <= nb,
            (SparseView { rows: a@.rows, cols: a@.cols, keys: keys@, values: data@ }).wf(),
            keys.len() > 0 ==> keys[keys.len() - 1] < lower(
                key_or_end(a@, i as int),
                key_or_end(b@, j as int),
            ),
            i > 0 ==> ak[i - 1] < lower(key_or_end(a@, i as int), key_or_end(b@, j as int)),
            j > 0 ==> bk[j - 1] < lower(key_or_end(a@, i as int), key_or_end(b@, j as int)),
            forall|k: int|
                k < lower(key_or_end(a@, i as int), key_or_end(b@, j as int)) ==> multiplied(
                    combine,
                    a@.get(k),
                    b@.get(k),
                    #[trigger] (SparseView {
                        rows: a@.rows,
                        cols: a@.cols,
                        keys: keys@,
                        values: data@,
                    }).get(k),
                ),
        decreases (na - i) + (nb - j),
    {
        let ghost before = SparseView { rows: a@.rows, cols: a@.cols, keys: keys@, values: data@ };
        let ghost f = lower(key_or_end(a@, i as int), key_or_end(b@, j as int));
        let ghost i0 = i as int;
        let ghost j0 = j as int;
        let mut pushed: bool = false;
        if ak[i] < bk[j] {
            i += 1;
        } else if ak[i] > bk[j] {
            j += 1;
        } else {
            match combine(ad[i], bd[j]) {
                Some(value) => {
                    keys.push(ak[i]);
                    data.push(value);
                    pushed = true;
                },
                None => {},
            }
            i += 1;
            j += 1;
        }
        proof {
            let after = SparseView { rows: a@.rows, cols: a@.cols, keys: keys@, values: data@ };
            let g = lower(key_or_end(a@, i as int), key_or_end(b@, j as int));
            lemma_get_stored(a@, i0);
            if i0 + 1 < na {
                assert(ak[i0] < ak[i0 + 1]);
            }
            lemma_get_stored(b@, j0);
            if j0 + 1 < nb {
                assert(bk[j0] < bk[j0 + 1]);
            }
            assert(f < g);
            if pushed {
                lemma_get_push(before, ak[i0], data[data.len() - 1], f);
            }
            assert(after.wf());
            assert forall|k: int| k < g implies multiplied(
                combine,
                a@.get(k),
                b@.get(k),
                #[trigger] after.get(k),
            ) by {
                if pushed {
                    lemma_get_push(before, ak[i0], data[data.len() - 1], k);
                }
                if k < f {
                } else if k == f {
                    if !pushed {
                        lemma_get_gap(before, before.keys.len() as int, k);
                    }
                    if ak[i0] > f {
                        lemma_get_gap(a@, i0, k);
                    }
                    if bk[j0] > f {
                        lemma_get_gap(b@, j0, k);
                    }
                } else {
                    lemma_get_gap(a@, i as int, k);
                    lemma_get_gap(b@, j as int, k);
                    lemma_get_gap(after, after.keys.len() as int, k);
                }
            }
        }
    }
    let ghost out = SparseView { rows: a@.rows, cols: a@.cols, keys: keys@, values: data@ };
    proof {
        assert forall|k: int| multiplied(combine, a@.get(k), b@.get(k), #[trigger] out.get(k)) by {
            if k >= lower(key_or_end(a@, i as int), key_or_end(b@, j as int)) {
                if i == na {
                    lemma_get_gap(a@, na as int, k);
                } else {
                    lemma_get_gap(b@, nb as int, k);
                }
                lemma_get_gap(out, out.keys.len() as int, k);
            }
        }
    }
    Ok(SparseMatrix::from_parts(nrow, ncol, keys, data))
}

/// Scales every stored value: `scale` gives the stored product or drops it.
pub fn mul_const<T: Copy, F: Fn(T) -> Option<T>>(a: &SparseMatrix<T>, scale: F) -> (m: SparseMatrix<
    T,
>)
    requires
        callable_on_stored(a@, scale),
    ensures
        m@.wf(),
        same_shape(m@, a@),
        forall|k: int| scaled(scale, a@.get(k), #[trigger] m@.get(k)),
{
    let nrow = a.nrow();
    let ncol = a.ncol();
    let ak = a.keys();
    let ad = a.data();
    let na: usize = ak.len();
    let mut keys: Vec<usize> = Vec::new();
    let mut data: Vec<T> = Vec::new();
    let mut i: usize = 0;
    while i < na
        invariant
            a@.wf(),
            callable_on_stored(a@, scale),
            ak@ == a@.keys,
            ad@ == a@.values,
            na == ak.len(),
            i <= na,
            (SparseView { rows: a@.rows, cols: a@.cols, keys: keys@, values: data@ }).wf(),
            keys.len() > 0 ==> keys[keys.len() - 1] < key_or_end(a@, i as int),
            i > 0 ==> ak[i - 1] < key_or_end(a@, i as int),
            forall|k: int|
                k < key_or_end(a@, i as int) ==> scaled(
                    scale,
                    a@.get(k),
                    #[trigger] (SparseView {
                        rows: a@.rows,
                        cols: a@.cols,
                        keys: keys@,
                        values: data@,
                    }).get(k),
                ),
        decreases na - i,
    {
        let ghost before = SparseView { rows: a@.rows, cols: a@.cols, keys: keys@, values: data@ };
        let ghost f = ak[i as int] as int;
        let ghost i0 = i as int;
        let mut pushed: bool = false;
        match scale(ad[i]) {
            Some(value) => {
                keys.push(ak[i]);
                data.push(value);
                pushed = true;
            },
            None => {},
        }
        i += 1;
        proof {
            let after = SparseView { rows: a@.rows, cols: a@.cols, keys: keys@, values: data@ };
            lemma_get_stored(a@, i0);
            if i0 + 1 < na {
                assert(ak[i0] < ak[i0 + 1]);
            }
            if pushed {
                lemma_get_push(before, ak[i0], data[data.len() - 1], f);
            }
            assert forall|k: int| k < key_or_end(a@, i as int) implies scaled(
                scale,
                a@.get(k),
                #[trigger] after.get(k),
            ) by {
                if pushed {
                    lemma_get_push(before, ak[i0], data[data.len() - 1], k);
                }
                if k < f {
                } else if k == f {
                    if !pushed {
                        lemma_get_gap(before, before.keys.len() as int, k);
                    }
                } else {
                    lemma_get_gap(a@, i as int, k);
                    lemma_get_gap(after, after.keys.len() as int, k);
                }
            }
        }
    }
    let ghost out = SparseView { rows: a@.rows, cols: a@.cols, keys: keys@, values: data@ };
    proof {
        assert forall|k: int| scaled(scale, a@.get(k), #[trigger] out.get(k)) by {
            if k >= a@.rows * a@.cols {
                lemma_get_gap(a@, na as int, k);
                lemma_get_gap(out, out.keys.len() as int, k);
            }
        }
    }
    SparseMatrix::from_parts(nrow, ncol, keys, data)
}

} // verus!
