//! Element-wise operations on dense buffers and the norm of a buffer.
//!
//! The arithmetic on the elements is the caller's: a function of two elements
//! for a sum, a difference or a product with a constant, a function of three
//! for an update, and for the norm the functions of a dot product and the
//! square root.

use vstd::prelude::*;
use crate::kernel::{always_callable, blocked_sum, dot_product_simd};

verus! {

/// `out` holds, for each of the first `n` positions, what `f` returned for the
/// elements of `x` and `y` there.
pub open spec fn zipped<T, P: Fn(T, T) -> T>(f: P, x: Seq<T>, y: Seq<T>, n: int, out: Seq<T>) -> bool {
    &&& out.len() == n
    &&& forall|j: int| 0 <= j < n ==> call_ensures(f, (x[j], y[j]), #[trigger] out[j])
}

/// `out` holds, for each of the first `n` positions, what `f` returned for the
/// element of `x` there and the constant `c`.
pub open spec fn mapped<T, P: Fn(T, T) -> T>(f: P, x: Seq<T>, c: T, n: int, out: Seq<T>) -> bool {
    &&& out.len() == n
    &&& forall|j: int| 0 <= j < n ==> call_ensures(f, (x[j], c), #[trigger] out[j])
}

/// Combines the first `n` elements of two buffers, position by position.
fn zip_with<T: Copy, P: Fn(T, T) -> T>(inp1: &[T], inp2: &[T], n: usize, f: P) -> (out: Vec<T>)
    requires
        n <= inp1.len(),
        n <= inp2.len(),
        forall|x: T, y: T| call_requires(f, (x, y)),
    ensures
        zipped(f, inp1@, inp2@, n as int, out@),
{
    let mut out: Vec<T> = Vec::new();
    let mut j: usize = 0;
    while j < n
        invariant
            j <= n,
            n <= inp1.len(),
            n <= inp2.len(),
            forall|x: T, y: T| call_requires(f, (x, y)),
            zipped(f, inp1@, inp2@, j as int, out@),
        decreases n - j,
    {
        out.push(f(inp1[j], inp2[j]));
        j += 1;
    }
    out
}

/// The element-wise sum of the first `n` elements: every element is what
/// `plus` returned for the two elements at its position.
pub fn add<T: Copy, P: Fn(T, T) -> T>(inp1: &[T], inp2: &[T], n: usize, plus: P) -> (out: Vec<T>)
    requires
        n <= inp1.len(),
        n <= inp2.len(),
        forall|x: T, y: T| call_requires(plus, (x, y)),
    ensures
        zipped(plus, inp1@, inp2@, n as int, out@),
{
    zip_with(inp1, inp2, n, plus)
}

/// The element-wise difference of the first `n` elements: every element is
/// what `minus` returned for the two elements at its position.
pub fn sub<T: Copy, P: Fn(T, T) -> T>(inp1: &[T], inp2: &[T], n: usize, minus: P) -> (out: Vec<T>)
    requires
        n <= inp1.len(),
        n <= inp2.len(),
        forall|x: T, y: T| call_requires(minus, (x, y)),
    ensures
        zipped(minus, inp1@, inp2@, n as int, out@),
{
    zip_with(inp1, inp2, n, minus)
}

/// The first `n` elements multiplied by the constant `x`: every element is
/// what `times` returned for the element at its position and `x`.
pub fn mul_const<T: Copy, P: Fn(T, T) -> T>(inp: &[T], x: T, n: usize, times: P) -> (out: Vec<T>)
    requires
        n <= inp.len(),
        forall|e: T, c: T| call_requires(times, (e, c)),
    ensures
        mapped(times, inp@, x, n as int, out@),
{
    let mut out: Vec<T> = Vec::new();
    let mut j: usize = 0;
    while j < n
        invariant
            j <= n,
            n <= inp.len(),
            forall|e: T, c: T| call_requires(times, (e, c)),
            mapped(times, inp@, x, j as int, out@),
        decreases n - j,
    {
        out.push(times(inp[j], x));
        j += 1;
    }
    out
}

/// Takes `x` times `inp` off `out`, over the first `n` elements: every element
/// `o` of `out` becomes what `update` returned for `o`, the element of `inp`
/// at its position, and `x`. The elements from `n` on stay.
pub fn mul_sub_const<T: Copy, U: Fn(T, T, T) -> T>(inp: &[T], out: &mut [T], x: T, n: usize, update: U)
    requires
        n <= inp.len(),
        n <= old(out).len(),
        forall|o: T, e: T, c: T| call_requires(update, (o, e, c)),
    ensures
        final(out)@.len() == old(out)@.len(),
        forall|j: int|
            0 <= j < n ==> call_ensures(update, (old(out)@[j], inp@[j], x), #[trigger] final(out)@[j]),
        forall|j: int| n <= j < old(out)@.len() ==> final(out)@[j] == old(out)@[j],
{
    let mut j: usize = 0;
    while j < n
        invariant
            j <= n,
            n <= inp.len(),
            out.len() == old(out).len(),
            n <= out.len(),
            forall|o: T, e: T, c: T| call_requires(update, (o, e, c)),
            forall|k: int|
                0 <= k < j ==> call_ensures(update, (old(out)@[k], inp@[k], x), #[trigger] out@[k]),
            forall|k: int| j <= k < out@.len() ==> out@[k] == old(out)@[k],
        decreases n - j,
    {
        out[j] = update(out[j], inp[j], x);
        j += 1;
    }
}

/// The norm of the first `n` elements of `a`: what `root` returned for the
/// blocked dot product of these elements with themselves.
pub fn norm<T: Copy, F: Fn(T, T, T) -> T, P: Fn(T, T) -> T, Q: Fn(T) -> T>(
    a: &[T],
    n: usize,
    zero: T,
    mul_add: F,
    plus: P,
    root: Q,
) -> (length: T)
    requires
        n <= a.len(),
        always_callable(mul_add),
        forall|x: T, y: T| call_requires(plus, (x, y)),
        forall|x: T| call_requires(root, (x,)),
    ensures
        exists|squares: T|
            #[trigger] blocked_sum(
                mul_add,
                plus,
                a@.subrange(0, n as int),
                a@.subrange(0, n as int),
                n as int,
                zero,
                squares,
            ) && call_ensures(root, (squares,), length),
{
    let head = vstd::slice::slice_subrange(a, 0, n);
    let squares = dot_product_simd(head, head, zero, mul_add, plus);
    root(squares)
}

} // verus!
