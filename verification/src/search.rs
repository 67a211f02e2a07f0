//! Binary searches over ascending key arrays.

use vstd::prelude::*;

verus! {

/// `s` is in non-decreasing order.
pub open spec fn ascending(s: Seq<usize>) -> bool {
    forall|i: int, j: int| 0 <= i <= j < s.len() ==> s[i] <= s[j]
}

/// `s` is in strictly increasing order, so no key occurs twice.
pub open spec fn strictly_ascending(s: Seq<usize>) -> bool {
    forall|i: int, j: int| 0 <= i < j < s.len() ==> s[i] < s[j]
}

/// Looks `target` up in an ascending array. Returns a position that holds
/// `target`, or `arr.len()` when no position does.
pub fn binary_search(arr: &[usize], target: usize) -> (pos: usize)
    requires
        ascending(arr@),
    ensures
        pos <= arr.len(),
        pos < arr.len() ==> arr[pos as int] == target,
        pos == arr.len() <==> !arr@.contains(target),
{
    let n: usize = arr.len();
    if n == 0 {
        return 0;
    }
    let mut lt: usize = 0;
    let mut rt: usize = n - 1;
    while lt <= rt
        invariant
            n == arr.len(),
            n > 0,
            lt <= n,
            rt < n,
            ascending(arr@),
            forall|k: int| 0 <= k < lt ==> arr[k] < target,
            forall|k: int| rt < k < n ==> arr[k] > target,
        decreases rt + 1 - lt,
    {
        let mid: usize = lt + (rt - lt) / 2;
        if arr[mid] == target {
            return mid;
        } else if arr[mid] > target {
            if mid == 0 {
                return n;
            }
            rt = mid - 1;
        } else {
            lt = mid + 1;
        }
    }
    n
}

/// Finds the first position of an ascending array whose element is not below
/// `target`. Returns `arr.len()` when every element is below it.
pub fn binary_search_next(arr: &[usize], target: usize) -> (pos: usize)
    requires
        ascending(arr@),
    ensures
        pos <= arr.len(),
        forall|k: int| 0 <= k < pos ==> arr[k] < target,
        forall|k: int| pos <= k < arr.len() ==> arr[k] >= target,
{
    let n: usize = arr.len();
    if n == 0 {
        return 0;
    }
    let mut lt: usize = 0;
    let mut rt: usize = n - 1;
    let mut p: usize = n;
    while lt <= rt
        invariant
            n == arr.len(),
            n > 0,
            lt <= n,
            rt < n,
            p <= n,
            p == rt + 1,
            ascending(arr@),
            forall|k: int| 0 <= k < lt ==> arr[k] < target,
            forall|k: int| p <= k < n ==> arr[k] >= target,
        decreases rt + 1 - lt,
    {
        let mid: usize = lt + (rt - lt) / 2;
        if arr[mid] >= target {
            p = mid;
            if mid == 0 {
                return p;
            }
            rt = mid - 1;
        } else {
            lt = mid + 1;
        }
    }
    p
}

} // verus!
