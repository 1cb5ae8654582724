//! Binary search over sorted neighbor lists.
use vstd::prelude::*;
use crate::model::strictly_increasing;

verus! {

/// Search a strictly increasing slice for `x`: `Ok(i)` with `s[i] == x` when
/// it occurs, otherwise `Err(i)` where `i` is the position at which `x` would
/// be inserted to keep the slice sorted.
pub fn binary_search(s: &[u32], x: u32) -> (r: Result<usize, usize>)
    requires
        strictly_increasing(s@),
    ensures
        match r {
            Ok(i) => i < s@.len() && s@[i as int] == x,
            Err(i) => i <= s@.len() && (forall|j: int| 0 <= j < i ==> s@[j] < x) && (forall|j: int|
                i <= j < s@.len() ==> s@[j] > x),
        },
        r is Ok <==> s@.contains(x),
{
    let mut lo: usize = 0;
    let mut hi: usize = s.len();
    while lo < hi
        invariant
            lo <= hi <= s@.len(),
            strictly_increasing(s@),
            forall|j: int| 0 <= j < lo ==> s@[j] < x,
            forall|j: int| hi <= j < s@.len() ==> s@[j] > x,
        decreases hi - lo,
    {
        let mid = lo + (hi - lo) / 2;
        let m = s[mid];
        if m == x {
            return Ok(mid);
        } else if m < x {
            lo = mid + 1;
        } else {
            hi = mid;
        }
    }
    proof {
        if s@.contains(x) {
            let j = choose|j: int| 0 <= j < s@.len() && s@[j] == x;
            assert(j < lo || j >= hi);
        }
    }
    Err(lo)
}

/// Number of leading entries of a sorted slice that are at most `x`
/// (the partition point of the predicate `v <= x`).
pub fn count_at_most(s: &[u32], x: u32) -> (r: usize)
    requires
        strictly_increasing(s@),
    ensures
        r <= s@.len(),
        forall|j: int| 0 <= j < r ==> s@[j] <= x,
        forall|j: int| r <= j < s@.len() ==> s@[j] > x,
{
    let mut lo: usize = 0;
    let mut hi: usize = s.len();
    while lo < hi
        invariant
            lo <= hi <= s@.len(),
            strictly_increasing(s@),
            forall|j: int| 0 <= j < lo ==> s@[j] <= x,
            forall|j: int| hi <= j < s@.len() ==> s@[j] > x,
        decreases hi - lo,
    {
        let mid = lo + (hi - lo) / 2;
        if s[mid] <= x {
            lo = mid + 1;
        } else {
            hi = mid;
        }
    }
    lo
}

} // verus!
