//! Shrinking: the choice tree that drives resumable shrink passes, the
//! ordering primitive over index permutations, the standalone per-value
//! shrinkers, and a binary search for the least value that keeps a
//! property.

pub mod choicetree;
pub mod ordering;
pub mod value_shrinkers;

use vstd::prelude::*;

verus! {

/// Binary search for a small value of `[lo, hi]` at which `f` answers
/// `true`, taking `f(hi)` to be true without asking. Returns `lo` when
/// `f(lo)` is true; otherwise a value whose predecessor `f` rejected and
/// which `f` accepted (or `hi` itself): a locally least accepted value.
pub fn bin_search_down<F: Fn(i128) -> bool>(lo: i128, hi: i128, f: &F) -> (r: i128)
    requires
        lo < hi ==> hi - lo <= i128::MAX,
        forall|x: i128| (lo <= x <= hi || x == lo) ==> #[trigger] f.requires((x,)),
    ensures
        lo < hi ==> lo <= r <= hi,
        lo < hi && r == lo ==> f.ensures((lo,), true),
        lo < hi && r > lo ==> f.ensures(((r - 1) as i128,), false) && (r == hi || f.ensures((r,), true)),
        lo >= hi ==> (r == lo && f.ensures((lo,), true)) || r == hi,
{
    if f(lo) {
        return lo;
    }
    if lo >= hi {
        return hi;
    }
    let ghost top = hi;
    let ghost bottom = lo;
    let mut lo = lo;
    let mut hi = hi;
    while lo + 1 < hi
        invariant
            bottom <= lo < hi <= top,
            hi - lo <= i128::MAX,
            forall|x: i128| lo <= x <= hi ==> #[trigger] f.requires((x,)),
            f.ensures((lo,), false),
            hi == top || f.ensures((hi,), true),
        decreases hi - lo,
    {
        let mid = lo + (hi - lo) / 2;
        if f(mid) {
            hi = mid;
        } else {
            lo = mid;
        }
    }
    hi
}

} // verus!
