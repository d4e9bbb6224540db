//! What it means to pick some of a list, in order.
use vstd::prelude::*;

verus! {

/// `at` are the numbers below `n` for which `wanted` holds: each of them once, from the smallest to
/// the largest, and no others.
pub open spec fn positions(at: Seq<int>, n: int, wanted: spec_fn(int) -> bool) -> bool {
    &&& forall|j: int, k: int| 0 <= j < k < at.len() ==> #[trigger] at[j] < #[trigger] at[k]
    &&& forall|k: int| 0 <= k < at.len() ==> 0 <= #[trigger] at[k] < n && wanted(at[k])
    &&& forall|i: int| 0 <= i < n && #[trigger] wanted(i) ==> at.contains(i)
}

/// The next number is one of those wanted.
pub proof fn position_is_added(at: Seq<int>, n: int, wanted: spec_fn(int) -> bool)
    requires
        positions(at, n, wanted),
        n >= 0,
    ensures
        wanted(n) ==> positions(at.push(n), n + 1, wanted),
        !wanted(n) ==> positions(at, n + 1, wanted),
{
    if wanted(n) {
        let longer = at.push(n);
        assert forall|i: int| 0 <= i < n + 1 && #[trigger] wanted(i) implies longer.contains(i) by {
            if i < n {
                let k = choose|k: int| 0 <= k < at.len() && at[k] == i;
                assert(longer[k] == i);
            } else {
                assert(longer[at.len() as int] == i);
            }
        }
    }
}

} // verus!
