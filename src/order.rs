use itertools::Itertools;
use vstd::prelude::*;

verus! {

/// `a` comes no later than `b` in lexicographic order.
pub open spec fn pair_le(a: (u64, usize), b: (u64, usize)) -> bool {
    a.0 < b.0 || (a.0 == b.0 && a.1 <= b.1)
}

/// Relies on itertools' `Itertools::sorted`: the same items, in ascending order (tuples
/// compare lexicographically).
#[verifier::external_body]
pub(crate) fn sorted_pairs(v: Vec<(u64, usize)>) -> (r: Vec<(u64, usize)>)
    ensures
        r@.to_multiset() == v@.to_multiset(),
        forall|i: int, j: int| 0 <= i < j < r@.len() ==> pair_le(#[trigger] r@[i], #[trigger] r@[j]),
{
    v.into_iter().sorted().collect()
}

} // verus!
