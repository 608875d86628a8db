//! Contracts for two slice methods of std: binary search by a test, and
//! sorting.
//!
//! Nothing in this file is proved: each function states what std documents
//! of the call in its body.

use crate::bounds::product_below;
use vstd::prelude::*;

verus! {

/// `<[T]>::partition_point` of std, with the test whether `a` times the
/// item is below `bound`: the number of items at the front for which the
/// test holds. The slice must be partitioned: no item that passes the test
/// may follow one that fails it; std gives no meaning to the result
/// otherwise.
#[verifier::external_body]
pub(crate) fn products_below(items: &[u64], a: u64, bound: u64) -> (count: usize)
    requires
        forall|i: int, j: int|
            0 <= i <= j < items@.len() && a * #[trigger] items@[j] < bound ==> a * #[trigger] items@[i]
                < bound,
    ensures
        count <= items@.len(),
        forall|i: int| 0 <= i < count ==> a * #[trigger] items@[i] < bound,
        forall|i: int| count <= i < items@.len() ==> a * #[trigger] items@[i] >= bound,
{
    items.partition_point(|&item| product_below(a, item, bound))
}

/// `perm` names the position `j`.
pub open spec fn names_position(perm: Seq<int>, j: int) -> bool {
    exists|k: int| 0 <= k < perm.len() && #[trigger] perm[k] == j
}

/// `perm` tells where each item of `after` stood in `before`: it names
/// every position once.
pub open spec fn is_rearrangement<T>(perm: Seq<int>, after: Seq<T>, before: Seq<T>) -> bool {
    &&& perm.len() == before.len()
    &&& after.len() == before.len()
    &&& forall|k: int| 0 <= k < perm.len() ==> 0 <= #[trigger] perm[k] < before.len()
    &&& forall|k: int, l: int| 0 <= k < l < perm.len() ==> perm[k] != perm[l]
    &&& forall|j: int| 0 <= j < before.len() ==> #[trigger] names_position(perm, j)
    &&& forall|k: int| 0 <= k < after.len() ==> #[trigger] after[k] == before[perm[k]]
}

/// `after` holds the items of `before`, in another order.
pub open spec fn rearranged<T>(after: Seq<T>, before: Seq<T>) -> bool {
    exists|perm: Seq<int>| #[trigger] is_rearrangement(perm, after, before)
}

/// The pair `x` does not come after the pair `y`: its first part is less, or
/// the first parts are equal and its second part is no greater.
pub open spec fn pair_in_order(x: (usize, usize), y: (usize, usize)) -> bool {
    let (a, b) = x;
    let (c, d) = y;
    a < c || (a == c && b <= d)
}

/// `<[T]>::sort_unstable` of std on pairs of numbers: rearranges the pairs
/// into ascending order, by their first parts and then by their second
/// parts.
#[verifier::external_body]
pub(crate) fn sort_pairs(pairs: &mut Vec<(usize, usize)>)
    ensures
        rearranged(final(pairs)@, old(pairs)@),
        forall|k: int, l: int|
            0 <= k <= l < final(pairs)@.len() ==> pair_in_order(
                #[trigger] final(pairs)@[k],
                #[trigger] final(pairs)@[l],
            ),
{
    pairs.sort_unstable()
}

} // verus!
