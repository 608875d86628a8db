//! Neighbouring items, subsets and a ranking of a slice, taken with
//! `itertools`.

use core::cmp::Reverse;
use itertools::Itertools;
use vstd::prelude::*;

verus! {

/// `sub` is a selection of the items of `items`, in their order.
pub open spec fn sublist(sub: Seq<usize>, items: Seq<usize>) -> bool
    decreases items.len(),
{
    if items.len() == 0 {
        sub.len() == 0
    } else {
        sublist(sub, items.drop_last()) || (sub.len() > 0 && sub.last() == items.last() && sublist(
            sub.drop_last(),
            items.drop_last(),
        ))
    }
}

/// `Itertools::tuple_windows` at width two, over the copied items of a
/// slice: every pair of neighbours, in order. A slice of fewer than two items
/// has no pair. Not proved: the statement is the documented behaviour of the
/// method.
#[verifier::external_body]
pub(crate) fn pair_windows<T: Copy>(items: &[T]) -> (pairs: Vec<(T, T)>)
    ensures
        pairs@.len() == if items@.len() == 0 {
            0
        } else {
            items@.len() - 1
        },
        forall|i: int| 0 <= i < pairs@.len() ==> #[trigger] pairs@[i] == (items@[i], items@[i + 1]),
{
    items.iter().copied().tuple_windows().collect()
}

/// `Itertools::tuple_windows` at width four, over the copied items of a
/// slice: every run of four neighbours, in order. A slice of fewer than four
/// items has none. Not proved: the statement is the documented behaviour of
/// the method.
#[verifier::external_body]
pub(crate) fn quad_windows<T: Copy>(items: &[T]) -> (quads: Vec<(T, T, T, T)>)
    ensures
        quads@.len() == if items@.len() < 4 {
            0
        } else {
            items@.len() - 3
        },
        forall|i: int|
            0 <= i < quads@.len() ==> #[trigger] quads@[i] == (
                items@[i],
                items@[i + 1],
                items@[i + 2],
                items@[i + 3],
            ),
{
    items.iter().copied().tuple_windows().collect()
}

/// `Itertools::powerset` over the copied items of a slice, collected: every
/// selection of the items, each in the order of the slice, the empty
/// selection and the whole slice among them. Not proved: the statement is
/// the documented behaviour of the method.
#[verifier::external_body]
pub(crate) fn subsets(items: &[usize]) -> (all: Vec<Vec<usize>>)
    ensures
        forall|j: int| 0 <= j < all@.len() ==> sublist((#[trigger] all@[j])@, items@),
        forall|sub: Seq<usize>|
            #[trigger] sublist(sub, items@) ==> exists|j: int|
                0 <= j < all@.len() && (#[trigger] all@[j])@ == sub,
{
    items.iter().copied().powerset().collect()
}

/// The place `i` ranks before the place `j`: its score is greater, or the
/// scores are equal and `i` is the lower place.
pub open spec fn ranks_before(scores: Seq<i32>, i: usize, j: usize) -> bool {
    let (first, second) = (scores[i as int], scores[j as int]);
    first > second || (first == second && i < j)
}

/// `order` names the place `i`.
pub open spec fn names_place(order: Seq<usize>, i: usize) -> bool {
    exists|k: int| 0 <= k < order.len() && #[trigger] order[k] == i
}

/// `Itertools::sorted_by_key` over the places of a slice, with the reversed
/// score as the key: the places in descending order of score. The sort is
/// stable, so places of equal score keep their order. Not proved: the
/// statement is the documented behaviour of the method.
#[verifier::external_body]
pub(crate) fn ranked_places(scores: &[i32]) -> (order: Vec<usize>)
    ensures
        order@.len() == scores@.len(),
        forall|k: int| 0 <= k < order@.len() ==> #[trigger] order@[k] < scores@.len(),
        forall|i: usize| i < scores@.len() ==> #[trigger] names_place(order@, i),
        forall|k: int, l: int|
            0 <= k < l < order@.len() ==> ranks_before(
                scores@,
                #[trigger] order@[k],
                #[trigger] order@[l],
            ),
{
    scores.iter().enumerate().sorted_by_key(|(_, p)| Reverse(**p)).map(|(i, _)| i).collect()
}

} // verus!
