//! Contracts for the partition of the numbers `0..n` into sets that the
//! network search uses.
//!
//! The partition comes from the `partitions` crate, a union-find forest.
//! Nothing in this file is proved.

use partitions::PartitionVec;
use vstd::prelude::*;

verus! {

/// A partition of the numbers from 0 up to its size into sets: a
/// `PartitionVec` of the `partitions` crate.
#[verifier::external_body]
pub struct Classes {
    sets: PartitionVec<usize>,
}

/// What a partition holds: the pairs of numbers that share a set.
pub uninterp spec fn joined_pairs(classes: Classes) -> Set<(int, int)>;

/// The size of a partition: how many numbers it holds.
pub uninterp spec fn partition_size(classes: Classes) -> nat;

/// `PartitionVec::from_iter` on the numbers below `size`: a partition in
/// which each of them has a set of its own.
#[verifier::external_body]
pub(crate) fn partition_of(size: usize) -> (classes: Classes)
    ensures
        partition_size(classes) == size,
        forall|x: int, y: int|
            0 <= x < size && 0 <= y < size ==> (#[trigger] joined_pairs(classes).contains((x, y))
                <==> x == y),
{
    Classes { sets: (0..size).collect() }
}

/// `PartitionVec::same_set`: whether the two numbers share a set. The
/// method panics on a number that the partition does not hold, which the
/// precondition excludes.
#[verifier::external_body]
pub(crate) fn partition_same_set(classes: &Classes, first: usize, second: usize) -> (same: bool)
    requires
        first < partition_size(*classes),
        second < partition_size(*classes),
    ensures
        same == joined_pairs(*classes).contains((first as int, second as int)),
{
    classes.sets.same_set(first, second)
}

/// `PartitionVec::union`: joins the sets of the two numbers. Afterwards two
/// numbers share a set if they did before, or if one was in the set of
/// `first` and the other in the set of `second`. The method panics on a
/// number that the partition does not hold, which the precondition excludes.
#[verifier::external_body]
pub(crate) fn partition_union(classes: &mut Classes, first: usize, second: usize)
    requires
        first < partition_size(*old(classes)),
        second < partition_size(*old(classes)),
    ensures
        partition_size(*final(classes)) == partition_size(*old(classes)),
        forall|x: int, y: int|
            0 <= x < partition_size(*old(classes)) && 0 <= y < partition_size(*old(classes)) ==> (
            #[trigger] joined_pairs(*final(classes)).contains((x, y)) <==> joined_pairs(
                *old(classes),
            ).contains((x, y)) || (joined_pairs(*old(classes)).contains((x, first as int))
                && joined_pairs(*old(classes)).contains((second as int, y))) || (joined_pairs(
                *old(classes),
            ).contains((x, second as int)) && joined_pairs(*old(classes)).contains(
                (first as int, y),
            ))),
{
    classes.sets.union(first, second)
}

} // verus!
