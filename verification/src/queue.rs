//! Contracts for the priority queue of grid nodes that the path search uses.
//!
//! The queue comes from the `priority-queue` crate; an item is a grid node,
//! and its priority the reversed cost, so that the cheapest node is the
//! greatest. Nothing in this file is proved.

use core::cmp::Reverse;
use priority_queue::PriorityQueue;
use std::collections::hash_map::RandomState;
use vstd::prelude::*;

verus! {

#[verifier::external_type_specification]
#[verifier::external_body]
#[verifier::reject_recursive_types(I)]
#[verifier::reject_recursive_types(P)]
#[verifier::reject_recursive_types(H)]
pub struct ExPriorityQueue<I, P, H>(priority_queue::PriorityQueue<I, P, H>);

#[verifier::external_type_specification]
#[verifier::external_body]
#[verifier::reject_recursive_types(T)]
pub struct ExReverse<T>(core::cmp::Reverse<T>);

/// A grid node: column and row.
pub type Node = (usize, usize);

/// The queue of grid nodes, cheapest first.
pub type NodeQueue = PriorityQueue<Node, Reverse<usize>, RandomState>;

/// What a queue holds: each node in it, with its cost.
pub uninterp spec fn queue_entries(queue: NodeQueue) -> Map<Node, usize>;

/// The entries of an empty queue.
pub open spec fn no_entries() -> Map<Node, usize> {
    Map::empty()
}

/// `PriorityQueue::with_capacity`: an empty queue, with room for `capacity`
/// nodes set aside.
#[verifier::external_body]
pub(crate) fn queue_with_capacity(capacity: usize) -> (queue: NodeQueue)
    ensures
        queue_entries(queue) == no_entries(),
{
    PriorityQueue::with_capacity(capacity)
}

/// `PriorityQueue::push`: puts the node into the queue with the given cost,
/// or gives it that cost if the node is in the queue already.
#[verifier::external_body]
pub(crate) fn queue_push(queue: &mut NodeQueue, node: Node, cost: usize)
    ensures
        queue_entries(*final(queue)) == queue_entries(*old(queue)).insert(node, cost),
{
    queue.push(node, Reverse(cost));
}

/// `PriorityQueue::pop`: takes a node of the greatest priority, that is of
/// the least cost, out of the queue and returns it with its cost; `None` if
/// the queue is empty. Which of several nodes of the least cost comes out is
/// left open.
#[verifier::external_body]
pub(crate) fn queue_pop(queue: &mut NodeQueue) -> (r: Option<(Node, usize)>)
    ensures
        match r {
            Some((node, cost)) => {
                &&& queue_entries(*old(queue)).dom().contains(node)
                &&& queue_entries(*old(queue))[node] == cost
                &&& queue_entries(*final(queue)) == queue_entries(*old(queue)).remove(node)
                &&& forall|other: Node|
                    queue_entries(*old(queue)).dom().contains(other) ==> cost <= #[trigger] queue_entries(
                        *old(queue),
                    )[other]
            },
            None => {
                &&& queue_entries(*old(queue)) == no_entries()
                &&& queue_entries(*final(queue)) == queue_entries(*old(queue))
            },
        },
{
    queue.pop().map(|(node, cost)| (node, cost.0))
}

} // verus!
