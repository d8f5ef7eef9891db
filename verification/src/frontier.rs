//! Trusted interface to the outside max-priority queue that backs the
//! pathfinder's frontier: cell ids (`u64`) keyed to `u32` priorities, where a
//! pushed id replaces the priority of an equal id already present, and a pop
//! yields an id of greatest priority.

use vstd::prelude::*;
use priority_queue::PriorityQueue;
use std::collections::hash_map::RandomState;

verus! {

#[verifier::external_type_specification]
#[verifier::external_body]
#[verifier::reject_recursive_types(I)]
#[verifier::reject_recursive_types(P)]
#[verifier::reject_recursive_types(H)]
pub struct ExPriorityQueue<I, P, H>(PriorityQueue<I, P, H>);

/// The frontier queue type: cell ids keyed to priorities under the default
/// hasher.
pub type Frontier = PriorityQueue<u64, u32, RandomState>;

/// The id-to-priority map a frontier queue holds.
pub uninterp spec fn pq_model(q: Frontier) -> Map<u64, u32>;

/// Relies on priority_queue::PriorityQueue::new: creates an empty queue.
#[verifier::external_body]
pub fn pq_new() -> (queue: Frontier)
    ensures
        pq_model(queue) =~= Map::empty(),
{
    PriorityQueue::new()
}

/// Relies on priority_queue::PriorityQueue::push: inserts the id with the
/// given priority; if an equal id is already in the queue, its priority is
/// replaced and the old one returned.
#[verifier::external_body]
pub fn pq_push(q: &mut Frontier, item: u64, prio: u32) -> (r: Option<u32>)
    ensures
        pq_model(*final(q)) == pq_model(*old(q)).insert(item, prio),
        match r {
            Some(p) => pq_model(*old(q)).dom().contains(item) && pq_model(*old(q))[item] == p,
            None => !pq_model(*old(q)).dom().contains(item),
        },
{
    q.push(item, prio)
}

/// Relies on priority_queue::PriorityQueue::pop: removes and returns an
/// id of greatest priority, or `None` when the queue is empty. Among ids of
/// equal greatest priority, which one leaves is unspecified.
#[verifier::external_body]
pub fn pq_pop(q: &mut Frontier) -> (r: Option<(u64, u32)>)
    ensures
        match r {
            Some((item, prio)) => pq_model(*old(q)).dom().contains(item) && pq_model(*old(q))[item]
                == prio && (forall|j: u64|
                pq_model(*old(q)).dom().contains(j) ==> pq_model(*old(q))[j] <= prio) && pq_model(
                *final(q),
            ) == pq_model(*old(q)).remove(item),
            None => pq_model(*old(q)).dom() == Set::<u64>::empty() && pq_model(*final(q))
                == pq_model(*old(q)),
        },
{
    q.pop()
}

} // verus!
