//! Trusted surface over the `priority_queue` crate: the best-first frontier
//! used by the pathfinder.  The queue is keyed — pushing an item that is
//! already present updates its priority — so its contents are modelled as a
//! map from item to priority.

use vstd::prelude::*;

verus! {

#[verifier::external_type_specification]
#[verifier::external_body]
#[verifier::reject_recursive_types(I)]
#[verifier::reject_recursive_types(P)]
#[verifier::reject_recursive_types(H)]
pub struct ExPriorityQueue<I, P, H>(priority_queue::PriorityQueue<I, P, H>);

/// The concrete frontier the pathfinder uses: cell indices keyed by an
/// unsigned priority, largest first.
pub type Frontier = priority_queue::PriorityQueue<u64, u128>;

/// What a frontier queue holds: each queued cell index with its priority.
pub uninterp spec fn pq_contents(q: Frontier) -> Map<u64, u128>;

/// Contents of a queue that holds nothing.
pub open spec fn pq_empty() -> Map<u64, u128> {
    Map::empty()
}

/// Relies on priority_queue::PriorityQueue::new: a fresh queue is empty.
#[verifier::external_body]
pub(crate) fn pq_new() -> (queue: Frontier)
    ensures
        pq_contents(queue) == pq_empty(),
{
    priority_queue::PriorityQueue::new()
}

/// Relies on priority_queue::PriorityQueue::push: the pair is inserted; an
/// item already present keeps one entry, with its priority replaced and the
/// old priority handed back.
#[verifier::external_body]
pub(crate) fn pq_push(
    q: &mut Frontier,
    item: u64,
    priority: u128,
) -> (old_priority: Option<u128>)
    ensures
        pq_contents(*final(q)) == pq_contents(*old(q)).insert(item, priority),
        old_priority == if pq_contents(*old(q)).dom().contains(item) {
            Some(pq_contents(*old(q))[item])
        } else {
            None::<u128>
        },
{
    q.push(item, priority)
}

/// Relies on priority_queue::PriorityQueue::pop: an empty queue yields
/// `None` and stays empty; otherwise some pair of greatest priority is
/// removed and returned.
#[verifier::external_body]
pub(crate) fn pq_pop(q: &mut Frontier) -> (r: Option<(u64, u128)>)
    ensures
        match r {
            None => {
                &&& pq_contents(*old(q)) == pq_empty()
                &&& pq_contents(*final(q)) == pq_contents(*old(q))
            },
            Some(pair) => {
                &&& pq_contents(*old(q)).dom().contains(pair.0)
                &&& pq_contents(*old(q))[pair.0] == pair.1
                &&& pq_contents(*final(q)) == pq_contents(*old(q)).remove(pair.0)
                &&& forall|j: u64| #[trigger]
                    pq_contents(*old(q)).dom().contains(j) ==> pq_contents(*old(q))[j] <= pair.1
            },
        },
{
    q.pop()
}

} // verus!
