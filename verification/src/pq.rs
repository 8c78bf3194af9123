//! The scheduler's central collection: a keyed priority queue from the
//! `priority_queue` crate, holding one entry per encoded key pair, ordered by
//! the encoded priority triple.
//!
//! Items are pairs of `u128` and priorities are `(bool, u64, u64)` triples,
//! so that the queue's ordering is std's documented lexicographic order on
//! tuples — stated here as [`crate::priority::tup_le`] — and its item
//! equality is std's field-wise equality on integer tuples. What the queue
//! holds is named by [`queue_entries`]; each wrapper states over that name
//! what the crate's source shows of the method it calls.

use vstd::prelude::*;
use priority_queue::PriorityQueue;
use std::hash::RandomState;
use crate::priority::tup_le;

verus! {

#[verifier::external_type_specification]
#[verifier::external_body]
#[verifier::reject_recursive_types(I)]
#[verifier::reject_recursive_types(P)]
#[verifier::reject_recursive_types(H)]
pub struct ExPriorityQueue<I, P, H>(PriorityQueue<I, P, H>);

/// The queue over encoded key pairs and encoded priorities.
pub type PairPriorityQueue = PriorityQueue<(u128, u128), (bool, u64, u64), RandomState>;

/// What the queue holds: each item at most once, with its priority.
pub uninterp spec fn queue_entries(q: PairPriorityQueue) -> Map<(u128, u128), (bool, u64, u64)>;

/// What `peek` shows for a given queue value: the couple at the root of its
/// heap, or `None` when it is empty. Named so that two peeks of one
/// unchanged queue are provably the same; the root is a pure read of the
/// queue's layout, so the same value always yields the same couple.
pub uninterp spec fn queue_top(q: PairPriorityQueue) -> Option<((u128, u128), (bool, u64, u64))>;

/// Relies on `PriorityQueue::new`: creates an empty queue.
#[verifier::external_body]
pub fn queue_new() -> (r: PairPriorityQueue)
    ensures
        queue_entries(r).dom() == Set::<(u128, u128)>::empty(),
{
    PriorityQueue::new()
}

/// Relies on `PriorityQueue::push`: inserts the item with the priority, or
/// replaces and returns the priority of an item already present.
#[verifier::external_body]
pub fn queue_push(q: &mut PairPriorityQueue, item: (u128, u128), prio: (bool, u64, u64)) -> (r:
    Option<(bool, u64, u64)>)
    ensures
        queue_entries(*final(q)) == queue_entries(*old(q)).insert(item, prio),
        match r {
            Some(p) => queue_entries(*old(q)).contains_pair(item, p),
            None => !queue_entries(*old(q)).dom().contains(item),
        },
{
    q.push(item, prio)
}

/// Relies on `PriorityQueue::change_priority`: sets the priority of an item
/// already present and returns the old one; a missing item is left alone.
#[verifier::external_body]
pub fn queue_change_priority(
    q: &mut PairPriorityQueue,
    item: (u128, u128),
    prio: (bool, u64, u64),
) -> (r: Option<(bool, u64, u64)>)
    ensures
        match r {
            Some(p) => queue_entries(*old(q)).contains_pair(item, p) && queue_entries(*final(q))
                == queue_entries(*old(q)).insert(item, prio),
            None => !queue_entries(*old(q)).dom().contains(item) && queue_entries(*final(q))
                == queue_entries(*old(q)),
        },
{
    q.change_priority(&item, prio)
}

/// Relies on `PriorityQueue::remove`: removes the item and returns it with
/// its priority; a missing item is left alone.
#[verifier::external_body]
pub fn queue_remove(q: &mut PairPriorityQueue, item: (u128, u128)) -> (r: Option<
    ((u128, u128), (bool, u64, u64)),
>)
    ensures
        match r {
            Some(p) => p.0 == item && queue_entries(*old(q)).contains_pair(item, p.1)
                && queue_entries(*final(q)) == queue_entries(*old(q)).remove(item),
            None => !queue_entries(*old(q)).dom().contains(item) && queue_entries(*final(q))
                == queue_entries(*old(q)),
        },
{
    q.remove(&item)
}

/// Relies on `PriorityQueue::peek`: returns the heap root — an item whose
/// priority is greatest under the tuple order — or `None` only when the
/// queue is empty. Which of several items with equal greatest priority
/// stands at the root is not promised, but it is a function of the queue
/// value, named by [`queue_top`].
#[verifier::external_body]
pub fn queue_peek(q: &PairPriorityQueue) -> (r: Option<((u128, u128), (bool, u64, u64))>)
    ensures
        r == queue_top(*q),
        match r {
            Some(p) => queue_entries(*q).contains_pair(p.0, p.1) && forall|j: (u128, u128)|
                #[trigger] queue_entries(*q).dom().contains(j) ==> tup_le(
                    queue_entries(*q)[j],
                    p.1,
                ),
            None => queue_entries(*q) == Map::<(u128, u128), (bool, u64, u64)>::empty(),
        },
{
    q.peek().map(|ip| (*ip.0, *ip.1))
}

} // verus!
