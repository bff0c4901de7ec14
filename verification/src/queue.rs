//! The primary queue: a priority queue from the `priority_queue` crate,
//! keyed by card identity and ordered by next-attempt time.
//!
//! `priority_queue::PriorityQueue` hands out its greatest priority first, so
//! the queue is used with `core::cmp::Reverse` around the time: the front of
//! the queue is the entry with the earliest time. The queue itself is
//! outside code; everything the engine relies on is stated here, over two
//! names: `pq_times`, the contents as a map from identity to time, and
//! `pq_front`, the entry its front currently shows.

use vstd::prelude::*;

use core::cmp::Reverse;
use priority_queue::PriorityQueue;

verus! {

#[verifier::external_type_specification]
#[verifier::external_body]
#[verifier::reject_recursive_types(T)]
pub struct ExReverse<T>(Reverse<T>);

#[verifier::external_type_specification]
#[verifier::external_body]
#[verifier::reject_recursive_types(I)]
#[verifier::reject_recursive_types(P)]
#[verifier::reject_recursive_types(H)]
pub struct ExPriorityQueue<I, P, H>(PriorityQueue<I, P, H>);

/// A time-ordered queue of card identities: the concrete type the engine
/// keeps its primary queue in.
pub type TimeQueue = PriorityQueue<String, Reverse<u64>>;

/// The contents of a time-ordered queue: which identities it holds, and the
/// time each one is held at.
pub uninterp spec fn pq_times(q: TimeQueue) -> Map<Seq<char>, u64>;

/// The entry at the front of a time-ordered queue. The front is a function
/// of the queue value: as long as the queue is not touched, every look at
/// the front shows the same entry.
pub uninterp spec fn pq_front(q: TimeQueue) -> Option<(Seq<char>, u64)>;

/// Relies on `priority_queue::PriorityQueue::new`: creates an empty queue.
#[verifier::external_body]
pub(crate) fn pq_new() -> (r: TimeQueue)
    ensures
        (pq_times(r) == Map::<Seq<char>, u64>::empty()),
{
    PriorityQueue::new()
}

/// Relies on `priority_queue::PriorityQueue::push`: inserts the item with
/// the given priority; if the item is already in the queue, only its
/// priority is updated, and the old priority is returned.
#[verifier::external_body]
pub(crate) fn pq_push(q: &mut TimeQueue, uuid: String, time: u64) -> (prev: Option<u64>)
    ensures
        pq_times(*final(q)) == pq_times(*old(q)).insert(uuid@, time),
        prev is Some <==> pq_times(*old(q)).dom().contains(uuid@),
        (prev matches Some(p) ==> pq_times(*old(q)).contains_pair(uuid@, p)),
{
    q.push(uuid, Reverse(time)).map(|p| p.0)
}

/// Relies on `priority_queue::PriorityQueue::peek`: returns the entry with
/// the greatest priority — here, the earliest time — or `None` on an empty
/// queue. Ties are broken by the queue's internal heap layout; whichever
/// entry wins is the queue's front, and it stays the front until the queue
/// is changed.
#[verifier::external_body]
pub(crate) fn pq_peek(q: &TimeQueue) -> (r: Option<(String, u64)>)
    ensures
        match r {
            None => {
                &&& pq_times(*q) == Map::<Seq<char>, u64>::empty()
                &&& pq_front(*q) == None::<(Seq<char>, u64)>
            },
            Some((uuid, time)) => {
                &&& pq_front(*q) == Some((uuid@, time))
                &&& pq_times(*q).contains_pair(uuid@, time)
                &&& forall|other: Seq<char>|
                    pq_times(*q).dom().contains(other) ==> time <= pq_times(*q)[other]
            },
        },
{
    q.peek().map(|(u, p)| (u.clone(), p.0))
}

/// Relies on `priority_queue::PriorityQueue::pop`: removes and returns the
/// entry with the greatest priority — the queue's front, the same entry a
/// peek on the untouched queue shows — or `None` on an empty queue.
#[verifier::external_body]
pub(crate) fn pq_pop(q: &mut TimeQueue) -> (r: Option<(String, u64)>)
    ensures
        match r {
            None => {
                &&& pq_times(*old(q)) == Map::<Seq<char>, u64>::empty()
                &&& pq_front(*old(q)) == None::<(Seq<char>, u64)>
                &&& pq_times(*final(q)) == pq_times(*old(q))
            },
            Some((uuid, time)) => {
                &&& pq_front(*old(q)) == Some((uuid@, time))
                &&& pq_times(*old(q)).contains_pair(uuid@, time)
                &&& forall|other: Seq<char>|
                    pq_times(*old(q)).dom().contains(other) ==> time <= pq_times(*old(q))[other]
                &&& pq_times(*final(q)) == pq_times(*old(q)).remove(uuid@)
            },
        },
{
    q.pop().map(|(u, p)| (u, p.0))
}

/// Relies on `priority_queue::PriorityQueue::change_priority`: if the item
/// is in the queue, swaps in the new priority and returns the old one;
/// otherwise the queue is untouched and `None` comes back.
#[verifier::external_body]
pub(crate) fn pq_change_priority(q: &mut TimeQueue, uuid: &String, time: u64) -> (prev: Option<
    u64,
>)
    ensures
        match prev {
            None => {
                &&& !pq_times(*old(q)).dom().contains(uuid@)
                &&& pq_times(*final(q)) == pq_times(*old(q))
            },
            Some(p) => {
                &&& pq_times(*old(q)).contains_pair(uuid@, p)
                &&& pq_times(*final(q)) == pq_times(*old(q)).insert(uuid@, time)
            },
        },
{
    q.change_priority(uuid, Reverse(time)).map(|p| p.0)
}

/// Relies on `priority_queue::PriorityQueue::remove`: removes the item from
/// anywhere in the queue, returning its entry, or `None` if it was not
/// there.
#[verifier::external_body]
pub(crate) fn pq_remove(q: &mut TimeQueue, uuid: &String) -> (r: Option<(String, u64)>)
    ensures
        match r {
            None => {
                &&& !pq_times(*old(q)).dom().contains(uuid@)
                &&& pq_times(*final(q)) == pq_times(*old(q))
            },
            Some((ruuid, time)) => {
                &&& ruuid@ == uuid@
                &&& pq_times(*old(q)).contains_pair(uuid@, time)
                &&& pq_times(*final(q)) == pq_times(*old(q)).remove(uuid@)
            },
        },
{
    q.remove(uuid).map(|(u, p)| (u, p.0))
}

} // verus!
