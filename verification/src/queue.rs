//! The priority queue of the `priority-queue` crate, as the Huffman builder uses it:
//! items are node numbers, priorities are frequencies wrapped in `Reverse`, so the
//! item with the smallest frequency comes out first.
use priority_queue::PriorityQueue;
use std::cmp::Reverse;
use vstd::prelude::*;

verus! {

/// `priority_queue::PriorityQueue`, made known to Verus as an opaque type: what a queue
/// holds is told by `queue_entries` alone.
#[verifier::external_type_specification]
#[verifier::external_body]
#[verifier::reject_recursive_types(I)]
#[verifier::reject_recursive_types(P)]
#[verifier::reject_recursive_types(H)]
pub struct ExPriorityQueue<I, P, H>(PriorityQueue<I, P, H>);

/// `std::cmp::Reverse`, which turns the queue's order around, made known to Verus as an
/// opaque type.
#[verifier::external_type_specification]
#[verifier::external_body]
#[verifier::reject_recursive_types(T)]
pub struct ExReverse<T>(Reverse<T>);

/// What a queue holds: each item, mapped to the frequency inside its `Reverse` priority.
/// A `PriorityQueue` holds each item at most once, so a map describes it fully.
pub uninterp spec fn queue_entries(q: PriorityQueue<usize, Reverse<u32>>) -> Map<usize, u32>;

/// Calls `PriorityQueue::new`: the new queue holds nothing.
#[verifier::external_body]
pub(crate) fn queue_new() -> (fresh: PriorityQueue<usize, Reverse<u32>>)
    ensures
        queue_entries(fresh).is_empty(),
        queue_entries(fresh).dom().finite(),
{
    PriorityQueue::new()
}

/// Calls `PriorityQueue::len`: the number of items held.
#[verifier::external_body]
pub(crate) fn queue_len(q: &PriorityQueue<usize, Reverse<u32>>) -> (n: usize)
    ensures
        n == queue_entries(*q).dom().len(),
{
    q.len()
}

/// Calls `PriorityQueue::push` with the priority `Reverse(freq)`. As its documentation
/// says, an item already held gets the new priority and its old one is returned;
/// otherwise the item is added and `None` is returned.
#[verifier::external_body]
pub(crate) fn queue_push(q: &mut PriorityQueue<usize, Reverse<u32>>, item: usize, freq: u32) -> (prev: Option<u32>)
    ensures
        queue_entries(*final(q)) == queue_entries(*old(q)).insert(item, freq),
        prev is None <==> !queue_entries(*old(q)).contains_key(item),
        prev matches Some(p) ==> p == queue_entries(*old(q))[item],
{
    match q.push(item, Reverse(freq)) {
        Some(Reverse(p)) => Some(p),
        None => None,
    }
}

/// Calls `PriorityQueue::pop`, which removes and returns an item of greatest priority,
/// here one of smallest frequency. Which of several items with that frequency comes
/// out is left open; an empty queue gives `None` and stays empty.
#[verifier::external_body]
pub(crate) fn queue_pop(q: &mut PriorityQueue<usize, Reverse<u32>>) -> (popped: Option<(usize, u32)>)
    ensures
        popped is None ==> queue_entries(*old(q)).is_empty() && queue_entries(*final(q)) == queue_entries(*old(q)),
        popped matches Some(e) ==> {
            &&& queue_entries(*old(q)).contains_key(e.0)
            &&& queue_entries(*old(q))[e.0] == e.1
            &&& queue_entries(*final(q)) == queue_entries(*old(q)).remove(e.0)
            &&& forall|j: usize| #[trigger] queue_entries(*old(q)).contains_key(j) ==> e.1 <= queue_entries(*old(q))[j]
        },
{
    match q.pop() {
        Some((item, Reverse(freq))) => Some((item, freq)),
        None => None,
    }
}

} // verus!
