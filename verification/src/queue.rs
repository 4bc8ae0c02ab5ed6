//! The two orderings of a cache are priority queues of the `priority_queue`
//! crate. An item is the number of a slot of the cache; it is filed under a
//! time, and the queue hands out the item with the smallest time first.
//!
//! Nothing in this file is proved: each function states what the crate's
//! queue does, and the rest of the library is verified against that.

use priority_queue::PriorityQueue;
use std::cmp::Reverse;
use std::collections::hash_map::RandomState;
use vstd::prelude::*;

verus! {

/// `priority_queue::PriorityQueue`, of which the verifier sees nothing but
/// what the functions below state.
#[verifier::external_type_specification]
#[verifier::external_body]
#[verifier::reject_recursive_types(I)]
#[verifier::reject_recursive_types(P)]
#[verifier::reject_recursive_types(H)]
pub struct ExPriorityQueue<I, P, H>(PriorityQueue<I, P, H>);

/// `std::cmp::Reverse`, the priority type that turns the queue's order
/// around; it is carried through and never looked into.
#[verifier::external_type_specification]
#[verifier::external_body]
#[verifier::reject_recursive_types(T)]
pub struct ExReverse<T>(Reverse<T>);

/// A queue of slot numbers, smallest time first.
pub type TimeQueue = PriorityQueue<usize, Reverse<u64>, RandomState>;

/// What a queue holds: the items in it, each with the time it is filed under.
pub uninterp spec fn queue_times(queue: PriorityQueue<usize, Reverse<u64>, RandomState>) -> Map<usize, u64>;

/// `PriorityQueue::new`: the queue it returns holds no item.
#[verifier::external_body]
pub(crate) fn queue_new() -> (fresh: TimeQueue)
    ensures
        queue_times(fresh).dom() == Set::<usize>::empty(),
{
    PriorityQueue::new()
}

/// `PriorityQueue::push`: afterwards `item` is in the queue under `time`,
/// whether or not it was there before; every other item is as it was.
#[verifier::external_body]
pub(crate) fn queue_push(
    queue: &mut TimeQueue,
    item: usize,
    time: u64,
)
    ensures
        queue_times(*final(queue)) == queue_times(*old(queue)).insert(item, time),
{
    queue.push(item, Reverse(time));
}

/// `PriorityQueue::change_priority`: an item that is in the queue is filed
/// under `time` instead; a queue without the item is left as it is.
#[verifier::external_body]
pub(crate) fn queue_change_time(
    queue: &mut TimeQueue,
    item: usize,
    time: u64,
)
    ensures
        queue_times(*final(queue)) == if queue_times(*old(queue)).contains_key(item) {
            queue_times(*old(queue)).insert(item, time)
        } else {
            queue_times(*old(queue))
        },
{
    queue.change_priority(&item, Reverse(time));
}

/// `PriorityQueue::pop`: an empty queue gives `None` and stays empty. Any
/// other queue gives up one of its items together with its time; no item of
/// the queue has a smaller time (the queue orders by `Reverse`, so its greatest
/// priority is the smallest time), and which of several items with that time
/// leaves is not said. The other items stay as they were.
#[verifier::external_body]
pub(crate) fn queue_pop(queue: &mut TimeQueue) -> (popped:
    Option<(usize, u64)>)
    ensures
        match popped {
            Some((item, time)) => {
                &&& queue_times(*old(queue)).contains_key(item)
                &&& queue_times(*old(queue))[item] == time
                &&& forall|other: usize| #[trigger]
                    queue_times(*old(queue)).contains_key(other) ==> time <= queue_times(
                        *old(queue),
                    )[other]
                &&& queue_times(*final(queue)) == queue_times(*old(queue)).remove(item)
            },
            None => {
                &&& forall|other: usize| !(#[trigger] queue_times(*old(queue)).contains_key(other))
                &&& queue_times(*final(queue)) == queue_times(*old(queue))
            },
        },
{
    queue.pop().map(|(item, time)| (item, time.0))
}

/// `PriorityQueue::remove`: afterwards `item` is not in the queue; every
/// other item is as it was.
#[verifier::external_body]
pub(crate) fn queue_remove(queue: &mut TimeQueue, item: usize)
    ensures
        queue_times(*final(queue)) == queue_times(*old(queue)).remove(item),
{
    queue.remove(&item);
}

} // verus!
