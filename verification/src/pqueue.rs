//! The trusted surface of the outside min-priority queue that the tree
//! builder merges nodes through. Items are arena indices, priorities are
//! combined frequencies; the queue's contents are modelled as a multiset
//! of (index, priority) pairs.

use vstd::multiset::Multiset;
use vstd::prelude::*;

use priority_queue::DoublePriorityQueue;

verus! {

#[verifier::external_type_specification]
#[verifier::external_body]
#[verifier::reject_recursive_types(I)]
#[verifier::reject_recursive_types(P)]
#[verifier::reject_recursive_types(H)]
pub struct ExDoublePriorityQueue<I, P, H>(DoublePriorityQueue<I, P, H>);

/// The (item, priority) pairs the queue holds, with no order among them.
pub uninterp spec fn dpq_contents(q: DoublePriorityQueue<u64, u64>) -> Multiset<(u64, u64)>;

/// Relies on DoublePriorityQueue::new: a freshly created queue is empty.
#[verifier::external_body]
pub(crate) fn dpq_new() -> (q: DoublePriorityQueue<u64, u64>)
    ensures
        dpq_contents(q) == Multiset::<(u64, u64)>::empty(),
{
    DoublePriorityQueue::new()
}

/// Relies on DoublePriorityQueue::push: an item not yet present is
/// inserted with the given priority. (Pushing an item already present
/// would only update its priority, so that case is kept out.)
#[verifier::external_body]
pub(crate) fn dpq_push(q: &mut DoublePriorityQueue<u64, u64>, item: u64, priority: u64)
    requires
        forall|p: u64| !dpq_contents(*old(q)).contains((item, p)),
    ensures
        dpq_contents(*final(q)) == dpq_contents(*old(q)).insert((item, priority)),
{
    q.push(item, priority);
}

/// Relies on DoublePriorityQueue::pop_min: removes and returns some pair
/// holding the lowest priority in the queue, or nothing when the queue
/// is empty. Which of several equal-priority pairs leaves is not pinned.
#[verifier::external_body]
pub(crate) fn dpq_pop_min(q: &mut DoublePriorityQueue<u64, u64>) -> (r: Option<(u64, u64)>)
    ensures
        match r {
            Some(pair) => dpq_contents(*old(q)).contains(pair) && dpq_contents(*final(q))
                == dpq_contents(*old(q)).remove(pair) && (forall|other: (u64, u64)|
                dpq_contents(*old(q)).contains(other) ==> pair.1 <= other.1),
            None => dpq_contents(*old(q)).len() == 0 && dpq_contents(*final(q)) == dpq_contents(
                *old(q),
            ),
        },
{
    q.pop_min()
}

/// Relies on DoublePriorityQueue::len: how many items the queue holds.
#[verifier::external_body]
pub(crate) fn dpq_len(q: &DoublePriorityQueue<u64, u64>) -> (r: usize)
    ensures
        r == dpq_contents(*q).len(),
{
    q.len()
}

} // verus!
