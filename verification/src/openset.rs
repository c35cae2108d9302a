//! The pathfinder's open set: a keyed max-priority queue from the
//! `priority_queue` crate, seen by the verifier through a trusted view.
//!
//! An open-set entry is the plain tuple
//! `(cell x, cell y, point x, point y, parent index)`; the priority is a
//! `u64`.  The queue behaves as a map from entries to priorities: pushing
//! an entry that is already present replaces its priority, and popping
//! removes and returns an entry of greatest priority.  `open_view` names
//! that map; nothing else is assumed about the queue.

use vstd::prelude::*;

verus! {

/// An open-set entry: grid cell offsets from the search origin, the
/// fixed-point world point of that cell, and the index of the parent
/// entry in the closed list.
pub type OpenItem = (i64, i64, i64, i64, u64);

/// The concrete queue type used by the pathfinder.
pub type OpenQueue = priority_queue::PriorityQueue<
    OpenItem,
    u64,
    std::collections::hash_map::RandomState,
>;

#[verifier::external_type_specification]
#[verifier::external_body]
#[verifier::reject_recursive_types(I)]
#[verifier::reject_recursive_types(P)]
#[verifier::reject_recursive_types(H)]
pub struct ExPriorityQueue<I, P, H>(priority_queue::PriorityQueue<I, P, H>);

/// The entries a queue holds, with their priorities.
pub uninterp spec fn open_view(q: OpenQueue) -> Map<OpenItem, u64>;

/// Relies on `PriorityQueue::new`: a freshly created queue is empty.
#[verifier::external_body]
pub fn open_new() -> (q: OpenQueue)
    ensures
        forall|it: OpenItem| !open_view(q).dom().contains(it),
{
    priority_queue::PriorityQueue::new()
}

/// Relies on `PriorityQueue::push`: inserts the pair, or replaces the
/// priority of an entry already present.
#[verifier::external_body]
pub fn open_push(q: &mut OpenQueue, item: OpenItem, prio: u64)
    ensures
        open_view(*final(q)) == open_view(*old(q)).insert(item, prio),
{
    q.push(item, prio);
}

/// Relies on `PriorityQueue::pop`: removes and returns a pair of greatest
/// priority, or `None` exactly when the queue is empty.
#[verifier::external_body]
pub fn open_pop(q: &mut OpenQueue) -> (r: Option<(OpenItem, u64)>)
    ensures
        r is None <==> (forall|it: OpenItem| !open_view(*old(q)).dom().contains(it)),
        r is None ==> open_view(*final(q)) == open_view(*old(q)),
        r matches Some((item, prio)) ==> {
            &&& open_view(*old(q)).contains_pair(item, prio)
            &&& open_view(*final(q)) == open_view(*old(q)).remove(item)
            &&& forall|other: OpenItem|
                open_view(*old(q)).dom().contains(other) ==> #[trigger] open_view(*old(q))[other]
                    <= prio
        },
{
    q.pop()
}

} // verus!
