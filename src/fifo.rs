//! The work queue of the reachability search: `queues::Queue` of node indices.
use queues::IsQueue;
use vstd::prelude::*;

verus! {

#[verifier::external_type_specification]
#[verifier::external_body]
#[verifier::reject_recursive_types(T)]
pub struct ExQueue<T: Clone>(queues::Queue<T>);

/// The items that a queue holds, oldest first.
pub uninterp spec fn queue_items(q: queues::Queue<usize>) -> Seq<usize>;

/// Relies on `queues::Queue::new`: the queue starts out empty.
#[verifier::external_body]
pub(crate) fn queue_new() -> (r: queues::Queue<usize>)
    ensures
        queue_items(r) == Seq::<usize>::empty(),
{
    queues::Queue::new()
}

/// Relies on `IsQueue::add` of `queues::Queue`: the value goes to the back,
/// and the call always succeeds.
#[verifier::external_body]
pub(crate) fn queue_add(q: &mut queues::Queue<usize>, v: usize)
    ensures
        queue_items(*final(q)) == queue_items(*old(q)).push(v),
{
    let _ = q.add(v);
}

/// Relies on `IsQueue::remove` of `queues::Queue`: the oldest value leaves
/// the queue, and an empty queue gives an error and stays as it is.
#[verifier::external_body]
pub(crate) fn queue_remove(q: &mut queues::Queue<usize>) -> (r: Option<usize>)
    ensures
        queue_items(*old(q)).len() == 0 ==> r is None && queue_items(*final(q)) == queue_items(*old(q)),
        queue_items(*old(q)).len() > 0 ==> r == Some(queue_items(*old(q))[0])
            && queue_items(*final(q)) == queue_items(*old(q)).drop_first(),
{
    q.remove().ok()
}

} // verus!
