//! The bounded queues in which a pool keeps its buffers and the endpoints
//! that are at work: `crossbeam`'s `ArrayQueue`, one for each kind of item.
//!
//! Nothing here is proved. Each function makes one call, through an
//! exclusive reference, and its contract says what that call does to the
//! items that the queue holds: they leave in the order in which they came,
//! and a queue never holds more than the limit it was made with.

use crate::pool::OutBuffer;
use crate::tachyon::Tachyon;
use crossbeam::queue::ArrayQueue;
use std::collections::VecDeque;
use vstd::prelude::*;

verus! {

/// `crossbeam::queue::ArrayQueue`: a queue of fixed capacity; carried as is.
#[verifier::external_type_specification]
#[verifier::external_body]
#[verifier::reject_recursive_types(T)]
pub struct ExArrayQueue<T>(ArrayQueue<T>);

/// The receive buffers that a queue holds, the one that leaves next first.
pub uninterp spec fn held_buffers(queue: ArrayQueue<Vec<u8>>) -> Seq<Vec<u8>>;

/// The most receive buffers that a queue takes.
pub uninterp spec fn buffers_limit(queue: ArrayQueue<Vec<u8>>) -> nat;

/// `ArrayQueue::new`: an empty queue that takes up to `limit` receive buffers.
/// The call panics for a limit of zero, and for one so large that the next
/// power of two does not fit the machine's word.
#[verifier::external_body]
pub(crate) fn new_buffers(limit: usize) -> (r: ArrayQueue<Vec<u8>>)
    requires
        0 < limit < 0x8000_0000,
    ensures
        held_buffers(r) == Seq::<Vec<u8>>::empty(),
        buffers_limit(r) == limit,
{
    ArrayQueue::new(limit)
}

/// `ArrayQueue::push_mut`: puts a receive buffer at the back, unless the queue
/// is full, and says whether it did. What was held stays as it was.
#[verifier::external_body]
pub(crate) fn push_buffer(queue: &mut ArrayQueue<Vec<u8>>, item: Vec<u8>) -> (r: bool)
    ensures
        buffers_limit(*final(queue)) == buffers_limit(*old(queue)),
        r == (held_buffers(*old(queue)).len() < buffers_limit(*old(queue))),
        held_buffers(*final(queue)) == (if r {
            held_buffers(*old(queue)).push(item)
        } else {
            held_buffers(*old(queue))
        }),
{
    queue.push_mut(item).is_ok()
}

/// `ArrayQueue::pop_mut`: takes a receive buffer from the front, if the queue
/// holds any.
#[verifier::external_body]
pub(crate) fn pop_buffer(queue: &mut ArrayQueue<Vec<u8>>) -> (r: Option<Vec<u8>>)
    ensures
        buffers_limit(*final(queue)) == buffers_limit(*old(queue)),
        r == (if held_buffers(*old(queue)).len() > 0 {
            Some(held_buffers(*old(queue))[0])
        } else {
            None
        }),
        held_buffers(*final(queue)) == (if held_buffers(*old(queue)).len() > 0 {
            held_buffers(*old(queue)).skip(1)
        } else {
            held_buffers(*old(queue))
        }),
{
    queue.pop_mut()
}

/// The message queues that a queue holds, the one that leaves next first.
pub uninterp spec fn held_queues(queue: ArrayQueue<VecDeque<Vec<u8>>>) -> Seq<VecDeque<Vec<u8>>>;

/// The most message queues that a queue takes.
pub uninterp spec fn queues_limit(queue: ArrayQueue<VecDeque<Vec<u8>>>) -> nat;

/// `ArrayQueue::new`: an empty queue that takes up to `limit` message queues.
/// The call panics for a limit of zero, and for one so large that the next
/// power of two does not fit the machine's word.
#[verifier::external_body]
pub(crate) fn new_queues(limit: usize) -> (r: ArrayQueue<VecDeque<Vec<u8>>>)
    requires
        0 < limit < 0x8000_0000,
    ensures
        held_queues(r) == Seq::<VecDeque<Vec<u8>>>::empty(),
        queues_limit(r) == limit,
{
    ArrayQueue::new(limit)
}

/// `ArrayQueue::push_mut`: puts a message queue at the back, unless the queue
/// is full, and says whether it did. What was held stays as it was.
#[verifier::external_body]
pub(crate) fn push_queue(
    queue: &mut ArrayQueue<VecDeque<Vec<u8>>>,
    item: VecDeque<Vec<u8>>,
) -> (r: bool)
    ensures
        queues_limit(*final(queue)) == queues_limit(*old(queue)),
        r == (held_queues(*old(queue)).len() < queues_limit(*old(queue))),
        held_queues(*final(queue)) == (if r {
            held_queues(*old(queue)).push(item)
        } else {
            held_queues(*old(queue))
        }),
{
    queue.push_mut(item).is_ok()
}

/// `ArrayQueue::pop_mut`: takes a message queue from the front, if the queue
/// holds any.
#[verifier::external_body]
pub(crate) fn pop_queue(queue: &mut ArrayQueue<VecDeque<Vec<u8>>>) -> (r: Option<VecDeque<Vec<u8>>>)
    ensures
        queues_limit(*final(queue)) == queues_limit(*old(queue)),
        r == (if held_queues(*old(queue)).len() > 0 {
            Some(held_queues(*old(queue))[0])
        } else {
            None
        }),
        held_queues(*final(queue)) == (if held_queues(*old(queue)).len() > 0 {
            held_queues(*old(queue)).skip(1)
        } else {
            held_queues(*old(queue))
        }),
{
    queue.pop_mut()
}

/// `ArrayQueue::len`: how many message queues the queue holds.
#[verifier::external_body]
pub(crate) fn count_queues(queue: &ArrayQueue<VecDeque<Vec<u8>>>) -> (r: usize)
    ensures
        r == held_queues(*queue).len(),
{
    queue.len()
}

/// The out buffers that a queue holds, the one that leaves next first.
pub uninterp spec fn held_streams(queue: ArrayQueue<OutBuffer>) -> Seq<OutBuffer>;

/// The most out buffers that a queue takes.
pub uninterp spec fn streams_limit(queue: ArrayQueue<OutBuffer>) -> nat;

/// `ArrayQueue::new`: an empty queue that takes up to `limit` out buffers. The
/// call panics for a limit of zero, and for one so large that the next power
/// of two does not fit the machine's word.
#[verifier::external_body]
pub(crate) fn new_streams(limit: usize) -> (r: ArrayQueue<OutBuffer>)
    requires
        0 < limit < 0x8000_0000,
    ensures
        held_streams(r) == Seq::<OutBuffer>::empty(),
        streams_limit(r) == limit,
{
    ArrayQueue::new(limit)
}

/// `ArrayQueue::push_mut`: puts an out buffer at the back, unless the queue is
/// full, and says whether it did. What was held stays as it was.
#[verifier::external_body]
pub(crate) fn push_stream(queue: &mut ArrayQueue<OutBuffer>, item: OutBuffer) -> (r: bool)
    ensures
        streams_limit(*final(queue)) == streams_limit(*old(queue)),
        r == (held_streams(*old(queue)).len() < streams_limit(*old(queue))),
        held_streams(*final(queue)) == (if r {
            held_streams(*old(queue)).push(item)
        } else {
            held_streams(*old(queue))
        }),
{
    queue.push_mut(item).is_ok()
}

/// `ArrayQueue::pop_mut`: takes an out buffer from the front, if the queue
/// holds any.
#[verifier::external_body]
pub(crate) fn pop_stream(queue: &mut ArrayQueue<OutBuffer>) -> (r: Option<OutBuffer>)
    ensures
        streams_limit(*final(queue)) == streams_limit(*old(queue)),
        r == (if held_streams(*old(queue)).len() > 0 {
            Some(held_streams(*old(queue))[0])
        } else {
            None
        }),
        held_streams(*final(queue)) == (if held_streams(*old(queue)).len() > 0 {
            held_streams(*old(queue)).skip(1)
        } else {
            held_streams(*old(queue))
        }),
{
    queue.pop_mut()
}

/// `ArrayQueue::len`: how many out buffers the queue holds.
#[verifier::external_body]
pub(crate) fn count_streams(queue: &ArrayQueue<OutBuffer>) -> (r: usize)
    ensures
        r == held_streams(*queue).len(),
{
    queue.len()
}

/// The endpoints that a queue holds, the one that leaves next first.
pub uninterp spec fn held_endpoints(queue: ArrayQueue<Tachyon>) -> Seq<Tachyon>;

/// The most endpoints that a queue takes.
pub uninterp spec fn endpoints_limit(queue: ArrayQueue<Tachyon>) -> nat;

/// `ArrayQueue::new`: an empty queue that takes up to `limit` endpoints. The
/// call panics for a limit of zero, and for one so large that the next power
/// of two does not fit the machine's word.
#[verifier::external_body]
pub(crate) fn new_endpoints(limit: usize) -> (r: ArrayQueue<Tachyon>)
    requires
        0 < limit < 0x8000_0000,
    ensures
        held_endpoints(r) == Seq::<Tachyon>::empty(),
        endpoints_limit(r) == limit,
{
    ArrayQueue::new(limit)
}

/// `ArrayQueue::push_mut`: puts an endpoint at the back, unless the queue is
/// full, and says whether it did. What was held stays as it was.
#[verifier::external_body]
pub(crate) fn push_endpoint(queue: &mut ArrayQueue<Tachyon>, item: Tachyon) -> (r: bool)
    ensures
        endpoints_limit(*final(queue)) == endpoints_limit(*old(queue)),
        r == (held_endpoints(*old(queue)).len() < endpoints_limit(*old(queue))),
        held_endpoints(*final(queue)) == (if r {
            held_endpoints(*old(queue)).push(item)
        } else {
            held_endpoints(*old(queue))
        }),
{
    queue.push_mut(item).is_ok()
}

/// `ArrayQueue::pop_mut`: takes an endpoint from the front, if the queue holds
/// any.
#[verifier::external_body]
pub(crate) fn pop_endpoint(queue: &mut ArrayQueue<Tachyon>) -> (r: Option<Tachyon>)
    ensures
        endpoints_limit(*final(queue)) == endpoints_limit(*old(queue)),
        r == (if held_endpoints(*old(queue)).len() > 0 {
            Some(held_endpoints(*old(queue))[0])
        } else {
            None
        }),
        held_endpoints(*final(queue)) == (if held_endpoints(*old(queue)).len() > 0 {
            held_endpoints(*old(queue)).skip(1)
        } else {
            held_endpoints(*old(queue))
        }),
{
    queue.pop_mut()
}

/// `ArrayQueue::len`: how many endpoints the queue holds.
#[verifier::external_body]
pub(crate) fn count_endpoints(queue: &ArrayQueue<Tachyon>) -> (r: usize)
    ensures
        r == held_endpoints(*queue).len(),
{
    queue.len()
}

} // verus!
