//! A pool of server endpoints that are received from together, and the
//! streams of length-prefixed records that carry what they received.
//!
//! The pool does its work one endpoint after the other. Each endpoint works
//! with a queue, a receive buffer and an out buffer of its own, taken from
//! the pool for the time and given back, so that the work on different
//! endpoints can also be handed to different workers.

use crate::bounded_queue::{
    buffers_limit, count_endpoints, count_queues, count_streams, endpoints_limit, held_buffers,
    held_endpoints, held_queues, held_streams, new_buffers, new_endpoints, new_queues,
    new_streams, pop_buffer, pop_endpoint, pop_queue, pop_stream, push_buffer, push_endpoint,
    push_queue, push_stream, queues_limit, streams_limit,
};
use crate::connection::Connection;
use crate::fx_map::{
    map_clear, map_contains, map_get, map_get_mut, map_insert, map_keys, map_len, map_new,
    map_remove,
};
use crate::int_buffer::{
    copy_bytes, lemma_record_written, record_bytes, splice, u32_at, LengthPrefixed,
};
use crate::network_address::{address_key, NetworkAddress};
use crate::send_result::{TachyonSendError, TachyonSendSuccess};
pub use crate::tachyon::SendTarget;
use crate::tachyon::{Tachyon, TachyonConfig, RECEIVE_LOOP_BUDGET};
use crate::tachyon_receive_result::{
    TachyonReceiveError, TachyonReceiveSuccess, TachyonReceiveType,
};
use crossbeam::queue::ArrayQueue;
use rustc_hash::FxHashMap;
use std::collections::VecDeque;
use vstd::prelude::*;

verus! {

/// How many messages are taken from one endpoint in one go.
pub const DRAIN_BUDGET: u32 = 100000;

#[derive(Clone, Copy, Debug, PartialEq, Eq, Structural)]
pub struct PoolServerRef {
    pub address: NetworkAddress,
    pub id: u16,
}

impl Default for PoolServerRef {
    fn default() -> (r: Self)
        ensures
            r == (PoolServerRef {
                address: NetworkAddress { a: 0, b: 0, c: 0, d: 0, port: 0 },
                id: 0,
            }),
    {
        PoolServerRef { address: NetworkAddress::default(), id: 0 }
    }
}

#[derive(Clone, Copy, Debug, PartialEq, Eq, Structural)]
pub struct OutBufferCounts {
    pub bytes_written: u32,
    pub count: u32,
}

impl Default for OutBufferCounts {
    fn default() -> (r: Self)
        ensures
            r == (OutBufferCounts { bytes_written: 0, count: 0 }),
    {
        OutBufferCounts { bytes_written: 0, count: 0 }
    }
}

/// A stream of records: `count` of them in the first `bytes_written` bytes
/// of `data`.
pub struct OutBuffer {
    pub data: Vec<u8>,
    pub bytes_written: u32,
    pub count: u32,
}

/// From `s[at]` on lie `count` whole records, one behind the other, and
/// they end at `end`.
pub open spec fn holds_records(s: Seq<u8>, at: int, count: nat, end: int) -> bool
    decreases count,
{
    if count == 0 {
        at == end
    } else {
        &&& 0 <= at
        &&& at + 15 <= end
        &&& at + 15 + u32_at(s, at + 11) <= end
        &&& holds_records(s, at + 15 + u32_at(s, at + 11), (count - 1) as nat, end)
    }
}

/// Records that lie before `end` are not touched by what is written from
/// `end` on.
pub proof fn lemma_records_kept(s: Seq<u8>, t: Seq<u8>, at: int, count: nat, end: int)
    requires
        holds_records(s, at, count, end),
        0 <= at <= end <= s.len(),
        end <= t.len(),
        forall|i: int| 0 <= i < end ==> s[i] == t[i],
    ensures
        holds_records(t, at, count, end),
    decreases count,
{
    if count > 0 {
        lemma_records_kept(s, t, at + 15 + u32_at(s, at + 11), (count - 1) as nat, end);
    }
}

/// A stream that holds `count` records up to `end` holds one more once a
/// record has been written at `end`.
pub proof fn lemma_records_extended(s: Seq<u8>, at: int, count: nat, end: int, length: nat)
    requires
        holds_records(s, at, count, end),
        0 <= at <= end,
        end + 15 + length <= s.len(),
        u32_at(s, end + 11) == length,
    ensures
        holds_records(s, at, count + 1, end + 15 + length),
    decreases count,
{
    if count == 0 {
        assert(holds_records(s, end + 15 + length, 0, end + 15 + length));
    } else {
        lemma_records_extended(
            s,
            at + 15 + u32_at(s, at + 11),
            (count - 1) as nat,
            end,
            length,
        );
    }
}

/// Records are where they were in a copy of the bytes they lie in.
pub proof fn lemma_records_moved(s: Seq<u8>, t: Seq<u8>, at: int, count: nat, end: int)
    requires
        holds_records(s, at, count, end),
        0 <= at <= end <= s.len(),
        end <= t.len(),
        t.subrange(0, end) == s.subrange(0, end),
    ensures
        holds_records(t, at, count, end),
{
    assert forall|i: int| 0 <= i < end implies s[i] == t[i] by {
        assert(s.subrange(0, end)[i] == s[i]);
        assert(t.subrange(0, end)[i] == t[i]);
    }
    lemma_records_kept(s, t, at, count, end);
}

/// The messages of all queues, queue after queue.
pub open spec fn all_messages(queues: Seq<VecDeque<Vec<u8>>>) -> Seq<Vec<u8>>
    decreases queues.len(),
{
    if queues.len() == 0 {
        Seq::empty()
    } else {
        all_messages(queues.drop_last()) + queues.last()@
    }
}

/// A count as a 32-bit signed number, at most the largest there is.
pub open spec fn capped(n: nat) -> i32 {
    if n <= i32::MAX {
        n as i32
    } else {
        i32::MAX
    }
}

/// `post` is the endpoint `pre`, and `buffer_after` the receive buffer,
/// after the endpoint was asked once for a message and came back with
/// `r`.
#[verifier::opaque]
pub open spec fn asked_as(
    pre: Tachyon,
    post: Tachyon,
    buffer: Seq<u8>,
    buffer_after: Seq<u8>,
    r: Result<TachyonReceiveSuccess, TachyonReceiveError>,
) -> bool {
    pre.received_as(&post, buffer, buffer_after, RECEIVE_LOOP_BUDGET as nat, r)
}

/// The bytes of each message of a queue.
pub open spec fn bytes_of(messages: Seq<Vec<u8>>) -> Seq<Seq<u8>> {
    Seq::new(messages.len(), |i: int| messages[i]@)
}

/// `post` is the endpoint `pre`, and `buffer_after` the receive buffer,
/// after messages were received from it one after the other, and `handed`
/// are those messages.
///
/// The endpoint is asked until a receiving fails or comes back without a
/// message, and at most `budget` times for a message. Each message is the
/// front of the receive buffer as that receiving left it.
pub open spec fn emptied_as(
    pre: Tachyon,
    post: Tachyon,
    buffer: Seq<u8>,
    buffer_after: Seq<u8>,
    handed: Seq<Seq<u8>>,
    budget: nat,
) -> bool
    decreases budget,
{
    if budget == 0 {
        &&& post == pre
        &&& buffer_after == buffer
        &&& handed.len() == 0
    } else {
        exists|next: Tachyon, between: Seq<u8>, r: Result<TachyonReceiveSuccess, TachyonReceiveError>|
            {
                &&& #[trigger] asked_as(pre, next, buffer, between, r)
                &&& if r is Ok && r->Ok_0.length > 0 {
                    &&& handed.len() > 0
                    &&& handed[0] == between.subrange(0, r->Ok_0.length as int)
                    &&& emptied_as(
                        next,
                        post,
                        between,
                        buffer_after,
                        handed.skip(1),
                        (budget - 1) as nat,
                    )
                } else {
                    &&& post == next
                    &&& buffer_after == between
                    &&& handed.len() == 0
                }
            }
    }
}

/// The channel that a record names for a message: the message's channel,
/// or 0 for an unreliable message.
pub open spec fn record_channel(receive_type: TachyonReceiveType) -> u8 {
    match receive_type {
        TachyonReceiveType::Reliable { channel } => (channel % 256) as u8,
        TachyonReceiveType::Unreliable => 0,
    }
}

/// `post` is the endpoint `pre`, and `buffer_after` the receive buffer,
/// after messages were received from it one after the other, and `stream`
/// holds them as `count` records, one behind the other.
///
/// The endpoint is asked until a receiving fails, comes back without a
/// message, or comes back with one whose record takes more than the `room`
/// that is left, and at most `budget` times for a message. Each record
/// holds its message's channel, peer and bytes, which are the front of the
/// receive buffer as that receiving left it.
pub open spec fn streamed_as(
    pre: Tachyon,
    post: Tachyon,
    buffer: Seq<u8>,
    buffer_after: Seq<u8>,
    room: int,
    stream: Seq<u8>,
    count: nat,
    budget: nat,
) -> bool
    decreases budget,
{
    if budget == 0 {
        &&& post == pre
        &&& buffer_after == buffer
        &&& stream.len() == 0
        &&& count == 0
    } else {
        exists|next: Tachyon, between: Seq<u8>, r: Result<TachyonReceiveSuccess, TachyonReceiveError>|
            {
                &&& #[trigger] asked_as(pre, next, buffer, between, r)
                &&& if r is Ok && 0 < r->Ok_0.length && 15 + r->Ok_0.length <= room {
                    let record = record_bytes(
                        record_channel(r->Ok_0.receive_type),
                        r->Ok_0.address,
                        between.subrange(0, r->Ok_0.length as int),
                    );
                    &&& count > 0
                    &&& record.len() <= stream.len()
                    &&& stream.subrange(0, record.len() as int) == record
                    &&& streamed_as(
                        next,
                        post,
                        between,
                        buffer_after,
                        room - record.len(),
                        stream.skip(record.len() as int),
                        (count - 1) as nat,
                        (budget - 1) as nat,
                    )
                } else {
                    &&& post == next
                    &&& buffer_after == between
                    &&& stream.len() == 0
                    &&& count == 0
                }
            }
    }
}

/// `queues_after` and `buffers_after` are the receive queues and receive
/// buffers after the endpoint `server` took its turn with the first of
/// each, and `server_after` is that endpoint.
///
/// The first queue and the first buffer go to the back. The queue has got
/// the messages that were received from the endpoint, behind those it
/// held. Without a queue nothing happens; without a buffer the first queue
/// goes to the back as it is.
pub open spec fn queue_filled_as(
    queues: Seq<VecDeque<Vec<u8>>>,
    queues_after: Seq<VecDeque<Vec<u8>>>,
    buffers: Seq<Vec<u8>>,
    buffers_after: Seq<Vec<u8>>,
    server: Tachyon,
    server_after: Tachyon,
) -> bool {
    if queues.len() == 0 {
        &&& queues_after == queues
        &&& buffers_after == buffers
        &&& server_after == server
    } else if buffers.len() == 0 {
        &&& queues_after == queues.skip(1).push(queues[0])
        &&& buffers_after == buffers
        &&& server_after == server
    } else {
        &&& queues_after.len() == queues.len()
        &&& queues_after.drop_last() == queues.skip(1)
        &&& buffers_after.len() == buffers.len()
        &&& buffers_after.drop_last() == buffers.skip(1)
        &&& queues[0]@.len() <= queues_after.last()@.len()
        &&& queues_after.last()@.subrange(0, queues[0]@.len() as int) == queues[0]@
        &&& emptied_as(
            server,
            server_after,
            buffers[0]@,
            buffers_after.last()@,
            bytes_of(queues_after.last()@.skip(queues[0]@.len() as int)),
            DRAIN_BUDGET as nat,
        )
    }
}

/// `streams_after` and `buffers_after` are the out buffers and receive
/// buffers after the endpoint `server` took its turn with the first of
/// each, and `server_after` is that endpoint.
///
/// The first out buffer and the first receive buffer go to the back. The
/// out buffer holds, from its start, a record for each message that was
/// received from the endpoint; behind them its bytes are as they were.
/// Without an out buffer nothing happens; without a receive buffer the
/// first out buffer goes to the back with counts of zero.
pub open spec fn stream_filled_as(
    streams: Seq<OutBuffer>,
    streams_after: Seq<OutBuffer>,
    buffers: Seq<Vec<u8>>,
    buffers_after: Seq<Vec<u8>>,
    server: Tachyon,
    server_after: Tachyon,
) -> bool {
    if streams.len() == 0 {
        &&& streams_after == streams
        &&& buffers_after == buffers
        &&& server_after == server
    } else if buffers.len() == 0 {
        &&& streams_after == streams.skip(1).push(
            OutBuffer { bytes_written: 0, count: 0, ..streams[0] },
        )
        &&& buffers_after == buffers
        &&& server_after == server
    } else {
        let first = streams[0];
        let filled = streams_after.last();
        &&& streams_after.len() == streams.len()
        &&& streams_after.drop_last() == streams.skip(1)
        &&& buffers_after.len() == buffers.len()
        &&& buffers_after.drop_last() == buffers.skip(1)
        &&& filled.data@.len() == first.data@.len()
        &&& filled.bytes_written <= filled.data@.len()
        &&& filled.data@.skip(filled.bytes_written as int) == first.data@.skip(
            filled.bytes_written as int,
        )
        &&& streamed_as(
            server,
            server_after,
            buffers[0]@,
            buffers_after.last()@,
            first.data@.len() as int,
            filled.data@.subrange(0, filled.bytes_written as int),
            filled.count as nat,
            DRAIN_BUDGET as nat,
        )
    }
}

/// The endpoints `servers` once each of `in_use` has been filed under its
/// id, one after the other.
pub open spec fn filed(servers: Map<u16, Tachyon>, in_use: Seq<Tachyon>) -> Map<u16, Tachyon>
    decreases in_use.len(),
{
    if in_use.len() == 0 {
        servers
    } else {
        filed(servers, in_use.drop_last()).insert(in_use.last().id, in_use.last())
    }
}

/// A receiving that hands over a message, followed by more receivings,
/// hands over that message and then theirs.
pub proof fn lemma_emptied_more(
    pre: Tachyon,
    next: Tachyon,
    post: Tachyon,
    buffer: Seq<u8>,
    between: Seq<u8>,
    buffer_after: Seq<u8>,
    rest: Seq<Seq<u8>>,
    budget: nat,
    r: Result<TachyonReceiveSuccess, TachyonReceiveError>,
)
    requires
        asked_as(pre, next, buffer, between, r),
        r is Ok,
        r->Ok_0.length > 0,
        emptied_as(next, post, between, buffer_after, rest, budget),
    ensures
        emptied_as(
            pre,
            post,
            buffer,
            buffer_after,
            seq![between.subrange(0, r->Ok_0.length as int)] + rest,
            budget + 1,
        ),
{
    let longer = seq![between.subrange(0, r->Ok_0.length as int)] + rest;
    assert(longer[0] == between.subrange(0, r->Ok_0.length as int));
    assert(longer.skip(1) =~= rest);
}

/// A receiving that hands over nothing ends the taking of messages.
pub proof fn lemma_emptied_end(
    pre: Tachyon,
    next: Tachyon,
    buffer: Seq<u8>,
    between: Seq<u8>,
    budget: nat,
    r: Result<TachyonReceiveSuccess, TachyonReceiveError>,
)
    requires
        asked_as(pre, next, buffer, between, r),
        !(r is Ok && r->Ok_0.length > 0),
        budget > 0,
    ensures
        emptied_as(pre, next, buffer, between, Seq::empty(), budget),
{
}

/// A receiving that hands over a message whose record fits, followed by
/// more receivings, gives that record and then theirs.
pub proof fn lemma_streamed_more(
    pre: Tachyon,
    next: Tachyon,
    post: Tachyon,
    buffer: Seq<u8>,
    between: Seq<u8>,
    buffer_after: Seq<u8>,
    room: int,
    rest: Seq<u8>,
    count: nat,
    budget: nat,
    r: Result<TachyonReceiveSuccess, TachyonReceiveError>,
)
    requires
        asked_as(pre, next, buffer, between, r),
        r is Ok,
        0 < r->Ok_0.length,
        15 + r->Ok_0.length <= room,
        r->Ok_0.length <= between.len(),
        streamed_as(
            next,
            post,
            between,
            buffer_after,
            room - 15 - r->Ok_0.length,
            rest,
            count,
            budget,
        ),
    ensures
        streamed_as(
            pre,
            post,
            buffer,
            buffer_after,
            room,
            record_bytes(
                record_channel(r->Ok_0.receive_type),
                r->Ok_0.address,
                between.subrange(0, r->Ok_0.length as int),
            ) + rest,
            count + 1,
            budget + 1,
        ),
{
    let record = record_bytes(
        record_channel(r->Ok_0.receive_type),
        r->Ok_0.address,
        between.subrange(0, r->Ok_0.length as int),
    );
    let longer = record + rest;
    assert(record.len() == 15 + r->Ok_0.length);
    assert(longer.subrange(0, record.len() as int) =~= record);
    assert(longer.skip(record.len() as int) =~= rest);
}

/// A receiving that hands over nothing, or a message whose record does not
/// fit, ends the stream.
pub proof fn lemma_streamed_end(
    pre: Tachyon,
    next: Tachyon,
    buffer: Seq<u8>,
    between: Seq<u8>,
    room: int,
    budget: nat,
    r: Result<TachyonReceiveSuccess, TachyonReceiveError>,
)
    requires
        asked_as(pre, next, buffer, between, r),
        !(r is Ok && 0 < r->Ok_0.length && 15 + r->Ok_0.length <= room),
        budget > 0,
    ensures
        streamed_as(pre, next, buffer, between, room, Seq::empty(), 0, budget),
{
}

/// A stream that is not fetched: it holds no record, or more bytes than
/// there is `room` for.
pub open spec fn passed_over(stream: OutBuffer, room: int) -> bool {
    stream.count == 0 || stream.bytes_written > room
}

/// The endpoint `s` has under `k` a peer that is linked to the identity
/// `id`.
pub open spec fn peer_has_identity(servers: Map<u16, Tachyon>, s: u16, k: u128, id: u32) -> bool {
    &&& servers.contains_key(s)
    &&& servers[s].connections@.contains_key(k)
    &&& servers[s].connections@[k].identity.id == id
}

impl OutBuffer {
    /// The stream's bytes can be counted in 32 bits, its counts fit them,
    /// and its records lie in them one behind the other.
    pub open spec fn wf(&self) -> bool {
        &&& self.data@.len() <= u32::MAX
        &&& self.bytes_written <= self.data@.len()
        &&& holds_records(self.data@, 0, self.count as nat, self.bytes_written as int)
    }
}

pub struct Pool {
    pub next_id: u16,
    pub max_servers: u8,
    pub receive_buffer_len: u32,
    pub servers: FxHashMap<u16, Tachyon>,
    pub receive_queue: ArrayQueue<VecDeque<Vec<u8>>>,
    pub receive_buffers: ArrayQueue<Vec<u8>>,
    pub out_buffers: ArrayQueue<OutBuffer>,
    pub published: VecDeque<Vec<u8>>,
    pub servers_in_use: ArrayQueue<Tachyon>,
    /// Whether a receive has been started and not finished.
    pub receiving: bool,
    pub connections_by_identity: FxHashMap<u32, Connection>,
    pub connections_by_address: FxHashMap<u128, Connection>,
}

impl Pool {
    /// The message queues that wait for an endpoint, the next one first.
    pub open spec fn queues(&self) -> Seq<VecDeque<Vec<u8>>> {
        held_queues(self.receive_queue)
    }

    /// The receive buffers that wait for an endpoint, the next one first.
    pub open spec fn buffers(&self) -> Seq<Vec<u8>> {
        held_buffers(self.receive_buffers)
    }

    /// The out buffers that wait for an endpoint, the next one first.
    pub open spec fn streams(&self) -> Seq<OutBuffer> {
        held_streams(self.out_buffers)
    }

    /// The endpoints that are in use, the next one first.
    pub open spec fn in_use(&self) -> Seq<Tachyon> {
        held_endpoints(self.servers_in_use)
    }

    /// The pool holds no more endpoints than it was made for, those in use
    /// counted. Every endpoint is sound and filed under its id, whether it
    /// rests or is in use; every receive buffer has the pool's length; every
    /// out buffer is sound; and each of the pool's queues takes as many
    /// items as the pool was made for, and holds no more.
    pub open spec fn wf(&self) -> bool {
        &&& self.max_servers > 0
        &&& self.servers@.dom().finite()
        &&& self.servers@.dom().len() + self.in_use().len() <= self.max_servers
        &&& queues_limit(self.receive_queue) == self.max_servers
        &&& buffers_limit(self.receive_buffers) == self.max_servers
        &&& streams_limit(self.out_buffers) == self.max_servers
        &&& endpoints_limit(self.servers_in_use) == self.max_servers
        &&& self.queues().len() <= self.max_servers
        &&& self.buffers().len() <= self.max_servers
        &&& self.streams().len() <= self.max_servers
        &&& self.in_use().len() <= self.max_servers
        &&& forall|k: u16|
            self.servers@.contains_key(k) ==> (#[trigger] self.servers@[k]).wf()
                && self.servers@[k].id == k
        &&& forall|i: int|
            0 <= i < self.in_use().len() ==> (#[trigger] self.in_use()[i]).wf()
        &&& forall|i: int|
            0 <= i < self.buffers().len() ==> (#[trigger] self.buffers()[i])@.len()
                == self.receive_buffer_len
        &&& forall|i: int|
            0 <= i < self.streams().len() ==> (#[trigger] self.streams()[i]).wf()
    }

    /// `post` is this pool after the endpoint `id` was moved from the pool
    /// to the back of those in use.
    pub open spec fn server_moved_as(&self, post: &Pool, id: u16) -> bool {
        &&& self.servers@.contains_key(id)
        &&& post.servers@ == self.servers@.remove(id)
        &&& post.in_use() == self.in_use().push(self.servers@[id])
        &&& *post == (Pool {
            servers: post.servers,
            servers_in_use: post.servers_in_use,
            ..*self
        })
    }

    /// `post` is this pool after the endpoints `ids` were moved to those in
    /// use, one after the other.
    pub open spec fn servers_moved_as(&self, post: &Pool, ids: Seq<u16>) -> bool
        decreases ids.len(),
    {
        if ids.len() == 0 {
            *post == *self
        } else {
            exists|next: Pool| #[trigger]
                self.server_moved_as(&next, ids[0]) && next.servers_moved_as(post, ids.skip(1))
        }
    }

    /// `post` is this pool after the first of the endpoints in use had its
    /// turn with the first receive queue and the first receive buffer, and
    /// went to the back. Nothing happens where no endpoint is in use.
    pub open spec fn turn_taken_as(&self, post: &Pool) -> bool {
        &&& *post == (Pool {
            servers_in_use: post.servers_in_use,
            receive_queue: post.receive_queue,
            receive_buffers: post.receive_buffers,
            ..*self
        })
        &&& if self.in_use().len() == 0 {
            &&& post.in_use() == self.in_use()
            &&& post.queues() == self.queues()
            &&& post.buffers() == self.buffers()
        } else {
            exists|server_after: Tachyon|
                {
                    &&& post.in_use() == self.in_use().skip(1).push(server_after)
                    &&& #[trigger] queue_filled_as(
                        self.queues(),
                        post.queues(),
                        self.buffers(),
                        post.buffers(),
                        self.in_use()[0],
                        server_after,
                    )
                }
        }
    }

    /// `post` is this pool after `turns` turns of the endpoints in use, one
    /// after the other.
    pub open spec fn turns_taken_as(&self, post: &Pool, turns: nat) -> bool
        decreases turns,
    {
        if turns == 0 {
            *post == *self
        } else {
            exists|next: Pool| #[trigger]
                self.turn_taken_as(&next) && next.turns_taken_as(post, (turns - 1) as nat)
        }
    }

    /// `post` is this pool after a receive was started: every endpoint was
    /// moved to those in use, in some order, as many turns were taken as
    /// there were endpoints, and the pool says that it is receiving.
    pub open spec fn receive_started_as(&self, post: &Pool) -> bool {
        exists|ids: Seq<u16>, moved: Pool, served: Pool|
            {
                &&& ids.no_duplicates()
                &&& forall|k: u16| ids.contains(k) <==> self.servers@.contains_key(k)
                &&& #[trigger] self.servers_moved_as(&moved, ids)
                &&& #[trigger] moved.turns_taken_as(&served, ids.len())
                &&& *post == (Pool { receiving: true, ..served })
            }
    }

    /// `post` is this pool after the endpoint `id` had its turn with the
    /// first receive queue and the first receive buffer.
    pub open spec fn server_asked_as(&self, post: &Pool, id: u16) -> bool {
        exists|server_after: Tachyon|
            {
                &&& self.servers@.contains_key(id)
                &&& post.servers@ == self.servers@.insert(id, server_after)
                &&& #[trigger] queue_filled_as(
                    self.queues(),
                    post.queues(),
                    self.buffers(),
                    post.buffers(),
                    self.servers@[id],
                    server_after,
                )
                &&& *post == (Pool {
                    servers: post.servers,
                    receive_queue: post.receive_queue,
                    receive_buffers: post.receive_buffers,
                    ..*self
                })
            }
    }

    /// `post` is this pool after the endpoints `ids` had their turns one
    /// after the other, as `server_asked_as` says of each.
    pub open spec fn servers_asked_as(&self, post: &Pool, ids: Seq<u16>) -> bool
        decreases ids.len(),
    {
        if ids.len() == 0 {
            *post == *self
        } else {
            exists|next: Pool| #[trigger]
                self.server_asked_as(&next, ids[0]) && next.servers_asked_as(post, ids.skip(1))
        }
    }

    /// `post` is this pool after the messages of all receive queues went to
    /// the published queue, queue after queue.
    pub open spec fn published_as(&self, post: &Pool) -> bool {
        &&& *post == (Pool {
            published: post.published,
            receive_queue: post.receive_queue,
            ..*self
        })
        &&& post.published@ == self.published@ + all_messages(self.queues())
        &&& post.queues().len() == self.queues().len()
        &&& forall|i: int|
            0 <= i < post.queues().len() ==> (#[trigger] post.queues()[i])@.len()
                == 0
    }

    /// `post` is this pool after every endpoint had its turn, in some
    /// order, and what they handed over was published.
    pub open spec fn received_as(&self, post: &Pool) -> bool {
        exists|ids: Seq<u16>, asked: Pool|
            {
                &&& ids.no_duplicates()
                &&& forall|k: u16| ids.contains(k) <==> self.servers@.contains_key(k)
                &&& #[trigger] self.servers_asked_as(&asked, ids)
                &&& asked.published_as(post)
            }
    }

    /// `post` is this pool after the endpoint `id` had its turn with the
    /// first out buffer and the first receive buffer.
    pub open spec fn server_streamed_as(&self, post: &Pool, id: u16) -> bool {
        exists|server_after: Tachyon|
            {
                &&& self.servers@.contains_key(id)
                &&& post.servers@ == self.servers@.insert(id, server_after)
                &&& #[trigger] stream_filled_as(
                    self.streams(),
                    post.streams(),
                    self.buffers(),
                    post.buffers(),
                    self.servers@[id],
                    server_after,
                )
                &&& *post == (Pool {
                    servers: post.servers,
                    out_buffers: post.out_buffers,
                    receive_buffers: post.receive_buffers,
                    ..*self
                })
            }
    }

    /// `post` is this pool after the endpoints `ids` had their turns one
    /// after the other, as `server_streamed_as` says of each.
    pub open spec fn servers_streamed_as(&self, post: &Pool, ids: Seq<u16>) -> bool
        decreases ids.len(),
    {
        if ids.len() == 0 {
            *post == *self
        } else {
            exists|next: Pool| #[trigger]
                self.server_streamed_as(&next, ids[0]) && next.servers_streamed_as(
                    post,
                    ids.skip(1),
                )
        }
    }

    /// `post` is this pool after every endpoint had its turn with an out
    /// buffer, in some order.
    pub open spec fn all_streamed_as(&self, post: &Pool) -> bool {
        exists|ids: Seq<u16>|
            {
                &&& ids.no_duplicates()
                &&& forall|k: u16| ids.contains(k) <==> self.servers@.contains_key(k)
                &&& #[trigger] self.servers_streamed_as(post, ids)
            }
    }

    /// `post` is this pool, and `buffer_after` the caller's buffer, after
    /// the next stream was fetched, and `r` are its counts.
    ///
    /// The first stream that is not passed over is copied to the front of
    /// the buffer and goes to the back of the queue with counts of zero,
    /// behind those that were passed over. Where every stream is passed
    /// over, nothing changes and the counts are zero.
    pub open spec fn stream_fetched_as(
        &self,
        post: &Pool,
        buffer: Seq<u8>,
        buffer_after: Seq<u8>,
        r: OutBufferCounts,
    ) -> bool {
        let streams = self.streams();
        let room = buffer.len() as int;
        &&& *post == (Pool { out_buffers: post.out_buffers, ..*self })
        &&& if forall|j: int| 0 <= j < streams.len() ==> passed_over(#[trigger] streams[j], room) {
            &&& r == (OutBufferCounts { bytes_written: 0, count: 0 })
            &&& post.streams() == streams
            &&& buffer_after == buffer
        } else {
            exists|i: int|
                {
                    &&& 0 <= i < streams.len()
                    &&& forall|j: int| 0 <= j < i ==> passed_over(#[trigger] streams[j], room)
                    &&& !passed_over(#[trigger] streams[i], room)
                    &&& r == (OutBufferCounts {
                        bytes_written: streams[i].bytes_written,
                        count: streams[i].count,
                    })
                    &&& buffer_after == splice(
                        buffer,
                        0,
                        streams[i].data@.subrange(0, streams[i].bytes_written as int),
                    )
                    &&& post.streams() == (streams.skip(i + 1) + streams.subrange(0, i)).push(
                        OutBuffer { bytes_written: 0, count: 0, ..streams[i] },
                    )
                }
        }
    }

    /// A pool without endpoints, with a queue, a receive buffer and an out
    /// buffer for each of the `max_servers` endpoints it is made for. A pool
    /// cannot be made for no endpoint at all.
    #[must_use]
    pub fn create(max_servers: u8, receive_buffer_len: u32, out_buffer_len: u32) -> (r: Self)
        requires
            max_servers > 0,
        ensures
            r.wf(),
            r.next_id == 0,
            r.max_servers == max_servers,
            r.receive_buffer_len == receive_buffer_len,
            r.servers@ == Map::<u16, Tachyon>::empty(),
            r.queues().len() == max_servers,
            r.buffers().len() == max_servers,
            r.streams().len() == max_servers,
            forall|i: int| 0 <= i < max_servers ==> (#[trigger] r.queues()[i])@.len() == 0,
            forall|i: int|
                0 <= i < max_servers ==> (#[trigger] r.buffers()[i])@ == crate::byte_buffer_pool::zeros(
                    receive_buffer_len as nat,
                ),
            forall|i: int|
                0 <= i < max_servers ==> (#[trigger] r.streams()[i]).data@
                    == crate::byte_buffer_pool::zeros(out_buffer_len as nat)
                    && r.streams()[i].count == 0 && r.streams()[i].bytes_written == 0,
            r.published@.len() == 0,
            r.in_use().len() == 0,
            !r.receiving,
            r.connections_by_identity@ == Map::<u32, Connection>::empty(),
            r.connections_by_address@ == Map::<u128, Connection>::empty(),
    {
        let limit = max_servers as usize;
        let mut receive_buffers = new_buffers(limit);
        let mut out_buffers = new_streams(limit);
        let mut queue = new_queues(limit);
        let mut i: u8 = 0;
        while i < max_servers
            invariant
                i <= max_servers,
                limit == max_servers,
                queues_limit(queue) == limit,
                buffers_limit(receive_buffers) == limit,
                streams_limit(out_buffers) == limit,
                held_queues(queue).len() == i,
                held_buffers(receive_buffers).len() == i,
                held_streams(out_buffers).len() == i,
                forall|j: int| 0 <= j < i ==> (#[trigger] held_queues(queue)[j])@.len() == 0,
                forall|j: int|
                    0 <= j < i ==> (#[trigger] held_buffers(receive_buffers)[j])@
                        == crate::byte_buffer_pool::zeros(receive_buffer_len as nat),
                forall|j: int|
                    0 <= j < i ==> (#[trigger] held_streams(out_buffers)[j]).data@
                        == crate::byte_buffer_pool::zeros(out_buffer_len as nat) && held_streams(
                        out_buffers,
                    )[j].count == 0 && held_streams(out_buffers)[j].bytes_written == 0,
            decreases max_servers - i,
        {
            push_queue(&mut queue, VecDeque::new());
            let receive_buffer = vec![0u8; receive_buffer_len as usize];
            assert(receive_buffer@ =~= crate::byte_buffer_pool::zeros(receive_buffer_len as nat));
            push_buffer(&mut receive_buffers, receive_buffer);
            let buffer = OutBuffer {
                data: vec![0u8; out_buffer_len as usize],
                bytes_written: 0,
                count: 0,
            };
            assert(buffer.data@ =~= crate::byte_buffer_pool::zeros(out_buffer_len as nat));
            push_stream(&mut out_buffers, buffer);
            i = i + 1;
        }
        proof {
            assert forall|j: int| 0 <= j < held_streams(out_buffers).len() implies (
            #[trigger] held_streams(out_buffers)[j]).wf() by {
                assert(holds_records(held_streams(out_buffers)[j].data@, 0, 0, 0));
            }
        }
        Pool {
            next_id: 0,
            max_servers,
            receive_buffer_len,
            servers: map_new(),
            receive_queue: queue,
            receive_buffers,
            out_buffers,
            published: VecDeque::new(),
            servers_in_use: new_endpoints(limit),
            receiving: false,
            connections_by_identity: map_new(),
            connections_by_address: map_new(),
        }
    }

    /// Adds a server endpoint bound to `address` under `id`. Returns whether
    /// it did; it does not where the pool holds as many endpoints as it was
    /// made for, those in use counted, or one under `id` already.
    pub fn create_server(&mut self, config: TachyonConfig, address: NetworkAddress, id: u16) -> (r:
        bool)
        requires
            old(self).wf(),
        ensures
            final(self).wf(),
            r == (old(self).servers@.dom().len() + old(self).in_use().len() < old(
                self,
            ).max_servers && !old(self).servers@.contains_key(id)),
            !r ==> *final(self) == *old(self),
            r ==> {
                &&& final(self).servers@.dom() == old(self).servers@.dom().insert(id)
                &&& forall|k: u16|
                    old(self).servers@.contains_key(k) ==> #[trigger] final(self).servers@[k]
                        == old(self).servers@[k]
                &&& final(self).servers@[id].id == id
                &&& final(self).servers@[id].config == config
                &&& final(self).servers@[id].socket.open
                &&& final(self).servers@[id].socket.is_server
                &&& final(self).servers@[id].socket.address == address
                &&& *final(self) == (Pool { servers: final(self).servers, ..*old(self) })
            },
    {
        let held = map_len(&self.servers) + count_endpoints(&self.servers_in_use);
        if held >= self.max_servers as usize {
            return false;
        }
        if map_contains(&self.servers, &id) {
            return false;
        }
        let mut tachyon = Tachyon::create(config);
        let bound = tachyon.bind(address);
        if bound {
            tachyon.id = id;
            map_insert(&mut self.servers, id, tachyon);
            assert(self.servers@.dom() =~= old(self).servers@.dom().insert(id));
        }
        bound
    }

    /// Sets an identity on the endpoint `server_id`: the endpoint's own, if
    /// `on_self` is 1, else one that its peers may link to. Nothing happens
    /// where the endpoint is not in the pool.
    pub fn set_identity(&mut self, server_id: u16, id: u32, session_id: u32, on_self: u32)
        requires
            old(self).wf(),
        ensures
            final(self).wf(),
            *final(self) == (Pool { servers: final(self).servers, ..*old(self) }),
            final(self).servers@.dom() == old(self).servers@.dom(),
            forall|k: u16|
                old(self).servers@.contains_key(k) && k != server_id
                    ==> #[trigger] final(self).servers@[k] == old(self).servers@[k],
            !old(self).servers@.contains_key(server_id) ==> final(self).servers@ == old(
                self,
            ).servers@,
            old(self).servers@.contains_key(server_id) && on_self == 1
                ==> final(self).servers@[server_id] == (Tachyon {
                identity: crate::connection::Identity {
                    id,
                    session_id,
                    ..old(self).servers@[server_id].identity
                },
                ..old(self).servers@[server_id]
            }),
            old(self).servers@.contains_key(server_id) && on_self != 1 ==> old(
                self,
            ).servers@[server_id].identity_set_as(
                &final(self).servers@[server_id],
                id,
                session_id,
            ),
    {
        let ghost before = self.servers@;
        match map_get_mut(&mut self.servers, &server_id) {
            Some(tachyon) => {
                if on_self == 1 {
                    tachyon.identity.id = id;
                    tachyon.identity.session_id = session_id;
                } else {
                    tachyon.set_identity(id, session_id);
                }
            },
            None => {},
        }
        assert(self.servers@.dom() =~= before.dom());
    }

    /// The id of the endpoint that the index lists for the peer at
    /// `address`, or 0.
    #[must_use]
    pub fn get_server_having_connection(&self, address: NetworkAddress) -> (r: u16)
        ensures
            r == (if self.connections_by_address@.contains_key(address_key(address)) {
                self.connections_by_address@[address_key(address)].tachyon_id
            } else {
                0
            }),
    {
        match map_get(&self.connections_by_address, &address.key()) {
            Some(c) => c.tachyon_id,
            None => 0,
        }
    }

    /// The id of the endpoint that the index lists for the peer linked to
    /// the identity, or 0.
    #[must_use]
    pub fn get_server_having_identity(&self, identity_id: u32) -> (r: u16)
        ensures
            r == (if self.connections_by_identity@.contains_key(identity_id) {
                self.connections_by_identity@[identity_id].tachyon_id
            } else {
                0
            }),
    {
        match map_get(&self.connections_by_identity, &identity_id) {
            Some(c) => c.tachyon_id,
            None => 0,
        }
    }

    /// The endpoint under `id`, to be used in place.
    pub fn get_server(&mut self, id: u16) -> (r: Option<&mut Tachyon>)
        ensures
            match r {
                Some(server) => {
                    &&& old(self).servers@.contains_key(id)
                    &&& *server == old(self).servers@[id]
                    &&& final(self).servers@ == old(self).servers@.insert(id, *final(server))
                },
                None => !old(self).servers@.contains_key(id) && final(self).servers@ == old(
                    self,
                ).servers@,
            },
            final(self).max_servers == old(self).max_servers,
            final(self).receive_buffer_len == old(self).receive_buffer_len,
            final(self).receive_queue == old(self).receive_queue,
            final(self).receive_buffers == old(self).receive_buffers,
            final(self).out_buffers == old(self).out_buffers,
            final(self).published == old(self).published,
            final(self).servers_in_use == old(self).servers_in_use,
            final(self).receiving == old(self).receiving,
    {
        map_get_mut(&mut self.servers, &id)
    }

    /// Makes the index of peers anew from the peers of all endpoints: by
    /// address, and by identity for those that are linked to one.
    pub fn build_connection_maps(&mut self)
        requires
            old(self).wf(),
        ensures
            *final(self) == (Pool {
                connections_by_address: final(self).connections_by_address,
                connections_by_identity: final(self).connections_by_identity,
                ..*old(self)
            }),
            forall|k: u128| #[trigger]
                final(self).connections_by_address@.contains_key(k) <==> exists|s: u16|
                    old(self).servers@.contains_key(s) && (#[trigger] old(
                        self,
                    ).servers@[s]).connections@.contains_key(k),
            forall|k: u128|
                final(self).connections_by_address@.contains_key(k) ==> exists|s: u16|
                    old(self).servers@.contains_key(s) && (#[trigger] old(
                        self,
                    ).servers@[s]).connections@.contains_key(k) && old(
                        self,
                    ).servers@[s].connections@[k] == final(self).connections_by_address@[k],
            forall|id: u32|
                final(self).connections_by_identity@.contains_key(id) ==> id > 0 && exists|
                    s: u16,
                    k: u128,
                |
                    old(self).servers@.contains_key(s) && (#[trigger] old(
                        self,
                    ).servers@[s]).connections@.contains_key(k) && (#[trigger] old(
                        self,
                    ).servers@[s].connections@[k]) == final(self).connections_by_identity@[id]
                        && final(self).connections_by_identity@[id].identity.id == id,
            forall|s: u16, k: u128, id: u32|
                id > 0 && #[trigger] peer_has_identity(old(self).servers@, s, k, id)
                    ==> final(self).connections_by_identity@.contains_key(id),
    {
        map_clear(&mut self.connections_by_address);
        map_clear(&mut self.connections_by_identity);
        let ids = map_keys(&self.servers);
        let mut i: usize = 0;
        while i < ids.len()
            invariant
                i <= ids@.len(),
                forall|s: u16| ids@.contains(s) <==> old(self).servers@.contains_key(s),
                *self == (Pool {
                    connections_by_address: self.connections_by_address,
                    connections_by_identity: self.connections_by_identity,
                    ..*old(self)
                }),
                forall|k: u128| #[trigger]
                    self.connections_by_address@.contains_key(k) <==> exists|j: int|
                        0 <= j < i
                            && (#[trigger] self.servers@[ids@[j]]).connections@.contains_key(
                            k,
                        ),
                forall|k: u128|
                    self.connections_by_address@.contains_key(k) ==> exists|s: u16|
                        self.servers@.contains_key(s) && (
                        #[trigger] self.servers@[s]).connections@.contains_key(k)
                            && self.servers@[s].connections@[k] == self.connections_by_address@[k],
                forall|id: u32|
                    self.connections_by_identity@.contains_key(id) ==> id > 0 && exists|
                        s: u16,
                        k: u128,
                    |
                        self.servers@.contains_key(s) && (
                        #[trigger] self.servers@[s]).connections@.contains_key(k) && (
                        #[trigger] self.servers@[s].connections@[k])
                            == self.connections_by_identity@[id]
                            && self.connections_by_identity@[id].identity.id == id,
                forall|j: int, k: u128, id: u32|
                    0 <= j < i && id > 0 && #[trigger] peer_has_identity(
                        self.servers@,
                        ids@[j],
                        k,
                        id,
                    ) ==> self.connections_by_identity@.contains_key(id),
            decreases ids@.len() - i,
        {
            let server_id = ids[i];
            assert(ids@.contains(server_id));
            match map_get(&self.servers, &server_id) {
                Some(server) => {
                    let keys = map_keys(&server.connections);
                    let mut n: usize = 0;
                    while n < keys.len()
                        invariant
                            n <= keys@.len(),
                            i < ids@.len(),
                            server_id == ids@[i as int],
                            self.servers@.contains_key(server_id),
                            *server == self.servers@[server_id],
                            forall|k: u128|
                                keys@.contains(k) <==> server.connections@.contains_key(k),
                            *self == (Pool {
                                connections_by_address: self.connections_by_address,
                                connections_by_identity: self.connections_by_identity,
                                ..*old(self)
                            }),
                            forall|k: u128| #[trigger]
                                self.connections_by_address@.contains_key(k) <==> ((exists|j: int|
                                    0 <= j < i && (
                                    #[trigger] self.servers@[ids@[j]]).connections@.contains_key(k))
                                    || exists|m: int| 0 <= m < n && #[trigger] keys@[m] == k),
                            forall|k: u128|
                                self.connections_by_address@.contains_key(k) ==> exists|s: u16|
                                    self.servers@.contains_key(s) && (
                                    #[trigger] self.servers@[s]).connections@.contains_key(k)
                                        && self.servers@[s].connections@[k]
                                        == self.connections_by_address@[k],
                            forall|id: u32|
                                self.connections_by_identity@.contains_key(id) ==> id > 0
                                    && exists|s: u16, k: u128|
                                    self.servers@.contains_key(s) && (
                                    #[trigger] self.servers@[s]).connections@.contains_key(k) && (
                                    #[trigger] self.servers@[s].connections@[k])
                                        == self.connections_by_identity@[id]
                                        && self.connections_by_identity@[id].identity.id == id,
                            forall|j: int, k: u128, id: u32|
                                0 <= j < i && id > 0 && #[trigger] peer_has_identity(
                                    self.servers@,
                                    ids@[j],
                                    k,
                                    id,
                                ) ==> self.connections_by_identity@.contains_key(id),
                            forall|m: int, id: u32|
                                0 <= m < n && id > 0 && #[trigger] peer_has_identity(
                                    self.servers@,
                                    server_id,
                                    keys@[m],
                                    id,
                                ) ==> self.connections_by_identity@.contains_key(id),
                        decreases keys@.len() - n,
                    {
                        let key = keys[n];
                        assert(keys@.contains(key));
                        let ghost by_address = self.connections_by_address@;
                        let ghost by_identity = self.connections_by_identity@;
                        match map_get(&server.connections, &key) {
                            Some(conn) => {
                                let conn = *conn;
                                map_insert(&mut self.connections_by_address, key, conn);
                                if conn.identity.id > 0 {
                                    map_insert(
                                        &mut self.connections_by_identity,
                                        conn.identity.id,
                                        conn,
                                    );
                                }
                                proof {
                                    assert(self.servers@[server_id].connections@.contains_key(key));
                                    assert forall|id: u32|
                                        self.connections_by_identity@.contains_key(
                                            id,
                                        ) implies id > 0 && exists|s: u16, k: u128|
                                        self.servers@.contains_key(s) && (
                                        #[trigger] self.servers@[s]).connections@.contains_key(k)
                                            && (#[trigger] self.servers@[s].connections@[k])
                                            == self.connections_by_identity@[id]
                                            && self.connections_by_identity@[id].identity.id
                                            == id by {
                                        if by_identity.contains_key(id) && !(conn.identity.id > 0
                                            && id == conn.identity.id) {
                                            let (s, k) = choose|s: u16, k: u128|
                                                self.servers@.contains_key(s) && (
                                                #[trigger] self.servers@[s]).connections@.contains_key(
                                                    k,
                                                ) && (#[trigger] self.servers@[s].connections@[k])
                                                    == by_identity[id]
                                                        && by_identity[id].identity.id
                                                    == id;
                                            assert(self.servers@[s].connections@[k]
                                                == self.connections_by_identity@[id]);
                                        } else {
                                            assert(self.servers@[server_id].connections@[key]
                                                == self.connections_by_identity@[id]);
                                        }
                                    }
                                    assert forall|k: u128|
                                        self.connections_by_address@.contains_key(
                                            k,
                                        ) implies exists|s: u16|
                                        self.servers@.contains_key(s) && (
                                        #[trigger] self.servers@[s]).connections@.contains_key(k)
                                            && self.servers@[s].connections@[k]
                                            == self.connections_by_address@[k] by {
                                        if k == key {
                                            assert(self.servers@[server_id].connections@[k]
                                                == self.connections_by_address@[k]);
                                        } else {
                                            let s = choose|s: u16|
                                                self.servers@.contains_key(s) && (
                                                #[trigger] self.servers@[s]).connections@.contains_key(
                                                    k,
                                                ) && self.servers@[s].connections@[k]
                                                    == by_address[k];
                                            assert(self.servers@[s].connections@[k]
                                                == self.connections_by_address@[k]);
                                        }
                                    }
                                }
                            },
                            None => {
                                assert(false);
                            },
                        }
                        proof {
                            assert forall|k: u128| #[trigger]
                                self.connections_by_address@.contains_key(k) <==> ((exists|j: int|
                                    0 <= j < i && (
                                    #[trigger] self.servers@[ids@[j]]).connections@.contains_key(k))
                                    || exists|m: int| 0 <= m < n + 1
                                        && #[trigger] keys@[m] == k) by {
                                if k == key {
                                    assert(0 <= n < n + 1 && keys@[n as int] == k);
                                }
                                if exists|m: int| 0 <= m < n && #[trigger] keys@[m] == k {
                                    let m = choose|m: int| 0 <= m < n && #[trigger] keys@[m] == k;
                                    assert(0 <= m < n + 1 && keys@[m] == k);
                                }
                                if exists|m: int| 0 <= m < n + 1 && #[trigger] keys@[m] == k {
                                    let m = choose|m: int|
                                        0 <= m < n + 1 && #[trigger] keys@[m] == k;
                                    if m < n {
                                        assert(0 <= m < n && keys@[m] == k);
                                    }
                                }
                            }
                        }
                        n = n + 1;
                    }
                    proof {
                        assert forall|j: int, k: u128, id: u32|
                            0 <= j < i + 1 && id > 0 && #[trigger] peer_has_identity(
                                self.servers@,
                                ids@[j],
                                k,
                                id,
                            ) implies self.connections_by_identity@.contains_key(id) by {
                            if j == i {
                                assert(keys@.contains(k));
                                let m = choose|m: int| 0 <= m < keys@.len() && keys@[m] == k;
                                assert(peer_has_identity(self.servers@, server_id, keys@[m], id));
                            }
                        }
                        assert forall|k: u128| #[trigger]
                            self.connections_by_address@.contains_key(k) <==> exists|j: int|
                                0 <= j < i + 1 && (
                                #[trigger] self.servers@[ids@[j]]).connections@.contains_key(k) by {
                            if exists|m: int| 0 <= m < n && #[trigger] keys@[m] == k {
                                let m = choose|m: int| 0 <= m < n && #[trigger] keys@[m] == k;
                                assert(keys@.contains(keys@[m]));
                                assert(0 <= i < i + 1
                                    && self.servers@[ids@[i as int]].connections@.contains_key(
                                    k,
                                ));
                            }
                            if exists|j: int|
                                0 <= j < i && (
                                #[trigger] self.servers@[ids@[j]]).connections@.contains_key(k) {
                                let j = choose|j: int|
                                    0 <= j < i && (
                                    #[trigger] self.servers@[ids@[j]]).connections@.contains_key(k);
                                assert(0 <= j < i + 1
                                    && self.servers@[ids@[j]].connections@.contains_key(
                                    k,
                                ));
                            }
                            if exists|j: int|
                                0 <= j < i + 1 && (
                                #[trigger] self.servers@[ids@[j]]).connections@.contains_key(k) {
                                let j = choose|j: int|
                                    0 <= j < i + 1 && (
                                    #[trigger] self.servers@[ids@[j]]).connections@.contains_key(k);
                                if j < i {
                                    assert(0 <= j < i
                                        && self.servers@[ids@[j]].connections@.contains_key(
                                        k,
                                    ));
                                } else {
                                    assert(keys@.contains(k));
                                    let m = choose|m: int| 0 <= m < keys@.len() && keys@[m] == k;
                                    assert(0 <= m < n && keys@[m] == k);
                                }
                            }
                        }
                    }
                },
                None => {
                    assert(false);
                },
            }
            i = i + 1;
        }
        proof {
            assert forall|s: u16, k: u128, id: u32|
                id > 0 && #[trigger] peer_has_identity(
                    old(self).servers@,
                    s,
                    k,
                    id,
                ) implies self.connections_by_identity@.contains_key(id) by {
                assert(ids@.contains(s));
                let j = choose|j: int| 0 <= j < ids@.len() && ids@[j] == s;
                assert(peer_has_identity(self.servers@, ids@[j], k, id));
            }
            assert forall|k: u128| #[trigger]
                self.connections_by_address@.contains_key(k) <==> exists|s: u16|
                    old(self).servers@.contains_key(s) && (#[trigger] old(
                        self,
                    ).servers@[s]).connections@.contains_key(k) by {
                if exists|j: int|
                    0 <= j < i
                        && (#[trigger] self.servers@[ids@[j]]).connections@.contains_key(k) {
                    let j = choose|j: int|
                        0 <= j < i
                            && (#[trigger] self.servers@[ids@[j]]).connections@.contains_key(
                            k,
                        );
                    assert(ids@.contains(ids@[j]));
                    assert(old(self).servers@.contains_key(ids@[j]) && old(
                        self,
                    ).servers@[ids@[j]].connections@.contains_key(k));
                }
                if exists|s: u16|
                    old(self).servers@.contains_key(s) && (#[trigger] old(
                        self,
                    ).servers@[s]).connections@.contains_key(k) {
                    let s = choose|s: u16|
                        old(self).servers@.contains_key(s) && (#[trigger] old(
                            self,
                        ).servers@[s]).connections@.contains_key(k);
                    assert(ids@.contains(s));
                    let j = choose|j: int| 0 <= j < ids@.len() && ids@[j] == s;
                    assert(0 <= j < i && self.servers@[ids@[j]].connections@.contains_key(k));
                }
            }
        }
    }

    /// An endpoint with an open port that has the fewest peers, if there is
    /// one with fewer than 10000.
    #[must_use]
    pub fn get_available_server(&self) -> (r: Option<PoolServerRef>)
        requires
            self.wf(),
        ensures
            match r {
                Some(best) => {
                    &&& self.servers@.contains_key(best.id)
                    &&& self.servers@[best.id].socket.open
                    &&& self.servers@[best.id].socket.address == best.address
                    &&& self.servers@[best.id].connections@.dom().len() < 10000
                    &&& forall|k: u16|
                        self.servers@.contains_key(k) && (#[trigger] self.servers@[k]).socket.open
                            ==> self.servers@[best.id].connections@.dom().len()
                            <= self.servers@[k].connections@.dom().len()
                },
                None => forall|k: u16|
                    self.servers@.contains_key(k) ==> !(#[trigger] self.servers@[k]).socket.open
                        || self.servers@[k].connections@.dom().len() >= 10000,
            },
    {
        let mut best: Option<PoolServerRef> = None;
        let mut low: usize = 10000;
        let ids = map_keys(&self.servers);
        let mut i: usize = 0;
        while i < ids.len()
            invariant
                i <= ids@.len(),
                self.wf(),
                forall|s: u16| ids@.contains(s) <==> self.servers@.contains_key(s),
                low <= 10000,
                best is None ==> low == 10000,
                match best {
                    Some(b) => {
                        &&& self.servers@.contains_key(b.id)
                        &&& self.servers@[b.id].socket.open
                        &&& self.servers@[b.id].socket.address == b.address
                        &&& self.servers@[b.id].connections@.dom().len() == low
                        &&& low < 10000
                    },
                    None => true,
                },
                forall|j: int|
                    0 <= j < i && (#[trigger] self.servers@[ids@[j]]).socket.open ==> low
                        <= self.servers@[ids@[j]].connections@.dom().len(),
            decreases ids@.len() - i,
        {
            let id = ids[i];
            assert(ids@.contains(id));
            match map_get(&self.servers, &id) {
                Some(server) => {
                    let conn_count = map_len(&server.connections);
                    if conn_count < low && server.socket.open {
                        low = conn_count;
                        best = Some(PoolServerRef { address: server.socket.address, id: server.id });
                    }
                },
                None => {},
            }
            i = i + 1;
        }
        proof {
            assert forall|k: u16|
                self.servers@.contains_key(k) && (
                #[trigger] self.servers@[k]).socket.open implies low
                <= self.servers@[k].connections@.dom().len() by {
                assert(ids@.contains(k));
                let j = choose|j: int| 0 <= j < ids@.len() && ids@[j] == k;
                assert(self.servers@[ids@[j]].socket.open);
            }
        }
        best
    }

    /// Sends the first `length` bytes of `data` to a target through the
    /// endpoint that the index lists for it: for the peer linked to the
    /// target's identity, if it names one, else for the target's address.
    ///
    /// Where the index lists no endpoint, or one that is not in the pool,
    /// nothing is sent and an empty success comes back.
    pub fn send_to_target(
        &mut self,
        channel_id: u8,
        target: SendTarget,
        data: &[u8],
        length: i32,
    ) -> (r: Result<TachyonSendSuccess, TachyonSendError>)
        requires
            old(self).wf(),
            0 <= length <= data@.len(),
        ensures
            final(self).wf(),
            *final(self) == (Pool { servers: final(self).servers, ..*old(self) }),
            final(self).servers@.dom() == old(self).servers@.dom(),
            ({
                let by_identity = target.identity_id > 0;
                let listed = if by_identity {
                    old(self).connections_by_identity@.contains_key(target.identity_id)
                } else {
                    old(self).connections_by_address@.contains_key(address_key(target.address))
                };
                let conn = if by_identity {
                    old(self).connections_by_identity@[target.identity_id]
                } else {
                    old(self).connections_by_address@[address_key(target.address)]
                };
                let address = if by_identity {
                    conn.address
                } else {
                    target.address
                };
                if !listed || !old(self).servers@.contains_key(conn.tachyon_id) {
                    &&& r == Ok::<TachyonSendSuccess, TachyonSendError>(
                        TachyonSendSuccess { sent_len: 0, header: crate::header::zero_header() },
                    )
                    &&& final(self).servers@ == old(self).servers@
                } else {
                    &&& forall|k: u16|
                        old(self).servers@.contains_key(k) && k != conn.tachyon_id
                            ==> #[trigger] final(self).servers@[k] == old(self).servers@[k]
                    &&& if channel_id == 0 {
                        old(self).servers@[conn.tachyon_id].sent_unreliable(
                            &final(self).servers@[conn.tachyon_id],
                            address,
                            data@,
                            length as usize,
                            r,
                        )
                    } else {
                        old(self).servers@[conn.tachyon_id].sent_reliable(
                            &final(self).servers@[conn.tachyon_id],
                            channel_id,
                            address,
                            data@,
                            length as usize,
                            r,
                        )
                    }
                }
            }),
    {
        if target.identity_id > 0 {
            self.send_to_identity(channel_id, target.identity_id, data, length)
        } else {
            self.send_to_address(channel_id, target.address, data, length)
        }
    }

    fn send_to_identity(&mut self, channel_id: u8, id: u32, data: &[u8], length: i32) -> (r: Result<
        TachyonSendSuccess,
        TachyonSendError,
    >)
        requires
            old(self).wf(),
            0 <= length <= data@.len(),
        ensures
            final(self).wf(),
            *final(self) == (Pool { servers: final(self).servers, ..*old(self) }),
            final(self).servers@.dom() == old(self).servers@.dom(),
            ({
                let listed = old(self).connections_by_identity@.contains_key(id);
                let conn = old(self).connections_by_identity@[id];
                if !listed || !old(self).servers@.contains_key(conn.tachyon_id) {
                    &&& r == Ok::<TachyonSendSuccess, TachyonSendError>(
                        TachyonSendSuccess { sent_len: 0, header: crate::header::zero_header() },
                    )
                    &&& final(self).servers@ == old(self).servers@
                } else {
                    &&& forall|k: u16|
                        old(self).servers@.contains_key(k) && k != conn.tachyon_id
                            ==> #[trigger] final(self).servers@[k] == old(self).servers@[k]
                    &&& if channel_id == 0 {
                        old(self).servers@[conn.tachyon_id].sent_unreliable(
                            &final(self).servers@[conn.tachyon_id],
                            conn.address,
                            data@,
                            length as usize,
                            r,
                        )
                    } else {
                        old(self).servers@[conn.tachyon_id].sent_reliable(
                            &final(self).servers@[conn.tachyon_id],
                            channel_id,
                            conn.address,
                            data@,
                            length as usize,
                            r,
                        )
                    }
                }
            }),
    {
        let conn = match map_get(&self.connections_by_identity, &id) {
            Some(conn) => *conn,
            None => {
                return Ok(TachyonSendSuccess::default());
            },
        };
        self.send_through(conn.tachyon_id, channel_id, conn.address, data, length)
    }

    fn send_to_address(
        &mut self,
        channel_id: u8,
        address: NetworkAddress,
        data: &[u8],
        length: i32,
    ) -> (r: Result<TachyonSendSuccess, TachyonSendError>)
        requires
            old(self).wf(),
            0 <= length <= data@.len(),
        ensures
            final(self).wf(),
            *final(self) == (Pool { servers: final(self).servers, ..*old(self) }),
            final(self).servers@.dom() == old(self).servers@.dom(),
            ({
                let listed = old(self).connections_by_address@.contains_key(address_key(address));
                let conn = old(self).connections_by_address@[address_key(address)];
                if !listed || !old(self).servers@.contains_key(conn.tachyon_id) {
                    &&& r == Ok::<TachyonSendSuccess, TachyonSendError>(
                        TachyonSendSuccess { sent_len: 0, header: crate::header::zero_header() },
                    )
                    &&& final(self).servers@ == old(self).servers@
                } else {
                    &&& forall|k: u16|
                        old(self).servers@.contains_key(k) && k != conn.tachyon_id
                            ==> #[trigger] final(self).servers@[k] == old(self).servers@[k]
                    &&& if channel_id == 0 {
                        old(self).servers@[conn.tachyon_id].sent_unreliable(
                            &final(self).servers@[conn.tachyon_id],
                            address,
                            data@,
                            length as usize,
                            r,
                        )
                    } else {
                        old(self).servers@[conn.tachyon_id].sent_reliable(
                            &final(self).servers@[conn.tachyon_id],
                            channel_id,
                            address,
                            data@,
                            length as usize,
                            r,
                        )
                    }
                }
            }),
    {
        let conn = match map_get(&self.connections_by_address, &address.key()) {
            Some(conn) => *conn,
            None => {
                return Ok(TachyonSendSuccess::default());
            },
        };
        self.send_through(conn.tachyon_id, channel_id, address, data, length)
    }

    /// Sends through the endpoint `server_id`, if it is in the pool.
    fn send_through(
        &mut self,
        server_id: u16,
        channel_id: u8,
        address: NetworkAddress,
        data: &[u8],
        length: i32,
    ) -> (r: Result<TachyonSendSuccess, TachyonSendError>)
        requires
            old(self).wf(),
            0 <= length <= data@.len(),
        ensures
            final(self).wf(),
            *final(self) == (Pool { servers: final(self).servers, ..*old(self) }),
            final(self).servers@.dom() == old(self).servers@.dom(),
            !old(self).servers@.contains_key(server_id) ==> r == Ok::<
                TachyonSendSuccess,
                TachyonSendError,
            >(TachyonSendSuccess { sent_len: 0, header: crate::header::zero_header() })
                && final(self).servers@ == old(self).servers@,
            old(self).servers@.contains_key(server_id) ==> {
                &&& forall|k: u16|
                    old(self).servers@.contains_key(k) && k != server_id
                        ==> #[trigger] final(self).servers@[k] == old(self).servers@[k]
                &&& if channel_id == 0 {
                    old(self).servers@[server_id].sent_unreliable(
                        &final(self).servers@[server_id],
                        address,
                        data@,
                        length as usize,
                        r,
                    )
                } else {
                    old(self).servers@[server_id].sent_reliable(
                        &final(self).servers@[server_id],
                        channel_id,
                        address,
                        data@,
                        length as usize,
                        r,
                    )
                }
            },
    {
        let ghost before = self.servers@;
        let r = match map_get_mut(&mut self.servers, &server_id) {
            Some(server) => {
                let ghost id = server.id;
                let r = if channel_id == 0 {
                    server.send_unreliable(address, data, length as usize)
                } else {
                    server.send_reliable(channel_id, address, data, length as usize)
                };
                assert(server.id == id);
                r
            },
            None => Ok(TachyonSendSuccess::default()),
        };
        assert(self.servers@.dom() =~= before.dom());
        r
    }

    /// Moves the messages of all receive queues to the published queue,
    /// queue after queue, and returns how many there were.
    fn move_received_to_published(&mut self) -> (r: i32)
        requires
            old(self).wf(),
        ensures
            final(self).wf(),
            *final(self) == (Pool {
                published: final(self).published,
                receive_queue: final(self).receive_queue,
                ..*old(self)
            }),
            final(self).published@
                == old(self).published@ + all_messages(old(self).queues()),
            final(self).queues().len() == old(self).queues().len(),
            forall|i: int|
                0 <= i < final(self).queues().len()
                    ==> (#[trigger] final(self).queues()[i])@.len() == 0,
            r == capped(all_messages(old(self).queues()).len()),
            old(self).published_as(final(self)),
    {
        let mut count: i32 = 0;
        let n = count_queues(&self.receive_queue);
        let mut i: usize = 0;
        proof {
            assert(old(self).queues().subrange(0, 0) =~= Seq::<VecDeque<Vec<u8>>>::empty());
            assert(self.published@ =~= old(self).published@ + all_messages(
                old(self).queues().subrange(0, 0),
            ));
        }
        while i < n
            invariant
                i <= n,
                n == old(self).queues().len(),
                *self == (Pool {
                    published: self.published,
                    receive_queue: self.receive_queue,
                    ..*old(self)
                }),
                self.queues().len() == n,
                self.wf(),
                forall|j: int|
                    0 <= j < n - i ==> #[trigger] self.queues()[j] == old(
                        self,
                    ).queues()[i + j],
                forall|j: int| n - i <= j < n ==> (#[trigger] self.queues()[j])@.len() == 0,
                self.published@ == old(self).published@ + all_messages(
                    old(self).queues().subrange(0, i as int),
                ),
                count == capped(
                    all_messages(old(self).queues().subrange(0, i as int)).len(),
                ),
            decreases n - i,
        {
            let ghost queues = self.queues();
            match pop_queue(&mut self.receive_queue) {
                Some(queue) => {
                    let mut queue = queue;
                    let moved = queue.len();
                    count = if moved > (i32::MAX - count) as usize {
                        i32::MAX
                    } else {
                        count + moved as i32
                    };
                    proof {
                        let done = old(self).queues().subrange(0, i as int);
                        let more = old(self).queues().subrange(0, i + 1);
                        assert(more.drop_last() =~= done);
                        assert(more.last() == queue);
                        assert(queues[0] == old(self).queues()[i as int]);
                    }
                    self.published.append(&mut queue);
                    push_queue(&mut self.receive_queue, VecDeque::new());
                    assert(self.published@ =~= old(self).published@ + all_messages(
                        old(self).queues().subrange(0, i + 1),
                    ));
                },
                None => {
                    assert(false);
                },
            }
            i = i + 1;
        }
        assert(old(self).queues().subrange(0, n as int) =~= old(self).queues());
        count
    }

    /// Asks an endpoint once for a message.
    fn ask(server: &mut Tachyon, receive_buffer: &mut [u8]) -> (r: Result<
        TachyonReceiveSuccess,
        TachyonReceiveError,
    >)
        requires
            old(server).wf(),
        ensures
            final(server).wf(),
            final(server).id == old(server).id,
            final(receive_buffer)@.len() == old(receive_buffer)@.len(),
            r is Ok ==> r->Ok_0.length <= old(receive_buffer)@.len(),
            asked_as(
                *old(server),
                *final(server),
                old(receive_buffer)@,
                final(receive_buffer)@,
                r,
            ),
    {
        let r = server.receive_loop(receive_buffer);
        proof {
            reveal(asked_as);
        }
        r
    }

    /// Writes one more record behind those that the stream holds.
    fn append_record(
        out_buffer: &mut OutBuffer,
        writer: &mut LengthPrefixed,
        channel: u8,
        address: NetworkAddress,
        message: &[u8],
    )
        requires
            old(out_buffer).data@.len() <= u32::MAX,
            old(out_buffer).count < DRAIN_BUDGET,
            old(writer).writer.index + 15 + message@.len() <= old(out_buffer).data@.len(),
            holds_records(
                old(out_buffer).data@,
                0,
                old(out_buffer).count as nat,
                old(writer).writer.index as int,
            ),
        ensures
            final(out_buffer).data@ == splice(
                old(out_buffer).data@,
                old(writer).writer.index as int,
                record_bytes(channel, address, message@),
            ),
            final(out_buffer).count == old(out_buffer).count + 1,
            final(writer).writer.index == old(writer).writer.index + 15 + message@.len(),
            final(out_buffer).bytes_written == old(out_buffer).bytes_written,
            holds_records(
                final(out_buffer).data@,
                0,
                final(out_buffer).count as nat,
                final(writer).writer.index as int,
            ),
    {
        let ghost before = out_buffer.data@;
        let ghost at = writer.writer.index as int;
        writer.write(channel, address, message, out_buffer.data.as_mut_slice());
        proof {
            lemma_record_written(before, at, channel, address, message@);
            lemma_records_kept(before, out_buffer.data@, 0, out_buffer.count as nat, at);
            lemma_records_extended(
                out_buffer.data@,
                0,
                out_buffer.count as nat,
                at,
                message@.len() as nat,
            );
        }
        out_buffer.count = out_buffer.count + 1;
    }

    /// Takes messages from one endpoint until it has none, fails, 100000
    /// have been taken, or the next does not fit the stream any more, and
    /// writes each into `out_buffer` as a record: its channel, or 0 for an
    /// unreliable message, its peer, its length and its bytes. The stream
    /// starts afresh.
    pub fn receive_server_into_out_buffer(
        server: &mut Tachyon,
        out_buffer: &mut OutBuffer,
        receive_buffer: &mut [u8],
    )
        requires
            old(server).wf(),
            old(out_buffer).data@.len() <= u32::MAX,
        ensures
            final(server).wf(),
            final(server).id == old(server).id,
            final(receive_buffer)@.len() == old(receive_buffer)@.len(),
            final(out_buffer).data@.len() == old(out_buffer).data@.len(),
            final(out_buffer).wf(),
            final(out_buffer).count <= DRAIN_BUDGET,
            final(out_buffer).data@.skip(final(out_buffer).bytes_written as int) == old(
                out_buffer,
            ).data@.skip(final(out_buffer).bytes_written as int),
            streamed_as(
                *old(server),
                *final(server),
                old(receive_buffer)@,
                final(receive_buffer)@,
                old(out_buffer).data@.len() as int,
                final(out_buffer).data@.subrange(0, final(out_buffer).bytes_written as int),
                final(out_buffer).count as nat,
                DRAIN_BUDGET as nat,
            ),
    {
        let mut writer = LengthPrefixed::default();
        out_buffer.count = 0;
        out_buffer.bytes_written = 0;
        let mut going = true;
        let ghost size = out_buffer.data@.len() as int;
        let ghost mut room: int = size;
        let ghost mut left: nat = DRAIN_BUDGET as nat;
        let ghost mut written: Seq<u8> = Seq::empty();
        proof {
            assert(out_buffer.data@.subrange(0, 0) =~= written);
            assert forall|post: Tachyon, after: Seq<u8>, rest: Seq<u8>, more: nat| #[trigger]
                streamed_as(*server, post, receive_buffer@, after, room, rest, more, left)
                    implies streamed_as(
                *old(server),
                post,
                old(receive_buffer)@,
                after,
                size,
                written + rest,
                out_buffer.count as nat + more,
                DRAIN_BUDGET as nat,
            ) by {
                assert(written + rest =~= rest);
            }
        }
        while going && out_buffer.count < DRAIN_BUDGET
            invariant
                server.wf(),
                server.id == old(server).id,
                receive_buffer@.len() == old(receive_buffer)@.len(),
                out_buffer.data@.len() == old(out_buffer).data@.len(),
                out_buffer.data@.len() <= u32::MAX,
                out_buffer.count <= DRAIN_BUDGET,
                writer.writer.index <= out_buffer.data@.len(),
                out_buffer.bytes_written == writer.writer.index,
                holds_records(
                    out_buffer.data@,
                    0,
                    out_buffer.count as nat,
                    writer.writer.index as int,
                ),
                size == out_buffer.data@.len(),
                room == size - writer.writer.index,
                left == DRAIN_BUDGET - out_buffer.count,
                written == out_buffer.data@.subrange(0, writer.writer.index as int),
                out_buffer.data@.skip(writer.writer.index as int) == old(out_buffer).data@.skip(
                    writer.writer.index as int,
                ),
                going ==> forall|post: Tachyon, after: Seq<u8>, rest: Seq<u8>, more: nat| #[trigger]
                    streamed_as(*server, post, receive_buffer@, after, room, rest, more, left)
                        ==> streamed_as(
                        *old(server),
                        post,
                        old(receive_buffer)@,
                        after,
                        size,
                        written + rest,
                        out_buffer.count as nat + more,
                        DRAIN_BUDGET as nat,
                    ),
                !going ==> streamed_as(
                    *old(server),
                    *server,
                    old(receive_buffer)@,
                    receive_buffer@,
                    size,
                    written,
                    out_buffer.count as nat,
                    DRAIN_BUDGET as nat,
                ),
            decreases (if going { 1int } else { 0int }) + DRAIN_BUDGET - out_buffer.count,
        {
            let ghost before = *server;
            let ghost buffer_before = receive_buffer@;
            let ghost room_before = room;
            let ghost left_before = left;
            let ghost written_before = written;
            let ghost data_before = out_buffer.data@;
            let ghost at = writer.writer.index as int;
            let received = Self::stream_next(server, out_buffer, &mut writer, receive_buffer);
            let ghost between = receive_buffer@;
            let ghost next = *server;
            if writer.writer.index as u32 == out_buffer.bytes_written {
                going = false;
                proof {
                    lemma_streamed_end(
                        before,
                        next,
                        buffer_before,
                        between,
                        room_before,
                        left_before,
                        received,
                    );
                    assert(written + Seq::<u8>::empty() =~= written);
                }
            } else {
                out_buffer.bytes_written = writer.writer.index as u32;
                proof {
                    let record = record_bytes(
                        record_channel(received->Ok_0.receive_type),
                        received->Ok_0.address,
                        between.subrange(0, received->Ok_0.length as int),
                    );
                    assert(record.len() == 15 + received->Ok_0.length);
                    room = room_before - record.len();
                    left = (left_before - 1) as nat;
                    written = written_before + record;
                    assert(out_buffer.data@.subrange(0, writer.writer.index as int) =~= written);
                    let end = writer.writer.index as int;
                    let kept = data_before.skip(at);
                    let first = old(out_buffer).data@.skip(at);
                    assert forall|i: int| 0 <= i < size - end
                        implies #[trigger] out_buffer.data@.skip(
                        end,
                    )[i] == old(out_buffer).data@.skip(end)[i] by {
                        assert(kept[record.len() + i] == data_before[end + i]);
                        assert(first[record.len() + i] == old(out_buffer).data@[end + i]);
                    }
                    assert(out_buffer.data@.skip(end) =~= old(out_buffer).data@.skip(end));
                    assert forall|post: Tachyon, after: Seq<u8>, rest: Seq<u8>, more: nat| #[trigger]
                        streamed_as(
                            *server,
                            post,
                            receive_buffer@,
                            after,
                            room,
                            rest,
                            more,
                            left,
                        ) implies streamed_as(
                        *old(server),
                        post,
                        old(receive_buffer)@,
                        after,
                        size,
                        written + rest,
                        out_buffer.count as nat + more,
                        DRAIN_BUDGET as nat,
                    ) by {
                        lemma_streamed_more(
                            before,
                            next,
                            post,
                            buffer_before,
                            between,
                            after,
                            room_before,
                            rest,
                            more,
                            left,
                            received,
                        );
                        assert(written_before + (record + rest) =~= written + rest);
                    }
                }
            }
        }
        proof {
            if going {
                let none = Seq::<u8>::empty();
                assert(streamed_as(
                    *server,
                    *server,
                    receive_buffer@,
                    receive_buffer@,
                    room,
                    none,
                    0,
                    left,
                ));
                assert(written + none =~= written);
            }
        }
    }

    /// Receives once from the endpoint and, where a message came whose
    /// record fits behind those that the stream holds, writes that record
    /// and counts it. The stream's count of bytes is left for the caller.
    fn stream_next(
        server: &mut Tachyon,
        out_buffer: &mut OutBuffer,
        writer: &mut LengthPrefixed,
        receive_buffer: &mut [u8],
    ) -> (r: Result<TachyonReceiveSuccess, TachyonReceiveError>)
        requires
            old(server).wf(),
            old(out_buffer).data@.len() <= u32::MAX,
            old(out_buffer).count < DRAIN_BUDGET,
            old(writer).writer.index <= old(out_buffer).data@.len(),
            holds_records(
                old(out_buffer).data@,
                0,
                old(out_buffer).count as nat,
                old(writer).writer.index as int,
            ),
        ensures
            final(server).wf(),
            final(server).id == old(server).id,
            final(receive_buffer)@.len() == old(receive_buffer)@.len(),
            asked_as(
                *old(server),
                *final(server),
                old(receive_buffer)@,
                final(receive_buffer)@,
                r,
            ),
            final(out_buffer).bytes_written == old(out_buffer).bytes_written,
            if r is Ok && 0 < r->Ok_0.length && 15 + r->Ok_0.length <= old(out_buffer).data@.len()
                - old(writer).writer.index {
                &&& r->Ok_0.length <= final(receive_buffer)@.len()
                &&& final(out_buffer).data@ == splice(
                    old(out_buffer).data@,
                    old(writer).writer.index as int,
                    record_bytes(
                        record_channel(r->Ok_0.receive_type),
                        r->Ok_0.address,
                        final(receive_buffer)@.subrange(0, r->Ok_0.length as int),
                    ),
                )
                &&& final(out_buffer).count == old(out_buffer).count + 1
                &&& final(writer).writer.index == old(writer).writer.index + 15
                    + r->Ok_0.length
                &&& holds_records(
                    final(out_buffer).data@,
                    0,
                    final(out_buffer).count as nat,
                    final(writer).writer.index as int,
                )
            } else {
                &&& *final(out_buffer) == *old(out_buffer)
                &&& *final(writer) == *old(writer)
            },
    {
        let received = Self::ask(server, receive_buffer);
        let (length, channel, address) = match received {
            Ok(TachyonReceiveSuccess { length, receive_type, address }) => match receive_type {
                TachyonReceiveType::Reliable { channel } => (
                    length,
                    (channel % 256) as u8,
                    address,
                ),
                TachyonReceiveType::Unreliable => (length, 0u8, address),
            },
            Err(_) => (0, 0u8, NetworkAddress::default()),
        };
        if length > 0 && out_buffer.data.len() - writer.writer.index >= 15
            && out_buffer.data.len() - writer.writer.index - 15 >= length as usize {
            let message = vstd::slice::slice_subrange(receive_buffer, 0, length as usize);
            Self::append_record(out_buffer, writer, channel, address, message);
        }
        received
    }

    /// Copies the next stream that holds records into `receive_buffer`,
    /// says how many records and bytes it holds, and empties it. Streams
    /// that hold nothing, or more than `receive_buffer` takes, are passed
    /// over. Counts of zero say that no stream was copied.
    pub fn get_next_out_buffer(&mut self, receive_buffer: &mut [u8]) -> (r: OutBufferCounts)
        requires
            old(self).wf(),
        ensures
            final(self).wf(),
            old(self).stream_fetched_as(
                final(self),
                old(receive_buffer)@,
                final(receive_buffer)@,
                r,
            ),
            final(self).streams().len() == old(self).streams().len(),
            final(receive_buffer)@.len() == old(receive_buffer)@.len(),
            r.count > 0 ==> r.bytes_written <= old(receive_buffer)@.len() && holds_records(
                final(receive_buffer)@,
                0,
                r.count as nat,
                r.bytes_written as int,
            ),
    {
        let n = count_streams(&self.out_buffers);
        let room = receive_buffer.len();
        let ghost streams = self.streams();
        let mut i: usize = 0;
        assert(self.streams() =~= streams.skip(0) + streams.subrange(0, 0));
        while i < n
            invariant
                i <= n,
                n == streams.len(),
                streams == old(self).streams(),
                room == receive_buffer@.len(),
                self.wf(),
                old(self).wf(),
                *self == (Pool { out_buffers: self.out_buffers, ..*old(self) }),
                receive_buffer@ == old(receive_buffer)@,
                self.streams() == streams.skip(i as int) + streams.subrange(0, i as int),
                forall|j: int| 0 <= j < i ==> passed_over(#[trigger] streams[j], room as int),
            decreases n - i,
        {
            match pop_stream(&mut self.out_buffers) {
                Some(out_buffer) => {
                    let mut out_buffer = out_buffer;
                    assert(out_buffer == streams[i as int]);
                    assert(out_buffer.wf());
                    if out_buffer.count == 0 || out_buffer.bytes_written as usize > room {
                        push_stream(&mut self.out_buffers, out_buffer);
                        assert(self.streams() =~= streams.skip(i + 1) + streams.subrange(
                            0,
                            i + 1,
                        ));
                    } else {
                        let written = out_buffer.bytes_written as usize;
                        copy_bytes(receive_buffer, 0, out_buffer.data.as_slice(), 0, written);
                        let result = OutBufferCounts {
                            count: out_buffer.count,
                            bytes_written: out_buffer.bytes_written,
                        };
                        proof {
                            assert(receive_buffer@.subrange(0, written as int)
                                =~= out_buffer.data@.subrange(0, written as int));
                            lemma_records_moved(
                                out_buffer.data@,
                                receive_buffer@,
                                0,
                                out_buffer.count as nat,
                                written as int,
                            );
                        }
                        out_buffer.bytes_written = 0;
                        out_buffer.count = 0;
                        assert(holds_records(out_buffer.data@, 0, 0, 0));
                        push_stream(&mut self.out_buffers, out_buffer);
                        proof {
                            assert(self.streams() =~= (streams.skip(i + 1) + streams.subrange(
                                0,
                                i as int,
                            )).push(
                                OutBuffer { bytes_written: 0, count: 0, ..streams[i as int] },
                            ));
                            assert(!passed_over(streams[i as int], room as int));
                        }
                        return result;
                    }
                },
                None => {
                    assert(false);
                },
            }
            i = i + 1;
        }
        assert(self.streams() =~= streams);
        OutBufferCounts::default()
    }

    /// Starts a receive: every endpoint is moved from the pool to those in
    /// use, and then each of them has its turn: its messages are put into a
    /// queue. Returns whether it did; it does not where a receive has been
    /// started and not finished, or where the pool holds no endpoint.
    ///
    /// No endpoint is lost: those in use take as many as the pool holds.
    pub fn receive(&mut self) -> (r: bool)
        requires
            old(self).wf(),
        ensures
            final(self).wf(),
            r == (!old(self).receiving && old(self).servers@.dom().len() > 0),
            !r ==> *final(self) == *old(self),
            r ==> {
                &&& old(self).receive_started_as(final(self))
                &&& final(self).receiving
                &&& final(self).servers@ == Map::<u16, Tachyon>::empty()
                &&& final(self).in_use().len() == old(self).in_use().len() + old(
                    self,
                ).servers@.dom().len()
                &&& final(self).queues().len() == old(self).queues().len()
                &&& final(self).buffers().len() == old(self).buffers().len()
                &&& final(self).published == old(self).published
                &&& final(self).out_buffers == old(self).out_buffers
                &&& final(self).max_servers == old(self).max_servers
                &&& final(self).receive_buffer_len == old(self).receive_buffer_len
            },
    {
        if self.receiving {
            return false;
        }
        let server_count = map_len(&self.servers);
        if server_count == 0 {
            return false;
        }
        let ids = map_keys(&self.servers);
        proof {
            ids@.unique_seq_to_set();
            assert(ids@.to_set() =~= self.servers@.dom());
            assert forall|post: Pool, rest: Seq<u16>| #[trigger]
                self.servers_moved_as(&post, rest) implies old(self).servers_moved_as(
                &post,
                ids@.subrange(0, 0) + rest,
            ) by {
                assert(ids@.subrange(0, 0) + rest =~= rest);
            }
        }
        let mut i: usize = 0;
        while i < ids.len()
            invariant
                i <= ids@.len(),
                ids@.no_duplicates(),
                ids@.len() == old(self).servers@.dom().len(),
                server_count == ids@.len(),
                self.wf(),
                forall|s: u16|
                    self.servers@.contains_key(s) <==> (exists|j: int|
                        i <= j < ids@.len() && #[trigger] ids@[j] == s),
                *self == (Pool {
                    servers: self.servers,
                    servers_in_use: self.servers_in_use,
                    ..*old(self)
                }),
                self.in_use().len() == old(self).in_use().len() + i,
                forall|post: Pool, rest: Seq<u16>| #[trigger]
                    self.servers_moved_as(&post, rest) ==> old(self).servers_moved_as(
                        &post,
                        ids@.subrange(0, i as int) + rest,
                    ),
            decreases ids@.len() - i,
        {
            let id = ids[i];
            let ghost before = *self;
            assert(self.servers@.contains_key(id));
            match map_remove(&mut self.servers, &id) {
                Some(server) => {
                    push_endpoint(&mut self.servers_in_use, server);
                },
                None => {
                    assert(false);
                },
            }
            proof {
                assert(before.server_moved_as(self, id));
                let next = *self;
                assert forall|post: Pool, rest: Seq<u16>| #[trigger]
                    self.servers_moved_as(&post, rest) implies old(self).servers_moved_as(
                    &post,
                    ids@.subrange(0, i + 1) + rest,
                ) by {
                    let longer = seq![id] + rest;
                    assert(longer[0] == id);
                    assert(longer.skip(1) =~= rest);
                    assert(before.server_moved_as(&next, longer[0]));
                    assert(before.servers_moved_as(&post, longer));
                    assert(ids@.subrange(0, i as int) + longer =~= ids@.subrange(0, i + 1) + rest);
                }
                assert forall|s: u16|
                    self.servers@.contains_key(s) <==> (exists|j: int|
                        i + 1 <= j < ids@.len() && #[trigger] ids@[j] == s) by {
                    if exists|j: int| i + 1 <= j < ids@.len() && #[trigger] ids@[j] == s {
                        let j = choose|j: int| i + 1 <= j < ids@.len() && #[trigger] ids@[j] == s;
                        assert(i <= j < ids@.len() && ids@[j] == s);
                        assert(ids@[j] != ids@[i as int]);
                    }
                    if self.servers@.contains_key(s) {
                        let j = choose|j: int| i <= j < ids@.len() && #[trigger] ids@[j] == s;
                        assert(i + 1 <= j < ids@.len() && ids@[j] == s);
                    }
                }
            }
            i = i + 1;
        }
        let ghost moved = *self;
        proof {
            assert(self.servers@ =~= Map::<u16, Tachyon>::empty());
            assert(moved.servers_moved_as(&moved, Seq::<u16>::empty()));
            assert(ids@.subrange(0, i as int) + Seq::<u16>::empty() =~= ids@);
            assert(old(self).servers_moved_as(&moved, ids@));
            assert forall|post: Pool, more: nat| #[trigger]
                self.turns_taken_as(&post, more) implies moved.turns_taken_as(
                &post,
                0 + more,
            ) by {
                assert(0 + more == more);
            }
        }
        let mut turn: usize = 0;
        while turn < server_count
            invariant
                turn <= server_count,
                self.wf(),
                self.servers@ == Map::<u16, Tachyon>::empty(),
                self.queues().len() == old(self).queues().len(),
                self.buffers().len() == old(self).buffers().len(),
                self.in_use().len() == old(self).in_use().len() + server_count,
                *self == (Pool {
                    servers_in_use: self.servers_in_use,
                    receive_queue: self.receive_queue,
                    receive_buffers: self.receive_buffers,
                    ..moved
                }),
                moved == (Pool {
                    servers: moved.servers,
                    servers_in_use: moved.servers_in_use,
                    ..*old(self)
                }),
                forall|post: Pool, more: nat| #[trigger]
                    self.turns_taken_as(&post, more) ==> moved.turns_taken_as(
                        &post,
                        turn as nat + more,
                    ),
            decreases server_count - turn,
        {
            let ghost before = *self;
            self.take_turn();
            proof {
                let next = *self;
                assert forall|post: Pool, more: nat| #[trigger]
                    self.turns_taken_as(&post, more) implies moved.turns_taken_as(
                    &post,
                    (turn + 1) as nat + more,
                ) by {
                    assert(before.turn_taken_as(&next));
                    assert(before.turns_taken_as(&post, more + 1));
                    assert(turn as nat + (more + 1) == (turn + 1) as nat + more);
                }
            }
            turn = turn + 1;
        }
        let ghost served = *self;
        self.receiving = true;
        proof {
            assert(served.turns_taken_as(&served, 0));
            assert(turn as nat + 0 == ids@.len());
            assert(moved.turns_taken_as(&served, ids@.len()));
        }
        true
    }

    /// The turn of the endpoint that has waited longest among those in use:
    /// it is received from and goes to the back.
    fn take_turn(&mut self)
        requires
            old(self).wf(),
        ensures
            final(self).wf(),
            old(self).turn_taken_as(final(self)),
            final(self).queues().len() == old(self).queues().len(),
            final(self).buffers().len() == old(self).buffers().len(),
            final(self).in_use().len() == old(self).in_use().len(),
    {
        match pop_endpoint(&mut self.servers_in_use) {
            Some(server) => {
                let mut server = server;
                self.drain_into_queue(&mut server);
                push_endpoint(&mut self.servers_in_use, server);
                assert(queue_filled_as(
                    old(self).queues(),
                    self.queues(),
                    old(self).buffers(),
                    self.buffers(),
                    old(self).in_use()[0],
                    server,
                ));
            },
            None => {},
        }
    }

    /// Takes the messages of one endpoint into one of the pool's queues,
    /// with one of the pool's receive buffers. Nothing happens where the
    /// pool has no queue or no buffer left.
    fn drain_into_queue(&mut self, server: &mut Tachyon)
        requires
            old(self).wf(),
            old(server).wf(),
        ensures
            final(self).wf(),
            final(server).wf(),
            final(server).id == old(server).id,
            *final(self) == (Pool {
                receive_queue: final(self).receive_queue,
                receive_buffers: final(self).receive_buffers,
                ..*old(self)
            }),
            final(self).queues().len() == old(self).queues().len(),
            final(self).buffers().len() == old(self).buffers().len(),
            queue_filled_as(
                old(self).queues(),
                final(self).queues(),
                old(self).buffers(),
                final(self).buffers(),
                *old(server),
                *final(server),
            ),
    {
        let mut receive_queue = match pop_queue(&mut self.receive_queue) {
            Some(queue) => queue,
            None => {
                return ;
            },
        };
        match pop_buffer(&mut self.receive_buffers) {
            Some(buffer) => {
                let mut receive_buffer = buffer;
                Self::receive_server(server, &mut receive_queue, receive_buffer.as_mut_slice());
                push_buffer(&mut self.receive_buffers, receive_buffer);
                push_queue(&mut self.receive_queue, receive_queue);
                proof {
                    assert(self.queues().drop_last() =~= old(self).queues().skip(1));
                    assert(self.buffers().drop_last() =~= old(self).buffers().skip(
                        1,
                    ));
                }
            },
            None => {
                push_queue(&mut self.receive_queue, receive_queue);
                assert(self.queues() =~= old(self).queues().skip(1).push(
                    old(self).queues()[0],
                ));
            },
        }
    }

    /// Finishes a receive: the messages of all queues go to the published
    /// queue and the endpoints go back into the pool. Returns how many
    /// endpoints went back and how many messages were published: zeros
    /// where no receive was started.
    pub fn finish_receive(&mut self) -> (r: (u32, i32))
        requires
            old(self).wf(),
        ensures
            final(self).wf(),
            !old(self).receiving ==> r == (0u32, 0i32) && *final(self) == *old(self),
            old(self).receiving ==> {
                &&& !final(self).receiving
                &&& final(self).in_use().len() == 0
                &&& r.0 == old(self).in_use().len()
                &&& r.1 == capped(all_messages(old(self).queues()).len())
                &&& final(self).published@ == old(self).published@ + all_messages(
                    old(self).queues(),
                )
                &&& final(self).queues().len() == old(self).queues().len()
                &&& forall|i: int|
                    0 <= i < final(self).queues().len()
                        ==> (#[trigger] final(self).queues()[i])@.len() == 0
                &&& final(self).servers@ == filed(old(self).servers@, old(self).in_use())
                &&& *final(self) == (Pool {
                    servers: final(self).servers,
                    servers_in_use: final(self).servers_in_use,
                    published: final(self).published,
                    receive_queue: final(self).receive_queue,
                    receiving: false,
                    ..*old(self)
                })
                &&& forall|i: int|
                    0 <= i < old(self).in_use().len() ==> final(self).servers@.contains_key(
                        (#[trigger] old(self).in_use()[i]).id,
                    )
                &&& forall|k: u16|
                    old(self).servers@.contains_key(k) ==> final(self).servers@.contains_key(k)
            },
    {
        if !self.receiving {
            return (0, 0);
        }
        let message_count = self.move_received_to_published();
        let ghost moved = *self;
        let mut server_count: u32 = 0;
        let n = count_endpoints(&self.servers_in_use);
        let mut i: usize = 0;
        assert(old(self).in_use().subrange(0, 0) =~= Seq::<Tachyon>::empty());
        while i < n
            invariant
                i <= n,
                n == old(self).in_use().len(),
                self.wf(),
                server_count == (if i <= u32::MAX {
                    i as u32
                } else {
                    u32::MAX
                }),
                self.in_use() == old(self).in_use().skip(i as int),
                self.servers@ == filed(
                    old(self).servers@,
                    old(self).in_use().subrange(0, i as int),
                ),
                *self == (Pool {
                    servers: self.servers,
                    servers_in_use: self.servers_in_use,
                    ..moved
                }),
                self.receiving,
                forall|j: int|
                    0 <= j < i ==> self.servers@.contains_key(
                        (#[trigger] old(self).in_use()[j]).id,
                    ),
                forall|k: u16|
                    old(self).servers@.contains_key(k) ==> self.servers@.contains_key(k),
            decreases n - i,
        {
            let ghost rest = self.in_use();
            match pop_endpoint(&mut self.servers_in_use) {
                Some(server) => {
                    assert(server == rest[0]);
                    assert(server == old(self).in_use()[i as int]);
                    assert(server.wf());
                    if server_count < u32::MAX {
                        server_count = server_count + 1;
                    }
                    let id = server.id;
                    map_insert(&mut self.servers, id, server);
                    proof {
                        let more = old(self).in_use().subrange(0, i + 1);
                        assert(more.drop_last() =~= old(self).in_use().subrange(
                            0,
                            i as int,
                        ));
                        assert(more.last() == server);
                        assert(self.in_use() =~= old(self).in_use().skip(i + 1));
                    }
                },
                None => {
                    assert(false);
                },
            }
            i = i + 1;
        }
        self.receiving = false;
        assert(old(self).in_use().subrange(0, n as int) =~= old(self).in_use());
        (server_count, message_count)
    }

    /// Receives from every endpoint, one after the other, and publishes
    /// what they had.
    pub fn receive_blocking(&mut self)
        requires
            old(self).wf(),
        ensures
            final(self).wf(),
            old(self).received_as(final(self)),
            final(self).servers@.dom() == old(self).servers@.dom(),
            final(self).queues().len() == old(self).queues().len(),
            final(self).buffers().len() == old(self).buffers().len(),
            final(self).out_buffers == old(self).out_buffers,
            final(self).receiving == old(self).receiving,
            old(self).published@.len() <= final(self).published@.len(),
            final(self).published@.subrange(0, old(self).published@.len() as int) == old(
                self,
            ).published@,
            forall|i: int|
                0 <= i < final(self).queues().len()
                    ==> (#[trigger] final(self).queues()[i])@.len() == 0,
    {
        let ids = map_keys(&self.servers);
        proof {
            assert forall|post: Pool, rest: Seq<u16>| #[trigger]
                self.servers_asked_as(&post, rest) implies old(self).servers_asked_as(
                &post,
                ids@.subrange(0, 0) + rest,
            ) by {
                assert(ids@.subrange(0, 0) + rest =~= rest);
            }
        }
        let mut i: usize = 0;
        while i < ids.len()
            invariant
                i <= ids@.len(),
                self.wf(),
                self.servers@.dom() == old(self).servers@.dom(),
                forall|k: u16| ids@.contains(k) <==> old(self).servers@.contains_key(k),
                self.queues().len() == old(self).queues().len(),
                self.buffers().len() == old(self).buffers().len(),
                self.out_buffers == old(self).out_buffers,
                self.receiving == old(self).receiving,
                self.published == old(self).published,
                forall|post: Pool, rest: Seq<u16>| #[trigger]
                    self.servers_asked_as(&post, rest) ==> old(self).servers_asked_as(
                        &post,
                        ids@.subrange(0, i as int) + rest,
                    ),
            decreases ids@.len() - i,
        {
            let id = ids[i];
            let ghost before = *self;
            assert(ids@.contains(id));
            self.receive_one(id);
            proof {
                let next = *self;
                assert forall|post: Pool, rest: Seq<u16>| #[trigger]
                    self.servers_asked_as(&post, rest) implies old(self).servers_asked_as(
                    &post,
                    ids@.subrange(0, i + 1) + rest,
                ) by {
                    let longer = seq![id] + rest;
                    assert(longer[0] == id);
                    assert(longer.skip(1) =~= rest);
                    assert(before.server_asked_as(&next, longer[0]));
                    assert(before.servers_asked_as(&post, longer));
                    assert(ids@.subrange(0, i as int) + longer =~= ids@.subrange(0, i + 1) + rest);
                }
            }
            i = i + 1;
        }
        let ghost asked = *self;
        proof {
            assert(asked.servers_asked_as(&asked, Seq::<u16>::empty()));
            assert(ids@.subrange(0, i as int) + Seq::<u16>::empty() =~= ids@);
            assert(old(self).servers_asked_as(&asked, ids@));
        }
        self.move_received_to_published();
        assert(self.published@.subrange(0, old(self).published@.len() as int) =~= old(
            self,
        ).published@);
    }

    /// Takes the messages of the endpoint `id` into one of the pool's
    /// queues, leaving the endpoint in the pool.
    fn receive_one(&mut self, id: u16)
        requires
            old(self).wf(),
            old(self).servers@.contains_key(id),
        ensures
            final(self).wf(),
            final(self).servers@.dom() == old(self).servers@.dom(),
            final(self).queues().len() == old(self).queues().len(),
            final(self).buffers().len() == old(self).buffers().len(),
            old(self).server_asked_as(final(self), id),
    {
        let ghost before = self.servers@;
        let mut receive_queue = match pop_queue(&mut self.receive_queue) {
            Some(queue) => queue,
            None => {
                proof {
                    assert(self.servers@ =~= before.insert(id, before[id]));
                    assert(queue_filled_as(
                        old(self).queues(),
                        self.queues(),
                        old(self).buffers(),
                        self.buffers(),
                        before[id],
                        before[id],
                    ));
                }
                return ;
            },
        };
        match pop_buffer(&mut self.receive_buffers) {
            Some(buffer) => {
                let mut receive_buffer = buffer;
                let ghost mut server_after = before[id];
                match map_get_mut(&mut self.servers, &id) {
                    Some(server) => {
                        Self::receive_server(
                            server,
                            &mut receive_queue,
                            receive_buffer.as_mut_slice(),
                        );
                        proof {
                            server_after = *server;
                        }
                    },
                    None => {
                        assert(false);
                    },
                }
                push_buffer(&mut self.receive_buffers, receive_buffer);
                push_queue(&mut self.receive_queue, receive_queue);
                proof {
                    assert(self.queues().drop_last() =~= old(self).queues().skip(1));
                    assert(self.buffers().drop_last() =~= old(self).buffers().skip(
                        1,
                    ));
                    assert(queue_filled_as(
                        old(self).queues(),
                        self.queues(),
                        old(self).buffers(),
                        self.buffers(),
                        before[id],
                        server_after,
                    ));
                }
            },
            None => {
                push_queue(&mut self.receive_queue, receive_queue);
                proof {
                    assert(self.queues() =~= old(self).queues().skip(1).push(
                        old(self).queues()[0],
                    ));
                    assert(self.servers@ =~= before.insert(id, before[id]));
                    assert(queue_filled_as(
                        old(self).queues(),
                        self.queues(),
                        old(self).buffers(),
                        self.buffers(),
                        before[id],
                        before[id],
                    ));
                }
            },
        }
        assert(self.servers@.dom() =~= before.dom());
    }

    /// Receives from every endpoint, one after the other, each into an out
    /// buffer of its own, as a stream of records. A stream that was not
    /// fetched since the last call is lost.
    pub fn receive_blocking_out_buffer(&mut self)
        requires
            old(self).wf(),
        ensures
            final(self).wf(),
            old(self).all_streamed_as(final(self)),
            final(self).servers@.dom() == old(self).servers@.dom(),
            final(self).streams().len() == old(self).streams().len(),
            final(self).buffers().len() == old(self).buffers().len(),
            final(self).receive_queue == old(self).receive_queue,
            final(self).published == old(self).published,
            final(self).receiving == old(self).receiving,
    {
        let ids = map_keys(&self.servers);
        proof {
            assert forall|post: Pool, rest: Seq<u16>| #[trigger]
                self.servers_streamed_as(&post, rest) implies old(self).servers_streamed_as(
                &post,
                ids@.subrange(0, 0) + rest,
            ) by {
                assert(ids@.subrange(0, 0) + rest =~= rest);
            }
        }
        let mut i: usize = 0;
        while i < ids.len()
            invariant
                i <= ids@.len(),
                self.wf(),
                self.servers@.dom() == old(self).servers@.dom(),
                forall|k: u16| ids@.contains(k) <==> old(self).servers@.contains_key(k),
                self.streams().len() == old(self).streams().len(),
                self.buffers().len() == old(self).buffers().len(),
                self.receive_queue == old(self).receive_queue,
                self.published == old(self).published,
                self.receiving == old(self).receiving,
                forall|post: Pool, rest: Seq<u16>| #[trigger]
                    self.servers_streamed_as(&post, rest) ==> old(self).servers_streamed_as(
                        &post,
                        ids@.subrange(0, i as int) + rest,
                    ),
            decreases ids@.len() - i,
        {
            let id = ids[i];
            let ghost before = *self;
            assert(ids@.contains(id));
            self.stream_one(id);
            proof {
                let next = *self;
                assert forall|post: Pool, rest: Seq<u16>| #[trigger]
                    self.servers_streamed_as(&post, rest) implies old(self).servers_streamed_as(
                    &post,
                    ids@.subrange(0, i + 1) + rest,
                ) by {
                    let longer = seq![id] + rest;
                    assert(longer[0] == id);
                    assert(longer.skip(1) =~= rest);
                    assert(before.server_streamed_as(&next, longer[0]));
                    assert(before.servers_streamed_as(&post, longer));
                    assert(ids@.subrange(0, i as int) + longer =~= ids@.subrange(0, i + 1) + rest);
                }
            }
            i = i + 1;
        }
        proof {
            let streamed = *self;
            assert(streamed.servers_streamed_as(&streamed, Seq::<u16>::empty()));
            assert(ids@.subrange(0, i as int) + Seq::<u16>::empty() =~= ids@);
            assert(old(self).servers_streamed_as(&streamed, ids@));
        }
    }

    /// Takes the messages of the endpoint `id` into one of the pool's out
    /// buffers, leaving the endpoint in the pool.
    fn stream_one(&mut self, id: u16)
        requires
            old(self).wf(),
            old(self).servers@.contains_key(id),
        ensures
            final(self).wf(),
            final(self).servers@.dom() == old(self).servers@.dom(),
            final(self).streams().len() == old(self).streams().len(),
            final(self).buffers().len() == old(self).buffers().len(),
            old(self).server_streamed_as(final(self), id),
    {
        let ghost before = self.servers@;
        let mut out_buffer = match pop_stream(&mut self.out_buffers) {
            Some(buffer) => buffer,
            None => {
                proof {
                    assert(self.servers@ =~= before.insert(id, before[id]));
                    assert(stream_filled_as(
                        old(self).streams(),
                        self.streams(),
                        old(self).buffers(),
                        self.buffers(),
                        before[id],
                        before[id],
                    ));
                }
                return ;
            },
        };
        let ghost first = out_buffer;
        match pop_buffer(&mut self.receive_buffers) {
            Some(buffer) => {
                let mut receive_buffer = buffer;
                let ghost mut server_after = before[id];
                match map_get_mut(&mut self.servers, &id) {
                    Some(server) => {
                        Self::receive_server_into_out_buffer(
                            server,
                            &mut out_buffer,
                            receive_buffer.as_mut_slice(),
                        );
                        proof {
                            server_after = *server;
                        }
                    },
                    None => {
                        assert(false);
                    },
                }
                push_buffer(&mut self.receive_buffers, receive_buffer);
                push_stream(&mut self.out_buffers, out_buffer);
                proof {
                    assert(self.streams().drop_last() =~= old(self).streams().skip(1));
                    assert(self.buffers().drop_last() =~= old(self).buffers().skip(
                        1,
                    ));
                    assert(stream_filled_as(
                        old(self).streams(),
                        self.streams(),
                        old(self).buffers(),
                        self.buffers(),
                        before[id],
                        server_after,
                    ));
                }
            },
            None => {
                out_buffer.bytes_written = 0;
                out_buffer.count = 0;
                assert(holds_records(out_buffer.data@, 0, 0, 0));
                push_stream(&mut self.out_buffers, out_buffer);
                proof {
                    assert(self.streams() =~= old(self).streams().skip(1).push(
                        OutBuffer { bytes_written: 0, count: 0, ..first },
                    ));
                    assert(self.servers@ =~= before.insert(id, before[id]));
                    assert(stream_filled_as(
                        old(self).streams(),
                        self.streams(),
                        old(self).buffers(),
                        self.buffers(),
                        before[id],
                        before[id],
                    ));
                }
            },
        }
        assert(self.servers@.dom() =~= before.dom());
    }

    /// Takes the message that has waited longest in the published queue.
    pub fn take_published(&mut self) -> (r: Option<Vec<u8>>)
        ensures
            *final(self) == (Pool { published: final(self).published, ..*old(self) }),
            match r {
                Some(message) => old(self).published@.len() > 0 && message == old(
                    self,
                ).published@[0] && final(self).published@ == old(self).published@.subrange(
                    1,
                    old(self).published@.len() as int,
                ),
                None => old(self).published@.len() == 0 && final(self).published@ == old(
                    self,
                ).published@,
            },
    {
        self.published.pop_front()
    }

    /// Takes messages from one endpoint until it has none, fails, or 100000
    /// have been taken, and puts a copy of each at the end of the queue.
    /// Returns how many it put there.
    pub fn receive_server(
        server: &mut Tachyon,
        receive_queue: &mut VecDeque<Vec<u8>>,
        receive_buffer: &mut [u8],
    ) -> (r: u32)
        requires
            old(server).wf(),
        ensures
            final(server).wf(),
            final(server).id == old(server).id,
            final(receive_buffer)@.len() == old(receive_buffer)@.len(),
            r <= DRAIN_BUDGET,
            final(receive_queue)@.len() == old(receive_queue)@.len() + r,
            final(receive_queue)@.subrange(0, old(receive_queue)@.len() as int) == old(
                receive_queue,
            )@,
            emptied_as(
                *old(server),
                *final(server),
                old(receive_buffer)@,
                final(receive_buffer)@,
                bytes_of(final(receive_queue)@.skip(old(receive_queue)@.len() as int)),
                DRAIN_BUDGET as nat,
            ),
    {
        let mut taken: u32 = 0;
        let mut going = true;
        let ghost mut handed: Seq<Seq<u8>> = Seq::empty();
        proof {
            assert(receive_queue@.subrange(0, old(receive_queue)@.len() as int) =~= old(
                receive_queue,
            )@);
            assert(bytes_of(receive_queue@.skip(old(receive_queue)@.len() as int)) =~= handed);
            assert forall|post: Tachyon, after: Seq<u8>, rest: Seq<Seq<u8>>| #[trigger]
                emptied_as(
                    *server,
                    post,
                    receive_buffer@,
                    after,
                    rest,
                    (DRAIN_BUDGET - taken) as nat,
                ) implies emptied_as(
                *old(server),
                post,
                old(receive_buffer)@,
                after,
                handed + rest,
                DRAIN_BUDGET as nat,
            ) by {
                assert(handed + rest =~= rest);
            }
        }
        while going && taken < DRAIN_BUDGET
            invariant
                taken <= DRAIN_BUDGET,
                server.wf(),
                server.id == old(server).id,
                receive_buffer@.len() == old(receive_buffer)@.len(),
                receive_queue@.len() == old(receive_queue)@.len() + taken,
                receive_queue@.subrange(0, old(receive_queue)@.len() as int) == old(
                    receive_queue,
                )@,
                handed == bytes_of(receive_queue@.skip(old(receive_queue)@.len() as int)),
                going ==> forall|post: Tachyon, after: Seq<u8>, rest: Seq<Seq<u8>>| #[trigger]
                    emptied_as(
                        *server,
                        post,
                        receive_buffer@,
                        after,
                        rest,
                        (DRAIN_BUDGET - taken) as nat,
                    ) ==> emptied_as(
                        *old(server),
                        post,
                        old(receive_buffer)@,
                        after,
                        handed + rest,
                        DRAIN_BUDGET as nat,
                    ),
                !going ==> emptied_as(
                    *old(server),
                    *server,
                    old(receive_buffer)@,
                    receive_buffer@,
                    handed,
                    DRAIN_BUDGET as nat,
                ),
            decreases (if going { 1int } else { 0int }) + DRAIN_BUDGET - taken,
        {
            let ghost before = *server;
            let ghost buffer_before = receive_buffer@;
            let ghost left = (DRAIN_BUDGET - taken) as nat;
            let ghost handed_before = handed;
            let received = Self::ask(server, receive_buffer);
            let ghost between = receive_buffer@;
            let ghost next = *server;
            let length = match received {
                Ok(success) => success.length,
                Err(_) => 0,
            };
            if length == 0 {
                going = false;
                proof {
                    lemma_emptied_end(before, next, buffer_before, between, left, received);
                    assert(handed + Seq::<Seq<u8>>::empty() =~= handed);
                }
            } else {
                let mut message: Vec<u8> = vec![0u8; length as usize];
                copy_bytes(message.as_mut_slice(), 0, receive_buffer, 0, length as usize);
                receive_queue.push_back(message);
                taken = taken + 1;
                proof {
                    let bytes = between.subrange(0, length as int);
                    assert(message@ =~= bytes);
                    handed = handed_before.push(bytes);
                    assert(receive_queue@.subrange(0, old(receive_queue)@.len() as int) =~= old(
                        receive_queue,
                    )@);
                    assert(bytes_of(receive_queue@.skip(old(receive_queue)@.len() as int))
                        =~= handed);
                    assert forall|post: Tachyon, after: Seq<u8>, rest: Seq<Seq<u8>>| #[trigger]
                        emptied_as(
                            *server,
                            post,
                            receive_buffer@,
                            after,
                            rest,
                            (DRAIN_BUDGET - taken) as nat,
                        ) implies emptied_as(
                        *old(server),
                        post,
                        old(receive_buffer)@,
                        after,
                        handed + rest,
                        DRAIN_BUDGET as nat,
                    ) by {
                        lemma_emptied_more(
                            before,
                            next,
                            post,
                            buffer_before,
                            between,
                            after,
                            rest,
                            (DRAIN_BUDGET - taken) as nat,
                            received,
                        );
                        assert(handed_before + (seq![bytes] + rest) =~= handed + rest);
                    }
                }
            }
        }
        proof {
            if going {
                let none = Seq::<Seq<u8>>::empty();
                assert(emptied_as(
                    *server,
                    *server,
                    receive_buffer@,
                    receive_buffer@,
                    none,
                    (DRAIN_BUDGET - taken) as nat,
                ));
                assert(handed + none =~= handed);
            }
        }
        taken
    }
}

} // verus!
