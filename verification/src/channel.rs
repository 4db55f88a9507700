//! A channel: one receiver, one store of sent frames and one fragmenter,
//! bound to a peer, with the counters that tell how it fares.

use crate::byte_buffer_pool::ByteBuffer;
use crate::counter::{add_wrapping, bump, next_count, wrapped_sum};
use crate::fragmentation::{assembled, has_all, Fragmentation};
use crate::fx_map::{map_clear, map_get, map_insert, map_keys, map_new};
use crate::header::{
    base_header_bytes, base_header_of, fragmented_header_of, nacked_header_bytes, zero_header,
    Header,
    MESSAGE_TYPE_FRAGMENT, MESSAGE_TYPE_NACK, MESSAGE_TYPE_NONE, MESSAGE_TYPE_RELIABLE,
    MESSAGE_TYPE_RELIABLE_WITH_NACK, TACHYON_FRAGMENTED_HEADER_SIZE, TACHYON_HEADER_SIZE,
    TACHYON_NACKED_HEADER_SIZE,
};
use crate::int_buffer::{copy_bytes, splice};
use crate::nack::{all_nacked, single_nack_at, varint_nacks_at, varint_nacks_bytes, Nack};
use crate::network_address::NetworkAddress;
use crate::receiver::Receiver;
use crate::send_buffer_manager::SendBufferManager;
use crate::send_result::{TachyonSendError, TachyonSendSuccess};
use crate::sequence::seq_next;
use crate::tachyon_socket::TachyonSocket;
use rustc_hash::FxHashMap;
use vstd::prelude::*;

verus! {

pub const NACK_REDUNDANCY_DEFAULT: u32 = 1;

pub const RECEIVE_WINDOW_SIZE_DEFAULT: u32 = 512;

/// How often `receive_published` looks at the queue before it gives up.
pub const PUBLISH_RETRY_BUDGET: u32 = 1000;

#[derive(Clone, Copy, Debug, PartialEq, Eq, Structural)]
pub struct ChannelStats {
    pub sent: u64,
    pub received: u64,
    pub bytes_sent: u64,
    pub bytes_received: u64,
    pub fragments_sent: u64,
    pub fragments_received: u64,
    pub fragments_assembled: u64,
    pub published: u64,
    pub published_consumed: u64,
    pub nacks_sent: u64,
    pub nacks_received: u64,
    pub resent: u64,
    pub nones_sent: u64,
    pub nones_received: u64,
    pub nones_accepted: u64,
    pub skipped_sequences: u64,
}

/// Counters that are all zero.
pub open spec fn zero_stats() -> ChannelStats {
    ChannelStats {
        sent: 0,
        received: 0,
        bytes_sent: 0,
        bytes_received: 0,
        fragments_sent: 0,
        fragments_received: 0,
        fragments_assembled: 0,
        published: 0,
        published_consumed: 0,
        nacks_sent: 0,
        nacks_received: 0,
        resent: 0,
        nones_sent: 0,
        nones_received: 0,
        nones_accepted: 0,
        skipped_sequences: 0,
    }
}

/// Counter by counter, the sum of two sets of counters, each wrapped to 64
/// bits.
pub open spec fn stats_sum(a: ChannelStats, b: ChannelStats) -> ChannelStats {
    ChannelStats {
        sent: wrapped_sum(a.sent, b.sent),
        received: wrapped_sum(a.received, b.received),
        bytes_sent: wrapped_sum(a.bytes_sent, b.bytes_sent),
        bytes_received: wrapped_sum(a.bytes_received, b.bytes_received),
        fragments_sent: wrapped_sum(a.fragments_sent, b.fragments_sent),
        fragments_received: wrapped_sum(a.fragments_received, b.fragments_received),
        fragments_assembled: wrapped_sum(a.fragments_assembled, b.fragments_assembled),
        published: wrapped_sum(a.published, b.published),
        published_consumed: wrapped_sum(a.published_consumed, b.published_consumed),
        nacks_sent: wrapped_sum(a.nacks_sent, b.nacks_sent),
        nacks_received: wrapped_sum(a.nacks_received, b.nacks_received),
        resent: wrapped_sum(a.resent, b.resent),
        nones_sent: wrapped_sum(a.nones_sent, b.nones_sent),
        nones_received: wrapped_sum(a.nones_received, b.nones_received),
        nones_accepted: wrapped_sum(a.nones_accepted, b.nones_accepted),
        skipped_sequences: wrapped_sum(a.skipped_sequences, b.skipped_sequences),
    }
}

impl Default for ChannelStats {
    fn default() -> (r: Self)
        ensures
            r == zero_stats(),
    {
        ChannelStats {
            sent: 0,
            received: 0,
            bytes_sent: 0,
            bytes_received: 0,
            fragments_sent: 0,
            fragments_received: 0,
            fragments_assembled: 0,
            published: 0,
            published_consumed: 0,
            nacks_sent: 0,
            nacks_received: 0,
            resent: 0,
            nones_sent: 0,
            nones_received: 0,
            nones_accepted: 0,
            skipped_sequences: 0,
        }
    }
}

impl ChannelStats {
    /// Adds the counters of `other` to these.
    pub fn add_from(&mut self, other: &Self)
        ensures
            *final(self) == stats_sum(*old(self), *other),
    {
        self.sent = add_wrapping(self.sent, other.sent);
        self.received = add_wrapping(self.received, other.received);
        self.bytes_sent = add_wrapping(self.bytes_sent, other.bytes_sent);
        self.bytes_received = add_wrapping(self.bytes_received, other.bytes_received);
        self.fragments_sent = add_wrapping(self.fragments_sent, other.fragments_sent);
        self.fragments_received = add_wrapping(self.fragments_received, other.fragments_received);
        self.fragments_assembled = add_wrapping(
            self.fragments_assembled,
            other.fragments_assembled,
        );
        self.published = add_wrapping(self.published, other.published);
        self.published_consumed = add_wrapping(self.published_consumed, other.published_consumed);
        self.nacks_sent = add_wrapping(self.nacks_sent, other.nacks_sent);
        self.nacks_received = add_wrapping(self.nacks_received, other.nacks_received);
        self.resent = add_wrapping(self.resent, other.resent);
        self.nones_sent = add_wrapping(self.nones_sent, other.nones_sent);
        self.nones_received = add_wrapping(self.nones_received, other.nones_received);
        self.nones_accepted = add_wrapping(self.nones_accepted, other.nones_accepted);
        self.skipped_sequences = add_wrapping(self.skipped_sequences, other.skipped_sequences);
    }
}

#[derive(Clone, Copy, Debug, PartialEq, Eq, Structural)]
pub struct ChannelConfig {
    /// How many sequences the receive window spans. A channel takes a size
    /// below 1 for 1 and one above 16384 for 16384.
    pub receive_window_size: u32,
    pub nack_redundancy: u32,
    pub ordered: u32,
}

impl Default for ChannelConfig {
    fn default() -> (r: Self)
        ensures
            r == (ChannelConfig { receive_window_size: 0, nack_redundancy: 0, ordered: 0 }),
    {
        ChannelConfig { receive_window_size: 0, nack_redundancy: 0, ordered: 0 }
    }
}

/// The configuration of a standard channel: the default window and
/// redundancy, ordered or not.
pub open spec fn standard_config(ordered: u32) -> ChannelConfig {
    ChannelConfig {
        ordered,
        receive_window_size: RECEIVE_WINDOW_SIZE_DEFAULT,
        nack_redundancy: NACK_REDUNDANCY_DEFAULT,
    }
}

impl ChannelConfig {
    #[must_use]
    pub fn default_ordered() -> (r: Self)
        ensures
            r == standard_config(1),
    {
        ChannelConfig {
            ordered: 1,
            receive_window_size: RECEIVE_WINDOW_SIZE_DEFAULT,
            nack_redundancy: NACK_REDUNDANCY_DEFAULT,
        }
    }

    #[must_use]
    pub fn default_unordered() -> (r: Self)
        ensures
            r == standard_config(0),
    {
        ChannelConfig {
            ordered: 0,
            receive_window_size: RECEIVE_WINDOW_SIZE_DEFAULT,
            nack_redundancy: NACK_REDUNDANCY_DEFAULT,
        }
    }

    #[must_use]
    pub fn is_ordered(&self) -> (r: bool)
        ensures
            r == (self.ordered == 1),
    {
        self.ordered == 1
    }
}

pub struct Channel {
    pub id: u8,
    pub address: NetworkAddress,
    pub frag: Fragmentation,
    pub send_buffers: SendBufferManager,
    pub receiver: Receiver,
    pub stats: ChannelStats,
    pub nack_send_data: Vec<u8>,
    pub nacked_sequences: Vec<u16>,
    pub nacked_sequence_map: FxHashMap<u16, NetworkAddress>,
    pub resend_rewrite_buffer: Vec<u8>,
    pub none_send_data: Vec<u8>,
    pub nack_redundancy: u32,
}

/// A frame that carried a NACK, as it is sent again without it: a base
/// header of type RELIABLE with the frame's channel and sequence, then the
/// frame's body.
pub open spec fn rewritten(frame: Seq<u8>) -> Seq<u8> {
    base_header_bytes(
        Header { message_type: MESSAGE_TYPE_RELIABLE, ..base_header_of(frame) },
    ) + frame.skip(10)
}

/// The four bytes of the frame that stands in for a sequence that cannot be
/// sent again.
pub open spec fn none_frame(sequence: u16, channel: u8) -> Seq<u8> {
    base_header_bytes(
        Header { message_type: MESSAGE_TYPE_NONE, sequence, channel, ..zero_header() },
    )
}

/// A map of sequences to be sent again, after `sequences` have been asked
/// for by `address`: each of them now goes to `address`.
pub open spec fn noted(
    map: Map<u16, NetworkAddress>,
    sequences: Seq<u16>,
    address: NetworkAddress,
) -> Map<u16, NetworkAddress> {
    Map::new(
        |s: u16| map.contains_key(s) || sequences.contains(s),
        |s: u16|
            if sequences.contains(s) {
                address
            } else {
                map[s]
            },
    )
}

/// The NACK that rides on the next reliable frame, if any: the first of the
/// queue, sent once more, unless it has been sent as often as allowed.
pub open spec fn piggyback(nack_redundancy: u32, queue: Seq<Nack>) -> Option<Nack> {
    if nack_redundancy > 0 && queue.len() > 0 && queue[0].sent_count < nack_redundancy {
        Some(Nack { sent_count: (queue[0].sent_count + 1) as u32, ..queue[0] })
    } else {
        None
    }
}

/// The queue of NACKs after a reliable frame has been sent: its first entry
/// has moved to the end, counted once more if it rode on the frame.
pub open spec fn rotated(nack_redundancy: u32, queue: Seq<Nack>) -> Seq<Nack> {
    if nack_redundancy > 0 && queue.len() > 0 {
        queue.skip(1).push(
            match piggyback(nack_redundancy, queue) {
                Some(nack) => nack,
                None => queue[0],
            },
        )
    } else {
        queue
    }
}

/// The header of a reliable frame with the given sequence, with or without
/// a NACK riding on it.
pub open spec fn reliable_header(channel: u8, sequence: u16, nack: Option<Nack>) -> Header {
    match nack {
        Some(nack) => Header {
            message_type: MESSAGE_TYPE_RELIABLE_WITH_NACK,
            channel,
            sequence,
            start_sequence: nack.start_sequence,
            flags: nack.flags,
            ..zero_header()
        },
        None => Header { message_type: MESSAGE_TYPE_RELIABLE, channel, sequence, ..zero_header() },
    }
}

/// A reliable frame: its header, in the form that fits, and its body.
pub open spec fn reliable_frame(header: Header, body: Seq<u8>) -> Seq<u8> {
    (if header.message_type == MESSAGE_TYPE_RELIABLE_WITH_NACK {
        nacked_header_bytes(header)
    } else {
        base_header_bytes(header)
    }) + body
}

/// What is sent when `sequence` is asked for again: the frame kept for it,
/// without the NACK it may have carried, or a NONE frame where none is kept.
pub open spec fn resend_frame(send_buffers: SendBufferManager, channel: u8, sequence: u16) -> Seq<
    u8,
> {
    match send_buffers.slot(sequence) {
        Some(kept) => if kept.sequence == sequence {
            let frame = kept.byte_buffer.used();
            if frame.len() >= 10 && frame[0] == MESSAGE_TYPE_RELIABLE_WITH_NACK {
                rewritten(frame)
            } else {
                frame
            }
        } else {
            none_frame(sequence, channel)
        },
        None => none_frame(sequence, channel),
    }
}

/// Whether a frame is kept for `sequence`.
pub open spec fn is_kept(send_buffers: SendBufferManager, sequence: u16) -> bool {
    send_buffers.slot(sequence) is Some && send_buffers.slot(sequence)->0.sequence == sequence
}

/// How many of `sequences` have a frame kept for them.
pub open spec fn kept_count(send_buffers: SendBufferManager, sequences: Seq<u16>) -> nat
    decreases sequences.len(),
{
    if sequences.len() == 0 {
        0
    } else {
        kept_count(send_buffers, sequences.drop_last()) + (if is_kept(
            send_buffers,
            sequences.last(),
        ) {
            1nat
        } else {
            0nat
        })
    }
}

/// The datagrams that answer the requests for `sequences`, in that order.
pub open spec fn resend_datagrams(
    send_buffers: SendBufferManager,
    channel: u8,
    requests: Map<u16, NetworkAddress>,
    sequences: Seq<u16>,
) -> Seq<(NetworkAddress, Seq<u8>)> {
    Seq::new(
        sequences.len(),
        |i: int| (requests[sequences[i]], resend_frame(send_buffers, channel, sequences[i])),
    )
}

/// The frame that reports `nacks` to the peer: a base header of type NACK,
/// then the list in variable-length form.
pub open spec fn nack_frame(channel: u8, nacks: Seq<Nack>) -> Seq<u8> {
    base_header_bytes(Header { message_type: MESSAGE_TYPE_NACK, channel, ..zero_header() })
        + varint_nacks_bytes(nacks)
}

/// The datagram that reports `nacks` to the peer at `address`, or none
/// where there is nothing to report.
pub open spec fn nack_datagrams(address: NetworkAddress, channel: u8, nacks: Seq<Nack>) -> Seq<
    (NetworkAddress, Seq<u8>),
> {
    if nacks.len() > 0 {
        seq![(address, nack_frame(channel, nacks))]
    } else {
        Seq::empty()
    }
}

/// What the application gets of a published payload that is no fragment:
/// the bytes behind the header of a reliable frame, and nothing of any other
/// frame.
pub open spec fn payload_body(frame: Seq<u8>) -> Seq<u8> {
    if frame.len() > 0 && frame[0] == MESSAGE_TYPE_RELIABLE_WITH_NACK && frame.len() >= 10 {
        frame.skip(10)
    } else if frame.len() > 0 && frame[0] == MESSAGE_TYPE_RELIABLE && frame.len() >= 4 {
        frame.skip(4)
    } else {
        Seq::empty()
    }
}

/// The message that a published fragment header releases: the bodies of its
/// group joined, if the group holds as many fragments as announced and all
/// the expected sequences.
pub open spec fn fragment_message(groups: Map<u16, Map<u16, Seq<u8>>>, frame: Seq<u8>) -> Option<
    Seq<u8>,
> {
    let header = fragmented_header_of(frame);
    let g = header.fragment_group;
    if frame.len() >= 10 && groups.contains_key(g) && groups[g].dom().len()
        == header.fragment_count && has_all(
        groups[g],
        header.fragment_start_sequence,
        header.fragment_count as nat,
    ) {
        Some(assembled(groups[g], header.fragment_start_sequence, header.fragment_count as nat))
    } else {
        None
    }
}

/// The groups left once a published fragment header has been looked at: its
/// group is gone if it held as many fragments as announced.
pub open spec fn groups_after_assembly(
    groups: Map<u16, Map<u16, Seq<u8>>>,
    frame: Seq<u8>,
) -> Map<u16, Map<u16, Seq<u8>>> {
    let header = fragmented_header_of(frame);
    let g = header.fragment_group;
    if frame.len() >= 10 && groups.contains_key(g) && groups[g].dom().len()
        == header.fragment_count {
        groups.remove(g)
    } else {
        groups
    }
}

/// The message that a published payload releases, given the groups of
/// fragments at hand: the joined bodies for a fragment header whose group
/// is whole, the body for a reliable frame, and nothing for anything else.
pub open spec fn published_message(groups: Map<u16, Map<u16, Seq<u8>>>, frame: Seq<u8>) -> Seq<
    u8,
> {
    if frame.len() > 0 && frame[0] == MESSAGE_TYPE_FRAGMENT {
        match fragment_message(groups, frame) {
            Some(message) => message,
            None => Seq::empty(),
        }
    } else {
        payload_body(frame)
    }
}

/// The groups of fragments once a published payload has been looked at.
pub open spec fn groups_after_payload(
    groups: Map<u16, Map<u16, Seq<u8>>>,
    frame: Seq<u8>,
) -> Map<u16, Map<u16, Seq<u8>>> {
    if frame.len() > 0 && frame[0] == MESSAGE_TYPE_FRAGMENT {
        groups_after_assembly(groups, frame)
    } else {
        groups
    }
}

/// The counters once a published payload has been looked at: a message
/// joined from fragments counts as received, with its fragments, and every
/// message handed out counts as consumed.
pub open spec fn stats_after_payload(
    stats: ChannelStats,
    groups: Map<u16, Map<u16, Seq<u8>>>,
    frame: Seq<u8>,
) -> ChannelStats {
    if frame.len() > 0 && frame[0] == MESSAGE_TYPE_FRAGMENT {
        if fragment_message(groups, frame) is Some {
            ChannelStats {
                received: next_count(stats.received),
                fragments_assembled: wrapped_sum(
                    stats.fragments_assembled,
                    fragmented_header_of(frame).fragment_count as u64,
                ),
                published_consumed: next_count(stats.published_consumed),
                ..stats
            }
        } else {
            stats
        }
    } else if frame.len() > 0 && ((frame[0] == MESSAGE_TYPE_RELIABLE && frame.len() >= 4) || (
    frame[0] == MESSAGE_TYPE_RELIABLE_WITH_NACK && frame.len() >= 10)) {
        ChannelStats { published_consumed: next_count(stats.published_consumed), ..stats }
    } else {
        stats
    }
}

/// What draining the published queue comes to.
pub struct Drained {
    /// How many payloads were taken off the queue.
    pub taken: nat,
    /// What was handed to the application: empty if no message was found.
    pub message: Seq<u8>,
    /// The groups of fragments afterwards.
    pub groups: Map<u16, Map<u16, Seq<u8>>>,
    /// The counters afterwards.
    pub stats: ChannelStats,
}

/// Drains the published queue, whose payloads are `frames`, into a buffer
/// with `room` bytes: payloads are looked at one after the other until one
/// releases a message of which something fits, the queue is empty, or
/// `budget` payloads have been looked at.
pub open spec fn drained(
    frames: Seq<Seq<u8>>,
    groups: Map<u16, Map<u16, Seq<u8>>>,
    stats: ChannelStats,
    room: nat,
    budget: nat,
) -> Drained
    decreases budget,
{
    if budget == 0 || frames.len() == 0 {
        Drained { taken: 0, message: Seq::empty(), groups, stats }
    } else {
        let message = fitted(published_message(groups, frames[0]), room);
        let groups_then = groups_after_payload(groups, frames[0]);
        let stats_then = stats_after_payload(stats, groups, frames[0]);
        if message.len() > 0 {
            Drained { taken: 1, message, groups: groups_then, stats: stats_then }
        } else {
            let rest = drained(frames.skip(1), groups_then, stats_then, room, (budget - 1) as nat);
            Drained { taken: rest.taken + 1nat, ..rest }
        }
    }
}

/// The payloads of a queue as plain bytes: of each buffer the part in use.
pub open spec fn frames_of(queue: Seq<ByteBuffer>) -> Seq<Seq<u8>> {
    queue.map_values(|b: ByteBuffer| b.used())
}

/// The first bytes of `message`, as many as fit into `room` and as a
/// length of 32 bits can count.
pub open spec fn fitted(message: Seq<u8>, room: nat) -> Seq<u8> {
    let most = if room <= u32::MAX {
        room
    } else {
        u32::MAX as nat
    };
    if message.len() <= most {
        message
    } else {
        message.subrange(0, most as int)
    }
}

/// The most fragments one message can be sent in: one less than the ring
/// of sent frames has slots, so that no fragment takes another's slot.
pub const MAX_FRAGMENTS: usize = 1023;

/// The `i`-th fragment frame of a message: its header, then its piece of
/// the body.
pub open spec fn fragment_frame(
    channel: u8,
    first: u16,
    group: u16,
    count: u16,
    body: Seq<u8>,
    i: int,
) -> Seq<u8> {
    crate::header::fragmented_header_bytes(
        Header {
            message_type: MESSAGE_TYPE_FRAGMENT,
            channel,
            sequence: crate::sequence::seq_forward(first, i as nat),
            fragment_group: group,
            fragment_start_sequence: first,
            fragment_count: count,
            ..zero_header()
        },
    ) + crate::fragmentation::chunk(body, i)
}

/// The first `n` fragment frames of a message, each as a datagram for
/// `address`.
pub open spec fn fragment_datagrams(
    address: NetworkAddress,
    channel: u8,
    first: u16,
    group: u16,
    count: u16,
    body: Seq<u8>,
    n: nat,
) -> Seq<(NetworkAddress, Seq<u8>)> {
    Seq::new(n, |i: int| (address, fragment_frame(channel, first, group, count, body, i)))
}

/// A byte counter after `n` more bytes, wrapped to 64 bits.
pub open spec fn bytes_after(x: u64, n: nat) -> u64 {
    ((x + n) % 0x1_0000_0000_0000_0000) as u64
}

impl Channel {
    /// The parts are sound and the scratch buffers have their least sizes.
    pub open spec fn wf(&self) -> bool {
        &&& self.frag.wf()
        &&& self.send_buffers.wf()
        &&& self.receiver.wf()
        &&& self.nack_send_data@.len() >= 16
        &&& self.none_send_data@.len() == TACHYON_HEADER_SIZE
    }

    /// A fresh channel for the peer at `address`, set up as configured. Its
    /// receive window is as wide as configured, but at least 1 and at most
    /// 16384 sequences.
    #[must_use]
    pub fn create(id: u8, address: NetworkAddress, config: ChannelConfig) -> (r: Self)
        ensures
            r.wf(),
            r.id == id,
            r.address == address,
            r.nack_redundancy == config.nack_redundancy,
            r.stats == zero_stats(),
            r.receiver.is_ordered == (config.ordered == 1),
            r.receiver.window() == crate::receiver::window_for(config.receive_window_size),
            r.receiver.current_sequence == 0,
            r.receiver.last_sequence == 0,
            r.receiver.published@.len() == 0,
            r.receiver.nack_queue@.len() == 0,
            r.send_buffers.current_sequence == 0,
            r.nacked_sequence_map@ == Map::<u16, NetworkAddress>::empty(),
            r.frag.groups() == Map::<u16, Map<u16, Seq<u8>>>::empty(),
    {
        Channel {
            id,
            address,
            frag: Fragmentation::default(),
            send_buffers: SendBufferManager::create(),
            receiver: Receiver::create(config.is_ordered(), config.receive_window_size),
            stats: ChannelStats::default(),
            nack_send_data: vec![0u8; 512],
            nacked_sequences: Vec::new(),
            nacked_sequence_map: map_new(),
            resend_rewrite_buffer: vec![0u8; 2048],
            none_send_data: vec![0u8; TACHYON_HEADER_SIZE],
            nack_redundancy: config.nack_redundancy,
        }
    }

    /// Writes the frame that stands in for `sequence` into the scratch.
    fn create_none(&mut self, sequence: u16)
        requires
            old(self).wf(),
        ensures
            final(self).none_send_data@ == none_frame(sequence, old(self).id),
            final(self).id == old(self).id,
            final(self).address == old(self).address,
            final(self).frag == old(self).frag,
            final(self).send_buffers == old(self).send_buffers,
            final(self).receiver == old(self).receiver,
            final(self).stats == old(self).stats,
            final(self).nack_send_data == old(self).nack_send_data,
            final(self).nacked_sequences == old(self).nacked_sequences,
            final(self).nacked_sequence_map == old(self).nacked_sequence_map,
            final(self).resend_rewrite_buffer == old(self).resend_rewrite_buffer,
            final(self).nack_redundancy == old(self).nack_redundancy,
    {
        let header = Header {
            message_type: MESSAGE_TYPE_NONE,
            channel: self.id,
            sequence,
            fragment_group: 0,
            fragment_start_sequence: 0,
            fragment_count: 0,
            start_sequence: 0,
            flags: 0,
        };
        header.write(self.none_send_data.as_mut_slice());
        assert(self.none_send_data@ =~= none_frame(sequence, self.id));
    }

    #[must_use]
    pub fn is_ordered(&self) -> (r: bool)
        ensures
            r == self.receiver.is_ordered,
    {
        self.receiver.is_ordered
    }

    /// Brings the count of skipped sequences up to the receiver's.
    pub fn update_stats(&mut self)
        ensures
            *final(self) == (Channel {
                stats: ChannelStats {
                    skipped_sequences: old(self).receiver.skipped_sequences,
                    ..old(self).stats
                },
                ..*old(self)
            }),
    {
        self.stats.skipped_sequences = self.receiver.skipped_sequences;
    }

    /// Takes in a NONE frame, which stands for a sequence the peer cannot
    /// send again, so that the window can move past it.
    pub fn process_none_message(
        &mut self,
        sequence: u16,
        receive_buffer: &[u8],
        received_len: usize,
    )
        requires
            old(self).wf(),
            received_len <= receive_buffer@.len(),
        ensures
            final(self).wf(),
            final(self).id == old(self).id,
            final(self).address == old(self).address,
            final(self).frag == old(self).frag,
            final(self).send_buffers == old(self).send_buffers,
            final(self).nacked_sequence_map == old(self).nacked_sequence_map,
            final(self).nack_redundancy == old(self).nack_redundancy,
            final(self).nack_send_data == old(self).nack_send_data,
            final(self).nacked_sequences == old(self).nacked_sequences,
            final(self).resend_rewrite_buffer == old(self).resend_rewrite_buffer,
            final(self).none_send_data == old(self).none_send_data,
            old(self).receiver.received_as(
                &final(self).receiver,
                sequence,
                receive_buffer@.subrange(0, received_len as int),
                received_len >= 4 && old(self).receiver.accepts(sequence),
            ),
            final(self).stats == (ChannelStats {
                nones_received: next_count(old(self).stats.nones_received),
                nones_accepted: if received_len >= 4 && old(self).receiver.accepts(sequence) {
                    next_count(old(self).stats.nones_accepted)
                } else {
                    old(self).stats.nones_accepted
                },
                ..old(self).stats
            }),
    {
        self.stats.nones_received = bump(self.stats.nones_received);
        if self.receiver.receive_packet(sequence, receive_buffer, received_len) {
            self.stats.nones_accepted = bump(self.stats.nones_accepted);
        }
    }

    /// Takes in a fragment frame: the fragmenter keeps the whole frame, and
    /// the receiver takes the header in as the packet of that sequence.
    pub fn process_fragment_message(
        &mut self,
        sequence: u16,
        receive_buffer: &[u8],
        received_len: usize,
    )
        requires
            old(self).wf(),
            received_len <= receive_buffer@.len(),
        ensures
            final(self).wf(),
            final(self).id == old(self).id,
            final(self).address == old(self).address,
            final(self).send_buffers == old(self).send_buffers,
            final(self).nacked_sequence_map == old(self).nacked_sequence_map,
            final(self).nack_redundancy == old(self).nack_redundancy,
            final(self).nack_send_data == old(self).nack_send_data,
            final(self).nacked_sequences == old(self).nacked_sequences,
            final(self).resend_rewrite_buffer == old(self).resend_rewrite_buffer,
            final(self).none_send_data == old(self).none_send_data,
            received_len < 10 ==> final(self).frag == old(self).frag && final(self).receiver
                == old(self).receiver,
            received_len >= 10 ==> old(self).frag.fragment_taken_as(
                &final(self).frag,
                receive_buffer@,
                received_len,
            ) && old(self).receiver.received_as(
                &final(self).receiver,
                sequence,
                receive_buffer@.subrange(0, 10),
                old(self).receiver.accepts(sequence),
            ),
            final(self).stats == (ChannelStats {
                fragments_received: if received_len >= 10 && old(self).receiver.accepts(
                    sequence,
                ) {
                    next_count(old(self).stats.fragments_received)
                } else {
                    old(self).stats.fragments_received
                },
                ..old(self).stats
            }),
    {
        let fragmented = self.frag.receive_fragment(receive_buffer, received_len).0;
        if fragmented && self.receiver.receive_packet(
            sequence,
            receive_buffer,
            TACHYON_FRAGMENTED_HEADER_SIZE,
        ) {
            self.stats.fragments_received = bump(self.stats.fragments_received);
        }
    }

    /// Takes in a frame of NACKs in variable-length form, which starts behind
    /// the base header, and notes every sequence it reports for `address`.
    pub fn process_nack_message(&mut self, address: NetworkAddress, receive_buffer: &[u8])
        ensures
            final(self).nacked_sequences@ == all_nacked(varint_nacks_at(receive_buffer@, 4)),
            final(self).nacked_sequence_map@ == noted(
                old(self).nacked_sequence_map@,
                all_nacked(varint_nacks_at(receive_buffer@, 4)),
                address,
            ),
            final(self).id == old(self).id,
            final(self).address == old(self).address,
            final(self).frag == old(self).frag,
            final(self).send_buffers == old(self).send_buffers,
            final(self).receiver == old(self).receiver,
            final(self).stats == old(self).stats,
            final(self).nack_send_data == old(self).nack_send_data,
            final(self).resend_rewrite_buffer == old(self).resend_rewrite_buffer,
            final(self).none_send_data == old(self).none_send_data,
            final(self).nack_redundancy == old(self).nack_redundancy,
    {
        self.nacked_sequences.clear();
        Nack::read_varint(&mut self.nacked_sequences, receive_buffer, TACHYON_HEADER_SIZE);
        assert(self.nacked_sequences@ =~= all_nacked(varint_nacks_at(receive_buffer@, 4)));
        self.copy_nacked_to_map(address);
    }

    /// Takes in the NACK that rides in a reliable frame, behind the base
    /// header, and notes every sequence it reports for `address`. A frame
    /// that ends before the NACK does carries none.
    pub fn process_single_nack(&mut self, address: NetworkAddress, receive_buffer: &[u8])
        ensures
            final(self).nacked_sequences@ == single_nack_at(receive_buffer@, 4),
            final(self).nacked_sequence_map@ == noted(
                old(self).nacked_sequence_map@,
                final(self).nacked_sequences@,
                address,
            ),
            final(self).id == old(self).id,
            final(self).address == old(self).address,
            final(self).frag == old(self).frag,
            final(self).send_buffers == old(self).send_buffers,
            final(self).receiver == old(self).receiver,
            final(self).stats == old(self).stats,
            final(self).nack_send_data == old(self).nack_send_data,
            final(self).resend_rewrite_buffer == old(self).resend_rewrite_buffer,
            final(self).none_send_data == old(self).none_send_data,
            final(self).nack_redundancy == old(self).nack_redundancy,
    {
        self.nacked_sequences.clear();
        Nack::read_single(&mut self.nacked_sequences, receive_buffer, TACHYON_HEADER_SIZE);
        assert(self.nacked_sequences@ =~= single_nack_at(receive_buffer@, 4));
        self.copy_nacked_to_map(address);
    }

    fn copy_nacked_to_map(&mut self, address: NetworkAddress)
        ensures
            final(self).nacked_sequence_map@ == noted(
                old(self).nacked_sequence_map@,
                old(self).nacked_sequences@,
                address,
            ),
            final(self).nacked_sequences == old(self).nacked_sequences,
            final(self).id == old(self).id,
            final(self).address == old(self).address,
            final(self).frag == old(self).frag,
            final(self).send_buffers == old(self).send_buffers,
            final(self).receiver == old(self).receiver,
            final(self).stats == old(self).stats,
            final(self).nack_send_data == old(self).nack_send_data,
            final(self).resend_rewrite_buffer == old(self).resend_rewrite_buffer,
            final(self).none_send_data == old(self).none_send_data,
            final(self).nack_redundancy == old(self).nack_redundancy,
    {
        let mut i: usize = 0;
        assert(self.nacked_sequence_map@ =~= noted(
            old(self).nacked_sequence_map@,
            old(self).nacked_sequences@.subrange(0, 0),
            address,
        ));
        while i < self.nacked_sequences.len()
            invariant
                i <= self.nacked_sequences@.len(),
                self.nacked_sequence_map@ == noted(
                    old(self).nacked_sequence_map@,
                    old(self).nacked_sequences@.subrange(0, i as int),
                    address,
                ),
                self.nacked_sequences == old(self).nacked_sequences,
                self.id == old(self).id,
                self.address == old(self).address,
                self.frag == old(self).frag,
                self.send_buffers == old(self).send_buffers,
                self.receiver == old(self).receiver,
                self.stats == old(self).stats,
                self.nack_send_data == old(self).nack_send_data,
                self.resend_rewrite_buffer == old(self).resend_rewrite_buffer,
                self.none_send_data == old(self).none_send_data,
                self.nack_redundancy == old(self).nack_redundancy,
            decreases self.nacked_sequences@.len() - i,
        {
            let sequence = self.nacked_sequences[i];
            map_insert(&mut self.nacked_sequence_map, sequence, address);
            proof {
                let done = old(self).nacked_sequences@.subrange(0, i as int);
                let more = old(self).nacked_sequences@.subrange(0, i + 1);
                assert(more =~= done.push(sequence));
                assert forall|s: u16| more.contains(s)
                    <==> (done.contains(s) || s == sequence) by {
                    if done.contains(s) {
                        let k = choose|k: int| 0 <= k < done.len() && done[k] == s;
                        assert(more[k] == s);
                    }
                    if s == sequence {
                        assert(more[i as int] == s);
                    }
                }
                assert(self.nacked_sequence_map@ =~= noted(
                    old(self).nacked_sequence_map@,
                    more,
                    address,
                ));
            }
            i = i + 1;
        }
        assert(old(self).nacked_sequences@.subrange(0, old(self).nacked_sequences@.len() as int)
            =~= old(self).nacked_sequences@);
    }

    /// `post` and `socket_after` are this channel and its port after a
    /// reliable frame with the given body has been sent to `address`, and `r`
    /// is what the call came to.
    pub open spec fn sent_reliable(
        &self,
        post: &Channel,
        socket: &TachyonSocket,
        socket_after: &TachyonSocket,
        address: NetworkAddress,
        body: Seq<u8>,
        r: Result<TachyonSendSuccess, TachyonSendError>,
    ) -> bool {
        let nack = piggyback(self.nack_redundancy, self.receiver.nack_queue@);
        let sequence = seq_next(self.send_buffers.current_sequence);
        let header = reliable_header(self.id, sequence, nack);
        let frame = reliable_frame(header, body);
        let sent_len = if socket.open {
            frame.len() as u32
        } else {
            0u32
        };
        &&& post.id == self.id
        &&& post.address == self.address
        &&& post.frag == self.frag
        &&& post.nacked_sequence_map == self.nacked_sequence_map
        &&& post.nack_redundancy == self.nack_redundancy
        &&& socket_after.open == socket.open
        &&& socket_after.is_server == socket.is_server
        &&& socket_after.address == socket.address
        &&& socket_after.peer == socket.peer
        &&& socket_after.inbox == socket.inbox
        &&& r == Ok::<TachyonSendSuccess, TachyonSendError>(TachyonSendSuccess { sent_len, header })
        &&& socket.open ==> socket_after.sent() == socket.sent().push((address, frame))
        &&& !socket.open ==> socket_after.outbox == socket.outbox
        &&& post.receiver.nack_queue@ == rotated(self.nack_redundancy, self.receiver.nack_queue@)
        &&& post.receiver.published == self.receiver.published
        &&& post.receiver.buffered == self.receiver.buffered
        &&& post.receiver.current_sequence == self.receiver.current_sequence
        &&& post.receiver.last_sequence == self.receiver.last_sequence
        &&& post.send_buffers.current_sequence == sequence
        &&& is_kept(post.send_buffers, sequence)
        &&& post.send_buffers.slot(sequence)->0.byte_buffer.used() == frame
        &&& post.stats == (ChannelStats {
            sent: next_count(self.stats.sent),
            bytes_sent: wrapped_sum(self.stats.bytes_sent, sent_len as u64),
            nacks_sent: match nack {
                Some(nack) => wrapped_sum(self.stats.nacks_sent, nack.nacked_count as u64),
                None => self.stats.nacks_sent,
            },
            ..self.stats
        })
    }

    /// `post` is this channel after one tick: what the receiver misses has
    /// been listed and reported, the requests to send again have been
    /// answered and forgotten, and what was ready has been published.
    pub open spec fn updated_as(&self, post: &Channel) -> bool {
        &&& post.wf()
        &&& post.id == self.id
        &&& post.address == self.address
        &&& post.frag == self.frag
        &&& post.send_buffers == self.send_buffers
        &&& post.nack_redundancy == self.nack_redundancy
        &&& post.nacked_sequence_map@ == Map::<u16, NetworkAddress>::empty()
        &&& post.receiver.resend_list@ == self.receiver.missing()
        &&& post.receiver.nack_queue@ == self.receiver.nack_queue@ + post.receiver.nack_list@
        &&& forall|q: u16|
            post.receiver.resend_list@.contains(q) <==> #[trigger] crate::receiver::reported(
                post.receiver.nack_list@,
                q,
            )
        &&& (Receiver {
            nack_list: post.receiver.nack_list,
            nack_queue: post.receiver.nack_queue,
            resend_list: post.receiver.resend_list,
            ..self.receiver
        }).published_as(post.receiver)
    }

    /// `post` and `socket_after` are this channel and its port after one
    /// tick.
    ///
    /// The channel is as `updated_as` says. An open port has been handed
    /// the reports of what the receiver misses and then, for each request
    /// to send again, in some order, the frame asked for or a placeholder
    /// where the frame is no longer kept; each of these is counted. A port
    /// that is not open is handed nothing.
    pub open spec fn ticked_as(
        &self,
        post: &Channel,
        socket: &TachyonSocket,
        socket_after: &TachyonSocket,
    ) -> bool {
        &&& self.updated_as(post)
        &&& socket_after.open == socket.open
        &&& socket_after.is_server == socket.is_server
        &&& socket_after.address == socket.address
        &&& socket_after.peer == socket.peer
        &&& socket_after.inbox == socket.inbox
        &&& !socket.open ==> socket_after.outbox == socket.outbox
        &&& exists|order: Seq<u16>|
            {
                &&& #[trigger] order.no_duplicates()
                &&& forall|s: u16| order.contains(s) <==> self.nacked_sequence_map@.contains_key(s)
                &&& socket.open ==> socket_after.sent() == socket.sent() + nack_datagrams(
                    self.address,
                    self.id,
                    post.receiver.nack_list@,
                ) + resend_datagrams(self.send_buffers, self.id, self.nacked_sequence_map@, order)
                &&& post.stats == (ChannelStats {
                    nacks_sent: if post.receiver.nack_list@.len() > 0 {
                        wrapped_sum(self.stats.nacks_sent, post.receiver.resend_list@.len() as u64)
                    } else {
                        self.stats.nacks_sent
                    },
                    nacks_received: crate::counter::count_after(
                        self.stats.nacks_received,
                        order.len(),
                    ),
                    resent: crate::counter::count_after(
                        self.stats.resent,
                        kept_count(self.send_buffers, order),
                    ),
                    nones_sent: crate::counter::count_after(
                        self.stats.nones_sent,
                        (order.len() - kept_count(self.send_buffers, order)) as nat,
                    ),
                    ..self.stats
                })
            }
    }

    /// `post` and `socket_after` are this channel and its port after a
    /// message with the given body has been sent to `address` in fragments,
    /// and `r` is what the call came to. A body that takes no fragment at
    /// all, or more than 1023, is not sent.
    pub open spec fn sent_fragmented(
        &self,
        post: &Channel,
        socket: &TachyonSocket,
        socket_after: &TachyonSocket,
        address: NetworkAddress,
        body: Seq<u8>,
        r: Result<TachyonSendSuccess, TachyonSendError>,
    ) -> bool {
        let n = crate::fragmentation::chunk_count(body.len());
        let first = seq_next(self.send_buffers.current_sequence);
        let group = crate::fragmentation::next_group_id(self.frag.next_group);
        &&& post.id == self.id
        &&& post.address == self.address
        &&& post.receiver == self.receiver
        &&& post.nacked_sequence_map == self.nacked_sequence_map
        &&& post.nack_redundancy == self.nack_redundancy
        &&& post.frag.received == self.frag.received
        &&& post.frag.received_at == self.frag.received_at
        &&& socket_after.open == socket.open
        &&& socket_after.is_server == socket.is_server
        &&& socket_after.address == socket.address
        &&& socket_after.peer == socket.peer
        &&& socket_after.inbox == socket.inbox
        &&& !socket.open ==> socket_after.outbox == socket.outbox
        &&& if n == 0 || n > MAX_FRAGMENTS {
            &&& r == Err::<TachyonSendSuccess, TachyonSendError>(TachyonSendError::Fragment)
            &&& post.frag == self.frag
            &&& post.send_buffers == self.send_buffers
            &&& post.stats == self.stats
            &&& socket_after.outbox == socket.outbox
        } else {
            &&& r == Ok::<TachyonSendSuccess, TachyonSendError>(
                TachyonSendSuccess {
                    sent_len: if socket.open {
                        (body.len() + 10 * n) as u32
                    } else {
                        0u32
                    },
                    header: Header { message_type: MESSAGE_TYPE_FRAGMENT, ..zero_header() },
                },
            )
            &&& post.frag.next_group == group
            &&& post.send_buffers.current_sequence == crate::sequence::seq_forward(
                self.send_buffers.current_sequence,
                n,
            )
            &&& socket.open ==> socket_after.sent() == socket.sent() + fragment_datagrams(
                address,
                self.id,
                first,
                group,
                n as u16,
                body,
                n,
            )
            &&& post.stats == (ChannelStats {
                sent: next_count(self.stats.sent),
                fragments_sent: crate::counter::count_after(self.stats.fragments_sent, n),
                bytes_sent: if socket.open {
                    bytes_after(self.stats.bytes_sent, body.len() + 10 * n)
                } else {
                    self.stats.bytes_sent
                },
                ..self.stats
            })
        }
    }

    /// Sends the frame that is kept for `sequence` to `address` as it is and
    /// returns its length, or zero on a port that is not open.
    fn send_kept(&self, sequence: u16, address: NetworkAddress, socket: &mut TachyonSocket) -> (r:
        usize)
        requires
            self.wf(),
            is_kept(self.send_buffers, sequence),
        ensures
            final(socket).open == old(socket).open,
            final(socket).is_server == old(socket).is_server,
            final(socket).address == old(socket).address,
            final(socket).peer == old(socket).peer,
            final(socket).inbox == old(socket).inbox,
            !old(socket).open ==> r == 0 && final(socket).outbox == old(socket).outbox,
            old(socket).open ==> r == self.send_buffers.slot(sequence)->0.byte_buffer.length
                && final(socket).sent() == old(socket).sent().push(
                (address, self.send_buffers.slot(sequence)->0.byte_buffer.used()),
            ),
    {
        match self.send_buffers.buffers.get(sequence) {
            Some(kept) => {
                assert(kept.wf(self.send_buffers.buffer_pool.buffer_size));
                match socket.send_to(address, kept.byte_buffer.get(), kept.byte_buffer.length) {
                    Ok(sent) => sent,
                    Err(_) => 0,
                }
            },
            None => 0,
        }
    }

    /// Sends the first `body_len` bytes of `data` in fragments of at most
    /// 1200 bytes, each a reliable frame of its own that is kept in case it
    /// is asked for again.
    ///
    /// Returns the bytes sent in all, counting headers, or zero on a port
    /// that is not open. Fails with `Fragment`, and changes nothing, where
    /// the body takes no fragment or more than 1023.
    pub fn send_fragmented(
        &mut self,
        address: NetworkAddress,
        data: &[u8],
        body_len: usize,
        socket: &mut TachyonSocket,
    ) -> (r: Result<TachyonSendSuccess, TachyonSendError>)
        requires
            old(self).wf(),
            body_len <= data@.len(),
        ensures
            final(self).wf(),
            old(self).sent_fragmented(
                final(self),
                old(socket),
                final(socket),
                address,
                data@.subrange(0, body_len as int),
                r,
            ),
    {
        let n = body_len / 1200 + (if body_len % 1200 > 0 {
            1usize
        } else {
            0usize
        });
        let ghost body = data@.subrange(0, body_len as int);
        assert(n == crate::fragmentation::chunk_count(body.len()));
        if n == 0 || n > MAX_FRAGMENTS {
            return Err(TachyonSendError::Fragment);
        }
        assert(body.len() <= 1200 * MAX_FRAGMENTS);
        let ghost first = seq_next(self.send_buffers.current_sequence);
        let ghost current = self.send_buffers.current_sequence;
        let frag_sequences = self.frag.create_fragments(
            &mut self.send_buffers,
            self.id,
            data,
            body_len,
        );
        let ghost group = self.frag.next_group;
        proof {
            assert forall|i: int| 0 <= i < n
                implies #[trigger] crate::fragmentation::holds_fragment(
                self.send_buffers,
                frag_sequences@,
                i,
                self.id,
                group,
                n as u16,
                body,
            ) by {
                assert forall|j: int| i < j < frag_sequences@.len()
                    implies self.send_buffers.buffers.slot_of(
                    #[trigger] frag_sequences@[j],
                ) != self.send_buffers.buffers.slot_of(frag_sequences@[i]) by {
                    crate::sequence::lemma_consecutive_slots_distinct(
                        current,
                        (i + 1) as nat,
                        (j + 1) as nat,
                    );
                }
                assert(crate::fragmentation::unshadowed(self.send_buffers, frag_sequences@, i));
            }
            assert forall|k: int| 0 <= k < n implies #[trigger] frag_sequences@[k]
                == crate::sequence::seq_forward(first, k as nat) by {
                crate::sequence::lemma_forward_shift(current, k as nat);
            }
        }
        let mut fragment_bytes_sent: usize = 0;
        let mut i: usize = 0;
        let ghost made = *self;
        assert(socket.sent() =~= old(socket).sent() + fragment_datagrams(
            address,
            self.id,
            first,
            group,
            n as u16,
            body,
            0,
        ));
        while i < n
            invariant
                i <= n,
                1 <= n <= MAX_FRAGMENTS,
                n == crate::fragmentation::chunk_count(body.len()),
                body.len() <= 1200 * MAX_FRAGMENTS,
                frag_sequences@.len() == n,
                made.wf(),
                first == seq_next(current),
                forall|k: int|
                    0 <= k < n ==> #[trigger] frag_sequences@[k] == crate::sequence::seq_forward(
                        first,
                        k as nat,
                    ),
                forall|k: int|
                    0 <= k < n ==> #[trigger] crate::fragmentation::holds_fragment(
                        made.send_buffers,
                        frag_sequences@,
                        k,
                        made.id,
                        group,
                        n as u16,
                        body,
                    ),
                socket.open == old(socket).open,
                socket.is_server == old(socket).is_server,
                socket.address == old(socket).address,
                socket.peer == old(socket).peer,
                socket.inbox == old(socket).inbox,
                !old(socket).open ==> socket.outbox == old(socket).outbox && fragment_bytes_sent
                    == 0,
                old(socket).open ==> socket.sent() == old(socket).sent() + fragment_datagrams(
                    address,
                    made.id,
                    first,
                    group,
                    n as u16,
                    body,
                    i as nat,
                ),
                old(socket).open ==> fragment_bytes_sent == (if i * 1200 <= body.len() {
                    i * 1200
                } else {
                    body.len() as int
                }) + 10 * i,
                *self == (Channel {
                    stats: ChannelStats {
                        fragments_sent: crate::counter::count_after(
                            made.stats.fragments_sent,
                            i as nat,
                        ),
                        bytes_sent: bytes_after(made.stats.bytes_sent, fragment_bytes_sent as nat),
                        ..made.stats
                    },
                    ..made
                }),
            decreases n - i,
        {
            let seq = frag_sequences[i];
            proof {
                assert(crate::fragmentation::holds_fragment(
                    made.send_buffers,
                    frag_sequences@,
                    i as int,
                    made.id,
                    group,
                    n as u16,
                    body,
                ));
                assert(frag_sequences@[0] == crate::sequence::seq_forward(first, 0));
            }
            let sent = self.send_kept(seq, address, socket);
            proof {
                let kept = made.send_buffers.slot(seq)->0;
                assert(kept.wf(made.send_buffers.buffer_pool.buffer_size));
                assert(kept.byte_buffer.used().len() == kept.byte_buffer.length);
                assert(i * 1200 < body.len());
                assert(crate::fragmentation::chunk(body, i as int).len() == (if (i + 1) * 1200
                    <= body.len() {
                    1200
                } else {
                    body.len() - i * 1200
                }));
                assert(kept.byte_buffer.used().len() == 10 + crate::fragmentation::chunk(
                    body,
                    i as int,
                ).len());
                if old(socket).open {
                    assert(socket.sent() =~= old(socket).sent() + fragment_datagrams(
                        address,
                        made.id,
                        first,
                        group,
                        n as u16,
                        body,
                        (i + 1) as nat,
                    ));
                }
            }
            fragment_bytes_sent = fragment_bytes_sent + sent;
            self.stats.bytes_sent = add_wrapping(self.stats.bytes_sent, sent as u64);
            self.stats.fragments_sent = bump(self.stats.fragments_sent);
            i = i + 1;
        }
        self.stats.sent = bump(self.stats.sent);
        Ok(
            TachyonSendSuccess {
                header: Header {
                    message_type: MESSAGE_TYPE_FRAGMENT,
                    channel: 0,
                    sequence: 0,
                    fragment_group: 0,
                    fragment_start_sequence: 0,
                    fragment_count: 0,
                    start_sequence: 0,
                    flags: 0,
                },
                sent_len: fragment_bytes_sent as u32,
            },
        )
    }

    /// Sends the first `body_len` bytes of `data` as a reliable frame with
    /// the next sequence, and keeps the frame in case it is asked for again.
    ///
    /// Where NACKs may ride on frames and one is due, the first of the
    /// receiver's queue rides on this frame, which then has the longer
    /// header; the queue's first entry moves to its end either way. The
    /// length of the frame comes back, or zero on a port that is not open.
    pub fn send_reliable(
        &mut self,
        address: NetworkAddress,
        data: &[u8],
        body_len: usize,
        socket: &mut TachyonSocket,
    ) -> (r: Result<TachyonSendSuccess, TachyonSendError>)
        requires
            old(self).wf(),
            body_len <= data@.len(),
            body_len + 10 <= u32::MAX,
        ensures
            final(self).wf(),
            old(self).sent_reliable(
                final(self),
                old(socket),
                final(socket),
                address,
                data@.subrange(0, body_len as int),
                r,
            ),
    {
        // Optionally include nacks in outgoing messages, up to nack_redundancy times for each nack
        let mut nack_option: Option<Nack> = None;
        let mut header_len = TACHYON_HEADER_SIZE;

        if self.nack_redundancy > 0 {
            match self.receiver.nack_queue.pop_front() {
                Some(nack) => {
                    let mut nack = nack;
                    if nack.sent_count < self.nack_redundancy {
                        nack.sent_count = nack.sent_count + 1;
                        nack_option = Some(nack);
                        header_len = TACHYON_NACKED_HEADER_SIZE;
                    }
                    self.receiver.nack_queue.push_back(nack);
                },
                None => {},
            }
        }
        assert(nack_option
            == piggyback(old(self).nack_redundancy, old(self).receiver.nack_queue@));
        assert(self.receiver.nack_queue@ =~= rotated(
            old(self).nack_redundancy,
            old(self).receiver.nack_queue@,
        ));

        let send_buffer_len = body_len + header_len;
        let mut header = Header {
            message_type: MESSAGE_TYPE_RELIABLE,
            channel: self.id,
            sequence: 0,
            fragment_group: 0,
            fragment_start_sequence: 0,
            fragment_count: 0,
            start_sequence: 0,
            flags: 0,
        };
        let ghost size = self.send_buffers.buffer_pool.buffer_size;
        let sent_len;
        {
            let send_buffer = match self.send_buffers.create_send_buffer(send_buffer_len) {
                Some(send_buffer) => send_buffer,
                None => {
                    proof {
                        assert(false);
                    }
                    return Err(TachyonSendError::Unknown);
                },
            };
            header.sequence = send_buffer.sequence;
            copy_bytes(send_buffer.byte_buffer.get_mut(), header_len, data, 0, body_len);
            match nack_option {
                Some(nack) => {
                    header.message_type = MESSAGE_TYPE_RELIABLE_WITH_NACK;
                    header.start_sequence = nack.start_sequence;
                    header.flags = nack.flags;
                    self.stats.nacks_sent = add_wrapping(
                        self.stats.nacks_sent,
                        nack.nacked_count as u64,
                    );
                    header.write_nacked(send_buffer.byte_buffer.get_mut());
                },
                None => {
                    header.write(send_buffer.byte_buffer.get_mut());
                },
            }
            assert(send_buffer.byte_buffer.used() =~= reliable_frame(
                header,
                data@.subrange(0, body_len as int),
            ));
            assert(send_buffer.wf(size));
            sent_len = match socket.send_to(address, send_buffer.byte_buffer.get(), send_buffer_len) {
                Ok(n) => n,
                Err(_) => 0,
            };
        }
        self.stats.bytes_sent = add_wrapping(self.stats.bytes_sent, sent_len as u64);
        self.stats.sent = bump(self.stats.sent);
        Ok(TachyonSendSuccess { sent_len: sent_len as u32, header })
    }

    /// `post` is this channel, and `buffer_after` the application's
    /// buffer, after one message has been asked for, and `r` is the length
    /// copied and the channel's peer.
    ///
    /// The published queue has been drained as `drained` says, of up to 1000
    /// payloads; what was found lies at the start of the buffer. Nothing
    /// else changes but the pool that the payloads' buffers go back to.
    pub open spec fn drained_as(
        &self,
        post: &Channel,
        buffer: Seq<u8>,
        buffer_after: Seq<u8>,
        r: (u32, NetworkAddress),
    ) -> bool {
        let d = drained(
            frames_of(self.receiver.published@),
            self.frag.groups(),
            self.stats,
            buffer.len(),
            PUBLISH_RETRY_BUDGET as nat,
        );
        &&& post.wf()
        &&& post.id == self.id
        &&& post.address == self.address
        &&& post.send_buffers == self.send_buffers
        &&& post.nacked_sequence_map == self.nacked_sequence_map
        &&& post.nack_redundancy == self.nack_redundancy
        &&& post.receiver.current_sequence == self.receiver.current_sequence
        &&& post.receiver.last_sequence == self.receiver.last_sequence
        &&& post.receiver.buffered == self.receiver.buffered
        &&& post.receiver.nack_queue == self.receiver.nack_queue
        &&& buffer_after.len() == buffer.len()
        &&& r.1 == self.address
        &&& r.0 <= buffer.len()
        &&& d.taken <= self.receiver.published@.len()
        &&& post.receiver.published@ == self.receiver.published@.skip(d.taken as int)
        &&& r.0 == d.message.len()
        &&& buffer_after == splice(buffer, 0, d.message)
        &&& post.frag.groups() == d.groups
        &&& post.frag.next_group == self.frag.next_group
        &&& post.frag.received_at == self.frag.received_at
        &&& post.stats == d.stats
    }

    /// Hands one message to the application: the next published payload
    /// that holds one, without its header, copied to the start of
    /// `receive_buffer` as far as it fits. Payloads that hold none, such as
    /// NONE frames and fragments whose group is not whole, are passed over,
    /// up to 1000 of them.
    ///
    /// Returns the length copied, or zero if no message was found, and the
    /// channel's peer.
    pub fn receive_published(&mut self, receive_buffer: &mut [u8]) -> (r: (u32, NetworkAddress))
        requires
            old(self).wf(),
        ensures
            old(self).drained_as(final(self), old(receive_buffer)@, final(receive_buffer)@, r),
    {
        let mut tries: u32 = 0;
        let ghost room = receive_buffer@.len();
        let ghost frames0 = frames_of(old(self).receiver.published@);
        proof {
            assert(old(self).receiver.published@.skip(0) =~= self.receiver.published@);
            assert(frames0.skip(0) =~= frames0);
        }
        while tries < PUBLISH_RETRY_BUDGET
            invariant
                tries <= PUBLISH_RETRY_BUDGET,
                tries <= old(self).receiver.published@.len(),
                old(self).receiver.published@.skip(tries as int) == self.receiver.published@,
                frames0 == frames_of(old(self).receiver.published@),
                room == old(receive_buffer)@.len(),
                self.wf(),
                self.id == old(self).id,
                self.address == old(self).address,
                self.send_buffers == old(self).send_buffers,
                self.nacked_sequence_map == old(self).nacked_sequence_map,
                self.nack_redundancy == old(self).nack_redundancy,
                self.receiver.current_sequence == old(self).receiver.current_sequence,
                self.receiver.last_sequence == old(self).receiver.last_sequence,
                self.receiver.buffered == old(self).receiver.buffered,
                self.receiver.nack_queue == old(self).receiver.nack_queue,
                self.frag.next_group == old(self).frag.next_group,
                self.frag.received_at == old(self).frag.received_at,
                receive_buffer@ == old(receive_buffer)@,
                drained(
                    frames0,
                    old(self).frag.groups(),
                    old(self).stats,
                    room,
                    PUBLISH_RETRY_BUDGET as nat,
                ) == (Drained {
                    taken: drained(
                        frames0.skip(tries as int),
                        self.frag.groups(),
                        self.stats,
                        room,
                        (PUBLISH_RETRY_BUDGET - tries) as nat,
                    ).taken + tries as nat,
                    ..drained(
                        frames0.skip(tries as int),
                        self.frag.groups(),
                        self.stats,
                        room,
                        (PUBLISH_RETRY_BUDGET - tries) as nat,
                    )
                }),
            decreases PUBLISH_RETRY_BUDGET - tries,
        {
            let ghost before = self.receiver.published@;
            let ghost groups = self.frag.groups();
            let ghost stats = self.stats;
            proof {
                assert(frames_of(before) =~= frames0.skip(tries as int));
                if before.len() > 0 {
                    assert(frames0.skip(tries as int)[0] == before[0].used());
                    assert(frames0.skip(tries as int).skip(1) =~= frames0.skip(tries + 1));
                }
            }
            let (length, address, should_retry) = self.receive_published_internal(receive_buffer);
            if !should_retry {
                assert(receive_buffer@ =~= splice(old(receive_buffer)@, 0, Seq::<u8>::empty()));
                return (0, self.address);
            }
            proof {
                assert(old(self).receiver.published@.skip(tries + 1) =~= self.receiver.published@);
            }
            tries = tries + 1;
            if length > 0 {
                return (length, address);
            }
            assert(receive_buffer@ =~= old(receive_buffer)@);
        }
        proof {
            assert(receive_buffer@ =~= splice(old(receive_buffer)@, 0, Seq::<u8>::empty()));
        }
        (0, self.address)
    }

    /// Takes one payload off the published queue and hands its message, if
    /// it holds one, to the application. Returns the length copied, the
    /// channel's peer, and whether a payload was there to look at.
    fn receive_published_internal(&mut self, receive_buffer: &mut [u8]) -> (r: (
        u32,
        NetworkAddress,
        bool,
    ))
        requires
            old(self).wf(),
        ensures
            final(self).wf(),
            final(self).id == old(self).id,
            final(self).address == old(self).address,
            final(self).send_buffers == old(self).send_buffers,
            final(self).nacked_sequence_map == old(self).nacked_sequence_map,
            final(self).nack_redundancy == old(self).nack_redundancy,
            final(self).receiver.current_sequence == old(self).receiver.current_sequence,
            final(self).receiver.last_sequence == old(self).receiver.last_sequence,
            final(self).receiver.buffered == old(self).receiver.buffered,
            final(self).receiver.nack_queue == old(self).receiver.nack_queue,
            final(receive_buffer)@.len() == old(receive_buffer)@.len(),
            r.1 == old(self).address,
            r.0 <= old(receive_buffer)@.len(),
            r.2 == (old(self).receiver.published@.len() > 0),
            !r.2 ==> r.0 == 0 && final(self).receiver.published@ == old(self).receiver.published@,
            !r.2 ==> final(self).frag == old(self).frag && final(self).stats == old(self).stats
                && final(receive_buffer)@ == old(receive_buffer)@,
            r.2 ==> {
                let frame = old(self).receiver.published@[0].used();
                let groups = old(self).frag.groups();
                let message = fitted(published_message(groups, frame), old(receive_buffer)@.len());
                &&& final(self).receiver.published@ == old(self).receiver.published@.subrange(
                    1,
                    old(self).receiver.published@.len() as int,
                )
                &&& final(self).frag.groups() == groups_after_payload(groups, frame)
                &&& final(self).frag.next_group == old(self).frag.next_group
                &&& final(self).frag.received_at == old(self).frag.received_at
                &&& r.0 == message.len()
                &&& final(receive_buffer)@ == splice(old(receive_buffer)@, 0, message)
                &&& final(self).stats == stats_after_payload(old(self).stats, groups, frame)
            },
    {
        let byte_buffer = match self.receiver.take_published() {
            Some(byte_buffer) => byte_buffer,
            None => {
                return (0, self.address, false);
            },
        };
        let buffer_len = byte_buffer.length;
        let message_type = byte_buffer.get()[0];
        let room = if receive_buffer.len() > u32::MAX as usize {
            u32::MAX as usize
        } else {
            receive_buffer.len()
        };
        assert(receive_buffer@ =~= splice(receive_buffer@, 0, Seq::<u8>::empty()));

        if message_type == MESSAGE_TYPE_NONE {
            self.receiver.return_buffer(byte_buffer);
            return (0, self.address, true);
        }
        if message_type == MESSAGE_TYPE_FRAGMENT {
            if buffer_len < TACHYON_FRAGMENTED_HEADER_SIZE {
                self.receiver.return_buffer(byte_buffer);
                return (0, self.address, true);
            }
            let header = Header::read_fragmented(byte_buffer.get());
            assert(header == fragmented_header_of(byte_buffer.used()));
            self.receiver.return_buffer(byte_buffer);
            let res = match self.frag.assemble(header) {
                Ok(res) => res,
                Err(_) => {
                    return (0, self.address, true);
                },
            };
            let assembled_len = if res.len() <= room {
                res.len()
            } else {
                room
            };
            copy_bytes(receive_buffer, 0, res.as_slice(), 0, assembled_len);
            assert(res@.subrange(0, assembled_len as int) =~= fitted(
                res@,
                old(receive_buffer)@.len(),
            ));
            self.stats.received = bump(self.stats.received);
            self.stats.fragments_assembled = add_wrapping(
                self.stats.fragments_assembled,
                header.fragment_count as u64,
            );
            self.stats.published_consumed = bump(self.stats.published_consumed);
            return (assembled_len as u32, self.address, true);
        }
        let header_size: usize;
        if message_type == MESSAGE_TYPE_RELIABLE_WITH_NACK {
            header_size = TACHYON_NACKED_HEADER_SIZE;
        } else if message_type == MESSAGE_TYPE_RELIABLE {
            header_size = TACHYON_HEADER_SIZE;
        } else {
            // should not be possible
            self.receiver.return_buffer(byte_buffer);
            return (0, self.address, true);
        }
        if buffer_len < header_size {
            self.receiver.return_buffer(byte_buffer);
            return (0, self.address, true);
        }
        let body_len = if buffer_len - header_size <= room {
            buffer_len - header_size
        } else {
            room
        };
        copy_bytes(receive_buffer, 0, byte_buffer.get(), header_size, body_len);
        proof {
            let frame = byte_buffer.used();
            assert(byte_buffer@.subrange(header_size as int, header_size + body_len) =~= fitted(
                payload_body(frame),
                old(receive_buffer)@.len(),
            ));
        }
        self.receiver.return_buffer(byte_buffer);
        self.stats.published_consumed = bump(self.stats.published_consumed);
        (body_len as u32, self.address, true)
    }

    /// Sends the peer a frame of NACKs for what the receiver misses, if it
    /// misses anything.
    fn send_nacks(&mut self, socket: &mut TachyonSocket)
        requires
            old(self).wf(),
        ensures
            final(self).wf(),
            final(self).id == old(self).id,
            final(self).address == old(self).address,
            final(self).frag == old(self).frag,
            final(self).send_buffers == old(self).send_buffers,
            final(self).nacked_sequence_map == old(self).nacked_sequence_map,
            final(self).nack_redundancy == old(self).nack_redundancy,
            final(self).resend_rewrite_buffer == old(self).resend_rewrite_buffer,
            final(self).receiver == (Receiver {
                nack_list: final(self).receiver.nack_list,
                nack_queue: final(self).receiver.nack_queue,
                resend_list: final(self).receiver.resend_list,
                ..old(self).receiver
            }),
            final(self).receiver.resend_list@ == old(self).receiver.missing(),
            final(self).receiver.nack_queue@
                == old(self).receiver.nack_queue@ + final(self).receiver.nack_list@,
            forall|q: u16|
                final(self).receiver.resend_list@.contains(q)
                    <==> #[trigger] crate::receiver::reported(
                    final(self).receiver.nack_list@,
                    q,
                ),
            final(socket).open == old(socket).open,
            final(socket).is_server == old(socket).is_server,
            final(socket).address == old(socket).address,
            final(socket).peer == old(socket).peer,
            final(socket).inbox == old(socket).inbox,
            final(self).receiver.nack_list@.len() > 0 && old(socket).open ==> final(socket).sent()
                == old(socket).sent().push(
                (old(self).address, nack_frame(old(self).id, final(self).receiver.nack_list@)),
            ),
            final(self).receiver.nack_list@.len() == 0 || !old(socket).open
                ==> final(socket).outbox == old(socket).outbox,
            final(self).stats == (ChannelStats {
                nacks_sent: if final(self).receiver.nack_list@.len() > 0 {
                    wrapped_sum(
                        old(self).stats.nacks_sent,
                        final(self).receiver.resend_list@.len() as u64,
                    )
                } else {
                    old(self).stats.nacks_sent
                },
                ..old(self).stats
            }),
    {
        let nack_count = self.receiver.create_nacks();
        if self.receiver.nack_list.len() == 0 {
            return ;
        }
        let header = Header {
            message_type: MESSAGE_TYPE_NACK,
            channel: self.id,
            sequence: 0,
            fragment_group: 0,
            fragment_start_sequence: 0,
            fragment_count: 0,
            start_sequence: 0,
            flags: 0,
        };
        let need = TACHYON_HEADER_SIZE + Nack::varint_size(self.receiver.nack_list.as_slice());
        if self.nack_send_data.len() < need {
            self.nack_send_data.resize(need, 0);
        }
        header.write(self.nack_send_data.as_mut_slice());
        let position = Nack::write_varint(
            self.receiver.nack_list.as_slice(),
            self.nack_send_data.as_mut_slice(),
            TACHYON_HEADER_SIZE as u64,
        );
        let _ = socket.send_to(self.address, self.nack_send_data.as_slice(), position as usize);
        assert(self.nack_send_data@.subrange(0, position as int) =~= nack_frame(
            self.id,
            self.receiver.nack_list@,
        ));
        self.stats.nacks_sent = add_wrapping(self.stats.nacks_sent, nack_count as u64);
    }

    /// Answers one request to send `sequence` again to `address`: with the
    /// frame kept for it, freed of the NACK it may have carried, or with a
    /// NONE frame where none is kept.
    #[verifier::rlimit(60)]
    #[verifier::spinoff_prover]
    fn resend_one(&mut self, sequence: u16, address: NetworkAddress, socket: &mut TachyonSocket)
        requires
            old(self).wf(),
        ensures
            final(self).wf(),
            final(self).id == old(self).id,
            final(self).address == old(self).address,
            final(self).frag == old(self).frag,
            final(self).send_buffers == old(self).send_buffers,
            final(self).receiver == old(self).receiver,
            final(self).nacked_sequence_map == old(self).nacked_sequence_map,
            final(self).nack_redundancy == old(self).nack_redundancy,
            final(socket).open == old(socket).open,
            final(socket).is_server == old(socket).is_server,
            final(socket).address == old(socket).address,
            final(socket).peer == old(socket).peer,
            final(socket).inbox == old(socket).inbox,
            old(socket).open ==> final(socket).sent() == old(socket).sent().push(
                (address, resend_frame(old(self).send_buffers, old(self).id, sequence)),
            ),
            !old(socket).open ==> final(socket).outbox == old(socket).outbox,
            final(self).stats == (if is_kept(old(self).send_buffers, sequence) {
                ChannelStats { resent: next_count(old(self).stats.resent), ..old(self).stats }
            } else {
                ChannelStats {
                    nones_sent: next_count(old(self).stats.nones_sent),
                    ..old(self).stats
                }
            }),
    {
        let kept = match self.send_buffers.buffers.get(sequence) {
            Some(send_buffer) => send_buffer.sequence == sequence,
            None => false,
        };
        if !kept {
            self.create_none(sequence);
            let _ = socket.send_to(address, self.none_send_data.as_slice(), TACHYON_HEADER_SIZE);
            assert(self.none_send_data@.subrange(0, 4) =~= none_frame(sequence, self.id));
            self.stats.nones_sent = bump(self.stats.nones_sent);
            return ;
        }
        match self.send_buffers.buffers.get(sequence) {
            Some(send_buffer) => {
                let length = send_buffer.byte_buffer.length;
                let bytes = send_buffer.byte_buffer.get();
                assert(send_buffer.wf(self.send_buffers.buffer_pool.buffer_size));
                if length >= TACHYON_NACKED_HEADER_SIZE && bytes[0]
                    == MESSAGE_TYPE_RELIABLE_WITH_NACK {
                    let frame = vstd::slice::slice_subrange(bytes, 0, length);
                    if self.resend_rewrite_buffer.len() < length - 6 {
                        self.resend_rewrite_buffer.resize(length - 6, 0);
                    }
                    let send_len = Self::rewrite_reliable_nack_to_reliable(
                        self.resend_rewrite_buffer.as_mut_slice(),
                        frame,
                    );
                    let _ = socket.send_to(
                        address,
                        self.resend_rewrite_buffer.as_slice(),
                        send_len,
                    );
                    assert(self.resend_rewrite_buffer@.subrange(0, send_len as int) =~= rewritten(
                        frame@,
                    ));
                } else {
                    let _ = socket.send_to(address, bytes, length);
                }
            },
            None => {},
        }
        self.stats.resent = bump(self.stats.resent);
    }

    /// Answers every request noted since the last call, in the order the map
    /// gives them, and forgets them.
    fn resend_nacked(&mut self, socket: &mut TachyonSocket)
        requires
            old(self).wf(),
        ensures
            final(self).wf(),
            final(self).id == old(self).id,
            final(self).address == old(self).address,
            final(self).frag == old(self).frag,
            final(self).send_buffers == old(self).send_buffers,
            final(self).receiver == old(self).receiver,
            final(self).nack_redundancy == old(self).nack_redundancy,
            final(self).nacked_sequence_map@ == Map::<u16, NetworkAddress>::empty(),
            final(socket).open == old(socket).open,
            final(socket).is_server == old(socket).is_server,
            final(socket).address == old(socket).address,
            final(socket).peer == old(socket).peer,
            final(socket).inbox == old(socket).inbox,
            !old(socket).open ==> final(socket).outbox == old(socket).outbox,
            exists|order: Seq<u16>|
                {
                    &&& #[trigger] order.no_duplicates()
                    &&& forall|s: u16|
                        order.contains(s) <==> old(self).nacked_sequence_map@.contains_key(s)
                    &&& old(socket).open ==> final(socket).sent() == old(socket).sent()
                        + resend_datagrams(
                        old(self).send_buffers,
                        old(self).id,
                        old(self).nacked_sequence_map@,
                        order,
                    )
                    &&& final(self).stats == (ChannelStats {
                        nacks_received: crate::counter::count_after(
                            old(self).stats.nacks_received,
                            order.len(),
                        ),
                        resent: crate::counter::count_after(
                            old(self).stats.resent,
                            kept_count(old(self).send_buffers, order),
                        ),
                        nones_sent: crate::counter::count_after(
                            old(self).stats.nones_sent,
                            (order.len() - kept_count(old(self).send_buffers, order)) as nat,
                        ),
                        ..old(self).stats
                    })
                },
    {
        let keys = map_keys(&self.nacked_sequence_map);
        let mut i: usize = 0;
        proof {
            assert(keys@.subrange(0, 0) =~= Seq::<u16>::empty());
            assert(socket.sent() =~= old(socket).sent() + resend_datagrams(
                self.send_buffers,
                self.id,
                self.nacked_sequence_map@,
                keys@.subrange(0, 0),
            ));
        }
        while i < keys.len()
            invariant
                i <= keys@.len(),
                self.wf(),
                self.id == old(self).id,
                self.address == old(self).address,
                self.frag == old(self).frag,
                self.send_buffers == old(self).send_buffers,
                self.receiver == old(self).receiver,
                self.nack_redundancy == old(self).nack_redundancy,
                self.nacked_sequence_map == old(self).nacked_sequence_map,
                forall|s: u16| keys@.contains(s)
                    <==> old(self).nacked_sequence_map@.contains_key(s),
                socket.open == old(socket).open,
                socket.is_server == old(socket).is_server,
                socket.address == old(socket).address,
                socket.peer == old(socket).peer,
                socket.inbox == old(socket).inbox,
                !old(socket).open ==> socket.outbox == old(socket).outbox,
                old(socket).open ==> socket.sent() == old(socket).sent() + resend_datagrams(
                    old(self).send_buffers,
                    old(self).id,
                    old(self).nacked_sequence_map@,
                    keys@.subrange(0, i as int),
                ),
                kept_count(old(self).send_buffers, keys@.subrange(0, i as int)) <= i,
                self.stats == (ChannelStats {
                    nacks_received: crate::counter::count_after(
                        old(self).stats.nacks_received,
                        i as nat,
                    ),
                    resent: crate::counter::count_after(
                        old(self).stats.resent,
                        kept_count(old(self).send_buffers, keys@.subrange(0, i as int)),
                    ),
                    nones_sent: crate::counter::count_after(
                        old(self).stats.nones_sent,
                        (i - kept_count(old(self).send_buffers, keys@.subrange(0, i as int))) as nat,
                    ),
                    ..old(self).stats
                }),
            decreases keys@.len() - i,
        {
            let sequence = keys[i];
            assert(keys@.contains(sequence));
            let address = match map_get(&self.nacked_sequence_map, &sequence) {
                Some(address) => *address,
                None => self.address,
            };
            self.stats.nacks_received = bump(self.stats.nacks_received);
            self.resend_one(sequence, address, socket);
            proof {
                let done = keys@.subrange(0, i as int);
                let more = keys@.subrange(0, i + 1);
                assert(more.drop_last() =~= done);
                assert(more.last() == sequence);
                if old(socket).open {
                    assert(socket.sent() =~= old(socket).sent() + resend_datagrams(
                        old(self).send_buffers,
                        old(self).id,
                        old(self).nacked_sequence_map@,
                        more,
                    ));
                }
            }
            i = i + 1;
        }
        map_clear(&mut self.nacked_sequence_map);
        proof {
            assert(keys@.subrange(0, keys@.len() as int) =~= keys@);
            assert(keys@.no_duplicates());
        }
    }

    /// One tick of the channel: reports what the receiver misses, answers
    /// the peer's requests to send again, and publishes what is ready.
    pub fn update(&mut self, socket: &mut TachyonSocket)
        requires
            old(self).wf(),
        ensures
            old(self).ticked_as(final(self), old(socket), final(socket)),
    {
        self.send_nacks(socket);
        let ghost mid_sent = socket.sent();
        let ghost mid_stats = self.stats;
        self.resend_nacked(socket);
        proof {
            let order = choose|order: Seq<u16>|
                {
                    &&& #[trigger] order.no_duplicates()
                    &&& forall|s: u16|
                        order.contains(s) <==> old(self).nacked_sequence_map@.contains_key(s)
                    &&& old(socket).open ==> socket.sent() == mid_sent + resend_datagrams(
                        old(self).send_buffers,
                        old(self).id,
                        old(self).nacked_sequence_map@,
                        order,
                    )
                    &&& self.stats == (ChannelStats {
                        nacks_received: crate::counter::count_after(
                            mid_stats.nacks_received,
                            order.len(),
                        ),
                        resent: crate::counter::count_after(
                            mid_stats.resent,
                            kept_count(old(self).send_buffers, order),
                        ),
                        nones_sent: crate::counter::count_after(
                            mid_stats.nones_sent,
                            (order.len() - kept_count(old(self).send_buffers, order)) as nat,
                        ),
                        ..mid_stats
                    })
                };
            if old(socket).open {
                assert(mid_sent =~= old(socket).sent() + nack_datagrams(
                    old(self).address,
                    old(self).id,
                    self.receiver.nack_list@,
                ));
                assert(socket.sent() =~= old(socket).sent() + nack_datagrams(
                    old(self).address,
                    old(self).id,
                    self.receiver.nack_list@,
                ) + resend_datagrams(
                    old(self).send_buffers,
                    old(self).id,
                    old(self).nacked_sequence_map@,
                    order,
                ));
            }
            assert(order.no_duplicates());
        }

        // Groups of fragments are not expired here: to walk all of them on
        // every tick costs too much where many are open.
        self.receiver.publish();
    }

    /// Makes of a frame that carried a NACK the frame that is sent again:
    /// the body moves up behind a base header of type RELIABLE that keeps
    /// channel and sequence. Returns the new length, six bytes less.
    pub fn rewrite_reliable_nack_to_reliable(rewrite_buffer: &mut [u8], send_buffer: &[u8]) -> (r:
        usize)
        requires
            send_buffer@.len() >= TACHYON_NACKED_HEADER_SIZE,
            old(rewrite_buffer)@.len() >= send_buffer@.len() - 6,
        ensures
            r == send_buffer@.len() - 6,
            final(rewrite_buffer)@ == splice(old(rewrite_buffer)@, 0, rewritten(send_buffer@)),
            base_header_of(final(rewrite_buffer)@).message_type == MESSAGE_TYPE_RELIABLE,
            base_header_of(final(rewrite_buffer)@).channel == base_header_of(send_buffer@).channel,
            base_header_of(final(rewrite_buffer)@).sequence == base_header_of(
                send_buffer@,
            ).sequence,
            final(rewrite_buffer)@.subrange(4, r as int) == send_buffer@.skip(10),
    {
        let mut header = Header::read(send_buffer);
        let src_body_len = send_buffer.len() - TACHYON_NACKED_HEADER_SIZE;
        copy_bytes(
            rewrite_buffer,
            TACHYON_HEADER_SIZE,
            send_buffer,
            TACHYON_NACKED_HEADER_SIZE,
            src_body_len,
        );
        header.message_type = MESSAGE_TYPE_RELIABLE;
        header.write(rewrite_buffer);
        proof {
            assert(send_buffer@.subrange(10, 10 + src_body_len) =~= send_buffer@.skip(10));
            assert(rewrite_buffer@ =~= splice(old(rewrite_buffer)@, 0, rewritten(send_buffer@)));
            assert(rewrite_buffer@.subrange(4, 4 + src_body_len) =~= send_buffer@.skip(10));
        }
        TACHYON_HEADER_SIZE + src_body_len
    }
}

/// Sending a frame again without its NACK keeps its sequence, its channel
/// and its body, and the new frame is the body and four bytes long.
pub proof fn lemma_rewrite_preserves(frame: Seq<u8>)
    requires
        frame.len() >= 10,
    ensures
        rewritten(frame).len() == (frame.len() - 10) + 4,
        base_header_of(rewritten(frame)).message_type == MESSAGE_TYPE_RELIABLE,
        base_header_of(rewritten(frame)).sequence == base_header_of(frame).sequence,
        base_header_of(rewritten(frame)).channel == base_header_of(frame).channel,
        rewritten(frame).skip(4) == frame.skip(10),
{
    assert(rewritten(frame).skip(4) =~= frame.skip(10));
}

} // verus!
