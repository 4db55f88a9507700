//! The endpoint: one datagram port, the peers that talk to it, and a
//! channel for each peer and configured channel id.

use crate::channel::{
    standard_config, stats_sum, zero_stats, Channel, ChannelConfig, ChannelStats,
};
use crate::clock::{millis_in_u64, millis_since};
use crate::connection::{Connection, Identity};
use crate::connection_header::{ConnectionHeader, CONNECTION_HEADER_SIZE};
use crate::connection_impl::{
    IDENTITY_LINKED_EVENT, IDENTITY_UNLINKED_EVENT, LINK_IDENTITY_EVENT, UNLINK_IDENTITY_EVENT,
};
use crate::counter::{bump, next_count};
use crate::fragmentation::{Fragmentation, FRAG_SIZE};
use crate::fx_map::{map_contains, map_get, map_get_mut, map_insert, map_keys, map_new};
use crate::header::{
    zero_header, Header, MESSAGE_TYPE_FRAGMENT, MESSAGE_TYPE_IDENTITY_LINKED,
    MESSAGE_TYPE_IDENTITY_UNLINKED, MESSAGE_TYPE_LINK_IDENTITY, MESSAGE_TYPE_NACK,
    MESSAGE_TYPE_NONE, MESSAGE_TYPE_RELIABLE, MESSAGE_TYPE_RELIABLE_WITH_NACK,
    MESSAGE_TYPE_UNLINK_IDENTITY, MESSAGE_TYPE_UNRELIABLE, TACHYON_FRAGMENTED_HEADER_SIZE,
    TACHYON_HEADER_SIZE, TACHYON_NACKED_HEADER_SIZE,
};
use crate::int_buffer::copy_bytes;
use crate::network_address::{address_key, channel_key, NetworkAddress};
use crate::receive_result::{ReceiveError, ReceiveSuccess, ReceiveType};
use crate::send_result::{TachyonSendError, TachyonSendSuccess};
use crate::tachyon_receive_result::{
    TachyonReceiveError, TachyonReceiveSuccess, TachyonReceiveType,
};
use crate::tachyon_socket::{drops, first_type, SocketReceiveError, TachyonSocket};
use crate::unreliable_sender::{UnreliableSender, UNRELIABLE_BUFFER_LEN};
use rustc_hash::FxHashMap;
use std::time::Instant;
use vstd::prelude::*;

verus! {

pub const SOCKET_RECEIVE_BUFFER_LEN: usize = 1048576;

/// How many datagrams one call of `receive_loop` looks at.
pub const RECEIVE_LOOP_BUDGET: u32 = 100;

#[derive(Clone, Copy, Debug, PartialEq, Eq, Structural)]
pub struct TachyonStats {
    pub channel_stats: ChannelStats,
    pub packets_dropped: u64,
    pub unreliable_sent: u64,
    pub unreliable_received: u64,
}

impl Default for TachyonStats {
    fn default() -> (r: Self)
        ensures
            r == (TachyonStats {
                channel_stats: zero_stats(),
                packets_dropped: 0,
                unreliable_sent: 0,
                unreliable_received: 0,
            }),
    {
        TachyonStats {
            channel_stats: ChannelStats::default(),
            packets_dropped: 0,
            unreliable_sent: 0,
            unreliable_received: 0,
        }
    }
}

#[derive(Clone, Copy, Debug, PartialEq, Eq, Structural)]
pub struct TachyonConfig {
    pub use_identity: u32,
    pub drop_packet_chance: u64,
    pub drop_reliable_only: u32,
}

impl Default for TachyonConfig {
    fn default() -> (r: Self)
        ensures
            r == (TachyonConfig { use_identity: 0, drop_packet_chance: 0, drop_reliable_only: 0 }),
    {
        TachyonConfig { use_identity: 0, drop_packet_chance: 0, drop_reliable_only: 0 }
    }
}

/// Where a message goes: to the peer linked to an identity, if one is
/// named, else to an address.
#[derive(Clone, Copy, Debug, PartialEq, Eq, Structural)]
pub struct SendTarget {
    pub identity_id: u32,
    pub address: NetworkAddress,
}

impl Default for SendTarget {
    fn default() -> (r: Self)
        ensures
            r == (SendTarget {
                identity_id: 0,
                address: NetworkAddress { a: 0, b: 0, c: 0, d: 0, port: 0 },
            }),
    {
        SendTarget { identity_id: 0, address: NetworkAddress::default() }
    }
}

/// How one step of receiving ended.
#[derive(Clone, Copy, Debug)]
pub enum ReceiveStep {
    /// The receiving is over, with this result.
    Done(Result<TachyonReceiveSuccess, TachyonReceiveError>),
    /// The step handed nothing over; another may.
    Again,
    /// The port has nothing more waiting.
    Drained,
}

/// What an endpoint tells the application about its peers.
#[derive(Clone, Copy, Debug, PartialEq, Eq, Structural)]
pub enum EventKind {
    ConnectionAdded,
    ConnectionRemoved,
    IdentityLinkRequested,
    IdentityUnlinkRequested,
    IdentityLinked,
    IdentityUnlinked,
}

/// An event and the peer it is about.
#[derive(Clone, Copy, Debug, PartialEq, Eq, Structural)]
pub struct Event {
    pub kind: EventKind,
    pub connection: Connection,
}

pub struct Tachyon {
    pub id: u16,
    pub socket: TachyonSocket,
    pub socket_receive_buffer: Vec<u8>,
    pub unreliable_sender: Option<UnreliableSender>,
    /// The session id that each known identity has to show.
    pub identities: FxHashMap<u32, u32>,
    /// The peers, by the key of their address.
    pub connections: FxHashMap<u128, Connection>,
    pub identity_to_address_map: FxHashMap<u32, NetworkAddress>,
    /// The channels, by the key of their peer's address and their id.
    pub channels: FxHashMap<u128, Channel>,
    pub channel_config: FxHashMap<u8, ChannelConfig>,
    pub config: TachyonConfig,
    pub nack_send_data: Vec<u8>,
    pub stats: TachyonStats,
    pub start_time: Instant,
    /// When the client last asked to be linked, if it ever did.
    pub last_identity_link_request: Option<Instant>,
    pub identity: Identity,
    /// Events that wait for the application.
    pub events: Vec<Event>,
}

/// How many of the channel ids below `n` are configured and have a channel
/// for the peer at `address`.
pub open spec fn channel_count_below(
    config: Map<u8, ChannelConfig>,
    channels: Map<u128, Channel>,
    address: NetworkAddress,
    n: nat,
) -> nat
    decreases n,
{
    if n == 0 {
        0
    } else {
        channel_count_below(config, channels, address, (n - 1) as nat) + (if config.contains_key(
            (n - 1) as u8,
        ) && channels.contains_key(channel_key(address, (n - 1) as u8)) {
            1nat
        } else {
            0nat
        })
    }
}

/// A channel's counters with the count of skipped sequences brought up to
/// its receiver's.
pub open spec fn current_stats(channel: Channel) -> ChannelStats {
    ChannelStats { skipped_sequences: channel.receiver.skipped_sequences, ..channel.stats }
}

/// The counters of the channels under `keys`, added up in that order.
pub open spec fn stats_total(channels: Map<u128, Channel>, keys: Seq<u128>) -> ChannelStats
    decreases keys.len(),
{
    if keys.len() == 0 {
        zero_stats()
    } else {
        stats_sum(stats_total(channels, keys.drop_last()), current_stats(channels[keys.last()]))
    }
}

/// `after` holds the channels of `before`, each after one tick.
pub open spec fn channels_updated(before: Map<u128, Channel>, after: Map<u128, Channel>) -> bool {
    &&& after.dom() == before.dom()
    &&& forall|k: u128|
        before.contains_key(k) ==> (#[trigger] before[k]).updated_as(&after[k])
}

/// `after` holds the channels of `before`, each with its count of skipped
/// sequences brought up to date.
pub open spec fn channels_counted(before: Map<u128, Channel>, after: Map<u128, Channel>) -> bool {
    &&& after.dom() == before.dom()
    &&& forall|k: u128|
        before.contains_key(k) ==> #[trigger] after[k] == (Channel {
            stats: current_stats(before[k]),
            ..before[k]
        })
}

/// The channels every endpoint is made with: 1 ordered, 2 unordered.
pub open spec fn standard_channels() -> Map<u8, ChannelConfig> {
    Map::<u8, ChannelConfig>::empty().insert(1, standard_config(1)).insert(2, standard_config(0))
}

impl Tachyon {
    /// The endpoint's invariant: the receive buffer has its size, every
    /// channel is sound and filed under the key of its peer and id, and
    /// every peer is filed under the key of its address.
    pub open spec fn wf(&self) -> bool {
        &&& self.socket_receive_buffer@.len() == SOCKET_RECEIVE_BUFFER_LEN
        &&& forall|k: u128|
            self.channels@.contains_key(k) ==> (#[trigger] self.channels@[k]).wf() && k
                == channel_key(self.channels@[k].address, self.channels@[k].id)
        &&& forall|k: u128|
            self.connections@.contains_key(k) ==> k == address_key(
                (#[trigger] self.connections@[k]).address,
            )
        &&& self.unreliable_sender is Some ==> self.unreliable_sender->0.wf()
    }

    /// Whether a channel with this id exists for this peer.
    pub open spec fn has_channel(&self, address: NetworkAddress, channel_id: u8) -> bool {
        self.channels@.contains_key(channel_key(address, channel_id))
    }

    /// Whether this address is a known peer.
    pub open spec fn has_connection(&self, address: NetworkAddress) -> bool {
        self.connections@.contains_key(address_key(address))
    }

    #[must_use]
    pub fn create(config: TachyonConfig) -> (r: Self)
        ensures
            r.wf(),
            r.id == 0,
            r.config == config,
            !r.socket.open,
            r.channels@ == Map::<u128, Channel>::empty(),
            r.connections@ == Map::<u128, Connection>::empty(),
            r.identities@ == Map::<u32, u32>::empty(),
            r.identity_to_address_map@ == Map::<u32, NetworkAddress>::empty(),
            r.channel_config@ == standard_channels(),
    {
        Self::create_with_id(config, 0)
    }

    /// An endpoint that is neither bound nor connected, with the two
    /// standard channels configured: 1 ordered, 2 unordered.
    #[must_use]
    pub fn create_with_id(config: TachyonConfig, id: u16) -> (r: Self)
        ensures
            r.wf(),
            r.id == id,
            r.config == config,
            !r.socket.open,
            !r.socket.is_server,
            r.socket.inbox@.len() == 0,
            r.socket.outbox@.len() == 0,
            r.unreliable_sender is None,
            r.identity == (Identity { id: 0, session_id: 0, linked: 0 }),
            r.events@.len() == 0,
            r.last_identity_link_request is None,
            r.channels@ == Map::<u128, Channel>::empty(),
            r.connections@ == Map::<u128, Connection>::empty(),
            r.identities@ == Map::<u32, u32>::empty(),
            r.identity_to_address_map@ == Map::<u32, NetworkAddress>::empty(),
            r.channel_config@ == standard_channels(),
    {
        let mut channel_config: FxHashMap<u8, ChannelConfig> = map_new();
        map_insert(&mut channel_config, 1, ChannelConfig::default_ordered());
        map_insert(&mut channel_config, 2, ChannelConfig::default_unordered());

        Tachyon {
            id,
            identities: map_new(),
            connections: map_new(),
            identity_to_address_map: map_new(),
            channels: map_new(),
            channel_config,
            socket: TachyonSocket::create(),
            socket_receive_buffer: vec![0u8; SOCKET_RECEIVE_BUFFER_LEN],
            unreliable_sender: None,
            config,
            nack_send_data: vec![0u8; 4096],
            stats: TachyonStats::default(),
            start_time: Instant::now(),
            last_identity_link_request: None,
            identity: Identity::default(),
            events: Vec::new(),
        }
    }

    /// The milliseconds since the endpoint was made, as the clock has them.
    #[must_use]
    pub fn time_since_start(&self) -> (r: u64) {
        millis_in_u64(millis_since(&self.start_time))
    }

    /// The channel with this id for this peer, to be used in place.
    pub fn get_channel(&mut self, address: NetworkAddress, channel_id: u8) -> (r: Option<
        &mut Channel,
    >)
        ensures
            match r {
                Some(channel) => {
                    &&& old(self).has_channel(address, channel_id)
                    &&& *channel == old(self).channels@[channel_key(address, channel_id)]
                    &&& final(self).channels@ == old(self).channels@.insert(
                        channel_key(address, channel_id),
                        *final(channel),
                    )
                },
                None => !old(self).has_channel(address, channel_id) && final(self).channels@
                    == old(self).channels@,
            },
            final(self).id == old(self).id,
            final(self).socket == old(self).socket,
            final(self).connections == old(self).connections,
            final(self).identities == old(self).identities,
            final(self).channel_config == old(self).channel_config,
            final(self).config == old(self).config,
            final(self).stats == old(self).stats,
            final(self).identity == old(self).identity,
    {
        let key = address.channel_key(channel_id);
        map_get_mut(&mut self.channels, &key)
    }

    /// Opens the endpoint as a server at `address`. Returns whether it did;
    /// it does not on an endpoint that is bound or connected already.
    pub fn bind(&mut self, address: NetworkAddress) -> (r: bool)
        requires
            old(self).wf(),
        ensures
            final(self).wf(),
            r == !old(self).socket.open,
            !r ==> *final(self) == *old(self),
            r ==> {
                &&& final(self).socket == (TachyonSocket {
                    address,
                    is_server: true,
                    open: true,
                    ..old(self).socket
                })
                &&& final(self).unreliable_sender is Some
                &&& final(self).unreliable_sender->0.open
                &&& final(self).unreliable_sender->0.outbox@.len() == 0
                &&& *final(self) == (Tachyon {
                    socket: final(self).socket,
                    unreliable_sender: final(self).unreliable_sender,
                    ..*old(self)
                })
            },
    {
        let bound = self.socket.bind_socket(address).is_ok();
        if bound {
            self.unreliable_sender = self.create_unreliable_sender();
        }
        bound
    }

    /// Opens the endpoint as a client of the server at `address`, which it
    /// knows from then on as the peer at the default address. Returns
    /// whether it did; it does not on an endpoint that is bound or connected
    /// already.
    pub fn connect(&mut self, address: NetworkAddress) -> (r: bool)
        requires
            old(self).wf(),
        ensures
            final(self).wf(),
            r == !old(self).socket.open,
            !r ==> *final(self) == *old(self),
            r ==> {
                let local = NetworkAddress { a: 0, b: 0, c: 0, d: 0, port: 0 };
                &&& final(self).socket == (TachyonSocket {
                    address: local,
                    peer: address,
                    open: true,
                    ..old(self).socket
                })
                &&& final(self).unreliable_sender is Some
                &&& final(self).unreliable_sender->0.open
                &&& final(self).unreliable_sender->0.outbox@.len() == 0
                &&& final(self).id == old(self).id
                &&& final(self).config == old(self).config
                &&& final(self).identity == old(self).identity
                &&& final(self).stats == old(self).stats
                &&& final(self).identities == old(self).identities
                &&& final(self).channel_config == old(self).channel_config
                &&& final(self).has_connection(local)
                &&& final(self).connections@.dom() == old(self).connections@.dom().insert(
                    address_key(local),
                )
                &&& crate::connection_impl::channels_added(
                    old(self).channels@,
                    final(self).channels@,
                    old(self).channel_config@,
                    local,
                )
            },
    {
        let connected = self.socket.connect_socket(address).is_ok();
        if connected {
            let local_address = NetworkAddress::default();
            self.create_connection(local_address, Identity::default());
            self.unreliable_sender = self.create_unreliable_sender();
        }
        connected
    }

    /// A sender for unreliable frames that can be used apart from the
    /// endpoint. It sends only if the endpoint's port is open now.
    #[must_use]
    pub fn create_unreliable_sender(&self) -> (r: Option<UnreliableSender>)
        ensures
            r is Some,
            r->0.wf(),
            r->0.open == self.socket.open,
            r->0.outbox@.len() == 0,
    {
        let sender = UnreliableSender::create(self.socket.open);
        Some(sender)
    }

    /// How many of the configured channels exist for the peer at `address`.
    #[must_use]
    pub fn get_channel_count(&self, address: NetworkAddress) -> (r: u32)
        ensures
            r == channel_count_below(self.channel_config@, self.channels@, address, 256),
    {
        let mut count: u32 = 0;
        let mut id: u16 = 0;
        while id < 256
            invariant
                id <= 256,
                count <= id,
                count == channel_count_below(
                    self.channel_config@,
                    self.channels@,
                    address,
                    id as nat,
                ),
            decreases 256 - id,
        {
            let channel_id = id as u8;
            if map_contains(&self.channel_config, &channel_id) && map_contains(
                &self.channels,
                &address.channel_key(channel_id),
            ) {
                count = count + 1;
            }
            id = id + 1;
        }
        count
    }

    /// Configures a channel id of the application's own. The ids 1 and 2 are
    /// taken, and 0 stands for unreliable traffic: for them nothing changes
    /// and `false` comes back.
    pub fn configure_channel(&mut self, channel_id: u8, config: ChannelConfig) -> (r: bool)
        ensures
            r == (channel_id >= 3),
            !r ==> *final(self) == *old(self),
            r ==> final(self).channel_config@ == old(self).channel_config@.insert(
                channel_id,
                config,
            ) && *final(self) == (Tachyon {
                channel_config: final(self).channel_config,
                ..*old(self)
            }),
    {
        if channel_id < 3 {
            return false;
        }
        map_insert(&mut self.channel_config, channel_id, config);
        true
    }

    /// The endpoint's counters, with the counters of all its channels added
    /// up. Each channel's count of skipped sequences is brought up to date
    /// first.
    pub fn get_combined_stats(&mut self) -> (r: TachyonStats)
        requires
            old(self).wf(),
        ensures
            final(self).wf(),
            *final(self) == (Tachyon { channels: final(self).channels, ..*old(self) }),
            channels_counted(old(self).channels@, final(self).channels@),
            r.packets_dropped == old(self).stats.packets_dropped,
            r.unreliable_sent == old(self).stats.unreliable_sent,
            r.unreliable_received == old(self).stats.unreliable_received,
            exists|order: Seq<u128>|
                {
                    &&& #[trigger] order.no_duplicates()
                    &&& forall|k: u128| order.contains(k) <==> old(self).channels@.contains_key(k)
                    &&& r.channel_stats == stats_total(old(self).channels@, order)
                },
    {
        let keys = map_keys(&self.channels);
        let mut channel_stats = ChannelStats::default();
        let mut i: usize = 0;
        assert(keys@.subrange(0, 0) =~= Seq::<u128>::empty());
        while i < keys.len()
            invariant
                i <= keys@.len(),
                keys@.no_duplicates(),
                forall|k: u128| keys@.contains(k) <==> old(self).channels@.contains_key(k),
                old(self).wf(),
                self.wf(),
                *self == (Tachyon { channels: self.channels, ..*old(self) }),
                self.channels@.dom() == old(self).channels@.dom(),
                forall|j: int|
                    0 <= j < i ==> self.channels@[#[trigger] keys@[j]] == (Channel {
                        stats: current_stats(old(self).channels@[keys@[j]]),
                        ..old(self).channels@[keys@[j]]
                    }),
                forall|j: int|
                    i <= j < keys@.len()
                        ==> self.channels@[#[trigger] keys@[j]] == old(self).channels@[keys@[j]],
                channel_stats == stats_total(old(self).channels@, keys@.subrange(0, i as int)),
            decreases keys@.len() - i,
        {
            let key = keys[i];
            assert(keys@.contains(key));
            let ghost before = self.channels@;
            match map_get_mut(&mut self.channels, &key) {
                Some(channel) => {
                    channel.update_stats();
                    channel_stats.add_from(&channel.stats);
                },
                None => {
                    assert(false);
                },
            }
            proof {
                assert(self.channels@.dom() =~= before.dom());
                let more = keys@.subrange(0, i + 1);
                assert(more.drop_last() =~= keys@.subrange(0, i as int));
                assert(more.last() == key);
            }
            i = i + 1;
        }
        proof {
            assert(keys@.subrange(0, keys@.len() as int) =~= keys@);
            assert forall|k: u128| old(self).channels@.contains_key(k) implies (
            #[trigger] self.channels@[k]) == (Channel {
                stats: current_stats(old(self).channels@[k]),
                ..old(self).channels@[k]
            }) by {
                assert(keys@.contains(k));
                let j = choose|j: int| 0 <= j < keys@.len() && keys@[j] == k;
                assert(self.channels@[keys@[j]] == (Channel {
                    stats: current_stats(old(self).channels@[keys@[j]]),
                    ..old(self).channels@[keys@[j]]
                }));
            }
        }
        let mut stats = self.stats;
        stats.channel_stats = channel_stats;
        stats
    }

    /// One tick of the endpoint: a client that wants to be linked asks for
    /// it if a request is due, and every channel has its tick.
    pub fn update(&mut self)
        requires
            old(self).wf(),
        ensures
            final(self).wf(),
            old(self).updated_as(final(self)),
            channels_updated(old(self).channels@, final(self).channels@),
            final(self).id == old(self).id,
            final(self).config == old(self).config,
            final(self).identity == old(self).identity,
            final(self).stats == old(self).stats,
            final(self).connections == old(self).connections,
            final(self).identities == old(self).identities,
            final(self).identity_to_address_map == old(self).identity_to_address_map,
            final(self).channel_config == old(self).channel_config,
            final(self).events == old(self).events,
            final(self).unreliable_sender == old(self).unreliable_sender,
            final(self).socket.open == old(self).socket.open,
            final(self).socket.is_server == old(self).socket.is_server,
            final(self).socket.address == old(self).socket.address,
            final(self).socket.peer == old(self).socket.peer,
            final(self).socket.inbox == old(self).socket.inbox,
            !old(self).socket.open ==> final(self).socket.outbox == old(self).socket.outbox,
            old(self).socket.sent().len() <= final(self).socket.sent().len(),
            final(self).socket.sent().subrange(0, old(self).socket.sent().len() as int) == old(
                self,
            ).socket.sent(),
    {
        self.client_identity_update();
        let ghost asked = *self;
        let ghost sent0 = old(self).socket.sent();
        assert(self.socket.sent().subrange(0, sent0.len() as int) =~= sent0);

        let keys = map_keys(&self.channels);
        proof {
            assert forall|post: Tachyon, rest: Seq<u128>| #[trigger]
                self.channels_ticked_as(&post, rest) implies asked.channels_ticked_as(
                &post,
                keys@.subrange(0, 0) + rest,
            ) by {
                assert(keys@.subrange(0, 0) + rest =~= rest);
            }
        }
        let mut i: usize = 0;
        while i < keys.len()
            invariant
                i <= keys@.len(),
                keys@.no_duplicates(),
                forall|k: u128| keys@.contains(k) <==> old(self).channels@.contains_key(k),
                old(self).wf(),
                self.wf(),
                self.channels@.dom() == old(self).channels@.dom(),
                forall|j: int|
                    0 <= j < i ==> (#[trigger] old(self).channels@[keys@[j]]).updated_as(
                        &self.channels@[keys@[j]],
                    ),
                forall|j: int|
                    i <= j < keys@.len() ==> self.channels@[#[trigger] keys@[j]] == old(
                        self,
                    ).channels@[keys@[j]],
                self.id == old(self).id,
                self.config == old(self).config,
                self.identity == old(self).identity,
                self.stats == old(self).stats,
                self.connections == old(self).connections,
                self.identities == old(self).identities,
                self.identity_to_address_map == old(self).identity_to_address_map,
                self.channel_config == old(self).channel_config,
                self.events == old(self).events,
                self.unreliable_sender == old(self).unreliable_sender,
                self.socket.open == old(self).socket.open,
                self.socket.is_server == old(self).socket.is_server,
                self.socket.address == old(self).socket.address,
                self.socket.peer == old(self).socket.peer,
                self.socket.inbox == old(self).socket.inbox,
                !old(self).socket.open ==> self.socket.outbox == old(self).socket.outbox,
                sent0 == old(self).socket.sent(),
                sent0.len() <= self.socket.sent().len(),
                self.socket.sent().subrange(0, sent0.len() as int) == sent0,
                forall|post: Tachyon, rest: Seq<u128>| #[trigger]
                    self.channels_ticked_as(&post, rest) ==> asked.channels_ticked_as(
                        &post,
                        keys@.subrange(0, i as int) + rest,
                    ),
            decreases keys@.len() - i,
        {
            let key = keys[i];
            assert(keys@.contains(key));
            let ghost before = *self;
            self.tick_channel(key);
            proof {
                let next = *self;
                if old(self).socket.open {
                    assert(self.socket.sent().subrange(0, sent0.len() as int) =~= sent0);
                }
                assert forall|post: Tachyon, rest: Seq<u128>| #[trigger]
                    self.channels_ticked_as(&post, rest) implies asked.channels_ticked_as(
                    &post,
                    keys@.subrange(0, i + 1) + rest,
                ) by {
                    let longer = seq![key] + rest;
                    assert(longer[0] == key);
                    assert(longer.skip(1) =~= rest);
                    assert(before.channel_ticked_as(&next, longer[0]));
                    assert(before.channels_ticked_as(&post, longer));
                    assert(keys@.subrange(0, i as int) + longer =~= keys@.subrange(0, i + 1)
                        + rest);
                }
            }
            i = i + 1;
        }
        proof {
            assert forall|k: u128| old(self).channels@.contains_key(k) implies (
            #[trigger] old(self).channels@[k]).updated_as(&self.channels@[k]) by {
                assert(keys@.contains(k));
                let j = choose|j: int| 0 <= j < keys@.len() && keys@[j] == k;
                assert(old(self).channels@[keys@[j]].updated_as(&self.channels@[keys@[j]]));
            }
            let ticked = *self;
            assert(ticked.channels_ticked_as(&ticked, Seq::<u128>::empty()));
            assert(keys@.subrange(0, i as int) + Seq::<u128>::empty() =~= keys@);
            assert(asked.channels_ticked_as(&ticked, keys@));
        }
    }

    /// The tick of the channel under `key`.
    fn tick_channel(&mut self, key: u128)
        requires
            old(self).wf(),
            old(self).channels@.contains_key(key),
        ensures
            final(self).wf(),
            old(self).channel_ticked_as(final(self), key),
            final(self).channels@.dom() == old(self).channels@.dom(),
            old(self).channels@[key].updated_as(&final(self).channels@[key]),
            forall|k: u128|
                k != key && old(self).channels@.contains_key(k)
                    ==> #[trigger] final(self).channels@[k] == old(self).channels@[k],
            old(self).socket.sent().len() <= final(self).socket.sent().len(),
            final(self).socket.sent().subrange(0, old(self).socket.sent().len() as int) == old(
                self,
            ).socket.sent(),
    {
        let ghost before = self.channels@;
        let ghost mut ticked = before[key];
        match map_get_mut(&mut self.channels, &key) {
            Some(channel) => {
                channel.update(&mut self.socket);
                proof {
                    ticked = *channel;
                }
            },
            None => {
                assert(false);
            },
        }
        proof {
            assert(self.channels@.dom() =~= before.dom());
            assert(before[key].ticked_as(&ticked, &old(self).socket, &self.socket));
            assert(self.socket.sent().subrange(0, old(self).socket.sent().len() as int)
                =~= old(self).socket.sent());
        }
    }

    /// `post` is this endpoint after the channel under `key` had its tick.
    pub open spec fn channel_ticked_as(&self, post: &Tachyon, key: u128) -> bool {
        exists|ticked: Channel|
            {
                &&& self.channels@.contains_key(key)
                &&& post.channels@ == self.channels@.insert(key, ticked)
                &&& #[trigger] self.channels@[key].ticked_as(&ticked, &self.socket, &post.socket)
                &&& *post == (Tachyon {
                    channels: post.channels,
                    socket: post.socket,
                    ..*self
                })
            }
    }

    /// `post` is this endpoint after the channels under `keys` had their
    /// ticks, one after the other.
    pub open spec fn channels_ticked_as(&self, post: &Tachyon, keys: Seq<u128>) -> bool
        decreases keys.len(),
    {
        if keys.len() == 0 {
            *post == *self
        } else {
            exists|next: Tachyon| #[trigger]
                self.channel_ticked_as(&next, keys[0]) && next.channels_ticked_as(
                    post,
                    keys.skip(1),
                )
        }
    }

    /// `post` is this endpoint after one tick: it was given the chance to
    /// ask for a link, and then every channel had its tick, in some order.
    pub open spec fn updated_as(&self, post: &Tachyon) -> bool {
        exists|asked: Tachyon, keys: Seq<u128>|
            {
                &&& self.link_asked_as(&asked)
                &&& keys.no_duplicates()
                &&& forall|k: u128| keys.contains(k) <==> self.channels@.contains_key(k)
                &&& #[trigger] asked.channels_ticked_as(post, keys)
            }
    }

    /// `post` is this endpoint after a call to send an unreliable frame with
    /// the first `body_len` bytes of `data` to `address`, and `r` what the
    /// call came to.
    ///
    /// An endpoint that may not send gives `Identity`; one that is neither
    /// bound nor connected gives `Unknown`; an empty body gives `Length`.
    /// Otherwise the frame waits in the sender's outbox and is counted.
    pub open spec fn sent_unreliable(
        &self,
        post: &Tachyon,
        address: NetworkAddress,
        data: Seq<u8>,
        body_len: usize,
        r: Result<TachyonSendSuccess, TachyonSendError>,
    ) -> bool {
        let may = self.socket.is_server || self.config.use_identity != 1 || self.identity.linked
            == 1;
        let n = if body_len <= UNRELIABLE_BUFFER_LEN - 1 {
            body_len as int
        } else {
            UNRELIABLE_BUFFER_LEN - 1
        };
        if !may {
            r == Err::<TachyonSendSuccess, TachyonSendError>(TachyonSendError::Identity) && *post
                == *self
        } else if self.unreliable_sender is None {
            r == Err::<TachyonSendSuccess, TachyonSendError>(TachyonSendError::Unknown) && *post
                == *self
        } else if body_len < 1 {
            r == Err::<TachyonSendSuccess, TachyonSendError>(TachyonSendError::Length) && *post
                == *self
        } else if !self.unreliable_sender->0.open {
            r == Err::<TachyonSendSuccess, TachyonSendError>(TachyonSendError::Channel) && *post
                == *self
        } else {
            &&& r == Ok::<TachyonSendSuccess, TachyonSendError>(
                TachyonSendSuccess {
                    sent_len: (n + 1) as u32,
                    header: Header { message_type: MESSAGE_TYPE_UNRELIABLE, ..zero_header() },
                },
            )
            &&& post.unreliable_sender is Some
            &&& post.unreliable_sender->0.open
            &&& post.unreliable_sender->0.sent() == self.unreliable_sender->0.sent().push(
                (address, seq![MESSAGE_TYPE_UNRELIABLE] + data.subrange(0, n)),
            )
            &&& post.stats == (TachyonStats {
                unreliable_sent: next_count(self.stats.unreliable_sent),
                ..self.stats
            })
            &&& *post == (Tachyon {
                unreliable_sender: post.unreliable_sender,
                stats: post.stats,
                ..*self
            })
        }
    }

    /// Sends the first `body_len` bytes of `data` to `address` as an
    /// unreliable frame.
    pub fn send_unreliable(&mut self, address: NetworkAddress, data: &[u8], body_len: usize) -> (r:
        Result<TachyonSendSuccess, TachyonSendError>)
        requires
            old(self).wf(),
            body_len <= data@.len(),
        ensures
            final(self).wf(),
            old(self).sent_unreliable(final(self), address, data@, body_len, r),
    {
        if !self.can_send() {
            return Err(TachyonSendError::Identity);
        }
        let result = match &mut self.unreliable_sender {
            Some(sender) => sender.send(address, data, body_len),
            None => {
                return Err(TachyonSendError::Unknown);
            },
        };
        if result.is_ok() {
            self.stats.unreliable_sent = bump(self.stats.unreliable_sent);
        }
        result
    }

    /// `post` is this endpoint after a call to send the first `body_len`
    /// bytes of `data` to `address` on the reliable channel `channel_id`, and
    /// `r` what the call came to.
    ///
    /// In this order: an endpoint that may not send gives `Identity`; an
    /// empty body gives `Length`; channel 0 gives `Channel`; an endpoint that
    /// is neither bound nor connected gives `Socket`; a peer without that
    /// channel gives `Channel`. Then a body of 1200 bytes or more goes out in
    /// fragments, a shorter one in one frame.
    pub open spec fn sent_reliable(
        &self,
        post: &Tachyon,
        channel_id: u8,
        address: NetworkAddress,
        data: Seq<u8>,
        body_len: usize,
        r: Result<TachyonSendSuccess, TachyonSendError>,
    ) -> bool {
        let may = self.socket.is_server || self.config.use_identity != 1 || self.identity.linked
            == 1;
        let key = channel_key(address, channel_id);
        if !may {
            r == Err::<TachyonSendSuccess, TachyonSendError>(TachyonSendError::Identity) && *post
                == *self
        } else if body_len == 0 {
            r == Err::<TachyonSendSuccess, TachyonSendError>(TachyonSendError::Length) && *post
                == *self
        } else if channel_id == 0 {
            r == Err::<TachyonSendSuccess, TachyonSendError>(TachyonSendError::Channel) && *post
                == *self
        } else if !self.socket.open {
            r == Err::<TachyonSendSuccess, TachyonSendError>(TachyonSendError::Socket) && *post
                == *self
        } else if !self.channels@.contains_key(key) {
            r == Err::<TachyonSendSuccess, TachyonSendError>(TachyonSendError::Channel) && *post
                == *self
        } else {
            &&& *post == (Tachyon { channels: post.channels, socket: post.socket, ..*self })
            &&& post.channels@.dom() == self.channels@.dom()
            &&& forall|k: u128|
                self.channels@.contains_key(k) && k != key ==> #[trigger] post.channels@[k]
                    == self.channels@[k]
            &&& if body_len >= FRAG_SIZE {
                self.channels@[key].sent_fragmented(
                    &post.channels@[key],
                    &self.socket,
                    &post.socket,
                    address,
                    data.subrange(0, body_len as int),
                    r,
                )
            } else {
                self.channels@[key].sent_reliable(
                    &post.channels@[key],
                    &self.socket,
                    &post.socket,
                    address,
                    data.subrange(0, body_len as int),
                    r,
                )
            }
        }
    }

    /// Sends the first `body_len` bytes of `data` to `address` on the
    /// reliable channel `channel_id`.
    pub fn send_reliable(
        &mut self,
        channel_id: u8,
        address: NetworkAddress,
        data: &[u8],
        body_len: usize,
    ) -> (r: Result<TachyonSendSuccess, TachyonSendError>)
        requires
            old(self).wf(),
            body_len <= data@.len(),
        ensures
            final(self).wf(),
            old(self).sent_reliable(final(self), channel_id, address, data@, body_len, r),
    {
        if !self.can_send() {
            return Err(TachyonSendError::Identity);
        }
        if body_len == 0 {
            return Err(TachyonSendError::Length);
        }
        if channel_id == 0 {
            return Err(TachyonSendError::Channel);
        }
        if !self.socket.open {
            return Err(TachyonSendError::Socket);
        }
        let key = address.channel_key(channel_id);
        if !map_contains(&self.channels, &key) {
            return Err(TachyonSendError::Channel);
        }
        let ghost before = self.channels@;
        let r = match map_get_mut(&mut self.channels, &key) {
            Some(channel) => {
                if Fragmentation::should_fragment(body_len) {
                    channel.send_fragmented(address, data, body_len, &mut self.socket)
                } else {
                    channel.send_reliable(address, data, body_len, &mut self.socket)
                }
            },
            None => {
                proof {
                    assert(false);
                }
                return Err(TachyonSendError::Channel);
            },
        };
        proof {
            assert(self.channels@.dom() =~= before.dom());
            crate::network_address::lemma_channel_key_injective(
                address,
                channel_id,
                self.channels@[key].address,
                self.channels@[key].id,
            );
        }
        r
    }

    /// Sends the first `length` bytes of `data` to a target: to the peer
    /// that the target's identity is linked to, if it names one, else to the
    /// target's address; on the reliable channel `channel`, or as an
    /// unreliable frame if `channel` is 0.
    ///
    /// An identity that is linked to no peer gives `Identity`.
    pub fn send_to_target(
        &mut self,
        channel: u8,
        target: SendTarget,
        data: &[u8],
        length: usize,
    ) -> (r:
        Result<TachyonSendSuccess, TachyonSendError>)
        requires
            old(self).wf(),
            length <= data@.len(),
        ensures
            final(self).wf(),
            target.identity_id > 0 && !old(self).identity_to_address_map@.contains_key(
                target.identity_id,
            ) ==> r == Err::<TachyonSendSuccess, TachyonSendError>(TachyonSendError::Identity)
                && *final(self) == *old(self),
            !(target.identity_id > 0 && !old(self).identity_to_address_map@.contains_key(
                target.identity_id,
            )) ==> {
                let address = if target.identity_id > 0 {
                    old(self).identity_to_address_map@[target.identity_id]
                } else {
                    target.address
                };
                if channel > 0 {
                    old(self).sent_reliable(final(self), channel, address, data@, length, r)
                } else {
                    old(self).sent_unreliable(final(self), address, data@, length, r)
                }
            },
    {
        let mut address = target.address;
        if target.identity_id > 0 {
            match map_get(&self.identity_to_address_map, &target.identity_id) {
                Some(addr) => {
                    address = *addr;
                },
                None => {
                    return Err(TachyonSendError::Identity);
                },
            }
        }
        if channel > 0 {
            self.send_reliable(channel, address, data, length)
        } else {
            self.send_unreliable(address, data, length)
        }
    }

    /// Whether a datagram of the given message type from `address` gets
    /// past identity gating. On a server that uses identities the peer must
    /// be linked, and handshake messages stop here; on a client that uses
    /// them the client must be linked, and the server's answers stop here.
    /// Where identities are not in use, everything passes.
    pub open spec fn gate_passes(&self, message_type: u8, address: NetworkAddress) -> bool {
        if self.socket.is_server {
            if self.config.use_identity == 1 {
                &&& message_type != MESSAGE_TYPE_LINK_IDENTITY
                &&& message_type != MESSAGE_TYPE_UNLINK_IDENTITY
                &&& self.has_connection(address)
                &&& self.connections@[address_key(address)].identity.id != 0
            } else {
                true
            }
        } else if self.config.use_identity == 1 {
            &&& message_type != MESSAGE_TYPE_IDENTITY_LINKED
            &&& message_type != MESSAGE_TYPE_IDENTITY_UNLINKED
            &&& self.identity.id > 0
            &&& self.identity.session_id > 0
            &&& self.identity.linked == 1
        } else {
            true
        }
    }

    /// `post` is this endpoint after identity gating has looked at the
    /// datagram in the receive buffer, which is `received_len` bytes long,
    /// of the given message type and from `address`.
    ///
    /// A server that uses identities acts on a request to link or unlink,
    /// if the datagram is long enough to hold one, and queues an event where
    /// the request was granted; of any other datagram it notes the time, if
    /// its peer is linked. A server that does not use identities notes that
    /// it has heard of the peer. A client that uses identities takes the
    /// server's word on whether it is linked, and queues an event. Nothing
    /// else changes anything.
    pub open spec fn gated_as(
        &self,
        post: &Tachyon,
        message_type: u8,
        received_len: usize,
        address: NetworkAddress,
    ) -> bool {
        let id = crate::int_buffer::u32_at(self.socket_receive_buffer@, 1);
        let session_id = crate::int_buffer::u32_at(self.socket_receive_buffer@, 5);
        if self.socket.is_server {
            if self.config.use_identity == 1 {
                if message_type == MESSAGE_TYPE_LINK_IDENTITY {
                    if received_len >= CONNECTION_HEADER_SIZE {
                        exists|mid: Tachyon, linked: bool|
                            #[trigger] self.link_tried(&mid, address, id, session_id, linked)
                                && Tachyon::event_fired(
                                &mid,
                                post,
                                linked,
                                EventKind::IdentityLinkRequested,
                                address,
                                Identity { id, session_id, linked: 0 },
                            )
                    } else {
                        *post == *self
                    }
                } else if message_type == MESSAGE_TYPE_UNLINK_IDENTITY {
                    if received_len >= CONNECTION_HEADER_SIZE {
                        exists|mid: Tachyon, unlinked: bool|
                            #[trigger] self.unlink_tried(&mid, address, id, session_id, unlinked)
                                && Tachyon::event_fired(
                                &mid,
                                post,
                                unlinked,
                                EventKind::IdentityUnlinkRequested,
                                address,
                                Identity { id, session_id, linked: 0 },
                            )
                    } else {
                        *post == *self
                    }
                } else if self.has_connection(address) && self.connections@[address_key(
                    address,
                )].identity.id != 0 {
                    self.time_stamped(post, address)
                } else {
                    *post == *self
                }
            } else {
                self.heard_of(post, address)
            }
        } else if self.config.use_identity == 1 && message_type == MESSAGE_TYPE_IDENTITY_LINKED {
            Tachyon::event_fired(
                &(Tachyon { identity: Identity { linked: 1, ..self.identity }, ..*self }),
                post,
                true,
                EventKind::IdentityLinked,
                address,
                Identity { id: 0, session_id: 0, linked: 1 },
            )
        } else if self.config.use_identity == 1 && message_type == MESSAGE_TYPE_IDENTITY_UNLINKED {
            Tachyon::event_fired(
                &(Tachyon { identity: Identity { linked: 0, ..self.identity }, ..*self }),
                post,
                true,
                EventKind::IdentityUnlinked,
                address,
                Identity { id: 0, session_id: 0, linked: 0 },
            )
        } else {
            *post == *self
        }
    }

    /// Applies identity gating to the datagram in the receive buffer, which
    /// is `received_len` bytes long, of the given message type and from
    /// `address`. Handshake messages are acted on here. Returns whether the
    /// datagram is to be looked at further.
    fn gate(&mut self, message_type: u8, received_len: usize, address: NetworkAddress) -> (r: bool)
        requires
            old(self).wf(),
            received_len <= SOCKET_RECEIVE_BUFFER_LEN,
        ensures
            final(self).wf(),
            r == old(self).gate_passes(message_type, address),
            final(self).socket_receive_buffer == old(self).socket_receive_buffer,
            final(self).id == old(self).id,
            final(self).config == old(self).config,
            final(self).channel_config == old(self).channel_config,
            final(self).stats == old(self).stats,
            final(self).unreliable_sender == old(self).unreliable_sender,
            final(self).socket.open == old(self).socket.open,
            final(self).socket.is_server == old(self).socket.is_server,
            final(self).socket.address == old(self).socket.address,
            final(self).socket.peer == old(self).socket.peer,
            final(self).socket.inbox == old(self).socket.inbox,
            old(self).gated_as(final(self), message_type, received_len, address),
    {
        if self.socket.is_server {
            if self.config.use_identity == 1 {
                if message_type == MESSAGE_TYPE_LINK_IDENTITY {
                    if received_len >= CONNECTION_HEADER_SIZE {
                        let connection_header = ConnectionHeader::read(
                            self.socket_receive_buffer.as_slice(),
                        );
                        if self.try_link_identity(
                            address,
                            connection_header.id,
                            connection_header.session_id,
                        ) {
                            self.fire_identity_event(
                                LINK_IDENTITY_EVENT,
                                address,
                                connection_header.id,
                                connection_header.session_id,
                            );
                        }
                    }
                    return false;
                } else if message_type == MESSAGE_TYPE_UNLINK_IDENTITY {
                    if received_len >= CONNECTION_HEADER_SIZE {
                        let connection_header = ConnectionHeader::read(
                            self.socket_receive_buffer.as_slice(),
                        );
                        if self.try_unlink_identity(
                            address,
                            connection_header.id,
                            connection_header.session_id,
                        ) {
                            self.fire_identity_event(
                                UNLINK_IDENTITY_EVENT,
                                address,
                                connection_header.id,
                                connection_header.session_id,
                            );
                        }
                    }
                    return false;
                } else if !self.validate_and_update_linked_connection(address) {
                    return false;
                }
            } else {
                self.on_receive_connection_update(address);
            }
        } else if self.config.use_identity == 1 {
            if message_type == MESSAGE_TYPE_IDENTITY_LINKED {
                self.identity.set_linked(1);
                self.fire_identity_event(IDENTITY_LINKED_EVENT, address, 0, 0);
                return false;
            } else if message_type == MESSAGE_TYPE_IDENTITY_UNLINKED {
                self.identity.set_linked(0);
                self.fire_identity_event(IDENTITY_UNLINKED_EVENT, address, 0, 0);
                return false;
            }
            if !self.identity.is_linked() {
                return false;
            }
        }
        true
    }

    /// `r` is what becomes of the datagram in the receive buffer, which is
    /// `received_len` bytes long and came from `address`, and `post` is the
    /// endpoint after it has been looked at.
    ///
    /// An empty datagram, one that identity gating stops, and one too short
    /// for its header are passed over: `Retry`. An unreliable frame is
    /// announced with its length. Any other frame needs the channel it names
    /// for its peer, else `ChannelError`. NONE, NACK and FRAGMENT frames are
    /// passed over once the channel has taken them in. A reliable frame is
    /// announced with its channel if the receiver accepts it, and passed
    /// over otherwise. A message type that is not known gives `Error`.
    pub open spec fn outcome_of(
        &self,
        post: &Tachyon,
        received_len: usize,
        address: NetworkAddress,
        r: Result<ReceiveSuccess, ReceiveError>,
    ) -> bool {
        &&& match r {
            Ok(success) => match success.receive_type {
                ReceiveType::Unreliable { received_len: n } => n == received_len
                    && received_len >= 1,
                ReceiveType::Reliable { channel_id } => post.has_channel(
                    success.network_address,
                    channel_id,
                ),
            },
            Err(_) => true,
        }
        &&& (received_len == 0 ==> r == Err::<ReceiveSuccess, ReceiveError>(ReceiveError::Retry))
        &&& (received_len > 0 ==> {
            let buffer = self.socket_receive_buffer@;
            let t = buffer[0];
            let passes = self.gate_passes(t, address);
            &&& !passes ==> r == Err::<ReceiveSuccess, ReceiveError>(ReceiveError::Retry)
            &&& passes && t == MESSAGE_TYPE_UNRELIABLE ==> r == Ok::<
                ReceiveSuccess,
                ReceiveError,
            >(
                ReceiveSuccess {
                    network_address: address,
                    receive_type: ReceiveType::Unreliable { received_len },
                },
            ) && post.stats == (TachyonStats {
                unreliable_received: next_count(self.stats.unreliable_received),
                ..self.stats
            })
            &&& passes && t != MESSAGE_TYPE_UNRELIABLE && received_len < 4 ==> r == Err::<
                ReceiveSuccess,
                ReceiveError,
            >(ReceiveError::Retry)
            &&& passes && t != MESSAGE_TYPE_UNRELIABLE && received_len >= 4 ==> {
                let channel_id = buffer[1];
                let sequence = crate::int_buffer::u16_at(buffer, 2);
                let key = channel_key(address, channel_id);
                &&& post.channels@.contains_key(key)
                    <==> (self.channels@.contains_key(key)
                        || (self.socket.is_server && self.config.use_identity != 1
                            && !self.has_connection(address)
                                && self.channel_config@.contains_key(channel_id)))
                &&& !post.channels@.contains_key(key) ==> r == Err::<
                    ReceiveSuccess,
                    ReceiveError,
                >(ReceiveError::ChannelError)
                &&& post.channels@.contains_key(key) ==> {
                    &&& (t == MESSAGE_TYPE_NONE || t == MESSAGE_TYPE_NACK || t
                        == MESSAGE_TYPE_FRAGMENT) ==> r == Err::<ReceiveSuccess, ReceiveError>(
                        ReceiveError::Retry,
                    )
                    &&& (t == MESSAGE_TYPE_RELIABLE || t == MESSAGE_TYPE_RELIABLE_WITH_NACK)
                        ==> {
                        &&& r == Ok::<ReceiveSuccess, ReceiveError>(
                            ReceiveSuccess {
                                network_address: address,
                                receive_type: ReceiveType::Reliable { channel_id },
                            },
                        ) || r == Err::<ReceiveSuccess, ReceiveError>(ReceiveError::Retry)
                        &&& r is Ok ==> post.channels@[key].receiver.is_marked(sequence)
                        &&& self.channels@.contains_key(key)
                            ==> (r is Ok <==> (self.channels@[key].receiver.accepts(sequence) && (t
                            == MESSAGE_TYPE_RELIABLE || received_len >= 10)))
                    }
                    &&& !(t == MESSAGE_TYPE_NONE || t == MESSAGE_TYPE_NACK || t
                        == MESSAGE_TYPE_FRAGMENT || t == MESSAGE_TYPE_RELIABLE || t
                        == MESSAGE_TYPE_RELIABLE_WITH_NACK) ==> r == Err::<
                        ReceiveSuccess,
                        ReceiveError,
                    >(ReceiveError::Error)
                }
            }
        })
    }

    /// `post` is this endpoint after the datagram in the receive buffer,
    /// which is `received_len` bytes long and came from `address`, has been
    /// dealt with, to the outcome `r`.
    ///
    /// Identity gating comes first. Of a datagram that gets past it, an
    /// unreliable frame is counted, and a frame for a channel that its peer
    /// has changes that channel and nothing else: the channel counts the
    /// bytes, and the frame if it is accepted, and a frame of NACKs is noted
    /// for sending again.
    pub open spec fn handled_as(
        &self,
        post: &Tachyon,
        received_len: usize,
        address: NetworkAddress,
        r: Result<ReceiveSuccess, ReceiveError>,
    ) -> bool {
        &&& (received_len == 0 ==> *post == *self)
        &&& (received_len > 0 ==> exists|mid: Tachyon|
            {
                let buffer = self.socket_receive_buffer@;
                let t = buffer[0];
                let passes = self.gate_passes(t, address);
                let key = channel_key(address, buffer[1]);
                let dispatched = passes && t != MESSAGE_TYPE_UNRELIABLE && received_len >= 4
                    && mid.channels@.contains_key(key);
                &&& #[trigger] self.gated_as(
                    &mid,
                    self.socket_receive_buffer@[0],
                    received_len,
                    address,
                )
                &&& passes && t == MESSAGE_TYPE_UNRELIABLE ==> *post == (Tachyon {
                    stats: TachyonStats {
                        unreliable_received: next_count(mid.stats.unreliable_received),
                        ..mid.stats
                    },
                    ..mid
                })
                &&& !dispatched && !(passes && t == MESSAGE_TYPE_UNRELIABLE) ==> *post
                    == mid
                &&& dispatched ==> {
                    let before = mid.channels@[key];
                    let after = post.channels@[key];
                    &&& *post == (Tachyon { channels: post.channels, ..mid })
                    &&& post.channels@.dom() == mid.channels@.dom()
                    &&& forall|k: u128|
                        mid.channels@.contains_key(k) && k != key
                            ==> #[trigger] post.channels@[k] == mid.channels@[k]
                    &&& after.id == before.id
                    &&& after.address == before.address
                    &&& after.send_buffers == before.send_buffers
                    &&& after.nack_redundancy == before.nack_redundancy
                    &&& t != MESSAGE_TYPE_FRAGMENT ==> after.frag == before.frag
                    &&& after.stats.bytes_received == crate::counter::wrapped_sum(
                        before.stats.bytes_received,
                        received_len as u64,
                    )
                    &&& after.stats.received == (if r is Ok {
                        next_count(before.stats.received)
                    } else {
                        before.stats.received
                    })
                    &&& t == MESSAGE_TYPE_NACK ==> after.nacked_sequence_map@
                        == crate::channel::noted(
                        before.nacked_sequence_map@,
                        crate::nack::all_nacked(
                            crate::nack::varint_nacks_at(
                                buffer.subrange(0, received_len as int),
                                4,
                            ),
                        ),
                        address,
                    ) && after.receiver == before.receiver
                    &&& (t == MESSAGE_TYPE_NONE || t == MESSAGE_TYPE_RELIABLE || (t
                        == MESSAGE_TYPE_RELIABLE_WITH_NACK && received_len >= 10))
                        ==> before.receiver.received_as(
                        &after.receiver,
                        crate::int_buffer::u16_at(buffer, 2),
                        buffer.subrange(0, received_len as int),
                        before.receiver.accepts(crate::int_buffer::u16_at(buffer, 2)),
                    )
                    &&& t == MESSAGE_TYPE_RELIABLE_WITH_NACK && received_len >= 10
                        ==> after.nacked_sequence_map@ == crate::channel::noted(
                        before.nacked_sequence_map@,
                        crate::nack::single_nack_at(buffer, 4),
                        address,
                    )
                    &&& t == MESSAGE_TYPE_FRAGMENT && received_len >= 10
                        ==> before.frag.fragment_taken_as(&after.frag, buffer, received_len)
                        && before.receiver.received_as(
                        &after.receiver,
                        crate::int_buffer::u16_at(buffer, 2),
                        buffer.subrange(0, 10),
                        before.receiver.accepts(crate::int_buffer::u16_at(buffer, 2)),
                    )
                    &&& (t == MESSAGE_TYPE_FRAGMENT || t == MESSAGE_TYPE_RELIABLE_WITH_NACK)
                        && received_len < 10 ==> after.frag == before.frag && after.receiver
                        == before.receiver
                    &&& !(t == MESSAGE_TYPE_NONE || t == MESSAGE_TYPE_NACK || t
                        == MESSAGE_TYPE_FRAGMENT || t == MESSAGE_TYPE_RELIABLE || t
                        == MESSAGE_TYPE_RELIABLE_WITH_NACK) ==> after.receiver == before.receiver
                        && after.nacked_sequence_map == before.nacked_sequence_map
                }
            })
    }

    /// Deals with the datagram in the receive buffer, which is
    /// `received_len` bytes long and came from `address`, and says what
    /// became of it.
    pub fn handle_datagram(&mut self, received_len: usize, address: NetworkAddress) -> (r: Result<
        ReceiveSuccess,
        ReceiveError,
    >)
        requires
            old(self).wf(),
            received_len <= SOCKET_RECEIVE_BUFFER_LEN,
        ensures
            final(self).wf(),
            final(self).socket_receive_buffer == old(self).socket_receive_buffer,
            final(self).config == old(self).config,
            final(self).channel_config == old(self).channel_config,
            final(self).socket.open == old(self).socket.open,
            final(self).socket.is_server == old(self).socket.is_server,
            final(self).socket.inbox == old(self).socket.inbox,
            final(self).stats.packets_dropped == old(self).stats.packets_dropped,
            final(self).id == old(self).id,
            final(self).channels@.dom().subset_of(old(self).channels@.dom())
                || old(self).socket.is_server,
            old(self).outcome_of(final(self), received_len, address, r),
            old(self).handled_as(final(self), received_len, address, r),
    {
        if received_len == 0 {
            return Err(ReceiveError::Retry);
        }
        let message_type = self.socket_receive_buffer[0];
        if !self.gate(message_type, received_len, address) {
            return Err(ReceiveError::Retry);
        }
        if message_type == MESSAGE_TYPE_UNRELIABLE {
            self.stats.unreliable_received = bump(self.stats.unreliable_received);
            return Ok(
                ReceiveSuccess {
                    receive_type: ReceiveType::Unreliable { received_len },
                    network_address: address,
                },
            );
        }
        if received_len < TACHYON_HEADER_SIZE {
            return Err(ReceiveError::Retry);
        }
        let header = Header::read(self.socket_receive_buffer.as_slice());
        let key = address.channel_key(header.channel);
        proof {
            if old(self).socket.is_server && old(self).config.use_identity != 1
                && !old(self).has_connection(address) {
                if old(self).channel_config@.contains_key(header.channel) {
                    assert(crate::connection_impl::is_configured_key(
                        old(self).channel_config@,
                        address,
                        key,
                    ));
                }
                if crate::connection_impl::is_configured_key(
                    old(self).channel_config@,
                    address,
                    key,
                ) {
                    let id = choose|id: u8|
                        old(self).channel_config@.contains_key(id)
                            && key == #[trigger] channel_key(
                            address,
                            id,
                        );
                    crate::network_address::lemma_channel_key_injective(
                        address,
                        id,
                        address,
                        header.channel,
                    );
                }
            }
        }
        if !map_contains(&self.channels, &key) {
            return Err(ReceiveError::ChannelError);
        }
        let ghost before = self.channels@;
        let r = match map_get_mut(&mut self.channels, &key) {
            Some(channel) => {
                channel.stats.bytes_received = crate::counter::add_wrapping(
                    channel.stats.bytes_received,
                    received_len as u64,
                );
                if header.message_type == MESSAGE_TYPE_NONE {
                    channel.process_none_message(
                        header.sequence,
                        self.socket_receive_buffer.as_slice(),
                        received_len,
                    );
                    Err(ReceiveError::Retry)
                } else if header.message_type == MESSAGE_TYPE_NACK {
                    channel.process_nack_message(
                        address,
                        vstd::slice::slice_subrange(
                            self.socket_receive_buffer.as_slice(),
                            0,
                            received_len,
                        ),
                    );
                    Err(ReceiveError::Retry)
                } else if header.message_type == MESSAGE_TYPE_FRAGMENT {
                    if received_len >= TACHYON_FRAGMENTED_HEADER_SIZE {
                        channel.process_fragment_message(
                            header.sequence,
                            self.socket_receive_buffer.as_slice(),
                            received_len,
                        );
                    }
                    Err(ReceiveError::Retry)
                } else if header.message_type == MESSAGE_TYPE_RELIABLE || header.message_type
                    == MESSAGE_TYPE_RELIABLE_WITH_NACK {
                    if header.message_type == MESSAGE_TYPE_RELIABLE_WITH_NACK && received_len
                        < TACHYON_NACKED_HEADER_SIZE {
                        Err(ReceiveError::Retry)
                    } else {
                        if header.message_type == MESSAGE_TYPE_RELIABLE_WITH_NACK {
                            channel.process_single_nack(
                                address,
                                self.socket_receive_buffer.as_slice(),
                            );
                        }
                        if channel.receiver.receive_packet(
                            header.sequence,
                            self.socket_receive_buffer.as_slice(),
                            received_len,
                        ) {
                            channel.stats.received = bump(channel.stats.received);
                            Ok(
                                ReceiveSuccess {
                                    network_address: address,
                                    receive_type: ReceiveType::Reliable { channel_id: channel.id },
                                },
                            )
                        } else {
                            Err(ReceiveError::Retry)
                        }
                    }
                } else {
                    Err(ReceiveError::Error)
                }
            },
            None => {
                proof {
                    assert(false);
                }
                Err(ReceiveError::Error)
            },
        };
        proof {
            assert(self.channels@.dom() =~= before.dom());
            crate::network_address::lemma_channel_key_injective(
                address,
                header.channel,
                before[key].address,
                before[key].id,
            );
        }
        r
    }

    /// How much of the datagram that waits first fits the receive buffer.
    pub open spec fn first_length(&self) -> int {
        if self.socket.inbox@[0].data@.len() <= SOCKET_RECEIVE_BUFFER_LEN {
            self.socket.inbox@[0].data@.len() as int
        } else {
            SOCKET_RECEIVE_BUFFER_LEN as int
        }
    }

    /// Who the datagram that waits first is taken to come from: its sender
    /// on a server, the default address on a client.
    pub open spec fn first_sender(&self) -> NetworkAddress {
        if self.socket.is_server {
            self.socket.inbox@[0].address
        } else {
            NetworkAddress { a: 0, b: 0, c: 0, d: 0, port: 0 }
        }
    }

    /// Whether loss injection drops the datagram that waits first where
    /// `rolled` is the number rolled for it.
    pub open spec fn drops_first(&self, rolled: u64) -> bool {
        drops(
            rolled,
            first_type(self.socket.inbox@[0].data@),
            self.config.drop_packet_chance,
            self.config.drop_reliable_only == 1,
        )
    }

    /// `arrived` is this endpoint with the datagram that waited first moved
    /// from the inbox into the receive buffer, as far as it fits.
    pub open spec fn took_first(&self, arrived: &Tachyon) -> bool {
        &&& self.socket.inbox@.len() > 0
        &&& arrived.socket.inbox@ == self.socket.inbox@.subrange(
            1,
            self.socket.inbox@.len() as int,
        )
        &&& arrived.socket_receive_buffer@ == crate::int_buffer::splice(
            self.socket_receive_buffer@,
            0,
            self.socket.inbox@[0].data@.subrange(0, self.first_length()),
        )
        &&& *arrived == (Tachyon {
            socket: TachyonSocket {
                inbox: arrived.socket.inbox,
                rng: arrived.socket.rng,
                ..self.socket
            },
            socket_receive_buffer: arrived.socket_receive_buffer,
            ..*self
        })
    }

    /// `post` is this endpoint after one datagram has been read from the
    /// port and dealt with, to the outcome `r`.
    ///
    /// A port that is not open gives `Error`, one with nothing waiting
    /// `Empty`, and neither changes anything. Otherwise the first datagram
    /// has left the inbox and a number from 1 to 99 has been rolled. If
    /// loss injection drops the datagram on that roll, it is counted and
    /// passed over: `Retry`. If not, it has been moved into the receive
    /// buffer and dealt with as `outcome_of` and `handled_as` say.
    pub open spec fn read_as(
        &self,
        post: &Tachyon,
        r: Result<ReceiveSuccess, ReceiveError>,
    ) -> bool {
        &&& post.wf()
        &&& post.id == self.id
        &&& post.config == self.config
        &&& post.socket.open == self.socket.open
        &&& post.socket.is_server == self.socket.is_server
        &&& match r {
            Ok(success) => match success.receive_type {
                ReceiveType::Unreliable { received_len } => 1 <= received_len
                    <= SOCKET_RECEIVE_BUFFER_LEN,
                ReceiveType::Reliable { channel_id } => post.has_channel(
                    success.network_address,
                    channel_id,
                ),
            },
            Err(_) => true,
        }
        &&& if !self.socket.open || self.socket.inbox@.len() == 0 {
            &&& r == Err::<ReceiveSuccess, ReceiveError>(
                if self.socket.open {
                    ReceiveError::Empty
                } else {
                    ReceiveError::Error
                },
            )
            &&& post.socket_receive_buffer@ == self.socket_receive_buffer@
            &&& *post == (Tachyon {
                socket_receive_buffer: post.socket_receive_buffer,
                ..*self
            })
        } else {
            &&& r != Err::<ReceiveSuccess, ReceiveError>(ReceiveError::Empty)
            &&& post.socket.inbox@ == self.socket.inbox@.subrange(
                1,
                self.socket.inbox@.len() as int,
            )
            &&& exists|rolled: u64|
                1 <= rolled < 100 && (if #[trigger] self.drops_first(rolled) {
                    &&& r == Err::<ReceiveSuccess, ReceiveError>(ReceiveError::Retry)
                    &&& post.socket_receive_buffer@ == self.socket_receive_buffer@
                    &&& *post == (Tachyon {
                        socket: TachyonSocket {
                            inbox: post.socket.inbox,
                            rng: post.socket.rng,
                            ..self.socket
                        },
                        socket_receive_buffer: post.socket_receive_buffer,
                        stats: TachyonStats {
                            packets_dropped: next_count(self.stats.packets_dropped),
                            ..self.stats
                        },
                        ..*self
                    })
                } else {
                    exists|arrived: Tachyon|
                        {
                            &&& #[trigger] self.took_first(&arrived)
                            &&& arrived.outcome_of(
                                post,
                                self.first_length() as usize,
                                self.first_sender(),
                                r,
                            )
                            &&& arrived.handled_as(
                                post,
                                self.first_length() as usize,
                                self.first_sender(),
                                r,
                            )
                        }
                })
        }
    }

    /// Reads one datagram from the port and deals with it.
    #[verifier::rlimit(60)]
    #[verifier::spinoff_prover]
    pub fn receive_from_socket(&mut self) -> (r: Result<ReceiveSuccess, ReceiveError>)
        requires
            old(self).wf(),
        ensures
            old(self).read_as(final(self), r),
    {
        let chance = self.config.drop_packet_chance;
        let reliable_only = self.config.drop_reliable_only == 1;
        let socket_result = self.socket.receive(
            self.socket_receive_buffer.as_mut_slice(),
            chance,
            reliable_only,
        );
        let ghost arrived = *self;
        let ghost rolled = if old(self).socket.open && old(self).socket.inbox@.len() > 0 {
            choose|rolled: u64|
                1 <= rolled < 100 && (#[trigger] drops(
                    rolled,
                    first_type(old(self).socket.inbox@[0].data@),
                    chance,
                    reliable_only,
                ) <==> socket_result is Err)
        } else {
            1u64
        };
        match socket_result {
            Ok(success) => {
                assert(old(self).took_first(&arrived));
                let r = self.handle_datagram(success.bytes_received, success.network_address);
                proof {
                    assert(self.socket.inbox@ == old(self).socket.inbox@.subrange(
                        1,
                        old(self).socket.inbox@.len() as int,
                    ));
                    assert(match r {
                        Ok(success) => match success.receive_type {
                            ReceiveType::Unreliable { received_len } => 1 <= received_len
                                <= SOCKET_RECEIVE_BUFFER_LEN,
                            ReceiveType::Reliable { channel_id } => self.has_channel(
                                success.network_address,
                                channel_id,
                            ),
                        },
                        Err(_) => true,
                    });
                    assert(r != Err::<ReceiveSuccess, ReceiveError>(ReceiveError::Empty));
                    assert(arrived.outcome_of(
                        self,
                        old(self).first_length() as usize,
                        old(self).first_sender(),
                        r,
                    ));
                    assert(arrived.handled_as(
                        self,
                        old(self).first_length() as usize,
                        old(self).first_sender(),
                        r,
                    ));
                    assert(!old(self).drops_first(rolled));
                }
                r
            },
            Err(SocketReceiveError::Empty) => Err(ReceiveError::Empty),
            Err(SocketReceiveError::Error) => Err(ReceiveError::Error),
            Err(SocketReceiveError::Dropped) => {
                self.stats.packets_dropped = bump(self.stats.packets_dropped);
                assert(old(self).drops_first(rolled));
                Err(ReceiveError::Retry)
            },
        }
    }

    /// `post` is this endpoint, and `buffer_after` the application's
    /// buffer, after one message has been asked of the channel `channel_id`
    /// of the peer at `address`, and `r` is the length copied: zero, with
    /// nothing changed, where the peer has no such channel.
    pub open spec fn channel_drained_as(
        &self,
        post: &Tachyon,
        buffer: Seq<u8>,
        buffer_after: Seq<u8>,
        address: NetworkAddress,
        channel_id: u8,
        r: u32,
    ) -> bool {
        let key = channel_key(address, channel_id);
        &&& buffer_after.len() == buffer.len()
        &&& r <= buffer.len()
        &&& *post == (Tachyon { channels: post.channels, ..*self })
        &&& post.channels@.dom() == self.channels@.dom()
        &&& forall|k: u128|
            self.channels@.contains_key(k) && k != key ==> #[trigger] post.channels@[k]
                == self.channels@[k]
        &&& !self.channels@.contains_key(key) ==> r == 0 && buffer_after == buffer
            && post.channels@ == self.channels@
        &&& self.channels@.contains_key(key) ==> self.channels@[key].drained_as(
            &post.channels@[key],
            buffer,
            buffer_after,
            (r, self.channels@[key].address),
        )
    }

    /// Hands the application one message of the channel `channel_id` of the
    /// peer at `address`, if the channel exists and has one, and returns its
    /// length.
    fn receive_published_channel_id(
        &mut self,
        receive_buffer: &mut [u8],
        address: NetworkAddress,
        channel_id: u8,
    ) -> (r: u32)
        requires
            old(self).wf(),
        ensures
            final(self).wf(),
            old(self).channel_drained_as(
                final(self),
                old(receive_buffer)@,
                final(receive_buffer)@,
                address,
                channel_id,
                r,
            ),
    {
        let key = address.channel_key(channel_id);
        let ghost before = self.channels@;
        let r = match map_get_mut(&mut self.channels, &key) {
            Some(channel) => channel.receive_published(receive_buffer).0,
            None => 0,
        };
        assert(self.channels@.dom() =~= before.dom());
        r
    }

    /// `post` is this endpoint, and `buffer_after` the application's
    /// buffer, after all channels have been looked through for a message, in
    /// no particular order, and `r` is what was found.
    ///
    /// Where the length is zero, every channel has been asked and had none.
    /// Otherwise one channel had the message, and each of the others has
    /// either not been asked or had none.
    pub open spec fn swept_as(
        &self,
        post: &Tachyon,
        buffer: Seq<u8>,
        buffer_after: Seq<u8>,
        r: Result<TachyonReceiveSuccess, TachyonReceiveError>,
    ) -> bool {
        &&& buffer_after.len() == buffer.len()
        &&& *post == (Tachyon { channels: post.channels, ..*self })
        &&& post.channels@.dom() == self.channels@.dom()
        &&& r is Ok
        &&& r->Ok_0.length <= buffer.len()
        &&& r->Ok_0.length == 0 ==> {
            &&& r->Ok_0 == (TachyonReceiveSuccess {
                length: 0,
                address: NetworkAddress { a: 0, b: 0, c: 0, d: 0, port: 0 },
                receive_type: TachyonReceiveType::Unreliable,
            })
            &&& buffer_after == buffer
            &&& forall|k: u128|
                self.channels@.contains_key(k) ==> (#[trigger] self.channels@[k]).drained_as(
                    &post.channels@[k],
                    buffer,
                    buffer,
                    (0, self.channels@[k].address),
                )
        }
        &&& r->Ok_0.length > 0 ==> exists|found: u128|
            {
                &&& #[trigger] self.channels@.contains_key(found)
                &&& self.channels@[found].drained_as(
                    &post.channels@[found],
                    buffer,
                    buffer_after,
                    (r->Ok_0.length, r->Ok_0.address),
                )
                &&& r->Ok_0.receive_type == (if self.channels@[found].id == 0 {
                    TachyonReceiveType::Unreliable
                } else {
                    TachyonReceiveType::Reliable { channel: self.channels@[found].id as u16 }
                })
                &&& forall|k: u128|
                    self.channels@.contains_key(k) && k != found ==> (#[trigger] post.channels@[k])
                        == self.channels@[k] || self.channels@[k].drained_as(
                        &post.channels@[k],
                        buffer,
                        buffer,
                        (0, self.channels@[k].address),
                    )
            }
    }

    /// Looks through all channels for a message that waits to be handed to
    /// the application, and hands over the first it finds. A length of zero
    /// says that there was none.
    fn receive_published_all_channels(&mut self, receive_buffer: &mut [u8]) -> (r: Result<
        TachyonReceiveSuccess,
        TachyonReceiveError,
    >)
        requires
            old(self).wf(),
        ensures
            final(self).wf(),
            old(self).swept_as(final(self), old(receive_buffer)@, final(receive_buffer)@, r),
    {
        let keys = map_keys(&self.channels);
        let mut i: usize = 0;
        while i < keys.len()
            invariant
                i <= keys@.len(),
                keys@.no_duplicates(),
                forall|k: u128| keys@.contains(k) <==> old(self).channels@.contains_key(k),
                old(self).wf(),
                self.wf(),
                receive_buffer@ == old(receive_buffer)@,
                *self == (Tachyon { channels: self.channels, ..*old(self) }),
                self.channels@.dom() == old(self).channels@.dom(),
                forall|j: int|
                    0 <= j < i ==> (#[trigger] old(self).channels@[keys@[j]]).drained_as(
                        &self.channels@[keys@[j]],
                        old(receive_buffer)@,
                        old(receive_buffer)@,
                        (0, old(self).channels@[keys@[j]].address),
                    ),
                forall|j: int|
                    i <= j < keys@.len() ==> self.channels@[#[trigger] keys@[j]] == old(
                        self,
                    ).channels@[keys@[j]],
            decreases keys@.len() - i,
        {
            let key = keys[i];
            assert(keys@.contains(key));
            let ghost before = self.channels@;
            let found = match map_get_mut(&mut self.channels, &key) {
                Some(channel) => {
                    let (length, address) = channel.receive_published(receive_buffer);
                    if length > 0 {
                        Some((length, address, channel.id))
                    } else {
                        None
                    }
                },
                None => {
                    proof {
                        assert(false);
                    }
                    None
                },
            };
            assert(self.channels@.dom() =~= before.dom());
            match found {
                Some((length, address, id)) => {
                    proof {
                        assert forall|k: u128|
                            old(self).channels@.contains_key(k) && k != key implies (
                        #[trigger] self.channels@[k]) == old(self).channels@[k] || old(
                            self,
                        ).channels@[k].drained_as(
                            &self.channels@[k],
                            old(receive_buffer)@,
                            old(receive_buffer)@,
                            (0, old(self).channels@[k].address),
                        ) by {
                            assert(keys@.contains(k));
                            let j = choose|j: int| 0 <= j < keys@.len() && keys@[j] == k;
                            if j < i {
                                assert(old(self).channels@[keys@[j]].drained_as(
                                    &self.channels@[keys@[j]],
                                    old(receive_buffer)@,
                                    old(receive_buffer)@,
                                    (0, old(self).channels@[keys@[j]].address),
                                ));
                            } else {
                                assert(self.channels@[keys@[j]] == old(self).channels@[keys@[j]]);
                            }
                        }
                    }
                    return if id == 0 {
                        Ok(
                            TachyonReceiveSuccess {
                                length,
                                address,
                                receive_type: TachyonReceiveType::Unreliable,
                            },
                        )
                    } else {
                        Ok(
                            TachyonReceiveSuccess {
                                length,
                                address,
                                receive_type: TachyonReceiveType::Reliable { channel: id as u16 },
                            },
                        )
                    };
                },
                None => {
                    assert(receive_buffer@ =~= old(receive_buffer)@);
                },
            }
            i = i + 1;
        }
        proof {
            assert forall|k: u128| old(self).channels@.contains_key(k) implies (#[trigger] old(
                self,
            ).channels@[k]).drained_as(
                &self.channels@[k],
                old(receive_buffer)@,
                old(receive_buffer)@,
                (0, old(self).channels@[k].address),
            ) by {
                assert(keys@.contains(k));
                let j = choose|j: int| 0 <= j < keys@.len() && keys@[j] == k;
                assert(old(self).channels@[keys@[j]].drained_as(
                    &self.channels@[keys@[j]],
                    old(receive_buffer)@,
                    old(receive_buffer)@,
                    (0, old(self).channels@[keys@[j]].address),
                ));
            }
        }
        Ok(
            TachyonReceiveSuccess {
                length: 0,
                address: NetworkAddress::default(),
                receive_type: TachyonReceiveType::Unreliable,
            },
        )
    }

    /// `post` is this endpoint, and `buffer_after` the application's
    /// buffer, after one step of receiving, and `step` says how the step
    /// ended.
    ///
    /// One datagram has been read and dealt with, as `read_as` says. An
    /// unreliable frame ends the receiving: its bytes behind the first are
    /// in the buffer, as far as they fit. So does a reliable frame that was
    /// accepted, if its channel has a message to hand over. An unknown
    /// message type and a frame for a channel that its peer does not have
    /// end the receiving with an error. A port that has nothing waiting ends
    /// the reading. Anything else asks for another step.
    pub open spec fn stepped_as(
        &self,
        post: &Tachyon,
        buffer: Seq<u8>,
        buffer_after: Seq<u8>,
        step: ReceiveStep,
    ) -> bool {
        exists|handled: Tachyon, outcome: Result<ReceiveSuccess, ReceiveError>|
            {
                &&& #[trigger] self.read_as(&handled, outcome)
                &&& buffer_after.len() == buffer.len()
                &&& match outcome {
                    Ok(success) => match success.receive_type {
                        ReceiveType::Reliable { channel_id } => exists|published: u32|
                            {
                                &&& #[trigger] handled.channel_drained_as(
                                    post,
                                    buffer,
                                    buffer_after,
                                    success.network_address,
                                    channel_id,
                                    published,
                                )
                                &&& step == (if published > 0 {
                                    ReceiveStep::Done(
                                        Ok(
                                            TachyonReceiveSuccess {
                                                receive_type: TachyonReceiveType::Reliable {
                                                    channel: channel_id as u16,
                                                },
                                                length: published,
                                                address: success.network_address,
                                            },
                                        ),
                                    )
                                } else {
                                    ReceiveStep::Again
                                })
                            },
                        ReceiveType::Unreliable { received_len } => {
                            let length = if received_len - 1 <= buffer.len() {
                                received_len - 1
                            } else {
                                buffer.len() as int
                            };
                            &&& *post == handled
                            &&& buffer_after == crate::int_buffer::splice(
                                buffer,
                                0,
                                handled.socket_receive_buffer@.subrange(1, 1 + length),
                            )
                            &&& step == ReceiveStep::Done(
                                Ok(
                                    TachyonReceiveSuccess {
                                        receive_type: TachyonReceiveType::Unreliable,
                                        length: length as u32,
                                        address: success.network_address,
                                    },
                                ),
                            )
                        },
                    },
                    Err(e) => {
                        &&& *post == handled
                        &&& buffer_after == buffer
                        &&& step == (match e {
                            ReceiveError::Empty => ReceiveStep::Drained,
                            ReceiveError::Retry => ReceiveStep::Again,
                            ReceiveError::Error => ReceiveStep::Done(
                                Err(TachyonReceiveError::Unknown),
                            ),
                            ReceiveError::ChannelError => ReceiveStep::Done(
                                Err(TachyonReceiveError::Channel),
                            ),
                        })
                    },
                }
            }
    }

    /// `post` is this endpoint, and `buffer_after` the application's
    /// buffer, after a receiving of at most `budget` steps that came back
    /// with `r`.
    ///
    /// A step that ends the receiving gives the result. A step that finds
    /// the port drained is followed by the sweep over all channels, and so
    /// is the last step that the budget allows. After any other step the
    /// receiving goes on from where that step left the endpoint.
    pub open spec fn received_as(
        &self,
        post: &Tachyon,
        buffer: Seq<u8>,
        buffer_after: Seq<u8>,
        budget: nat,
        r: Result<TachyonReceiveSuccess, TachyonReceiveError>,
    ) -> bool
        decreases budget,
    {
        if budget == 0 {
            self.swept_as(post, buffer, buffer_after, r)
        } else {
            exists|next: Tachyon, between: Seq<u8>, step: ReceiveStep|
                {
                    &&& #[trigger] self.stepped_as(&next, buffer, between, step)
                    &&& match step {
                        ReceiveStep::Done(result) => {
                            &&& r == result
                            &&& *post == next
                            &&& buffer_after == between
                        },
                        ReceiveStep::Drained => next.swept_as(post, between, buffer_after, r),
                        ReceiveStep::Again => next.received_as(
                            post,
                            between,
                            buffer_after,
                            (budget - 1) as nat,
                            r,
                        ),
                    }
                }
        }
    }

    /// One step of receiving: reads one datagram, deals with it, and hands
    /// over the message it released, if any.
    pub fn receive_step(&mut self, receive_buffer: &mut [u8]) -> (step: ReceiveStep)
        requires
            old(self).wf(),
        ensures
            final(self).wf(),
            old(self).stepped_as(
                final(self),
                old(receive_buffer)@,
                final(receive_buffer)@,
                step,
            ),
    {
        let receive_result = self.receive_from_socket();
        let ghost handled = *self;
        match receive_result {
            Ok(
                ReceiveSuccess {
                    receive_type: ReceiveType::Reliable { channel_id },
                    network_address,
                },
            ) => {
                let published = self.receive_published_channel_id(
                    receive_buffer,
                    network_address,
                    channel_id,
                );
                assert(handled.channel_drained_as(
                    self,
                    old(receive_buffer)@,
                    receive_buffer@,
                    network_address,
                    channel_id,
                    published,
                ));
                if published > 0 {
                    ReceiveStep::Done(
                        Ok(
                            TachyonReceiveSuccess {
                                receive_type: TachyonReceiveType::Reliable {
                                    channel: channel_id as u16,
                                },
                                length: published,
                                address: network_address,
                            },
                        ),
                    )
                } else {
                    ReceiveStep::Again
                }
            },
            Ok(
                ReceiveSuccess {
                    receive_type: ReceiveType::Unreliable { received_len },
                    network_address,
                },
            ) => {
                let room = receive_buffer.len();
                let length = if received_len - 1 <= room {
                    received_len - 1
                } else {
                    room
                };
                copy_bytes(receive_buffer, 0, self.socket_receive_buffer.as_slice(), 1, length);
                ReceiveStep::Done(
                    Ok(
                        TachyonReceiveSuccess {
                            receive_type: TachyonReceiveType::Unreliable,
                            length: length as u32,
                            address: network_address,
                        },
                    ),
                )
            },
            Err(ReceiveError::Empty) => ReceiveStep::Drained,
            Err(ReceiveError::Retry) => ReceiveStep::Again,
            Err(ReceiveError::Error) => ReceiveStep::Done(Err(TachyonReceiveError::Unknown)),
            Err(ReceiveError::ChannelError) => ReceiveStep::Done(Err(TachyonReceiveError::Channel)),
        }
    }

    /// Receives one message for the application into `receive_buffer`.
    ///
    /// Up to 100 steps are taken, each of which reads one datagram. An
    /// unreliable frame is handed over at once, without its first byte and
    /// as far as it fits. A reliable frame that was accepted is followed by
    /// a look at its channel, and a message that waits there is handed over.
    /// The reading ends early where the port has nothing more. If no message
    /// has been handed over by then, all channels are looked through for
    /// one.
    ///
    /// A length of zero says that there was no message. `Unknown` comes back
    /// from a port that is not open or from a datagram of unknown type,
    /// `Channel` from a frame for a channel that its peer does not have.
    pub fn receive_loop(&mut self, receive_buffer: &mut [u8]) -> (r: Result<
        TachyonReceiveSuccess,
        TachyonReceiveError,
    >)
        requires
            old(self).wf(),
        ensures
            final(self).wf(),
            final(receive_buffer)@.len() == old(receive_buffer)@.len(),
            final(self).id == old(self).id,
            final(self).config == old(self).config,
            final(self).socket.open == old(self).socket.open,
            final(self).socket.is_server == old(self).socket.is_server,
            r is Ok ==> r->Ok_0.length <= old(receive_buffer)@.len(),
            exists|k: int|
                0 <= k <= RECEIVE_LOOP_BUDGET && k <= old(self).socket.inbox@.len()
                    && final(self).socket.inbox@ == #[trigger] old(self).socket.inbox@.skip(k),
            old(self).received_as(
                final(self),
                old(receive_buffer)@,
                final(receive_buffer)@,
                RECEIVE_LOOP_BUDGET as nat,
                r,
            ),
    {
        let ghost mut taken: int = 0;
        let mut tries: u32 = 0;
        assert(self.socket.inbox@ =~= old(self).socket.inbox@.skip(0));
        while tries < RECEIVE_LOOP_BUDGET
            invariant
                tries <= RECEIVE_LOOP_BUDGET,
                0 <= taken <= tries,
                taken <= old(self).socket.inbox@.len(),
                self.socket.inbox@ == old(self).socket.inbox@.skip(taken),
                self.wf(),
                receive_buffer@.len() == old(receive_buffer)@.len(),
                self.id == old(self).id,
                self.config == old(self).config,
                self.socket.open == old(self).socket.open,
                self.socket.is_server == old(self).socket.is_server,
                forall|post: Tachyon, after: Seq<u8>, r: Result<TachyonReceiveSuccess, TachyonReceiveError>| #[trigger]
                    self.received_as(
                        &post,
                        receive_buffer@,
                        after,
                        (RECEIVE_LOOP_BUDGET - tries) as nat,
                        r,
                    ) ==> old(self).received_as(
                        &post,
                        old(receive_buffer)@,
                        after,
                        RECEIVE_LOOP_BUDGET as nat,
                        r,
                    ),
            decreases RECEIVE_LOOP_BUDGET - tries,
        {
            let ghost before = *self;
            let ghost buffer_before = receive_buffer@;
            let ghost left = (RECEIVE_LOOP_BUDGET - tries) as nat;
            let step = self.receive_step(receive_buffer);
            let ghost stepped = *self;
            let ghost between = receive_buffer@;
            proof {
                lemma_step_takes_one(before, stepped, buffer_before, between, step);
                if before.socket.open && before.socket.inbox@.len() > 0 {
                    assert(self.socket.inbox@ =~= old(self).socket.inbox@.skip(taken + 1));
                    taken = taken + 1;
                }
            }
            tries = tries + 1;
            match step {
                ReceiveStep::Done(result) => {
                    assert(before.received_as(self, buffer_before, receive_buffer@, left, result));
                    return result;
                },
                ReceiveStep::Drained => {
                    let result = self.receive_published_all_channels(receive_buffer);
                    assert(before.received_as(self, buffer_before, receive_buffer@, left, result));
                    return result;
                },
                ReceiveStep::Again => {
                    assert forall|post: Tachyon, after: Seq<u8>, r: Result<TachyonReceiveSuccess, TachyonReceiveError>| #[trigger]
                        self.received_as(
                            &post,
                            receive_buffer@,
                            after,
                            (RECEIVE_LOOP_BUDGET - tries) as nat,
                            r,
                        ) implies old(self).received_as(
                        &post,
                        old(receive_buffer)@,
                        after,
                        RECEIVE_LOOP_BUDGET as nat,
                        r,
                    ) by {
                        assert(before.stepped_as(&stepped, buffer_before, between, step));
                        assert(before.received_as(&post, buffer_before, after, left, r));
                    }
                },
            }
        }
        let ghost before = *self;
        let ghost buffer_before = receive_buffer@;
        let result = self.receive_published_all_channels(receive_buffer);
        assert(before.received_as(
            self,
            buffer_before,
            receive_buffer@,
            (RECEIVE_LOOP_BUDGET - tries) as nat,
            result,
        ));
        result
    }
}

/// A step of receiving takes the first datagram from the inbox of an open
/// port, if there is one, and leaves the rest; it hands over no more than
/// the buffer takes.
pub proof fn lemma_step_takes_one(
    pre: Tachyon,
    post: Tachyon,
    buffer: Seq<u8>,
    buffer_after: Seq<u8>,
    step: ReceiveStep,
)
    requires
        pre.stepped_as(&post, buffer, buffer_after, step),
    ensures
        post.wf(),
        post.id == pre.id,
        post.config == pre.config,
        post.socket.open == pre.socket.open,
        post.socket.is_server == pre.socket.is_server,
        buffer_after.len() == buffer.len(),
        post.socket.inbox@ == (if pre.socket.open && pre.socket.inbox@.len() > 0 {
            pre.socket.inbox@.subrange(1, pre.socket.inbox@.len() as int)
        } else {
            pre.socket.inbox@
        }),
        match step {
            ReceiveStep::Done(result) => result is Ok ==> result->Ok_0.length <= buffer.len(),
            _ => true,
        },
        !pre.socket.open ==> step == ReceiveStep::Done(Err(TachyonReceiveError::Unknown)),
{
    let (handled, outcome) = choose|handled: Tachyon, outcome: Result<ReceiveSuccess, ReceiveError>|
        {
            &&& #[trigger] pre.read_as(&handled, outcome)
            &&& buffer_after.len() == buffer.len()
            &&& match outcome {
                Ok(success) => match success.receive_type {
                    ReceiveType::Reliable { channel_id } => exists|published: u32|
                        {
                            &&& #[trigger] handled.channel_drained_as(
                                &post,
                                buffer,
                                buffer_after,
                                success.network_address,
                                channel_id,
                                published,
                            )
                            &&& step == (if published > 0 {
                                ReceiveStep::Done(
                                    Ok(
                                        TachyonReceiveSuccess {
                                            receive_type: TachyonReceiveType::Reliable {
                                                channel: channel_id as u16,
                                            },
                                            length: published,
                                            address: success.network_address,
                                        },
                                    ),
                                )
                            } else {
                                ReceiveStep::Again
                            })
                        },
                    ReceiveType::Unreliable { received_len } => {
                        let length = if received_len - 1 <= buffer.len() {
                            received_len - 1
                        } else {
                            buffer.len() as int
                        };
                        &&& post == handled
                        &&& buffer_after == crate::int_buffer::splice(
                            buffer,
                            0,
                            handled.socket_receive_buffer@.subrange(1, 1 + length),
                        )
                        &&& step == ReceiveStep::Done(
                            Ok(
                                TachyonReceiveSuccess {
                                    receive_type: TachyonReceiveType::Unreliable,
                                    length: length as u32,
                                    address: success.network_address,
                                },
                            ),
                        )
                    },
                },
                Err(e) => {
                    &&& post == handled
                    &&& buffer_after == buffer
                    &&& step == (match e {
                        ReceiveError::Empty => ReceiveStep::Drained,
                        ReceiveError::Retry => ReceiveStep::Again,
                        ReceiveError::Error => ReceiveStep::Done(Err(TachyonReceiveError::Unknown)),
                        ReceiveError::ChannelError => ReceiveStep::Done(
                            Err(TachyonReceiveError::Channel),
                        ),
                    })
                },
            }
        };
    assert(pre.read_as(&handled, outcome));
}

} // verus!
