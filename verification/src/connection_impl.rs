//! The endpoint's book of peers, and the identity handshake that admits
//! them.

use crate::channel::{Channel, ChannelConfig};
use crate::clock::millis_since;
use crate::connection::{Connection, Identity};
use crate::connection_header::{connection_header_bytes, ConnectionHeader, CONNECTION_HEADER_SIZE};
use crate::fx_map::{
    map_contains, map_get, map_get_mut, map_insert, map_keys, map_remove,
};
use crate::header::{
    MESSAGE_TYPE_IDENTITY_LINKED, MESSAGE_TYPE_IDENTITY_UNLINKED, MESSAGE_TYPE_LINK_IDENTITY,
    MESSAGE_TYPE_UNLINK_IDENTITY,
};
use crate::network_address::{
    address_key, channel_key, lemma_address_key_injective, lemma_channel_key_injective,
    NetworkAddress,
};
use crate::tachyon::{Event, EventKind, Tachyon};
use std::time::Instant;
use vstd::prelude::*;

verus! {

/// Milliseconds between two requests of a client to be linked.
pub const IDENTITY_SEND_INTERVAL: u128 = 300;

pub const CONNECTION_ADDED_EVENT: u8 = 1;

pub const CONNECTION_REMOVED_EVENT: u8 = 2;

pub const LINK_IDENTITY_EVENT: u8 = 1;

pub const UNLINK_IDENTITY_EVENT: u8 = 2;

pub const IDENTITY_LINKED_EVENT: u8 = 3;

pub const IDENTITY_UNLINKED_EVENT: u8 = 4;

/// The kind of event that an identity event id stands for.
pub open spec fn identity_event_kind(event_id: u8) -> Option<EventKind> {
    if event_id == LINK_IDENTITY_EVENT {
        Some(EventKind::IdentityLinkRequested)
    } else if event_id == UNLINK_IDENTITY_EVENT {
        Some(EventKind::IdentityUnlinkRequested)
    } else if event_id == IDENTITY_LINKED_EVENT {
        Some(EventKind::IdentityLinked)
    } else if event_id == IDENTITY_UNLINKED_EVENT {
        Some(EventKind::IdentityUnlinked)
    } else {
        None
    }
}

/// The kind of event that a connection event id stands for.
pub open spec fn connection_event_kind(event_id: u8) -> Option<EventKind> {
    if event_id == CONNECTION_ADDED_EVENT {
        Some(EventKind::ConnectionAdded)
    } else if event_id == CONNECTION_REMOVED_EVENT {
        Some(EventKind::ConnectionRemoved)
    } else {
        None
    }
}

/// The peer as an event shows it.
pub open spec fn event_connection(
    address: NetworkAddress,
    tachyon_id: u16,
    identity: Identity,
) -> Connection {
    Connection { address, identity, tachyon_id, received_at: 0, since_last_received: 0 }
}

/// The key is that of a channel of the peer at `address`, for one of the
/// configured ids.
pub open spec fn is_configured_key(
    config: Map<u8, ChannelConfig>,
    address: NetworkAddress,
    k: u128,
) -> bool {
    exists|id: u8| config.contains_key(id) && k == #[trigger] channel_key(address, id)
}

/// `a` is the address of a peer that is linked to the identity `id`.
pub open spec fn identity_address(
    conns: Map<u128, Connection>,
    id: u32,
    a: NetworkAddress,
) -> bool {
    conns.contains_key(address_key(a)) && conns[address_key(a)].identity.id == id
}

/// The key is that of a configured channel of a peer that is linked to the
/// identity `id`.
pub open spec fn identity_channel_key(
    conns: Map<u128, Connection>,
    config: Map<u8, ChannelConfig>,
    id: u32,
    k: u128,
) -> bool {
    exists|a: NetworkAddress|
        identity_address(conns, id, a) && #[trigger] is_configured_key(config, a, k)
}

/// `after` is `before` with a channel added for the peer at `address` for
/// each configured id that had none: the channels that were there are
/// untouched, the new ones are fresh and set up as configured.
pub open spec fn channels_added(
    before: Map<u128, Channel>,
    after: Map<u128, Channel>,
    config: Map<u8, ChannelConfig>,
    address: NetworkAddress,
) -> bool {
    &&& forall|k: u128|
        after.contains_key(k) <==> (before.contains_key(k) || #[trigger] is_configured_key(
            config,
            address,
            k,
        ))
    &&& forall|k: u128| before.contains_key(k) ==> #[trigger] after[k] == before[k]
    &&& forall|id: u8|
        config.contains_key(id) && !before.contains_key(channel_key(address, id)) ==> {
            let made = #[trigger] after[channel_key(address, id)];
            &&& made.id == id
            &&& made.address == address
            &&& made.nack_redundancy == config[id].nack_redundancy
            &&& made.receiver.is_ordered == (config[id].ordered == 1)
            &&& made.receiver.window() == crate::receiver::window_for(
                config[id].receive_window_size,
            )
            &&& made.receiver.published@.len() == 0
            &&& made.send_buffers.current_sequence == 0
        }
}

/// `after` is `before` without the configured channels of the peer at
/// `address`; the other channels are untouched.
pub open spec fn channels_dropped(
    before: Map<u128, Channel>,
    after: Map<u128, Channel>,
    config: Map<u8, ChannelConfig>,
    address: NetworkAddress,
) -> bool {
    &&& forall|k: u128|
        after.contains_key(k) <==> (before.contains_key(k) && !#[trigger] is_configured_key(
            config,
            address,
            k,
        ))
    &&& forall|k: u128| after.contains_key(k) ==> #[trigger] after[k] == before[k]
}

/// The peers, channels and events after every peer linked to the identity
/// `id` has been dropped: those peers and their configured channels are
/// gone, the others are as they were, and for each peer that went an event
/// says so.
pub open spec fn identity_dropped(
    conns: Map<u128, Connection>,
    conns_after: Map<u128, Connection>,
    channels: Map<u128, Channel>,
    channels_after: Map<u128, Channel>,
    config: Map<u8, ChannelConfig>,
    events: Seq<Event>,
    events_after: Seq<Event>,
    id: u32,
) -> bool {
    &&& forall|k: u128|
        conns_after.contains_key(k)
            <==> (conns.contains_key(k) && (#[trigger] conns[k]).identity.id
            != id)
    &&& forall|k: u128| conns_after.contains_key(k) ==> #[trigger] conns_after[k] == conns[k]
    &&& forall|k: u128|
        channels_after.contains_key(k) <==> (channels.contains_key(k)
            && !#[trigger] identity_channel_key(conns, config, id, k))
    &&& forall|k: u128|
        channels_after.contains_key(k) ==> #[trigger] channels_after[k] == channels[k]
    &&& events.len() <= events_after.len()
    &&& events_after.subrange(0, events.len() as int) == events
    &&& forall|i: int|
        events.len() <= i < events_after.len() ==> (#[trigger] events_after[i]).kind
            == EventKind::ConnectionRemoved && identity_address(
            conns,
            id,
            events_after[i].connection.address,
        )
}

/// The nine bytes of a handshake message.
pub open spec fn identity_message(message_type: u8, id: u32, session_id: u32) -> Seq<u8> {
    connection_header_bytes(ConnectionHeader { message_type, id, session_id })
}

/// The conditions under which a client asks to be linked: identities are in
/// use, the port is open and no server's, and the client has an identity
/// that is not linked yet.
pub open spec fn wants_link(t: &Tachyon) -> bool {
    &&& t.config.use_identity != 0
    &&& t.socket.open
    &&& !t.socket.is_server
    &&& t.identity.id > 0
    &&& t.identity.session_id > 0
    &&& t.identity.linked != 1
}

impl Tachyon {
    /// Everything but the channels, the peers and the events is as in
    /// `before`.
    pub open spec fn same_setup(&self, before: &Tachyon) -> bool {
        &&& self.id == before.id
        &&& self.config == before.config
        &&& self.channel_config == before.channel_config
        &&& self.identity == before.identity
        &&& self.stats == before.stats
        &&& self.unreliable_sender == before.unreliable_sender
        &&& self.socket_receive_buffer == before.socket_receive_buffer
        &&& self.nack_send_data == before.nack_send_data
        &&& self.start_time == before.start_time
        &&& self.last_identity_link_request == before.last_identity_link_request
        &&& self.socket.open == before.socket.open
        &&& self.socket.is_server == before.socket.is_server
        &&& self.socket.address == before.socket.address
        &&& self.socket.peer == before.socket.peer
        &&& self.socket.inbox == before.socket.inbox
    }

    /// Queues an event about an identity for the application. An id that
    /// stands for no event queues nothing.
    pub fn fire_identity_event(
        &mut self,
        event_id: u8,
        address: NetworkAddress,
        id: u32,
        session_id: u32,
    )
        ensures
            final(self).events@ == (match identity_event_kind(event_id) {
                Some(kind) => old(self).events@.push(
                    Event {
                        kind,
                        connection: event_connection(
                            address,
                            old(self).id,
                            Identity {
                                id,
                                session_id,
                                linked: if event_id == IDENTITY_LINKED_EVENT {
                                    1
                                } else {
                                    0
                                },
                            },
                        ),
                    },
                ),
                None => old(self).events@,
            }),
            *final(self) == (Tachyon { events: final(self).events, ..*old(self) }),
    {
        let kind = if event_id == LINK_IDENTITY_EVENT {
            EventKind::IdentityLinkRequested
        } else if event_id == UNLINK_IDENTITY_EVENT {
            EventKind::IdentityUnlinkRequested
        } else if event_id == IDENTITY_LINKED_EVENT {
            EventKind::IdentityLinked
        } else if event_id == IDENTITY_UNLINKED_EVENT {
            EventKind::IdentityUnlinked
        } else {
            return ;
        };
        let mut conn = Connection::create(address, self.id);
        conn.identity = Identity { id, session_id, linked: 0 };
        if event_id == IDENTITY_LINKED_EVENT {
            conn.identity.linked = 1;
        }
        self.events.push(Event { kind, connection: conn });
    }

    /// Queues an event about a connection for the application. An id that
    /// stands for no event queues nothing.
    pub fn fire_connection_event(&mut self, event_id: u8, address: NetworkAddress)
        ensures
            final(self).events@ == (match connection_event_kind(event_id) {
                Some(kind) => old(self).events@.push(
                    Event {
                        kind,
                        connection: event_connection(
                            address,
                            old(self).id,
                            Identity { id: 0, session_id: 0, linked: 0 },
                        ),
                    },
                ),
                None => old(self).events@,
            }),
            *final(self) == (Tachyon { events: final(self).events, ..*old(self) }),
    {
        let kind = if event_id == CONNECTION_ADDED_EVENT {
            EventKind::ConnectionAdded
        } else if event_id == CONNECTION_REMOVED_EVENT {
            EventKind::ConnectionRemoved
        } else {
            return ;
        };
        let conn = Connection::create(address, self.id);
        self.events.push(Event { kind, connection: conn });
    }

    /// Takes the events that have waited for the application.
    pub fn take_events(&mut self) -> (r: Vec<Event>)
        ensures
            r@ == old(self).events@,
            final(self).events@.len() == 0,
            *final(self) == (Tachyon { events: final(self).events, ..*old(self) }),
    {
        let mut events: Vec<Event> = Vec::new();
        std::mem::swap(&mut events, &mut self.events);
        events
    }

    /// `post` is this endpoint after the session id that the identity `id`
    /// has to show was set to `session_id`, or the identity forgotten if
    /// that is zero: every peer linked to the identity has been dropped.
    pub open spec fn identity_set_as(&self, post: &Tachyon, id: u32, session_id: u32) -> bool {
        &&& post.same_setup(self)
        &&& post.socket == self.socket
        &&& post.identity_to_address_map == self.identity_to_address_map
        &&& post.identities@ == (if session_id == 0 {
            self.identities@.remove(id)
        } else {
            self.identities@.insert(id, session_id)
        })
        &&& identity_dropped(
            self.connections@,
            post.connections@,
            self.channels@,
            post.channels@,
            self.channel_config@,
            self.events@,
            post.events@,
            id,
        )
    }

    /// Sets the session id that the identity `id` has to show, or forgets
    /// the identity if `session_id` is zero. Every peer linked to the
    /// identity is dropped.
    pub fn set_identity(&mut self, id: u32, session_id: u32)
        requires
            old(self).wf(),
        ensures
            final(self).wf(),
            old(self).identity_set_as(final(self), id, session_id),
    {
        self.remove_connection_by_identity(id);
        let ghost mid = *self;
        if session_id == 0 {
            map_remove(&mut self.identities, &id);
        } else {
            map_insert(&mut self.identities, id, session_id);
        }
        assert(self.connections == mid.connections);
        assert(self.channels == mid.channels);
        assert(self.events == mid.events);
    }

    /// Adds the peer at `address`, or puts a new record in the place of the
    /// one it had, makes its configured channels, and queues an event.
    pub fn create_connection(&mut self, address: NetworkAddress, identity: Identity)
        requires
            old(self).wf(),
        ensures
            final(self).wf(),
            final(self).same_setup(old(self)),
            final(self).socket == old(self).socket,
            final(self).identities == old(self).identities,
            final(self).identity_to_address_map == old(self).identity_to_address_map,
            final(self).connections@.dom() == old(self).connections@.dom().insert(
                address_key(address),
            ),
            forall|k: u128|
                old(self).connections@.contains_key(k) && k != address_key(address)
                    ==> #[trigger] final(self).connections@[k] == old(self).connections@[k],
            final(self).connections@[address_key(address)].address == address,
            final(self).connections@[address_key(address)].identity == identity,
            final(self).connections@[address_key(address)].tachyon_id == old(self).id,
            channels_added(
                old(self).channels@,
                final(self).channels@,
                old(self).channel_config@,
                address,
            ),
            final(self).events@ == old(self).events@.push(
                Event {
                    kind: EventKind::ConnectionAdded,
                    connection: event_connection(
                        address,
                        old(self).id,
                        Identity { id: 0, session_id: 0, linked: 0 },
                    ),
                },
            ),
    {
        let mut conn = Connection::create(address, self.id);
        conn.identity = identity;
        conn.received_at = self.time_since_start();
        map_insert(&mut self.connections, address.key(), conn);
        assert(self.connections@.dom() =~= old(self).connections@.dom().insert(
            address_key(address),
        ));
        self.create_configured_channels(address);
        self.fire_connection_event(CONNECTION_ADDED_EVENT, address);
    }

    /// Drops the peer at `address` with its configured channels, and queues
    /// an event.
    fn remove_connection(&mut self, address: NetworkAddress)
        requires
            old(self).wf(),
        ensures
            final(self).wf(),
            final(self).same_setup(old(self)),
            final(self).socket == old(self).socket,
            final(self).identities == old(self).identities,
            final(self).identity_to_address_map == old(self).identity_to_address_map,
            final(self).connections@ == old(self).connections@.remove(address_key(address)),
            channels_dropped(
                old(self).channels@,
                final(self).channels@,
                old(self).channel_config@,
                address,
            ),
            final(self).events@ == old(self).events@.push(
                Event {
                    kind: EventKind::ConnectionRemoved,
                    connection: event_connection(
                        address,
                        old(self).id,
                        Identity { id: 0, session_id: 0, linked: 0 },
                    ),
                },
            ),
    {
        map_remove(&mut self.connections, &address.key());
        self.remove_configured_channels(address);
        self.fire_connection_event(CONNECTION_REMOVED_EVENT, address);
    }

    #[must_use]
    pub fn get_connection(&self, address: NetworkAddress) -> (r: Option<&Connection>)
        ensures
            r == (if self.has_connection(address) {
                Some(&self.connections@[address_key(address)])
            } else {
                None
            }),
    {
        map_get(&self.connections, &address.key())
    }

    /// The peer that the identity `id` is linked to, if it is linked and the
    /// peer is known.
    #[must_use]
    pub fn get_connection_by_identity(&self, id: u32) -> (r: Option<&Connection>)
        ensures
            r == (if self.identity_to_address_map@.contains_key(id) && self.has_connection(
                self.identity_to_address_map@[id],
            ) {
                Some(&self.connections@[address_key(self.identity_to_address_map@[id])])
            } else {
                None
            }),
    {
        match map_get(&self.identity_to_address_map, &id) {
            Some(address) => self.get_connection(*address),
            None => None,
        }
    }

    /// The identity of the peer at `address`, or the empty identity if the
    /// peer is not known.
    #[must_use]
    pub fn get_connection_identity(&self, address: NetworkAddress) -> (r: Identity)
        ensures
            r == (if self.has_connection(address) {
                self.connections@[address_key(address)].identity
            } else {
                Identity { id: 0, session_id: 0, linked: 0 }
            }),
    {
        match map_get(&self.connections, &address.key()) {
            Some(c) => c.identity,
            None => Identity::default(),
        }
    }

    /// Up to `max` of the peers, each with the time since it was last heard
    /// of brought up to date.
    pub fn get_connections(&mut self, max: usize) -> (r: Vec<Connection>)
        requires
            old(self).wf(),
        ensures
            final(self).wf(),
            final(self).same_setup(old(self)),
            final(self).socket == old(self).socket,
            final(self).channels == old(self).channels,
            final(self).events == old(self).events,
            final(self).connections@.dom() == old(self).connections@.dom(),
            r@.len() == (if max <= old(self).connections@.dom().len() {
                max as nat
            } else {
                old(self).connections@.dom().len()
            }),
            forall|k: u128|
                old(self).connections@.contains_key(k) && (forall|i: int|
                    0 <= i < r@.len() ==> address_key((#[trigger] r@[i]).address) != k)
                    ==> #[trigger] final(self).connections@[k] == old(self).connections@[k],
            forall|i: int|
                0 <= i < r@.len() ==> {
                    let c = #[trigger] r@[i];
                    &&& old(self).has_connection(c.address)
                    &&& final(self).connections@[address_key(c.address)] == c
                    &&& c == (Connection {
                        since_last_received: c.since_last_received,
                        ..old(self).connections@[address_key(c.address)]
                    })
                },
            forall|i: int, j: int|
                0 <= i < j < r@.len() ==> (#[trigger] r@[i]).address != (#[trigger] r@[j]).address,
            forall|k: u128|
                final(self).connections@.contains_key(k) ==> #[trigger] final(self).connections@[k]
                    == (Connection {
                    since_last_received: final(self).connections@[k].since_last_received,
                    ..old(self).connections@[k]
                }),
    {
        let since_start = self.time_since_start();
        let keys = map_keys(&self.connections);
        let mut result: Vec<Connection> = Vec::new();
        let mut i: usize = 0;
        proof {
            keys@.unique_seq_to_set();
            assert(keys@.to_set() =~= self.connections@.dom());
        }
        while i < keys.len() && i < max
            invariant
                i <= keys@.len(),
                i <= max,
                keys@.len() == old(self).connections@.dom().len(),
                keys@.no_duplicates(),
                forall|k: u128| keys@.contains(k) <==> old(self).connections@.contains_key(k),
                old(self).wf(),
                self.wf(),
                self.same_setup(old(self)),
                self.socket == old(self).socket,
                self.channels == old(self).channels,
                self.events == old(self).events,
                self.connections@.dom() == old(self).connections@.dom(),
                result@.len() == i,
                forall|j: int|
                    0 <= j < i ==> {
                        let c = #[trigger] result@[j];
                        &&& keys@[j] == address_key(c.address)
                        &&& self.connections@[keys@[j]] == c
                        &&& c == (Connection {
                            since_last_received: c.since_last_received,
                            ..old(self).connections@[keys@[j]]
                        })
                    },
                forall|j: int|
                    i <= j < keys@.len() ==> self.connections@[#[trigger] keys@[j]] == old(
                        self,
                    ).connections@[keys@[j]],
            decreases keys@.len() - i,
        {
            let key = keys[i];
            assert(keys@.contains(key));
            let ghost before = self.connections@;
            match map_get_mut(&mut self.connections, &key) {
                Some(c) => {
                    c.since_last_received = if since_start >= c.received_at {
                        since_start - c.received_at
                    } else {
                        0
                    };
                    result.push(*c);
                },
                None => {
                    assert(false);
                },
            }
            assert(self.connections@.dom() =~= before.dom());
            i = i + 1;
        }
        proof {
            assert forall|j: int| 0 <= j < result@.len() implies ({
                let c = #[trigger] result@[j];
                &&& old(self).has_connection(c.address)
                &&& self.connections@[address_key(c.address)] == c
                &&& c == (Connection {
                    since_last_received: c.since_last_received,
                    ..old(self).connections@[address_key(c.address)]
                })
            }) by {
                assert(keys@.contains(keys@[j]));
            }
            assert forall|a: int, b: int| 0 <= a < b < result@.len() implies (
            #[trigger] result@[a]).address != (#[trigger] result@[b]).address by {
                assert(keys@[a] != keys@[b]);
            }
            assert forall|k: u128|
                old(self).connections@.contains_key(k) && (forall|i: int|
                    0 <= i < result@.len() ==> address_key((#[trigger] result@[i]).address)
                        != k) implies #[trigger] self.connections@[k] == old(
                self,
            ).connections@[k] by {
                assert(keys@.contains(k));
                let j = choose|j: int| 0 <= j < keys@.len() && keys@[j] == k;
                if j < i {
                    assert(address_key(result@[j].address) == k);
                }
            }
            assert forall|k: u128| self.connections@.contains_key(k) implies (
            #[trigger] self.connections@[k]) == (Connection {
                since_last_received: self.connections@[k].since_last_received,
                ..old(self).connections@[k]
            }) by {
                assert(keys@.contains(k));
                let j = choose|j: int| 0 <= j < keys@.len() && keys@[j] == k;
                if j < i {
                    assert(result@[j] == self.connections@[keys@[j]]);
                }
            }
        }
        result
    }

    /// `post` is this endpoint after it has heard of the peer at `address`:
    /// a peer that was known has a new time stamp; one that was not has been
    /// added, with no identity, with its configured channels and with an
    /// event that says so.
    pub open spec fn heard_of(&self, post: &Tachyon, address: NetworkAddress) -> bool {
        &&& post.same_setup(self)
        &&& post.socket == self.socket
        &&& post.identities == self.identities
        &&& post.identity_to_address_map == self.identity_to_address_map
        &&& post.connections@.dom() == self.connections@.dom().insert(address_key(address))
        &&& forall|k: u128|
            self.connections@.contains_key(k) && k != address_key(address)
                ==> #[trigger] post.connections@[k] == self.connections@[k]
        &&& self.has_connection(address) ==> {
            &&& post.channels == self.channels
            &&& post.events == self.events
            &&& post.connections@[address_key(address)] == (Connection {
                received_at: post.connections@[address_key(address)].received_at,
                ..self.connections@[address_key(address)]
            })
        }
        &&& !self.has_connection(address) ==> {
            &&& post.connections@[address_key(address)].address == address
            &&& post.connections@[address_key(address)].identity == (Identity {
                id: 0,
                session_id: 0,
                linked: 0,
            })
            &&& post.connections@[address_key(address)].tachyon_id == self.id
            &&& channels_added(self.channels@, post.channels@, self.channel_config@, address)
            &&& post.events@ == self.events@.push(
                Event {
                    kind: EventKind::ConnectionAdded,
                    connection: event_connection(
                        address,
                        self.id,
                        Identity { id: 0, session_id: 0, linked: 0 },
                    ),
                },
            )
        }
    }

    /// `post` is this endpoint after the peer at `address`, which is linked
    /// to an identity, has got a new time stamp.
    pub open spec fn time_stamped(&self, post: &Tachyon, address: NetworkAddress) -> bool {
        &&& *post == (Tachyon { connections: post.connections, ..*self })
        &&& post.connections@ == self.connections@.insert(
            address_key(address),
            Connection {
                received_at: post.connections@[address_key(address)].received_at,
                ..self.connections@[address_key(address)]
            },
        )
    }

    /// `post` is `mid` with one more event of the given kind about the peer
    /// at `address` and the identity it named, if `fired`; else it is `mid`.
    pub open spec fn event_fired(
        mid: &Tachyon,
        post: &Tachyon,
        fired: bool,
        kind: EventKind,
        address: NetworkAddress,
        identity: Identity,
    ) -> bool {
        if fired {
            &&& *post == (Tachyon { events: post.events, ..*mid })
            &&& post.events@ == mid.events@.push(
                Event { kind, connection: event_connection(address, mid.id, identity) },
            )
        } else {
            *post == *mid
        }
    }

    /// Notes that the peer at `address` has been heard of: a known peer
    /// gets a new time stamp, an unknown one is added.
    pub fn on_receive_connection_update(&mut self, address: NetworkAddress)
        requires
            old(self).wf(),
        ensures
            final(self).wf(),
            old(self).heard_of(final(self), address),
    {
        let since_start = self.time_since_start();
        let known = map_contains(&self.connections, &address.key());
        if known {
            match map_get_mut(&mut self.connections, &address.key()) {
                Some(conn) => {
                    conn.received_at = since_start;
                },
                None => {},
            }
            assert(self.connections@.dom() =~= old(self).connections@.dom().insert(
                address_key(address),
            ));
        } else {
            self.create_connection(address, Identity::default());
        }
    }

    /// Whether the peer at `address` is known and linked to an identity. If
    /// so, it gets a new time stamp.
    pub fn validate_and_update_linked_connection(&mut self, address: NetworkAddress) -> (r: bool)
        requires
            old(self).wf(),
        ensures
            final(self).wf(),
            r == (old(self).has_connection(address) && old(self).connections@[address_key(
                address,
            )].identity.id != 0),
            !r ==> *final(self) == *old(self),
            r ==> old(self).time_stamped(final(self), address),
    {
        let since_start = self.time_since_start();
        let linked = match map_get(&self.connections, &address.key()) {
            Some(conn) => conn.identity.id != 0,
            None => false,
        };
        if !linked {
            return false;
        }
        match map_get_mut(&mut self.connections, &address.key()) {
            Some(conn) => {
                conn.received_at = since_start;
            },
            None => {},
        }
        true
    }

    /// Drops every peer that is linked to the identity `id`, with its
    /// configured channels, and queues an event for each.
    pub fn remove_connection_by_identity(&mut self, id: u32)
        requires
            old(self).wf(),
        ensures
            final(self).wf(),
            final(self).same_setup(old(self)),
            final(self).socket == old(self).socket,
            final(self).identities == old(self).identities,
            final(self).identity_to_address_map == old(self).identity_to_address_map,
            identity_dropped(
                old(self).connections@,
                final(self).connections@,
                old(self).channels@,
                final(self).channels@,
                old(self).channel_config@,
                old(self).events@,
                final(self).events@,
                id,
            ),
    {
        let keys = map_keys(&self.connections);
        let mut addresses: Vec<NetworkAddress> = Vec::new();
        let mut i: usize = 0;
        while i < keys.len()
            invariant
                i <= keys@.len(),
                self.wf(),
                *self == *old(self),
                keys@.no_duplicates(),
                forall|k: u128| keys@.contains(k) <==> self.connections@.contains_key(k),
                addresses@.no_duplicates(),
                forall|a: NetworkAddress|
                    #[trigger] addresses@.contains(a) <==> (identity_address(
                        self.connections@,
                        id,
                        a,
                    ) && exists|j: int| 0 <= j < i && keys@[j] == address_key(a)),
            decreases keys@.len() - i,
        {
            let key = keys[i];
            assert(keys@.contains(key));
            let ghost before = addresses@;
            match map_get(&self.connections, &key) {
                Some(conn) => {
                    if conn.identity.id == id {
                        let address = conn.address;
                        assert(key == address_key(address));
                        proof {
                            if before.contains(address) {
                                let j = choose|j: int| 0 <= j < i
                                    && keys@[j] == address_key(address);
                                assert(keys@[j] == keys@[i as int]);
                            }
                        }
                        addresses.push(address);
                        proof {
                            assert forall|a: NetworkAddress| #[trigger]
                                addresses@.contains(a) <==> (identity_address(
                                    self.connections@,
                                    id,
                                    a,
                                ) && exists|j: int| 0 <= j < i + 1
                                    && keys@[j] == address_key(a)) by {
                                lemma_address_key_injective(a, address);
                                if before.contains(a) {
                                    let k = choose|k: int| 0 <= k < before.len() && before[k] == a;
                                    assert(addresses@[k] == a);
                                    let j = choose|j: int| 0 <= j < i
                                        && keys@[j] == address_key(a);
                                    assert(0 <= j < i + 1 && keys@[j] == address_key(a));
                                }
                                if a == address {
                                    assert(addresses@[before.len() as int] == a);
                                    assert(0 <= i < i + 1 && keys@[i as int] == address_key(a));
                                }
                                if addresses@.contains(a) {
                                    let k = choose|k: int|
                                        0 <= k < addresses@.len() && addresses@[k] == a;
                                    if k < before.len() {
                                        assert(before[k] == a);
                                    }
                                }
                                if identity_address(self.connections@, id, a) && exists|j: int|
                                    0 <= j < i + 1 && keys@[j] == address_key(a) {
                                    let j = choose|j: int|
                                        0 <= j < i + 1 && keys@[j] == address_key(a);
                                    if j < i {
                                        assert(0 <= j < i && keys@[j] == address_key(a));
                                    }
                                }
                            }
                        }
                    } else {
                        proof {
                            assert forall|a: NetworkAddress| #[trigger]
                                addresses@.contains(a) <==> (identity_address(
                                    self.connections@,
                                    id,
                                    a,
                                ) && exists|j: int| 0 <= j < i + 1
                                    && keys@[j] == address_key(a)) by {
                                if before.contains(a) {
                                    let j = choose|j: int| 0 <= j < i
                                        && keys@[j] == address_key(a);
                                    assert(0 <= j < i + 1 && keys@[j] == address_key(a));
                                }
                                if identity_address(self.connections@, id, a) && exists|j: int|
                                    0 <= j < i + 1 && keys@[j] == address_key(a) {
                                    let j = choose|j: int|
                                        0 <= j < i + 1 && keys@[j] == address_key(a);
                                    if j < i {
                                        assert(0 <= j < i && keys@[j] == address_key(a));
                                    }
                                }
                            }
                        }
                    }
                },
                None => {
                    assert(false);
                },
            }
            i = i + 1;
        }
        proof {
            assert forall|a: NetworkAddress| #[trigger]
                addresses@.contains(a) <==> identity_address(old(self).connections@, id, a) by {
                if identity_address(old(self).connections@, id, a) {
                    assert(keys@.contains(address_key(a)));
                    let j = choose|j: int| 0 <= j < keys@.len() && keys@[j] == address_key(a);
                    assert(0 <= j < i && keys@[j] == address_key(a));
                }
            }
        }
        let mut n: usize = 0;
        while n < addresses.len()
            invariant
                n <= addresses@.len(),
                old(self).wf(),
                self.wf(),
                self.same_setup(old(self)),
                self.socket == old(self).socket,
                self.identities == old(self).identities,
                self.identity_to_address_map == old(self).identity_to_address_map,
                addresses@.no_duplicates(),
                forall|a: NetworkAddress| #[trigger]
                    addresses@.contains(a) <==> identity_address(old(self).connections@, id, a),
                forall|k: u128|
                    self.connections@.contains_key(k) <==> (old(self).connections@.contains_key(k)
                        && !(exists|j: int| 0 <= j < n
                            && k == address_key(#[trigger] addresses@[j]))),
                forall|k: u128|
                    self.connections@.contains_key(k) ==> #[trigger] self.connections@[k] == old(
                        self,
                    ).connections@[k],
                forall|k: u128|
                    self.channels@.contains_key(k) <==> (old(self).channels@.contains_key(k) && !(
                    exists|j: int|
                        0 <= j < n && is_configured_key(
                            old(self).channel_config@,
                            #[trigger] addresses@[j],
                            k,
                        ))),
                forall|k: u128|
                    self.channels@.contains_key(k) ==> #[trigger] self.channels@[k] == old(
                        self,
                    ).channels@[k],
                old(self).events@.len() + n == self.events@.len(),
                self.events@.subrange(0, old(self).events@.len() as int) == old(self).events@,
                forall|e: int|
                    old(self).events@.len() <= e < self.events@.len() ==> (
                    #[trigger] self.events@[e]).kind == EventKind::ConnectionRemoved
                        && identity_address(
                        old(self).connections@,
                        id,
                        self.events@[e].connection.address,
                    ),
            decreases addresses@.len() - n,
        {
            let address = addresses[n];
            assert(addresses@.contains(address));
            let ghost conns = self.connections@;
            let ghost events = self.events@;
            self.remove_connection(address);
            proof {
                assert(self.events@.subrange(0, old(self).events@.len() as int) =~= old(
                    self,
                ).events@);
                assert forall|k: u128|
                    self.connections@.contains_key(k) <==> (old(self).connections@.contains_key(k)
                        && !(exists|j: int|
                        0 <= j < n + 1 && k == address_key(#[trigger] addresses@[j]))) by {
                    if k == address_key(address) {
                        assert(0 <= n < n + 1 && k == address_key(addresses@[n as int]));
                    }
                    if exists|j: int| 0 <= j < n && k == address_key(#[trigger] addresses@[j]) {
                        let j = choose|j: int|
                            0 <= j < n && k == address_key(#[trigger] addresses@[j]);
                        assert(0 <= j < n + 1 && k == address_key(addresses@[j]));
                    }
                    if exists|j: int| 0 <= j < n + 1
                        && k == address_key(#[trigger] addresses@[j]) {
                        let j = choose|j: int|
                            0 <= j < n + 1 && k == address_key(#[trigger] addresses@[j]);
                        if j < n {
                            assert(0 <= j < n && k == address_key(addresses@[j]));
                        }
                    }
                }
                assert forall|k: u128|
                    self.channels@.contains_key(k) <==> (old(self).channels@.contains_key(k) && !(
                    exists|j: int|
                        0 <= j < n + 1 && is_configured_key(
                            old(self).channel_config@,
                            #[trigger] addresses@[j],
                            k,
                        ))) by {
                    if is_configured_key(old(self).channel_config@, address, k) {
                        assert(0 <= n < n + 1 && is_configured_key(
                            old(self).channel_config@,
                            addresses@[n as int],
                            k,
                        ));
                    }
                    if exists|j: int|
                        0 <= j < n && is_configured_key(
                            old(self).channel_config@,
                            #[trigger] addresses@[j],
                            k,
                        ) {
                        let j = choose|j: int|
                            0 <= j < n && is_configured_key(
                                old(self).channel_config@,
                                #[trigger] addresses@[j],
                                k,
                            );
                        assert(0 <= j < n + 1 && is_configured_key(
                            old(self).channel_config@,
                            addresses@[j],
                            k,
                        ));
                    }
                    if exists|j: int|
                        0 <= j < n + 1 && is_configured_key(
                            old(self).channel_config@,
                            #[trigger] addresses@[j],
                            k,
                        ) {
                        let j = choose|j: int|
                            0 <= j < n + 1 && is_configured_key(
                                old(self).channel_config@,
                                #[trigger] addresses@[j],
                                k,
                            );
                        if j < n {
                            assert(0 <= j < n && is_configured_key(
                                old(self).channel_config@,
                                addresses@[j],
                                k,
                            ));
                        }
                    }
                }
            }
            n = n + 1;
        }
        proof {
            assert forall|k: u128|
                self.connections@.contains_key(k) <==> (old(self).connections@.contains_key(k) && (
                #[trigger] old(self).connections@[k]).identity.id != id) by {
                if old(self).connections@.contains_key(k) {
                    let a = old(self).connections@[k].address;
                    assert(k == address_key(a));
                    if old(self).connections@[k].identity.id == id {
                        assert(identity_address(old(self).connections@, id, a));
                        assert(addresses@.contains(a));
                        let j = choose|j: int| 0 <= j < addresses@.len() && addresses@[j] == a;
                        assert(0 <= j < n && k == address_key(addresses@[j]));
                    }
                    if exists|j: int| 0 <= j < n && k == address_key(#[trigger] addresses@[j]) {
                        let j = choose|j: int|
                            0 <= j < n && k == address_key(#[trigger] addresses@[j]);
                        assert(addresses@.contains(addresses@[j]));
                        lemma_address_key_injective(a, addresses@[j]);
                    }
                }
            }
            assert forall|k: u128|
                self.channels@.contains_key(k) <==> (old(self).channels@.contains_key(k)
                    && !#[trigger] identity_channel_key(
                    old(self).connections@,
                    old(self).channel_config@,
                    id,
                    k,
                )) by {
                if identity_channel_key(old(self).connections@, old(self).channel_config@, id, k) {
                    let a = choose|a: NetworkAddress|
                        identity_address(old(self).connections@, id, a)
                            && #[trigger] is_configured_key(old(self).channel_config@, a, k);
                    assert(addresses@.contains(a));
                    let j = choose|j: int| 0 <= j < addresses@.len() && addresses@[j] == a;
                    assert(0 <= j < n && is_configured_key(
                        old(self).channel_config@,
                        addresses@[j],
                        k,
                    ));
                }
                if exists|j: int|
                    0 <= j < n && is_configured_key(
                        old(self).channel_config@,
                        #[trigger] addresses@[j],
                        k,
                    ) {
                    let j = choose|j: int|
                        0 <= j < n && is_configured_key(
                            old(self).channel_config@,
                            #[trigger] addresses@[j],
                            k,
                        );
                    assert(addresses@.contains(addresses@[j]));
                    assert(identity_address(old(self).connections@, id, addresses@[j])
                        && is_configured_key(old(self).channel_config@, addresses@[j], k));
                }
            }
        }
    }

    /// The peer at `address` is known and linked to the identity `id` under
    /// the session `session_id`.
    pub open spec fn is_linked_at(
        &self,
        address: NetworkAddress,
        id: u32,
        session_id: u32,
    ) -> bool {
        &&& self.has_connection(address)
        &&& self.connections@[address_key(address)].identity.id == id
        &&& self.connections@[address_key(address)].identity.session_id == session_id
    }

    /// `post` is this endpoint after an attempt to link the identity `id`
    /// to the peer at `address`, and `r` says whether the session id was the
    /// right one.
    ///
    /// A wrong session id changes nothing, nor does a link that stands
    /// already. Otherwise every peer linked to the identity is dropped, the
    /// peer at `address` is added with the identity and its configured
    /// channels, and it is told that it is linked.
    pub open spec fn link_tried(
        &self,
        post: &Tachyon,
        address: NetworkAddress,
        id: u32,
        session_id: u32,
        r: bool,
    ) -> bool {
        &&& r == (self.identities@.contains_key(id) && self.identities@[id] == session_id)
        &&& !r ==> *post == *self
        &&& r && self.is_linked_at(address, id, session_id) ==> *post == *self
        &&& r && !self.is_linked_at(address, id, session_id) ==> {
            &&& post.same_setup(self)
            &&& post.identities == self.identities
            &&& post.identity_to_address_map@ == self.identity_to_address_map@.insert(id, address)
            &&& post.has_connection(address)
            &&& post.connections@[address_key(address)].address == address
            &&& post.connections@[address_key(address)].identity == (Identity {
                id,
                session_id,
                linked: 0,
            })
            &&& exists|conns: Map<u128, Connection>, channels: Map<u128, Channel>, events: Seq<Event>|
                {
                    &&& #[trigger] identity_dropped(
                        self.connections@,
                        conns,
                        self.channels@,
                        channels,
                        self.channel_config@,
                        self.events@,
                        events,
                        id,
                    )
                    &&& post.connections@.dom() == conns.dom().insert(address_key(address))
                    &&& forall|k: u128|
                        conns.contains_key(k) && k != address_key(address)
                            ==> #[trigger] post.connections@[k] == conns[k]
                    &&& channels_added(channels, post.channels@, self.channel_config@, address)
                    &&& post.events@ == events.push(
                        Event {
                            kind: EventKind::ConnectionAdded,
                            connection: event_connection(
                                address,
                                self.id,
                                Identity { id: 0, session_id: 0, linked: 0 },
                            ),
                        },
                    )
                }
            &&& self.socket.open ==> post.socket.sent() == self.socket.sent().push(
                (address, identity_message(MESSAGE_TYPE_IDENTITY_LINKED, 0, 0)),
            )
            &&& !self.socket.open ==> post.socket.outbox == self.socket.outbox
        }
    }

    /// `post` is this endpoint after an attempt to unlink the identity `id`,
    /// asked for from `address`, and `r` says whether the session id was
    /// the right one.
    ///
    /// If it was, every peer linked to the identity is dropped and the peer
    /// at `address` is told that it is unlinked. A peer that names an
    /// identity that is not known is told so as well; a wrong session id
    /// changes nothing.
    pub open spec fn unlink_tried(
        &self,
        post: &Tachyon,
        address: NetworkAddress,
        id: u32,
        session_id: u32,
        r: bool,
    ) -> bool {
        &&& r == (self.identities@.contains_key(id) && self.identities@[id] == session_id)
        &&& post.same_setup(self)
        &&& post.identities == self.identities
        &&& self.identities@.contains_key(id) && !r ==> *post == *self
        &&& !self.identities@.contains_key(id) ==> {
            &&& post.connections == self.connections
            &&& post.channels == self.channels
            &&& post.events == self.events
            &&& post.identity_to_address_map == self.identity_to_address_map
        }
        &&& r ==> {
            &&& post.identity_to_address_map@ == self.identity_to_address_map@.remove(id)
            &&& identity_dropped(
                self.connections@,
                post.connections@,
                self.channels@,
                post.channels@,
                self.channel_config@,
                self.events@,
                post.events@,
                id,
            )
        }
        &&& r || !self.identities@.contains_key(id) ==> {
            &&& self.socket.open ==> post.socket.sent() == self.socket.sent().push(
                (address, identity_message(MESSAGE_TYPE_IDENTITY_UNLINKED, 0, 0)),
            )
            &&& !self.socket.open ==> post.socket.outbox == self.socket.outbox
        }
    }

    /// Links the identity `id` to the peer at `address`, if `session_id` is
    /// the session id that the identity has to show.
    ///
    /// A peer that is linked to that identity already stays as it is.
    /// Otherwise every peer linked to the identity is dropped, the peer at
    /// `address` is added with the identity, and it is told that it is
    /// linked.
    pub fn try_link_identity(&mut self, address: NetworkAddress, id: u32, session_id: u32) -> (r:
        bool)
        requires
            old(self).wf(),
        ensures
            final(self).wf(),
            old(self).link_tried(final(self), address, id, session_id, r),
    {
        let current_session_id = match map_get(&self.identities, &id) {
            Some(current) => *current,
            None => {
                return false;
            },
        };
        if session_id != current_session_id {
            return false;
        }
        let identity = self.get_connection_identity(address);
        if map_contains(&self.connections, &address.key()) && identity.id == id
            && identity.session_id == current_session_id {
            return true;
        }
        self.remove_connection_by_identity(id);
        let ghost conns = self.connections@;
        let ghost channels = self.channels@;
        let ghost events = self.events@;
        let identity = Identity { id, session_id, linked: 0 };
        self.create_connection(address, identity);
        map_insert(&mut self.identity_to_address_map, id, address);
        self.send_identity_linked(address);
        proof {
            assert(identity_dropped(
                old(self).connections@,
                conns,
                old(self).channels@,
                channels,
                old(self).channel_config@,
                old(self).events@,
                events,
                id,
            ));
            assert(self.connections@.dom().contains(address_key(address)));
        }
        true
    }

    /// Unlinks the identity `id`, if `session_id` is the session id that the
    /// identity has to show: every peer linked to it is dropped, and the peer
    /// at `address` is told that it is unlinked. A peer that names an
    /// identity that is not known is told so as well.
    pub fn try_unlink_identity(&mut self, address: NetworkAddress, id: u32, session_id: u32) -> (r:
        bool)
        requires
            old(self).wf(),
        ensures
            final(self).wf(),
            old(self).unlink_tried(final(self), address, id, session_id, r),
    {
        let current_session_id = match map_get(&self.identities, &id) {
            Some(current) => *current,
            None => {
                self.send_identity_unlinked(address);
                return false;
            },
        };
        if session_id != current_session_id {
            return false;
        }
        self.remove_connection_by_identity(id);
        map_remove(&mut self.identity_to_address_map, &id);
        self.send_identity_unlinked(address);
        true
    }

    /// Whether a request to be linked is due, given how long ago the last
    /// one was made, if ever.
    pub fn link_request_due(since_last_millis: Option<u128>) -> (r: bool)
        ensures
            r == (match since_last_millis {
                Some(millis) => millis > IDENTITY_SEND_INTERVAL,
                None => true,
            }),
    {
        match since_last_millis {
            Some(millis) => millis > IDENTITY_SEND_INTERVAL,
            None => true,
        }
    }

    /// `post` is this endpoint after it was given the chance to ask the
    /// server for a link.
    ///
    /// Whatever the clock says, nothing is sent unless the client wants to
    /// be linked; the first request is sent at once; and nothing but a
    /// request is ever sent.
    pub open spec fn link_asked_as(&self, post: &Tachyon) -> bool {
        let request = (
            NetworkAddress { a: 0, b: 0, c: 0, d: 0, port: 0 },
            identity_message(
                MESSAGE_TYPE_LINK_IDENTITY,
                self.identity.id,
                self.identity.session_id,
            ),
        );
        let nothing = post.socket.outbox == self.socket.outbox && post.last_identity_link_request
            == self.last_identity_link_request;
        &&& *post == (Tachyon {
            socket: post.socket,
            last_identity_link_request: post.last_identity_link_request,
            ..*self
        })
        &&& post.socket.open == self.socket.open
        &&& post.socket.is_server == self.socket.is_server
        &&& post.socket.address == self.socket.address
        &&& post.socket.peer == self.socket.peer
        &&& post.socket.inbox == self.socket.inbox
        &&& !wants_link(self) ==> nothing
        &&& post.socket.sent() == self.socket.sent().push(request) || nothing
        &&& wants_link(self) && self.last_identity_link_request is None ==> post.socket.outbox
            != self.socket.outbox
    }

    /// On a client that has an identity and is not linked, asks the server
    /// to link it, but not more often than every 300 milliseconds.
    pub fn client_identity_update(&mut self)
        ensures
            old(self).link_asked_as(final(self)),
    {
        if self.config.use_identity == 0 {
            return ;
        }
        if !self.socket.open {
            return ;
        }
        if self.socket.is_server {
            return ;
        }
        if !self.identity.is_valid() {
            return ;
        }
        if self.identity.is_linked() {
            return ;
        }
        let since_last = match &self.last_identity_link_request {
            Some(at) => Some(millis_since(at)),
            None => None,
        };
        if Self::link_request_due(since_last) {
            self.last_identity_link_request = Some(Instant::now());
            self.send_link_identity(self.identity.id, self.identity.session_id);
            assert(self.socket.sent().len() == old(self).socket.sent().len() + 1);
        }
    }

    /// Whether this endpoint may send application data: a server always, a
    /// client unless identities are in use and it is not linked.
    #[must_use]
    pub fn can_send(&self) -> (r: bool)
        ensures
            r == (self.socket.is_server || self.config.use_identity != 1 || self.identity.linked
                == 1),
    {
        // Server can always send
        self.socket.is_server
        // Client can always send if identity is not used,
         || self.config.use_identity != 1
        // or if it is linked when identity is being used
         || self.identity.linked == 1
    }

    /// Asks the server to link this client to an identity.
    pub fn send_link_identity(&mut self, id: u32, session_id: u32)
        ensures
            old(self).identity_message_sent(
                final(self),
                MESSAGE_TYPE_LINK_IDENTITY,
                id,
                session_id,
                NetworkAddress { a: 0, b: 0, c: 0, d: 0, port: 0 },
            ),
    {
        self.send_identity_message(
            MESSAGE_TYPE_LINK_IDENTITY,
            id,
            session_id,
            NetworkAddress::default(),
        );
    }

    /// Asks the server to unlink this client from an identity.
    pub fn send_unlink_identity(&mut self, id: u32, session_id: u32)
        ensures
            old(self).identity_message_sent(
                final(self),
                MESSAGE_TYPE_UNLINK_IDENTITY,
                id,
                session_id,
                NetworkAddress { a: 0, b: 0, c: 0, d: 0, port: 0 },
            ),
    {
        self.send_identity_message(
            MESSAGE_TYPE_UNLINK_IDENTITY,
            id,
            session_id,
            NetworkAddress::default(),
        );
    }

    /// Tells the peer at `address` that it is linked.
    pub fn send_identity_linked(&mut self, address: NetworkAddress)
        ensures
            old(self).identity_message_sent(
                final(self),
                MESSAGE_TYPE_IDENTITY_LINKED,
                0,
                0,
                address,
            ),
    {
        self.send_identity_message(MESSAGE_TYPE_IDENTITY_LINKED, 0, 0, address);
    }

    /// Tells the peer at `address` that it is unlinked.
    pub fn send_identity_unlinked(&mut self, address: NetworkAddress)
        ensures
            old(self).identity_message_sent(
                final(self),
                MESSAGE_TYPE_IDENTITY_UNLINKED,
                0,
                0,
                address,
            ),
    {
        self.send_identity_message(MESSAGE_TYPE_IDENTITY_UNLINKED, 0, 0, address);
    }

    /// `after` is this endpoint after it has sent a handshake message: on an
    /// open port the message waits in the outbox, and nothing else differs.
    pub open spec fn identity_message_sent(
        &self,
        after: &Tachyon,
        message_type: u8,
        id: u32,
        session_id: u32,
        address: NetworkAddress,
    ) -> bool {
        &&& *after == (Tachyon { socket: after.socket, ..*self })
        &&& after.socket.open == self.socket.open
        &&& after.socket.is_server == self.socket.is_server
        &&& after.socket.address == self.socket.address
        &&& after.socket.peer == self.socket.peer
        &&& after.socket.inbox == self.socket.inbox
        &&& self.socket.open ==> after.socket.sent() == self.socket.sent().push(
            (address, identity_message(message_type, id, session_id)),
        )
        &&& !self.socket.open ==> after.socket.outbox == self.socket.outbox
    }

    fn send_identity_message(
        &mut self,
        message_type: u8,
        id: u32,
        session_id: u32,
        address: NetworkAddress,
    )
        ensures
            old(self).identity_message_sent(final(self), message_type, id, session_id, address),
    {
        let mut send_buffer: Vec<u8> = vec![0u8; CONNECTION_HEADER_SIZE];
        let header = ConnectionHeader { message_type, id, session_id };
        header.write(send_buffer.as_mut_slice());
        let _ = self.socket.send_to(address, send_buffer.as_slice(), CONNECTION_HEADER_SIZE);
        assert(send_buffer@.subrange(0, 9) =~= identity_message(message_type, id, session_id));
    }

    /// Makes a channel for the peer at `address` for each configured id
    /// that has none yet.
    pub fn create_configured_channels(&mut self, address: NetworkAddress)
        requires
            old(self).wf(),
        ensures
            final(self).wf(),
            final(self).same_setup(old(self)),
            final(self).socket == old(self).socket,
            final(self).connections == old(self).connections,
            final(self).identities == old(self).identities,
            final(self).identity_to_address_map == old(self).identity_to_address_map,
            final(self).events == old(self).events,
            channels_added(
                old(self).channels@,
                final(self).channels@,
                old(self).channel_config@,
                address,
            ),
    {
        let ids = map_keys(&self.channel_config);
        let mut i: usize = 0;
        while i < ids.len()
            invariant
                i <= ids@.len(),
                self.wf(),
                self.same_setup(old(self)),
                self.socket == old(self).socket,
                self.connections == old(self).connections,
                self.identities == old(self).identities,
                self.identity_to_address_map == old(self).identity_to_address_map,
                self.events == old(self).events,
                ids@.no_duplicates(),
                forall|id: u8| ids@.contains(id) <==> old(self).channel_config@.contains_key(id),
                forall|k: u128|
                    self.channels@.contains_key(k) <==> (old(self).channels@.contains_key(k) || (
                    exists|j: int| 0 <= j < i && k == #[trigger] channel_key(address, ids@[j]))),
                forall|k: u128|
                    old(self).channels@.contains_key(k) ==> #[trigger] self.channels@[k] == old(
                        self,
                    ).channels@[k],
                forall|j: int|
                    0 <= j < i && !old(self).has_channel(address, ids@[j]) ==> {
                        let made = #[trigger] self.channels@[channel_key(address, ids@[j])];
                        &&& made.id == ids@[j]
                        &&& made.address == address
                        &&& made.nack_redundancy
                            == old(self).channel_config@[ids@[j]].nack_redundancy
                        &&& made.receiver.is_ordered == (old(self).channel_config@[ids@[j]].ordered
                            == 1)
                        &&& made.receiver.window() == crate::receiver::window_for(
                            old(self).channel_config@[ids@[j]].receive_window_size,
                        )
                        &&& made.receiver.published@.len() == 0
                        &&& made.send_buffers.current_sequence == 0
                    },
            decreases ids@.len() - i,
        {
            let channel_id = ids[i];
            assert(ids@.contains(channel_id));
            let key = address.channel_key(channel_id);
            let ghost before = self.channels@;
            if !map_contains(&self.channels, &key) {
                let config = match map_get(&self.channel_config, &channel_id) {
                    Some(config) => *config,
                    None => ChannelConfig::default(),
                };
                let channel = Channel::create(channel_id, address, config);
                map_insert(&mut self.channels, key, channel);
            }
            proof {
                assert forall|j: int| 0 <= j < i implies channel_key(address, ids@[j]) != key by {
                    lemma_channel_key_injective(address, ids@[j], address, channel_id);
                }
                assert forall|k: u128|
                    self.channels@.contains_key(k) <==> (old(self).channels@.contains_key(k) || (
                    exists|j: int|
                        0 <= j < i + 1 && k == #[trigger] channel_key(address, ids@[j]))) by {
                    if k == key {
                        assert(0 <= i < i + 1 && k == channel_key(address, ids@[i as int]));
                    }
                    if before.contains_key(k) && !old(self).channels@.contains_key(k) {
                        let j = choose|j: int|
                            0 <= j < i && k == #[trigger] channel_key(address, ids@[j]);
                        assert(0 <= j < i + 1 && k == channel_key(address, ids@[j]));
                    }
                    if exists|j: int|
                        0 <= j < i + 1 && k == #[trigger] channel_key(address, ids@[j]) {
                        let j = choose|j: int|
                            0 <= j < i + 1 && k == #[trigger] channel_key(address, ids@[j]);
                        if j < i {
                            assert(0 <= j < i && k == channel_key(address, ids@[j]));
                        }
                    }
                }
            }
            i = i + 1;
        }
        proof {
            assert forall|k: u128|
                self.channels@.contains_key(k) <==> (old(self).channels@.contains_key(k)
                    || #[trigger] is_configured_key(old(self).channel_config@, address, k)) by {
                if is_configured_key(old(self).channel_config@, address, k) {
                    let id = choose|id: u8|
                        old(self).channel_config@.contains_key(id) && k == #[trigger] channel_key(
                            address,
                            id,
                        );
                    assert(ids@.contains(id));
                    let j = choose|j: int| 0 <= j < ids@.len() && ids@[j] == id;
                    assert(0 <= j < i && k == channel_key(address, ids@[j]));
                }
                if exists|j: int| 0 <= j < i && k == #[trigger] channel_key(address, ids@[j]) {
                    let j = choose|j: int|
                        0 <= j < i && k == #[trigger] channel_key(address, ids@[j]);
                    assert(ids@.contains(ids@[j]));
                    assert(old(self).channel_config@.contains_key(ids@[j]) && k == channel_key(
                        address,
                        ids@[j],
                    ));
                }
            }
            assert forall|id: u8|
                old(self).channel_config@.contains_key(id) && !old(self).has_channel(
                    address,
                    id,
                ) implies ({
                let made = #[trigger] self.channels@[channel_key(address, id)];
                &&& made.id == id
                &&& made.address == address
                &&& made.nack_redundancy == old(self).channel_config@[id].nack_redundancy
                &&& made.receiver.is_ordered == (old(self).channel_config@[id].ordered == 1)
                &&& made.receiver.window() == crate::receiver::window_for(
                    old(self).channel_config@[id].receive_window_size,
                )
                &&& made.receiver.published@.len() == 0
                &&& made.send_buffers.current_sequence == 0
            }) by {
                assert(ids@.contains(id));
                let j = choose|j: int| 0 <= j < ids@.len() && ids@[j] == id;
                assert(0 <= j < i && !old(self).has_channel(address, ids@[j]));
            }
        }
    }

    /// Drops the channels of the peer at `address` for every configured id.
    pub fn remove_configured_channels(&mut self, address: NetworkAddress)
        requires
            old(self).wf(),
        ensures
            final(self).wf(),
            final(self).same_setup(old(self)),
            final(self).socket == old(self).socket,
            final(self).connections == old(self).connections,
            final(self).identities == old(self).identities,
            final(self).identity_to_address_map == old(self).identity_to_address_map,
            final(self).events == old(self).events,
            channels_dropped(
                old(self).channels@,
                final(self).channels@,
                old(self).channel_config@,
                address,
            ),
    {
        let ids = map_keys(&self.channel_config);
        let mut i: usize = 0;
        while i < ids.len()
            invariant
                i <= ids@.len(),
                self.wf(),
                self.same_setup(old(self)),
                self.socket == old(self).socket,
                self.connections == old(self).connections,
                self.identities == old(self).identities,
                self.identity_to_address_map == old(self).identity_to_address_map,
                self.events == old(self).events,
                forall|id: u8| ids@.contains(id) <==> old(self).channel_config@.contains_key(id),
                forall|k: u128|
                    self.channels@.contains_key(k) <==> (old(self).channels@.contains_key(k) && !(
                    exists|j: int| 0 <= j < i && k == #[trigger] channel_key(address, ids@[j]))),
                forall|k: u128|
                    self.channels@.contains_key(k) ==> #[trigger] self.channels@[k] == old(
                        self,
                    ).channels@[k],
            decreases ids@.len() - i,
        {
            let channel_id = ids[i];
            let key = address.channel_key(channel_id);
            map_remove(&mut self.channels, &key);
            proof {
                assert forall|k: u128|
                    self.channels@.contains_key(k) <==> (old(self).channels@.contains_key(k) && !(
                    exists|j: int|
                        0 <= j < i + 1 && k == #[trigger] channel_key(address, ids@[j]))) by {
                    if k == key {
                        assert(0 <= i < i + 1 && k == channel_key(address, ids@[i as int]));
                    }
                    if exists|j: int| 0 <= j < i && k == #[trigger] channel_key(address, ids@[j]) {
                        let j = choose|j: int|
                            0 <= j < i && k == #[trigger] channel_key(address, ids@[j]);
                        assert(0 <= j < i + 1 && k == channel_key(address, ids@[j]));
                    }
                    if exists|j: int|
                        0 <= j < i + 1 && k == #[trigger] channel_key(address, ids@[j]) {
                        let j = choose|j: int|
                            0 <= j < i + 1 && k == #[trigger] channel_key(address, ids@[j]);
                        if j < i {
                            assert(0 <= j < i && k == channel_key(address, ids@[j]));
                        }
                    }
                }
            }
            i = i + 1;
        }
        proof {
            assert forall|k: u128|
                self.channels@.contains_key(k) <==> (old(self).channels@.contains_key(k)
                    && !#[trigger] is_configured_key(old(self).channel_config@, address, k)) by {
                if is_configured_key(old(self).channel_config@, address, k) {
                    let id = choose|id: u8|
                        old(self).channel_config@.contains_key(id) && k == #[trigger] channel_key(
                            address,
                            id,
                        );
                    assert(ids@.contains(id));
                    let j = choose|j: int| 0 <= j < ids@.len() && ids@[j] == id;
                    assert(0 <= j < i && k == channel_key(address, ids@[j]));
                }
                if exists|j: int| 0 <= j < i && k == #[trigger] channel_key(address, ids@[j]) {
                    let j = choose|j: int|
                        0 <= j < i && k == #[trigger] channel_key(address, ids@[j]);
                    assert(ids@.contains(ids@[j]));
                    assert(old(self).channel_config@.contains_key(ids@[j]) && k == channel_key(
                        address,
                        ids@[j],
                    ));
                }
            }
        }
    }
}

} // verus!
