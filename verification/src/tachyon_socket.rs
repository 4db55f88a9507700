//! An endpoint's datagram port: what has arrived and waits to be read, and
//! what has been sent and waits to be put on the wire.
//!
//! The port holds no socket. Whoever owns the real one moves datagrams into
//! `inbox` and out of `outbox`.

use crate::header::MESSAGE_TYPE_RELIABLE;
use crate::int_buffer::{copy_bytes, splice};
use crate::network_address::NetworkAddress;
use rand::rngs::StdRng;
use rand::{Rng, SeedableRng};
use std::collections::VecDeque;
use vstd::prelude::*;

verus! {

/// `rand::rngs::StdRng`: the generator behind loss injection; carried as is.
#[verifier::external_type_specification]
#[verifier::external_body]
pub struct ExStdRng(StdRng);

/// The seed of every port's generator.
pub const DROP_SEED: u64 = 32634;

/// `rand::SeedableRng::seed_from_u64` for `StdRng`: a generator started from
/// `seed`. Nothing is claimed of it.
#[verifier::external_body]
fn seeded_rng(seed: u64) -> (r: StdRng) {
    SeedableRng::seed_from_u64(seed)
}

/// `rand::Rng::gen_range` on `1..100`: a number from 1 to 99. Which one is
/// left open.
#[verifier::external_body]
fn roll(rng: &mut StdRng) -> (r: u64)
    ensures
        1 <= r < 100,
{
    rng.gen_range(1..100)
}

/// One datagram and the peer it came from or goes to.
pub struct Datagram {
    pub address: NetworkAddress,
    pub data: Vec<u8>,
}

impl View for Datagram {
    type V = (NetworkAddress, Seq<u8>);

    open spec fn view(&self) -> (NetworkAddress, Seq<u8>) {
        (self.address, self.data@)
    }
}

pub struct SocketReceiveSuccess {
    pub bytes_received: usize,
    pub network_address: NetworkAddress,
}

#[derive(Clone, Copy, Debug, PartialEq, Eq, Structural)]
pub enum SocketReceiveError {
    Empty,
    Error,
    Dropped,
}

pub struct TachyonSocket {
    pub address: NetworkAddress,
    /// The peer a connected port talks to.
    pub peer: NetworkAddress,
    pub is_server: bool,
    /// Whether the port has been bound or connected.
    pub open: bool,
    pub rng: StdRng,
    pub inbox: VecDeque<Datagram>,
    pub outbox: VecDeque<Datagram>,
}

/// The datagrams of a queue as plain values.
pub open spec fn datagrams(queue: Seq<Datagram>) -> Seq<(NetworkAddress, Seq<u8>)> {
    queue.map_values(|d: Datagram| d@)
}

/// Whether loss injection drops a datagram, given the number rolled: the
/// roll must not be over the chance, and where only reliable frames are to
/// be dropped the datagram must be one.
pub open spec fn drops(
    roll: u64,
    message_type: u8,
    drop_chance: u64,
    drop_reliable_only: bool,
) -> bool {
    roll <= drop_chance && (!drop_reliable_only || message_type == MESSAGE_TYPE_RELIABLE)
}

/// The message type a datagram starts with; 0 where it is empty.
pub open spec fn first_type(data: Seq<u8>) -> u8 {
    if data.len() > 0 {
        data[0]
    } else {
        0
    }
}

impl TachyonSocket {
    /// What waits to be put on the wire, oldest first.
    pub open spec fn sent(&self) -> Seq<(NetworkAddress, Seq<u8>)> {
        datagrams(self.outbox@)
    }

    /// What has arrived and waits to be read, oldest first.
    pub open spec fn arrived(&self) -> Seq<(NetworkAddress, Seq<u8>)> {
        datagrams(self.inbox@)
    }

    #[must_use]
    pub fn create() -> (r: Self)
        ensures
            !r.open,
            !r.is_server,
            r.address == (NetworkAddress { a: 0, b: 0, c: 0, d: 0, port: 0 }),
            r.inbox@.len() == 0,
            r.outbox@.len() == 0,
    {
        TachyonSocket {
            address: NetworkAddress::default(),
            peer: NetworkAddress::default(),
            is_server: false,
            open: false,
            rng: seeded_rng(DROP_SEED),
            inbox: VecDeque::new(),
            outbox: VecDeque::new(),
        }
    }

    /// Opens the port as a server at `naddress`. Fails on a port that is
    /// open already.
    pub fn bind_socket(&mut self, naddress: NetworkAddress) -> (r: Result<(), ()>)
        ensures
            r is Ok <==> !old(self).open,
            r is Err ==> *final(self) == *old(self),
            r is Ok ==> *final(self) == (TachyonSocket {
                address: naddress,
                is_server: true,
                open: true,
                ..*old(self)
            }),
    {
        if self.open {
            return Err(());
        }
        self.address = naddress;
        self.is_server = true;
        self.open = true;
        Ok(())
    }

    /// Opens the port as a client of the server at `naddress`. Fails on a
    /// port that is open already.
    pub fn connect_socket(&mut self, naddress: NetworkAddress) -> (r: Result<(), ()>)
        ensures
            r is Ok <==> !old(self).open,
            r is Err ==> *final(self) == *old(self),
            r is Ok ==> *final(self) == (TachyonSocket {
                address: NetworkAddress { a: 0, b: 0, c: 0, d: 0, port: 0 },
                peer: naddress,
                open: true,
                ..*old(self)
            }),
    {
        if self.open {
            return Err(());
        }
        self.address = NetworkAddress::default();
        self.peer = naddress;
        self.open = true;
        Ok(())
    }

    /// Decides from a roll whether loss injection drops a datagram of the
    /// given message type.
    pub fn drop_decision(
        roll: u64,
        message_type: u8,
        drop_chance: u64,
        drop_reliable_only: bool,
    ) -> (r: bool)
        ensures
            r == drops(roll, message_type, drop_chance, drop_reliable_only),
    {
        if roll > drop_chance {
            return false;
        }
        // Drop everything
        !drop_reliable_only
        // or if drop only reliable and message type is reliable
         || message_type == MESSAGE_TYPE_RELIABLE
    }

    /// Rolls a number from 1 to 99 for the datagram that starts with `data`
    /// and says whether loss injection drops it.
    fn should_drop(&mut self, data: &[u8], drop_chance: u64, drop_reliable_only: bool) -> (r: bool)
        ensures
            *final(self) == (TachyonSocket { rng: final(self).rng, ..*old(self) }),
            exists|rolled: u64|
                1 <= rolled < 100 && r == #[trigger] drops(
                    rolled,
                    first_type(data@),
                    drop_chance,
                    drop_reliable_only,
                ),
    {
        let rolled = roll(&mut self.rng);
        let message_type = if data.len() > 0 {
            data[0]
        } else {
            0
        };
        let r = Self::drop_decision(rolled, message_type, drop_chance, drop_reliable_only);
        assert(r == drops(rolled, first_type(data@), drop_chance, drop_reliable_only));
        r
    }

    /// `post` is this port, and `data_after` the caller's buffer, after a
    /// call to read a datagram came back with `r`.
    ///
    /// A port that is not open gives `Error`; one with nothing waiting gives
    /// `Empty`; neither changes anything. Otherwise the datagram that has
    /// waited longest leaves the inbox and a number from 1 to 99 is rolled.
    /// If loss injection drops the datagram on that roll, `Dropped` comes
    /// back; if not, as much of it as fits is copied to the start of the
    /// buffer, and the count comes back with the sender's address, or with
    /// the default address on a client.
    pub open spec fn received_as(
        &self,
        post: &TachyonSocket,
        data: Seq<u8>,
        data_after: Seq<u8>,
        drop_chance: u64,
        drop_reliable_only: bool,
        r: Result<SocketReceiveSuccess, SocketReceiveError>,
    ) -> bool {
        if !self.open {
            &&& r == Err::<SocketReceiveSuccess, SocketReceiveError>(SocketReceiveError::Error)
            &&& *post == *self
            &&& data_after == data
        } else if self.inbox@.len() == 0 {
            &&& r == Err::<SocketReceiveSuccess, SocketReceiveError>(SocketReceiveError::Empty)
            &&& *post == *self
            &&& data_after == data
        } else {
            let datagram = self.inbox@[0];
            let n = if datagram.data@.len() <= data.len() {
                datagram.data@.len()
            } else {
                data.len()
            };
            &&& *post == (TachyonSocket { inbox: post.inbox, rng: post.rng, ..*self })
            &&& post.inbox@ == self.inbox@.subrange(1, self.inbox@.len() as int)
            &&& exists|rolled: u64|
                1 <= rolled < 100 && (if #[trigger] drops(
                    rolled,
                    first_type(datagram.data@),
                    drop_chance,
                    drop_reliable_only,
                ) {
                    &&& r == Err::<SocketReceiveSuccess, SocketReceiveError>(
                        SocketReceiveError::Dropped,
                    )
                    &&& data_after == data
                } else {
                    &&& r == Ok::<SocketReceiveSuccess, SocketReceiveError>(
                        SocketReceiveSuccess {
                            bytes_received: n as usize,
                            network_address: if self.is_server {
                                datagram.address
                            } else {
                                NetworkAddress { a: 0, b: 0, c: 0, d: 0, port: 0 }
                            },
                        },
                    )
                    &&& data_after == splice(data, 0, datagram.data@.subrange(0, n as int))
                })
        }
    }

    /// Reads the datagram that has waited longest into `data`.
    pub fn receive(&mut self, data: &mut [u8], drop_chance: u64, drop_reliable_only: bool) -> (r:
        Result<SocketReceiveSuccess, SocketReceiveError>)
        ensures
            final(data)@.len() == old(data)@.len(),
            old(self).received_as(
                final(self),
                old(data)@,
                final(data)@,
                drop_chance,
                drop_reliable_only,
                r,
            ),
    {
        if !self.open {
            return Err(SocketReceiveError::Error);
        }
        if self.inbox.len() == 0 {
            return Err(SocketReceiveError::Empty);
        }
        let datagram = match self.inbox.pop_front() {
            Some(datagram) => datagram,
            None => {
                return Err(SocketReceiveError::Empty);
            },
        };
        let dropped = self.should_drop(datagram.data.as_slice(), drop_chance, drop_reliable_only);
        let ghost rolled = choose|rolled: u64|
            1 <= rolled < 100 && dropped == #[trigger] drops(
                rolled,
                first_type(datagram.data@),
                drop_chance,
                drop_reliable_only,
            );
        if dropped {
            assert(drops(rolled, first_type(datagram.data@), drop_chance, drop_reliable_only));
            return Err(SocketReceiveError::Dropped);
        }
        let n = if datagram.data.len() <= data.len() {
            datagram.data.len()
        } else {
            data.len()
        };
        copy_bytes(data, 0, datagram.data.as_slice(), 0, n);
        let network_address = if self.is_server {
            datagram.address
        } else {
            NetworkAddress::default()
        };
        assert(!drops(rolled, first_type(datagram.data@), drop_chance, drop_reliable_only));
        Ok(SocketReceiveSuccess { bytes_received: n, network_address })
    }

    /// Queues the first `length` bytes of `data` as a datagram for `address`
    /// and returns `length`. Fails on a port that is not open.
    pub fn send_to(&mut self, address: NetworkAddress, data: &[u8], length: usize) -> (r: Result<
        usize,
        (),
    >)
        requires
            length <= data@.len(),
        ensures
            final(self).address == old(self).address,
            final(self).peer == old(self).peer,
            final(self).is_server == old(self).is_server,
            final(self).open == old(self).open,
            final(self).inbox == old(self).inbox,
            r is Ok <==> old(self).open,
            r is Err ==> final(self).outbox == old(self).outbox,
            r is Ok ==> r->Ok_0 == length && final(self).sent() == old(self).sent().push(
                (address, data@.subrange(0, length as int)),
            ),
    {
        if !self.open {
            return Err(());
        }
        let mut frame: Vec<u8> = vec![0u8; length];
        copy_bytes(frame.as_mut_slice(), 0, data, 0, length);
        assert(frame@ =~= data@.subrange(0, length as int));
        let datagram = Datagram { address, data: frame };
        self.outbox.push_back(datagram);
        assert(self.sent() =~= old(self).sent().push((address, data@.subrange(0, length as int))));
        Ok(length)
    }

    /// Puts a datagram that came from `address` at the end of the inbox.
    pub fn deliver(&mut self, address: NetworkAddress, data: Vec<u8>)
        ensures
            final(self).address == old(self).address,
            final(self).peer == old(self).peer,
            final(self).is_server == old(self).is_server,
            final(self).open == old(self).open,
            final(self).outbox == old(self).outbox,
            final(self).arrived() == old(self).arrived().push((address, data@)),
    {
        let datagram = Datagram { address, data };
        self.inbox.push_back(datagram);
        assert(self.arrived() =~= old(self).arrived().push((address, data@)));
    }

    /// Takes the datagram that has waited longest to be put on the wire.
    pub fn take_sent(&mut self) -> (r: Option<Datagram>)
        ensures
            final(self).address == old(self).address,
            final(self).peer == old(self).peer,
            final(self).is_server == old(self).is_server,
            final(self).open == old(self).open,
            final(self).inbox == old(self).inbox,
            match r {
                Some(datagram) => old(self).outbox@.len() > 0 && datagram == old(self).outbox@[0]
                    && final(self).outbox@ == old(self).outbox@.subrange(
                    1,
                    old(self).outbox@.len() as int,
                ),
                None => old(self).outbox@.len() == 0 && final(self).outbox@ == old(self).outbox@,
            },
    {
        self.outbox.pop_front()
    }
}

} // verus!
