//! Peer addresses: four octets and a port, compared by value.

use vstd::prelude::*;

verus! {

#[derive(Clone, Copy, Debug, PartialEq, Eq, Structural, Hash)]
pub struct NetworkAddress {
    pub a: u16,
    pub b: u16,
    pub c: u16,
    pub d: u16,
    pub port: u32,
}

impl Default for NetworkAddress {
    fn default() -> (r: Self)
        ensures
            r == (NetworkAddress { a: 0, b: 0, c: 0, d: 0, port: 0 }),
    {
        NetworkAddress { a: 0, b: 0, c: 0, d: 0, port: 0 }
    }
}

/// The hash of an address: 17, then times 23 plus each field in turn, wrapping
/// at 32 bits.
pub open spec fn address_hash(address: NetworkAddress) -> u32 {
    let h0 = (17 * 23 + address.a) % 0x1_0000_0000;
    let h1 = (h0 * 23 + address.b) % 0x1_0000_0000;
    let h2 = (h1 * 23 + address.c) % 0x1_0000_0000;
    let h3 = (h2 * 23 + address.d) % 0x1_0000_0000;
    ((h3 * 23 + address.port) % 0x1_0000_0000) as u32
}

/// An address as one integer: the fields side by side, `a` lowest.
pub open spec fn address_key(address: NetworkAddress) -> u128 {
    (address.a + address.b * 0x1_0000 + address.c * 0x1_0000_0000 + address.d
        * 0x1_0000_0000_0000 + address.port * 0x1_0000_0000_0000_0000) as u128
}

/// An address and a channel id as one integer.
pub open spec fn channel_key(address: NetworkAddress, channel_id: u8) -> u128 {
    (address_key(address) + channel_id * 0x1_0000_0000_0000_0000_0000_0000) as u128
}

/// Different addresses have different keys.
pub proof fn lemma_address_key_injective(x: NetworkAddress, y: NetworkAddress)
    ensures
        address_key(x) == address_key(y) <==> x == y,
{
    if address_key(x) == address_key(y) {
        let t3: int = x.port - y.port;
        let t2: int = (x.d - y.d) + t3 * 0x1_0000;
        let t1: int = (x.c - y.c) + t2 * 0x1_0000;
        let t0: int = (x.b - y.b) + t1 * 0x1_0000;
        assert((x.a - y.a) + t0 * 0x1_0000 == 0);
        assert(t0 == 0);
        assert(t1 == 0);
        assert(t2 == 0);
        assert(t3 == 0);
    }
}

/// Different pairs of address and channel have different keys.
pub proof fn lemma_channel_key_injective(x: NetworkAddress, i: u8, y: NetworkAddress, j: u8)
    ensures
        channel_key(x, i) == channel_key(y, j) <==> (x == y && i == j),
{
    if channel_key(x, i) == channel_key(y, j) {
        let t4: int = i - j;
        let t3: int = (x.port - y.port) + t4 * 0x1_0000_0000;
        let t2: int = (x.d - y.d) + t3 * 0x1_0000;
        let t1: int = (x.c - y.c) + t2 * 0x1_0000;
        let t0: int = (x.b - y.b) + t1 * 0x1_0000;
        assert((x.a - y.a) + t0 * 0x1_0000 == 0);
        assert(t0 == 0);
        assert(t1 == 0);
        assert(t2 == 0);
        assert(t3 == 0);
        assert(t4 == 0);
    }
}

impl NetworkAddress {
    #[must_use]
    pub fn test_address() -> (r: Self)
        ensures
            r == (NetworkAddress { a: 127, b: 0, c: 0, d: 1, port: 8265 }),
    {
        NetworkAddress { a: 127, b: 0, c: 0, d: 1, port: 8265 }
    }

    #[must_use]
    pub fn broadcast(channel: u8) -> (r: Self)
        ensures
            r == (NetworkAddress { a: 255, b: 255, c: 255, d: 255, port: channel as u32 }),
    {
        NetworkAddress { a: 255, b: 255, c: 255, d: 255, port: channel as u32 }
    }

    #[must_use]
    pub fn localhost(port: u32) -> (r: Self)
        ensures
            r == (NetworkAddress { a: 127, b: 0, c: 0, d: 1, port }),
    {
        NetworkAddress { a: 127, b: 0, c: 0, d: 1, port }
    }

    #[must_use]
    pub fn mock_client_address() -> (r: Self)
        ensures
            r == (NetworkAddress { a: 127, b: 0, c: 0, d: 1, port: 4598 }),
    {
        NetworkAddress { a: 127, b: 0, c: 0, d: 1, port: 4598 }
    }

    #[must_use]
    pub fn is_default(&self) -> (r: bool)
        ensures
            r == (*self == (NetworkAddress { a: 0, b: 0, c: 0, d: 0, port: 0 })),
    {
        self.a == 0 && self.b == 0 && self.c == 0 && self.d == 0 && self.port == 0
    }

    #[must_use]
    pub fn is_broadcast(&self) -> (r: bool)
        ensures
            r == (self.a == 255 && self.b == 255 && self.c == 255 && self.d == 255),
    {
        self.a == 255 && self.b == 255 && self.c == 255 && self.d == 255
    }

    pub fn copy_from(&mut self, other: Self)
        ensures
            *final(self) == other,
    {
        self.a = other.a;
        self.b = other.b;
        self.c = other.c;
        self.d = other.d;
        self.port = other.port;
    }

    #[must_use]
    pub fn get_hash(&self) -> (r: u32)
        ensures
            r == address_hash(*self),
    {
        let mut hash: u64 = 17;
        hash = (hash * 23 + self.a as u64) % 0x1_0000_0000;
        hash = (hash * 23 + self.b as u64) % 0x1_0000_0000;
        hash = (hash * 23 + self.c as u64) % 0x1_0000_0000;
        hash = (hash * 23 + self.d as u64) % 0x1_0000_0000;
        hash = (hash * 23 + self.port as u64) % 0x1_0000_0000;
        hash as u32
    }

    /// The address as a map key.
    #[must_use]
    pub fn key(&self) -> (r: u128)
        ensures
            r == address_key(*self),
    {
        self.a as u128 + self.b as u128 * 0x1_0000 + self.c as u128 * 0x1_0000_0000
            + self.d as u128 * 0x1_0000_0000_0000 + self.port as u128 * 0x1_0000_0000_0000_0000
    }

    /// The address and a channel id as a map key.
    #[must_use]
    pub fn channel_key(&self, channel_id: u8) -> (r: u128)
        ensures
            r == channel_key(*self, channel_id),
    {
        self.key() + channel_id as u128 * 0x1_0000_0000_0000_0000_0000_0000
    }
}

} // verus!
