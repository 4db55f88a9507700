//! A peer of an endpoint and the identity it is linked to.

use crate::network_address::NetworkAddress;
use vstd::prelude::*;

verus! {

#[derive(Clone, Copy, Debug, PartialEq, Eq, Structural)]
pub struct Connection {
    pub address: NetworkAddress,
    pub identity: Identity,
    pub tachyon_id: u16,
    pub received_at: u64,
    pub since_last_received: u64,
}

impl Connection {
    #[must_use]
    pub fn create(address: NetworkAddress, tachyon_id: u16) -> (r: Self)
        ensures
            r == (Connection {
                address,
                identity: Identity { id: 0, session_id: 0, linked: 0 },
                tachyon_id,
                received_at: 0,
                since_last_received: 0,
            }),
    {
        Connection {
            identity: Identity::default(),
            address,
            tachyon_id,
            received_at: 0,
            since_last_received: 0,
        }
    }
}

#[derive(Clone, Copy, Debug, PartialEq, Eq, Structural)]
pub struct Identity {
    pub id: u32,
    pub session_id: u32,
    pub linked: u32,
}

impl Default for Identity {
    fn default() -> (r: Self)
        ensures
            r == (Identity { id: 0, session_id: 0, linked: 0 }),
    {
        Identity { id: 0, session_id: 0, linked: 0 }
    }
}

impl Identity {
    #[must_use]
    pub fn is_valid(&self) -> (r: bool)
        ensures
            r == (self.id > 0 && self.session_id > 0),
    {
        self.id > 0 && self.session_id > 0
    }

    #[must_use]
    pub fn is_linked(&self) -> (r: bool)
        ensures
            r == (self.id > 0 && self.session_id > 0 && self.linked == 1),
    {
        self.is_valid() && self.linked == 1
    }

    pub fn set_linked(&mut self, linked: u32)
        ensures
            *final(self) == (Identity { linked, ..*old(self) }),
    {
        self.linked = linked;
    }
}

} // verus!
