//! The nine-byte header of the identity handshake.

use crate::int_buffer::{splice, u32_at, u32_le, IntBuffer};
use vstd::prelude::*;

verus! {

pub const CONNECTION_HEADER_SIZE: usize = 9;

#[derive(Clone, Copy, Debug, PartialEq, Eq, Structural)]
pub struct ConnectionHeader {
    pub message_type: u8,
    pub id: u32,
    pub session_id: u32,
}

impl Default for ConnectionHeader {
    fn default() -> (r: Self)
        ensures
            r == (ConnectionHeader { message_type: 0, id: 0, session_id: 0 }),
    {
        ConnectionHeader { message_type: 0, id: 0, session_id: 0 }
    }
}

/// The nine bytes of a handshake header.
pub open spec fn connection_header_bytes(h: ConnectionHeader) -> Seq<u8> {
    seq![h.message_type] + u32_le(h.id) + u32_le(h.session_id)
}

/// The handshake header read from the first nine bytes of `s`.
pub open spec fn connection_header_of(s: Seq<u8>) -> ConnectionHeader {
    ConnectionHeader { message_type: s[0], id: u32_at(s, 1), session_id: u32_at(s, 5) }
}

/// Reading a handshake header that was written gives it back.
pub proof fn lemma_connection_header_round_trip(s: Seq<u8>, h: ConnectionHeader)
    requires
        s.len() >= 9,
    ensures
        connection_header_of(splice(s, 0, connection_header_bytes(h))) == h,
{
}

impl ConnectionHeader {
    #[must_use]
    pub fn read(buffer: &[u8]) -> (r: Self)
        requires
            buffer@.len() >= 9,
        ensures
            r == connection_header_of(buffer@),
    {
        let mut reader = IntBuffer { index: 0 };
        let message_type = reader.read_u8(buffer);
        let id = reader.read_u32(buffer);
        let session_id = reader.read_u32(buffer);
        ConnectionHeader { message_type, id, session_id }
    }

    pub fn write(&self, buffer: &mut [u8])
        requires
            old(buffer)@.len() >= 9,
        ensures
            final(buffer)@ == splice(old(buffer)@, 0, connection_header_bytes(*self)),
    {
        let mut writer = IntBuffer { index: 0 };
        writer.write_u8(self.message_type, buffer);
        writer.write_u32(self.id, buffer);
        writer.write_u32(self.session_id, buffer);
        assert(buffer@ =~= splice(old(buffer)@, 0, connection_header_bytes(*self)));
    }
}

} // verus!
