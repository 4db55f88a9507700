//! Frame headers: the four-byte base form and its two ten-byte extensions.

use crate::int_buffer::{splice, u16_at, u16_le, u32_at, u32_le, IntBuffer};
use vstd::prelude::*;

verus! {

pub const MESSAGE_TYPE_UNRELIABLE: u8 = 0;

pub const MESSAGE_TYPE_RELIABLE: u8 = 1;

pub const MESSAGE_TYPE_FRAGMENT: u8 = 2;

pub const MESSAGE_TYPE_NONE: u8 = 3;

pub const MESSAGE_TYPE_NACK: u8 = 4;

pub const MESSAGE_TYPE_RELIABLE_WITH_NACK: u8 = 5;

pub const MESSAGE_TYPE_LINK_IDENTITY: u8 = 6;

pub const MESSAGE_TYPE_UNLINK_IDENTITY: u8 = 7;

pub const MESSAGE_TYPE_IDENTITY_LINKED: u8 = 8;

pub const MESSAGE_TYPE_IDENTITY_UNLINKED: u8 = 9;

pub const TACHYON_HEADER_SIZE: usize = 4;

pub const TACHYON_NACKED_HEADER_SIZE: usize = 10;

pub const TACHYON_FRAGMENTED_HEADER_SIZE: usize = 10;

#[derive(Clone, Copy, Debug, PartialEq, Eq, Structural)]
pub struct Header {
    pub message_type: u8,
    pub channel: u8,
    pub sequence: u16,
    // fragment - optional
    pub fragment_group: u16,
    pub fragment_start_sequence: u16,
    pub fragment_count: u16,
    // nacked - optional
    pub start_sequence: u16,
    pub flags: u32,
}

/// The header whose fields are all zero.
pub open spec fn zero_header() -> Header {
    Header {
        message_type: 0,
        channel: 0,
        sequence: 0,
        fragment_group: 0,
        fragment_start_sequence: 0,
        fragment_count: 0,
        start_sequence: 0,
        flags: 0,
    }
}

impl Default for Header {
    fn default() -> (r: Self)
        ensures
            r == zero_header(),
    {
        Header {
            message_type: 0,
            channel: 0,
            sequence: 0,
            fragment_group: 0,
            fragment_start_sequence: 0,
            fragment_count: 0,
            start_sequence: 0,
            flags: 0,
        }
    }
}

/// The four bytes every reliable frame starts with.
pub open spec fn base_header_bytes(h: Header) -> Seq<u8> {
    seq![h.message_type, h.channel] + u16_le(h.sequence)
}

/// The ten bytes of a header that carries a NACK.
pub open spec fn nacked_header_bytes(h: Header) -> Seq<u8> {
    base_header_bytes(h) + u16_le(h.start_sequence) + u32_le(h.flags)
}

/// The ten bytes of a fragment's header.
pub open spec fn fragmented_header_bytes(h: Header) -> Seq<u8> {
    base_header_bytes(h) + u16_le(h.fragment_group) + u16_le(h.fragment_start_sequence) + u16_le(
        h.fragment_count,
    )
}

/// The header read from the first four bytes of `s`.
pub open spec fn base_header_of(s: Seq<u8>) -> Header {
    Header { message_type: s[0], channel: s[1], sequence: u16_at(s, 2), ..zero_header() }
}

/// The header read from the first ten bytes of a fragment.
pub open spec fn fragmented_header_of(s: Seq<u8>) -> Header {
    Header {
        message_type: s[0],
        channel: s[1],
        sequence: u16_at(s, 2),
        fragment_group: u16_at(s, 4),
        fragment_start_sequence: u16_at(s, 6),
        fragment_count: u16_at(s, 8),
        ..zero_header()
    }
}

/// Reading a base header that was written gives back its type, channel and
/// sequence.
pub proof fn lemma_base_header_round_trip(s: Seq<u8>, h: Header)
    requires
        s.len() >= 4,
    ensures
        base_header_of(splice(s, 0, base_header_bytes(h))) == (Header {
            message_type: h.message_type,
            channel: h.channel,
            sequence: h.sequence,
            ..zero_header()
        }),
{
}

/// Reading a fragment header that was written gives back every field but
/// those of a NACK.
pub proof fn lemma_fragmented_header_round_trip(s: Seq<u8>, h: Header)
    requires
        s.len() >= 10,
    ensures
        fragmented_header_of(splice(s, 0, fragmented_header_bytes(h))) == (Header {
            start_sequence: 0,
            flags: 0,
            ..h
        }),
{
}

/// A header with a NACK starts with the bytes of its base form, and holds the
/// NACK's start and flags behind them.
pub proof fn lemma_nacked_header_fields(s: Seq<u8>, h: Header)
    requires
        s.len() >= 10,
    ensures
        base_header_of(splice(s, 0, nacked_header_bytes(h))) == (Header {
            message_type: h.message_type,
            channel: h.channel,
            sequence: h.sequence,
            ..zero_header()
        }),
        u16_at(splice(s, 0, nacked_header_bytes(h)), 4) == h.start_sequence,
        u32_at(splice(s, 0, nacked_header_bytes(h)), 6) == h.flags,
{
}

impl Header {
    /// Writes the message type alone, as an unreliable frame starts.
    pub fn write_unreliable(&self, buffer: &mut [u8])
        requires
            old(buffer)@.len() >= 1,
        ensures
            final(buffer)@ == splice(old(buffer)@, 0, seq![self.message_type]),
    {
        let mut writer = IntBuffer { index: 0 };
        writer.write_u8(self.message_type, buffer);
    }

    /// Writes the ten-byte form that carries a NACK.
    pub fn write_nacked(&self, buffer: &mut [u8])
        requires
            old(buffer)@.len() >= 10,
        ensures
            final(buffer)@ == splice(old(buffer)@, 0, nacked_header_bytes(*self)),
    {
        let mut writer = IntBuffer { index: 0 };
        writer.write_u8(self.message_type, buffer);
        writer.write_u8(self.channel, buffer);
        writer.write_u16(self.sequence, buffer);
        writer.write_u16(self.start_sequence, buffer);
        writer.write_u32(self.flags, buffer);
        assert(buffer@ =~= splice(old(buffer)@, 0, nacked_header_bytes(*self)));
    }

    /// Writes the four-byte base form.
    pub fn write(&self, buffer: &mut [u8])
        requires
            old(buffer)@.len() >= 4,
        ensures
            final(buffer)@ == splice(old(buffer)@, 0, base_header_bytes(*self)),
    {
        let mut writer = IntBuffer { index: 0 };
        writer.write_u8(self.message_type, buffer);
        writer.write_u8(self.channel, buffer);
        writer.write_u16(self.sequence, buffer);
        assert(buffer@ =~= splice(old(buffer)@, 0, base_header_bytes(*self)));
    }

    /// Reads the four-byte base form.
    #[must_use]
    pub fn read(buffer: &[u8]) -> (r: Self)
        requires
            buffer@.len() >= 4,
        ensures
            r == base_header_of(buffer@),
    {
        let mut reader = IntBuffer { index: 0 };
        let message_type = reader.read_u8(buffer);
        let channel = reader.read_u8(buffer);
        let sequence = reader.read_u16(buffer);
        Header {
            message_type,
            channel,
            sequence,
            fragment_group: 0,
            fragment_start_sequence: 0,
            fragment_count: 0,
            start_sequence: 0,
            flags: 0,
        }
    }

    /// Writes the ten-byte form of a fragment.
    pub fn write_fragmented(&self, buffer: &mut [u8])
        requires
            old(buffer)@.len() >= 10,
        ensures
            final(buffer)@ == splice(old(buffer)@, 0, fragmented_header_bytes(*self)),
    {
        let mut writer = IntBuffer { index: 0 };
        writer.write_u8(self.message_type, buffer);
        writer.write_u8(self.channel, buffer);
        writer.write_u16(self.sequence, buffer);
        writer.write_u16(self.fragment_group, buffer);
        writer.write_u16(self.fragment_start_sequence, buffer);
        writer.write_u16(self.fragment_count, buffer);
        assert(buffer@ =~= splice(old(buffer)@, 0, fragmented_header_bytes(*self)));
    }

    /// Reads the ten-byte form of a fragment.
    #[must_use]
    pub fn read_fragmented(buffer: &[u8]) -> (r: Self)
        requires
            buffer@.len() >= 10,
        ensures
            r == fragmented_header_of(buffer@),
    {
        let mut reader = IntBuffer { index: 0 };
        let message_type = reader.read_u8(buffer);
        let channel = reader.read_u8(buffer);
        let sequence = reader.read_u16(buffer);
        let fragment_group = reader.read_u16(buffer);
        let fragment_start_sequence = reader.read_u16(buffer);
        let fragment_count = reader.read_u16(buffer);
        Header {
            message_type,
            channel,
            sequence,
            fragment_group,
            fragment_start_sequence,
            fragment_count,
            start_sequence: 0,
            flags: 0,
        }
    }

    #[must_use]
    pub fn create_fragmented(sequence: u16, channel: u8, group: u16, start: u16, count: u16) -> (r:
        Self)
        ensures
            r == (Header {
                message_type: MESSAGE_TYPE_FRAGMENT,
                sequence,
                channel,
                fragment_group: group,
                fragment_start_sequence: start,
                fragment_count: count,
                ..zero_header()
            }),
    {
        Header {
            message_type: MESSAGE_TYPE_FRAGMENT,
            sequence,
            channel,
            fragment_group: group,
            fragment_start_sequence: start,
            fragment_count: count,
            start_sequence: 0,
            flags: 0,
        }
    }
}

} // verus!
