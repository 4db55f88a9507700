//! Little-endian integers in byte buffers, and the length-prefixed record
//! stream built on them.

use crate::network_address::NetworkAddress;
use vstd::prelude::*;

verus! {

/// The two bytes of `v`, low byte first.
pub open spec fn u16_le(v: u16) -> Seq<u8> {
    seq![(v % 256) as u8, (v / 256) as u8]
}

/// The four bytes of `v`, low byte first.
pub open spec fn u32_le(v: u32) -> Seq<u8> {
    seq![
        (v % 256) as u8,
        ((v / 256) % 256) as u8,
        ((v / 65536) % 256) as u8,
        (v / 16777216) as u8,
    ]
}

/// The little-endian `u16` held at `s[i]`, `s[i + 1]`.
pub open spec fn u16_at(s: Seq<u8>, i: int) -> u16 {
    (s[i] + s[i + 1] * 256) as u16
}

/// The little-endian `u32` held at `s[i] .. s[i + 3]`.
pub open spec fn u32_at(s: Seq<u8>, i: int) -> u32 {
    (s[i] + s[i + 1] * 256 + s[i + 2] * 65536 + s[i + 3] * 16777216) as u32
}

/// `s` with `bytes` written over it from index `at` on.
pub open spec fn splice(s: Seq<u8>, at: int, bytes: Seq<u8>) -> Seq<u8> {
    Seq::new(
        s.len(),
        |i: int|
            if at <= i < at + bytes.len() {
                bytes[i - at]
            } else {
                s[i]
            },
    )
}

/// Writing `x` and then `y` right behind it is writing `x + y`.
pub proof fn lemma_splice_append(s: Seq<u8>, at: int, x: Seq<u8>, y: Seq<u8>)
    requires
        0 <= at,
        at + x.len() + y.len() <= s.len(),
    ensures
        splice(splice(s, at, x), at + x.len(), y) == splice(s, at, x + y),
{
    assert(splice(splice(s, at, x), at + x.len(), y) =~= splice(s, at, x + y));
}

/// What was written can be read back, and nothing else moved.
pub proof fn lemma_splice_reads(s: Seq<u8>, at: int, x: Seq<u8>)
    requires
        0 <= at,
        at + x.len() <= s.len(),
    ensures
        splice(s, at, x).len() == s.len(),
        splice(s, at, x).subrange(at, at + x.len()) == x,
        forall|i: int| 0 <= i < at ==> splice(s, at, x)[i] == s[i],
        forall|i: int| at + x.len() <= i < s.len() ==> splice(s, at, x)[i] == s[i],
{
    assert(splice(s, at, x).subrange(at, at + x.len()) =~= x);
}

/// Reading a `u16` where one was written gives it back.
pub proof fn lemma_u16_round_trip(s: Seq<u8>, at: int, v: u16)
    requires
        0 <= at,
        at + 2 <= s.len(),
    ensures
        u16_at(splice(s, at, u16_le(v)), at) == v,
{
}

/// Reading a `u32` where one was written gives it back.
pub proof fn lemma_u32_round_trip(s: Seq<u8>, at: int, v: u32)
    requires
        0 <= at,
        at + 4 <= s.len(),
    ensures
        u32_at(splice(s, at, u32_le(v)), at) == v,
{
}

/// A cursor into a byte buffer that is passed to each call.
pub struct IntBuffer {
    pub index: usize,
}

impl IntBuffer {
    pub fn write_u8(&mut self, v: u8, buffer: &mut [u8])
        requires
            old(self).index + 1 <= old(buffer)@.len(),
        ensures
            final(self).index == old(self).index + 1,
            final(buffer)@ == splice(old(buffer)@, old(self).index as int, seq![v]),
    {
        buffer[self.index] = v;
        self.index = self.index + 1;
        assert(buffer@ =~= splice(old(buffer)@, old(self).index as int, seq![v]));
    }

    pub fn write_u16(&mut self, v: u16, buffer: &mut [u8])
        requires
            old(self).index + 2 <= old(buffer)@.len(),
        ensures
            final(self).index == old(self).index + 2,
            final(buffer)@ == splice(old(buffer)@, old(self).index as int, u16_le(v)),
    {
        buffer[self.index] = (v % 256) as u8;
        buffer[self.index + 1] = (v / 256) as u8;
        self.index = self.index + 2;
        assert(buffer@ =~= splice(old(buffer)@, old(self).index as int, u16_le(v)));
    }

    pub fn write_u32(&mut self, v: u32, buffer: &mut [u8])
        requires
            old(self).index + 4 <= old(buffer)@.len(),
        ensures
            final(self).index == old(self).index + 4,
            final(buffer)@ == splice(old(buffer)@, old(self).index as int, u32_le(v)),
    {
        buffer[self.index] = (v % 256) as u8;
        buffer[self.index + 1] = ((v / 256) % 256) as u8;
        buffer[self.index + 2] = ((v / 65536) % 256) as u8;
        buffer[self.index + 3] = (v / 16777216) as u8;
        self.index = self.index + 4;
        assert(buffer@ =~= splice(old(buffer)@, old(self).index as int, u32_le(v)));
    }

    pub fn read_u8(&mut self, buffer: &[u8]) -> (v: u8)
        requires
            old(self).index + 1 <= buffer@.len(),
        ensures
            final(self).index == old(self).index + 1,
            v == buffer@[old(self).index as int],
    {
        let v = buffer[self.index];
        self.index = self.index + 1;
        v
    }

    pub fn read_u16(&mut self, buffer: &[u8]) -> (v: u16)
        requires
            old(self).index + 2 <= buffer@.len(),
        ensures
            final(self).index == old(self).index + 2,
            v == u16_at(buffer@, old(self).index as int),
    {
        let v = buffer[self.index] as u16 + buffer[self.index + 1] as u16 * 256;
        self.index = self.index + 2;
        v
    }

    pub fn read_u32(&mut self, buffer: &[u8]) -> (v: u32)
        requires
            old(self).index + 4 <= buffer@.len(),
        ensures
            final(self).index == old(self).index + 4,
            v == u32_at(buffer@, old(self).index as int),
    {
        let v = buffer[self.index] as u32 + buffer[self.index + 1] as u32 * 256 + buffer[self.index
            + 2] as u32 * 65536 + buffer[self.index + 3] as u32 * 16777216;
        self.index = self.index + 4;
        v
    }
}

/// Copies `src[from..from + count]` over `dest[at..at + count]`.
pub fn copy_bytes(dest: &mut [u8], at: usize, src: &[u8], from: usize, count: usize)
    requires
        at + count <= old(dest)@.len(),
        from + count <= src@.len(),
    ensures
        final(dest)@ == splice(old(dest)@, at as int, src@.subrange(from as int, from + count)),
{
    let mut i: usize = 0;
    let dest_len = dest.len();
    let src_len = src.len();
    while i < count
        invariant
            i <= count,
            dest_len == dest@.len(),
            src_len == src@.len(),
            at + count <= dest@.len(),
            from + count <= src@.len(),
            dest@.len() == old(dest)@.len(),
            dest@ == splice(old(dest)@, at as int, src@.subrange(from as int, from + i)),
        decreases count - i,
    {
        dest[at + i] = src[from + i];
        i = i + 1;
        assert(dest@ =~= splice(old(dest)@, at as int, src@.subrange(from as int, from + i)));
    }
}

/// Bytes in front of each payload of a record stream: channel, address, length.
pub const RECORD_PREFIX_SIZE: usize = 15;

/// The ten bytes of an address in a record: four octets as `u16`, then the port.
pub open spec fn address_bytes(address: NetworkAddress) -> Seq<u8> {
    u16_le(address.a) + u16_le(address.b) + u16_le(address.c) + u16_le(address.d) + u16_le(
        (address.port % 65536) as u16,
    )
}

/// One record: channel, address, payload length, payload.
pub open spec fn record_bytes(channel: u8, address: NetworkAddress, payload: Seq<u8>) -> Seq<u8> {
    seq![channel] + address_bytes(address) + u32_le(payload.len() as u32) + payload
}

/// A record that was written can be found again: its length is read from
/// behind its channel and address, and what lay before it is untouched.
pub proof fn lemma_record_written(
    s: Seq<u8>,
    at: int,
    channel: u8,
    address: NetworkAddress,
    payload: Seq<u8>,
)
    requires
        0 <= at,
        at + 15 + payload.len() <= s.len(),
        payload.len() <= u32::MAX,
    ensures
        record_bytes(channel, address, payload).len() == 15 + payload.len(),
        u32_at(splice(s, at, record_bytes(channel, address, payload)), at + 11) == payload.len(),
        forall|i: int|
            0 <= i < at ==> splice(s, at, record_bytes(channel, address, payload))[i] == s[i],
{
    let record = record_bytes(channel, address, payload);
    let t = splice(s, at, record);
    let length = u32_le(payload.len() as u32);
    assert(record.len() == 15 + payload.len());
    assert(t[at + 11] == record[11] && record[11] == length[0]);
    assert(t[at + 12] == record[12] && record[12] == length[1]);
    assert(t[at + 13] == record[13] && record[13] == length[2]);
    assert(t[at + 14] == record[14] && record[14] == length[3]);
    assert(splice(t, at + 11, length) =~= t);
    lemma_u32_round_trip(t, at + 11, payload.len() as u32);
}

/// The address held in the ten bytes from `s[i]` on.
pub open spec fn address_at(s: Seq<u8>, i: int) -> NetworkAddress {
    NetworkAddress {
        a: u16_at(s, i),
        b: u16_at(s, i + 2),
        c: u16_at(s, i + 4),
        d: u16_at(s, i + 6),
        port: u16_at(s, i + 8) as u32,
    }
}

/// Writes and reads a stream of records, each a payload behind its channel,
/// its peer address and its length.
pub struct LengthPrefixed {
    pub writer: IntBuffer,
}

impl Default for LengthPrefixed {
    fn default() -> (r: Self)
        ensures
            r.writer.index == 0,
    {
        LengthPrefixed { writer: IntBuffer { index: 0 } }
    }
}

impl LengthPrefixed {
    /// Appends one record at the cursor.
    pub fn write(&mut self, channel: u8, address: NetworkAddress, data: &[u8], out: &mut [u8])
        requires
            old(self).writer.index + 15 + data@.len() <= old(out)@.len(),
            data@.len() <= u32::MAX,
        ensures
            final(self).writer.index == old(self).writer.index + 15 + data@.len(),
            final(out)@ == splice(
                old(out)@,
                old(self).writer.index as int,
                record_bytes(channel, address, data@),
            ),
    {
        let ghost start = self.writer.index as int;
        let ghost s0 = out@;
        let out_len = out.len();
        self.writer.write_u8(channel, out);
        self.writer.write_u16(address.a, out);
        self.writer.write_u16(address.b, out);
        self.writer.write_u16(address.c, out);
        self.writer.write_u16(address.d, out);
        self.writer.write_u16((address.port % 65536) as u16, out);
        self.writer.write_u32(data.len() as u32, out);
        copy_bytes(out, self.writer.index, data, 0, data.len());
        self.writer.index = self.writer.index + data.len();
        proof {
            assert(data@.subrange(0, data@.len() as int) =~= data@);
            assert(out@ =~= splice(s0, start, record_bytes(channel, address, data@)));
        }
    }

    /// Reads the record at the cursor: its channel, its address and where its
    /// payload lies. `None`, with the cursor unmoved, where the buffer ends
    /// before the record does.
    pub fn read(
        &mut self,
        buffer: &[u8],
    ) -> (r: Option<(u8, NetworkAddress, std::ops::Range<usize>)>)
        ensures
            match r {
                Some((channel, address, range)) => {
                    let at = old(self).writer.index as int;
                    &&& at + 15 + u32_at(buffer@, at + 11) <= buffer@.len()
                    &&& channel == buffer@[at]
                    &&& address == address_at(buffer@, at + 1)
                    &&& range.start == at + 15
                    &&& range.end == at + 15 + u32_at(buffer@, at + 11)
                    &&& final(self).writer.index == range.end
                },
                None => {
                    let at = old(self).writer.index as int;
                    &&& final(self).writer.index == old(self).writer.index
                    &&& (at + 15 > buffer@.len() || at + 15 + u32_at(buffer@, at + 11)
                        > buffer@.len())
                },
            },
    {
        let at = self.writer.index;
        if buffer.len() < 15 || at > buffer.len() - 15 {
            return None;
        }
        let channel = self.writer.read_u8(buffer);
        let a = self.writer.read_u16(buffer);
        let b = self.writer.read_u16(buffer);
        let c = self.writer.read_u16(buffer);
        let d = self.writer.read_u16(buffer);
        let port = self.writer.read_u16(buffer);
        let length = self.writer.read_u32(buffer) as usize;
        let start = self.writer.index;
        if length > buffer.len() - start {
            self.writer.index = at;
            return None;
        }
        self.writer.index = start + length;
        Some((channel, NetworkAddress { a, b, c, d, port: port as u32 }, start..start + length))
    }
}

} // verus!
