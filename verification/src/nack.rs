//! Negative acknowledgements: a start sequence and a bitfield naming up to 32
//! sequences before it, with their three wire forms.

use crate::int_buffer::{lemma_splice_append, splice, u16_at, u16_le, u32_at, u32_le, IntBuffer};
use crate::sequence::{lemma_back_distinct, seq_back, Sequence};
use std::io::Cursor;
use varuint::{ReadVarint, WriteVarint};
use vstd::prelude::*;

verus! {

#[derive(Clone, Copy, Debug, PartialEq, Eq, Structural)]
pub struct Nack {
    pub start_sequence: u16,
    pub flags: u32,
    pub nacked_count: u32,
    pub sent_count: u32,
}

impl Default for Nack {
    fn default() -> (r: Self)
        ensures
            r == (Nack { start_sequence: 0, flags: 0, nacked_count: 0, sent_count: 0 }),
    {
        Nack { start_sequence: 0, flags: 0, nacked_count: 0, sent_count: 0 }
    }
}

/// A NACK as it comes off the wire: start and flags, the counters zero.
pub open spec fn wire_nack(start_sequence: u16, flags: u32) -> Nack {
    Nack { start_sequence, flags, nacked_count: 0, sent_count: 0 }
}

/// Bit `i` of `flags` is set.
pub open spec fn flag_set(flags: u32, i: int) -> bool {
    flags & (1u32 << (i as u32)) == (1u32 << (i as u32))
}

/// The sequences named by the first `n` bits of `flags`: bit `i` stands for
/// the sequence `i + 1` steps before `start`.
pub open spec fn flagged_sequences(start: u16, flags: u32, n: nat) -> Seq<u16>
    decreases n,
{
    if n == 0 {
        Seq::empty()
    } else {
        let rest = flagged_sequences(start, flags, (n - 1) as nat);
        if flag_set(flags, n - 1) {
            rest.push(seq_back(start, n))
        } else {
            rest
        }
    }
}

/// Every sequence a NACK reports missing: its start, then the flagged ones.
pub open spec fn nacked_sequences(nack: Nack) -> Seq<u16> {
    seq![nack.start_sequence] + flagged_sequences(nack.start_sequence, nack.flags, 32)
}

/// The sequences that a list of NACKs reports, one NACK after another.
pub open spec fn all_nacked(nacks: Seq<Nack>) -> Seq<u16>
    decreases nacks.len(),
{
    if nacks.len() == 0 {
        Seq::empty()
    } else {
        nacked_sequences(nacks[0]) + all_nacked(nacks.skip(1))
    }
}

/// The sequence that bit `i` of a NACK starting at `start` stands for.
pub open spec fn flag_sequence(start: u16, i: int) -> u16 {
    seq_back(start, (i + 1) as nat)
}

/// The bit that stands for `sequence` in a NACK starting at `start`, if it is
/// one of the 32 sequences before `start`.
pub open spec fn flag_index(start: u16, sequence: u16) -> Option<int> {
    if exists|i: int| 0 <= i < 32 && #[trigger] flag_sequence(start, i) == sequence {
        Some(choose|i: int| 0 <= i < 32 && #[trigger] flag_sequence(start, i) == sequence)
    } else {
        None
    }
}

/// At most one bit stands for a sequence.
pub proof fn lemma_flag_index_unique(start: u16, sequence: u16, i: int)
    requires
        0 <= i < 32,
        flag_sequence(start, i) == sequence,
    ensures
        flag_index(start, sequence) == Some(i),
{
    let j = choose|j: int| 0 <= j < 32 && #[trigger] flag_sequence(start, j) == sequence;
    if j < i {
        lemma_back_distinct(start, (j + 1) as nat, (i + 1) as nat);
    } else if i < j {
        lemma_back_distinct(start, (i + 1) as nat, (j + 1) as nat);
    }
}

/// The sequences reported by the one NACK that rides in a reliable frame at
/// `s[at]`: none where `s` ends before the NACK does.
pub open spec fn single_nack_at(s: Seq<u8>, at: int) -> Seq<u16> {
    if 0 <= at && at + 6 <= s.len() {
        nacked_sequences(wire_nack(u16_at(s, at), u32_at(s, at + 2)))
    } else {
        Seq::empty()
    }
}

/// The six bytes of one NACK in the fixed-width forms.
pub open spec fn single_nack_bytes(nack: Nack) -> Seq<u8> {
    u16_le(nack.start_sequence) + u32_le(nack.flags)
}

/// The entries of a fixed-width NACK list, six bytes each.
pub open spec fn fixed_entries_bytes(nacks: Seq<Nack>) -> Seq<u8>
    decreases nacks.len(),
{
    if nacks.len() == 0 {
        Seq::empty()
    } else {
        fixed_entries_bytes(nacks.drop_last()) + single_nack_bytes(nacks.last())
    }
}

/// A fixed-width NACK list: one byte of count, then the entries.
pub open spec fn fixed_nacks_bytes(nacks: Seq<Nack>) -> Seq<u8> {
    seq![(nacks.len() % 256) as u8] + fixed_entries_bytes(nacks)
}

/// Up to `count` fixed-width entries read from `s[at]` on, as many as lie
/// whole inside `s`.
pub open spec fn fixed_entries_at(s: Seq<u8>, at: int, count: nat) -> Seq<Nack>
    decreases count,
{
    if count == 0 || at < 0 || at + 6 > s.len() {
        Seq::empty()
    } else {
        seq![wire_nack(u16_at(s, at), u32_at(s, at + 2))] + fixed_entries_at(
            s,
            at + 6,
            (count - 1) as nat,
        )
    }
}

/// The fixed-width NACK list at `s[at]`: empty where `at` is outside `s`.
pub open spec fn fixed_nacks_at(s: Seq<u8>, at: int) -> Seq<Nack> {
    if 0 <= at < s.len() {
        fixed_entries_at(s, at + 1, s[at] as nat)
    } else {
        Seq::empty()
    }
}

/// How many bytes the variable-length form of `v` takes.
pub open spec fn varint_len(v: u32) -> nat {
    if v <= 240 {
        1
    } else if v <= 2031 {
        2
    } else if v <= 67567 {
        3
    } else if v <= 16777215 {
        4
    } else {
        5
    }
}

/// The variable-length form of an unsigned integer of up to 32 bits: the
/// first byte tells how many follow.
pub open spec fn varint_bytes(v: u32) -> Seq<u8> {
    if v <= 240 {
        seq![v as u8]
    } else if v <= 2031 {
        seq![((v - 240) / 256 + 241) as u8, ((v - 240) % 256) as u8]
    } else if v <= 67567 {
        seq![248u8, ((v - 2032) / 256) as u8, ((v - 2032) % 256) as u8]
    } else if v <= 16777215 {
        seq![249u8, (v % 256) as u8, ((v / 256) % 256) as u8, (v / 65536) as u8]
    } else {
        seq![250u8] + u32_le(v)
    }
}

/// The variable-length integer at `s[at]` and the index behind it, or `None`
/// where the first byte is over 250 or `s` ends too early.
pub open spec fn varint_at(s: Seq<u8>, at: int) -> Option<(u32, int)> {
    if at < 0 || at >= s.len() {
        None
    } else if s[at] <= 240 {
        Some((s[at] as u32, at + 1))
    } else if s[at] <= 247 {
        if at + 2 <= s.len() {
            Some(((240 + 256 * (s[at] - 241) + s[at + 1]) as u32, at + 2))
        } else {
            None
        }
    } else if s[at] == 248 {
        if at + 3 <= s.len() {
            Some(((2032 + 256 * s[at + 1] + s[at + 2]) as u32, at + 3))
        } else {
            None
        }
    } else if s[at] == 249 {
        if at + 4 <= s.len() {
            Some(((s[at + 1] + 256 * s[at + 2] + 65536 * s[at + 3]) as u32, at + 4))
        } else {
            None
        }
    } else if s[at] == 250 {
        if at + 5 <= s.len() {
            Some((u32_at(s, at + 1), at + 5))
        } else {
            None
        }
    } else {
        None
    }
}

/// The entries of a variable-length NACK list.
pub open spec fn varint_entries_bytes(nacks: Seq<Nack>) -> Seq<u8>
    decreases nacks.len(),
{
    if nacks.len() == 0 {
        Seq::empty()
    } else {
        varint_entries_bytes(nacks.drop_last()) + varint_bytes(nacks.last().start_sequence as u32)
            + varint_bytes(nacks.last().flags)
    }
}

/// A variable-length NACK list: the count as a 16-bit integer, then for each
/// NACK its start and its flags.
pub open spec fn varint_nacks_bytes(nacks: Seq<Nack>) -> Seq<u8> {
    varint_bytes((nacks.len() % 65536) as u32) + varint_entries_bytes(nacks)
}

/// Up to `count` variable-length entries read from `s[at]` on. Reading stops
/// at the first entry that does not decode or whose start is no 16-bit value.
pub open spec fn varint_entries_at(s: Seq<u8>, at: int, count: nat) -> Seq<Nack>
    decreases count,
{
    if count == 0 {
        Seq::empty()
    } else {
        match varint_at(s, at) {
            Some((start, behind_start)) => if start > 65535 {
                Seq::empty()
            } else {
                match varint_at(s, behind_start) {
                    Some((flags, behind_flags)) => seq![wire_nack(start as u16, flags)]
                        + varint_entries_at(s, behind_flags, (count - 1) as nat),
                    None => Seq::empty(),
                }
            },
            None => Seq::empty(),
        }
    }
}

/// The variable-length NACK list at `s[at]`: empty where no count decodes.
pub open spec fn varint_nacks_at(s: Seq<u8>, at: int) -> Seq<Nack> {
    match varint_at(s, at) {
        Some((count, behind)) => varint_entries_at(s, behind, count as nat),
        None => Seq::empty(),
    }
}

/// Writes `v` at `data[position]` in variable-length form and returns the
/// index behind it.
///
/// Calls `varuint::WriteVarint::<u16>::write_varint` on a `std::io::Cursor`
/// over `data`. The contract restates the crate's encoding rules for values
/// up to 65535: one byte up to 240, two up to 2031, else 248 and two bytes.
/// The caller has to leave room, so the write cannot fail.
#[verifier::external_body]
fn write_varint_u16(data: &mut [u8], position: usize, v: u16) -> (r: usize)
    requires
        position + varint_len(v as u32) <= old(data)@.len(),
    ensures
        r == position + varint_len(v as u32),
        final(data)@ == splice(old(data)@, position as int, varint_bytes(v as u32)),
{
    let mut cursor = Cursor::new(data);
    cursor.set_position(position as u64);
    let _ = cursor.write_varint(v);
    cursor.position() as usize
}

/// Writes `v` at `data[position]` in variable-length form and returns the
/// index behind it.
///
/// Calls `varuint::WriteVarint::<u32>::write_varint` on a `std::io::Cursor`
/// over `data`. The contract restates the crate's encoding rules for 32-bit
/// values: as for 16 bits, then 249 and three bytes up to 16777215, else 250
/// and four bytes, low byte first. The caller has to leave room, so the write
/// cannot fail.
#[verifier::external_body]
fn write_varint_u32(data: &mut [u8], position: usize, v: u32) -> (r: usize)
    requires
        position + varint_len(v) <= old(data)@.len(),
    ensures
        r == position + varint_len(v),
        final(data)@ == splice(old(data)@, position as int, varint_bytes(v)),
{
    let mut cursor = Cursor::new(data);
    cursor.set_position(position as u64);
    let _ = cursor.write_varint(v);
    cursor.position() as usize
}

/// Reads the variable-length integer at `data[position]`: its value and the
/// index behind it.
///
/// Calls `varuint::ReadVarint::<u32>::read_varint` on a `std::io::Cursor`
/// over `data`. The contract restates what that function accepts: a first
/// byte up to 250 with all the bytes it announces present. Any other input
/// makes it return an error, which comes back as `None`.
#[verifier::external_body]
fn read_varint_u32(data: &[u8], position: usize) -> (r: Option<(u32, usize)>)
    ensures
        match r {
            Some((v, behind)) => varint_at(data@, position as int) == Some((v, behind as int)),
            None => varint_at(data@, position as int) is None,
        },
{
    let mut cursor = Cursor::new(data);
    cursor.set_position(position as u64);
    match ReadVarint::<u32>::read_varint(&mut cursor) {
        Ok(v) => Some((v, cursor.position() as usize)),
        Err(_) => None,
    }
}

/// How many bytes `v` takes in variable-length form.
pub fn varint_size(v: u32) -> (r: usize)
    ensures
        r == varint_len(v),
        r == varint_bytes(v).len(),
        1 <= r <= 5,
{
    if v <= 240 {
        1
    } else if v <= 2031 {
        2
    } else if v <= 67567 {
        3
    } else if v <= 16777215 {
        4
    } else {
        5
    }
}

/// A variable-length integer that was written can be read back.
pub proof fn lemma_varint_round_trip(s: Seq<u8>, at: int, v: u32)
    requires
        0 <= at,
        at + varint_len(v) <= s.len(),
    ensures
        varint_bytes(v).len() == varint_len(v),
        varint_at(splice(s, at, varint_bytes(v)), at) == Some((v, at + varint_len(v))),
{
    let t = splice(s, at, varint_bytes(v));
    if v > 16777215 {
        assert(t[at + 1] == u32_le(v)[0]);
        assert(t[at + 2] == u32_le(v)[1]);
        assert(t[at + 3] == u32_le(v)[2]);
        assert(t[at + 4] == u32_le(v)[3]);
    }
}

impl Nack {
    /// Writes a list of NACKs in fixed-width form, with a one-byte count, and
    /// returns the index behind it. An empty list writes nothing and returns 0.
    pub fn write(nacks: &[Self], data: &mut [u8], position: u64) -> (r: u64)
        requires
            nacks@.len() > 0 ==> position + 1 + 6 * nacks@.len() <= old(data)@.len(),
        ensures
            nacks@.len() == 0 ==> r == 0 && final(data)@ == old(data)@,
            nacks@.len() > 0 ==> r == position + 1 + 6 * nacks@.len() && final(data)@ == splice(
                old(data)@,
                position as int,
                fixed_nacks_bytes(nacks@),
            ),
    {
        if nacks.len() == 0 {
            return 0;
        }
        let data_len = data.len();
        let mut buffer = IntBuffer { index: position as usize };
        buffer.write_u8((nacks.len() % 256) as u8, data);
        let mut i: usize = 0;
        proof {
            assert(nacks@.subrange(0, 0) =~= Seq::<Nack>::empty());
            assert(fixed_entries_bytes(Seq::<Nack>::empty()) =~= Seq::<u8>::empty());
            assert(data@ =~= splice(
                old(data)@,
                position as int,
                seq![(nacks@.len() % 256) as u8] + fixed_entries_bytes(nacks@.subrange(0, 0)),
            ));
        }
        while i < nacks.len()
            invariant
                i <= nacks@.len(),
                data_len == data@.len(),
                data@.len() == old(data)@.len(),
                position + 1 + 6 * nacks@.len() <= data@.len(),
                buffer.index == position + 1 + 6 * i,
                fixed_entries_bytes(nacks@.subrange(0, i as int)).len() == 6 * i,
                data@ == splice(
                    old(data)@,
                    position as int,
                    seq![(nacks@.len() % 256) as u8] + fixed_entries_bytes(
                        nacks@.subrange(0, i as int),
                    ),
                ),
            decreases nacks@.len() - i,
        {
            let nack = nacks[i];
            buffer.write_u16(nack.start_sequence, data);
            buffer.write_u32(nack.flags, data);
            proof {
                let done = nacks@.subrange(0, i as int);
                let more = nacks@.subrange(0, i + 1);
                assert(more.drop_last() =~= done);
                assert(more.last() == nack);
                assert(fixed_entries_bytes(more) == fixed_entries_bytes(done) + single_nack_bytes(
                    nack,
                ));
                assert(data@ =~= splice(
                    old(data)@,
                    position as int,
                    seq![(nacks@.len() % 256) as u8] + fixed_entries_bytes(more),
                ));
            }
            i = i + 1;
        }
        assert(nacks@.subrange(0, nacks@.len() as int) =~= nacks@);
        buffer.index as u64
    }

    /// Reads the one NACK that rides in a reliable frame and appends the
    /// sequences it reports: its start, then the flagged ones. Nothing is
    /// appended where the bytes end before the NACK does.
    pub fn read_single(sequences: &mut Vec<u16>, data: &[u8], position: usize)
        ensures
            final(sequences)@ == old(sequences)@ + single_nack_at(data@, position as int),
    {
        if data.len() < 6 || position > data.len() - 6 {
            assert(sequences@ =~= old(sequences)@ + Seq::<u16>::empty());
            return ;
        }
        let mut buffer = IntBuffer { index: position };
        let start_sequence = buffer.read_u16(data);
        let flags = buffer.read_u32(data);
        let nack = Nack { start_sequence, flags, nacked_count: 0, sent_count: 0 };
        nack.get_nacked(sequences);
    }

    /// Writes one NACK in fixed-width form and returns the index behind it.
    pub fn write_single(nack: &Self, data: &mut [u8], position: usize) -> (r: usize)
        requires
            position + 6 <= old(data)@.len(),
        ensures
            r == position + 6,
            final(data)@ == splice(old(data)@, position as int, single_nack_bytes(*nack)),
    {
        let data_len = data.len();
        let mut buffer = IntBuffer { index: position };
        buffer.write_u16(nack.start_sequence, data);
        buffer.write_u32(nack.flags, data);
        assert(data@ =~= splice(old(data)@, position as int, single_nack_bytes(*nack)));
        buffer.index
    }

    /// How many bytes `write_varint` takes for these NACKs.
    pub fn varint_size(nacks: &[Self]) -> (r: usize)
        requires
            nacks@.len() <= 0x1000_0000,
        ensures
            r == varint_nacks_bytes(nacks@).len(),
            r <= 3 + 8 * nacks@.len(),
    {
        let mut total: usize = varint_size((nacks.len() % 65536) as u32);
        let mut i: usize = 0;
        assert(nacks@.subrange(0, 0) =~= Seq::<Nack>::empty());
        while i < nacks.len()
            invariant
                i <= nacks@.len(),
                nacks@.len() <= 0x1000_0000,
                total == varint_len((nacks@.len() % 65536) as u32) + varint_entries_bytes(
                    nacks@.subrange(0, i as int),
                ).len(),
                total <= 3 + 8 * i,
            decreases nacks@.len() - i,
        {
            let nack = nacks[i];
            proof {
                let done = nacks@.subrange(0, i as int);
                let more = nacks@.subrange(0, i + 1);
                assert(more.drop_last() =~= done);
                assert(more.last() == nack);
            }
            total = total + varint_size(nack.start_sequence as u32) + varint_size(nack.flags);
            i = i + 1;
        }
        assert(nacks@.subrange(0, nacks@.len() as int) =~= nacks@);
        total
    }

    /// Writes a list of NACKs in variable-length form and returns the index
    /// behind it. An empty list writes nothing and returns 0.
    pub fn write_varint(nacks: &[Self], data: &mut [u8], position: u64) -> (r: u64)
        requires
            nacks@.len() > 0 ==> position + varint_nacks_bytes(nacks@).len() <= old(data)@.len(),
        ensures
            nacks@.len() == 0 ==> r == 0 && final(data)@ == old(data)@,
            nacks@.len() > 0 ==> r == position + varint_nacks_bytes(nacks@).len() && final(data)@
                == splice(old(data)@, position as int, varint_nacks_bytes(nacks@)),
    {
        if nacks.len() == 0 {
            return 0;
        }
        let data_len = data.len();
        let count = (nacks.len() % 65536) as u16;
        proof {
            lemma_varint_entries_len(nacks@, 0);
        }
        let mut at = write_varint_u16(data, position as usize, count);
        let mut i: usize = 0;
        proof {
            assert(nacks@.subrange(0, 0) =~= Seq::<Nack>::empty());
            assert(data@ =~= splice(
                old(data)@,
                position as int,
                varint_bytes(count as u32) + varint_entries_bytes(nacks@.subrange(0, 0)),
            ));
        }
        while i < nacks.len()
            invariant
                i <= nacks@.len(),
                data_len == data@.len(),
                data@.len() == old(data)@.len(),
                count == nacks@.len() % 65536,
                position + varint_nacks_bytes(nacks@).len() <= data@.len(),
                at == position + varint_len(count as u32) + varint_entries_bytes(
                    nacks@.subrange(0, i as int),
                ).len(),
                data@ == splice(
                    old(data)@,
                    position as int,
                    varint_bytes(count as u32)
                        + varint_entries_bytes(nacks@.subrange(0, i as int)),
                ),
            decreases nacks@.len() - i,
        {
            let nack = nacks[i];
            proof {
                let done = nacks@.subrange(0, i as int);
                let more = nacks@.subrange(0, i + 1);
                assert(more.drop_last() =~= done);
                assert(more.last() == nack);
                lemma_varint_entries_len(nacks@, i + 1);
            }
            let ghost prefix = varint_bytes(count as u32) + varint_entries_bytes(
                nacks@.subrange(0, i as int),
            );
            let ghost x = varint_bytes(nack.start_sequence as u32);
            let ghost y = varint_bytes(nack.flags);
            proof {
                lemma_varint_round_trip(data@, at as int, nack.start_sequence as u32);
                assert(varint_bytes(count as u32).len() == varint_len(count as u32));
                assert(y.len() == varint_len(nack.flags));
            }
            at = write_varint_u16(data, at, nack.start_sequence);
            at = write_varint_u32(data, at, nack.flags);
            proof {
                let more = nacks@.subrange(0, i + 1);
                lemma_splice_append(old(data)@, position as int, prefix, x);
                lemma_splice_append(old(data)@, position as int, prefix + x, y);
                assert(varint_bytes(count as u32) + varint_entries_bytes(more) =~= (prefix + x)
                    + y);
            }
            i = i + 1;
        }
        assert(nacks@.subrange(0, nacks@.len() as int) =~= nacks@);
        at as u64
    }

    /// Reads a list of NACKs in variable-length form and appends the sequences
    /// they report. Reading stops, without fault, where the bytes end or do
    /// not decode.
    pub fn read_varint(sequences: &mut Vec<u16>, data: &[u8], position: usize)
        ensures
            final(sequences)@ == old(sequences)@ + all_nacked(
                varint_nacks_at(data@, position as int),
            ),
    {
        let (count, first) = match read_varint_u32(data, position) {
            Some(r) => r,
            None => {
                assert(sequences@ =~= old(sequences)@ + all_nacked(Seq::<Nack>::empty()));
                return ;
            },
        };
        let mut at = first;
        let mut i: u32 = 0;
        assert(sequences@ =~= old(sequences)@ + Seq::<u16>::empty());
        let ghost mut done: Seq<u16> = Seq::empty();
        while i < count
            invariant
                i <= count,
                sequences@ == old(sequences)@ + done,
                all_nacked(varint_nacks_at(data@, position as int)) == done + all_nacked(
                    varint_entries_at(data@, at as int, (count - i) as nat),
                ),
            decreases count - i,
        {
            let (start, behind_start) = match read_varint_u32(data, at) {
                Some(r) => r,
                None => {
                    assert(done + Seq::<u16>::empty() =~= done);
                    return ;
                },
            };
            if start > 65535 {
                assert(done + Seq::<u16>::empty() =~= done);
                return ;
            }
            let (flags, behind_flags) = match read_varint_u32(data, behind_start) {
                Some(r) => r,
                None => {
                    assert(done + Seq::<u16>::empty() =~= done);
                    return ;
                },
            };
            let nack = Nack { start_sequence: start as u16, flags, nacked_count: 0, sent_count: 0 };
            proof {
                let rest = varint_entries_at(data@, behind_flags as int, (count - i - 1) as nat);
                let here = varint_entries_at(data@, at as int, (count - i) as nat);
                assert(here == seq![nack] + rest);
                assert(here[0] == nack);
                assert(here.skip(1) =~= rest);
                assert(done + (nacked_sequences(nack) + all_nacked(rest)) =~= (done
                    + nacked_sequences(nack)) + all_nacked(rest));
                assert(sequences@ + nacked_sequences(nack) =~= old(sequences)@ + (done
                    + nacked_sequences(nack)));
                done = done + nacked_sequences(nack);
            }
            nack.get_nacked(sequences);
            at = behind_flags;
            i = i + 1;
        }
        assert(done + Seq::<u16>::empty() =~= done);
    }

    /// Reads a list of NACKs in fixed-width form and appends the sequences
    /// they report. Entries that do not lie whole inside `data` are not read.
    pub fn read(sequences: &mut Vec<u16>, data: &[u8], position: u64)
        ensures
            final(sequences)@ == old(sequences)@ + all_nacked(
                fixed_nacks_at(data@, position as int),
            ),
    {
        if position >= data.len() as u64 {
            assert(sequences@ =~= old(sequences)@ + all_nacked(Seq::<Nack>::empty()));
            return ;
        }
        let mut buffer = IntBuffer { index: position as usize };
        let count = buffer.read_u8(data);
        let mut i: u8 = 0;
        assert(sequences@ =~= old(sequences)@ + Seq::<u16>::empty());
        let ghost mut done: Seq<u16> = Seq::empty();
        while i < count
            invariant
                i <= count,
                buffer.index <= data@.len(),
                sequences@ == old(sequences)@ + done,
                all_nacked(fixed_nacks_at(data@, position as int)) == done + all_nacked(
                    fixed_entries_at(data@, buffer.index as int, (count - i) as nat),
                ),
            decreases count - i,
        {
            if data.len() - buffer.index < 6 {
                assert(done + Seq::<u16>::empty() =~= done);
                return ;
            }
            let ghost at = buffer.index as int;
            let start_sequence = buffer.read_u16(data);
            let flags = buffer.read_u32(data);
            let nack = Nack { start_sequence, flags, nacked_count: 0, sent_count: 0 };
            proof {
                let rest = fixed_entries_at(data@, at + 6, (count - i - 1) as nat);
                let here = fixed_entries_at(data@, at, (count - i) as nat);
                assert(here == seq![nack] + rest);
                assert(here[0] == nack);
                assert(here.skip(1) =~= rest);
                assert(done + (nacked_sequences(nack) + all_nacked(rest)) =~= (done
                    + nacked_sequences(nack)) + all_nacked(rest));
                assert(sequences@ + nacked_sequences(nack) =~= old(sequences)@ + (done
                    + nacked_sequences(nack)));
                done = done + nacked_sequences(nack);
            }
            nack.get_nacked(sequences);
            i = i + 1;
        }
        assert(done + Seq::<u16>::empty() =~= done);
    }

    /// Appends every sequence this NACK reports: its start, then the flagged
    /// ones from the nearest back.
    pub fn get_nacked(&self, sequences: &mut Vec<u16>)
        ensures
            final(sequences)@ == old(sequences)@ + nacked_sequences(*self),
    {
        sequences.push(self.start_sequence);
        self.get_flagged(sequences);
        assert(sequences@ =~= old(sequences)@ + nacked_sequences(*self));
    }

    /// Appends the flagged sequences, from the nearest back.
    pub fn get_flagged(&self, sequences: &mut Vec<u16>)
        ensures
            final(sequences)@ == old(sequences)@ + flagged_sequences(
                self.start_sequence,
                self.flags,
                32,
            ),
    {
        let mut seq = Sequence::previous_sequence(self.start_sequence);
        let mut i: i32 = 0;
        assert(seq == seq_back(self.start_sequence, 1)) by {
            reveal_with_fuel(seq_back, 2);
        }
        assert(sequences@ =~= old(sequences)@ + flagged_sequences(
            self.start_sequence,
            self.flags,
            0,
        ));
        while i < 32
            invariant
                0 <= i <= 32,
                seq == seq_back(self.start_sequence, (i + 1) as nat),
                sequences@ == old(sequences)@ + flagged_sequences(
                    self.start_sequence,
                    self.flags,
                    i as nat,
                ),
            decreases 32 - i,
        {
            if self.get_bits(i) {
                sequences.push(seq);
            }
            assert(sequences@ =~= old(sequences)@ + flagged_sequences(
                self.start_sequence,
                self.flags,
                (i + 1) as nat,
            ));
            seq = Sequence::previous_sequence(seq);
            i = i + 1;
        }
    }

    #[must_use]
    pub fn is_nacked(&self, sequence: u16) -> (r: bool)
        ensures
            r == (self.start_sequence == sequence || match flag_index(
                self.start_sequence,
                sequence,
            ) {
                Some(i) => flag_set(self.flags, i),
                None => false,
            }),
    {
        self.start_sequence == sequence || self.is_flagged(sequence)
    }

    /// Whether `sequence` is one of the 32 before the start and its bit is set.
    #[must_use]
    pub fn is_flagged(&self, sequence: u16) -> (r: bool)
        ensures
            r == (match flag_index(self.start_sequence, sequence) {
                Some(i) => flag_set(self.flags, i),
                None => false,
            }),
    {
        let mut seq = Sequence::previous_sequence(self.start_sequence);
        let mut i: i32 = 0;
        assert(seq == seq_back(self.start_sequence, 1)) by {
            reveal_with_fuel(seq_back, 2);
        }
        while i < 32
            invariant
                0 <= i <= 32,
                seq == seq_back(self.start_sequence, (i + 1) as nat),
                forall|j: int|
                    0 <= j < i ==> #[trigger] flag_sequence(self.start_sequence, j) != sequence,
            decreases 32 - i,
        {
            if seq == sequence {
                proof {
                    lemma_flag_index_unique(self.start_sequence, sequence, i as int);
                }
                return self.get_bits(i);
            }
            seq = Sequence::previous_sequence(seq);
            i = i + 1;
        }
        false
    }

    /// Sets the bit that stands for `sequence`, if it is one of the 32 before
    /// the start; otherwise changes nothing.
    pub fn set_flagged(&mut self, sequence: u16)
        ensures
            *final(self) == (Nack {
                flags: match flag_index(old(self).start_sequence, sequence) {
                    Some(i) => old(self).flags | (1u32 << (i as u32)),
                    None => old(self).flags,
                },
                ..*old(self)
            }),
    {
        let mut seq = Sequence::previous_sequence(self.start_sequence);
        let mut i: i32 = 0;
        assert(seq == seq_back(self.start_sequence, 1)) by {
            reveal_with_fuel(seq_back, 2);
        }
        while i < 32
            invariant
                0 <= i <= 32,
                *self == *old(self),
                seq == seq_back(self.start_sequence, (i + 1) as nat),
                forall|j: int|
                    0 <= j < i ==> #[trigger] flag_sequence(self.start_sequence, j) != sequence,
            decreases 32 - i,
        {
            if seq == sequence {
                proof {
                    lemma_flag_index_unique(self.start_sequence, sequence, i as int);
                }
                self.set_bits(i, true);
                return ;
            }
            seq = Sequence::previous_sequence(seq);
            i = i + 1;
        }
    }

    #[must_use]
    pub fn get_bits(&self, index: i32) -> (r: bool)
        requires
            0 <= index < 32,
        ensures
            r == flag_set(self.flags, index as int),
    {
        let mask: u32 = 1u32 << (index as u32);
        (self.flags & mask) == mask
    }

    pub fn set_bits(&mut self, index: i32, value: bool)
        requires
            0 <= index < 32,
        ensures
            *final(self) == (Nack {
                flags: if value {
                    old(self).flags | (1u32 << (index as u32))
                } else {
                    old(self).flags & !(1u32 << (index as u32))
                },
                ..*old(self)
            }),
    {
        let mask: u32 = 1u32 << (index as u32);
        if value {
            self.flags = self.flags | mask;
        } else {
            self.flags = self.flags & !mask;
        }
    }
}

/// Reading the one NACK of a reliable frame where one was written yields
/// the sequences that the NACK reports, whatever its start and its flags.
pub proof fn lemma_single_nack_round_trip(s: Seq<u8>, at: int, nack: Nack)
    requires
        0 <= at,
        at + 6 <= s.len(),
    ensures
        u16_at(splice(s, at, single_nack_bytes(nack)), at) == nack.start_sequence,
        u32_at(splice(s, at, single_nack_bytes(nack)), at + 2) == nack.flags,
        single_nack_at(splice(s, at, single_nack_bytes(nack)), at) == nacked_sequences(nack),
{
    let t = splice(s, at, single_nack_bytes(nack));
    assert(t[at] == u16_le(nack.start_sequence)[0]);
    assert(t[at + 1] == u16_le(nack.start_sequence)[1]);
    assert(t[at + 2] == u32_le(nack.flags)[0]);
    assert(t[at + 3] == u32_le(nack.flags)[1]);
    assert(t[at + 4] == u32_le(nack.flags)[2]);
    assert(t[at + 5] == u32_le(nack.flags)[3]);
}

/// The variable-length integer that lies at `s[at]` byte for byte is read
/// from there.
pub proof fn lemma_varint_read_back(s: Seq<u8>, at: int, v: u32)
    requires
        0 <= at,
        at + varint_len(v) <= s.len(),
        forall|i: int| 0 <= i < varint_len(v) ==> s[at + i] == #[trigger] varint_bytes(v)[i],
    ensures
        varint_bytes(v).len() == varint_len(v),
        varint_at(s, at) == Some((v, at + varint_len(v))),
{
    let b = varint_bytes(v);
    assert(s[at] == b[0]);
    if v > 240 {
        assert(s[at + 1] == b[1]);
    }
    if v > 2031 {
        assert(s[at + 2] == b[2]);
    }
    if v > 67567 {
        assert(s[at + 3] == b[3]);
    }
    if v > 16777215 {
        assert(s[at + 4] == b[4]);
        assert(b[1] == u32_le(v)[0]);
        assert(b[2] == u32_le(v)[1]);
        assert(b[3] == u32_le(v)[2]);
        assert(b[4] == u32_le(v)[3]);
    }
}

/// The NACKs of a list as they come off the wire: starts and flags, the
/// counters zero.
pub open spec fn wire_nacks(nacks: Seq<Nack>) -> Seq<Nack> {
    Seq::new(nacks.len(), |i: int| wire_nack(nacks[i].start_sequence, nacks[i].flags))
}

/// The entries of a list are the first entry and then those of the rest.
pub proof fn lemma_varint_entries_front(nacks: Seq<Nack>)
    requires
        nacks.len() > 0,
    ensures
        varint_entries_bytes(nacks) == varint_bytes(nacks[0].start_sequence as u32) + varint_bytes(
            nacks[0].flags,
        ) + varint_entries_bytes(nacks.skip(1)),
    decreases nacks.len(),
{
    if nacks.len() == 1 {
        assert(nacks.drop_last() =~= Seq::<Nack>::empty());
        assert(nacks.skip(1) =~= Seq::<Nack>::empty());
        assert(varint_entries_bytes(nacks) =~= varint_bytes(nacks[0].start_sequence as u32)
            + varint_bytes(nacks[0].flags) + varint_entries_bytes(nacks.skip(1)));
    } else {
        lemma_varint_entries_front(nacks.drop_last());
        assert(nacks.drop_last().skip(1) =~= nacks.skip(1).drop_last());
        assert(nacks.skip(1).last() == nacks.last());
        assert(nacks.drop_last()[0] == nacks[0]);
        assert(varint_entries_bytes(nacks) =~= varint_bytes(nacks[0].start_sequence as u32)
            + varint_bytes(nacks[0].flags) + varint_entries_bytes(nacks.skip(1)));
    }
}

/// The entries that lie at `s[at]` byte for byte are read from there.
pub proof fn lemma_varint_entries_read_back(s: Seq<u8>, at: int, nacks: Seq<Nack>)
    requires
        0 <= at,
        at + varint_entries_bytes(nacks).len() <= s.len(),
        forall|i: int|
            0 <= i < varint_entries_bytes(nacks).len() ==> s[at + i]
                == #[trigger] varint_entries_bytes(nacks)[i],
    ensures
        varint_entries_at(s, at, nacks.len()) == wire_nacks(nacks),
    decreases nacks.len(),
{
    if nacks.len() == 0 {
        assert(varint_entries_at(s, at, 0) =~= wire_nacks(nacks));
    } else {
        lemma_varint_entries_front(nacks);
        let first = nacks[0];
        let a = varint_bytes(first.start_sequence as u32);
        let b = varint_bytes(first.flags);
        let rest = varint_entries_bytes(nacks.skip(1));
        let all = varint_entries_bytes(nacks);
        assert(all == a + b + rest);
        assert(a.len() == varint_len(first.start_sequence as u32));
        assert(b.len() == varint_len(first.flags));
        assert forall|i: int| 0 <= i < a.len() implies s[at + i] == #[trigger] a[i] by {
            assert(all[i] == a[i]);
        }
        lemma_varint_read_back(s, at, first.start_sequence as u32);
        let p = at + a.len();
        assert forall|i: int| 0 <= i < b.len() implies s[p + i] == #[trigger] b[i] by {
            assert(all[a.len() + i] == b[i]);
            assert(s[at + (a.len() + i)] == all[a.len() + i]);
        }
        lemma_varint_read_back(s, p, first.flags);
        let q = p + b.len();
        assert forall|i: int| 0 <= i < rest.len() implies s[q + i] == #[trigger] rest[i] by {
            assert(all[a.len() + b.len() + i] == rest[i]);
            assert(s[at + (a.len() + b.len() + i)] == all[a.len() + b.len() + i]);
        }
        lemma_varint_entries_read_back(s, q, nacks.skip(1));
        assert(varint_entries_at(s, at, nacks.len()) == seq![
            wire_nack(first.start_sequence, first.flags),
        ] + varint_entries_at(s, q, (nacks.len() - 1) as nat));
        assert(varint_entries_at(s, at, nacks.len()) =~= wire_nacks(nacks));
    }
}

/// What NACKs report does not depend on their counters.
pub proof fn lemma_wire_nacks_report_the_same(nacks: Seq<Nack>)
    ensures
        all_nacked(wire_nacks(nacks)) == all_nacked(nacks),
    decreases nacks.len(),
{
    if nacks.len() > 0 {
        lemma_wire_nacks_report_the_same(nacks.skip(1));
        assert(wire_nacks(nacks).skip(1) =~= wire_nacks(nacks.skip(1)));
    }
}

/// Reading a list of NACKs where one of fewer than 65536 was written in
/// variable-length form yields the NACKs as they were written, and with them
/// the same sequences.
pub proof fn lemma_varint_nacks_round_trip(s: Seq<u8>, at: int, nacks: Seq<Nack>)
    requires
        0 <= at,
        nacks.len() < 65536,
        at + varint_nacks_bytes(nacks).len() <= s.len(),
    ensures
        varint_nacks_at(splice(s, at, varint_nacks_bytes(nacks)), at) == wire_nacks(nacks),
        all_nacked(varint_nacks_at(splice(s, at, varint_nacks_bytes(nacks)), at)) == all_nacked(
            nacks,
        ),
{
    let all = varint_nacks_bytes(nacks);
    let t = splice(s, at, all);
    let c = varint_bytes(nacks.len() as u32);
    let e = varint_entries_bytes(nacks);
    assert(all == c + e);
    assert(c.len() == varint_len(nacks.len() as u32));
    assert forall|i: int| 0 <= i < c.len() implies t[at + i] == #[trigger] c[i] by {
        assert(all[i] == c[i]);
    }
    lemma_varint_read_back(t, at, nacks.len() as u32);
    let p = at + c.len();
    assert forall|i: int| 0 <= i < e.len() implies t[p + i] == #[trigger] e[i] by {
        assert(all[c.len() + i] == e[i]);
        assert(t[at + (c.len() + i)] == all[c.len() + i]);
    }
    lemma_varint_entries_read_back(t, p, nacks);
    lemma_wire_nacks_report_the_same(nacks);
}

/// The fixed-width entries of a list are the first entry and then those of
/// the rest, six bytes each.
pub proof fn lemma_fixed_entries_front(nacks: Seq<Nack>)
    requires
        nacks.len() > 0,
    ensures
        fixed_entries_bytes(nacks) == single_nack_bytes(nacks[0]) + fixed_entries_bytes(
            nacks.skip(1),
        ),
        fixed_entries_bytes(nacks).len() == 6 * nacks.len(),
    decreases nacks.len(),
{
    if nacks.len() == 1 {
        assert(nacks.drop_last() =~= Seq::<Nack>::empty());
        assert(nacks.skip(1) =~= Seq::<Nack>::empty());
        assert(fixed_entries_bytes(nacks) =~= single_nack_bytes(nacks[0]) + fixed_entries_bytes(
            nacks.skip(1),
        ));
    } else {
        lemma_fixed_entries_front(nacks.drop_last());
        assert(nacks.drop_last().skip(1) =~= nacks.skip(1).drop_last());
        assert(nacks.skip(1).last() == nacks.last());
        assert(nacks.drop_last()[0] == nacks[0]);
        assert(fixed_entries_bytes(nacks) =~= single_nack_bytes(nacks[0]) + fixed_entries_bytes(
            nacks.skip(1),
        ));
    }
}

/// The fixed-width entries that lie at `s[at]` byte for byte are read from
/// there.
pub proof fn lemma_fixed_entries_read_back(s: Seq<u8>, at: int, nacks: Seq<Nack>)
    requires
        0 <= at,
        at + 6 * nacks.len() <= s.len(),
        fixed_entries_bytes(nacks).len() == 6 * nacks.len(),
        forall|i: int|
            0 <= i < 6 * nacks.len() ==> s[at + i] == #[trigger] fixed_entries_bytes(nacks)[i],
    ensures
        fixed_entries_at(s, at, nacks.len()) == wire_nacks(nacks),
    decreases nacks.len(),
{
    if nacks.len() == 0 {
        assert(fixed_entries_at(s, at, 0) =~= wire_nacks(nacks));
    } else {
        lemma_fixed_entries_front(nacks);
        let first = nacks[0];
        let a = single_nack_bytes(first);
        let rest = fixed_entries_bytes(nacks.skip(1));
        let all = fixed_entries_bytes(nacks);
        assert(all == a + rest);
        assert(a.len() == 6);
        assert forall|i: int| 0 <= i < 6 implies s[at + i] == #[trigger] a[i] by {
            assert(all[i] == a[i]);
        }
        assert(s[at + 0] == a[0] && a[0] == u16_le(first.start_sequence)[0]);
        assert(s[at + 1] == a[1] && a[1] == u16_le(first.start_sequence)[1]);
        assert(s[at + 2] == a[2] && a[2] == u32_le(first.flags)[0]);
        assert(s[at + 3] == a[3] && a[3] == u32_le(first.flags)[1]);
        assert(s[at + 4] == a[4] && a[4] == u32_le(first.flags)[2]);
        assert(s[at + 5] == a[5] && a[5] == u32_le(first.flags)[3]);
        assert(u16_at(s, at) == first.start_sequence);
        assert(u32_at(s, at + 2) == first.flags);
        if nacks.len() > 1 {
            lemma_fixed_entries_front(nacks.skip(1));
        } else {
            assert(nacks.skip(1) =~= Seq::<Nack>::empty());
        }
        assert forall|i: int| 0 <= i < 6 * (nacks.len() - 1) implies s[at + 6 + i]
            == #[trigger] rest[i] by {
            assert(all[6 + i] == rest[i]);
            assert(s[at + (6 + i)] == all[6 + i]);
        }
        lemma_fixed_entries_read_back(s, at + 6, nacks.skip(1));
        assert(fixed_entries_at(s, at, nacks.len()) =~= wire_nacks(nacks));
    }
}

/// Reading a list of NACKs where one of fewer than 256 was written in
/// fixed-width form yields the NACKs as they were written, and with them
/// the same sequences.
pub proof fn lemma_fixed_nacks_round_trip(s: Seq<u8>, at: int, nacks: Seq<Nack>)
    requires
        0 <= at,
        nacks.len() < 256,
        at + 1 + 6 * nacks.len() <= s.len(),
    ensures
        fixed_nacks_at(splice(s, at, fixed_nacks_bytes(nacks)), at) == wire_nacks(nacks),
        all_nacked(fixed_nacks_at(splice(s, at, fixed_nacks_bytes(nacks)), at)) == all_nacked(
            nacks,
        ),
{
    let all = fixed_nacks_bytes(nacks);
    let t = splice(s, at, all);
    let e = fixed_entries_bytes(nacks);
    if nacks.len() > 0 {
        lemma_fixed_entries_front(nacks);
    }
    assert(e.len() == 6 * nacks.len());
    assert(t[at] == all[0]);
    assert forall|i: int| 0 <= i < 6 * nacks.len() implies t[at + 1 + i] == #[trigger] e[i] by {
        assert(all[1 + i] == e[i]);
        assert(t[at + (1 + i)] == all[1 + i]);
    }
    lemma_fixed_entries_read_back(t, at + 1, nacks);
    lemma_wire_nacks_report_the_same(nacks);
}

/// The first `n` entries of a variable-length list take no more room than
/// all of them.
pub proof fn lemma_varint_entries_len(nacks: Seq<Nack>, n: int)
    requires
        0 <= n <= nacks.len(),
    ensures
        varint_entries_bytes(nacks.subrange(0, n)).len() <= varint_entries_bytes(nacks).len(),
        n < nacks.len() ==> varint_entries_bytes(nacks.subrange(0, n)).len() + varint_len(
            nacks[n].start_sequence as u32,
        ) + varint_len(nacks[n].flags) <= varint_entries_bytes(nacks).len(),
    decreases nacks.len() - n,
{
    if n == nacks.len() {
        assert(nacks.subrange(0, n) =~= nacks);
    } else {
        lemma_varint_entries_len(nacks, n + 1);
        let more = nacks.subrange(0, n + 1);
        assert(more.drop_last() =~= nacks.subrange(0, n));
        assert(more.last() == nacks[n]);
    }
}

/// Setting a bit sets that bit and leaves the others.
pub proof fn lemma_set_flag(flags: u32, i: u32, j: u32)
    requires
        i < 32,
        j < 32,
    ensures
        flag_set(flags | (1u32 << i), j as int) == (i == j || flag_set(flags, j as int)),
        flag_set(flags & !(1u32 << i), j as int) == (i != j && flag_set(flags, j as int)),
{
    assert((flags | (1u32 << i)) & (1u32 << j) == (1u32 << j) <==> (i == j || flags & (1u32 << j)
        == (1u32 << j))) by (bit_vector)
        requires
            i < 32,
            j < 32,
    ;
    assert((flags & !(1u32 << i)) & (1u32 << j) == (1u32 << j) <==> (i != j && flags & (1u32 << j)
        == (1u32 << j))) by (bit_vector)
        requires
            i < 32,
            j < 32,
    ;
}

} // verus!
