//! Splitting a body that is too long for one frame, and putting the pieces
//! together again on the other side.

use crate::clock::millis_since;
use crate::fx_map::{map_contains, map_get, map_insert, map_keys, map_len, map_new, map_remove};
use crate::header::{
    fragmented_header_bytes, fragmented_header_of, zero_header, Header, MESSAGE_TYPE_FRAGMENT,
    TACHYON_FRAGMENTED_HEADER_SIZE,
};
use crate::byte_buffer_pool::{ByteBuffer, ByteBufferPool};
use crate::int_buffer::copy_bytes;
use crate::send_buffer_manager::{SendBufferManager, SEND_BUFFER_SIZE};
use crate::sequence::{
    is_sequence, lemma_forward_distance, lemma_forward_shift, seq_forward, seq_next, Sequence,
};
use rustc_hash::FxHashMap;
use std::time::Instant;
use vstd::prelude::*;

verus! {

/// Milliseconds after which an unfinished group is given up.
pub const GROUP_EXPIRE: u128 = 5000;

/// The most body bytes one fragment carries.
pub const FRAG_SIZE: usize = 1200;

/// How many fragments a body of `length` bytes makes.
pub open spec fn chunk_count(length: nat) -> nat {
    ((length + 1199) / 1200) as nat
}

/// The `i`-th piece of `body`: 1200 bytes, or what is left at the end.
pub open spec fn chunk(body: Seq<u8>, i: int) -> Seq<u8> {
    body.subrange(
        i * 1200,
        if (i + 1) * 1200 <= body.len() {
            (i + 1) * 1200
        } else {
            body.len() as int
        },
    )
}

/// The group id that follows `g`: ids run from 1 to 65533 and then start
/// again at 1.
pub open spec fn next_group_id(g: u16) -> u16 {
    if g >= 65533 {
        1
    } else {
        (g + 1) as u16
    }
}

/// The bodies of `n` fragments in sequence order from `start`, joined.
pub open spec fn assembled(fragments: Map<u16, Seq<u8>>, start: u16, n: nat) -> Seq<u8>
    decreases n,
{
    if n == 0 {
        Seq::empty()
    } else {
        assembled(fragments, start, (n - 1) as nat) + fragments[seq_forward(
            start,
            (n - 1) as nat,
        )].skip(10)
    }
}

/// The fragments of one group as plain bytes, by sequence.
pub open spec fn fragments_of(group: FxHashMap<u16, Vec<u8>>) -> Map<u16, Seq<u8>> {
    Map::new(|s: u16| group@.contains_key(s), |s: u16| group@[s]@)
}

/// All of the first `n` fragments from `start` on are there.
pub open spec fn has_all(fragments: Map<u16, Seq<u8>>, start: u16, n: nat) -> bool {
    forall|k: nat| k < n ==> fragments.contains_key(#[trigger] seq_forward(start, k))
}

pub struct Fragmentation {
    pub next_group: u16,
    pub received: FxHashMap<u16, FxHashMap<u16, Vec<u8>>>,
    pub received_at: FxHashMap<u16, Instant>,
}

impl Default for Fragmentation {
    fn default() -> (r: Self)
        ensures
            r.wf(),
            r.next_group == 1,
            r.groups() == Map::<u16, Map<u16, Seq<u8>>>::empty(),
    {
        let r = Fragmentation { next_group: 1, received: map_new(), received_at: map_new() };
        assert(r.groups() =~= Map::<u16, Map<u16, Seq<u8>>>::empty());
        r
    }
}

impl Fragmentation {
    /// The groups being received: for each group id, its fragments by
    /// sequence.
    pub open spec fn groups(&self) -> Map<u16, Map<u16, Seq<u8>>> {
        Map::new(
            |g: u16| self.received@.contains_key(g),
            |g: u16| fragments_of(self.received@[g]),
        )
    }

    /// Every group holds finitely many fragments, each at least as long as
    /// its header.
    pub open spec fn wf(&self) -> bool {
        &&& forall|g: u16|
            self.received@.contains_key(g) ==> (#[trigger] self.received@[g])@.dom().finite()
        &&& forall|g: u16, s: u16|
            self.received@.contains_key(g) && self.received@[g]@.contains_key(s)
                ==> (#[trigger] self.received@[g]@[s])@.len() >= 10
    }

    /// Whether a group of this age, in milliseconds, is given up.
    pub fn is_expired(age_millis: u128) -> (r: bool)
        ensures
            r == (age_millis > GROUP_EXPIRE),
    {
        age_millis > GROUP_EXPIRE
    }

    /// Drops the groups that the clock says are older than five seconds.
    /// Whatever the clock says, a group is kept as it is or dropped with its
    /// time stamp, and a time stamp that stays keeps its group.
    pub fn expire_groups(&mut self)
        requires
            old(self).wf(),
        ensures
            final(self).wf(),
            final(self).next_group == old(self).next_group,
            forall|g: u16| #[trigger]
                final(self).received@.contains_key(g) ==> old(self).received@.contains_key(g)
                    && final(self).received@[g] == old(self).received@[g],
            forall|g: u16| #[trigger]
                final(self).received_at@.contains_key(g) ==> old(self).received_at@.contains_key(
                    g,
                ) && final(self).received_at@[g] == old(self).received_at@[g],
            forall|g: u16|
                old(self).received@.contains_key(g)
                    && !(#[trigger] final(self).received@.contains_key(g))
                    ==> old(self).received_at@.contains_key(g)
                    && !final(self).received_at@.contains_key(g),
            forall|g: u16|
                old(self).received_at@.contains_key(g)
                    && !(#[trigger] final(self).received_at@.contains_key(g))
                    ==> !final(self).received@.contains_key(g),
    {
        let keys = map_keys(&self.received_at);
        let mut i: usize = 0;
        while i < keys.len()
            invariant
                i <= keys@.len(),
                self.wf(),
                self.next_group == old(self).next_group,
                forall|g: u16| #[trigger]
                    self.received@.contains_key(g) ==> old(self).received@.contains_key(g)
                        && self.received@[g] == old(self).received@[g],
                forall|g: u16| #[trigger]
                    self.received_at@.contains_key(g) ==> old(self).received_at@.contains_key(g)
                        && self.received_at@[g] == old(self).received_at@[g],
                forall|g: u16|
                    old(self).received@.contains_key(g) && !(#[trigger] self.received@.contains_key(
                        g,
                    )) ==> old(self).received_at@.contains_key(g)
                        && !self.received_at@.contains_key(g),
                forall|g: u16|
                    old(self).received_at@.contains_key(g) && !(
                    #[trigger] self.received_at@.contains_key(g))
                        ==> !self.received@.contains_key(g),
            decreases keys@.len() - i,
        {
            let group = keys[i];
            let age = match map_get(&self.received_at, &group) {
                Some(time) => Some(millis_since(time)),
                None => None,
            };
            match age {
                Some(age_millis) => {
                    self.expire_group(group, age_millis);
                },
                None => {},
            }
            i = i + 1;
        }
    }

    /// Drops the group `group` with its time stamp where the group has the
    /// age of `age_millis` milliseconds and is given up at that age.
    pub fn expire_group(&mut self, group: u16, age_millis: u128)
        requires
            old(self).wf(),
        ensures
            final(self).wf(),
            final(self).next_group == old(self).next_group,
            age_millis > GROUP_EXPIRE ==> final(self).received@ == old(self).received@.remove(
                group,
            ) && final(self).received_at@ == old(self).received_at@.remove(group),
            age_millis <= GROUP_EXPIRE ==> *final(self) == *old(self),
    {
        if Self::is_expired(age_millis) {
            map_remove(&mut self.received, &group);
            map_remove(&mut self.received_at, &group);
        }
    }

    /// A body of 1200 bytes or more goes out in fragments.
    #[must_use]
    pub fn should_fragment(length: usize) -> (r: bool)
        ensures
            r == (length >= FRAG_SIZE),
    {
        length >= FRAG_SIZE
    }

    fn get_next_group(&mut self) -> (r: u16)
        ensures
            r == next_group_id(old(self).next_group),
            final(self).next_group == r,
            final(self).received == old(self).received,
            final(self).received_at == old(self).received_at,
    {
        if self.next_group >= 65533 {
            self.next_group = 1;
        } else {
            self.next_group = self.next_group + 1;
        }
        self.next_group
    }

    /// Joins the fragments of the group that `header` names, in sequence
    /// order from the group's first sequence, and forgets the group.
    ///
    /// Fails where the group is unknown or does not hold as many fragments
    /// as announced, and then changes nothing. Fails too where the count is
    /// right but one of the expected sequences is missing: the group is then
    /// dropped.
    pub fn assemble(&mut self, header: Header) -> (r: Result<Vec<u8>, ()>)
        requires
            old(self).wf(),
        ensures
            final(self).wf(),
            final(self).next_group == old(self).next_group,
            final(self).received_at == old(self).received_at,
            ({
                let g = header.fragment_group;
                let n = header.fragment_count as nat;
                let start = header.fragment_start_sequence;
                let before = old(self).groups();
                if !before.contains_key(g) || before[g].dom().len() != n {
                    r is Err && final(self).groups() == before
                } else if has_all(before[g], start, n) {
                    &&& r is Ok
                    &&& r->Ok_0@ == assembled(before[g], start, n)
                    &&& final(self).groups() == before.remove(g)
                } else {
                    r is Err && final(self).groups() == before.remove(g)
                }
            }),
    {
        let ghost before = self.groups();
        let group = match map_remove(&mut self.received, &header.fragment_group) {
            Some(group) => group,
            None => {
                assert(self.received@ =~= old(self).received@);
                return Err(());
            },
        };
        assert(fragments_of(group) == before[header.fragment_group]);
        assert(fragments_of(group).dom() =~= group@.dom());
        if map_len(&group) != header.fragment_count as usize {
            map_insert(&mut self.received, header.fragment_group, group);
            assert(self.received@ =~= old(self).received@);
            return Err(());
        }
        assert(self.groups() =~= before.remove(header.fragment_group));
        let mut buffer: Vec<u8> = Vec::new();
        let mut seq = header.fragment_start_sequence;
        let mut k: u16 = 0;
        while k < header.fragment_count
            invariant
                k <= header.fragment_count,
                self.wf(),
                self.next_group == old(self).next_group,
                self.received_at == old(self).received_at,
                before == old(self).groups(),
                before.contains_key(header.fragment_group),
                before[header.fragment_group] == fragments_of(group),
                before[header.fragment_group].dom().len() == header.fragment_count,
                self.groups() == before.remove(header.fragment_group),
                seq == seq_forward(header.fragment_start_sequence, k as nat),
                has_all(fragments_of(group), header.fragment_start_sequence, k as nat),
                buffer@ == assembled(
                    fragments_of(group),
                    header.fragment_start_sequence,
                    k as nat,
                ),
                forall|s: u16| group@.contains_key(s) ==> (#[trigger] group@[s])@.len() >= 10,
            decreases header.fragment_count - k,
        {
            let fragment = match map_get(&group, &seq) {
                Some(fragment) => fragment,
                None => {
                    assert(!fragments_of(group).contains_key(
                        seq_forward(header.fragment_start_sequence, k as nat),
                    ));
                    return Err(());
                },
            };
            let ghost joined = buffer@;
            let mut i: usize = TACHYON_FRAGMENTED_HEADER_SIZE;
            while i < fragment.len()
                invariant
                    10 <= i <= fragment@.len(),
                    buffer@ == joined + fragment@.subrange(10, i as int),
                decreases fragment@.len() - i,
            {
                buffer.push(fragment[i]);
                i = i + 1;
                assert(buffer@ =~= joined + fragment@.subrange(10, i as int));
            }
            assert(fragment@.subrange(10, fragment@.len() as int) =~= fragment@.skip(10));
            seq = Sequence::next_sequence(seq);
            k = k + 1;
        }
        Ok(buffer)
    }

    /// `post` is this fragmenter after it has taken in the fragment frame
    /// that is the first `length` bytes of `data`: the frame has joined the
    /// group its header names, under its own sequence, unless the group held
    /// that sequence already; a group that is new has got a time stamp.
    pub open spec fn fragment_taken_as(
        &self,
        post: &Fragmentation,
        data: Seq<u8>,
        length: usize,
    ) -> bool {
        let header = fragmented_header_of(data);
        let g = header.fragment_group;
        let before = self.groups();
        let group = if before.contains_key(g) {
            before[g]
        } else {
            Map::<u16, Seq<u8>>::empty()
        };
        let after = if group.contains_key(header.sequence) {
            group
        } else {
            group.insert(header.sequence, data.subrange(0, length as int))
        };
        &&& post.wf()
        &&& post.next_group == self.next_group
        &&& post.groups() == before.insert(g, after)
        &&& after.dom().finite()
        &&& forall|k: u16| #[trigger]
            self.received_at@.contains_key(k) ==> post.received_at@.contains_key(k)
                && post.received_at@[k] == self.received_at@[k]
        &&& post.received_at@.contains_key(g)
        &&& forall|k: u16| #[trigger] post.received_at@.contains_key(k) ==> k == g
            || self.received_at@.contains_key(k)
    }

    /// Takes in one fragment frame: the first `length` bytes of `data`. The
    /// frame joins the group its header names, under its own sequence; a
    /// sequence that the group already holds is left as it was.
    ///
    /// Returns whether the frame was taken in, which it is unless it is too
    /// short to hold a fragment's header, and whether the group now holds as
    /// many fragments as its header announces.
    pub fn receive_fragment(&mut self, data: &[u8], length: usize) -> (r: (bool, bool))
        requires
            old(self).wf(),
            length <= data@.len(),
        ensures
            final(self).wf(),
            final(self).next_group == old(self).next_group,
            r.0 == (length >= TACHYON_FRAGMENTED_HEADER_SIZE),
            !r.0 ==> !r.1 && final(self).received == old(self).received && final(self).received_at
                == old(self).received_at,
            r.0 ==> old(self).fragment_taken_as(final(self), data@, length),
            r.0 ==> r.1 == (final(self).groups()[fragmented_header_of(
                data@,
            ).fragment_group].dom().len() == fragmented_header_of(data@).fragment_count),
    {
        if length < TACHYON_FRAGMENTED_HEADER_SIZE {
            return (false, false);
        }
        let header = Header::read_fragmented(data);
        let ghost before = self.groups();
        let mut group = match map_remove(&mut self.received, &header.fragment_group) {
            Some(group) => group,
            None => {
                let group: FxHashMap<u16, Vec<u8>> = map_new();
                assert(fragments_of(group) =~= Map::<u16, Seq<u8>>::empty());
                group
            },
        };
        if !map_contains(&self.received_at, &header.fragment_group) {
            map_insert(&mut self.received_at, header.fragment_group, Instant::now());
        }
        let ghost was = fragments_of(group);
        if !map_contains(&group, &header.sequence) {
            let mut fragment: Vec<u8> = vec![0u8; length];
            copy_bytes(fragment.as_mut_slice(), 0, data, 0, length);
            assert(fragment@ =~= data@.subrange(0, length as int));
            map_insert(&mut group, header.sequence, fragment);
            assert(fragments_of(group) =~= was.insert(
                header.sequence,
                data@.subrange(0, length as int),
            ));
        }
        let complete = map_len(&group) == header.fragment_count as usize;
        assert(fragments_of(group).dom() =~= group@.dom());
        let ghost after = fragments_of(group);
        map_insert(&mut self.received, header.fragment_group, group);
        assert(self.groups() =~= before.insert(header.fragment_group, after));
        (true, complete)
    }

    /// Takes the next sequence of `sender` and fills its frame with a
    /// fragment header and `data[from..from + chunk_len]`. The header names
    /// `first` as the group's first sequence, or the new sequence itself
    /// where `first` is `None`.
    fn create_fragment(
        sender: &mut SendBufferManager,
        channel: u8,
        group: u16,
        first: Option<u16>,
        fragment_count: u16,
        data: &[u8],
        from: usize,
        chunk_len: usize,
    ) -> (sequence: u16)
        requires
            old(sender).wf(),
            chunk_len <= FRAG_SIZE,
            from + chunk_len <= data@.len(),
        ensures
            final(sender).wf(),
            final(sender).buffers.partition_by == old(sender).buffers.partition_by,
            sequence == seq_next(old(sender).current_sequence),
            final(sender).current_sequence == sequence,
            final(sender).slot(sequence) is Some,
            final(sender).slot(sequence)->0.sequence == sequence,
            final(sender).slot(sequence)->0.byte_buffer.used() == fragmented_header_bytes(
                Header {
                    message_type: MESSAGE_TYPE_FRAGMENT,
                    channel,
                    sequence,
                    fragment_group: group,
                    fragment_start_sequence: match first {
                        Some(s) => s,
                        None => sequence,
                    },
                    fragment_count,
                    ..zero_header()
                },
            ) + data@.subrange(from as int, from + chunk_len),
            forall|i: int|
                0 <= i < SEND_BUFFER_SIZE && i != old(sender).buffers.slot_of(sequence)
                    ==> #[trigger] final(sender).buffers.values@[i]
                        == old(sender).buffers.values@[i],
            final(sender).buffer_pool.buffer_size == old(sender).buffer_pool.buffer_size,
            final(sender).buffer_pool.limit() == old(sender).buffer_pool.limit(),
            fragment_made_as(
                *old(sender),
                *final(sender),
                fragmented_header_bytes(
                    Header {
                        message_type: MESSAGE_TYPE_FRAGMENT,
                        channel,
                        sequence,
                        fragment_group: group,
                        fragment_start_sequence: match first {
                            Some(s) => s,
                            None => sequence,
                        },
                        fragment_count,
                        ..zero_header()
                    },
                ) + data@.subrange(from as int, from + chunk_len),
            ),
    {
        let fragment_len = chunk_len + TACHYON_FRAGMENTED_HEADER_SIZE;
        let ghost size = sender.buffer_pool.buffer_size;
        let sequence;
        {
            let send_buffer = match sender.create_send_buffer(fragment_len) {
                Some(send_buffer) => send_buffer,
                None => {
                    proof {
                        assert(false);
                    }
                    return 0;
                },
            };
            let ghost fresh = send_buffer.byte_buffer;
            sequence = send_buffer.sequence;
            let start_sequence = match first {
                Some(s) => s,
                None => sequence,
            };
            let fragment_header = Header::create_fragmented(
                sequence,
                channel,
                group,
                start_sequence,
                fragment_count,
            );
            fragment_header.write_fragmented(send_buffer.byte_buffer.get_mut());
            copy_bytes(
                send_buffer.byte_buffer.get_mut(),
                TACHYON_FRAGMENTED_HEADER_SIZE,
                data,
                from,
                chunk_len,
            );
            assert(send_buffer.byte_buffer.used() =~= fragmented_header_bytes(fragment_header)
                + data@.subrange(from as int, from + chunk_len));
            assert(send_buffer.wf(size));
            assert(same_buffer(fresh, send_buffer.byte_buffer));
            assert(send_buffer.byte_buffer.used().len() == fragment_len);
        }
        sequence
    }

    /// Splits the first `length` bytes of `data` into fragments of at most
    /// 1200 bytes, gives each the next sequence of `sender` and a frame
    /// there, and returns the sequences. All fragments share a new group id
    /// and name the first sequence and the count. A frame stays in `sender`
    /// unless a later fragment of the same body takes its slot, and every
    /// slot that no fragment takes is left as it was.
    ///
    /// A body that would take more fragments than a header can announce is
    /// not sent: the list is empty and nothing has changed.
    pub fn create_fragments(
        &mut self,
        sender: &mut SendBufferManager,
        channel: u8,
        data: &[u8],
        length: usize,
    ) -> (r: Vec<u16>)
        requires
            old(sender).wf(),
            length <= data@.len(),
        ensures
            final(sender).wf(),
            final(self).received == old(self).received,
            final(self).received_at == old(self).received_at,
            chunk_count(length as nat) > 65535 ==> {
                &&& r@.len() == 0
                &&& *final(self) == *old(self)
                &&& *final(sender) == *old(sender)
            },
            chunk_count(length as nat) <= 65535 ==> {
                let n = chunk_count(length as nat);
                &&& r@.len() == n
                &&& final(self).next_group == next_group_id(old(self).next_group)
                &&& final(sender).current_sequence == seq_forward(old(sender).current_sequence, n)
                &&& forall|i: int|
                    0 <= i < n ==> #[trigger] r@[i] == seq_forward(
                        old(sender).current_sequence,
                        (i + 1) as nat,
                    )
                &&& forall|i: int|
                    0 <= i < n && #[trigger] unshadowed(*final(sender), r@, i) ==> holds_fragment(
                        *final(sender),
                        r@,
                        i,
                        channel,
                        final(self).next_group,
                        n as u16,
                        data@.subrange(0, length as int),
                    )
                &&& forall|slot: int|
                    0 <= slot < SEND_BUFFER_SIZE && #[trigger] untaken(*old(sender), r@, slot)
                        ==> final(sender).buffers.values@[slot] == old(
                        sender,
                    ).buffers.values@[slot]
                &&& final(sender).buffers.partition_by == old(sender).buffers.partition_by
                &&& final(sender).buffer_pool.buffer_size == old(sender).buffer_pool.buffer_size
                &&& final(sender).buffer_pool.limit() == old(sender).buffer_pool.limit()
                &&& fragments_made_as(
                    *old(sender),
                    *final(sender),
                    channel,
                    final(self).next_group,
                    seq_next(old(sender).current_sequence),
                    n as u16,
                    data@.subrange(0, length as int),
                    0,
                )
            },
    {
        let mut fragments: Vec<u16> = Vec::new();
        let fragment_count = length / FRAG_SIZE + (if length % FRAG_SIZE > 0 {
            1usize
        } else {
            0usize
        });
        assert(fragment_count == chunk_count(length as nat));
        if fragment_count > 65535 {
            return fragments;
        }
        let group = self.get_next_group();
        let count = fragment_count as u16;
        let mut start_sequence: u16 = 0;
        let mut i: usize = 0;
        let mut from: usize = 0;
        let ghost body = data@.subrange(0, length as int);
        let ghost started = seq_next(sender.current_sequence);
        while i < fragment_count
            invariant
                i <= fragment_count,
                started == seq_next(old(sender).current_sequence),
                forall|post: SendBufferManager| #[trigger]
                    fragments_made_as(*sender, post, channel, group, started, count, body, i as int)
                        ==> fragments_made_as(
                        *old(sender),
                        post,
                        channel,
                        group,
                        started,
                        count,
                        body,
                        0,
                    ),
                fragment_count == chunk_count(length as nat),
                fragment_count == count,
                i < fragment_count ==> from == i * 1200 && from < length,
                length <= data@.len(),
                body == data@.subrange(0, length as int),
                sender.wf(),
                sender.buffers.partition_by == old(sender).buffers.partition_by,
                self.next_group == group,
                self.received == old(self).received,
                self.received_at == old(self).received_at,
                fragments@.len() == i,
                i > 0 ==> start_sequence == fragments@[0],
                sender.current_sequence == seq_forward(old(sender).current_sequence, i as nat),
                forall|k: int|
                    0 <= k < i ==> #[trigger] fragments@[k] == seq_forward(
                        old(sender).current_sequence,
                        (k + 1) as nat,
                    ),
                forall|k: int|
                    0 <= k < i && #[trigger] unshadowed(*sender, fragments@, k) ==> holds_fragment(
                        *sender,
                        fragments@,
                        k,
                        channel,
                        group,
                        count,
                        body,
                    ),
                forall|slot: int|
                    0 <= slot < SEND_BUFFER_SIZE && #[trigger] untaken(
                        *old(sender),
                        fragments@,
                        slot,
                    ) ==> sender.buffers.values@[slot] == old(sender).buffers.values@[slot],
                sender.buffer_pool.buffer_size == old(sender).buffer_pool.buffer_size,
                sender.buffer_pool.limit() == old(sender).buffer_pool.limit(),
            decreases fragment_count - i,
        {
            let chunk_len = if length - from < FRAG_SIZE {
                length - from
            } else {
                FRAG_SIZE
            };
            let ghost before = *sender;
            let ghost made = fragments@;
            let first = if i == 0 {
                None
            } else {
                Some(start_sequence)
            };
            let sequence = Self::create_fragment(
                sender,
                channel,
                group,
                first,
                count,
                data,
                from,
                chunk_len,
            );
            if i == 0 {
                start_sequence = sequence;
            }
            fragments.push(sequence);
            proof {
                let kept = *sender;
                lemma_forward_shift(old(sender).current_sequence, i as nat);
                assert(sequence == seq_forward(started, i as nat));
                assert(fragments@[0] == started) by {
                    reveal_with_fuel(seq_forward, 2);
                    assert(fragments@[0] == seq_forward(old(sender).current_sequence, 1));
                }
                assert(data@.subrange(from as int, from + chunk_len) =~= chunk(body, i as int));
                let frame = fragment_of(channel, group, started, count, body, i as int);
                assert(fragment_made_as(before, kept, frame));
                assert forall|post: SendBufferManager| #[trigger]
                    fragments_made_as(
                        kept,
                        post,
                        channel,
                        group,
                        started,
                        count,
                        body,
                        i + 1,
                    ) implies fragments_made_as(
                    *old(sender),
                    post,
                    channel,
                    group,
                    started,
                    count,
                    body,
                    0,
                ) by {
                    assert(fragments_made_as(
                        before,
                        post,
                        channel,
                        group,
                        started,
                        count,
                        body,
                        i as int,
                    ));
                }
                assert forall|slot: int|
                    0 <= slot < SEND_BUFFER_SIZE && #[trigger] untaken(
                        *old(sender),
                        fragments@,
                        slot,
                    ) implies sender.buffers.values@[slot] == old(
                    sender,
                ).buffers.values@[slot] by {
                    assert(fragments@[i as int] == sequence);
                    assert(slot != old(sender).buffers.slot_of(fragments@[i as int]));
                    assert forall|k: int| 0 <= k < made.len() implies slot != old(
                        sender,
                    ).buffers.slot_of(#[trigger] made[k]) by {
                        assert(fragments@[k] == made[k]);
                    }
                    assert(untaken(*old(sender), made, slot));
                }
                assert(data@.subrange(from as int, from + chunk_len) =~= chunk(body, i as int));
                assert(holds_fragment(*sender, fragments@, i as int, channel, group, count, body));
                assert forall|k: int|
                    0 <= k < i + 1 && #[trigger] unshadowed(
                        *sender,
                        fragments@,
                        k,
                    ) implies holds_fragment(*sender, fragments@, k, channel, group, count, body) by {
                    if k < i {
                        assert(sender.buffers.slot_of(fragments@[i as int])
                            != sender.buffers.slot_of(fragments@[k]));
                        assert(made[k] == fragments@[k]);
                        assert forall|j: int| k < j < made.len() implies before.buffers.slot_of(
                            #[trigger] made[j],
                        ) != before.buffers.slot_of(made[k]) by {
                            assert(fragments@[j] == made[j]);
                        }
                        assert(unshadowed(before, made, k));
                        assert(holds_fragment(before, made, k, channel, group, count, body));
                        assert(sender.slot(fragments@[k]) == before.slot(made[k]));
                        assert(made[0] == fragments@[0]);
                    }
                }
            }
            i = i + 1;
            from = from + chunk_len;
        }
        assert(fragments_made_as(
            *sender,
            *sender,
            channel,
            group,
            started,
            count,
            body,
            i as int,
        ));
        fragments
    }
}

/// Two buffers are one buffer at different times: what they hold may
/// differ, their size, length, flag and version do not.
pub open spec fn same_buffer(a: ByteBuffer, b: ByteBuffer) -> bool {
    &&& a@.len() == b@.len()
    &&& a.length == b.length
    &&& a.pooled == b.pooled
    &&& a.version == b.version
}

/// `post` is the sender `pre` after its next sequence got `frame` to keep.
///
/// The frame lies in the slot of that sequence and no other slot has
/// changed. Where the slot held a pooled buffer that is large enough, the
/// frame lies in that buffer and the pool is as it was. Otherwise the
/// buffer that the slot held, if any, has been offered to the pool, and the
/// frame's buffer has been got from the pool.
pub open spec fn fragment_made_as(
    pre: SendBufferManager,
    post: SendBufferManager,
    frame: Seq<u8>,
) -> bool {
    let sequence = seq_next(pre.current_sequence);
    let was = pre.slot(sequence);
    let made = post.slot(sequence);
    &&& post.current_sequence == sequence
    &&& post.buffers.partition_by == pre.buffers.partition_by
    &&& forall|i: int|
        0 <= i < SEND_BUFFER_SIZE && i != pre.buffers.slot_of(sequence)
            ==> #[trigger] post.buffers.values@[i] == pre.buffers.values@[i]
    &&& made is Some
    &&& made->0.sequence == sequence
    &&& made->0.byte_buffer.used() == frame
    &&& if was is Some && was->0.byte_buffer.pooled && frame.len()
        <= pre.buffer_pool.buffer_size {
        &&& post.buffer_pool == pre.buffer_pool
        &&& same_buffer(
            ByteBuffer { length: frame.len() as usize, ..was->0.byte_buffer },
            made->0.byte_buffer,
        )
    } else if was is Some {
        exists|pool: ByteBufferPool, taken: bool, fresh: ByteBuffer|
            {
                &&& #[trigger] pre.buffer_pool.returned_as(&pool, was->0.byte_buffer, taken)
                &&& #[trigger] pool.got_as(&post.buffer_pool, frame.len() as usize, fresh)
                &&& same_buffer(fresh, made->0.byte_buffer)
            }
    } else {
        exists|fresh: ByteBuffer|
            {
                &&& #[trigger] pre.buffer_pool.got_as(
                    &post.buffer_pool,
                    frame.len() as usize,
                    fresh,
                )
                &&& same_buffer(fresh, made->0.byte_buffer)
            }
    }
}

/// `post` is the sender `pre` after the fragments of `body` from the
/// `i`-th on got their frames, one after the other, where the first
/// fragment of all has the sequence `first`.
pub open spec fn fragments_made_as(
    pre: SendBufferManager,
    post: SendBufferManager,
    channel: u8,
    group: u16,
    first: u16,
    count: u16,
    body: Seq<u8>,
    i: int,
) -> bool
    decreases count - i,
{
    if i >= count {
        post == pre
    } else {
        exists|next: SendBufferManager| #[trigger]
            fragment_made_as(pre, next, fragment_of(channel, group, first, count, body, i))
                && fragments_made_as(next, post, channel, group, first, count, body, i + 1)
    }
}

/// The slot `slot` of the ring is that of none of `sequences`.
pub open spec fn untaken(sender: SendBufferManager, sequences: Seq<u16>, slot: int) -> bool {
    forall|k: int|
        0 <= k < sequences.len() ==> slot != sender.buffers.slot_of(#[trigger] sequences[k])
}

/// No later fragment in `sequences` shares the slot of the `i`-th.
pub open spec fn unshadowed(sender: SendBufferManager, sequences: Seq<u16>, i: int) -> bool {
    forall|j: int|
        i < j < sequences.len() ==> sender.buffers.slot_of(#[trigger] sequences[j])
            != sender.buffers.slot_of(sequences[i])
}

/// The slot of the `i`-th sequence holds the `i`-th fragment of `body`: its
/// header, then its piece of the body.
pub open spec fn holds_fragment(
    sender: SendBufferManager,
    sequences: Seq<u16>,
    i: int,
    channel: u8,
    group: u16,
    count: u16,
    body: Seq<u8>,
) -> bool {
    let kept = sender.slot(sequences[i]);
    &&& kept is Some
    &&& kept->0.sequence == sequences[i]
    &&& kept->0.byte_buffer.used() == fragmented_header_bytes(
        Header {
            message_type: MESSAGE_TYPE_FRAGMENT,
            channel,
            sequence: sequences[i],
            fragment_group: group,
            fragment_start_sequence: sequences[0],
            fragment_count: count,
            ..zero_header()
        },
    ) + chunk(body, i)
}

/// Joining what `create_fragments` made of a body gives the body back: where
/// a group holds, under the sequences from `start` on, frames whose bytes
/// behind the header are the pieces of `body` in order, `assemble` returns
/// `body`.
pub proof fn lemma_fragment_round_trip(body: Seq<u8>, start: u16, fragments: Map<u16, Seq<u8>>)
    requires
        forall|i: nat|
            i < chunk_count(body.len()) ==> (#[trigger] fragments[seq_forward(start, i)]).skip(10)
                == chunk(body, i as int),
    ensures
        assembled(fragments, start, chunk_count(body.len())) == body,
{
    lemma_assembled_prefix(body, start, fragments, chunk_count(body.len()));
    assert(body.subrange(0, body.len() as int) =~= body);
}

/// The first `n` fragments joined are the first `n` pieces of the body.
pub proof fn lemma_assembled_prefix(
    body: Seq<u8>,
    start: u16,
    fragments: Map<u16, Seq<u8>>,
    n: nat,
)
    requires
        n <= chunk_count(body.len()),
        forall|i: nat|
            i < chunk_count(body.len()) ==> (#[trigger] fragments[seq_forward(start, i)]).skip(10)
                == chunk(body, i as int),
    ensures
        assembled(fragments, start, n) == body.subrange(
            0,
            if n * 1200 <= body.len() {
                (n * 1200) as int
            } else {
                body.len() as int
            },
        ),
    decreases n,
{
    if n == 0 {
        assert(assembled(fragments, start, n) =~= body.subrange(0, 0));
    } else {
        lemma_assembled_prefix(body, start, fragments, (n - 1) as nat);
        let piece = fragments[seq_forward(start, (n - 1) as nat)].skip(10);
        assert(piece == chunk(body, n - 1));
        let end = if n * 1200 <= body.len() {
            (n * 1200) as int
        } else {
            body.len() as int
        };
        assert(body.subrange(0, (n - 1) * 1200) + chunk(body, n - 1) =~= body.subrange(0, end));
    }
}

/// The frame of the `i`-th fragment of `body`, where the first fragment has
/// the sequence `first`: its header, then its piece of the body.
pub open spec fn fragment_of(
    channel: u8,
    group: u16,
    first: u16,
    count: u16,
    body: Seq<u8>,
    i: int,
) -> Seq<u8> {
    fragmented_header_bytes(
        Header {
            message_type: MESSAGE_TYPE_FRAGMENT,
            channel,
            sequence: seq_forward(first, i as nat),
            fragment_group: group,
            fragment_start_sequence: first,
            fragment_count: count,
            ..zero_header()
        },
    ) + chunk(body, i)
}

/// What `create_fragments` keeps for the `i`-th fragment is the frame that
/// `fragment_of` names, with the sequence of the first fragment as `first`.
pub proof fn lemma_made_fragment(
    sender: SendBufferManager,
    sequences: Seq<u16>,
    i: int,
    channel: u8,
    group: u16,
    count: u16,
    body: Seq<u8>,
    current: u16,
)
    requires
        is_sequence(current),
        0 <= i < sequences.len(),
        sequences[0] == seq_forward(current, 1),
        sequences[i] == seq_forward(current, (i + 1) as nat),
        holds_fragment(sender, sequences, i, channel, group, count, body),
    ensures
        sender.slot(sequences[i])->0.byte_buffer.used() == fragment_of(
            channel,
            group,
            sequences[0],
            count,
            body,
            i,
        ),
{
    crate::sequence::lemma_forward_shift(current, i as nat);
    reveal_with_fuel(seq_forward, 2);
    assert(seq_forward(current, 1) == seq_next(current));
}

/// The sequences of the first `n` fragments from `first` on.
pub open spec fn fragment_sequences(first: u16, n: nat) -> Set<u16> {
    Set::new(|s: u16| exists|i: nat| i < n && s == #[trigger] seq_forward(first, i))
}

/// The group `group` of `f` holds the fragments of `body` that `order`
/// names up to its `k`-th entry, each under its sequence, and no other.
pub open spec fn holds_taken(
    f: Fragmentation,
    channel: u8,
    group: u16,
    first: u16,
    count: u16,
    body: Seq<u8>,
    order: Seq<int>,
    k: int,
) -> bool {
    let groups = f.groups();
    if k == 0 {
        !groups.contains_key(group)
    } else {
        &&& groups.contains_key(group)
        &&& forall|s: u16| #[trigger]
            groups[group].contains_key(s) <==> exists|j: int|
                0 <= j < k && s == seq_forward(first, #[trigger] order[j] as nat)
        &&& forall|j: int|
            0 <= j < k ==> groups[group][seq_forward(first, #[trigger] order[j] as nat)]
                == fragment_of(channel, group, first, count, body, order[j])
    }
}

/// Fewer than 65535 steps forward from one sequence lead to different
/// sequences.
pub proof fn lemma_forward_distinct(first: u16, i: nat, j: nat)
    requires
        is_sequence(first),
        i < 65535,
        j < 65535,
        i != j,
    ensures
        seq_forward(first, i) != seq_forward(first, j),
{
    lemma_forward_distance(first, i);
    lemma_forward_distance(first, j);
}

/// The first `n` fragments have `n` sequences.
pub proof fn lemma_fragment_sequences_len(first: u16, n: nat)
    requires
        is_sequence(first),
        n <= 65535,
    ensures
        fragment_sequences(first, n).finite(),
        fragment_sequences(first, n).len() == n,
    decreases n,
{
    if n == 0 {
        assert(fragment_sequences(first, 0) =~= Set::<u16>::empty());
    } else {
        let m = (n - 1) as nat;
        lemma_fragment_sequences_len(first, m);
        let fewer = fragment_sequences(first, m);
        let last = seq_forward(first, m);
        assert(!fewer.contains(last)) by {
            if fewer.contains(last) {
                let i = choose|i: nat| i < m && last == #[trigger] seq_forward(first, i);
                lemma_forward_distinct(first, i, m);
            }
        }
        assert(fragment_sequences(first, n) =~= fewer.insert(last)) by {
            assert forall|s: u16| fragment_sequences(first, n).contains(s) implies fewer.insert(
                last,
            ).contains(s) by {
                let i = choose|i: nat| i < n && s == #[trigger] seq_forward(first, i);
                if i < m {
                    assert(fewer.contains(seq_forward(first, i)));
                }
            }
            assert forall|s: u16| fewer.insert(last).contains(s) implies fragment_sequences(
                first,
                n,
            ).contains(s) by {
                if s == last {
                    assert(m < n && s == seq_forward(first, m));
                } else {
                    let i = choose|i: nat| i < m && s == #[trigger] seq_forward(first, i);
                    assert(i < n && s == seq_forward(first, i));
                }
            }
        }
    }
}

/// One more fragment taken in: where the group holds the fragments that
/// `order` names up to its `k`-th entry, it holds those up to the next
/// entry once the frame of that entry has been taken in.
pub proof fn lemma_fragment_taken(
    pre: Fragmentation,
    post: Fragmentation,
    channel: u8,
    group: u16,
    first: u16,
    count: u16,
    body: Seq<u8>,
    order: Seq<int>,
    k: int,
)
    requires
        is_sequence(first),
        0 <= k < order.len(),
        forall|j: int| 0 <= j < order.len() ==> 0 <= #[trigger] order[j] < 65535,
        holds_taken(pre, channel, group, first, count, body, order, k),
        pre.fragment_taken_as(
            &post,
            fragment_of(channel, group, first, count, body, order[k]),
            fragment_of(channel, group, first, count, body, order[k]).len() as usize,
        ),
        fragment_of(channel, group, first, count, body, order[k]).len() <= usize::MAX,
    ensures
        holds_taken(post, channel, group, first, count, body, order, k + 1),
{
    let frame = fragment_of(channel, group, first, count, body, order[k]);
    let sequence = seq_forward(first, order[k] as nat);
    let header = Header {
        message_type: MESSAGE_TYPE_FRAGMENT,
        channel,
        sequence,
        fragment_group: group,
        fragment_start_sequence: first,
        fragment_count: count,
        ..zero_header()
    };
    assert(frame.len() >= 10);
    assert(crate::int_buffer::splice(frame, 0, fragmented_header_bytes(header)) =~= frame);
    crate::header::lemma_fragmented_header_round_trip(frame, header);
    assert(fragmented_header_of(frame).fragment_group == group);
    assert(fragmented_header_of(frame).sequence == sequence);
    assert(frame.subrange(0, frame.len() as int) =~= frame);
    let before = pre.groups();
    let held = if before.contains_key(group) {
        before[group]
    } else {
        Map::<u16, Seq<u8>>::empty()
    };
    let after = post.groups()[group];
    assert(post.groups().contains_key(group));
    assert(after == (if held.contains_key(sequence) {
        held
    } else {
        held.insert(sequence, frame)
    }));
    assert forall|s: u16| #[trigger]
        after.contains_key(s) <==> exists|j: int|
            0 <= j < k + 1 && s == seq_forward(first, #[trigger] order[j] as nat) by {
        if after.contains_key(s) {
            if s == sequence {
                assert(0 <= k < k + 1 && s == seq_forward(first, order[k] as nat));
            } else {
                assert(held.contains_key(s));
                let j = choose|j: int|
                    0 <= j < k && s == seq_forward(first, #[trigger] order[j] as nat);
                assert(0 <= j < k + 1 && s == seq_forward(first, order[j] as nat));
            }
        }
        if exists|j: int| 0 <= j < k + 1 && s == seq_forward(first, #[trigger] order[j] as nat) {
            let j = choose|j: int|
                0 <= j < k + 1 && s == seq_forward(first, #[trigger] order[j] as nat);
            if j < k {
                assert(0 <= j < k && s == seq_forward(first, order[j] as nat));
                assert(held.contains_key(s));
            }
        }
    }
    assert forall|j: int| 0 <= j < k + 1 implies after[seq_forward(
        first,
        #[trigger] order[j] as nat,
    )] == fragment_of(channel, group, first, count, body, order[j]) by {
        let s = seq_forward(first, order[j] as nat);
        if j < k {
            assert(held.contains_key(s)) by {
                assert(0 <= j < k && s == seq_forward(first, order[j] as nat));
            }
            assert(held[s] == fragment_of(channel, group, first, count, body, order[j]));
        } else {
            if held.contains_key(sequence) {
                let i = choose|i: int|
                    0 <= i < k && sequence == seq_forward(first, #[trigger] order[i] as nat);
                if order[i] != order[k] {
                    lemma_forward_distinct(first, order[i] as nat, order[k] as nat);
                }
                assert(held[sequence] == fragment_of(
                    channel,
                    group,
                    first,
                    count,
                    body,
                    order[i],
                ));
            }
        }
    }
}

/// `states[k + 1]` is `states[k]` after the frame that `order` names at `k`
/// has been taken in.
pub open spec fn taken_in_turn(
    channel: u8,
    group: u16,
    first: u16,
    count: u16,
    body: Seq<u8>,
    order: Seq<int>,
    states: Seq<Fragmentation>,
    k: int,
) -> bool {
    states[k].fragment_taken_as(
        &states[k + 1],
        fragment_of(channel, group, first, count, body, order[k]),
        fragment_of(channel, group, first, count, body, order[k]).len() as usize,
    )
}

/// A fragment's frame is its header of ten bytes and then its piece of the
/// body, 1210 bytes at most.
pub proof fn lemma_fragment_of_parts(
    channel: u8,
    group: u16,
    first: u16,
    count: u16,
    body: Seq<u8>,
    i: int,
)
    requires
        0 <= i < chunk_count(body.len()),
    ensures
        10 <= fragment_of(channel, group, first, count, body, i).len() <= 1210,
        fragment_of(channel, group, first, count, body, i).skip(10) == chunk(body, i),
{
    assert(fragment_of(channel, group, first, count, body, i).skip(10) =~= chunk(body, i));
}

/// After the first `k` frames that `order` names have been taken in, the
/// group holds just those fragments.
pub proof fn lemma_fragments_taken(
    channel: u8,
    group: u16,
    first: u16,
    body: Seq<u8>,
    order: Seq<int>,
    states: Seq<Fragmentation>,
    k: int,
)
    requires
        is_sequence(first),
        1 <= chunk_count(body.len()) <= 65535,
        0 <= k <= order.len(),
        states.len() == order.len() + 1,
        forall|j: int| 0 <= j < order.len() ==> 0 <= #[trigger] order[j] < chunk_count(body.len()),
        !states[0].groups().contains_key(group),
        forall|k: int|
            0 <= k < order.len() ==> #[trigger] taken_in_turn(
                channel,
                group,
                first,
                chunk_count(body.len()) as u16,
                body,
                order,
                states,
                k,
            ),
    ensures
        holds_taken(
            states[k],
            channel,
            group,
            first,
            chunk_count(body.len()) as u16,
            body,
            order,
            k,
        ),
    decreases k,
{
    if k > 0 {
        let count = chunk_count(body.len()) as u16;
        lemma_fragments_taken(channel, group, first, body, order, states, k - 1);
        lemma_fragment_of_parts(channel, group, first, count, body, order[k - 1]);
        assert(taken_in_turn(channel, group, first, count, body, order, states, k - 1));
        lemma_fragment_taken(
            states[k - 1],
            states[k],
            channel,
            group,
            first,
            count,
            body,
            order,
            k - 1,
        );
    }
}

/// A body that went out in fragments comes back whole, in whatever order
/// the fragments arrive.
///
/// `body` makes `count` fragments, from 1 to 65535, with the sequences from
/// `first` on. `states` are a fragmenter's states: the first knows nothing
/// of the group, and each next one has taken in the frame that `order` names
/// next, where `order` names every fragment. Then the group holds `count`
/// fragments, all of them, and joined in sequence order they are `body`:
/// what `assemble` returns for the header of any of the frames.
pub proof fn lemma_fragments_in_any_order(
    channel: u8,
    group: u16,
    first: u16,
    body: Seq<u8>,
    order: Seq<int>,
    states: Seq<Fragmentation>,
)
    requires
        is_sequence(first),
        1 <= chunk_count(body.len()) <= 65535,
        states.len() == order.len() + 1,
        forall|j: int| 0 <= j < order.len() ==> 0 <= #[trigger] order[j] < chunk_count(body.len()),
        forall|i: int| 0 <= i < chunk_count(body.len()) ==> order.contains(i),
        !states[0].groups().contains_key(group),
        forall|k: int|
            0 <= k < order.len() ==> #[trigger] taken_in_turn(
                channel,
                group,
                first,
                chunk_count(body.len()) as u16,
                body,
                order,
                states,
                k,
            ),
    ensures
        states.last().groups().contains_key(group),
        states.last().groups()[group].dom().len() == chunk_count(body.len()),
        has_all(states.last().groups()[group], first, chunk_count(body.len())),
        assembled(states.last().groups()[group], first, chunk_count(body.len())) == body,
{
    let n = chunk_count(body.len());
    let count = n as u16;
    assert(order.contains(0));
    lemma_fragments_taken(channel, group, first, body, order, states, order.len() as int);
    let held = states.last().groups()[group];
    assert(states.last() == states[order.len() as int]);
    assert(order.len() > 0);
    assert forall|i: nat| i < n implies held.contains_key(#[trigger] seq_forward(first, i)) by {
        assert(order.contains(i as int));
        let j = choose|j: int| 0 <= j < order.len() && order[j] == i as int;
        assert(0 <= j < order.len() && seq_forward(first, i) == seq_forward(
            first,
            order[j] as nat,
        ));
    }
    assert(held.dom() =~= fragment_sequences(first, n)) by {
        assert forall|s: u16| held.dom().contains(s) implies fragment_sequences(
            first,
            n,
        ).contains(s) by {
            let j = choose|j: int|
                0 <= j < order.len() && s == seq_forward(first, #[trigger] order[j] as nat);
            assert((order[j] as nat) < n && s == seq_forward(first, order[j] as nat));
        }
        assert forall|s: u16| fragment_sequences(first, n).contains(s) implies held.dom().contains(
            s,
        ) by {
            let i = choose|i: nat| i < n && s == #[trigger] seq_forward(first, i);
            assert(held.contains_key(seq_forward(first, i)));
        }
    }
    lemma_fragment_sequences_len(first, n);
    assert forall|i: nat| i < n implies (#[trigger] held[seq_forward(first, i)]).skip(10)
        == chunk(body, i as int) by {
        assert(order.contains(i as int));
        let j = choose|j: int| 0 <= j < order.len() && order[j] == i as int;
        assert(held[seq_forward(first, order[j] as nat)] == fragment_of(
            channel,
            group,
            first,
            count,
            body,
            order[j],
        ));
        lemma_fragment_of_parts(channel, group, first, count, body, i as int);
    }
    lemma_fragment_round_trip(body, first, held);
}

} // verus!
