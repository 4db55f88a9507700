//! The receiving side of a channel: the window of sequences it accepts,
//! the payloads waiting to be published, and the reports of what is missing.

use crate::byte_buffer_pool::{ByteBuffer, ByteBufferPool, BYTE_BUFFER_SIZE_DEFAULT};
use crate::counter::{bump, count_after};
use crate::int_buffer::{copy_bytes, splice, u16_at, u16_le, IntBuffer};
use crate::nack::{flag_index, flag_set, lemma_flag_index_unique, lemma_set_flag, Nack};
use crate::sequence::{
    is_sequence, lemma_forward_add, lemma_forward_of_distance, lemma_back_distance, lemma_distance_next, lemma_forward_distance, seq_back,
    seq_distance, seq_forward, seq_greater, seq_less, seq_less_or_equal, seq_next, Sequence,
};
use crate::sequence_buffer::SequenceBuffer;
use std::collections::VecDeque;
use vstd::prelude::*;

verus! {

/// The widest receive window a channel can have.
pub const RECEIVE_WINDOW_SIZE_MAX: u32 = 16384;

/// The width of the window that a channel configured with
/// `receive_window_size` gets: that size, but at least 1 and at most 16384.
pub open spec fn window_for(receive_window_size: u32) -> u16 {
    if receive_window_size < 1 {
        1
    } else if receive_window_size > RECEIVE_WINDOW_SIZE_MAX {
        RECEIVE_WINDOW_SIZE_MAX as u16
    } else {
        receive_window_size as u16
    }
}

/// The sequence `window` steps before `current`: the last one outside the
/// window that ends at `current`.
pub open spec fn window_floor(current: u16, window: u16) -> u16 {
    if current >= window {
        (current - window) as u16
    } else {
        (current + 65535 - window) as u16
    }
}

/// `q` lies in the window of `window` sequences that ends at `current`.
pub open spec fn in_window(current: u16, window: u16, q: u16) -> bool {
    seq_less(window_floor(current, window), q) && seq_less_or_equal(q, current)
}

/// A sequence lies in the window exactly if it is fewer than `window` steps
/// behind `current`.
pub proof fn lemma_in_window_distance(current: u16, window: u16, q: u16)
    requires
        is_sequence(current),
        is_sequence(q),
        1 <= window <= 16384,
    ensures
        in_window(current, window, q) <==> seq_distance(q, current) < window,
        seq_less(window_floor(current, window), q) ==> (seq_distance(q, current) < window
            || seq_greater(q, current)),
        seq_greater(q, current) ==> seq_distance(q, current) >= window,
        window_floor(current, window) == seq_back(current, window as nat),
{
    crate::sequence::lemma_back_value(current, window as nat);
}

/// What a slot of the window holds: a sequence that was received and, until
/// it is published, its payload.
pub struct Received {
    pub sequence: u16,
    pub payload: Option<ByteBuffer>,
}

impl Received {
    /// The entry belongs into slot `i` of a window of `window` sequences
    /// that ends at `current`, and its payload starts with a header that
    /// carries its sequence.
    pub open spec fn wf(&self, i: int, current: u16, window: u16) -> bool {
        &&& is_sequence(self.sequence)
        &&& self.sequence % window == i
        &&& seq_distance(self.sequence, current) < window
        &&& self.payload is Some ==> payload_wf(self.payload->0, self.sequence)
    }
}

/// A payload is sound and starts with a header that carries `sequence`.
pub open spec fn payload_wf(payload: ByteBuffer, sequence: u16) -> bool {
    &&& payload.wf()
    &&& payload.length >= 4
    &&& u16_at(payload@, 2) == sequence
}

/// A frame as the window keeps it: with the sequence it was accepted under
/// in its header, which is where a well-formed frame has it anyway.
pub open spec fn payload_bytes(sequence: u16, frame: Seq<u8>) -> Seq<u8> {
    splice(frame, 2, u16_le(sequence))
}

/// What the slot of `q` holds.
pub open spec fn entry_of(buffered: SequenceBuffer<Received>, q: u16) -> Option<Received> {
    buffered.values@[buffered.slot_of(q)]
}

/// `q` has been received and is still known to the window.
pub open spec fn marked(buffered: SequenceBuffer<Received>, q: u16) -> bool {
    entry_of(buffered, q) is Some && entry_of(buffered, q)->0.sequence == q
}

/// `q` has been received and its payload waits to be published.
pub open spec fn ready(buffered: SequenceBuffer<Received>, q: u16) -> bool {
    marked(buffered, q) && entry_of(buffered, q)->0.payload is Some
}

/// The sequences among the `steps` after `from` that have not been received,
/// in ascending order.
pub open spec fn missing_from(buffered: SequenceBuffer<Received>, from: u16, steps: nat) -> Seq<
    u16,
>
    decreases steps,
{
    if steps == 0 {
        Seq::empty()
    } else {
        let before = missing_from(buffered, from, (steps - 1) as nat);
        if marked(buffered, seq_forward(from, steps)) {
            before
        } else {
            before.push(seq_forward(from, steps))
        }
    }
}

/// What a slot keeps when the window moves to end at `current`: its entry,
/// if that is still inside.
pub open spec fn kept(entry: Option<Received>, current: u16, window: u16) -> Option<Received> {
    match entry {
        Some(e) => if seq_distance(e.sequence, current) < window {
            entry
        } else {
            None
        },
        None => None,
    }
}

/// How many of the first `n` slots lose a payload that was never published
/// when the window moves to end at `current`.
pub open spec fn lost_outside(
    values: Seq<Option<Received>>,
    current: u16,
    window: u16,
    n: nat,
) -> nat
    decreases n,
{
    if n == 0 {
        0
    } else {
        let rest = lost_outside(values, current, window, (n - 1) as nat);
        let entry = values[n - 1];
        if entry is Some && entry->0.payload is Some && seq_distance(entry->0.sequence, current)
            >= window {
            rest + 1
        } else {
            rest
        }
    }
}

/// Whether storing into this slot overwrites a payload that was never
/// published.
pub open spec fn lost_by_collision(entry: Option<Received>) -> nat {
    if entry is Some && entry->0.payload is Some {
        1
    } else {
        0
    }
}

/// How many sequences from `from` on, at most `limit`, are ready to be
/// published one after the other without a gap.
pub open spec fn ready_run(buffered: SequenceBuffer<Received>, from: u16, limit: nat) -> nat
    decreases limit,
{
    if limit == 0 || !ready(buffered, seq_next(from)) {
        0
    } else {
        1 + ready_run(buffered, seq_next(from), (limit - 1) as nat)
    }
}

/// How many sequences from `from` on, at most `limit`, have been received
/// one after the other without a gap.
pub open spec fn marked_run(buffered: SequenceBuffer<Received>, from: u16, limit: nat) -> nat
    decreases limit,
{
    if limit == 0 || !marked(buffered, seq_next(from)) {
        0
    } else {
        1 + marked_run(buffered, seq_next(from), (limit - 1) as nat)
    }
}

/// The payloads that wait among the `n` sequences after `from`, in sequence
/// order.
pub open spec fn ready_list(buffered: SequenceBuffer<Received>, from: u16, n: nat) -> Seq<
    ByteBuffer,
>
    decreases n,
{
    if n == 0 {
        Seq::empty()
    } else {
        let before = ready_list(buffered, from, (n - 1) as nat);
        let q = seq_forward(from, n);
        if ready(buffered, q) {
            before.push(entry_of(buffered, q)->0.payload->0)
        } else {
            before
        }
    }
}

/// What a slot holds once the payloads of the `m` sequences after `from`
/// have been published: an entry among them has given its payload away.
pub open spec fn emptied(entry: Option<Received>, from: u16, m: nat) -> Option<Received> {
    match entry {
        Some(e) => if e.payload is Some && 1 <= seq_distance(from, e.sequence) <= m {
            Some(Received { sequence: e.sequence, payload: None })
        } else {
            entry
        },
        None => None,
    }
}

/// A NACK reports `q` missing: `q` is its start, or one of the 32 sequences
/// before its start whose bit is set.
pub open spec fn reports(nack: Nack, q: u16) -> bool {
    nack.start_sequence == q || match flag_index(nack.start_sequence, q) {
        Some(i) => flag_set(nack.flags, i),
        None => false,
    }
}

/// One of the NACKs reports `q` missing.
pub open spec fn reported(nacks: Seq<Nack>, q: u16) -> bool {
    exists|k: int| 0 <= k < nacks.len() && reports(#[trigger] nacks[k], q)
}

/// `q` is one of the sequences of `list` from index `i` on.
pub open spec fn listed_from(list: Seq<u16>, i: int, q: u16) -> bool {
    exists|j: int| i <= j < list.len() && #[trigger] list[j] == q
}

/// `q` is reported by one of the finished NACKs, or by the one being built.
pub open spec fn covered(nacks: Seq<Nack>, have_open: bool, open: Nack, q: u16) -> bool {
    reported(nacks, q) || (have_open && reports(open, q))
}

/// The NACKs made of the sequences of `list` from index `i` on, taken from
/// the last down: those that are finished, and the one being built.
///
/// A sequence that lies 1 to 32 before the start of the NACK being built
/// is flagged in it; any other finishes that NACK and starts the next.
pub open spec fn grouping(list: Seq<u16>, i: int) -> (Seq<Nack>, Option<Nack>)
    decreases list.len() - i,
{
    if i < 0 || i >= list.len() {
        (Seq::empty(), None)
    } else {
        let (finished, open) = grouping(list, i + 1);
        let q = list[i];
        let fresh = Nack { start_sequence: q, flags: 0, nacked_count: 1, sent_count: 0 };
        match open {
            Some(nack) => {
                let d = seq_distance(q, nack.start_sequence);
                if 1 <= d <= 32 {
                    (
                        finished,
                        Some(
                            Nack {
                                flags: nack.flags | (1u32 << ((d - 1) as u32)),
                                nacked_count: (nack.nacked_count + 1) as u32,
                                ..nack
                            },
                        ),
                    )
                } else {
                    (finished.push(nack), Some(fresh))
                }
            },
            None => (finished, Some(fresh)),
        }
    }
}

/// The NACKs that report the sequences of `list`, grouped from the last
/// down.
pub open spec fn grouped(list: Seq<u16>) -> Seq<Nack> {
    let (finished, open) = grouping(list, 0);
    match open {
        Some(nack) => finished.push(nack),
        None => finished,
    }
}

/// How many sequences the NACKs count between them.
pub open spec fn total_nacked(nacks: Seq<Nack>) -> nat
    decreases nacks.len(),
{
    if nacks.len() == 0 {
        0
    } else {
        total_nacked(nacks.drop_last()) + nacks.last().nacked_count as nat
    }
}

pub struct Receiver {
    pub is_ordered: bool,
    pub receive_window_size: u32,
    pub current_sequence: u16,
    pub last_sequence: u16,
    pub buffered: SequenceBuffer<Received>,
    pub buffer_pool: ByteBufferPool,
    pub published: VecDeque<ByteBuffer>,
    pub nack_list: Vec<Nack>,
    pub nack_queue: VecDeque<Nack>,
    pub resend_list: Vec<u16>,
    pub skipped_sequences: u64,
}

impl Receiver {
    /// The width of the receive window.
    pub open spec fn window(&self) -> u16 {
        self.buffered.partition_by
    }

    /// What the slot of `q` holds.
    pub open spec fn entry(&self, q: u16) -> Option<Received> {
        entry_of(self.buffered, q)
    }

    /// `q` has been received and is still known to the window.
    pub open spec fn is_marked(&self, q: u16) -> bool {
        marked(self.buffered, q)
    }

    /// `q` has been received and its payload waits to be published.
    pub open spec fn is_ready(&self, q: u16) -> bool {
        ready(self.buffered, q)
    }

    /// The receiver's invariant. Every occupied slot holds a sequence of the
    /// window that ends at `current_sequence`; `last_sequence` is not
    /// farther behind than the window is wide.
    pub open spec fn wf(&self) -> bool {
        &&& self.buffered.wf()
        &&& 1 <= self.buffered.partition_by <= 16384
        &&& self.receive_window_size == self.buffered.partition_by
        &&& is_sequence(self.current_sequence)
        &&& is_sequence(self.last_sequence)
        &&& seq_distance(self.last_sequence, self.current_sequence) <= self.buffered.partition_by
        &&& self.buffer_pool.wf()
        &&& forall|i: int|
            0 <= i < self.buffered.values@.len() && self.buffered.values@[i] is Some ==> (
            #[trigger] self.buffered.values@[i])->0.wf(
                i,
                self.current_sequence,
                self.buffered.partition_by,
            )
        &&& forall|k: int|
            0 <= k < self.published@.len() ==> (#[trigger] self.published@[k]).wf()
                && self.published@[k].length >= 4
    }

    /// The sequences missing between `last_sequence` and `current_sequence`,
    /// both left out.
    pub open spec fn missing(&self) -> Seq<u16> {
        let d = seq_distance(self.last_sequence, self.current_sequence);
        if d <= 1 {
            Seq::empty()
        } else {
            missing_from(self.buffered, self.last_sequence, (d - 1) as nat)
        }
    }

    /// A receiver that has seen nothing. The window is `receive_window_size`
    /// wide, but at least 1 and at most 16384.
    #[must_use]
    pub fn create(is_ordered: bool, receive_window_size: u32) -> (r: Self)
        ensures
            r.wf(),
            r.is_ordered == is_ordered,
            r.window() == window_for(receive_window_size),
            r.receive_window_size == window_for(receive_window_size),
            r.current_sequence == 0,
            r.last_sequence == 0,
            r.skipped_sequences == 0,
            r.published@.len() == 0,
            r.nack_list@.len() == 0,
            r.nack_queue@.len() == 0,
            r.resend_list@.len() == 0,
            forall|i: int| 0 <= i < r.window() ==> r.buffered.values@[i] is None,
    {
        let window: u16 = if receive_window_size < 1 {
            1
        } else if receive_window_size > RECEIVE_WINDOW_SIZE_MAX {
            RECEIVE_WINDOW_SIZE_MAX as u16
        } else {
            receive_window_size as u16
        };
        Receiver {
            is_ordered,
            receive_window_size: window as u32,
            current_sequence: 0,
            last_sequence: 0,
            buffered: SequenceBuffer::create(window),
            buffer_pool: ByteBufferPool::create(BYTE_BUFFER_SIZE_DEFAULT, window as usize),
            published: VecDeque::new(),
            nack_list: Vec::new(),
            nack_queue: VecDeque::new(),
            resend_list: Vec::new(),
            skipped_sequences: 0,
        }
    }

    /// How many steps lead from `from` forward to `to`.
    pub fn distance(from: u16, to: u16) -> (r: u16)
        requires
            is_sequence(from),
            is_sequence(to),
        ensures
            r == seq_distance(from, to),
            r <= 65534,
    {
        if to >= from {
            to - from
        } else {
            (to as u32 + 65535 - from as u32) as u16
        }
    }

    /// Whether `q` has been received and is still known to the window.
    pub fn is_received(&self, q: u16) -> (r: bool)
        requires
            self.wf(),
        ensures
            r == self.is_marked(q),
    {
        match self.buffered.get(q) {
            Some(entry) => entry.sequence == q,
            None => false,
        }
    }

    /// Whether a packet with this sequence is taken in: it is a sequence,
    /// has not been received, and is either ahead of `current_sequence`
    /// without being behind the start of its window, or inside the window and
    /// ahead of `last_sequence`.
    pub open spec fn accepts(&self, s: u16) -> bool {
        &&& is_sequence(s)
        &&& !self.is_marked(s)
        &&& ((seq_greater(s, self.current_sequence) && seq_less(
            window_floor(self.current_sequence, self.window()),
            s,
        )) || (seq_distance(s, self.current_sequence) < self.window() && seq_distance(
            s,
            self.current_sequence,
        ) < seq_distance(self.last_sequence, self.current_sequence)))
    }

    /// `mid` is this receiver after it has taken in sequence `s` with the
    /// payload `bytes`: the window ends at `s` if `s` was ahead, entries that
    /// fell out of it are gone, `last_sequence` is no farther behind than the
    /// window is wide, and the slot of `s` holds the payload. Each payload
    /// that was dropped unpublished counts as skipped.
    pub open spec fn stored_as(&self, mid: Receiver, s: u16, bytes: Seq<u8>) -> bool {
        let current = if seq_greater(s, self.current_sequence) {
            s
        } else {
            self.current_sequence
        };
        let window = self.window();
        let slot = self.buffered.slot_of(s);
        &&& mid.wf()
        &&& mid.is_ordered == self.is_ordered
        &&& mid.window() == window
        &&& mid.current_sequence == current
        &&& mid.last_sequence == (if seq_distance(self.last_sequence, current) > window {
            window_floor(current, window)
        } else {
            self.last_sequence
        })
        &&& mid.is_ready(s)
        &&& mid.entry(s)->0.payload->0.used() == bytes
        &&& forall|i: int|
            0 <= i < window && i != slot ==> #[trigger] mid.buffered.values@[i] == kept(
                self.buffered.values@[i],
                current,
                window,
            )
        &&& mid.published == self.published
        &&& mid.nack_list == self.nack_list
        &&& mid.nack_queue == self.nack_queue
        &&& mid.skipped_sequences == count_after(
            self.skipped_sequences,
            lost_outside(self.buffered.values@, current, window, window as nat)
                + lost_by_collision(
                kept(self.buffered.values@[slot], current, window),
            ),
        )
    }

    /// Moves the window so that it ends at `s`, which is ahead of it.
    fn advance_to(&mut self, s: u16)
        requires
            old(self).wf(),
            is_sequence(s),
            seq_greater(s, old(self).current_sequence),
        ensures
            final(self).wf(),
            final(self).is_ordered == old(self).is_ordered,
            final(self).window() == old(self).window(),
            final(self).current_sequence == s,
            final(self).last_sequence
                == (if seq_distance(old(self).last_sequence, s) > old(self).window() {
                window_floor(s, old(self).window())
            } else {
                old(self).last_sequence
            }),
            forall|i: int|
                0 <= i < old(self).window() ==> #[trigger] final(self).buffered.values@[i] == kept(
                    old(self).buffered.values@[i],
                    s,
                    old(self).window(),
                ),
            final(self).published == old(self).published,
            final(self).nack_list == old(self).nack_list,
            final(self).nack_queue == old(self).nack_queue,
            final(self).resend_list == old(self).resend_list,
            final(self).skipped_sequences == count_after(
                old(self).skipped_sequences,
                lost_outside(old(self).buffered.values@, s, old(self).window(), old(self).window() as nat),
            ),
    {
        let window = self.buffered.partition_by;
        let mut i: usize = 0;
        while i < window as usize
            invariant
                i <= window,
                window == old(self).window(),
                1 <= window <= 16384,
                is_sequence(s),
                self.buffered.wf(),
                self.buffered.partition_by == window,
                self.buffer_pool.wf(),
                self.is_ordered == old(self).is_ordered,
                self.receive_window_size == old(self).receive_window_size,
                self.current_sequence == old(self).current_sequence,
                self.last_sequence == old(self).last_sequence,
                self.published == old(self).published,
                self.nack_list == old(self).nack_list,
                self.nack_queue == old(self).nack_queue,
                self.resend_list == old(self).resend_list,
                forall|j: int|
                    0 <= j < i ==> #[trigger] self.buffered.values@[j] == kept(
                        old(self).buffered.values@[j],
                        s,
                        window,
                    ),
                forall|j: int|
                    i <= j < window
                        ==> #[trigger] self.buffered.values@[j] == old(self).buffered.values@[j],
                self.skipped_sequences == count_after(
                    old(self).skipped_sequences,
                    lost_outside(old(self).buffered.values@, s, window, i as nat),
                ),
                forall|j: int|
                    0 <= j < window && old(self).buffered.values@[j] is Some ==> (
                    #[trigger] old(self).buffered.values@[j])->0.wf(
                        j,
                        old(self).current_sequence,
                        window,
                    ),
            decreases window - i,
        {
            let outside = match self.buffered.get_at_index(i) {
                Some(entry) => Self::distance(entry.sequence, s) >= window,
                None => false,
            };
            if outside {
                let entry = self.buffered.values[i].take();
                match entry {
                    Some(Received { sequence: _, payload: Some(payload) }) => {
                        self.skipped_sequences = bump(self.skipped_sequences);
                        self.buffer_pool.return_buffer(payload);
                    },
                    _ => {},
                }
            }
            i = i + 1;
        }
        self.current_sequence = s;
        if Self::distance(self.last_sequence, s) > window {
            self.last_sequence = if s >= window {
                s - window
            } else {
                (s as u32 + 65535 - window as u32) as u16
            };
        }
    }

    /// Puts a payload of the first `length` bytes of `data` into the slot of
    /// `s`, which lies in the window and has not been received. The payload
    /// is kept with `s` in its header.
    fn store(&mut self, s: u16, data: &[u8], length: usize)
        requires
            old(self).wf(),
            is_sequence(s),
            seq_distance(s, old(self).current_sequence) < old(self).window(),
            !old(self).is_marked(s),
            4 <= length <= data@.len(),
        ensures
            final(self).wf(),
            final(self).is_ordered == old(self).is_ordered,
            final(self).window() == old(self).window(),
            final(self).current_sequence == old(self).current_sequence,
            final(self).last_sequence == old(self).last_sequence,
            final(self).is_ready(s),
            final(self).entry(s)->0.payload->0.used() == payload_bytes(
                s,
                data@.subrange(0, length as int),
            ),
            forall|i: int|
                0 <= i < old(self).window() && i != old(self).buffered.slot_of(s)
                    ==> #[trigger] final(self).buffered.values@[i]
                        == old(self).buffered.values@[i],
            final(self).published == old(self).published,
            final(self).nack_list == old(self).nack_list,
            final(self).nack_queue == old(self).nack_queue,
            final(self).resend_list == old(self).resend_list,
            final(self).skipped_sequences == count_after(
                old(self).skipped_sequences,
                lost_by_collision(old(self).entry(s)),
            ),
    {
        let mut payload = self.buffer_pool.get_buffer(length);
        copy_bytes(payload.get_mut(), 0, data, 0, length);
        let mut writer = IntBuffer { index: 2 };
        writer.write_u16(s, payload.get_mut());
        assert(payload.used() =~= payload_bytes(s, data@.subrange(0, length as int)));
        match self.buffered.take(s) {
            Some(Received { sequence: _, payload: Some(lost) }) => {
                self.skipped_sequences = bump(self.skipped_sequences);
                self.buffer_pool.return_buffer(lost);
            },
            _ => {},
        }
        self.buffered.insert(s, Received { sequence: s, payload: Some(payload) });
        assert(self.buffered.values@[self.buffered.slot_of(s)] is Some);
        proof {
            reveal_with_fuel(count_after, 2);
        }
    }

    /// `post` is this receiver after publishing. On an ordered channel the
    /// payloads of the sequences that follow `last_sequence` without a gap
    /// have gone to the queue, in order, and `last_sequence` has moved to the
    /// last of them. On an unordered channel every payload that waited ahead
    /// of `last_sequence` has gone to the queue, in sequence order, and
    /// `last_sequence` has moved over the sequences received without a gap.
    pub open spec fn published_as(&self, post: Receiver) -> bool {
        let d = seq_distance(self.last_sequence, self.current_sequence) as nat;
        let m = if self.is_ordered {
            ready_run(self.buffered, self.last_sequence, d)
        } else {
            d
        };
        let advance = if self.is_ordered {
            m
        } else {
            marked_run(self.buffered, self.last_sequence, d)
        };
        &&& post.wf()
        &&& post.is_ordered == self.is_ordered
        &&& post.window() == self.window()
        &&& post.current_sequence == self.current_sequence
        &&& post.last_sequence == seq_forward(self.last_sequence, advance)
        &&& post.published@ == self.published@ + ready_list(self.buffered, self.last_sequence, m)
        &&& forall|i: int|
            0 <= i < self.window() ==> #[trigger] post.buffered.values@[i] == emptied(
                self.buffered.values@[i],
                self.last_sequence,
                m,
            )
        &&& post.nack_list == self.nack_list
        &&& post.nack_queue == self.nack_queue
        &&& post.skipped_sequences == self.skipped_sequences
    }

    /// Moves waiting payloads to the queue, walking the sequences after
    /// `last_sequence` up to `current_sequence`, or up to the first that is
    /// not ready if `stop_at_gap`. Returns how many sequences it walked and
    /// the last of them.
    fn publish_ready(&mut self, stop_at_gap: bool) -> (r: (u16, u16))
        requires
            old(self).wf(),
        ensures
            final(self).wf(),
            final(self).is_ordered == old(self).is_ordered,
            final(self).window() == old(self).window(),
            final(self).current_sequence == old(self).current_sequence,
            final(self).last_sequence == old(self).last_sequence,
            final(self).nack_list == old(self).nack_list,
            final(self).nack_queue == old(self).nack_queue,
            final(self).resend_list == old(self).resend_list,
            final(self).skipped_sequences == old(self).skipped_sequences,
            r.0 <= seq_distance(old(self).last_sequence, old(self).current_sequence),
            r.0 == (if stop_at_gap {
                ready_run(
                    old(self).buffered,
                    old(self).last_sequence,
                    seq_distance(old(self).last_sequence, old(self).current_sequence) as nat,
                )
            } else {
                seq_distance(old(self).last_sequence, old(self).current_sequence) as nat
            }),
            r.1 == seq_forward(old(self).last_sequence, r.0 as nat),
            is_sequence(r.1),
            seq_distance(old(self).last_sequence, r.1) == r.0,
            final(self).published@ == old(self).published@ + ready_list(
                old(self).buffered,
                old(self).last_sequence,
                r.0 as nat,
            ),
            forall|i: int|
                0 <= i < old(self).window() ==> #[trigger] final(self).buffered.values@[i]
                    == emptied(old(self).buffered.values@[i], old(self).last_sequence, r.0 as nat),
    {
        let d = Self::distance(self.last_sequence, self.current_sequence);
        let ghost last0 = self.last_sequence;
        let ghost pre = old(self).buffered;
        let mut q = self.last_sequence;
        let mut k: u16 = 0;
        let mut going = true;
        assert(self.published@ =~= old(self).published@ + ready_list(pre, last0, 0));
        while going && k < d
            invariant
                k <= d,
                d == seq_distance(last0, old(self).current_sequence),
                d <= old(self).window(),
                last0 == old(self).last_sequence,
                pre == old(self).buffered,
                old(self).wf(),
                self.wf(),
                self.is_ordered == old(self).is_ordered,
                self.window() == old(self).window(),
                self.current_sequence == old(self).current_sequence,
                self.last_sequence == old(self).last_sequence,
                self.nack_list == old(self).nack_list,
                self.nack_queue == old(self).nack_queue,
                self.resend_list == old(self).resend_list,
                self.skipped_sequences == old(self).skipped_sequences,
                is_sequence(q),
                q == seq_forward(last0, k as nat),
                seq_distance(last0, q) == k,
                !going ==> stop_at_gap && !ready(pre, seq_next(q)),
                stop_at_gap ==> ready_run(pre, last0, d as nat) == k + ready_run(
                    pre,
                    q,
                    (d - k) as nat,
                ),
                self.published@ == old(self).published@ + ready_list(pre, last0, k as nat),
                forall|i: int|
                    0 <= i < old(self).window() ==> #[trigger] self.buffered.values@[i] == emptied(
                        pre.values@[i],
                        last0,
                        k as nat,
                    ),
            decreases (if going { 1int } else { 0int }) + d - k,
        {
            let next = Sequence::next_sequence(q);
            proof {
                lemma_distance_next(last0, q);
                lemma_emptied_same(pre, self.buffered, last0, k as nat, next);
            }
            let is_ready = match self.buffered.get(next) {
                Some(entry) => entry.sequence == next && entry.payload.is_some(),
                None => false,
            };
            if is_ready {
                match self.buffered.take(next) {
                    Some(Received { sequence: _, payload: Some(payload) }) => {
                        self.buffered.insert(next, Received { sequence: next, payload: None });
                        self.published.push_back(payload);
                    },
                    _ => {},
                }
                proof {
                    assert(self.published@ =~= old(self).published@ + ready_list(
                        pre,
                        last0,
                        (k + 1) as nat,
                    ));
                    assert forall|i: int| 0 <= i < old(self).window() implies (
                    #[trigger] self.buffered.values@[i]) == emptied(
                        pre.values@[i],
                        last0,
                        (k + 1) as nat,
                    ) by {
                        lemma_emptied_step(pre, last0, k as nat, next, i, old(self).current_sequence);
                    }
                }
                q = next;
                k = k + 1;
            } else if stop_at_gap {
                going = false;
            } else {
                proof {
                    assert forall|i: int| 0 <= i < old(self).window() implies (
                    #[trigger] self.buffered.values@[i]) == emptied(
                        pre.values@[i],
                        last0,
                        (k + 1) as nat,
                    ) by {
                        lemma_emptied_step(pre, last0, k as nat, next, i, old(self).current_sequence);
                    }
                }
                q = next;
                k = k + 1;
            }
        }
        (k, q)
    }

    /// Hands to the queue what can be published.
    ///
    /// On an ordered channel that is the run of payloads that follow
    /// `last_sequence` without a gap; on an unordered one, every payload that
    /// waits. `last_sequence` moves forward over what has been received
    /// without a gap.
    pub fn publish(&mut self)
        requires
            old(self).wf(),
        ensures
            old(self).published_as(*final(self)),
            final(self).resend_list == old(self).resend_list,
    {
        let ordered = self.is_ordered;
        let (m, end) = self.publish_ready(ordered);
        if ordered {
            self.last_sequence = end;
            return ;
        }
        let ghost pre = old(self).buffered;
        let ghost last0 = self.last_sequence;
        let d = Self::distance(self.last_sequence, self.current_sequence);
        let mut j: u16 = 0;
        let mut going = true;
        let ghost mid = *self;
        proof {
            assert forall|x: u16| marked(self.buffered, x) == marked(pre, x) by {}
            lemma_marked_run_same(self.buffered, pre, last0, d as nat);
        }
        while going && j < d
            invariant
                j <= d,
                self.is_ordered == mid.is_ordered,
                self.buffered == mid.buffered,
                self.published == mid.published,
                self.nack_list == mid.nack_list,
                self.nack_queue == mid.nack_queue,
                self.resend_list == mid.resend_list,
                self.skipped_sequences == mid.skipped_sequences,
                self.current_sequence == mid.current_sequence,
                d <= self.window(),
                d == seq_distance(last0, self.current_sequence),
                is_sequence(last0),
                is_sequence(self.last_sequence),
                self.last_sequence == seq_forward(last0, j as nat),
                seq_distance(last0, self.last_sequence) == j,
                seq_distance(self.last_sequence, self.current_sequence) == d - j,
                !going ==> !marked(self.buffered, seq_next(self.last_sequence)),
                marked_run(self.buffered, last0, d as nat) == j + marked_run(
                    self.buffered,
                    self.last_sequence,
                    (d - j) as nat,
                ),
                self.buffered.wf(),
                1 <= self.buffered.partition_by <= 16384,
                self.receive_window_size == self.buffered.partition_by,
                is_sequence(self.current_sequence),
                self.buffer_pool.wf(),
                forall|i: int|
                    0 <= i < self.buffered.values@.len() && self.buffered.values@[i] is Some ==> (
                    #[trigger] self.buffered.values@[i])->0.wf(
                        i,
                        self.current_sequence,
                        self.buffered.partition_by,
                    ),
                forall|k: int|
                    0 <= k < self.published@.len() ==> (#[trigger] self.published@[k]).wf()
                        && self.published@[k].length >= 4,
            decreases (if going { 1int } else { 0int }) + d - j,
        {
            let next = Sequence::next_sequence(self.last_sequence);
            proof {
                lemma_distance_next(last0, self.last_sequence);
            }
            let is_marked = match self.buffered.get(next) {
                Some(entry) => entry.sequence == next,
                None => false,
            };
            if is_marked {
                self.last_sequence = next;
                j = j + 1;
            } else {
                going = false;
            }
        }
    }

    /// `post` is this receiver after the packet `frame` has come in under
    /// `sequence`, and `r` says whether it was accepted.
    ///
    /// It is accepted if it is long enough to hold a header and the receiver
    /// accepts the sequence. A packet that is not accepted changes nothing.
    /// One that is accepted is stored, then what can be published is
    /// published, and the list of missing sequences is made anew.
    pub open spec fn received_as(
        &self,
        post: &Receiver,
        sequence: u16,
        frame: Seq<u8>,
        r: bool,
    ) -> bool {
        &&& post.wf()
        &&& r == (frame.len() >= 4 && self.accepts(sequence))
        &&& !r ==> {
            &&& post.is_ordered == self.is_ordered
            &&& post.receive_window_size == self.receive_window_size
            &&& post.current_sequence == self.current_sequence
            &&& post.last_sequence == self.last_sequence
            &&& post.buffered == self.buffered
            &&& post.buffer_pool == self.buffer_pool
            &&& post.published == self.published
            &&& post.nack_list == self.nack_list
            &&& post.nack_queue == self.nack_queue
            &&& post.resend_list == self.resend_list
            &&& post.skipped_sequences == self.skipped_sequences
        }
        &&& r ==> {
            &&& exists|mid: Receiver|
                #[trigger] self.stored_as(mid, sequence, payload_bytes(sequence, frame))
                    && mid.published_as(*post)
            &&& post.resend_list@ == post.missing()
            &&& post.is_marked(sequence)
        }
    }

    /// Takes in the packet with the given sequence, which is the first
    /// `length` bytes of `data`.
    ///
    /// Returns whether the packet was accepted, which one that is too short
    /// to hold a header never is. One that is not accepted leaves the
    /// receiver as it was. One that is goes into the window, which moves
    /// forward if the sequence is ahead of it; then what can be published is
    /// published, and the list of missing sequences is made anew.
    pub fn receive_packet(&mut self, sequence: u16, data: &[u8], length: usize) -> (r: bool)
        requires
            old(self).wf(),
            length <= data@.len(),
        ensures
            old(self).received_as(final(self), sequence, data@.subrange(0, length as int), r),
    {
        if length < 4 || sequence >= 65535 {
            return false;
        }
        if self.is_received(sequence) {
            return false;
        }
        let window = self.buffered.partition_by;
        let ahead = Sequence::is_greater_then(sequence, self.current_sequence);
        proof {
            lemma_in_window_distance(self.current_sequence, window, sequence);
            lemma_nothing_outside(*self, window as nat);
        }
        if ahead {
            let floor = if self.current_sequence >= window {
                self.current_sequence - window
            } else {
                (self.current_sequence as u32 + 65535 - window as u32) as u16
            };
            if !Sequence::is_less_than(floor, sequence) {
                return false;
            }
            self.advance_to(sequence);
        } else {
            let behind = Self::distance(sequence, self.current_sequence);
            if behind >= window || behind >= Self::distance(
                self.last_sequence,
                self.current_sequence,
            ) {
                return false;
            }
        }
        let ghost advanced = *self;
        self.store(sequence, data, length);
        let ghost mid = *self;
        proof {
            let current = if seq_greater(sequence, old(self).current_sequence) {
                sequence
            } else {
                old(self).current_sequence
            };
            lemma_count_after_sum(
                old(self).skipped_sequences,
                lost_outside(old(self).buffered.values@, current, window, window as nat),
                lost_by_collision(advanced.entry(sequence)),
            );
            assert(old(self).stored_as(
                mid,
                sequence,
                payload_bytes(sequence, data@.subrange(0, length as int)),
            ));
        }
        self.publish();
        proof {
            let slot = mid.buffered.slot_of(sequence);
            assert(self.buffered.values@[slot] == emptied(
                mid.buffered.values@[slot],
                mid.last_sequence,
                (if mid.is_ordered {
                    ready_run(
                        mid.buffered,
                        mid.last_sequence,
                        seq_distance(mid.last_sequence, mid.current_sequence) as nat,
                    )
                } else {
                    seq_distance(mid.last_sequence, mid.current_sequence) as nat
                }),
            ));
        }
        self.set_resend_list();
        assert(mid.published_as(*self));
        true
    }

    /// Reports what is missing between `last_sequence` and
    /// `current_sequence`.
    ///
    /// The missing sequences are listed anew and grouped from the highest
    /// down: a NACK starts at a missing sequence and flags those missing
    /// among the 32 before it; the next missing one starts the next NACK.
    /// The NACKs replace `nack_list` and join the end of `nack_queue`. Returns
    /// how many sequences are reported.
    pub fn create_nacks(&mut self) -> (r: u32)
        requires
            old(self).wf(),
        ensures
            final(self).wf(),
            final(self).is_ordered == old(self).is_ordered,
            final(self).current_sequence == old(self).current_sequence,
            final(self).last_sequence == old(self).last_sequence,
            final(self).buffered == old(self).buffered,
            final(self).buffer_pool == old(self).buffer_pool,
            final(self).published == old(self).published,
            final(self).skipped_sequences == old(self).skipped_sequences,
            final(self).resend_list@ == old(self).missing(),
            r == final(self).resend_list@.len(),
            final(self).nack_list@.len() <= final(self).resend_list@.len(),
            final(self).resend_list@.len() < old(self).window(),
            final(self).nack_list@ == grouped(final(self).resend_list@),
            final(self).nack_queue@ == old(self).nack_queue@ + final(self).nack_list@,
            forall|q: u16|
                final(self).resend_list@.contains(q) <==> #[trigger] reported(
                    final(self).nack_list@,
                    q,
                ),
            forall|k: int|
                0 <= k < final(self).nack_list@.len()
                    ==> (#[trigger] final(self).nack_list@[k]).sent_count == 0,
            total_nacked(final(self).nack_list@) == r,
    {
        self.set_resend_list();
        self.nack_list.clear();
        let n = self.resend_list.len();
        let mut i: usize = n;
        let mut have_open = false;
        let mut nack = Nack { start_sequence: 0, flags: 0, nacked_count: 0, sent_count: 0 };
        let ghost mid = *self;
        assert(self.nack_queue@ =~= old(self).nack_queue@ + self.nack_list@);
        while i > 0
            invariant
                i <= n,
                n == self.resend_list@.len(),
                n < 16384,
                self.wf(),
                self.is_ordered == mid.is_ordered,
                self.current_sequence == mid.current_sequence,
                self.last_sequence == mid.last_sequence,
                self.buffered == mid.buffered,
                self.buffer_pool == mid.buffer_pool,
                self.published == mid.published,
                self.skipped_sequences == mid.skipped_sequences,
                self.resend_list == mid.resend_list,
                forall|k: int|
                    0 <= k < self.resend_list@.len() ==> is_sequence(
                        #[trigger] self.resend_list@[k],
                    ),
                self.nack_queue@ == old(self).nack_queue@ + self.nack_list@,
                have_open ==> is_sequence(nack.start_sequence) && nack.sent_count == 0,
                !have_open ==> nack.nacked_count == 0,
                grouping(self.resend_list@, i as int) == (
                    self.nack_list@,
                    if have_open {
                        Some(nack)
                    } else {
                        None
                    },
                ),
                total_nacked(self.nack_list@) + nack.nacked_count == n - i,
                self.nack_list@.len() + (if have_open { 1int } else { 0int }) <= n - i,
                forall|q: u16|
                    listed_from(self.resend_list@, i as int, q) <==> #[trigger] covered(
                        self.nack_list@,
                        have_open,
                        nack,
                        q,
                    ),
                forall|k: int|
                    0 <= k < self.nack_list@.len() ==> (#[trigger] self.nack_list@[k]).sent_count
                        == 0,
            decreases i,
        {
            i = i - 1;
            let q = self.resend_list[i];
            let ghost list = self.nack_list@;
            let ghost was_open = have_open;
            let ghost was = nack;
            let mut placed = false;
            if have_open {
                let d = Self::distance(q, nack.start_sequence);
                if d >= 1 && d <= 32 {
                    nack.set_bits((d - 1) as i32, true);
                    nack.nacked_count = nack.nacked_count + 1;
                    placed = true;
                    proof {
                        lemma_report_added(was, nack, d as int, q);
                    }
                } else {
                    self.nack_list.push(nack);
                    self.nack_queue.push_back(nack);
                    proof {
                        lemma_reported_push(list, nack);
                        assert(self.nack_list@.drop_last() =~= list);
                        assert(self.nack_queue@ =~= old(self).nack_queue@ + self.nack_list@);
                    }
                }
            }
            if !placed {
                nack = Nack { start_sequence: q, flags: 0, nacked_count: 1, sent_count: 0 };
                have_open = true;
                proof {
                    lemma_report_fresh(q);
                }
            }
            proof {
                assert forall|x: u16|
                    listed_from(self.resend_list@, i as int, x) <==> #[trigger] covered(
                        self.nack_list@,
                        have_open,
                        nack,
                        x,
                    ) by {
                    assert(listed_from(self.resend_list@, i + 1, x) <==> covered(
                        list,
                        was_open,
                        was,
                        x,
                    ));
                    if x == q {
                        assert(self.resend_list@[i as int] == x);
                    }
                    if listed_from(self.resend_list@, i as int, x) {
                        let j = choose|j: int|
                            i <= j < self.resend_list@.len() && #[trigger] self.resend_list@[j]
                                == x;
                        if j != i {
                            assert(i + 1 <= j < n && self.resend_list@[j] == x);
                        }
                    }
                    if listed_from(self.resend_list@, i + 1, x) {
                        let j = choose|j: int|
                            i + 1 <= j < self.resend_list@.len() && #[trigger] self.resend_list@[j]
                                == x;
                        assert(i <= j < n && self.resend_list@[j] == x);
                    }
                    assert(listed_from(self.resend_list@, i as int, x) <==> (listed_from(
                        self.resend_list@,
                        i + 1,
                        x,
                    ) || x == q));
                    if placed {
                        assert(reports(nack, x) <==> (reports(was, x) || x == q));
                    } else {
                        assert(reports(nack, x) <==> x == q);
                        if was_open {
                            assert(reported(self.nack_list@, x) <==> (reported(list, x) || reports(
                                was,
                                x,
                            )));
                        }
                    }
                }
            }
        }
        if have_open {
            let ghost list = self.nack_list@;
            self.nack_list.push(nack);
            self.nack_queue.push_back(nack);
            proof {
                lemma_reported_push(list, nack);
                assert(self.nack_list@.drop_last() =~= list);
                assert(self.nack_queue@ =~= old(self).nack_queue@ + self.nack_list@);
                assert forall|q: u16|
                    listed_from(self.resend_list@, 0, q) <==> #[trigger] covered(
                        self.nack_list@,
                        false,
                        nack,
                        q,
                    ) by {
                    assert(listed_from(self.resend_list@, 0, q) <==> covered(list, true, nack, q));
                }
            }
        }
        proof {
            assert forall|q: u16| self.resend_list@.contains(q) <==> #[trigger] reported(
                self.nack_list@,
                q,
            ) by {
                assert(listed_from(self.resend_list@, 0, q) <==> covered(
                    self.nack_list@,
                    false,
                    nack,
                    q,
                ));
                if self.resend_list@.contains(q) {
                    let j = choose|j: int|
                        0 <= j < self.resend_list@.len() && self.resend_list@[j] == q;
                    assert(0 <= j < n && self.resend_list@[j] == q);
                }
                if listed_from(self.resend_list@, 0, q) {
                    let j = choose|j: int|
                        0 <= j < self.resend_list@.len() && #[trigger] self.resend_list@[j] == q;
                    assert(self.resend_list@[j] == q);
                }
            }
        }
        n as u32
    }

    /// Takes the payload that has waited longest to be handed to the
    /// application.
    pub fn take_published(&mut self) -> (r: Option<ByteBuffer>)
        requires
            old(self).wf(),
        ensures
            final(self).wf(),
            *final(self) == (Receiver { published: final(self).published, ..*old(self) }),
            match r {
                Some(payload) => {
                    &&& old(self).published@.len() > 0
                    &&& payload == old(self).published@[0]
                    &&& payload.wf()
                    &&& payload.length >= 4
                    &&& final(self).published@ == old(self).published@.subrange(
                        1,
                        old(self).published@.len() as int,
                    )
                },
                None => old(self).published@.len() == 0
                    && final(self).published@ == old(self).published@,
            },
    {
        self.published.pop_front()
    }

    /// Gives a payload's buffer back for reuse once the application is done
    /// with it.
    pub fn return_buffer(&mut self, byte_buffer: ByteBuffer)
        requires
            old(self).wf(),
        ensures
            final(self).wf(),
            *final(self) == (Receiver { buffer_pool: final(self).buffer_pool, ..*old(self) }),
            old(self).buffer_pool.returned_as(
                &final(self).buffer_pool,
                byte_buffer,
                byte_buffer.length <= old(self).buffer_pool.buffer_size && old(
                    self,
                ).buffer_pool.queue().len() < old(self).buffer_pool.limit(),
            ),
    {
        self.buffer_pool.return_buffer(byte_buffer);
    }

    /// Lists anew the sequences that are missing between `last_sequence` and
    /// `current_sequence`.
    pub fn set_resend_list(&mut self)
        requires
            old(self).wf(),
        ensures
            final(self).wf(),
            final(self).resend_list@ == old(self).missing(),
            final(self).resend_list@.len() < old(self).window(),
            forall|k: int|
                0 <= k < final(self).resend_list@.len() ==> is_sequence(
                    #[trigger] final(self).resend_list@[k],
                ),
            final(self).is_ordered == old(self).is_ordered,
            final(self).current_sequence == old(self).current_sequence,
            final(self).last_sequence == old(self).last_sequence,
            final(self).buffered == old(self).buffered,
            final(self).buffer_pool == old(self).buffer_pool,
            final(self).published == old(self).published,
            final(self).nack_list == old(self).nack_list,
            final(self).nack_queue == old(self).nack_queue,
            final(self).skipped_sequences == old(self).skipped_sequences,
            final(self).receive_window_size == old(self).receive_window_size,
    {
        self.resend_list.clear();
        let d = Self::distance(self.last_sequence, self.current_sequence);
        if d <= 1 {
            return ;
        }
        let mut q = self.last_sequence;
        let mut k: u16 = 0;
        while k < d - 1
            invariant
                1 < d <= 16384,
                k <= d - 1,
                self.wf(),
                is_sequence(q),
                q == seq_forward(self.last_sequence, k as nat),
                self.resend_list@ == missing_from(self.buffered, self.last_sequence, k as nat),
                self.resend_list@.len() <= k,
                forall|j: int|
                    0 <= j < self.resend_list@.len()
                        ==> is_sequence(#[trigger] self.resend_list@[j]),
                self.is_ordered == old(self).is_ordered,
                self.current_sequence == old(self).current_sequence,
                self.last_sequence == old(self).last_sequence,
                self.buffered == old(self).buffered,
                self.buffer_pool == old(self).buffer_pool,
                self.published == old(self).published,
                self.nack_list == old(self).nack_list,
                self.nack_queue == old(self).nack_queue,
                self.skipped_sequences == old(self).skipped_sequences,
                self.receive_window_size == old(self).receive_window_size,
            decreases d - 1 - k,
        {
            q = Sequence::next_sequence(q);
            k = k + 1;
            if !self.is_received(q) {
                self.resend_list.push(q);
            }
        }
    }
}

/// Publishing the payloads of the first `k` sequences after `from` leaves
/// the sequence one step further as it was.
pub proof fn lemma_emptied_same(
    pre: SequenceBuffer<Received>,
    post: SequenceBuffer<Received>,
    from: u16,
    k: nat,
    next: u16,
)
    requires
        pre.wf(),
        post.partition_by == pre.partition_by,
        post.values@.len() == pre.values@.len(),
        is_sequence(from),
        is_sequence(next),
        seq_distance(from, next) == k + 1,
        forall|i: int|
            0 <= i < pre.partition_by ==> #[trigger] post.values@[i] == emptied(
                pre.values@[i],
                from,
                k,
            ),
    ensures
        marked(post, next) == marked(pre, next),
        ready(post, next) == ready(pre, next),
        ready(pre, next) ==> entry_of(post, next) == entry_of(pre, next),
{
    let i = pre.slot_of(next);
    assert(post.values@[i] == emptied(pre.values@[i], from, k));
}

/// What one more step of publishing does to a slot.
pub proof fn lemma_emptied_step(
    pre: SequenceBuffer<Received>,
    from: u16,
    k: nat,
    next: u16,
    i: int,
    current: u16,
)
    requires
        pre.wf(),
        0 <= i < pre.partition_by,
        is_sequence(from),
        is_sequence(next),
        seq_distance(from, next) == k + 1,
        pre.values@[i] is Some ==> pre.values@[i]->0.wf(i, current, pre.partition_by),
    ensures
        emptied(pre.values@[i], from, k + 1) == (if i == pre.slot_of(next) && ready(pre, next) {
            Some(Received { sequence: next, payload: None })
        } else {
            emptied(pre.values@[i], from, k)
        }),
{
    if pre.values@[i] is Some {
        let e = pre.values@[i]->0;
        if seq_distance(from, e.sequence) == k + 1 {
            lemma_back_distance(from, e.sequence);
            lemma_back_distance(from, next);
            assert(e.sequence == next);
        }
    }
}

/// Two rings in which the same sequences are marked have the same runs.
pub proof fn lemma_marked_run_same(
    a: SequenceBuffer<Received>,
    b: SequenceBuffer<Received>,
    from: u16,
    limit: nat,
)
    requires
        forall|x: u16| marked(a, x) == marked(b, x),
    ensures
        marked_run(a, from, limit) == marked_run(b, from, limit),
    decreases limit,
{
    if limit > 0 && marked(a, seq_next(from)) {
        lemma_marked_run_same(a, b, seq_next(from), (limit - 1) as nat);
    }
}

/// While the window stays where it is, nothing falls out of it.
pub proof fn lemma_nothing_outside(receiver: Receiver, n: nat)
    requires
        receiver.wf(),
        n <= receiver.window(),
    ensures
        lost_outside(
            receiver.buffered.values@,
            receiver.current_sequence,
            receiver.window(),
            n,
        ) == 0,
        forall|i: int|
            0 <= i < receiver.window() ==> kept(
                #[trigger] receiver.buffered.values@[i],
                receiver.current_sequence,
                receiver.window(),
            ) == receiver.buffered.values@[i],
    decreases n,
{
    if n > 0 {
        lemma_nothing_outside(receiver, (n - 1) as nat);
    }
}

/// Counting `a` events and then `b` more is counting `a + b`.
pub proof fn lemma_count_after_sum(x: u64, a: nat, b: nat)
    ensures
        count_after(count_after(x, a), b) == count_after(x, a + b),
    decreases b,
{
    if b > 0 {
        lemma_count_after_sum(x, a, (b - 1) as nat);
    }
}

/// Setting the bit of the sequence `d` steps before a NACK's start makes the
/// NACK report that sequence and changes nothing else that it reports.
pub proof fn lemma_report_added(nack: Nack, after: Nack, d: int, q: u16)
    requires
        1 <= d <= 32,
        is_sequence(q),
        is_sequence(nack.start_sequence),
        seq_distance(q, nack.start_sequence) == d,
        after.start_sequence == nack.start_sequence,
        after.flags == nack.flags | (1u32 << ((d - 1) as u32)),
    ensures
        forall|x: u16| #[trigger] reports(after, x) <==> (reports(nack, x) || x == q),
{
    lemma_back_distance(q, nack.start_sequence);
    assert(crate::nack::flag_sequence(nack.start_sequence, d - 1) == q);
    lemma_flag_index_unique(nack.start_sequence, q, d - 1);
    assert forall|x: u16| #[trigger] reports(after, x) <==> (reports(nack, x) || x == q) by {
        match flag_index(nack.start_sequence, x) {
            Some(i) => {
                assert(0 <= i < 32 && crate::nack::flag_sequence(nack.start_sequence, i) == x);
                lemma_set_flag(nack.flags, (d - 1) as u32, i as u32);
            },
            None => {},
        }
    }
}

/// A NACK without flags reports its start and nothing else.
pub proof fn lemma_report_fresh(q: u16)
    ensures
        forall|x: u16|
            #[trigger] reports(
                Nack { start_sequence: q, flags: 0, nacked_count: 1, sent_count: 0 },
                x,
            ) <==> x == q,
{
    assert forall|x: u16|
        #[trigger] reports(
            Nack { start_sequence: q, flags: 0, nacked_count: 1, sent_count: 0 },
            x,
        ) <==> x == q by {
        match flag_index(q, x) {
            Some(i) => {
                assert(0 <= i < 32);
                let b = i as u32;
                assert(0u32 & (1u32 << b) != (1u32 << b)) by (bit_vector)
                    requires
                        b < 32,
                ;
            },
            None => {},
        }
    }
}

/// A list with one more NACK reports what the list reported and what the
/// NACK reports, and counts what both count.
pub proof fn lemma_reported_push(nacks: Seq<Nack>, nack: Nack)
    ensures
        forall|x: u16|
            #[trigger] reported(nacks.push(nack), x) <==> (reported(nacks, x) || reports(nack, x)),
        total_nacked(nacks.push(nack)) == total_nacked(nacks) + nack.nacked_count,
{
    let more = nacks.push(nack);
    assert(more.drop_last() =~= nacks);
    assert forall|x: u16| #[trigger] reported(more, x) <==> (reported(nacks, x) || reports(
        nack,
        x,
    )) by {
        if reported(nacks, x) {
            let k = choose|k: int| 0 <= k < nacks.len() && reports(#[trigger] nacks[k], x);
            assert(more[k] == nacks[k]);
        }
        if reports(nack, x) {
            assert(more[nacks.len() as int] == nack);
        }
        if reported(more, x) {
            let k = choose|k: int| 0 <= k < more.len() && reports(#[trigger] more[k], x);
            if k < nacks.len() {
                assert(more[k] == nacks[k]);
            }
        }
    }
}

/// A run is no longer than its limit.
pub proof fn lemma_ready_run_bound(buffered: SequenceBuffer<Received>, from: u16, limit: nat)
    ensures
        ready_run(buffered, from, limit) <= limit,
    decreases limit,
{
    if limit > 0 && ready(buffered, seq_next(from)) {
        lemma_ready_run_bound(buffered, seq_next(from), (limit - 1) as nat);
    }
}

/// Each sequence within a run of ready sequences is ready.
pub proof fn lemma_run_is_ready(buffered: SequenceBuffer<Received>, from: u16, limit: nat, k: nat)
    requires
        k < ready_run(buffered, from, limit),
    ensures
        ready(buffered, seq_forward(from, k + 1)),
    decreases k,
{
    reveal_with_fuel(seq_forward, 2);
    if k == 0 {
        assert(seq_forward(from, 1) == seq_next(from));
    } else {
        lemma_run_is_ready(buffered, seq_next(from), (limit - 1) as nat, (k - 1) as nat);
        crate::sequence::lemma_forward_shift(from, k);
    }
}

/// Where the first `n` sequences after `from` are all ready, their payloads
/// are what is published, one for each sequence and in that order.
pub proof fn lemma_ready_list_of_run(buffered: SequenceBuffer<Received>, from: u16, n: nat)
    requires
        forall|k: nat| k < n ==> ready(buffered, #[trigger] seq_forward(from, k + 1)),
    ensures
        ready_list(buffered, from, n).len() == n,
        forall|k: int|
            0 <= k < n ==> #[trigger] ready_list(buffered, from, n)[k] == entry_of(
                buffered,
                seq_forward(from, (k + 1) as nat),
            )->0.payload->0,
    decreases n,
{
    if n > 0 {
        lemma_ready_list_of_run(buffered, from, (n - 1) as nat);
        assert(ready(buffered, seq_forward(from, ((n - 1) as nat) + 1)));
    }
}

/// On an ordered channel the payloads that one call of `publish` hands to
/// the queue carry, in their headers, the sequences that follow
/// `last_sequence` one by one: each is the successor of the one before it,
/// and so ahead of it, each is ahead of `last_sequence` as the call found
/// it, and `last_sequence` ends at the last of them.
pub proof fn lemma_ordered_publication(pre: Receiver, post: Receiver)
    requires
        pre.wf(),
        pre.is_ordered,
        pre.published_as(post),
    ensures
        pre.published@.len() <= post.published@.len(),
        post.published@.subrange(0, pre.published@.len() as int) == pre.published@,
        post.last_sequence == seq_forward(
            pre.last_sequence,
            (post.published@.len() - pre.published@.len()) as nat,
        ),
        forall|k: int|
            0 <= k < post.published@.len() - pre.published@.len() ==> u16_at(
                (#[trigger] post.published@[pre.published@.len() + k])@,
                2,
            ) == seq_forward(pre.last_sequence, (k + 1) as nat),
        forall|k: int|
            0 <= k < post.published@.len() - pre.published@.len() - 1 ==> u16_at(
                post.published@[pre.published@.len() + k + 1]@,
                2,
            ) == seq_next(u16_at((#[trigger] post.published@[pre.published@.len() + k])@, 2))
                && seq_greater(
                u16_at(post.published@[pre.published@.len() + k + 1]@, 2),
                u16_at(post.published@[pre.published@.len() + k]@, 2),
            ),
        forall|k: int|
            0 <= k < post.published@.len() - pre.published@.len() ==> seq_greater(
                u16_at((#[trigger] post.published@[pre.published@.len() + k])@, 2),
                pre.last_sequence,
            ),
{
    let d = seq_distance(pre.last_sequence, pre.current_sequence) as nat;
    let n = ready_run(pre.buffered, pre.last_sequence, d);
    assert forall|k: nat| k < n implies ready(
        pre.buffered,
        #[trigger] seq_forward(pre.last_sequence, k + 1),
    ) by {
        lemma_run_is_ready(pre.buffered, pre.last_sequence, d, k);
    }
    lemma_ready_list_of_run(pre.buffered, pre.last_sequence, n);
    lemma_ready_run_bound(pre.buffered, pre.last_sequence, d);
    let list = ready_list(pre.buffered, pre.last_sequence, n);
    assert(post.published@.subrange(0, pre.published@.len() as int) =~= pre.published@);
    assert forall|k: int| 0 <= k < n implies u16_at(
        (#[trigger] post.published@[pre.published@.len() + k])@,
        2,
    ) == seq_forward(pre.last_sequence, (k + 1) as nat) by {
        let q = seq_forward(pre.last_sequence, (k + 1) as nat);
        assert(post.published@[pre.published@.len() + k] == list[k]);
        assert(ready(pre.buffered, seq_forward(pre.last_sequence, (k as nat) + 1)));
        let i = pre.buffered.slot_of(q);
        assert(pre.buffered.values@[i]->0.wf(i, pre.current_sequence, pre.buffered.partition_by));
    }
    assert forall|k: int| 0 <= k < n - 1 implies u16_at(
        post.published@[pre.published@.len() + k + 1]@,
        2,
    ) == seq_next(u16_at((#[trigger] post.published@[pre.published@.len() + k])@, 2))
        && seq_greater(
        u16_at(post.published@[pre.published@.len() + k + 1]@, 2),
        u16_at(post.published@[pre.published@.len() + k]@, 2),
    ) by {
        let a = seq_forward(pre.last_sequence, (k + 1) as nat);
        assert(u16_at(post.published@[pre.published@.len() + k]@, 2) == a);
        assert(u16_at(post.published@[pre.published@.len() + (k + 1)]@, 2) == seq_forward(
            pre.last_sequence,
            (k + 2) as nat,
        ));
        lemma_forward_distance(pre.last_sequence, (k + 1) as nat);
        crate::sequence::lemma_next_is_greater(a);
    }
    assert forall|k: int| 0 <= k < n implies seq_greater(
        u16_at((#[trigger] post.published@[pre.published@.len() + k])@, 2),
        pre.last_sequence,
    ) by {
        assert(u16_at(post.published@[pre.published@.len() + k]@, 2) == seq_forward(
            pre.last_sequence,
            (k + 1) as nat,
        ));
        crate::sequence::lemma_forward_is_greater(pre.last_sequence, (k + 1) as nat);
    }
}

/// A sequence that has been received is not accepted again as long as the
/// window knows it, and publishing does not make the window forget: what
/// was marked before `publish` is marked after it, so that no payload that
/// has been published can come in and be published a second time.
pub proof fn lemma_published_once(pre: Receiver, post: Receiver, q: u16)
    requires
        pre.wf(),
        pre.published_as(post),
        pre.is_marked(q),
    ensures
        post.is_marked(q),
        !post.accepts(q),
        !pre.accepts(q),
{
    let i = pre.buffered.slot_of(q);
    assert(post.buffered.values@[i] == emptied(
        pre.buffered.values@[i],
        pre.last_sequence,
        (if pre.is_ordered {
            ready_run(
                pre.buffered,
                pre.last_sequence,
                seq_distance(pre.last_sequence, pre.current_sequence) as nat,
            )
        } else {
            seq_distance(pre.last_sequence, pre.current_sequence) as nat
        }),
    ));
}

/// On an ordered channel nothing at or behind `last_sequence` is accepted:
/// what has been published, or given up, does not come in again even where
/// the window has forgotten it.
pub proof fn lemma_behind_last_not_accepted(receiver: Receiver, q: u16)
    requires
        receiver.wf(),
        is_sequence(q),
        seq_distance(q, receiver.current_sequence) < receiver.window(),
        seq_distance(q, receiver.current_sequence) >= seq_distance(
            receiver.last_sequence,
            receiver.current_sequence,
        ),
    ensures
        !receiver.accepts(q),
{
    lemma_in_window_distance(receiver.current_sequence, receiver.window(), q);
}

/// Every occupied slot holds a sequence of the receive window: one that is
/// ahead of `current_sequence - window` and not ahead of `current_sequence`.
pub proof fn lemma_receive_window(receiver: Receiver, i: int)
    requires
        receiver.wf(),
        0 <= i < receiver.window(),
        receiver.buffered.values@[i] is Some,
    ensures
        in_window(
            receiver.current_sequence,
            receiver.window(),
            receiver.buffered.values@[i]->0.sequence,
        ),
{
    lemma_in_window_distance(
        receiver.current_sequence,
        receiver.window(),
        receiver.buffered.values@[i]->0.sequence,
    );
}

/// The sequences in the headers of the payloads that `post` has in its
/// queue behind those of `pre`.
pub open spec fn handed_over(pre: Receiver, post: Receiver) -> Seq<u16> {
    Seq::new(
        (post.published@.len() - pre.published@.len()) as nat,
        |t: int| u16_at(post.published@[pre.published@.len() + t]@, 2),
    )
}

/// `post` is `pre` after a step that may hand payloads to the queue: a
/// packet was accepted, or what was ready was published.
pub open spec fn handing_step(pre: Receiver, post: Receiver) -> bool {
    ||| pre.published_as(post)
    ||| exists|sequence: u16, frame: Seq<u8>| #[trigger]
        pre.received_as(&post, sequence, frame, true)
}

/// One call of `publish` on an ordered channel moves `last_sequence` by as
/// many steps as it hands payloads to the queue, and not beyond
/// `current_sequence`.
pub proof fn lemma_publication_count(pre: Receiver, post: Receiver)
    requires
        pre.wf(),
        pre.is_ordered,
        pre.published_as(post),
    ensures
        post.published@.len() - pre.published@.len() <= seq_distance(
            pre.last_sequence,
            pre.current_sequence,
        ),
        seq_distance(pre.last_sequence, post.last_sequence) == post.published@.len()
            - pre.published@.len(),
{
    let d = seq_distance(pre.last_sequence, pre.current_sequence) as nat;
    let n = ready_run(pre.buffered, pre.last_sequence, d);
    assert forall|k: nat| k < n implies ready(
        pre.buffered,
        #[trigger] seq_forward(pre.last_sequence, k + 1),
    ) by {
        lemma_run_is_ready(pre.buffered, pre.last_sequence, d, k);
    }
    lemma_ready_list_of_run(pre.buffered, pre.last_sequence, n);
    lemma_ready_run_bound(pre.buffered, pre.last_sequence, d);
    lemma_forward_distance(pre.last_sequence, n);
}

/// Where a packet is stored, `last_sequence` stays or moves forward, and
/// from where it was it is no farther to `current_sequence` than a turn of
/// the sequence space.
pub proof fn lemma_stored_jump(pre: Receiver, mid: Receiver, s: u16, bytes: Seq<u8>)
    requires
        pre.wf(),
        pre.stored_as(mid, s, bytes),
    ensures
        mid.wf(),
        mid.is_ordered == pre.is_ordered,
        mid.published == pre.published,
        seq_distance(pre.last_sequence, mid.last_sequence) + seq_distance(
            mid.last_sequence,
            mid.current_sequence,
        ) <= 65534,
{
}

/// What one step of an ordered channel hands to the queue lies on the way
/// of `last_sequence`: the payloads carry the sequences in which that way
/// ends, one by one, and the queue keeps what it held in front of them.
pub proof fn lemma_ordered_step(pre: Receiver, post: Receiver)
    requires
        pre.wf(),
        pre.is_ordered,
        handing_step(pre, post),
    ensures
        post.wf(),
        post.is_ordered,
        pre.published@.len() <= post.published@.len(),
        post.published@.subrange(0, pre.published@.len() as int) == pre.published@,
        handed_over(pre, post).len() <= seq_distance(pre.last_sequence, post.last_sequence),
        forall|t: int|
            0 <= t < handed_over(pre, post).len() ==> #[trigger] handed_over(pre, post)[t]
                == seq_forward(
                pre.last_sequence,
                (seq_distance(pre.last_sequence, post.last_sequence) - handed_over(
                    pre,
                    post,
                ).len() + t + 1) as nat,
            ),
{
    if pre.published_as(post) {
        lemma_ordered_from(pre, pre, post);
    } else {
        let (sequence, frame) = choose|sequence: u16, frame: Seq<u8>| #[trigger]
            pre.received_as(&post, sequence, frame, true);
        let mid = choose|mid: Receiver| #[trigger]
            pre.stored_as(mid, sequence, payload_bytes(sequence, frame)) && mid.published_as(
                post,
            );
        lemma_stored_jump(pre, mid, sequence, payload_bytes(sequence, frame));
        lemma_ordered_from(pre, mid, post);
    }
}

/// The step from `pre` over `mid` to `post`, where `mid` has the queue of
/// `pre` and a `last_sequence` at or ahead of it, and `post` is `mid` after
/// publishing.
proof fn lemma_ordered_from(pre: Receiver, mid: Receiver, post: Receiver)
    requires
        is_sequence(pre.last_sequence),
        mid.wf(),
        mid.is_ordered,
        mid.published == pre.published,
        mid.published_as(post),
        seq_distance(pre.last_sequence, mid.last_sequence) + seq_distance(
            mid.last_sequence,
            mid.current_sequence,
        ) <= 65534,
    ensures
        post.wf(),
        post.is_ordered,
        pre.published@.len() <= post.published@.len(),
        post.published@.subrange(0, pre.published@.len() as int) == pre.published@,
        handed_over(pre, post).len() <= seq_distance(pre.last_sequence, post.last_sequence),
        forall|t: int|
            0 <= t < handed_over(pre, post).len() ==> #[trigger] handed_over(pre, post)[t]
                == seq_forward(
                pre.last_sequence,
                (seq_distance(pre.last_sequence, post.last_sequence) - handed_over(
                    pre,
                    post,
                ).len() + t + 1) as nat,
            ),
{
    lemma_ordered_publication(mid, post);
    lemma_publication_count(mid, post);
    let n = (post.published@.len() - mid.published@.len()) as nat;
    let jump = seq_distance(pre.last_sequence, mid.last_sequence) as nat;
    lemma_forward_of_distance(pre.last_sequence, mid.last_sequence);
    lemma_forward_add(pre.last_sequence, jump, n);
    lemma_forward_distance(pre.last_sequence, jump + n);
    assert(post.last_sequence == seq_forward(mid.last_sequence, n));
    assert(seq_distance(pre.last_sequence, post.last_sequence) == jump + n);
    assert forall|t: int| 0 <= t < handed_over(pre, post).len() implies #[trigger] handed_over(
        pre,
        post,
    )[t] == seq_forward(
        pre.last_sequence,
        (seq_distance(pre.last_sequence, post.last_sequence) - handed_over(pre, post).len() + t
            + 1) as nat,
    ) by {
        assert(u16_at(post.published@[mid.published@.len() + t]@, 2) == seq_forward(
            mid.last_sequence,
            (t + 1) as nat,
        ));
        lemma_forward_add(pre.last_sequence, jump, (t + 1) as nat);
    }
}

/// `states` are the states of an ordered channel's receiver one after the
/// other: the first is sound, and each next one comes from a step that may
/// hand payloads to the queue, or has the `last_sequence` of the one before
/// it and is an ordered receiver as sound as that.
pub open spec fn ordered_history(states: Seq<Receiver>) -> bool {
    &&& states.len() >= 1
    &&& states[0].wf()
    &&& states[0].is_ordered
    &&& forall|k: int| 0 <= k < states.len() - 1 ==> #[trigger] history_step(states, k)
}

/// The step from `states[k]` to the next state is one of a history.
pub open spec fn history_step(states: Seq<Receiver>, k: int) -> bool {
    ||| handing_step(states[k], states[k + 1])
    ||| {
        &&& states[k + 1].wf()
        &&& states[k + 1].is_ordered
        &&& states[k + 1].last_sequence == states[k].last_sequence
    }
}

/// The sequences that the step from `states[k]` hands to the queue.
pub open spec fn handed_in(states: Seq<Receiver>, k: int) -> Seq<u16> {
    if handing_step(states[k], states[k + 1]) {
        handed_over(states[k], states[k + 1])
    } else {
        Seq::empty()
    }
}

/// How far `last_sequence` has come in the first `k` steps.
pub open spec fn travelled(states: Seq<Receiver>, k: int) -> nat
    decreases k,
{
    if k <= 0 {
        0
    } else {
        travelled(states, k - 1) + seq_distance(
            states[k - 1].last_sequence,
            states[k].last_sequence,
        ) as nat
    }
}

/// How far from the first `last_sequence` the `t`-th payload lies that the
/// step from `states[k]` hands to the queue.
pub open spec fn handed_at(states: Seq<Receiver>, k: int, t: int) -> int {
    travelled(states, k + 1) - handed_in(states, k).len() + t + 1
}

/// Every state of a history is that of a sound ordered receiver, and its
/// `last_sequence` lies as far from the first as it has travelled.
pub proof fn lemma_history_state(states: Seq<Receiver>, k: int)
    requires
        ordered_history(states),
        0 <= k < states.len(),
    ensures
        states[k].wf(),
        states[k].is_ordered,
        states[k].last_sequence == seq_forward(states[0].last_sequence, travelled(states, k)),
        k > 0 ==> travelled(states, k - 1) <= travelled(states, k),
        k > 0 ==> travelled(states, k) == travelled(states, k - 1) + seq_distance(
            states[k - 1].last_sequence,
            states[k].last_sequence,
        ),
    decreases k,
{
    if k > 0 {
        lemma_history_state(states, k - 1);
        assert(history_step(states, k - 1));
        if handing_step(states[k - 1], states[k - 1 + 1]) {
            lemma_ordered_step(states[k - 1], states[k]);
        }
        lemma_forward_of_distance(states[k - 1].last_sequence, states[k].last_sequence);
        lemma_forward_add(
            states[0].last_sequence,
            travelled(states, k - 1),
            seq_distance(states[k - 1].last_sequence, states[k].last_sequence) as nat,
        );
    }
}

/// `last_sequence` never travels back.
pub proof fn lemma_travel_grows(states: Seq<Receiver>, i: int, k: int)
    requires
        ordered_history(states),
        0 <= i <= k < states.len(),
    ensures
        travelled(states, i) <= travelled(states, k),
    decreases k - i,
{
    if i < k {
        lemma_history_state(states, k);
        lemma_travel_grows(states, i, k - 1);
    }
}

/// A payload that a step hands to the queue carries the sequence that lies
/// `handed_at` steps ahead of the first `last_sequence`, behind the way
/// travelled before the step and within the way travelled with it.
pub proof fn lemma_handed_at(states: Seq<Receiver>, k: int, t: int)
    requires
        ordered_history(states),
        0 <= k < states.len() - 1,
        0 <= t < handed_in(states, k).len(),
    ensures
        travelled(states, k) < handed_at(states, k, t) <= travelled(states, k + 1),
        handed_in(states, k)[t] == seq_forward(
            states[0].last_sequence,
            handed_at(states, k, t) as nat,
        ),
{
    lemma_history_state(states, k);
    lemma_history_state(states, k + 1);
    assert(handing_step(states[k], states[k + 1]));
    lemma_ordered_step(states[k], states[k + 1]);
    let d = seq_distance(states[k].last_sequence, states[k + 1].last_sequence);
    let n = handed_in(states, k).len();
    assert(handed_in(states, k)[t] == seq_forward(
        states[k].last_sequence,
        (d - n + t + 1) as nat,
    ));
    lemma_forward_add(states[0].last_sequence, travelled(states, k), (d - n + t + 1) as nat);
}

/// On an ordered channel every payload is handed to the queue once and in
/// order, over the whole history of the channel.
///
/// Of two payloads handed over, the later one lies farther from the first
/// `last_sequence` than the earlier one. While it is less than a turn of
/// the sequence space farther, their sequences differ; while it is less
/// than half a turn farther, its sequence is ahead of the other.
pub proof fn lemma_handed_once_and_in_order(
    states: Seq<Receiver>,
    i: int,
    a: int,
    k: int,
    b: int,
)
    requires
        ordered_history(states),
        0 <= i <= k < states.len() - 1,
        0 <= a < handed_in(states, i).len(),
        0 <= b < handed_in(states, k).len(),
        i < k || a < b,
    ensures
        handed_at(states, i, a) < handed_at(states, k, b),
        handed_at(states, k, b) - handed_at(states, i, a) < 65535 ==> handed_in(states, k)[b]
            != handed_in(states, i)[a],
        handed_at(states, k, b) - handed_at(states, i, a) <= 32766 ==> seq_greater(
            handed_in(states, k)[b],
            handed_in(states, i)[a],
        ),
{
    lemma_handed_at(states, i, a);
    lemma_handed_at(states, k, b);
    if i < k {
        lemma_travel_grows(states, i + 1, k);
    }
    let first = states[0].last_sequence;
    let from = handed_at(states, i, a) as nat;
    let more = (handed_at(states, k, b) - handed_at(states, i, a)) as nat;
    lemma_forward_add(first, from, more);
    if more < 65535 {
        lemma_forward_distance(seq_forward(first, from), more);
    }
    if more <= 32766 {
        crate::sequence::lemma_forward_is_greater(seq_forward(first, from), more);
    }
}

} // verus!
