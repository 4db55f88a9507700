//! The frames a channel has sent and may have to send again, kept by
//! sequence in a ring of 1024 slots.

use crate::byte_buffer_pool::{zeros, ByteBuffer, ByteBufferPool, BYTE_BUFFER_SIZE_DEFAULT};
use crate::clock::millis_since;
use crate::sequence::{is_sequence, seq_next, Sequence};
use crate::sequence_buffer::SequenceBuffer;
use std::time::Instant;
use vstd::prelude::*;

verus! {

pub const SEND_BUFFER_SIZE: u16 = 1024;

/// Milliseconds after which a sent frame is given up.
pub const EXPIRE: u128 = 5000;

pub struct SendBuffer {
    pub sequence: u16,
    pub byte_buffer: ByteBuffer,
    pub created_at: Instant,
}

impl SendBuffer {
    /// The frame's buffer is sound, and one marked as pooled is as large as
    /// the buffers of the pool it belongs to.
    pub open spec fn wf(&self, buffer_size: usize) -> bool {
        &&& self.byte_buffer.wf()
        &&& self.byte_buffer.pooled ==> self.byte_buffer@.len() >= buffer_size
    }
}

pub struct SendBufferManager {
    pub current_sequence: u16,
    pub buffers: SequenceBuffer<SendBuffer>,
    pub buffer_pool: ByteBufferPool,
}

impl SendBufferManager {
    /// The ring has its 1024 slots and every frame in it is sound.
    pub open spec fn wf(&self) -> bool {
        &&& self.buffers.wf()
        &&& self.buffers.partition_by == SEND_BUFFER_SIZE
        &&& is_sequence(self.current_sequence)
        &&& self.buffer_pool.wf()
        &&& forall|i: int|
            0 <= i < self.buffers.values@.len() && self.buffers.values@[i] is Some
                ==> (#[trigger] self.buffers.values@[i])->0.wf(self.buffer_pool.buffer_size)
    }

    /// The frame kept for `sequence`'s slot, if any.
    pub open spec fn slot(&self, sequence: u16) -> Option<SendBuffer> {
        self.buffers.values@[self.buffers.slot_of(sequence)]
    }

    #[must_use]
    pub fn create() -> (r: Self)
        ensures
            r.wf(),
            r.current_sequence == 0,
            r.buffer_pool.buffer_size == BYTE_BUFFER_SIZE_DEFAULT,
            r.buffer_pool.limit() == SEND_BUFFER_SIZE,
            r.buffer_pool.queue().len() == 0,
            forall|i: int| 0 <= i < SEND_BUFFER_SIZE ==> r.buffers.values@[i] is None,
    {
        SendBufferManager {
            current_sequence: 0,
            buffers: SequenceBuffer::create(SEND_BUFFER_SIZE),
            buffer_pool: ByteBufferPool::create(BYTE_BUFFER_SIZE_DEFAULT, SEND_BUFFER_SIZE as usize),
        }
    }

    /// The frame in the slot of `sequence`, to be read or changed in place.
    /// It may be a frame of another sequence that shares the slot.
    pub fn get_send_buffer(&mut self, sequence: u16) -> (r: Option<&mut SendBuffer>)
        requires
            old(self).buffers.wf(),
        ensures
            final(self).current_sequence == old(self).current_sequence,
            final(self).buffer_pool == old(self).buffer_pool,
            final(self).buffers.partition_by == old(self).buffers.partition_by,
            match r {
                Some(b) => {
                    &&& old(self).slot(sequence) == Some(*b)
                    &&& final(self).buffers.values@ == old(self).buffers.values@.update(
                        old(self).buffers.slot_of(sequence),
                        Some(*final(b)),
                    )
                },
                None => {
                    &&& old(self).slot(sequence) is None
                    &&& final(self).buffers.values@ == old(self).buffers.values@
                },
            },
    {
        self.buffers.get_mut(sequence)
    }

    /// Whether a frame of this age, in milliseconds, is given up.
    pub fn is_expired(age_millis: u128) -> (r: bool)
        ensures
            r == (age_millis > EXPIRE),
    {
        age_millis > EXPIRE
    }

    /// Drops the frames that the clock says are older than five seconds.
    /// Whatever the clock says, a slot keeps its frame or becomes empty, and
    /// nothing else changes.
    pub fn expire(&mut self)
        requires
            old(self).wf(),
        ensures
            final(self).wf(),
            *final(self) == (SendBufferManager { buffers: final(self).buffers, ..*old(self) }),
            final(self).buffers == (SequenceBuffer {
                values: final(self).buffers.values,
                ..old(self).buffers
            }),
            forall|i: int|
                0 <= i < SEND_BUFFER_SIZE ==> (#[trigger] final(self).buffers.values@[i]
                    == old(self).buffers.values@[i] || final(self).buffers.values@[i] is None),
    {
        let mut i: usize = 0;
        while i < SEND_BUFFER_SIZE as usize
            invariant
                i <= SEND_BUFFER_SIZE,
                self.wf(),
                *self == (SendBufferManager { buffers: self.buffers, ..*old(self) }),
                self.buffers == (SequenceBuffer {
                    values: self.buffers.values,
                    ..old(self).buffers
                }),
                forall|j: int|
                    0 <= j < SEND_BUFFER_SIZE ==> (#[trigger] self.buffers.values@[j] == old(
                        self,
                    ).buffers.values@[j] || self.buffers.values@[j] is None),
            decreases SEND_BUFFER_SIZE - i,
        {
            let age = match self.buffers.get_at_index(i) {
                Some(b) => Some(millis_since(&b.created_at)),
                None => None,
            };
            match age {
                Some(age_millis) => {
                    self.expire_slot(i, age_millis);
                },
                None => {},
            }
            i = i + 1;
        }
    }

    /// Empties the slot at `index` where the frame in it has the age of
    /// `age_millis` milliseconds and is given up at that age. A slot that
    /// the ring does not have is passed over.
    pub fn expire_slot(&mut self, index: usize, age_millis: u128)
        requires
            old(self).wf(),
        ensures
            final(self).wf(),
            *final(self) == (SendBufferManager { buffers: final(self).buffers, ..*old(self) }),
            final(self).buffers == (SequenceBuffer {
                values: final(self).buffers.values,
                ..old(self).buffers
            }),
            final(self).buffers.values@ == (if index < SEND_BUFFER_SIZE && age_millis > EXPIRE {
                old(self).buffers.values@.update(index as int, None)
            } else {
                old(self).buffers.values@
            }),
    {
        if index < SEND_BUFFER_SIZE as usize && Self::is_expired(age_millis) {
            self.buffers.remove_at_index(index);
        }
    }

    /// Takes the next sequence and keeps a new frame of `length` zero bytes
    /// for it, without using the pool.
    pub fn create_send_buffer_old(&mut self, length: usize) -> (r: Option<&mut SendBuffer>)
        requires
            old(self).wf(),
        ensures
            final(self).current_sequence == seq_next(old(self).current_sequence),
            final(self).buffer_pool == old(self).buffer_pool,
            final(self).buffers.partition_by == old(self).buffers.partition_by,
            r is Some,
            r->0.sequence == seq_next(old(self).current_sequence),
            r->0.byte_buffer@ == zeros(length as nat),
            r->0.byte_buffer.length == length,
            !r->0.byte_buffer.pooled,
            r->0.byte_buffer.version == 0,
            final(self).buffers.values@ == old(self).buffers.values@.update(
                old(self).buffers.slot_of(seq_next(old(self).current_sequence)),
                Some(*final(r->0)),
            ),
    {
        self.current_sequence = Sequence::next_sequence(self.current_sequence);
        let byte_buffer = ByteBuffer::create(length);
        let buffer = SendBuffer {
            sequence: self.current_sequence,
            byte_buffer,
            created_at: Instant::now(),
        };
        self.buffers.insert(self.current_sequence, buffer)
    }

    /// Takes the next sequence and keeps a frame of `length` bytes for it. The
    /// frame that held the slot gives way: its buffer is used again where it
    /// is a pooled one and long enough, and goes back to the pool otherwise.
    pub fn create_send_buffer(&mut self, length: usize) -> (r: Option<&mut SendBuffer>)
        requires
            old(self).wf(),
        ensures
            final(self).current_sequence == seq_next(old(self).current_sequence),
            final(self).buffers.partition_by == old(self).buffers.partition_by,
            final(self).buffer_pool.wf(),
            final(self).buffer_pool.buffer_size == old(self).buffer_pool.buffer_size,
            final(self).buffer_pool.limit() == old(self).buffer_pool.limit(),
            r is Some,
            r->0.sequence == seq_next(old(self).current_sequence),
            r->0.byte_buffer.length == length,
            r->0.wf(old(self).buffer_pool.buffer_size),
            final(self).buffers.values@ == old(self).buffers.values@.update(
                old(self).buffers.slot_of(seq_next(old(self).current_sequence)),
                Some(*final(r->0)),
            ),
            ({
                let was = old(self).slot(seq_next(old(self).current_sequence));
                if was is Some && was->0.byte_buffer.pooled && length <= old(
                    self,
                ).buffer_pool.buffer_size {
                    &&& r->0.byte_buffer@ == was->0.byte_buffer@
                    &&& r->0.byte_buffer.pooled
                    &&& r->0.byte_buffer.version == was->0.byte_buffer.version
                    &&& final(self).buffer_pool == old(self).buffer_pool
                } else if was is Some {
                    exists|pool: ByteBufferPool, taken: bool|
                        #[trigger] old(self).buffer_pool.returned_as(
                            &pool,
                            was->0.byte_buffer,
                            taken,
                        ) && pool.got_as(&final(self).buffer_pool, length, r->0.byte_buffer)
                } else {
                    old(self).buffer_pool.got_as(
                        &final(self).buffer_pool,
                        length,
                        r->0.byte_buffer,
                    )
                }
            }),
    {
        self.current_sequence = Sequence::next_sequence(self.current_sequence);
        match self.buffers.take(self.current_sequence) {
            Some(send_buffer) => {
                let mut send_buffer = send_buffer;
                if send_buffer.byte_buffer.pooled && length <= self.buffer_pool.buffer_size {
                    send_buffer.byte_buffer.length = length;
                } else {
                    let SendBuffer { sequence: _, byte_buffer, created_at } = send_buffer;
                    let ghost pool0 = self.buffer_pool;
                    let taken = self.buffer_pool.return_buffer(byte_buffer);
                    let ghost pool1 = self.buffer_pool;
                    assert(pool0.returned_as(&pool1, byte_buffer, taken));
                    send_buffer = SendBuffer {
                        sequence: self.current_sequence,
                        byte_buffer: self.buffer_pool.get_buffer(length),
                        created_at,
                    };
                }
                send_buffer.sequence = self.current_sequence;
                send_buffer.created_at = Instant::now();
                let r = self.buffers.insert(self.current_sequence, send_buffer);
                proof {
                    let slot = old(self).buffers.slot_of(seq_next(old(self).current_sequence));
                    assert(old(self).buffers.values@.update(slot, None).update(
                        slot,
                        Some(*final(r->0)),
                    ) =~= old(self).buffers.values@.update(slot, Some(*final(r->0))));
                }
                r
            },
            None => {
                let byte_buffer = self.buffer_pool.get_buffer(length);
                let send_buffer = SendBuffer {
                    sequence: self.current_sequence,
                    byte_buffer,
                    created_at: Instant::now(),
                };
                let r = self.buffers.insert(self.current_sequence, send_buffer);
                proof {
                    let slot = old(self).buffers.slot_of(seq_next(old(self).current_sequence));
                    assert(old(self).buffers.values@.update(slot, None).update(
                        slot,
                        Some(*final(r->0)),
                    ) =~= old(self).buffers.values@.update(slot, Some(*final(r->0))));
                }
                r
            },
        }
    }
}

} // verus!
