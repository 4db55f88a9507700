//! Byte buffers of fixed capacity, and a bounded pool that hands them out
//! again in the order they came back.

use std::collections::VecDeque;
use vstd::prelude::*;

verus! {

pub const BYTE_BUFFER_SIZE_DEFAULT: usize = 1240;

pub const POOL_SIZE_DEFAULT: usize = 512;

/// `n` zero bytes.
pub open spec fn zeros(n: nat) -> Seq<u8> {
    Seq::new(n, |i: int| 0u8)
}

/// The version after one more return to a pool; it wraps at 64 bits.
pub open spec fn next_version(v: u64) -> u64 {
    if v == u64::MAX {
        0
    } else {
        (v + 1) as u64
    }
}

pub struct ByteBuffer {
    pub data: Vec<u8>,
    pub length: usize,
    pub pooled: bool,
    pub version: u64,
}

impl View for ByteBuffer {
    type V = Seq<u8>;

    /// All the bytes the buffer owns, used or not.
    open spec fn view(&self) -> Seq<u8> {
        self.data@
    }
}

impl ByteBuffer {
    /// The logical length fits the bytes owned.
    pub open spec fn wf(&self) -> bool {
        self.length <= self@.len()
    }

    /// The bytes in use: the first `length` of those owned.
    pub open spec fn used(&self) -> Seq<u8> {
        self@.subrange(0, self.length as int)
    }

    /// `other` is this buffer after a return to a pool: the same bytes, one
    /// version on.
    pub open spec fn returned_as(&self, other: ByteBuffer) -> bool {
        &&& other@ == self@
        &&& other.length == self.length
        &&& other.pooled == self.pooled
        &&& other.version == next_version(self.version)
    }

    #[must_use]
    pub fn create(length: usize) -> (r: Self)
        ensures
            r@ == zeros(length as nat),
            r.length == length,
            !r.pooled,
            r.version == 0,
    {
        let data = vec![0u8; length];
        assert(data@ =~= zeros(length as nat));
        ByteBuffer { data, length, pooled: false, version: 0 }
    }

    #[must_use]
    pub fn get(&self) -> (r: &[u8])
        ensures
            r@ == self@,
    {
        self.data.as_slice()
    }

    pub fn get_mut(&mut self) -> (r: &mut [u8])
        ensures
            r@ == old(self)@,
            final(self)@ == final(r)@,
            final(self).length == old(self).length,
            final(self).pooled == old(self).pooled,
            final(self).version == old(self).version,
    {
        self.data.as_mut_slice()
    }

    /// The number of bytes owned.
    #[must_use]
    pub fn capacity(&self) -> (r: usize)
        ensures
            r == self@.len(),
    {
        self.data.len()
    }
}

pub struct ByteBufferPool {
    pub buffer_size: usize,
    pub pool_size: usize,
    pub buffers: VecDeque<ByteBuffer>,
    pub count: usize,
}

impl ByteBufferPool {
    /// The buffers waiting in the pool, the next one to leave first.
    pub open spec fn queue(&self) -> Seq<ByteBuffer> {
        self.buffers@
    }

    /// The most buffers the pool keeps.
    pub open spec fn limit(&self) -> nat {
        self.pool_size as nat
    }

    /// The pool counts what it holds and holds no more than its limit.
    pub open spec fn wf(&self) -> bool {
        &&& self.count == self.buffers@.len()
        &&& self.count <= self.pool_size
    }

    /// `post` is this pool after `byte_buffer` has been offered back, and `r`
    /// says whether it was taken: it is if its length fits the pool's buffers
    /// and the pool is under its limit, and then it waits at the end of the
    /// queue, one version on.
    pub open spec fn returned_as(
        &self,
        post: &ByteBufferPool,
        byte_buffer: ByteBuffer,
        r: bool,
    ) -> bool {
        &&& post.wf()
        &&& post.buffer_size == self.buffer_size
        &&& post.limit() == self.limit()
        &&& r == (byte_buffer.length <= self.buffer_size && self.queue().len() < self.limit())
        &&& r ==> post.queue().len() == self.queue().len() + 1 && post.queue().drop_last()
            == self.queue() && byte_buffer.returned_as(post.queue().last())
        &&& !r ==> post.queue() == self.queue()
    }

    /// `post` is this pool after the buffer `r` of `length` bytes has been
    /// handed out. A buffer longer than the pool's is new, zeroed and not
    /// pooled; otherwise it is the one that waited longest, grown with zeros
    /// to the size of the pool's buffers if it was smaller, or, where none
    /// waited, a new pooled one of that size.
    pub open spec fn got_as(&self, post: &ByteBufferPool, length: usize, r: ByteBuffer) -> bool {
        &&& post.wf()
        &&& post.buffer_size == self.buffer_size
        &&& post.limit() == self.limit()
        &&& r.length == length
        &&& r.wf()
        &&& length <= self.buffer_size ==> r@.len() >= self.buffer_size
        &&& length > self.buffer_size ==> {
            &&& post.queue() == self.queue()
            &&& r@ == zeros(length as nat)
            &&& !r.pooled
            &&& r.version == 0
        }
        &&& length <= self.buffer_size && self.queue().len() == 0 ==> {
            &&& post.queue() == self.queue()
            &&& r@ == zeros(self.buffer_size as nat)
            &&& r.pooled
            &&& r.version == 0
        }
        &&& length <= self.buffer_size && self.queue().len() > 0 ==> {
            let front = self.queue()[0];
            &&& post.queue() == self.queue().subrange(1, self.queue().len() as int)
            &&& r.pooled == front.pooled
            &&& r.version == front.version
            &&& r@ == (if front@.len() >= self.buffer_size {
                front@
            } else {
                front@ + zeros((self.buffer_size - front@.len()) as nat)
            })
        }
    }

    #[must_use]
    pub fn create(buffer_size: usize, max_buffers: usize) -> (r: Self)
        ensures
            r.wf(),
            r.buffer_size == buffer_size,
            r.limit() == max_buffers,
            r.queue() == Seq::<ByteBuffer>::empty(),
    {
        ByteBufferPool { buffer_size, pool_size: max_buffers, buffers: VecDeque::new(), count: 0 }
    }

    #[must_use]
    pub fn len(&self) -> (r: usize)
        requires
            self.wf(),
        ensures
            r == self.queue().len(),
    {
        self.buffers.len()
    }

    #[must_use]
    pub fn is_empty(&self) -> (r: bool)
        requires
            self.wf(),
        ensures
            r == (self.queue().len() == 0),
    {
        self.len() == 0
    }

    /// Takes a buffer back if its length fits the pool's buffers and the pool
    /// is under its limit. Says whether it did; a buffer not taken is dropped.
    pub fn return_buffer(&mut self, byte_buffer: ByteBuffer) -> (r: bool)
        requires
            old(self).wf(),
        ensures
            old(self).returned_as(final(self), byte_buffer, r),
    {
        let mut byte_buffer = byte_buffer;
        let space_available = (byte_buffer.length <= self.buffer_size) && (self.count
            < self.pool_size);

        if space_available {
            byte_buffer.version = if byte_buffer.version == u64::MAX {
                0
            } else {
                byte_buffer.version + 1
            };
            self.buffers.push_back(byte_buffer);
            self.count = self.count + 1;
            assert(self.buffers@.drop_last() =~= old(self).buffers@);
        }
        space_available
    }

    /// Hands out a buffer of the given length. One longer than the pool's
    /// buffers is made afresh and not pooled; otherwise the buffer that has
    /// waited longest is used again, or a new pooled one made.
    pub fn get_buffer(&mut self, length: usize) -> (r: ByteBuffer)
        requires
            old(self).wf(),
        ensures
            old(self).got_as(final(self), length, r),
    {
        if length > self.buffer_size {
            let data = vec![0u8; length];
            assert(data@ =~= zeros(length as nat));
            return ByteBuffer { data, length, pooled: false, version: 0 };
        }
        match self.buffers.pop_front() {
            None => {
                let data = vec![0u8; self.buffer_size];
                assert(data@ =~= zeros(self.buffer_size as nat));
                ByteBuffer { data, length, pooled: true, version: 0 }
            },
            Some(pooled) => {
                let mut pooled = pooled;
                self.count = self.count - 1;
                if pooled.data.len() < self.buffer_size {
                    let ghost before = pooled.data@;
                    pooled.data.resize(self.buffer_size, 0);
                    assert(pooled.data@ =~= before + zeros(
                        (self.buffer_size - before.len()) as nat,
                    ));
                }
                pooled.length = length;
                pooled
            },
        }
    }
}

impl Default for ByteBufferPool {
    fn default() -> (r: Self)
        ensures
            r.wf(),
            r.buffer_size == BYTE_BUFFER_SIZE_DEFAULT,
            r.limit() == POOL_SIZE_DEFAULT,
            r.queue() == Seq::<ByteBuffer>::empty(),
    {
        ByteBufferPool {
            buffer_size: BYTE_BUFFER_SIZE_DEFAULT,
            pool_size: POOL_SIZE_DEFAULT,
            buffers: VecDeque::new(),
            count: 0,
        }
    }
}

} // verus!
