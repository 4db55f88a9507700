//! Sending frames that are neither numbered nor sent again.

use crate::header::{zero_header, Header, MESSAGE_TYPE_UNRELIABLE};
use crate::int_buffer::copy_bytes;
use crate::network_address::NetworkAddress;
use crate::send_result::{TachyonSendError, TachyonSendSuccess};
use crate::tachyon_socket::{datagrams, Datagram};
use std::collections::VecDeque;
use vstd::prelude::*;

verus! {

/// The size of the scratch an unreliable frame is built in.
pub const UNRELIABLE_BUFFER_LEN: usize = 16384;

/// A sender with a scratch and an outbox of its own, so that it can be used
/// apart from the endpoint it was made for.
pub struct UnreliableSender {
    /// Whether the endpoint's port was open when the sender was made.
    pub open: bool,
    pub send_buffer: Vec<u8>,
    pub outbox: VecDeque<Datagram>,
}

impl UnreliableSender {
    /// The scratch has its full size.
    pub open spec fn wf(&self) -> bool {
        self.send_buffer@.len() == UNRELIABLE_BUFFER_LEN
    }

    /// What waits to be put on the wire, oldest first.
    pub open spec fn sent(&self) -> Seq<(NetworkAddress, Seq<u8>)> {
        datagrams(self.outbox@)
    }

    #[must_use]
    pub fn create(open: bool) -> (r: Self)
        ensures
            r.wf(),
            r.open == open,
            r.outbox@.len() == 0,
    {
        UnreliableSender {
            open,
            send_buffer: vec![0u8; UNRELIABLE_BUFFER_LEN],
            outbox: VecDeque::new(),
        }
    }

    /// Queues an unreliable frame: one byte of message type, then the first
    /// `body_len` bytes of `data`, cut short where the frame would not fit
    /// the scratch.
    ///
    /// An empty body gives `Length`; a sender made for a port that was not
    /// open gives `Channel`. Otherwise the length of the frame comes back.
    pub fn send(&mut self, address: NetworkAddress, data: &[u8], body_len: usize) -> (r: Result<
        TachyonSendSuccess,
        TachyonSendError,
    >)
        requires
            old(self).wf(),
            body_len <= data@.len(),
        ensures
            final(self).wf(),
            final(self).open == old(self).open,
            body_len < 1 ==> r == Err::<TachyonSendSuccess, TachyonSendError>(
                TachyonSendError::Length,
            ) && *final(self) == *old(self),
            body_len >= 1 && !old(self).open ==> r == Err::<TachyonSendSuccess, TachyonSendError>(
                TachyonSendError::Channel,
            ) && *final(self) == *old(self),
            body_len >= 1 && old(self).open ==> {
                let n = if body_len <= UNRELIABLE_BUFFER_LEN - 1 {
                    body_len as int
                } else {
                    UNRELIABLE_BUFFER_LEN - 1
                };
                &&& r == Ok::<TachyonSendSuccess, TachyonSendError>(
                    TachyonSendSuccess {
                        sent_len: (n + 1) as u32,
                        header: Header { message_type: MESSAGE_TYPE_UNRELIABLE, ..zero_header() },
                    },
                )
                &&& final(self).sent() == old(self).sent().push(
                    (address, seq![MESSAGE_TYPE_UNRELIABLE] + data@.subrange(0, n)),
                )
            },
    {
        if body_len < 1 {
            return Err(TachyonSendError::Length);
        }
        if !self.open {
            return Err(TachyonSendError::Channel);
        }
        let n = if body_len <= UNRELIABLE_BUFFER_LEN - 1 {
            body_len
        } else {
            UNRELIABLE_BUFFER_LEN - 1
        };
        // copy to send buffer at +1 offset for message_type
        copy_bytes(self.send_buffer.as_mut_slice(), 1, data, 0, n);
        let length = n + 1;
        let header = Header {
            message_type: MESSAGE_TYPE_UNRELIABLE,
            channel: 0,
            sequence: 0,
            fragment_group: 0,
            fragment_start_sequence: 0,
            fragment_count: 0,
            start_sequence: 0,
            flags: 0,
        };
        header.write_unreliable(self.send_buffer.as_mut_slice());
        let sent_len = self.send_to(address, length);
        assert(self.send_buffer@.subrange(0, length as int) =~= seq![MESSAGE_TYPE_UNRELIABLE]
            + data@.subrange(0, n as int));
        Ok(TachyonSendSuccess { sent_len: sent_len as u32, header })
    }

    fn send_to(&mut self, address: NetworkAddress, length: usize) -> (r: usize)
        requires
            old(self).wf(),
            length <= UNRELIABLE_BUFFER_LEN,
        ensures
            final(self).open == old(self).open,
            final(self).send_buffer == old(self).send_buffer,
            !old(self).open ==> r == 0 && final(self).outbox == old(self).outbox,
            old(self).open ==> r == length && final(self).sent() == old(self).sent().push(
                (address, old(self).send_buffer@.subrange(0, length as int)),
            ),
    {
        if !self.open {
            return 0;
        }
        let mut frame: Vec<u8> = vec![0u8; length];
        copy_bytes(frame.as_mut_slice(), 0, self.send_buffer.as_slice(), 0, length);
        assert(frame@ =~= self.send_buffer@.subrange(0, length as int));
        self.outbox.push_back(Datagram { address, data: frame });
        assert(self.sent() =~= old(self).sent().push(
            (address, old(self).send_buffer@.subrange(0, length as int)),
        ));
        length
    }

    /// Takes the datagram that has waited longest to be put on the wire.
    pub fn take_sent(&mut self) -> (r: Option<Datagram>)
        ensures
            final(self).open == old(self).open,
            final(self).send_buffer == old(self).send_buffer,
            match r {
                Some(datagram) => old(self).outbox@.len() > 0 && datagram == old(self).outbox@[0]
                    && final(self).outbox@ == old(self).outbox@.subrange(
                    1,
                    old(self).outbox@.len() as int,
                ),
                None => old(self).outbox@.len() == 0 && final(self).outbox@ == old(self).outbox@,
            },
    {
        self.outbox.pop_front()
    }
}

} // verus!
