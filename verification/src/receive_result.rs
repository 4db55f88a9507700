//! What handling one datagram comes to.

use crate::network_address::NetworkAddress;
use vstd::prelude::*;

verus! {

#[derive(Clone, Copy, Debug, PartialEq, Eq, Structural)]
pub struct ReceiveSuccess {
    pub network_address: NetworkAddress,
    pub receive_type: ReceiveType,
}

#[derive(Clone, Copy, Debug, PartialEq, Eq, Structural)]
pub enum ReceiveType {
    Reliable { channel_id: u8 },
    Unreliable { received_len: usize },
}

#[derive(Clone, Copy, Debug, PartialEq, Eq, Structural)]
pub enum ReceiveError {
    Error,
    Empty,
    Retry,
    ChannelError,
}

} // verus!
