//! What a call to receive hands to the application.

use crate::network_address::NetworkAddress;
use vstd::prelude::*;

verus! {

#[derive(Clone, Copy, Debug, PartialEq, Eq, Structural)]
pub struct TachyonReceiveSuccess {
    pub receive_type: TachyonReceiveType,
    pub address: NetworkAddress,
    pub length: u32,
}

#[derive(Clone, Copy, Debug, PartialEq, Eq, Structural)]
pub enum TachyonReceiveType {
    Reliable { channel: u16 },
    Unreliable,
}

#[derive(Clone, Copy, Debug, PartialEq, Eq, Structural)]
pub enum TachyonReceiveError {
    Unknown,
    Channel,
}

} // verus!
