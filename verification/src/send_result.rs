//! What a call to send comes to.

use crate::header::Header;
use vstd::prelude::*;

verus! {

#[derive(Clone, Copy, Debug, PartialEq, Eq, Structural)]
pub struct TachyonSendSuccess {
    pub sent_len: u32,
    pub header: Header,
}

impl Default for TachyonSendSuccess {
    fn default() -> (r: Self)
        ensures
            r == (TachyonSendSuccess { sent_len: 0, header: crate::header::zero_header() }),
    {
        TachyonSendSuccess { sent_len: 0, header: Header::default() }
    }
}

#[derive(Clone, Copy, Debug, PartialEq, Eq, Structural)]
pub enum TachyonSendError {
    Socket,
    Channel,
    Fragment,
    Unknown,
    Length,
    Identity,
}

} // verus!
