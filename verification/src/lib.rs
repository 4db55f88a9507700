//! A UDP messaging layer with selective reliability: per-channel sliding
//! windows over a 16-bit wrapping sequence space, NACK-driven retransmission,
//! fragmentation and reassembly, and pooled buffers.
//!
//! Everything here works on plain values. Datagrams enter through an endpoint's
//! inbox and leave through its outbox; moving them to and from a real socket is
//! left to the caller.

pub mod bounded_queue;
pub mod byte_buffer_pool;
pub mod channel;
pub mod clock;
pub mod connection;
pub mod connection_header;
pub mod connection_impl;
pub mod counter;
pub mod fragmentation;
pub mod fx_map;
pub mod header;
pub mod int_buffer;
pub mod nack;
pub mod network_address;
pub mod pool;
pub mod receive_result;
pub mod receiver;
pub mod send_buffer_manager;
pub mod send_result;
pub mod sequence;
pub mod sequence_buffer;
pub mod tachyon;
pub mod tachyon_receive_result;
pub mod tachyon_socket;
pub mod unreliable_sender;

pub use crate::send_result::{TachyonSendError, TachyonSendSuccess};
pub use crate::tachyon::{Event, EventKind, Tachyon, TachyonConfig, TachyonStats};
