//! Two-channel audio streaming between a sender and a receiver that share a
//! channel number: fixed-size timestamped frames, a channel binding state
//! machine, the sender's framing engine and the receiver's jitter buffer.
//!
//! Samples are carried as the bit patterns of 32-bit floats; gain arithmetic
//! on them happens in the host glue.
use vstd::prelude::*;

pub mod link;
pub mod packet;
pub mod receive;
pub mod stream;
pub mod transmit;
pub mod wire;

verus! {

/// The TCP port of channel 0; channel `c` listens on `BASE_PORT + c`.
pub const BASE_PORT: u16 = 21300;

} // verus!
