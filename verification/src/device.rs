//! Device-side support types.
//!
//! The embedded peer has no allocator: every buffer the framing engine
//! touches is carved out of statics initialized once at startup. The types
//! here model that arena: fixed-size packet buffers handed out by reference
//! for the process lifetime, and the plain data a handler task is spawned
//! with.

use vstd::prelude::*;

verus! {

/// The data passed to a handler task spawned from the device context.
#[derive(Clone, Copy, Debug, PartialEq, Eq, Structural)]
pub struct TaskContext {
    /// Identifies this device to its peer; unique per device.
    pub unique_id: u64,
}

/// Static storage for the transmit and receive packet buffers. These sizes
/// bound the largest frame the device can send or receive; the buffers are
/// allocated once at startup and never reallocated.
pub struct PacketBuffers<const TX: usize, const RX: usize> {
    /// The transmit buffer.
    pub tx_buf: [u8; TX],
    /// The receive buffer.
    pub rx_buf: [u8; RX],
}

impl<const TX: usize, const RX: usize> PacketBuffers<TX, RX> {
    /// Fresh, zeroed buffers.
    pub fn new() -> (r: PacketBuffers<TX, RX>)
        ensures
            forall|i: int| 0 <= i < TX ==> r.tx_buf@[i] == 0,
            forall|i: int| 0 <= i < RX ==> r.rx_buf@[i] == 0,
    {
        PacketBuffers { tx_buf: [0u8; TX], rx_buf: [0u8; RX] }
    }
}

} // verus!
