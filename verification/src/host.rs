//! Host-side bridge types.
//!
//! On the host the framing engine runs on a dedicated thread that owns the
//! blocking transport handle and exchanges whole messages with the async
//! upper layer through two bounded queues. A queue reporting itself
//! permanently closed is the bridge's only terminal condition; these error
//! types carry that condition to each end.

use vstd::prelude::*;

verus! {

/// Sending towards the device failed because the outbound queue or its
/// consumer has permanently shut down. Terminal for the bridge.
#[derive(Clone, Copy, Debug, PartialEq, Eq, Structural)]
pub enum ProbeRttTxError {
    /// The channel to the transport thread is closed.
    Closed,
}

/// Receiving from the device failed because the inbound queue or its
/// producer has permanently shut down. Terminal for the bridge.
#[derive(Clone, Copy, Debug, PartialEq, Eq, Structural)]
pub enum ProbeRttRxError {
    /// The channel from the transport thread is closed.
    Closed,
}

/// One bridge turn made progress exactly when the transport delivered
/// bytes or accepted bytes; a turn with neither should sleep briefly
/// instead of spinning.
pub fn made_progress(read_count: usize, wrote_count: usize) -> (p: bool)
    ensures
        p == (read_count > 0 || wrote_count > 0),
{
    read_count > 0 || wrote_count > 0
}

} // verus!
