//! Framing engine for a shared-memory ring-buffer transport.
//!
//! Messages travel over a raw duplex byte channel that delivers bytes in
//! arbitrary, non-frame-aligned chunks. Each message is carried as a frame:
//! a zero-free encoding of the message body followed by a single `0x00`
//! terminator byte. This crate provides the frame codec, the receive
//! reassembler that rebuilds complete messages from chunks, and the transmit
//! driver that pushes an encoded frame onto the transport across partial
//! writes, together with proofs of the framing contract: round trip,
//! zero-freeness, chunk-boundary independence, malformed-frame isolation,
//! overflow recovery, partial-write completion and single-frame-in-flight.

pub mod codec;
pub mod device;
pub mod host;
pub mod reassembler;
pub mod receiver;
pub mod transmit;
