//! Transmit driver: pushes one encoded frame onto the transport across as
//! many write attempts as the transport needs.
//!
//! `submit` encodes a message into a complete frame, which becomes the
//! pending output. The transport may accept any number of bytes per write,
//! zero included; after each attempt the caller reports the accepted count
//! with `advance`, which drops the written prefix and keeps the unwritten
//! suffix pending. No new message is accepted while a pending output
//! exists, so at most one frame is ever in flight and frames can never
//! interleave on the wire.

use vstd::prelude::*;

use crate::codec;
use crate::codec::frame_of;

verus! {

/// A message was submitted while a pending output existed; the transmit
/// driver accepts one frame at a time.
#[derive(Clone, Copy, Debug, PartialEq, Eq)]
pub struct FrameInFlight;

/// The transmit driver and its pending output, if any.
pub struct TransmitDriver {
    pending: Option<Vec<u8>>,
}

impl TransmitDriver {
    /// The unwritten suffix of the frame in flight, or `None` between frames.
    pub closed spec fn pending_view(self) -> Option<Seq<u8>> {
        match self.pending {
            Some(v) => Some(v@),
            None => None,
        }
    }

    /// A fresh driver with no frame in flight.
    pub fn new() -> (r: TransmitDriver)
        ensures
            r.pending_view() is None,
    {
        TransmitDriver { pending: None }
    }

    /// True while a frame is in flight.
    pub fn has_pending(&self) -> (b: bool)
        ensures
            b == (self.pending_view() is Some),
    {
        self.pending.is_some()
    }

    /// The bytes still to be written, for the caller to offer to the
    /// transport; `None` between frames.
    pub fn pending_data(&self) -> (r: Option<&Vec<u8>>)
        ensures
            (match r {
                Some(v) => self.pending_view() == Some(v@),
                None => self.pending_view() is None,
            }),
    {
        self.pending.as_ref()
    }

    /// Accepts `msg` for transmission when no frame is in flight: its
    /// complete frame, terminator included, becomes the pending output.
    /// While a pending output exists every submission is refused and the
    /// driver is left untouched.
    pub fn submit(&mut self, msg: &[u8]) -> (r: Result<(), FrameInFlight>)
        ensures
            r is Ok <==> old(self).pending_view() is None,
            old(self).pending_view() is None ==> final(self).pending_view() == Some(
                frame_of(msg@),
            ),
            old(self).pending_view() is Some ==> *final(self) == *old(self),
    {
        if self.pending.is_some() {
            return Err(FrameInFlight);
        }
        let frame = codec::encode(msg);
        self.pending = Some(frame);
        Ok(())
    }

    /// Records that the transport accepted the first `n` bytes of the
    /// pending output. The written prefix is dropped; whatever remains
    /// unwritten stays pending, and the frame completes exactly when its
    /// last byte is accepted. `n == 0` leaves the pending output unchanged.
    pub fn advance(&mut self, n: usize)
        requires
            old(self).pending_view() is Some,
            n <= old(self).pending_view().unwrap().len(),
        ensures
            n < old(self).pending_view().unwrap().len() ==> final(self).pending_view() == Some(
                old(self).pending_view().unwrap().skip(n as int),
            ),
            n == old(self).pending_view().unwrap().len() ==> final(self).pending_view() is None,
    {
        let buf = self.pending.take();
        match buf {
            Some(mut v) => {
                if n < v.len() {
                    let rest = v.split_off(n);
                    self.pending = Some(rest);
                }
            },
            None => {},
        }
    }
}

/// The sum of a sequence of per-attempt byte counts.
pub open spec fn sum_of(counts: Seq<int>) -> int
    decreases counts.len(),
{
    if counts.len() == 0 {
        0
    } else {
        counts[0] + sum_of(counts.drop_first())
    }
}

/// The bytes put on the wire when a pending output is written in slices of
/// the given sizes, in order: each attempt writes the next `counts[k]`
/// bytes and the driver keeps the suffix.
pub open spec fn written_of(pending: Seq<u8>, counts: Seq<int>) -> Seq<u8>
    decreases counts.len(),
{
    if counts.len() == 0 {
        Seq::empty()
    } else {
        pending.take(counts[0]) + written_of(pending.skip(counts[0]), counts.drop_first())
    }
}

/// A sum of non-negative counts is non-negative.
proof fn lemma_sum_of_nonneg(counts: Seq<int>)
    requires
        forall|k: int| 0 <= k < counts.len() ==> counts[k] >= 0,
    ensures
        sum_of(counts) >= 0,
    decreases counts.len(),
{
    if counts.len() > 0 {
        assert forall|k: int| 0 <= k < counts.drop_first().len() implies counts.drop_first()[k]
            >= 0 by {
            assert(counts.drop_first()[k] == counts[k + 1]);
        }
        lemma_sum_of_nonneg(counts.drop_first());
    }
}

/// Partial-write completion: when a frame of length `L` is accepted by the
/// transport in any number of attempts - each taking zero or more bytes -
/// whose counts sum to `L`, the wire carries exactly the frame's `L` bytes,
/// in their original order.
pub proof fn lemma_partial_write_completion(frame: Seq<u8>, counts: Seq<int>)
    requires
        forall|k: int| 0 <= k < counts.len() ==> counts[k] >= 0,
        sum_of(counts) == frame.len(),
    ensures
        written_of(frame, counts) == frame,
    decreases counts.len(),
{
    if counts.len() == 0 {
        assert(written_of(frame, counts) =~= frame);
    } else {
        let n = counts[0];
        let rest = counts.drop_first();
        assert forall|k: int| 0 <= k < rest.len() implies rest[k] >= 0 by {
            assert(rest[k] == counts[k + 1]);
        }
        lemma_sum_of_nonneg(rest);
        assert(0 <= n <= frame.len());
        lemma_partial_write_completion(frame.skip(n), rest);
        assert(written_of(frame, counts) =~= frame);
    }
}

} // verus!
