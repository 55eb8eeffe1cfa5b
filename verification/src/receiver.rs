//! One-at-a-time message delivery over the reassembler.
//!
//! A receive operation hands the caller a single message per call, while a
//! single transport chunk may complete several frames at once. The receiver
//! therefore keeps the decoded messages in a FIFO: `on_bytes` feeds a chunk
//! to the reassembler and queues whatever it emits, `next_message` pops the
//! oldest queued message. A caller's receive loop reads the transport,
//! yields when nothing arrived, and returns as soon as the FIFO is
//! non-empty, so arrival order is preserved end to end.

use vstd::prelude::*;

use crate::reassembler::{rx_feed, rx_init, Reassembler, RxState};

verus! {

/// A reassembler together with the decoded messages not yet handed out.
pub struct Receiver {
    reasm: Reassembler,
    ready: Vec<Vec<u8>>,
}

impl Receiver {
    /// The reassembler's invariant carries over.
    pub closed spec fn wf(self) -> bool {
        self.reasm.wf()
    }

    /// The abstract state of the underlying reassembler.
    pub closed spec fn rx_state(self) -> RxState {
        self.reasm.state()
    }

    /// The staging capacity fixed at construction.
    pub closed spec fn cap(self) -> nat {
        self.reasm.cap()
    }

    /// The decoded messages waiting to be handed out, oldest first.
    pub closed spec fn queued(self) -> Seq<Seq<u8>> {
        self.ready.deep_view()
    }

    /// A fresh receiver with the given staging capacity and nothing queued.
    pub fn new(capacity: usize) -> (r: Receiver)
        ensures
            r.wf(),
            r.rx_state() == rx_init(),
            r.cap() == capacity as nat,
            r.queued() == Seq::<Seq<u8>>::empty(),
    {
        let r = Receiver { reasm: Reassembler::new(capacity), ready: Vec::new() };
        proof {
            assert(r.queued() =~= Seq::<Seq<u8>>::empty());
        }
        r
    }

    /// Feeds one chunk of raw transport bytes; every message it completes
    /// is queued behind the ones already waiting, in arrival order.
    pub fn on_bytes(&mut self, chunk: &[u8])
        requires
            old(self).wf(),
        ensures
            final(self).wf(),
            final(self).cap() == old(self).cap(),
            final(self).rx_state() == rx_feed(
                old(self).cap(),
                old(self).rx_state(),
                chunk@,
            ).0,
            final(self).queued() == old(self).queued() + rx_feed(
                old(self).cap(),
                old(self).rx_state(),
                chunk@,
            ).1,
    {
        let mut msgs = self.reasm.feed(chunk);
        let ghost q0 = self.ready.deep_view();
        let ghost emitted = msgs.deep_view();
        self.ready.append(&mut msgs);
        proof {
            assert(self.ready.deep_view() =~= q0 + emitted);
        }
    }

    /// Hands out the oldest queued message, or `None` when none is waiting.
    pub fn next_message(&mut self) -> (r: Option<Vec<u8>>)
        ensures
            final(self).wf() == old(self).wf(),
            final(self).cap() == old(self).cap(),
            final(self).rx_state() == old(self).rx_state(),
            (match r {
                Some(m) => old(self).queued().len() > 0 && m@ == old(self).queued()[0]
                    && final(self).queued() == old(self).queued().drop_first(),
                None => old(self).queued().len() == 0
                    && final(self).queued() == old(self).queued(),
            }),
    {
        if self.ready.len() == 0 {
            None
        } else {
            let m = self.ready.remove(0);
            proof {
                crate::reassembler::lemma_vec_u8_deep_view(m);
                assert(self.ready.deep_view() =~= old(self).ready.deep_view().drop_first());
                assert(m.deep_view() == old(self).ready.deep_view()[0]);
            }
            Some(m)
        }
    }
}

} // verus!
