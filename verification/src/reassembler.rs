//! Receive reassembler: rebuilds complete messages from a byte stream that
//! arrives in arbitrary, non-frame-aligned chunks.
//!
//! The reassembler owns a fixed-capacity staging buffer for the bytes of an
//! as-yet-incomplete frame. Each `0x00` terminator closes the staged body
//! and decoding is attempted on it: a valid body yields one message, a
//! malformed one is discarded. A body that outgrows the staging capacity
//! before its terminator arrives is dropped and the reassembler skips bytes
//! until the next terminator, so an oversized or corrupted frame can never
//! wedge the stream.
//!
//! The model is a byte-at-a-time state machine, `rx_step`, folded over the
//! input by `rx_feed`. Because the fold treats every byte alike, the decoded
//! output depends only on the concatenated stream, never on how it was cut
//! into chunks; the lemmas at the bottom of this module make that precise.

use vstd::prelude::*;

use crate::codec;
use crate::codec::{cobs_decode, cobs_encode, frame_of, has_zero};

verus! {

/// Abstract state of the reassembler between two bytes of the stream.
#[verifier::ext_equal]
pub struct RxState {
    /// True while the bytes of an oversized frame are being skipped; the
    /// next terminator leaves this mode.
    pub discarding: bool,
    /// The staged bytes of the frame in progress (empty while discarding).
    pub staged: Seq<u8>,
}

/// The state of a fresh reassembler: nothing staged, not discarding.
pub open spec fn rx_init() -> RxState {
    RxState { discarding: false, staged: Seq::empty() }
}

/// One byte of stream advances the state and emits at most one message:
/// a terminator closes and decodes the staged body; a data byte is staged,
/// unless the body would outgrow `cap`, which drops it and starts discarding.
pub open spec fn rx_step(cap: nat, st: RxState, b: u8) -> (RxState, Option<Seq<u8>>) {
    if st.discarding {
        if b == 0 {
            (rx_init(), None)
        } else {
            (st, None)
        }
    } else if b == 0 {
        (rx_init(), cobs_decode(st.staged))
    } else if st.staged.len() >= cap {
        (RxState { discarding: true, staged: Seq::empty() }, None)
    } else {
        (RxState { discarding: false, staged: st.staged.push(b) }, None)
    }
}

/// The messages emitted by one step, as a sequence of zero or one.
pub open spec fn opt_emit(o: Option<Seq<u8>>) -> Seq<Seq<u8>> {
    match o {
        Some(m) => seq![m],
        None => Seq::empty(),
    }
}

/// Folds `rx_step` over `bytes`: the state after the whole stream and the
/// messages emitted along the way, in arrival order.
pub open spec fn rx_feed(cap: nat, st: RxState, bytes: Seq<u8>) -> (RxState, Seq<Seq<u8>>)
    decreases bytes.len(),
{
    if bytes.len() == 0 {
        (st, Seq::empty())
    } else {
        let sr = rx_step(cap, st, bytes[0]);
        let fr = rx_feed(cap, sr.0, bytes.drop_first());
        (fr.0, opt_emit(sr.1) + fr.1)
    }
}

/// Feeding one more byte is feeding the stream, then stepping once.
pub proof fn lemma_rx_feed_snoc(cap: nat, st: RxState, bytes: Seq<u8>, b: u8)
    ensures
        rx_feed(cap, st, bytes.push(b)).0 == rx_step(cap, rx_feed(cap, st, bytes).0, b).0,
        rx_feed(cap, st, bytes.push(b)).1 == rx_feed(cap, st, bytes).1 + opt_emit(
            rx_step(cap, rx_feed(cap, st, bytes).0, b).1,
        ),
    decreases bytes.len(),
{
    let fr = rx_feed(cap, st, bytes);
    let sr = rx_step(cap, fr.0, b);
    if bytes.len() == 0 {
        reveal_with_fuel(rx_feed, 2);
        assert(bytes.push(b)[0] == b);
        assert(bytes.push(b).drop_first() =~= Seq::<u8>::empty());
        assert(rx_feed(cap, st, bytes.push(b)).1 =~= fr.1 + opt_emit(sr.1));
    } else {
        let s0 = rx_step(cap, st, bytes[0]);
        assert(bytes.push(b)[0] == bytes[0]);
        assert(bytes.push(b).drop_first() =~= bytes.drop_first().push(b));
        lemma_rx_feed_snoc(cap, s0.0, bytes.drop_first(), b);
        assert(rx_feed(cap, st, bytes.push(b)).1 =~= fr.1 + opt_emit(sr.1));
    }
}

/// Feeding a concatenation is feeding the first part, then the second from
/// the state the first part left behind; the outputs concatenate.
/// No chunk boundary can therefore change what is decoded.
pub proof fn lemma_rx_feed_concat(cap: nat, st: RxState, a: Seq<u8>, b: Seq<u8>)
    ensures
        rx_feed(cap, st, a + b).0 == rx_feed(cap, rx_feed(cap, st, a).0, b).0,
        rx_feed(cap, st, a + b).1 == rx_feed(cap, st, a).1 + rx_feed(
            cap,
            rx_feed(cap, st, a).0,
            b,
        ).1,
    decreases a.len(),
{
    if a.len() == 0 {
        assert(a + b =~= b);
        assert(rx_feed(cap, st, a + b).1 =~= rx_feed(cap, st, a).1 + rx_feed(
            cap,
            rx_feed(cap, st, a).0,
            b,
        ).1);
    } else {
        let s0 = rx_step(cap, st, a[0]);
        assert((a + b)[0] == a[0]);
        assert((a + b).drop_first() =~= a.drop_first() + b);
        lemma_rx_feed_concat(cap, s0.0, a.drop_first(), b);
        assert(rx_feed(cap, st, a + b).1 =~= rx_feed(cap, st, a).1 + rx_feed(
            cap,
            rx_feed(cap, st, a).0,
            b,
        ).1);
    }
}

/// Feeding a single byte is one step.
pub proof fn lemma_rx_feed_one(cap: nat, st: RxState, b: u8)
    ensures
        rx_feed(cap, st, seq![b]).0 == rx_step(cap, st, b).0,
        rx_feed(cap, st, seq![b]).1 == opt_emit(rx_step(cap, st, b).1),
{
    reveal_with_fuel(rx_feed, 2);
    assert(seq![b].drop_first() =~= Seq::<u8>::empty());
    assert(rx_feed(cap, st, seq![b]).1 =~= opt_emit(rx_step(cap, st, b).1));
}

/// Zero-free bytes that fit beside the staged body are staged in order and
/// emit nothing.
pub proof fn lemma_rx_feed_data(cap: nat, st: RxState, bytes: Seq<u8>)
    requires
        !st.discarding,
        !has_zero(bytes),
        st.staged.len() + bytes.len() <= cap,
    ensures
        rx_feed(cap, st, bytes).0 == (RxState { discarding: false, staged: st.staged + bytes }),
        rx_feed(cap, st, bytes).1 == Seq::<Seq<u8>>::empty(),
    decreases bytes.len(),
{
    if bytes.len() == 0 {
        assert(st.staged + bytes =~= st.staged);
        assert(rx_feed(cap, st, bytes).0 =~= (RxState {
            discarding: false,
            staged: st.staged + bytes,
        }));
    } else {
        assert(bytes[0] != 0);
        let st1 = RxState { discarding: false, staged: st.staged.push(bytes[0]) };
        assert(rx_step(cap, st, bytes[0]) == (st1, None::<Seq<u8>>));
        assert(!has_zero(bytes.drop_first())) by {
            assert forall|i: int| 0 <= i < bytes.drop_first().len() implies bytes.drop_first()[i]
                != 0 by {
                assert(bytes.drop_first()[i] == bytes[i + 1]);
            }
        }
        lemma_rx_feed_data(cap, st1, bytes.drop_first());
        assert(st1.staged + bytes.drop_first() =~= st.staged + bytes);
    }
}

/// While discarding, zero-free bytes are skipped and emit nothing.
pub proof fn lemma_rx_feed_discard_run(cap: nat, st: RxState, bytes: Seq<u8>)
    requires
        st.discarding,
        !has_zero(bytes),
    ensures
        rx_feed(cap, st, bytes).0 == st,
        rx_feed(cap, st, bytes).1 == Seq::<Seq<u8>>::empty(),
    decreases bytes.len(),
{
    if bytes.len() > 0 {
        assert(bytes[0] != 0);
        assert(!has_zero(bytes.drop_first())) by {
            assert forall|i: int| 0 <= i < bytes.drop_first().len() implies bytes.drop_first()[i]
                != 0 by {
                assert(bytes.drop_first()[i] == bytes[i + 1]);
            }
        }
        lemma_rx_feed_discard_run(cap, st, bytes.drop_first());
    }
}

/// A zero-free run that outgrows the staging capacity drops the frame in
/// progress, emits nothing, and leaves the reassembler discarding.
pub proof fn lemma_rx_feed_overflow(cap: nat, st: RxState, bytes: Seq<u8>)
    requires
        !st.discarding,
        st.staged.len() <= cap,
        !has_zero(bytes),
        st.staged.len() + bytes.len() > cap,
    ensures
        rx_feed(cap, st, bytes).0 == (RxState { discarding: true, staged: Seq::empty() }),
        rx_feed(cap, st, bytes).1 == Seq::<Seq<u8>>::empty(),
    decreases bytes.len(),
{
    assert(bytes.len() > 0);
    assert(bytes[0] != 0);
    assert(!has_zero(bytes.drop_first())) by {
        assert forall|i: int| 0 <= i < bytes.drop_first().len() implies bytes.drop_first()[i]
            != 0 by {
            assert(bytes.drop_first()[i] == bytes[i + 1]);
        }
    }
    if st.staged.len() >= cap {
        let st1 = RxState { discarding: true, staged: Seq::empty() };
        lemma_rx_feed_discard_run(cap, st1, bytes.drop_first());
    } else {
        let st1 = RxState { discarding: false, staged: st.staged.push(bytes[0]) };
        lemma_rx_feed_overflow(cap, st1, bytes.drop_first());
    }
}

/// One whole frame whose body fits the staging capacity, fed from the fresh
/// state, emits exactly its message and returns to the fresh state.
pub proof fn lemma_rx_feed_frame(cap: nat, m: Seq<u8>)
    requires
        cobs_encode(m).len() <= cap,
    ensures
        rx_feed(cap, rx_init(), frame_of(m)).0 == rx_init(),
        rx_feed(cap, rx_init(), frame_of(m)).1 == seq![m],
{
    let e = cobs_encode(m);
    codec::lemma_encode_no_zeros(m);
    codec::lemma_encode_len(m);
    codec::lemma_round_trip(m);
    assert(!has_zero(e));
    lemma_rx_feed_concat(cap, rx_init(), e, seq![0u8]);
    lemma_rx_feed_data(cap, rx_init(), e);
    let st1 = RxState { discarding: false, staged: rx_init().staged + e };
    assert(st1.staged =~= e);
    lemma_rx_feed_one(cap, st1, 0u8);
    assert(rx_step(cap, st1, 0u8).1 == Some(m));
    assert(rx_feed(cap, rx_init(), frame_of(m)).1 =~= seq![m]);
}

/// A zero-free span that is not a valid body, closed by a terminator, is
/// dropped whole: nothing is emitted and the fresh state returns.
pub proof fn lemma_rx_feed_bad_span(cap: nat, bad: Seq<u8>)
    requires
        !has_zero(bad),
        bad.len() <= cap,
        cobs_decode(bad) is None,
    ensures
        rx_feed(cap, rx_init(), bad + seq![0u8]).0 == rx_init(),
        rx_feed(cap, rx_init(), bad + seq![0u8]).1 == Seq::<Seq<u8>>::empty(),
{
    lemma_rx_feed_concat(cap, rx_init(), bad, seq![0u8]);
    lemma_rx_feed_data(cap, rx_init(), bad);
    let st1 = RxState { discarding: false, staged: rx_init().staged + bad };
    assert(st1.staged =~= bad);
    lemma_rx_feed_one(cap, st1, 0u8);
    assert(rx_feed(cap, rx_init(), bad + seq![0u8]).1 =~= Seq::<Seq<u8>>::empty());
}

/// The wire image of a message sequence: each message's frame, back to back.
pub open spec fn wire_of(msgs: Seq<Seq<u8>>) -> Seq<u8>
    decreases msgs.len(),
{
    if msgs.len() == 0 {
        Seq::empty()
    } else {
        frame_of(msgs[0]) + wire_of(msgs.drop_first())
    }
}

/// Feeding the wire image of any message sequence whose bodies fit the
/// staging capacity emits exactly those messages, in order.
pub proof fn lemma_rx_feed_wire(cap: nat, msgs: Seq<Seq<u8>>)
    requires
        forall|k: int| 0 <= k < msgs.len() ==> cobs_encode(msgs[k]).len() <= cap,
    ensures
        rx_feed(cap, rx_init(), wire_of(msgs)).0 == rx_init(),
        rx_feed(cap, rx_init(), wire_of(msgs)).1 == msgs,
    decreases msgs.len(),
{
    if msgs.len() == 0 {
        assert(rx_feed(cap, rx_init(), wire_of(msgs)).1 =~= msgs);
    } else {
        lemma_rx_feed_concat(cap, rx_init(), frame_of(msgs[0]), wire_of(msgs.drop_first()));
        lemma_rx_feed_frame(cap, msgs[0]);
        lemma_rx_feed_wire(cap, msgs.drop_first());
        assert(rx_feed(cap, rx_init(), wire_of(msgs)).1 =~= msgs);
    }
}

/// The concatenation of a sequence of chunks.
pub open spec fn concat_all(chunks: Seq<Seq<u8>>) -> Seq<u8>
    decreases chunks.len(),
{
    if chunks.len() == 0 {
        Seq::empty()
    } else {
        chunks[0] + concat_all(chunks.drop_first())
    }
}

/// Folds `rx_feed` over a sequence of chunks, one `feed` call per chunk.
pub open spec fn rx_feed_chunks(cap: nat, st: RxState, chunks: Seq<Seq<u8>>) -> (
    RxState,
    Seq<Seq<u8>>,
)
    decreases chunks.len(),
{
    if chunks.len() == 0 {
        (st, Seq::empty())
    } else {
        let fr = rx_feed(cap, st, chunks[0]);
        let rr = rx_feed_chunks(cap, fr.0, chunks.drop_first());
        (rr.0, fr.1 + rr.1)
    }
}

/// Feeding chunk by chunk equals feeding the concatenated stream.
pub proof fn lemma_rx_feed_chunks_concat(cap: nat, st: RxState, chunks: Seq<Seq<u8>>)
    ensures
        rx_feed_chunks(cap, st, chunks).0 == rx_feed(cap, st, concat_all(chunks)).0,
        rx_feed_chunks(cap, st, chunks).1 == rx_feed(cap, st, concat_all(chunks)).1,
    decreases chunks.len(),
{
    if chunks.len() == 0 {
    } else {
        let fr = rx_feed(cap, st, chunks[0]);
        lemma_rx_feed_chunks_concat(cap, fr.0, chunks.drop_first());
        lemma_rx_feed_concat(cap, st, chunks[0], concat_all(chunks.drop_first()));
    }
}

/// Chunk-boundary independence: however a wire stream of well-formed frames
/// is cut into chunks - one byte at a time, many frames in one chunk, or a
/// split anywhere - feeding the chunks in order emits exactly the framed
/// messages, in order.
pub proof fn lemma_chunk_boundary_independence(
    cap: nat,
    msgs: Seq<Seq<u8>>,
    chunks: Seq<Seq<u8>>,
)
    requires
        concat_all(chunks) == wire_of(msgs),
        forall|k: int| 0 <= k < msgs.len() ==> cobs_encode(msgs[k]).len() <= cap,
    ensures
        rx_feed_chunks(cap, rx_init(), chunks).0 == rx_init(),
        rx_feed_chunks(cap, rx_init(), chunks).1 == msgs,
{
    lemma_rx_feed_chunks_concat(cap, rx_init(), chunks);
    lemma_rx_feed_wire(cap, msgs);
}

/// Malformed-frame isolation: a malformed terminator-delimited span between
/// two good frames is dropped whole and exactly the two good messages come
/// out; the bad span cannot corrupt the frame after it.
pub proof fn lemma_malformed_frame_isolation(cap: nat, g1: Seq<u8>, bad: Seq<u8>, g2: Seq<u8>)
    requires
        cobs_encode(g1).len() <= cap,
        cobs_encode(g2).len() <= cap,
        !has_zero(bad),
        bad.len() <= cap,
        cobs_decode(bad) is None,
    ensures
        rx_feed(cap, rx_init(), frame_of(g1) + (bad + seq![0u8]) + frame_of(g2)).1 == seq![g1, g2],
{
    lemma_rx_feed_frame(cap, g1);
    lemma_rx_feed_bad_span(cap, bad);
    lemma_rx_feed_frame(cap, g2);
    lemma_rx_feed_concat(cap, rx_init(), frame_of(g1), bad + seq![0u8]);
    lemma_rx_feed_concat(cap, rx_init(), frame_of(g1) + (bad + seq![0u8]), frame_of(g2));
    assert(rx_feed(cap, rx_init(), frame_of(g1) + (bad + seq![0u8])).0 == rx_init());
    assert(rx_feed(cap, rx_init(), frame_of(g1) + (bad + seq![0u8]) + frame_of(g2)).1 =~= seq![
        g1,
        g2,
    ]);
}

/// Overflow recovery: a zero-free partial frame that exceeds the staging
/// capacity, closed by a terminator and followed by a valid frame, yields
/// only that valid frame - the reassembler does not stay stuck.
pub proof fn lemma_overflow_recovery(cap: nat, long: Seq<u8>, g: Seq<u8>)
    requires
        !has_zero(long),
        long.len() > cap,
        cobs_encode(g).len() <= cap,
    ensures
        rx_feed(cap, rx_init(), (long + seq![0u8]) + frame_of(g)).1 == seq![g],
{
    let discarding = RxState { discarding: true, staged: Seq::empty() };
    lemma_rx_feed_overflow(cap, rx_init(), long);
    lemma_rx_feed_one(cap, discarding, 0u8);
    lemma_rx_feed_concat(cap, rx_init(), long, seq![0u8]);
    assert(rx_feed(cap, rx_init(), long + seq![0u8]).0 == rx_init());
    assert(rx_feed(cap, rx_init(), long + seq![0u8]).1 =~= Seq::<Seq<u8>>::empty());
    lemma_rx_feed_frame(cap, g);
    lemma_rx_feed_concat(cap, rx_init(), long + seq![0u8], frame_of(g));
    assert(rx_feed(cap, rx_init(), (long + seq![0u8]) + frame_of(g)).1 =~= seq![g]);
}

/// Two complete sends are two distinct, terminator-delimited frames on the
/// wire, never interleaved: fed back through a reassembler they come out as
/// exactly the two messages, in the order the frames were written.
pub proof fn lemma_sends_not_interleaved(cap: nat, m1: Seq<u8>, m2: Seq<u8>)
    requires
        cobs_encode(m1).len() <= cap,
        cobs_encode(m2).len() <= cap,
    ensures
        wire_of(seq![m1, m2]) == frame_of(m1) + frame_of(m2),
        rx_feed(cap, rx_init(), frame_of(m1) + frame_of(m2)).1 == seq![m1, m2],
{
    let msgs = seq![m1, m2];
    assert(msgs.drop_first() =~= seq![m2]);
    assert(seq![m2].drop_first() =~= Seq::<Seq<u8>>::empty());
    assert(wire_of(seq![m2]) =~= frame_of(m2)) by {
        reveal_with_fuel(wire_of, 2);
        assert(frame_of(m2) + Seq::<u8>::empty() =~= frame_of(m2));
    }
    assert(wire_of(msgs) =~= frame_of(m1) + frame_of(m2));
    lemma_rx_feed_wire(cap, msgs);
}

/// Viewing a byte vector deeply is viewing it.
pub proof fn lemma_vec_u8_deep_view(v: Vec<u8>)
    ensures
        v.deep_view() == v@,
{
    assert(v.deep_view() =~= v@);
}

/// The receive reassembler: a fixed-capacity staging buffer for the frame
/// in progress, fed one transport chunk at a time.
pub struct Reassembler {
    staging: Vec<u8>,
    capacity: usize,
    discarding: bool,
}

impl Reassembler {
    /// The abstract state this reassembler is in.
    pub closed spec fn state(self) -> RxState {
        RxState { discarding: self.discarding, staged: self.staging@ }
    }

    /// The staging capacity fixed at construction.
    pub closed spec fn cap(self) -> nat {
        self.capacity as nat
    }

    /// The staged body never exceeds the capacity, and nothing stays staged
    /// while discarding.
    pub closed spec fn wf(self) -> bool {
        &&& self.staging@.len() <= self.capacity
        &&& (self.discarding ==> self.staging@.len() == 0)
    }

    /// A fresh reassembler whose staging buffer holds up to `capacity`
    /// bytes of encoded body. Allocated once; never reallocated after.
    pub fn new(capacity: usize) -> (r: Reassembler)
        ensures
            r.wf(),
            r.state() == rx_init(),
            r.cap() == capacity as nat,
    {
        let mut staging: Vec<u8> = Vec::new();
        staging.reserve(capacity);
        let r = Reassembler { staging, capacity, discarding: false };
        proof {
            assert(r.state() =~= rx_init());
        }
        r
    }

    /// Feeds one chunk of raw transport bytes, exactly as delivered, and
    /// returns every message completed inside it, in arrival order. The
    /// result is the fold of `rx_step` over the chunk's bytes from the
    /// state the reassembler was in, so it does not depend on how the
    /// stream was cut into chunks.
    #[verifier::loop_isolation(false)]
    pub fn feed(&mut self, chunk: &[u8]) -> (msgs: Vec<Vec<u8>>)
        requires
            old(self).wf(),
        ensures
            final(self).wf(),
            final(self).cap() == old(self).cap(),
            final(self).state() == rx_feed(old(self).cap(), old(self).state(), chunk@).0,
            msgs.deep_view() == rx_feed(old(self).cap(), old(self).state(), chunk@).1,
    {
        let ghost cap = old(self).cap();
        let ghost st0 = old(self).state();
        let mut msgs: Vec<Vec<u8>> = Vec::new();
        let mut i: usize = 0;
        proof {
            assert(chunk@.take(0) =~= Seq::<u8>::empty());
            assert(msgs.deep_view() =~= Seq::<Seq<u8>>::empty());
        }
        while i < chunk.len()
            invariant
                i <= chunk@.len(),
                self.wf(),
                self.capacity == old(self).capacity,
                self.state() == rx_feed(cap, st0, chunk@.take(i as int)).0,
                msgs.deep_view() == rx_feed(cap, st0, chunk@.take(i as int)).1,
            decreases chunk@.len() - i,
        {
            let b = chunk[i];
            let ghost pre = self.state();
            let ghost msgs0 = msgs.deep_view();
            let ghost sr = rx_step(cap, pre, b);
            if self.discarding {
                if b == 0 {
                    self.discarding = false;
                }
                proof {
                    assert(pre.staged =~= Seq::<u8>::empty());
                    assert(self.state() =~= sr.0);
                    assert(msgs.deep_view() =~= msgs0 + opt_emit(sr.1));
                }
            } else if b == 0 {
                match codec::decode(self.staging.as_slice()) {
                    Ok(m) => {
                        proof {
                            lemma_vec_u8_deep_view(m);
                        }
                        msgs.push(m);
                        proof {
                            assert(msgs.deep_view() =~= msgs0 + opt_emit(sr.1));
                        }
                    },
                    Err(_) => {
                        proof {
                            assert(msgs.deep_view() =~= msgs0 + opt_emit(sr.1));
                        }
                    },
                }
                self.staging.clear();
                proof {
                    assert(self.state() =~= sr.0);
                }
            } else if self.staging.len() >= self.capacity {
                self.discarding = true;
                self.staging.clear();
                proof {
                    assert(self.state() =~= sr.0);
                    assert(msgs.deep_view() =~= msgs0 + opt_emit(sr.1));
                }
            } else {
                self.staging.push(b);
                proof {
                    assert(self.state() =~= sr.0);
                    assert(msgs.deep_view() =~= msgs0 + opt_emit(sr.1));
                }
            }
            proof {
                lemma_rx_feed_snoc(cap, st0, chunk@.take(i as int), b);
                assert(chunk@.take(i + 1) =~= chunk@.take(i as int).push(b));
            }
            i = i + 1;
        }
        proof {
            assert(chunk@.take(chunk@.len() as int) =~= chunk@);
        }
        msgs
    }
}

} // verus!
