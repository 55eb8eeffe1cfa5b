//! Frame codec: a zero-free run encoding of message bodies.
//!
//! A message is split into groups of at most 254 non-zero bytes. Each group
//! is emitted as a code byte followed by the group's bytes: code `c` in
//! `1..=254` means `c - 1` literal bytes followed by one zero of the original
//! message (the zero is dropped when the group ends the message), and code
//! `255` means 254 literal bytes with no following zero. The encoded body
//! therefore contains no `0x00` byte, so a single `0x00` terminator appended
//! after it delimits the frame unambiguously.

use vstd::prelude::*;

verus! {

/// Decoding failed: the input is not a valid encoding of any message
/// (for example a truncated group, or a stray zero byte).
#[derive(Clone, Copy, Debug, PartialEq, Eq)]
pub struct MalformedFrame;

/// True if `s` holds a zero byte anywhere.
pub open spec fn has_zero(s: Seq<u8>) -> bool {
    exists|i: int| 0 <= i < s.len() && s[i] == 0
}

/// Number of leading non-zero bytes of `m`.
pub open spec fn run_len(m: Seq<u8>) -> nat
    decreases m.len(),
{
    if m.len() == 0 || m[0] == 0 {
        0
    } else {
        1 + run_len(m.drop_first())
    }
}

/// Length of the first encoding group of `m`: its leading run of non-zero
/// bytes, capped at 254.
pub open spec fn group_len(m: Seq<u8>) -> nat {
    if run_len(m) > 254 {
        254
    } else {
        run_len(m)
    }
}

/// The encoded body of message `m` (terminator not included).
pub open spec fn cobs_encode(m: Seq<u8>) -> Seq<u8>
    decreases m.len(),
    via cobs_encode_decreases
{
    let r = group_len(m);
    if r == m.len() {
        seq![(r + 1) as u8] + m
    } else if r == 254 {
        seq![255u8] + m.take(254) + cobs_encode(m.skip(254))
    } else {
        seq![(r + 1) as u8] + m.take(r as int) + cobs_encode(m.skip(r + 1 as int))
    }
}

#[via_fn]
proof fn cobs_encode_decreases(m: Seq<u8>) {
    lemma_run_len(m);
}

/// One frame as it appears on the wire: the encoded body of `m` followed by
/// the `0x00` terminator.
pub open spec fn frame_of(m: Seq<u8>) -> Seq<u8> {
    cobs_encode(m) + seq![0u8]
}

/// Decodes a sequence of groups; an empty `e` marks the end of the frame.
pub open spec fn cobs_decode_rec(e: Seq<u8>) -> Option<Seq<u8>>
    decreases e.len(),
{
    if e.len() == 0 {
        Some(Seq::empty())
    } else {
        let c = e[0] as int;
        if c == 0 || c > e.len() {
            None
        } else {
            let block = e.subrange(1, c);
            let rest = e.skip(c);
            if has_zero(block) {
                None
            } else {
                match cobs_decode_rec(rest) {
                    None => None,
                    Some(tail) => if rest.len() == 0 {
                        Some(block)
                    } else if c == 255 {
                        Some(block + tail)
                    } else {
                        Some(block + seq![0u8] + tail)
                    },
                }
            }
        }
    }
}

/// The message encoded by body `e`, or `None` if `e` is not a valid encoding.
/// The empty body encodes nothing: a bare terminator is not a frame.
pub open spec fn cobs_decode(e: Seq<u8>) -> Option<Seq<u8>> {
    if e.len() == 0 {
        None
    } else {
        cobs_decode_rec(e)
    }
}

/// The leading run of `m` is no longer than `m`, consists of non-zero bytes,
/// and ends at the first zero when one exists.
pub proof fn lemma_run_len(m: Seq<u8>)
    ensures
        0 <= run_len(m) <= m.len(),
        forall|i: int| 0 <= i < run_len(m) ==> m[i] != 0,
        run_len(m) < m.len() ==> m[run_len(m) as int] == 0,
    decreases m.len(),
{
    if m.len() == 0 || m[0] == 0 {
    } else {
        lemma_run_len(m.drop_first());
        assert forall|i: int| 0 <= i < run_len(m) implies m[i] != 0 by {
            if i > 0 {
                assert(m.drop_first()[i - 1] != 0);
            }
        }
        if run_len(m) < m.len() {
            assert(m.drop_first()[run_len(m) - 1] == 0);
        }
    }
}

/// If the first `k` bytes of `m` are non-zero, the leading run is at least `k`.
proof fn lemma_run_len_at_least(m: Seq<u8>, k: int)
    requires
        0 <= k <= m.len(),
        forall|i: int| 0 <= i < k ==> m[i] != 0,
    ensures
        run_len(m) >= k,
    decreases k,
{
    if k > 0 {
        assert(m[0] != 0);
        assert forall|i: int| 0 <= i < k - 1 implies m.drop_first()[i] != 0 by {
            assert(m[i + 1] != 0);
        }
        lemma_run_len_at_least(m.drop_first(), k - 1);
    }
}

/// If the first `k` bytes of `m` are non-zero and byte `k` (when it exists)
/// is zero, the leading run is exactly `k`.
proof fn lemma_run_len_exact(m: Seq<u8>, k: int)
    requires
        0 <= k <= m.len(),
        forall|i: int| 0 <= i < k ==> m[i] != 0,
        k == m.len() || m[k] == 0,
    ensures
        run_len(m) == k,
{
    lemma_run_len(m);
    lemma_run_len_at_least(m, k);
    if run_len(m) > k {
        assert(m[k] != 0);
    }
}

/// An encoded body is never empty, and adds less than one byte of overhead
/// per message byte.
pub proof fn lemma_encode_len(m: Seq<u8>)
    ensures
        cobs_encode(m).len() >= 1,
        cobs_encode(m).len() <= 2 * m.len() + 1,
    decreases m.len(),
{
    lemma_run_len(m);
    let r = group_len(m);
    if r == m.len() {
    } else if r == 254 {
        lemma_encode_len(m.skip(254));
    } else {
        lemma_encode_len(m.skip(r + 1 as int));
    }
}

/// The encoded body of any message contains no zero byte.
pub proof fn lemma_encode_no_zeros(m: Seq<u8>)
    ensures
        forall|i: int| 0 <= i < cobs_encode(m).len() ==> cobs_encode(m)[i] != 0,
    decreases m.len(),
{
    lemma_run_len(m);
    let r = group_len(m);
    let e = cobs_encode(m);
    if r == m.len() {
        assert forall|i: int| 0 <= i < e.len() implies e[i] != 0 by {
            if i > 0 {
                assert(m[i - 1] != 0);
            }
        }
    } else if r == 254 {
        lemma_encode_no_zeros(m.skip(254));
        assert forall|i: int| 0 <= i < e.len() implies e[i] != 0 by {
            if 0 < i <= 254 {
                assert(e[i] == m[i - 1]);
            } else if i > 254 {
                assert(e[i] == cobs_encode(m.skip(254))[i - 255]);
            }
        }
    } else {
        lemma_encode_no_zeros(m.skip(r + 1 as int));
        assert forall|i: int| 0 <= i < e.len() implies e[i] != 0 by {
            if 0 < i <= r {
                assert(e[i] == m[i - 1]);
            } else if i > r {
                assert(e[i] == cobs_encode(m.skip(r + 1 as int))[i - r - 1]);
            }
        }
    }
}

/// Round trip: decoding the encoded body of any message, including the empty
/// message and messages holding zero bytes, gives that message back.
pub proof fn lemma_round_trip(m: Seq<u8>)
    ensures
        cobs_decode(cobs_encode(m)) == Some(m),
{
    lemma_encode_len(m);
    lemma_round_trip_rec(m);
}

proof fn lemma_round_trip_rec(m: Seq<u8>)
    ensures
        cobs_decode_rec(cobs_encode(m)) == Some(m),
    decreases m.len(),
{
    lemma_run_len(m);
    let r = group_len(m);
    let e = cobs_encode(m);
    let c = e[0] as int;
    if r == m.len() {
        assert(c == r + 1);
        assert(e.len() == c);
        let block = e.subrange(1, c);
        assert(block =~= m);
        assert(!has_zero(block));
        assert(e.skip(c) =~= Seq::<u8>::empty());
        reveal_with_fuel(cobs_decode_rec, 2);
        assert(cobs_decode_rec(e) == Some(m));
    } else if r == 254 {
        let tail_enc = cobs_encode(m.skip(254));
        lemma_encode_len(m.skip(254));
        lemma_round_trip_rec(m.skip(254));
        assert(c == 255);
        assert(e.len() == 255 + tail_enc.len());
        let block = e.subrange(1, 255);
        assert(block =~= m.take(254));
        assert(!has_zero(block));
        let rest = e.skip(255);
        assert(rest =~= tail_enc);
        assert(rest.len() > 0);
        assert(cobs_decode_rec(rest) == Some(m.skip(254)));
        assert(block + m.skip(254) =~= m);
        assert(cobs_decode_rec(e) == Some(m));
    } else {
        let tail_enc = cobs_encode(m.skip(r + 1 as int));
        lemma_encode_len(m.skip(r + 1 as int));
        lemma_round_trip_rec(m.skip(r + 1 as int));
        assert(1 <= c == r + 1 <= 254);
        assert(e.len() == r + 1 + tail_enc.len());
        let block = e.subrange(1, c);
        assert(block =~= m.take(r as int));
        assert(!has_zero(block));
        let rest = e.skip(c);
        assert(rest =~= tail_enc);
        assert(rest.len() > 0);
        assert(cobs_decode_rec(rest) == Some(m.skip(r + 1 as int)));
        assert(m[r as int] == 0);
        assert(block + seq![0u8] + m.skip(r + 1 as int) =~= m);
        assert(cobs_decode_rec(e) == Some(m));
    }
}

/// `o` with `p` prepended to its payload; `None` stays `None`.
spec fn opt_prepend(p: Seq<u8>, o: Option<Seq<u8>>) -> Option<Seq<u8>> {
    match o {
        Some(t) => Some(p + t),
        None => None,
    }
}

/// Encodes `msg` into its zero-free body, without the terminator.
#[verifier::loop_isolation(false)]
#[verifier::rlimit(60)]
pub fn encode_body(msg: &[u8]) -> (out: Vec<u8>)
    ensures
        out@ == cobs_encode(msg@),
{
    let len: usize = msg.len();
    let mut out: Vec<u8> = Vec::new();
    let mut i: usize = 0;
    proof {
        assert(msg@.skip(0) =~= msg@);
        assert(out@ + cobs_encode(msg@) =~= cobs_encode(msg@));
    }
    loop
        invariant
            i <= len,
            out@ + cobs_encode(msg@.skip(i as int)) == cobs_encode(msg@),
        decreases len - i,
    {
        let ghost rem = msg@.skip(i as int);
        let ghost out0 = out@;
        let mut j: usize = i;
        while j < len && j - i < 254 && msg[j] != 0
            invariant
                i <= j <= len,
                j - i <= 254,
                forall|k: int| i <= k < j ==> msg@[k] != 0,
            decreases len - j,
        {
            j = j + 1;
        }
        let r: usize = j - i;
        proof {
            assert forall|k: int| 0 <= k < r implies rem[k] != 0 by {
                assert(msg@[i + k] != 0);
            }
            lemma_run_len(rem);
            lemma_run_len_at_least(rem, r as int);
            if r < 254 && j < len {
                assert(rem[r as int] == msg@[j as int]);
                lemma_run_len_exact(rem, r as int);
            }
            if j == len {
                lemma_run_len_exact(rem, r as int);
            }
            assert(group_len(rem) == r);
        }
        out.push((r + 1) as u8);
        let mut k: usize = i;
        while k < j
            invariant
                i <= k <= j,
                out@ == out0 + seq![(r + 1) as u8] + msg@.subrange(i as int, k as int),
            decreases j - k,
        {
            let b = msg[k];
            out.push(b);
            proof {
                assert(out@ =~= out0 + seq![(r + 1) as u8] + msg@.subrange(i as int, k + 1));
            }
            k = k + 1;
        }
        if j == len {
            proof {
                assert(r == rem.len());
                assert(cobs_encode(rem) == seq![(r + 1) as u8] + rem);
                assert(msg@.subrange(i as int, j as int) =~= rem);
                assert(out@ =~= out0 + cobs_encode(rem));
            }
            return out;
        } else if r == 254 {
            proof {
                assert(cobs_encode(rem) == seq![255u8] + rem.take(254) + cobs_encode(rem.skip(254)));
                assert(msg@.subrange(i as int, j as int) =~= rem.take(254));
                assert(msg@.skip(i + 254) =~= rem.skip(254));
                assert(out@ + cobs_encode(msg@.skip(i + 254)) =~= out0 + cobs_encode(rem));
            }
            i = j;
        } else {
            proof {
                assert(rem[r as int] == 0);
                assert(r < rem.len());
                assert(cobs_encode(rem) == seq![(r + 1) as u8] + rem.take(r as int) + cobs_encode(
                    rem.skip(r + 1 as int),
                ));
                assert(msg@.subrange(i as int, j as int) =~= rem.take(r as int));
                assert(msg@.skip(i + r + 1) =~= rem.skip(r + 1 as int));
                assert(out@ + cobs_encode(msg@.skip(i + r + 1)) =~= out0 + cobs_encode(rem));
            }
            i = j + 1;
        }
    }
}

/// Encodes `msg` into one complete frame: the zero-free body followed by
/// the `0x00` terminator. Deterministic, defined for every message.
pub fn encode(msg: &[u8]) -> (out: Vec<u8>)
    ensures
        out@ == frame_of(msg@),
{
    let mut out = encode_body(msg);
    out.push(0);
    proof {
        assert(out@ =~= frame_of(msg@));
    }
    out
}

/// Decodes one frame body (terminator not included) back into the message
/// it encodes. Returns `MalformedFrame` exactly when `body` is not a valid
/// encoding: it is empty, a group runs past the end, or a zero byte occurs.
#[verifier::loop_isolation(false)]
pub fn decode(body: &[u8]) -> (res: Result<Vec<u8>, MalformedFrame>)
    ensures
        (match res {
            Ok(m) => cobs_decode(body@) == Some(m@),
            Err(_) => cobs_decode(body@) is None,
        }),
{
    let len: usize = body.len();
    if len == 0 {
        return Err(MalformedFrame);
    }
    let mut out: Vec<u8> = Vec::new();
    let mut i: usize = 0;
    proof {
        assert(body@.skip(0) =~= body@);
        assert(opt_prepend(out@, cobs_decode_rec(body@)) == cobs_decode_rec(body@)) by {
            if cobs_decode_rec(body@) is Some {
                assert(out@ + cobs_decode_rec(body@).unwrap() =~= cobs_decode_rec(body@).unwrap());
            }
        }
    }
    while i < len
        invariant
            i <= len,
            opt_prepend(out@, cobs_decode_rec(body@.skip(i as int))) == cobs_decode_rec(body@),
        decreases len - i,
    {
        let ghost i0 = i as int;
        let ghost suf = body@.skip(i as int);
        let ghost out0 = out@;
        let c: usize = body[i] as usize;
        proof {
            assert(suf[0] == body@[i0]);
        }
        if c == 0 {
            return Err(MalformedFrame);
        }
        if c > len - i {
            proof {
                assert(c > suf.len());
            }
            return Err(MalformedFrame);
        }
        let ghost block = suf.subrange(1, c as int);
        let mut k: usize = i + 1;
        while k < i + c
            invariant
                i + 1 <= k <= i + c,
                out@ == out0 + body@.subrange(i0 + 1, k as int),
                forall|t: int| i0 + 1 <= t < k ==> body@[t] != 0,
            decreases i + c - k,
        {
            let b = body[k];
            if b == 0 {
                proof {
                    assert(block[k - i0 - 1] == body@[k as int]);
                    assert(has_zero(block));
                }
                return Err(MalformedFrame);
            }
            out.push(b);
            proof {
                assert(out@ =~= out0 + body@.subrange(i0 + 1, k + 1));
            }
            k = k + 1;
        }
        proof {
            assert(block =~= body@.subrange(i0 + 1, i0 + c));
            assert(!has_zero(block)) by {
                assert forall|t: int| 0 <= t < block.len() implies block[t] != 0 by {
                    assert(block[t] == body@[i0 + 1 + t]);
                }
            }
        }
        i = i + c;
        let ghost rest = body@.skip(i as int);
        proof {
            assert(rest =~= suf.skip(c as int));
        }
        if i < len && c != 255 {
            out.push(0);
        }
        proof {
            match cobs_decode_rec(rest) {
                None => {
                    assert(cobs_decode_rec(suf) is None);
                },
                Some(tail) => {
                    if rest.len() == 0 {
                        assert(i == len);
                        assert(cobs_decode_rec(suf) == Some(block));
                        assert(out@ =~= out0 + block);
                        assert(out@ + tail =~= out0 + block);
                    } else if c == 255 {
                        assert(cobs_decode_rec(suf) == Some(block + tail));
                        assert(out@ =~= out0 + block);
                        assert(out@ + tail =~= out0 + (block + tail));
                    } else {
                        assert(cobs_decode_rec(suf) == Some(block + seq![0u8] + tail));
                        assert(out@ =~= out0 + block + seq![0u8]);
                        assert(out@ + tail =~= out0 + (block + seq![0u8] + tail));
                    }
                },
            }
        }
    }
    proof {
        assert(body@.skip(len as int) =~= Seq::<u8>::empty());
        assert(cobs_decode_rec(Seq::<u8>::empty()) == Some(Seq::<u8>::empty()));
        assert(out@ + Seq::<u8>::empty() =~= out@);
        assert(cobs_decode_rec(body@) == Some(out@));
    }
    Ok(out)
}

} // verus!
