use rtt_framing::codec::{encode, encode_body};
use rtt_framing::reassembler::Reassembler;
use rtt_framing::receiver::Receiver;

fn wire_of(msgs: &[Vec<u8>]) -> Vec<u8> {
    let mut wire: Vec<u8> = Vec::new();
    for m in msgs {
        wire.extend_from_slice(&encode(m));
    }
    wire
}

#[test]
fn multi_frame_single_chunk() {
    let msgs = vec![vec![1, 2, 3], vec![0, 0], vec![9; 40]];
    let wire = wire_of(&msgs);
    let mut r = Reassembler::new(1024);
    let out = r.feed(&wire);
    assert_eq!(out, msgs);
}

#[test]
fn chunking_independence_byte_at_a_time() {
    let msgs = vec![vec![1, 2, 3], vec![0, 4, 0], vec![5; 300]];
    let wire = wire_of(&msgs);
    let mut r = Reassembler::new(1024);
    let mut out: Vec<Vec<u8>> = Vec::new();
    for b in &wire {
        out.extend(r.feed(&[*b]));
    }
    assert_eq!(out, msgs);
}

#[test]
fn chunking_independence_every_split() {
    let msgs = vec![vec![1, 0, 2], vec![3, 4]];
    let wire = wire_of(&msgs);
    for split in 0..=wire.len() {
        let mut r = Reassembler::new(64);
        let mut out = r.feed(&wire[..split]);
        out.extend(r.feed(&wire[split..]));
        assert_eq!(out, msgs, "split at {split}");
    }
}

#[test]
fn partial_frame_across_calls() {
    let msg = vec![1, 2, 3, 4, 5];
    let frame = encode(&msg);
    let mut r = Reassembler::new(64);
    assert!(r.feed(&frame[..3]).is_empty());
    let out = r.feed(&frame[3..]);
    assert_eq!(out, vec![msg]);
}

#[test]
fn malformed_frame_isolation() {
    let good1 = vec![1, 2, 3];
    let good2 = vec![0, 7];
    let mut wire = encode(&good1);
    wire.extend_from_slice(&[5, 1, 2, 0]);
    wire.extend_from_slice(&encode(&good2));
    let mut r = Reassembler::new(64);
    let out = r.feed(&wire);
    assert_eq!(out, vec![good1, good2]);
}

#[test]
fn overflow_recovery() {
    let good = vec![42; 4];
    let mut wire = vec![9u8; 20];
    wire.push(0);
    wire.extend_from_slice(&encode(&good));
    let mut r = Reassembler::new(8);
    let out = r.feed(&wire);
    assert_eq!(out, vec![good.clone()]);
    let again = r.feed(&encode(&good));
    assert_eq!(again, vec![good]);
}

#[test]
fn capacity_boundary() {
    let msg = vec![6u8; 10];
    let body_len = encode_body(&msg).len();
    let frame = encode(&msg);

    let mut fits = Reassembler::new(body_len);
    assert_eq!(fits.feed(&frame), vec![msg]);

    let mut tight = Reassembler::new(body_len - 1);
    assert!(tight.feed(&frame).is_empty());
}

#[test]
fn empty_chunk_yields_nothing() {
    let mut r = Reassembler::new(64);
    assert!(r.feed(&[]).is_empty());
    let frame = encode(&[1, 2]);
    assert!(r.feed(&frame[..2]).is_empty());
    assert!(r.feed(&[]).is_empty());
    assert_eq!(r.feed(&frame[2..]), vec![vec![1, 2]]);
}

#[test]
fn bare_terminators_yield_nothing() {
    let mut r = Reassembler::new(64);
    assert!(r.feed(&[0, 0, 0]).is_empty());
    let msg = vec![1, 2];
    assert_eq!(r.feed(&encode(&msg)), vec![msg]);
}

#[test]
fn receiver_hands_out_one_at_a_time() {
    let m1 = vec![1, 2];
    let m2 = vec![3, 0, 4];
    let wire = wire_of(&[m1.clone(), m2.clone()]);
    let mut rx = Receiver::new(64);
    rx.on_bytes(&wire);
    assert_eq!(rx.next_message(), Some(m1));
    assert_eq!(rx.next_message(), Some(m2));
    assert_eq!(rx.next_message(), None);
}

#[test]
fn receiver_keeps_arrival_order_across_chunks() {
    let msgs = vec![vec![1], vec![2], vec![3]];
    let wire = wire_of(&msgs);
    let mut rx = Receiver::new(64);
    for b in &wire {
        rx.on_bytes(&[*b]);
    }
    for m in &msgs {
        assert_eq!(rx.next_message(), Some(m.clone()));
    }
    assert_eq!(rx.next_message(), None);
}
