use rtt_framing::codec::encode;
use rtt_framing::host::made_progress;
use rtt_framing::reassembler::Reassembler;
use rtt_framing::transmit::{FrameInFlight, TransmitDriver};

/// Drives one submitted frame to completion, letting the fake transport
/// accept `accepts[k]` bytes on attempt `k` and whatever remains afterwards.
/// Returns the bytes that reached the wire, in order.
fn drive(tx: &mut TransmitDriver, accepts: &[usize]) -> Vec<u8> {
    let mut wire: Vec<u8> = Vec::new();
    let mut attempt = 0usize;
    while tx.has_pending() {
        let pending = tx.pending_data().unwrap().clone();
        let n = if attempt < accepts.len() {
            accepts[attempt].min(pending.len())
        } else {
            pending.len()
        };
        wire.extend_from_slice(&pending[..n]);
        tx.advance(n);
        attempt += 1;
    }
    wire
}

#[test]
fn partial_write_completion() {
    let msg = vec![1, 2, 0, 3, 4, 5];
    let frame = encode(&msg);
    let mut tx = TransmitDriver::new();
    tx.submit(&msg).unwrap();
    let wire = drive(&mut tx, &[0, 3, 1, 0, 2]);
    assert_eq!(wire, frame);
    assert!(!tx.has_pending());
}

#[test]
fn zero_accept_keeps_pending_unchanged() {
    let msg = vec![9, 8, 7];
    let mut tx = TransmitDriver::new();
    tx.submit(&msg).unwrap();
    let before = tx.pending_data().unwrap().clone();
    tx.advance(0);
    assert_eq!(tx.pending_data().unwrap(), &before);
}

#[test]
fn single_frame_in_flight() {
    let mut tx = TransmitDriver::new();
    tx.submit(&[1, 2, 3]).unwrap();
    let pending_before = tx.pending_data().unwrap().clone();
    assert_eq!(tx.submit(&[4, 5]), Err(FrameInFlight));
    assert!(tx.has_pending());
    assert_eq!(tx.pending_data().unwrap(), &pending_before);
    let _ = drive(&mut tx, &[2]);
    assert_eq!(tx.submit(&[4, 5]), Ok(()));
}

#[test]
fn sequential_sends_never_interleave() {
    let m1 = vec![1, 0, 2];
    let m2 = vec![3, 4, 5, 0];
    let mut tx = TransmitDriver::new();
    let mut wire: Vec<u8> = Vec::new();

    tx.submit(&m1).unwrap();
    wire.extend(drive(&mut tx, &[1, 2]));
    tx.submit(&m2).unwrap();
    wire.extend(drive(&mut tx, &[0, 4]));

    let mut expected = encode(&m1);
    expected.extend_from_slice(&encode(&m2));
    assert_eq!(wire, expected);

    let mut rx = Reassembler::new(64);
    assert_eq!(rx.feed(&wire), vec![m1, m2]);
}

#[test]
fn progress_decides_sleep() {
    assert!(!made_progress(0, 0));
    assert!(made_progress(1, 0));
    assert!(made_progress(0, 5));
    assert!(made_progress(3, 3));
}
