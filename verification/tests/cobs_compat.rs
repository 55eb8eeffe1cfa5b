//! The wire format must match the peer bit for bit; the peer frames with
//! the cobs crate, so encoder and decoder are held against it directly.

use rtt_framing::codec::{decode, encode_body};
use rtt_framing::device::{PacketBuffers, TaskContext};
use rtt_framing::host::{ProbeRttRxError, ProbeRttTxError};

fn sample_messages() -> Vec<Vec<u8>> {
    let mut samples: Vec<Vec<u8>> = vec![
        vec![],
        vec![0],
        vec![1],
        vec![0, 0, 1, 0],
        vec![10, 11, 0, 12],
        vec![255, 0],
    ];
    for n in [253usize, 254, 255, 300, 507, 508, 509] {
        samples.push((0..n).map(|i| (i % 255) as u8 + 1).collect());
        samples.push((0..n).map(|i| (i % 256) as u8).collect());
    }
    samples
}

#[test]
fn encoder_matches_cobs_crate() {
    for msg in sample_messages() {
        assert_eq!(encode_body(&msg), cobs::encode_vec(&msg), "message {msg:?}");
    }
}

#[test]
fn decoder_matches_cobs_crate_on_valid_bodies() {
    for msg in sample_messages() {
        let body = cobs::encode_vec(&msg);
        assert_eq!(decode(&body).unwrap(), msg);
        assert_eq!(cobs::decode_vec(&body).unwrap(), msg);
    }
}

#[test]
fn cobs_crate_decodes_our_frames() {
    for msg in sample_messages() {
        let mut framed = encode_body(&msg);
        framed.push(0);
        assert_eq!(cobs::decode_vec(&framed).unwrap(), msg);
    }
}

#[test]
fn packet_buffers_start_zeroed() {
    let bufs: PacketBuffers<16, 8> = PacketBuffers::new();
    assert!(bufs.tx_buf.iter().all(|b| *b == 0));
    assert!(bufs.rx_buf.iter().all(|b| *b == 0));
    let ctxt = TaskContext { unique_id: 123456789 };
    assert_eq!(ctxt.unique_id, 123456789);
}

#[test]
fn bridge_error_values() {
    assert_eq!(ProbeRttTxError::Closed, ProbeRttTxError::Closed);
    assert_eq!(ProbeRttRxError::Closed, ProbeRttRxError::Closed);
    assert!(matches!(ProbeRttTxError::Closed, ProbeRttTxError::Closed));
}
