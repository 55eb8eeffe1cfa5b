use rtt_framing::codec::{decode, encode, encode_body, MalformedFrame};

fn check_round_trip(msg: &[u8]) {
    let body = encode_body(msg);
    assert_eq!(decode(&body).unwrap(), msg.to_vec());
}

#[test]
fn round_trip_empty() {
    assert_eq!(encode_body(&[]), vec![1]);
    assert_eq!(decode(&[1]).unwrap(), Vec::<u8>::new());
}

#[test]
fn round_trip_simple() {
    check_round_trip(&[1]);
    check_round_trip(&[10, 11, 12]);
    check_round_trip(&[255, 254, 253]);
}

#[test]
fn round_trip_with_zero_bytes() {
    check_round_trip(&[0]);
    check_round_trip(&[0, 0]);
    check_round_trip(&[0, 0, 1, 0]);
    check_round_trip(&[1, 0, 2, 0, 3]);
    let mut all: Vec<u8> = Vec::new();
    for round in 0..3 {
        for b in 0..=255u8 {
            all.push(b.wrapping_add(round));
        }
    }
    check_round_trip(&all);
}

#[test]
fn round_trip_block_boundaries() {
    for n in [253usize, 254, 255, 507, 508, 509, 600] {
        let msg: Vec<u8> = (0..n).map(|i| (i % 255) as u8 + 1).collect();
        check_round_trip(&msg);
        let mut with_zero = msg.clone();
        with_zero.push(0);
        check_round_trip(&with_zero);
    }
}

#[test]
fn encode_exact_values() {
    assert_eq!(encode(&[]), vec![1, 0]);
    assert_eq!(encode(&[0]), vec![1, 1, 0]);
    assert_eq!(encode(&[1]), vec![2, 1, 0]);
    assert_eq!(encode(&[11, 22, 0, 33]), vec![3, 11, 22, 2, 33, 0]);
    assert_eq!(encode(&[0, 0, 1, 0]), vec![1, 1, 2, 1, 1, 0]);
    assert_eq!(encode(&[255, 0]), vec![2, 255, 1, 0]);
}

#[test]
fn encode_full_block_exact() {
    let msg = [7u8; 254];
    let framed = encode(&msg);
    assert_eq!(framed.len(), 256);
    assert_eq!(framed[0], 255);
    assert!(framed[1..255].iter().all(|b| *b == 7));
    assert_eq!(framed[255], 0);
}

#[test]
fn encoded_body_has_no_zeros() {
    let samples: Vec<Vec<u8>> = vec![
        vec![],
        vec![0],
        vec![0, 0, 0, 0],
        vec![1, 0, 2],
        (0..600).map(|i| (i % 256) as u8).collect(),
    ];
    for msg in samples {
        let body = encode_body(&msg);
        assert!(body.iter().all(|b| *b != 0));
        let framed = encode(&msg);
        assert_eq!(*framed.last().unwrap(), 0);
        assert!(framed[..framed.len() - 1].iter().all(|b| *b != 0));
    }
}

#[test]
fn decode_rejects_empty() {
    assert_eq!(decode(&[]), Err(MalformedFrame));
}

#[test]
fn decode_rejects_truncated_group() {
    assert_eq!(decode(&[5, 1, 2]), Err(MalformedFrame));
    assert_eq!(decode(&[2]), Err(MalformedFrame));
    assert_eq!(decode(&[255, 1, 2, 3]), Err(MalformedFrame));
}

#[test]
fn decode_rejects_zero_code() {
    assert_eq!(decode(&[0]), Err(MalformedFrame));
    assert_eq!(decode(&[0, 2, 5]), Err(MalformedFrame));
}

#[test]
fn decode_rejects_interior_zero() {
    assert_eq!(decode(&[2, 0]), Err(MalformedFrame));
    assert_eq!(decode(&[3, 1, 0]), Err(MalformedFrame));
    assert_eq!(decode(&[2, 5, 1, 0]), Err(MalformedFrame));
}

#[test]
fn decode_accepts_non_canonical_final_block() {
    let msg: Vec<u8> = (0..254).map(|i| (i % 255) as u8 + 1).collect();
    let mut canonical = vec![255u8];
    canonical.extend_from_slice(&msg);
    assert_eq!(decode(&canonical).unwrap(), msg);
    let mut padded = canonical.clone();
    padded.push(1);
    assert_eq!(decode(&padded).unwrap(), msg);
}
