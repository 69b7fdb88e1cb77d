//! Frame codec behavior: round trips, size limits, zero-length frames.

use terminal_remote::codec::{encode_frame, FrameDecoder, FrameError, MAX_FRAME_LEN, MAX_REGISTRATION_LEN};

fn decode_all(decoder: &mut FrameDecoder, max: usize) -> Vec<Vec<u8>> {
    let mut out = Vec::new();
    while let Ok(Some(p)) = decoder.next_frame(max) {
        out.push(p);
    }
    out
}

#[test]
fn frame_round_trip_small() {
    let payload: Vec<u8> = vec![1, 2, 3, 4, 5];
    let wire = encode_frame(&payload);
    assert_eq!(wire.len(), 4 + payload.len());
    assert_eq!(&wire[0..4], &[0, 0, 0, 5]);
    let mut d = FrameDecoder::new();
    d.push_bytes(&wire);
    let frames = decode_all(&mut d, MAX_FRAME_LEN);
    assert_eq!(frames, vec![payload]);
}

#[test]
fn frame_round_trip_all_sizes_sample() {
    for n in [1usize, 2, 3, 255, 256, 65535, 65536, 1048576] {
        let payload: Vec<u8> = (0..n).map(|i| (i % 251) as u8).collect();
        let wire = encode_frame(&payload);
        let mut d = FrameDecoder::new();
        d.push_bytes(&wire);
        match d.next_frame(MAX_FRAME_LEN) {
            Ok(Some(p)) => assert_eq!(p, payload, "size {}", n),
            other => panic!("size {}: unexpected {:?}", n, other.map(|o| o.map(|v| v.len()))),
        }
    }
}

#[test]
fn frame_split_delivery() {
    // a frame arriving in pieces is assembled once complete
    let payload: Vec<u8> = (0..100).collect();
    let wire = encode_frame(&payload);
    let mut d = FrameDecoder::new();
    d.push_bytes(&wire[..3].to_vec());
    assert!(matches!(d.next_frame(MAX_FRAME_LEN), Ok(None)));
    d.push_bytes(&wire[3..50].to_vec());
    assert!(matches!(d.next_frame(MAX_FRAME_LEN), Ok(None)));
    d.push_bytes(&wire[50..].to_vec());
    match d.next_frame(MAX_FRAME_LEN) {
        Ok(Some(p)) => assert_eq!(p, payload),
        other => panic!("unexpected {:?}", other),
    }
}

#[test]
fn two_frames_in_one_read() {
    let a: Vec<u8> = vec![10, 11];
    let b: Vec<u8> = vec![20];
    let mut wire = encode_frame(&a);
    wire.extend_from_slice(&encode_frame(&b));
    let mut d = FrameDecoder::new();
    d.push_bytes(&wire);
    let frames = decode_all(&mut d, MAX_FRAME_LEN);
    assert_eq!(frames, vec![a, b]);
}

#[test]
fn registration_frame_at_limit_accepted() {
    // exactly 64 KiB is accepted
    let payload = vec![b'x'; MAX_REGISTRATION_LEN];
    let wire = encode_frame(&payload);
    let mut d = FrameDecoder::new();
    d.push_bytes(&wire);
    match d.next_frame(MAX_REGISTRATION_LEN) {
        Ok(Some(p)) => assert_eq!(p.len(), MAX_REGISTRATION_LEN),
        other => panic!("unexpected {:?}", other.map(|o| o.map(|v| v.len()))),
    }
}

#[test]
fn registration_frame_over_limit_rejected() {
    // one byte larger is rejected
    let payload = vec![b'x'; MAX_REGISTRATION_LEN + 1];
    let wire = encode_frame(&payload);
    let mut d = FrameDecoder::new();
    d.push_bytes(&wire);
    assert_eq!(d.next_frame(MAX_REGISTRATION_LEN), Err(FrameError::TooLarge));
}

#[test]
fn data_frame_at_limit_accepted() {
    // exactly 1 MiB is accepted
    let payload = vec![0u8; MAX_FRAME_LEN];
    let wire = encode_frame(&payload);
    let mut d = FrameDecoder::new();
    d.push_bytes(&wire);
    match d.next_frame(MAX_FRAME_LEN) {
        Ok(Some(p)) => assert_eq!(p.len(), MAX_FRAME_LEN),
        other => panic!("unexpected {:?}", other.map(|o| o.map(|v| v.len()))),
    }
}

#[test]
fn data_frame_over_limit_rejected() {
    // one byte larger is rejected
    let payload = vec![0u8; MAX_FRAME_LEN + 1];
    let wire = encode_frame(&payload);
    let mut d = FrameDecoder::new();
    d.push_bytes(&wire);
    assert_eq!(d.next_frame(MAX_FRAME_LEN), Err(FrameError::TooLarge));
}

#[test]
fn zero_length_frame_skipped() {
    // a zero-length frame between two real ones is tolerated
    let a: Vec<u8> = vec![7];
    let b: Vec<u8> = vec![8, 9];
    let mut wire = Vec::new();
    wire.extend_from_slice(&[0, 0, 0, 0]);
    wire.extend_from_slice(&encode_frame(&a));
    wire.extend_from_slice(&[0, 0, 0, 0]);
    wire.extend_from_slice(&encode_frame(&b));
    wire.extend_from_slice(&[0, 0, 0, 0]);
    let mut d = FrameDecoder::new();
    d.push_bytes(&wire);
    let frames = decode_all(&mut d, MAX_FRAME_LEN);
    assert_eq!(frames, vec![a, b]);
}
