use plugin_fabric::frame::{decode_frame, encode_frame};

#[test]
fn empty_payload_is_a_bare_prefix() {
    assert_eq!(encode_frame(&[]), vec![0, 0, 0, 0]);
    assert_eq!(decode_frame(&[0, 0, 0, 0]), Some((vec![], 4)));
}

#[test]
fn prefix_is_big_endian() {
    assert_eq!(encode_frame(b"hi"), vec![0, 0, 0, 2, b'h', b'i']);
    let payload = vec![7u8; 300];
    let f = encode_frame(&payload);
    assert_eq!(&f[..4], &[0, 0, 1, 44]);
    assert_eq!(f.len(), 304);
}

#[test]
fn partial_frames_wait_for_more() {
    assert_eq!(decode_frame(&[]), None);
    assert_eq!(decode_frame(&[0, 0, 0]), None);
    assert_eq!(decode_frame(&[0, 0, 0, 3, 1, 2]), None);
}

#[test]
fn decoding_stops_at_the_frame_end() {
    let mut buf = encode_frame(&[1, 2, 3]);
    buf.extend_from_slice(&[0, 0, 0, 1, 9]);
    assert_eq!(decode_frame(&buf), Some((vec![1, 2, 3], 7)));
    assert_eq!(decode_frame(&buf[7..]), Some((vec![9], 5)));
}

#[test]
fn a_created_object_id_frame() {
    let id_zero = 0u64.to_le_bytes();
    let f = encode_frame(&id_zero);
    assert_eq!(f, vec![0, 0, 0, 8, 0, 0, 0, 0, 0, 0, 0, 0]);
    assert_eq!(decode_frame(&f), Some((id_zero.to_vec(), 12)));
}

#[test]
fn frames_survive_a_round_trip() {
    for len in [0usize, 1, 255, 256, 70000] {
        let payload: Vec<u8> = (0..len).map(|i| (i * 7 % 256) as u8).collect();
        let f = encode_frame(&payload);
        assert_eq!(decode_frame(&f), Some((payload, len + 4)));
    }
}
