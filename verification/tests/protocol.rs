use entangle::protocol::{
    decode_message, encode_sync_step1, encode_sync_step2, encode_update, read_var_bytes,
    read_varint, write_var_bytes, write_varint, SyncMessage,
};

#[test]
fn round_trip_sync_step1() {
    let sv = vec![1, 2, 3, 4];
    let encoded = encode_sync_step1(&sv);
    let decoded = decode_message(&encoded).unwrap();
    assert!(matches!(decoded, SyncMessage::SyncStep1(v) if v == sv));
}

#[test]
fn round_trip_sync_step2() {
    let update = vec![0xDE, 0xAD, 0xBE, 0xEF];
    let encoded = encode_sync_step2(&update);
    let decoded = decode_message(&encoded).unwrap();
    assert!(matches!(decoded, SyncMessage::SyncStep2(v) if v == update));
}

#[test]
fn round_trip_update() {
    let update = vec![42u8; 128];
    let encoded = encode_update(&update);
    let decoded = decode_message(&encoded).unwrap();
    assert!(matches!(decoded, SyncMessage::Update(v) if v == update));
}

#[test]
fn unknown_msg_type_returns_none() {
    // message type 1 = awareness, not sync
    let mut buf = Vec::new();
    write_varint(&mut buf, 1);
    write_varint(&mut buf, 0);
    write_var_bytes(&mut buf, &[1, 2, 3]);
    assert!(decode_message(&buf).is_none());
}

#[test]
fn truncated_message_returns_none() {
    assert!(decode_message(&[]).is_none());
    assert!(decode_message(&[0]).is_none());
}

#[test]
fn varint_multibyte() {
    let mut buf = Vec::new();
    write_varint(&mut buf, 300);
    let mut pos = 0;
    let v = read_varint(&buf, &mut pos).unwrap();
    assert_eq!(v, 300);
    assert_eq!(pos, buf.len());
}

#[test]
fn wire_format_of_a_request() {
    assert_eq!(encode_sync_step1(&[1, 0, 1, 5]), vec![0, 0, 4, 1, 0, 1, 5]);
}

#[test]
fn wire_format_of_a_reply() {
    assert_eq!(encode_sync_step2(&[7]), vec![0, 1, 1, 7]);
    assert_eq!(encode_sync_step2(&[]), vec![0, 1, 0]);
}

#[test]
fn wire_format_of_an_update() {
    assert_eq!(
        encode_update(&[0xde, 0xad, 0xbe, 0xef]),
        vec![0, 2, 4, 222, 173, 190, 239]
    );
}

#[test]
fn varints_at_the_edges() {
    let cases: [(u64, &[u8]); 6] = [
        (0, &[0]),
        (127, &[127]),
        (128, &[0x80, 1]),
        (300, &[0xac, 2]),
        (16_383, &[0xff, 0x7f]),
        (
            u64::MAX,
            &[0xff, 0xff, 0xff, 0xff, 0xff, 0xff, 0xff, 0xff, 0xff, 1],
        ),
    ];
    for (n, bytes) in cases {
        let mut buf = Vec::new();
        write_varint(&mut buf, n);
        assert_eq!(buf, bytes);
        let mut pos = 0;
        assert_eq!(read_varint(&buf, &mut pos), Some(n));
        assert_eq!(pos, bytes.len());
    }
}

#[test]
fn varint_without_an_end_is_refused() {
    let mut pos = 0;
    assert_eq!(read_varint(&[0x80, 0x80], &mut pos), None);
    let mut pos = 0;
    assert_eq!(read_varint(&[0x80; 11], &mut pos), None);
}

#[test]
fn var_bytes_round_trip_in_the_middle() {
    let mut buf = vec![9, 9];
    write_var_bytes(&mut buf, b"abc");
    buf.push(7);
    let mut pos = 2;
    assert_eq!(read_var_bytes(&buf, &mut pos), Some(&b"abc"[..]));
    assert_eq!(pos, 6);
}

#[test]
fn every_cut_of_a_frame_is_refused() {
    let frame = encode_update(&[5u8; 200]);
    for n in 0..frame.len() {
        assert!(decode_message(&frame[..n]).is_none());
    }
}

#[test]
fn bytes_behind_a_frame_are_ignored() {
    let mut frame = encode_sync_step2(&[1, 2]);
    frame.push(99);
    assert!(matches!(decode_message(&frame), Some(SyncMessage::SyncStep2(v)) if v == [1, 2]));
}

#[test]
fn unknown_sync_type_is_refused() {
    assert!(decode_message(&[0, 3, 1, 7]).is_none());
}

#[test]
fn frames_of_different_kinds_differ() {
    let payload = [1, 2, 3];
    assert_ne!(encode_sync_step1(&payload), encode_sync_step2(&payload));
    assert_ne!(encode_sync_step2(&payload), encode_update(&payload));
}

#[test]
fn absurd_length_is_refused() {
    let mut frame = vec![0, 2];
    frame.extend_from_slice(&[0xff, 0xff, 0xff, 0xff, 0xff, 0xff, 0xff, 0xff, 0xff, 0x01]);
    assert!(decode_message(&frame).is_none());
    frame.push(1);
    assert!(decode_message(&frame).is_none());
    let mut pos = 2;
    assert_eq!(read_var_bytes(&frame, &mut pos), None);
}
