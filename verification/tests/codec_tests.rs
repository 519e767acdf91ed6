use ble_chirp::codec::{Frame, pack_frame, unpack_frame};

fn sample_frame() -> Frame {
    Frame {
        topic: 7,
        ttl: 3,
        msg_id: 0xdead_beef,
        seq_no: 1,
        tot: 2,
        payload: vec![10, 20, 30],
    }
}

#[test]
fn pack_layout_is_fixed() {
    let f = sample_frame();
    let b = pack_frame(&f);
    assert_eq!(b.len(), 11 + 3);
    assert_eq!(&b[0..2], &[0xff, 0xff]);
    assert_eq!(b[2], 1); // version
    assert_eq!(b[3], 7); // topic
    assert_eq!(b[4], 3); // ttl
    assert_eq!(&b[5..9], &[0xef, 0xbe, 0xad, 0xde]); // msg_id little-endian
    assert_eq!(b[9], 1); // seq
    assert_eq!(b[10], 2); // tot
    assert_eq!(&b[11..], &[10, 20, 30]);
}

#[test]
fn unpack_pack_roundtrip() {
    let f = sample_frame();
    let b = pack_frame(&f);
    let g = unpack_frame(&b).expect("frame should parse");
    assert_eq!(g.topic, f.topic);
    assert_eq!(g.ttl, f.ttl);
    assert_eq!(g.msg_id, f.msg_id);
    assert_eq!(g.seq_no, f.seq_no);
    assert_eq!(g.tot, f.tot);
    assert_eq!(g.payload, f.payload);
}

#[test]
fn unpack_roundtrip_empty_payload() {
    let f = Frame { topic: 0, ttl: 0, msg_id: 0, seq_no: 0, tot: 1, payload: vec![] };
    let b = pack_frame(&f);
    let g = unpack_frame(&b).expect("frame should parse");
    assert_eq!(g.msg_id, 0);
    assert_eq!(g.tot, 1);
    assert!(g.payload.is_empty());
}

#[test]
fn unpack_accepts_buffer_without_tag() {
    let f = sample_frame();
    let b = pack_frame(&f);
    let stripped = &b[2..];
    let g = unpack_frame(stripped).expect("headerless delivery should parse");
    assert_eq!(g.topic, f.topic);
    assert_eq!(g.msg_id, f.msg_id);
    assert_eq!(g.payload, f.payload);
}

#[test]
fn unpack_rejects_wrong_version() {
    let f = sample_frame();
    let mut b = pack_frame(&f);
    b[2] = 9;
    assert!(unpack_frame(&b).is_none());
}

#[test]
fn unpack_rejects_short_buffer() {
    assert!(unpack_frame(&[]).is_none());
    assert!(unpack_frame(&[0xff]).is_none());
    assert!(unpack_frame(&[0xff, 0xff, 1, 7, 3, 1, 2, 3]).is_none());
    // Exactly the header with the tag parses.
    assert!(unpack_frame(&[0xff, 0xff, 1, 7, 3, 1, 2, 3, 4, 0, 1]).is_some());
}

#[test]
fn unpack_without_tag_needs_version_first() {
    // No tag, first byte is not the version: noise.
    assert!(unpack_frame(&[0xff, 0xfe, 1, 7, 3, 1, 2, 3, 4, 0, 1]).is_none());
    // No tag, version first: parses from offset 0.
    let g = unpack_frame(&[1, 7, 3, 1, 2, 3, 4, 0, 1]).expect("should parse");
    assert_eq!(g.topic, 7);
    assert_eq!(g.msg_id, u32::from_le_bytes([1, 2, 3, 4]));
    assert_eq!(g.seq_no, 0);
    assert_eq!(g.tot, 1);
    assert!(g.payload.is_empty());
}
