use ble_chirp::codec::{pack_frame, unpack_frame, Frame};
use ble_chirp::crypto::derive_key;
use ble_chirp::engine::{build_message_packets, handle_frame, prepare_message, RxState};

fn frame(topic: u8, ttl: u8, msg_id: u32, seq_no: u8, tot: u8, payload: &[u8]) -> Vec<u8> {
    pack_frame(&Frame { topic, ttl, msg_id, seq_no, tot, payload: payload.to_vec() })
}

#[test]
fn single_fragment_message_is_delivered() {
    let mut state = RxState::new();
    let raw = frame(7, 3, 1, 0, 1, b"hi");
    let out = handle_frame(&mut state, &raw, None, false, None);
    let d = out.delivered.expect("complete message must be delivered");
    assert_eq!(d.topic, 7);
    assert_eq!(d.msg_id, 1);
    assert_eq!(d.text, "hi");
    assert!(out.relay.is_none());
}

#[test]
fn out_of_order_fragments_reassemble() {
    let msg: Vec<u8> = (b'a'..b'a' + 26).chain(b'A'..b'A' + 19).collect();
    assert_eq!(msg.len(), 45);
    let pkts = build_message_packets(9, 0, 77, &msg, None);
    assert_eq!(pkts.len(), 3);
    let mut state = RxState::new();
    for idx in [2usize, 0, 1] {
        let out = handle_frame(&mut state, &pkts[idx], None, false, None);
        if idx == 1 {
            let d = out.delivered.expect("last fragment completes the message");
            assert_eq!(d.msg_id, 77);
            assert_eq!(d.text.as_bytes(), msg.as_slice());
        } else {
            assert!(out.delivered.is_none());
        }
    }
}

#[test]
fn duplicate_fragment_is_dropped() {
    let mut state = RxState::new();
    let raw = frame(7, 3, 5, 0, 2, b"first");
    let out1 = handle_frame(&mut state, &raw, None, true, None);
    assert!(out1.delivered.is_none());
    assert!(out1.relay.is_some());
    // Same (msg_id, seq) again: no reassembly contribution, no relay.
    let out2 = handle_frame(&mut state, &raw, None, true, None);
    assert!(out2.delivered.is_none());
    assert!(out2.relay.is_none());
    // The other fragment still completes the message exactly once.
    let out3 = handle_frame(&mut state, &frame(7, 3, 5, 1, 2, b" second"), None, false, None);
    assert_eq!(out3.delivered.expect("completes").text, "first second");
}

#[test]
fn duplicate_does_not_deliver_twice() {
    let mut state = RxState::new();
    let raw = frame(7, 0, 6, 0, 1, b"once");
    let out1 = handle_frame(&mut state, &raw, None, true, None);
    assert_eq!(out1.delivered.expect("delivered").text, "once");
    let out2 = handle_frame(&mut state, &raw, None, true, None);
    assert!(out2.delivered.is_none());
    assert!(out2.relay.is_none());
}

#[test]
fn topic_filter_drops_before_dedup() {
    let mut state = RxState::new();
    let raw = frame(7, 3, 11, 0, 1, b"hello");
    // Filter set to 5: a frame for topic 7 is ingested but dropped.
    let out = handle_frame(&mut state, &raw, Some(5), true, None);
    assert!(out.delivered.is_none());
    assert!(out.relay.is_none());
    // The drop happened before dedup: the same frame is still fresh.
    let out2 = handle_frame(&mut state, &raw, Some(7), true, None);
    assert_eq!(out2.delivered.expect("matching topic delivers").text, "hello");
    assert!(out2.relay.is_some());
}

#[test]
fn ttl_zero_is_delivered_but_never_relayed() {
    let mut state = RxState::new();
    let raw = frame(7, 0, 12, 0, 1, b"last hop");
    let out = handle_frame(&mut state, &raw, None, true, None);
    assert_eq!(out.delivered.expect("complete message").text, "last hop");
    assert!(out.relay.is_none());
}

#[test]
fn relay_decrements_ttl_and_keeps_payload() {
    let mut state = RxState::new();
    let raw = frame(7, 3, 13, 0, 2, b"pass it on");
    let out = handle_frame(&mut state, &raw, None, true, None);
    let job = out.relay.expect("fresh fragment with ttl > 0 is relayed");
    assert_eq!(job.frame.ttl, 2);
    assert_eq!(job.frame.topic, 7);
    assert_eq!(job.frame.msg_id, 13);
    assert_eq!(job.frame.seq_no, 0);
    assert_eq!(job.frame.tot, 2);
    assert_eq!(job.frame.payload, b"pass it on".to_vec());
    assert!((100..500).contains(&job.backoff_ms));
    // The relayed frame packs back to a decodable frame.
    let repacked = pack_frame(&job.frame);
    let g = unpack_frame(&repacked).expect("relayed frame reparses");
    assert_eq!(g.ttl, 2);
}

#[test]
fn relay_disabled_never_relays() {
    let mut state = RxState::new();
    let raw = frame(7, 3, 14, 0, 2, b"quiet");
    let out = handle_frame(&mut state, &raw, None, false, None);
    assert!(out.relay.is_none());
}

#[test]
fn noise_changes_nothing() {
    let mut state = RxState::new();
    let out = handle_frame(&mut state, &[1, 2, 3], None, true, None);
    assert!(out.delivered.is_none());
    assert!(out.relay.is_none());
    let out = handle_frame(&mut state, &[], None, true, None);
    assert!(out.delivered.is_none());
    assert!(out.relay.is_none());
}

#[test]
fn inadmissible_fragment_header_is_dropped() {
    let mut state = RxState::new();
    // tot == 0 and seq >= tot are forged headers.
    let out = handle_frame(&mut state, &frame(7, 3, 15, 0, 0, b"x"), None, true, None);
    assert!(out.delivered.is_none() && out.relay.is_none());
    let out = handle_frame(&mut state, &frame(7, 3, 15, 2, 2, b"x"), None, true, None);
    assert!(out.delivered.is_none() && out.relay.is_none());
}

#[test]
fn encrypted_end_to_end_roundtrip() {
    let key = derive_key("shared secret");
    let msg = "the quick brown fox jumps over the lazy dog";
    let pkts = build_message_packets(3, 2, 4242, msg.as_bytes(), Some(&key));
    assert_eq!(pkts.len(), 3);
    let mut state = RxState::new();
    let mut delivered = None;
    for p in &pkts {
        let out = handle_frame(&mut state, p, Some(3), true, Some(&key));
        if let Some(d) = out.delivered {
            delivered = Some(d);
        }
    }
    let d = delivered.expect("keyed receiver reconstructs the message");
    assert_eq!(d.text, msg);
    assert_eq!(d.msg_id, 4242);
}

#[test]
fn wrong_key_drops_fragment_silently() {
    let key = derive_key("alpha");
    let wrong = derive_key("beta");
    let pkts = build_message_packets(3, 2, 99, b"hi", Some(&key));
    let mut state = RxState::new();
    let out = handle_frame(&mut state, &pkts[0], None, true, Some(&wrong));
    // Like a malformed fragment: no delivery and no relay.
    assert!(out.delivered.is_none());
    assert!(out.relay.is_none());
}

#[test]
fn keyless_receiver_relays_ciphertext_it_cannot_read() {
    // A node without the key still relays a multi-fragment ciphertext.
    let key = derive_key("alpha");
    let pkts = build_message_packets(3, 2, 100, &[7u8; 30], Some(&key));
    assert_eq!(pkts.len(), 2);
    let mut state = RxState::new();
    let out = handle_frame(&mut state, &pkts[0], None, true, None);
    let job = out.relay.expect("relay is independent of being able to read");
    assert_eq!(job.frame.ttl, 1);
    // The ciphertext travels unchanged.
    let sent = unpack_frame(&pkts[0]).unwrap();
    assert_eq!(job.frame.payload, sent.payload);
}

#[test]
fn ciphertext_carries_tag_overhead() {
    let key = derive_key("alpha");
    let pkts = build_message_packets(3, 2, 101, b"hi", Some(&key));
    let f = unpack_frame(&pkts[0]).unwrap();
    assert_eq!(f.payload.len(), 2 + 16);
}

#[test]
fn prepare_message_packets_parse_back() {
    let (msg_id, pkts) = prepare_message(8, 4, b"fresh identifier", None);
    assert_eq!(pkts.len(), 1);
    let f = unpack_frame(&pkts[0]).unwrap();
    assert_eq!(f.msg_id, msg_id);
    assert_eq!(f.topic, 8);
    assert_eq!(f.ttl, 4);
    assert_eq!(f.seq_no, 0);
    assert_eq!(f.tot, 1);
    assert_eq!(f.payload, b"fresh identifier".to_vec());
}

#[test]
fn invalid_utf8_is_replaced_not_fatal() {
    let mut state = RxState::new();
    let raw = frame(7, 0, 16, 0, 1, &[0xff, 0xfe]);
    let out = handle_frame(&mut state, &raw, None, false, None);
    let d = out.delivered.expect("best-effort decoding still delivers");
    assert_eq!(d.text, "\u{fffd}\u{fffd}");
}

#[test]
fn empty_message_roundtrips_through_engine() {
    let pkts = build_message_packets(1, 0, 55, b"", None);
    assert_eq!(pkts.len(), 1);
    let mut state = RxState::new();
    let out = handle_frame(&mut state, &pkts[0], None, false, None);
    assert_eq!(out.delivered.expect("empty message still completes").text, "");
}
