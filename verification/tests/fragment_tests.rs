use ble_chirp::fragment::chunk_message;

#[test]
fn two_bytes_make_one_fragment() {
    let chunks = chunk_message(b"hi");
    assert_eq!(chunks.len(), 1);
    assert_eq!(chunks[0].0, 0);
    assert_eq!(chunks[0].1, 1);
    assert_eq!(chunks[0].2, b"hi".to_vec());
}

#[test]
fn forty_five_bytes_make_three_fragments() {
    let msg: Vec<u8> = (0..45u8).collect();
    let chunks = chunk_message(&msg);
    assert_eq!(chunks.len(), 3);
    for (i, c) in chunks.iter().enumerate() {
        assert_eq!(c.0 as usize, i);
        assert_eq!(c.1, 3);
    }
    assert_eq!(chunks[0].2.len(), 20);
    assert_eq!(chunks[1].2.len(), 20);
    assert_eq!(chunks[2].2.len(), 5);
    let rejoined: Vec<u8> = chunks.iter().flat_map(|c| c.2.clone()).collect();
    assert_eq!(rejoined, msg);
}

#[test]
fn empty_message_makes_one_empty_fragment() {
    let chunks = chunk_message(b"");
    assert_eq!(chunks.len(), 1);
    assert_eq!(chunks[0].0, 0);
    assert_eq!(chunks[0].1, 1);
    assert!(chunks[0].2.is_empty());
}

#[test]
fn chunk_boundary_exact_and_one_over() {
    let exact: Vec<u8> = (0..20u8).collect();
    let chunks = chunk_message(&exact);
    assert_eq!(chunks.len(), 1);
    assert_eq!(chunks[0].2, exact);

    let over: Vec<u8> = (0..21u8).collect();
    let chunks = chunk_message(&over);
    assert_eq!(chunks.len(), 2);
    assert_eq!(chunks[0].2.len(), 20);
    assert_eq!(chunks[1].2.len(), 1);
    assert_eq!(chunks[1].2[0], 20);
}

#[test]
fn chunks_rejoin_to_message_at_boundaries() {
    for len in [0usize, 1, 19, 20, 21, 39, 40, 41, 100] {
        let msg: Vec<u8> = (0..len).map(|i| (i % 251) as u8).collect();
        let chunks = chunk_message(&msg);
        let expected = if len == 0 { 1 } else { len.div_ceil(20) };
        assert_eq!(chunks.len(), expected);
        let rejoined: Vec<u8> = chunks.iter().flat_map(|c| c.2.clone()).collect();
        assert_eq!(rejoined, msg);
    }
}
