use protocol_mve_transport::errors::{ReadStep, SerdeReadError};
use protocol_mve_transport::mux::PhysItem;
use protocol_mve_transport::transport::{ContextHandle, Transport};

fn read_string(t: &mut Transport, h: u32) -> ReadStep<String> {
    t.read_str(ContextHandle(h))
}

#[test]
fn per_handle_fifo_across_interleaving() {
    // One endpoint writes to three handles in an interleaved order.
    let mut sender = Transport::new(1);
    sender.write_str(ContextHandle(7), &"a1".to_string());
    sender.write_str(ContextHandle(9), &"b1".to_string());
    sender.write_str(ContextHandle(7), &"a2".to_string());
    sender.write_str(ContextHandle(11), &"c1".to_string());
    sender.write_str(ContextHandle(9), &"b2".to_string());
    sender.write_str(ContextHandle(7), &"a3".to_string());

    // The paired endpoint reads each handle and sees exactly its own
    // payloads, in write order, whatever the interleaving was.
    let mut receiver = Transport::new(2);
    receiver.feed_frames(sender.take_outgoing());
    receiver.close();

    match read_string(&mut receiver, 9) {
        ReadStep::Ready(s) => assert_eq!(s, "b1"),
        _ => panic!("expected a payload for handle 9"),
    }
    match read_string(&mut receiver, 7) {
        ReadStep::Ready(s) => assert_eq!(s, "a1"),
        _ => panic!("expected a payload for handle 7"),
    }
    match read_string(&mut receiver, 7) {
        ReadStep::Ready(s) => assert_eq!(s, "a2"),
        _ => panic!("expected a payload for handle 7"),
    }
    match read_string(&mut receiver, 9) {
        ReadStep::Ready(s) => assert_eq!(s, "b2"),
        _ => panic!("expected a payload for handle 9"),
    }
    match read_string(&mut receiver, 7) {
        ReadStep::Ready(s) => assert_eq!(s, "a3"),
        _ => panic!("expected a payload for handle 7"),
    }
    match read_string(&mut receiver, 11) {
        ReadStep::Ready(s) => assert_eq!(s, "c1"),
        _ => panic!("expected a payload for handle 11"),
    }
}

#[test]
fn early_termination_surfaces_as_terminated() {
    // Frames arrive for every handle except the awaited one, then the
    // source closes: the awaiting read fails with Terminated instead of
    // suspending forever.
    let mut sender = Transport::new(1);
    sender.write_str(ContextHandle(5), &"x".to_string());
    sender.write_str(ContextHandle(3), &"y".to_string());

    let mut receiver = Transport::new(2);
    receiver.feed_frames(sender.take_outgoing());
    receiver.close();

    match read_string(&mut receiver, 9) {
        ReadStep::Fail(e) => assert_eq!(e, SerdeReadError::Terminated),
        _ => panic!("expected Terminated for the missing handle"),
    }
    // The frames pulled past on the way are still there for their handles.
    match read_string(&mut receiver, 5) {
        ReadStep::Ready(s) => assert_eq!(s, "x"),
        _ => panic!("expected the buffered payload for handle 5"),
    }
}

#[test]
fn open_source_with_nothing_ready_suspends() {
    let mut receiver = Transport::new(2);
    match read_string(&mut receiver, 4) {
        ReadStep::Pending => {}
        _ => panic!("an open, empty source suspends the reader"),
    }
}

#[test]
fn short_frame_surfaces_as_insufficient() {
    for len in 0..4usize {
        let mut receiver = Transport::new(2);
        receiver.inner.push_incoming(PhysItem::Frame(vec![7u8; len]));
        match read_string(&mut receiver, 12) {
            ReadStep::Fail(e) => assert_eq!(e, SerdeReadError::Insufficient),
            _ => panic!("a {}-byte item must fail the next read", len),
        }
    }
}

#[test]
fn source_fault_surfaces_as_stream_error() {
    let mut receiver = Transport::new(2);
    receiver.inner.push_incoming(PhysItem::Fault);
    match read_string(&mut receiver, 0) {
        ReadStep::Fail(e) => assert_eq!(e, SerdeReadError::Stream),
        _ => panic!("a source fault must surface"),
    }
}

#[test]
fn undecodable_payload_surfaces_as_serde_error() {
    // A frame whose payload is not a serialized string: the length prefix
    // claims far more bytes than follow.
    let mut receiver = Transport::new(2);
    let mut frame = vec![0u8, 0, 0, 6];
    frame.extend_from_slice(&[0xff; 8]);
    receiver.inner.push_incoming(PhysItem::Frame(frame));
    match read_string(&mut receiver, 6) {
        ReadStep::Fail(e) => assert_eq!(e, SerdeReadError::Serde),
        _ => panic!("an undecodable payload must surface as a decode fault"),
    }
}

#[test]
fn handle_allocation_keeps_role_parity() {
    let mut sender = Transport::new(1);
    let mut receiver = Transport::new(2);
    let mut sender_ids = Vec::new();
    let mut receiver_ids = Vec::new();
    for _ in 0..100 {
        sender_ids.push(sender.fork_owned().1);
        receiver_ids.push(receiver.fork_owned().1);
    }
    assert_eq!(sender_ids[0], 1);
    assert_eq!(sender_ids[99], 199);
    assert_eq!(receiver_ids[0], 2);
    assert_eq!(receiver_ids[99], 200);
    for s in &sender_ids {
        assert_ne!(*s, 0);
        assert!(s % 2 == 1);
        for r in &receiver_ids {
            assert_ne!(*r, 0);
            assert_ne!(s, r);
        }
    }
}

#[test]
fn fork_flavors_share_one_allocation_mechanism() {
    let mut t = Transport::new(1);
    let (h1, id1) = t.fork_owned();
    let (h2, id2) = t.fork_shared();
    let (h3, id3) = t.fork_ref();
    assert_eq!((id1, id2, id3), (1, 3, 5));
    assert_eq!(h1.0, 1);
    assert_eq!(h2.0, 3);
    assert_eq!(h3.0, 5);
    assert_eq!(t.join_owned(42).0, 42);
    assert_eq!(t.join_shared(43).0, 43);
    assert_eq!(t.join_ref(44).0, 44);
}

#[test]
fn wire_frame_layout_is_big_endian_handle_then_payload() {
    // Handle 5, value 11: four big-endian handle bytes, then bincode's four
    // little-endian value bytes.
    let mut t = Transport::new(1);
    t.write_u32(ContextHandle(5), 11);
    let frames = t.take_outgoing();
    assert_eq!(frames.len(), 1);
    assert_eq!(frames[0], vec![0u8, 0, 0, 5, 11, 0, 0, 0]);

    let mut big = Transport::new(1);
    big.write_u32(ContextHandle(0x01020304), 0x0a0b0c0d);
    let frames = big.take_outgoing();
    assert_eq!(frames[0], vec![1u8, 2, 3, 4, 0x0d, 0x0c, 0x0b, 0x0a]);
}

#[test]
fn u32_payload_reads_little_endian() {
    let mut receiver = Transport::new(2);
    let mut frame = vec![0u8, 0, 0, 9];
    frame.extend_from_slice(&[1, 0, 0, 0]);
    receiver.inner.push_incoming(PhysItem::Frame(frame));
    match receiver.read_u32(ContextHandle(9)) {
        ReadStep::Ready(v) => assert_eq!(v, 1),
        _ => panic!("expected the value"),
    }
}

#[test]
fn string_payload_round_trips_through_the_codec() {
    let mut sender = Transport::new(1);
    sender.write_str(ContextHandle(0), &"hello there".to_string());
    let mut receiver = Transport::new(2);
    receiver.feed_frames(sender.take_outgoing());
    match read_string(&mut receiver, 0) {
        ReadStep::Ready(s) => assert_eq!(s, "hello there"),
        _ => panic!("expected the string back"),
    }
}

#[test]
fn sink_queue_is_always_ready() {
    let mut t = Transport::new(1);
    assert!(t.poll_ready().is_ok());
    assert!(t.poll_flush().is_ok());
}
