use protocol_mve_transport::engine::{Coalesce, ProtocolMveTransport, Unravel};
use protocol_mve_transport::errors::Step;
use protocol_mve_transport::errors::{ProtocolError, ReadStep, SerdeReadError};
use protocol_mve_transport::transport::{ContextHandle, Contextualized, Transport, Work};
use protocol_mve_transport::values::{
    record_round_trip, stream_round_trip, RecordValue, StringStream,
};

#[test]
fn record_scenario_two_endpoints() {
    // Endpoint A serializes a two-field record; endpoint B reconstructs it
    // from the paired channel.
    let v = RecordValue { tag: "Data".to_string(), item: 11, other: "hello there".to_string() };
    let mut a = Unravel::<RecordValue>::new(v);
    match a.poll() {
        Step::Ready(()) => {}
        _ => panic!("the serializing endpoint completes at once"),
    }

    let mut b = Coalesce::<RecordValue>::new();
    b.transport.feed_frames(a.transport.take_outgoing());
    b.transport.close();
    let w = match b.poll() {
        Step::Ready(w) => w,
        _ => panic!("the reconstructing endpoint completes"),
    };
    assert_eq!(w.tag, "Data");
    assert_eq!(w.item, 11);
    assert_eq!(w.other, "hello there");

    // No residual frames are buffered or reachable on either side.
    assert!(a.transport.take_outgoing().is_empty());
    for h in [0u32, 1, 2, 3] {
        match b.transport.read(ContextHandle(h)) {
            ReadStep::Fail(SerdeReadError::Terminated) => {}
            _ => panic!("no residual frame may remain for handle {}", h),
        }
    }
}

#[test]
fn record_round_trip_law_runs() {
    let v = RecordValue { tag: "t".to_string(), item: 0xdead_beef, other: String::new() };
    let (got, _rest) = record_round_trip(v);
    let w = got.expect("round trip yields the record");
    assert_eq!(w.tag, "t");
    assert_eq!(w.item, 0xdead_beef);
    assert_eq!(w.other, "");
}

#[test]
fn stream_scenario_root_completes_then_items_drain() {
    // Endpoint A serializes a value that forks one nested stream of ten
    // items onto a fresh handle while the root completes immediately.
    let mut items = Vec::new();
    for i in 0..10u32 {
        items.push(format!("{}", i));
    }
    let value = StringStream { handle: ContextHandle(0), items };
    let mut a = Unravel::<StringStream>::new(value);
    match a.poll() {
        Step::Ready(()) => {}
        _ => panic!("the root decomposition completes without waiting"),
    }
    // The nested items are written by the scheduled background work.
    a.transport.run_pending();

    let mut b = Coalesce::<StringStream>::new();
    b.transport.feed_frames(a.transport.take_outgoing());
    b.transport.close();

    // The root reconstruction completes first, yielding the joined handle.
    let stream = match b.poll() {
        Step::Ready(s) => s,
        _ => panic!("the root reconstruction completes"),
    };
    assert_eq!(stream.handle.0, 1);
    assert!(stream.items.is_empty());

    // Only then are the ten items drained, in order, from the forked handle.
    for i in 0..10u32 {
        match b.transport.read_str(stream.handle) {
            ReadStep::Ready(s) => assert_eq!(s, format!("{}", i)),
            _ => panic!("expected item {}", i),
        }
    }
    match b.transport.read_str(stream.handle) {
        ReadStep::Fail(SerdeReadError::Terminated) => {}
        _ => panic!("exactly ten items flow over the forked handle"),
    }
}

#[test]
fn stream_round_trip_law_runs() {
    let mut items = Vec::new();
    for i in 0..10u32 {
        items.push(format!("{}", i));
    }
    let got = stream_round_trip(items).expect("the stream round trip completes");
    assert_eq!(got.len(), 10);
    for i in 0..10usize {
        assert_eq!(got[i], format!("{}", i));
    }
}

#[test]
fn unravel_completion_is_terminal() {
    let v = RecordValue { tag: "a".to_string(), item: 1, other: "b".to_string() };
    let mut a = Unravel::<RecordValue>::new(v);
    assert!(matches!(a.poll(), Step::Ready(())));
    // Once both phases are done the engine stays done; it never returns to
    // the target phase and writes nothing more.
    a.transport.take_outgoing();
    assert!(matches!(a.poll(), Step::Ready(())));
    assert!(a.transport.take_outgoing().is_empty());
}

#[test]
fn coalesce_on_closed_empty_channel_fails_with_terminated() {
    let mut b = Coalesce::<RecordValue>::new();
    b.transport.close();
    match b.poll() {
        Step::Fail(ProtocolError::Read(SerdeReadError::Terminated)) => {}
        _ => panic!("a closed, empty channel terminates the reconstruction"),
    }
}

#[test]
fn coalesce_on_open_empty_channel_suspends() {
    let mut b = Coalesce::<RecordValue>::new();
    match b.poll() {
        Step::Pending => {}
        _ => panic!("an open, empty channel suspends the reconstruction"),
    }
    // Feeding the frames afterwards lets the same engine finish.
    let v = RecordValue { tag: "x".to_string(), item: 2, other: "y".to_string() };
    let mut a = Unravel::<RecordValue>::new(v);
    assert!(matches!(a.poll(), Step::Ready(())));
    b.transport.feed_frames(a.transport.take_outgoing());
    match b.poll() {
        Step::Ready(w) => assert_eq!(w.item, 2),
        _ => panic!("the resumed reconstruction completes"),
    }
}

#[test]
fn notification_wrap_and_unwrap_are_inverse() {
    let mut t = Transport::new(1);
    let v = RecordValue { tag: "n".to_string(), item: 7, other: "m".to_string() };
    let n = t.wrap(v);
    let v = t.unwrap(n);
    assert_eq!(v.item, 7);
}

#[test]
fn finalization_runs_in_launch_order() {
    let mut t = Transport::new(1);
    let first = Contextualized {
        handle: ContextHandle(3),
        fut: Work::StreamItems { items: vec!["one".to_string()] },
    };
    let second = Contextualized {
        handle: ContextHandle(5),
        fut: Work::StreamItems { items: vec!["two".to_string()] },
    };
    assert!(matches!(t.finalize(first), Step::Ready(())));
    assert!(t.finalize_immediate(second).is_ok());
    t.run_pending();

    let mut r = Transport::new(2);
    r.feed_frames(t.take_outgoing());
    match r.read_str(ContextHandle(3)) {
        ReadStep::Ready(s) => assert_eq!(s, "one"),
        _ => panic!("the first launched work writes first"),
    }
    match r.read_str(ContextHandle(5)) {
        ReadStep::Ready(s) => assert_eq!(s, "two"),
        _ => panic!("the second launched work writes second"),
    }
}

#[test]
fn construction_surface_builds_both_endpoints() {
    let v = RecordValue { tag: "c".to_string(), item: 9, other: "d".to_string() };
    let mut a = ProtocolMveTransport::unravel::<RecordValue>(v);
    assert!(matches!(a.poll(), Step::Ready(())));
    let mut b = ProtocolMveTransport::coalesce::<RecordValue>();
    b.transport.feed_frames(a.transport.take_outgoing());
    match b.poll() {
        Step::Ready(w) => assert_eq!(w.item, 9),
        _ => panic!("the constructed endpoints exchange the record"),
    }
}

#[test]
fn value_level_fork_and_join_start_the_state_machines() {
    let mut t = Transport::new(1);
    let v = RecordValue { tag: "f".to_string(), item: 4, other: "g".to_string() };
    let target = t.fork::<RecordValue>(v);
    assert_eq!(target.value.item, 4);
    let _future = t.join::<RecordValue>();
}
