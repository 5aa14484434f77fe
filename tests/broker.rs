use h3x::client::{ack_event, auth_request, fetch_events, ping_request};
use h3x::frame::{EventPayload, EventsBatchPayload, Frame, FrameType, Payload, PingPayload};
use h3x::queue::EventQueue;
use h3x::registry::{validate_auth, ClientMetadata, Registry};
use h3x::server::{
    handle_ack_event, handle_drain_frame, handle_event, handle_fetch_events, handle_frame,
    handle_ping, AckOutcome, Dispatch, EventOutcome, FetchOutcome, Handled, Session, StreamNext,
};
use h3x::utils::{millis_to_u64, now_ms};

fn temp_path() -> String {
    format!("/tmp/h3x-test-{}", uuid::Uuid::new_v4())
}

fn registry() -> Registry {
    let mut r = Registry::new();
    r.register(ClientMetadata {
        client_id: "client_id:alice".to_string(),
        token: "t".to_string(),
        namespaces: vec!["ns1".to_string()],
    });
    r
}

fn event(id: &str, ns: &str) -> EventPayload {
    EventPayload {
        id: id.to_string(),
        namespace: ns.to_string(),
        event_type: "Error".to_string(),
        message: "m".to_string(),
        data: vec![],
        timestamp: 1700000000,
        metadata: vec![],
    }
}

fn event_frame(id: &str, ns: &str) -> Frame {
    Frame { version: 1, stream_id: 1, kind: FrameType::Event.as_i32(), payload: Some(Payload::Event(event(id, ns))) }
}

fn login(session: &mut Session, reg: &Registry, q: &mut EventQueue) {
    let auth = auth_request("client_id:alice".to_string(), "t".to_string(), vec!["ns1".to_string()]);
    let d = handle_frame(session, reg, q, auth, now_ms());
    assert_eq!(d.next, StreamNext::Continue);
    assert_eq!(d.replies.len(), 1);
    assert_eq!(d.replies[0].kind, FrameType::AuthAck.as_i32());
    assert!(session.is_authenticated());
}

fn fetched_ids(d: &Dispatch) -> Vec<String> {
    assert_eq!(d.next, StreamNext::Drain);
    assert_eq!(d.replies.len(), 1);
    assert_eq!(d.replies[0].kind, FrameType::EventsBatch.as_i32());
    match &d.replies[0].payload {
        Some(Payload::EventsBatch(b)) => b.events.iter().map(|e| e.id.clone()).collect(),
        other => panic!("not a batch: {:?}", other),
    }
}

const ID1: &str = "00000000-0000-0000-0000-000000000001";

#[test]
fn happy_publish_and_fetch() {
    let reg = registry();
    let mut q = EventQueue::new(&temp_path()).unwrap();
    let mut s1 = Session::new();
    login(&mut s1, &reg, &mut q);
    let d = handle_frame(&mut s1, &reg, &mut q, event_frame(ID1, "ns1"), now_ms());
    assert!(matches!(d.handled, Handled::Event(EventOutcome::Stored(_))));
    assert!(d.replies.is_empty());
    drop(s1);

    let mut s2 = Session::new();
    login(&mut s2, &reg, &mut q);
    let fetch = fetch_events(2, vec!["ns1".to_string()], 10);
    let d = handle_frame(&mut s2, &reg, &mut q, fetch.clone(), now_ms());
    assert_eq!(fetched_ids(&d), vec![ID1.to_string()]);
    match &d.replies[0].payload {
        Some(Payload::EventsBatch(b)) => assert_eq!(b.events, vec![event(ID1, "ns1")]),
        _ => unreachable!(),
    }
    let ack = ack_event(2, "ns1".to_string(), ID1.to_string());
    assert!(matches!(handle_drain_frame(&s2, &mut q, &ack), Some(AckOutcome::Removed(true))));
    let d = handle_frame(&mut s2, &reg, &mut q, fetch, now_ms());
    assert!(fetched_ids(&d).is_empty());
}

#[test]
fn bad_token_is_refused() {
    let reg = registry();
    let mut q = EventQueue::new(&temp_path()).unwrap();
    let mut s = Session::new();
    let auth = auth_request("alice".to_string(), "wrong".to_string(), vec!["ns1".to_string()]);
    let d = handle_frame(&mut s, &reg, &mut q, auth, now_ms());
    assert_eq!(d.replies.len(), 1);
    assert_eq!(d.replies[0].kind, FrameType::AuthError.as_i32());
    assert_eq!(d.next, StreamNext::Close);
    assert!(!s.is_authenticated());
    let wrong = auth_request("client_id:alice".to_string(), "wrong".to_string(), vec!["ns1".to_string()]);
    let d = handle_frame(&mut s, &reg, &mut q, wrong, now_ms());
    assert_eq!(d.replies[0].kind, FrameType::AuthError.as_i32());
    assert_eq!(d.next, StreamNext::Close);
}

#[test]
fn unknown_client_is_refused() {
    let reg = registry();
    let mut q = EventQueue::new(&temp_path()).unwrap();
    let mut s = Session::new();
    let auth = auth_request("bob".to_string(), "t".to_string(), vec!["ns1".to_string()]);
    let d = handle_frame(&mut s, &reg, &mut q, auth, now_ms());
    assert_eq!(d.replies[0].kind, FrameType::AuthError.as_i32());
    assert_eq!(d.replies[0].stream_id, 0);
    assert_eq!(d.next, StreamNext::Close);
}

#[test]
fn ping_before_auth_is_answered() {
    let reg = registry();
    let mut q = EventQueue::new(&temp_path()).unwrap();
    let mut s = Session::new();
    let d = handle_frame(&mut s, &reg, &mut q, ping_request(5, 42, 7), now_ms());
    assert_eq!(d.next, StreamNext::Continue);
    assert_eq!(d.replies.len(), 1);
    let pong = &d.replies[0];
    assert_eq!(pong.kind, FrameType::Pong.as_i32());
    assert_eq!(pong.stream_id, 5);
    match &pong.payload {
        Some(Payload::Pong(p)) => {
            assert_eq!(p.echo_timestamp_ms, 42);
            assert_eq!(p.seq, 7);
            assert!(p.server_time_ms >= 42);
        }
        other => panic!("not a pong: {:?}", other),
    }
}

#[test]
fn ping_without_payload_gets_empty_pong() {
    let f = Frame { version: 1, stream_id: 3, kind: FrameType::Ping.as_i32(), payload: None };
    let pong = handle_ping(&f, 1000);
    assert_eq!(pong, Frame { version: 1, stream_id: 3, kind: FrameType::Pong.as_i32(), payload: None });
    let g = Frame {
        version: 1,
        stream_id: 3,
        kind: FrameType::Ping.as_i32(),
        payload: Some(Payload::Ping(PingPayload { timestamp_ms: 9, seq: 1 })),
    };
    match handle_ping(&g, 1000).payload {
        Some(Payload::Pong(p)) => assert_eq!((p.echo_timestamp_ms, p.server_time_ms, p.seq), (9, 1000, 1)),
        other => panic!("not a pong: {:?}", other),
    }
}

#[test]
fn crash_recovery_keeps_insertion_order() {
    let path = temp_path();
    let reg = registry();
    {
        let mut q = EventQueue::new(&path).unwrap();
        let mut s = Session::new();
        login(&mut s, &reg, &mut q);
        for id in ["c", "a", "b"] {
            let d = handle_frame(&mut s, &reg, &mut q, event_frame(id, "ns1"), now_ms());
            assert!(matches!(d.handled, Handled::Event(EventOutcome::Stored(_))));
        }
    }
    let mut q = EventQueue::new(&path).unwrap();
    let mut s = Session::new();
    login(&mut s, &reg, &mut q);
    let d = handle_frame(&mut s, &reg, &mut q, fetch_events(1, vec!["ns1".to_string()], 0), now_ms());
    assert_eq!(fetched_ids(&d), vec!["c".to_string(), "a".to_string(), "b".to_string()]);
}

#[test]
fn second_ack_is_a_noop() {
    let reg = registry();
    let mut q = EventQueue::new(&temp_path()).unwrap();
    let mut s = Session::new();
    login(&mut s, &reg, &mut q);
    handle_frame(&mut s, &reg, &mut q, event_frame("x", "ns1"), now_ms());
    handle_frame(&mut s, &reg, &mut q, event_frame("y", "ns1"), now_ms());
    let ack = ack_event(1, "ns1".to_string(), "x".to_string());
    assert!(matches!(handle_ack_event(&s, &mut q, &ack), AckOutcome::Removed(true)));
    let d = handle_frame(&mut s, &reg, &mut q, ack, now_ms());
    assert!(matches!(d.handled, Handled::Ack(AckOutcome::Removed(false))));
    assert_eq!(d.next, StreamNext::Continue);
    let recs = q.fetch("ns1", None).unwrap();
    assert_eq!(recs.len(), 1);
}

#[test]
fn frames_before_auth_are_refused() {
    let reg = registry();
    let mut q = EventQueue::new(&temp_path()).unwrap();
    let mut s = Session::new();
    let d = handle_frame(&mut s, &reg, &mut q, event_frame("x", "ns1"), now_ms());
    assert_eq!(d.next, StreamNext::Close);
    assert_eq!(d.replies[0].kind, FrameType::AuthError.as_i32());
    assert!(q.fetch("ns1", None).unwrap().is_empty());
    let d = handle_frame(&mut s, &reg, &mut q, fetch_events(1, vec!["ns1".to_string()], 0), now_ms());
    assert_eq!(d.next, StreamNext::Close);
}

#[test]
fn other_versions_close_the_stream() {
    let reg = registry();
    let mut q = EventQueue::new(&temp_path()).unwrap();
    let mut s = Session::new();
    let mut f = ping_request(1, 1, 1);
    f.version = 2;
    let d = handle_frame(&mut s, &reg, &mut q, f, now_ms());
    assert_eq!(d.next, StreamNext::Close);
    assert!(d.replies.is_empty());
}

#[test]
fn unknown_kinds_are_skipped() {
    let reg = registry();
    let mut q = EventQueue::new(&temp_path()).unwrap();
    let mut s = Session::new();
    let f = Frame { version: 1, stream_id: 1, kind: 77, payload: None };
    let d = handle_frame(&mut s, &reg, &mut q, f, now_ms());
    assert_eq!(d.next, StreamNext::Continue);
    assert!(d.replies.is_empty());
}

#[test]
fn namespace_not_granted_is_rejected() {
    let reg = registry();
    let mut q = EventQueue::new(&temp_path()).unwrap();
    let mut s = Session::new();
    let auth = auth_request("client_id:alice".to_string(), "t".to_string(), vec!["ns1".to_string(), "ns2".to_string()]);
    handle_frame(&mut s, &reg, &mut q, auth, now_ms());
    assert!(s.may_use(&"ns1".to_string()));
    assert!(!s.may_use(&"ns2".to_string()));
    assert!(matches!(handle_event(&s, &mut q, event_frame("x", "ns2")), EventOutcome::Rejected));
    let ack = ack_event(1, "ns2".to_string(), "x".to_string());
    assert!(matches!(handle_ack_event(&s, &mut q, &ack), AckOutcome::Rejected));
    assert!(q.fetch("ns2", None).unwrap().is_empty());
}

#[test]
fn fetch_respects_limit_and_namespaces() {
    let reg = registry();
    let mut q = EventQueue::new(&temp_path()).unwrap();
    let mut s = Session::new();
    login(&mut s, &reg, &mut q);
    for id in ["1", "2", "3", "4"] {
        handle_event(&s, &mut q, event_frame(id, "ns1"));
    }
    let limited = fetch_events(1, vec!["ns1".to_string(), "ns9".to_string()], 2);
    match handle_fetch_events(&s, &q, &limited) {
        FetchOutcome::Batch(b) => match b.payload {
            Some(Payload::EventsBatch(batch)) => {
                let ids: Vec<String> = batch.events.iter().map(|e| e.id.clone()).collect();
                assert_eq!(ids, vec!["1".to_string(), "2".to_string()]);
            }
            other => panic!("not a batch: {:?}", other),
        },
        other => panic!("no batch: {:?}", other),
    }
    let recs = q.fetch("ns1", Some(3)).unwrap();
    assert_eq!(recs.len(), 3);
    assert!(recs[0].0 < recs[1].0 && recs[1].0 < recs[2].0);
}

#[test]
fn batch_publish_is_acknowledged_per_event() {
    let reg = registry();
    let mut q = EventQueue::new(&temp_path()).unwrap();
    let mut s = Session::new();
    login(&mut s, &reg, &mut q);
    let batch = Frame {
        version: 1,
        stream_id: 4,
        kind: FrameType::EventsBatch.as_i32(),
        payload: Some(Payload::EventsBatch(EventsBatchPayload {
            events: vec![event("p", "ns1"), event("q", "other"), event("r", "ns1")],
        })),
    };
    let d = handle_frame(&mut s, &reg, &mut q, batch, now_ms());
    assert_eq!(d.next, StreamNext::Continue);
    let acked: Vec<String> = d
        .replies
        .iter()
        .map(|f| match &f.payload {
            Some(Payload::AckEvent(a)) => a.event_id.clone(),
            other => panic!("not an ack: {:?}", other),
        })
        .collect();
    assert_eq!(acked, vec!["p".to_string(), "r".to_string()]);
    assert_eq!(q.fetch("ns1", None).unwrap().len(), 2);
}

#[test]
fn enqueue_needs_an_event() {
    let mut q = EventQueue::new(&temp_path()).unwrap();
    let f = ping_request(1, 1, 1);
    assert!(matches!(q.enqueue(&f), Err(h3x::queue::QueueError::NotAnEvent)));
    let n1 = q.enqueue(&event_frame("a", "ns1")).unwrap();
    let n2 = q.enqueue(&event_frame("b", "ns1")).unwrap();
    assert!(n1 < n2);
    assert_eq!(q.remove("ns1", "zzz").unwrap(), false);
    assert_eq!(q.remove("ns1", "a").unwrap(), true);
    let recs = q.fetch("ns1", None).unwrap();
    assert_eq!(recs.len(), 1);
    assert_eq!(recs[0].0, n2);
    let n3 = q.enqueue(&event_frame("c", "ns1")).unwrap();
    assert!(n3 > n2);
    assert_eq!(recs[0].1, event_frame("b", "ns1"));
}

#[test]
fn registry_checks_tokens() {
    let mut reg = registry();
    let auth = h3x::frame::AuthPayload {
        client_id: "client_id:alice".to_string(),
        token: "t".to_string(),
        namespaces: vec![],
    };
    assert!(validate_auth(&auth, &reg));
    reg.register(ClientMetadata {
        client_id: "client_id:alice".to_string(),
        token: "new".to_string(),
        namespaces: vec![],
    });
    assert!(!validate_auth(&auth, &reg));
    assert!(reg.get(&"client_id:bob".to_string()).is_none());
}

#[test]
fn clock_reads_past_2020() {
    assert!(now_ms() > 1_577_836_800_000);
}

#[test]
fn clock_readings_convert_to_64_bits() {
    assert_eq!(millis_to_u64(None), 0);
    assert_eq!(millis_to_u64(Some(1_700_000_000_123)), 1_700_000_000_123);
    assert_eq!(millis_to_u64(Some(u64::MAX as u128 + 5)), u64::MAX);
}

#[test]
fn fetch_keeps_request_order_across_namespaces() {
    let mut reg = Registry::new();
    reg.register(ClientMetadata {
        client_id: "client_id:carol".to_string(),
        token: "t".to_string(),
        namespaces: vec!["a".to_string(), "b".to_string()],
    });
    let mut q = EventQueue::new(&temp_path()).unwrap();
    let mut s = Session::new();
    let auth = auth_request("client_id:carol".to_string(), "t".to_string(), vec!["a".to_string(), "b".to_string()]);
    handle_frame(&mut s, &reg, &mut q, auth, now_ms());
    for (id, ns) in [("a1", "a"), ("b1", "b"), ("a2", "a"), ("b2", "b"), ("a3", "a")] {
        assert!(matches!(handle_event(&s, &mut q, event_frame(id, ns)), EventOutcome::Stored(_)));
    }
    let d = handle_frame(&mut s, &reg, &mut q, fetch_events(1, vec!["b".to_string(), "a".to_string()], 2), now_ms());
    assert_eq!(fetched_ids(&d), vec!["b1", "b2", "a1", "a2"]);
}

#[test]
fn fetch_of_unpermitted_namespaces_is_an_empty_batch() {
    let reg = registry();
    let mut q = EventQueue::new(&temp_path()).unwrap();
    let mut s = Session::new();
    login(&mut s, &reg, &mut q);
    handle_event(&s, &mut q, event_frame("x", "ns1"));
    let d = handle_frame(&mut s, &reg, &mut q, fetch_events(3, vec!["other".to_string()], 0), now_ms());
    assert!(fetched_ids(&d).is_empty());
}
