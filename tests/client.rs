use h3x::client::{
    ack_event, acks_for, auth_request, classify_auth_reply, fetch_events, AckRetry, AuthReply,
    Backoff, ClientAction, ClientBuilder, ClientEvent, ClientParams, ClientSession, ClientState,
    PingRetry,
};
use h3x::frame::{EventPayload, EventsBatchPayload, Frame, FrameType, Payload};

fn event(id: &str) -> EventPayload {
    EventPayload {
        id: id.to_string(),
        namespace: "ns1".to_string(),
        event_type: "t".to_string(),
        message: "m".to_string(),
        data: vec![],
        timestamp: 0,
        metadata: vec![],
    }
}

#[test]
fn builder_prefixes_the_client_id() {
    let p = ClientBuilder::new().namespace("ns").token("tok").client_id("alice").build().unwrap();
    assert_eq!(p.client_id(), "client_id:alice");
    assert_eq!(p.namespaces(), vec!["ns".to_string()]);
    assert_eq!(p.token(), "tok");
}

#[test]
fn builder_needs_namespace_and_token() {
    assert_eq!(
        ClientBuilder::new().token("t").build().unwrap_err(),
        "At least one namespace is required"
    );
    assert_eq!(ClientBuilder::new().namespace("ns").build().unwrap_err(), "Token must be provided");
    let p = ClientBuilder::new()
        .namespaces(vec!["a".to_string(), "b".to_string()])
        .token("t")
        .build()
        .unwrap();
    assert_eq!(p.client_id, "client_id:client_id:default");
    assert_eq!(p.namespaces, vec!["a".to_string(), "b".to_string()]);
}

#[test]
fn params_hand_out_copies() {
    let p = ClientParams::new("id".to_string(), vec!["n".to_string()], "t".to_string());
    assert_eq!((p.client_id(), p.namespaces(), p.token()), ("id".to_string(), vec!["n".to_string()], "t".to_string()));
}

#[test]
fn request_frames_have_their_kinds() {
    let a = auth_request("client_id:x".to_string(), "t".to_string(), vec!["n".to_string()]);
    assert_eq!((a.version, a.stream_id, a.kind), (1, 0, FrameType::Auth.as_i32()));
    let f = fetch_events(1, vec!["n".to_string()], usize::MAX);
    match f.payload {
        Some(Payload::FetchEvents(p)) => assert_eq!(p.limit, u32::MAX),
        other => panic!("{:?}", other),
    }
    let k = ack_event(9, "n".to_string(), "e".to_string());
    assert_eq!((k.stream_id, k.kind), (9, FrameType::AckEvent.as_i32()));
}

#[test]
fn auth_replies_are_classified() {
    let mk = |t: FrameType| Frame { version: 1, stream_id: 0, kind: t.as_i32(), payload: None };
    assert_eq!(classify_auth_reply(Some(&mk(FrameType::AuthAck))), AuthReply::Accepted);
    assert_eq!(classify_auth_reply(Some(&mk(FrameType::AuthError))), AuthReply::Rejected);
    assert_eq!(classify_auth_reply(Some(&mk(FrameType::Pong))), AuthReply::Unexpected(2));
    assert_eq!(classify_auth_reply(None), AuthReply::NoReply);
}

#[test]
fn received_events_are_acknowledged() {
    let single = Frame { version: 1, stream_id: 4, kind: FrameType::Event.as_i32(), payload: Some(Payload::Event(event("a"))) };
    let acks = acks_for(&single);
    assert_eq!(acks, vec![ack_event(4, "ns1".to_string(), "a".to_string())]);
    let batch = Frame {
        version: 1,
        stream_id: 5,
        kind: FrameType::EventsBatch.as_i32(),
        payload: Some(Payload::EventsBatch(EventsBatchPayload { events: vec![event("a"), event("b")] })),
    };
    assert_eq!(
        acks_for(&batch),
        vec![ack_event(5, "ns1".to_string(), "a".to_string()), ack_event(5, "ns1".to_string(), "b".to_string())]
    );
    let pong = Frame { version: 1, stream_id: 5, kind: FrameType::Pong.as_i32(), payload: None };
    assert!(acks_for(&pong).is_empty());
}

#[test]
fn backoff_doubles_up_to_the_cap() {
    let mut b = Backoff::new();
    let delays: Vec<u64> = (0..7).map(|_| b.next_delay()).collect();
    assert_eq!(delays, vec![1, 2, 4, 8, 16, 30, 30]);
    b.reset();
    assert_eq!(b.next_delay(), 1);
}

#[test]
fn ack_retry_gives_up_after_five_tries() {
    let mut r = AckRetry::new();
    let mut waits = Vec::new();
    while r.may_try() {
        waits.push(r.on_failure());
    }
    assert_eq!(waits, vec![1, 2, 4, 8, 16]);
}

#[test]
fn client_session_walks_its_states() {
    let (mut s, first) = ClientSession::new();
    assert_eq!(first, ClientAction::Connect);
    assert_eq!(s.step(ClientEvent::ConnectFailed), ClientAction::Sleep(1));
    assert_eq!(s.step(ClientEvent::Waited), ClientAction::Connect);
    assert_eq!(s.step(ClientEvent::ConnectFailed), ClientAction::Sleep(2));
    assert_eq!(s.step(ClientEvent::Waited), ClientAction::Connect);
    assert_eq!(s.step(ClientEvent::Connected), ClientAction::Authenticate);
    assert_eq!(s.state(), ClientState::Auth);
    assert_eq!(s.step(ClientEvent::AuthFailed), ClientAction::Sleep(4));
    assert_eq!(s.step(ClientEvent::Waited), ClientAction::Connect);
    assert_eq!(s.step(ClientEvent::Connected), ClientAction::Authenticate);
    assert_eq!(s.step(ClientEvent::AuthAccepted), ClientAction::Receive);
    assert_eq!(s.state(), ClientState::Steady);
    assert_eq!(s.step(ClientEvent::StreamEnded), ClientAction::Sleep(3));
    assert_eq!(s.step(ClientEvent::Waited), ClientAction::Connect);
    assert_eq!(s.step(ClientEvent::ConnectFailed), ClientAction::Sleep(1));
    assert_eq!(s.step(ClientEvent::AuthAccepted), ClientAction::Ignore);
    assert_eq!(s.step(ClientEvent::Cancelled), ClientAction::Stop);
    assert_eq!(s.step(ClientEvent::Connected), ClientAction::Stop);
    assert_eq!(s.state(), ClientState::Stopped);
}

#[test]
fn ping_retry_gives_up_after_six_failures() {
    let mut p = PingRetry::new();
    let mut seen = Vec::new();
    for _ in 0..6 {
        seen.push(p.open_failed());
    }
    assert_eq!(seen, vec![(1, false), (2, false), (4, false), (8, false), (16, false), (30, true)]);
    p.opened();
    assert_eq!(p.open_failed(), (1, false));
}
