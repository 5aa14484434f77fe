use h3x::frame::{
    AckEventPayload, AuthPayload, EventPayload, EventsBatchPayload, FetchEventsPayload, Frame,
    FrameType, Payload, PingPayload, PongPayload,
};
use h3x::stream::{check_frame_len, LengthPrefix, PrefixStep, ReadError};
use h3x::wire::{put_varint, read_varint_at};

fn sample_event(id: &str, ns: &str) -> EventPayload {
    EventPayload {
        id: id.to_string(),
        namespace: ns.to_string(),
        event_type: "Error".to_string(),
        message: "m".to_string(),
        data: vec![1, 2, 3],
        timestamp: 1700000000,
        metadata: vec![
            ("severity".to_string(), "high".to_string()),
            ("env".to_string(), "production".to_string()),
        ],
    }
}

fn frame(kind: FrameType, stream_id: u32, payload: Option<Payload>) -> Frame {
    Frame { version: 1, stream_id, kind: kind.as_i32(), payload }
}

fn round_trip(f: &Frame) {
    let body = f.encode();
    assert_eq!(Frame::decode(&body), Some(f.clone()));
    let wire = f.encode_len_delimited();
    let (back, used) = Frame::decode_len_delimited(&wire).unwrap();
    assert_eq!(&back, f);
    assert_eq!(used, wire.len());
}

#[test]
fn varint_encoding_matches_protobuf() {
    for v in [0u64, 1, 127, 128, 300, 16384, u32::MAX as u64, u64::MAX] {
        let mut ours = Vec::new();
        put_varint(v, &mut ours);
        let mut theirs = Vec::new();
        prost::encoding::encode_varint(v, &mut theirs);
        assert_eq!(ours, theirs);
        assert_eq!(read_varint_at(&ours, 0), Some((v, ours.len())));
    }
    let mut b = Vec::new();
    put_varint(300, &mut b);
    assert_eq!(b, vec![0xAC, 0x02]);
}

#[test]
fn varint_overflow_is_refused() {
    let too_big = [0xFFu8, 0xFF, 0xFF, 0xFF, 0xFF, 0xFF, 0xFF, 0xFF, 0xFF, 0x7F];
    assert_eq!(read_varint_at(&too_big, 0), None);
    let eleven = [0x80u8; 11];
    assert_eq!(read_varint_at(&eleven, 0), None);
}

#[test]
fn frame_without_payload_has_exact_bytes() {
    let f = frame(FrameType::Ping, 0, None);
    assert_eq!(f.encode(), vec![0x08, 0x01, 0x18, 0x01]);
    assert_eq!(f.encode_len_delimited(), vec![0x04, 0x08, 0x01, 0x18, 0x01]);
}

#[test]
fn ping_frame_bytes_match_protobuf_fields() {
    let f = frame(FrameType::Ping, 99, Some(Payload::Ping(PingPayload { timestamp_ms: 42, seq: 7 })));
    let mut inner = Vec::new();
    prost::encoding::uint64::encode(1, &42u64, &mut inner);
    prost::encoding::uint64::encode(2, &7u64, &mut inner);
    let mut expected = Vec::new();
    prost::encoding::uint32::encode(1, &1u32, &mut expected);
    prost::encoding::uint32::encode(2, &99u32, &mut expected);
    prost::encoding::int32::encode(3, &1i32, &mut expected);
    prost::encoding::bytes::encode(10, &inner, &mut expected);
    assert_eq!(f.encode(), expected);
}

#[test]
fn length_prefix_equals_body_length() {
    let f = frame(FrameType::Event, 3, Some(Payload::Event(sample_event("e1", "ns1"))));
    let body = f.encode();
    let wire = f.encode_len_delimited();
    let (n, used) = read_varint_at(&wire, 0).unwrap();
    assert_eq!(n as usize, body.len());
    assert_eq!(&wire[used..], &body[..]);
}

#[test]
fn every_payload_round_trips() {
    round_trip(&frame(FrameType::Ping, 1, Some(Payload::Ping(PingPayload { timestamp_ms: 42, seq: 7 }))));
    round_trip(&frame(
        FrameType::Pong,
        2,
        Some(Payload::Pong(PongPayload { echo_timestamp_ms: 42, server_time_ms: 43, seq: 7 })),
    ));
    round_trip(&frame(
        FrameType::Auth,
        0,
        Some(Payload::Auth(AuthPayload {
            client_id: "client_id:alice".to_string(),
            token: "t".to_string(),
            namespaces: vec!["ns1".to_string(), "".to_string(), "ns2".to_string()],
        })),
    ));
    round_trip(&frame(FrameType::Event, 5, Some(Payload::Event(sample_event("e1", "ns1")))));
    round_trip(&frame(
        FrameType::EventsBatch,
        6,
        Some(Payload::EventsBatch(EventsBatchPayload {
            events: vec![sample_event("a", "ns1"), sample_event("b", "ns2")],
        })),
    ));
    round_trip(&frame(
        FrameType::FetchEvents,
        7,
        Some(Payload::FetchEvents(FetchEventsPayload { namespaces: vec!["ns1".to_string()], limit: 10 })),
    ));
    round_trip(&frame(
        FrameType::AckEvent,
        8,
        Some(Payload::AckEvent(AckEventPayload { namespace: "ns1".to_string(), event_id: "a".to_string() })),
    ));
    round_trip(&frame(FrameType::AuthAck, 9, None));
}

#[test]
fn empty_payloads_keep_their_presence() {
    round_trip(&frame(
        FrameType::EventsBatch,
        1,
        Some(Payload::EventsBatch(EventsBatchPayload { events: vec![] })),
    ));
    round_trip(&frame(FrameType::Ping, 0, Some(Payload::Ping(PingPayload { timestamp_ms: 0, seq: 0 }))));
}

#[test]
fn negative_and_extreme_values_round_trip() {
    let mut ev = sample_event("ü-ñ-✓", "名前空間");
    ev.timestamp = i64::MIN;
    let mut f = frame(FrameType::Event, u32::MAX, Some(Payload::Event(ev)));
    f.kind = -5;
    f.version = u32::MAX;
    round_trip(&f);
    let mut g = frame(FrameType::Event, 0, None);
    g.kind = i32::MIN;
    round_trip(&g);
}

#[test]
fn unknown_fields_are_skipped() {
    let f = frame(FrameType::Ping, 4, Some(Payload::Ping(PingPayload { timestamp_ms: 5, seq: 6 })));
    let mut body = f.encode();
    prost::encoding::uint64::encode(99, &12345u64, &mut body);
    prost::encoding::string::encode(100, &"later".to_string(), &mut body);
    prost::encoding::fixed64::encode(101, &1u64, &mut body);
    prost::encoding::fixed32::encode(102, &1u32, &mut body);
    assert_eq!(Frame::decode(&body), Some(f));
}

#[test]
fn repeated_metadata_key_keeps_last_value() {
    let mut entry1 = Vec::new();
    prost::encoding::string::encode(1, &"k".to_string(), &mut entry1);
    prost::encoding::string::encode(2, &"v1".to_string(), &mut entry1);
    let mut entry2 = Vec::new();
    prost::encoding::string::encode(1, &"k".to_string(), &mut entry2);
    prost::encoding::string::encode(2, &"v2".to_string(), &mut entry2);
    let mut event = Vec::new();
    prost::encoding::string::encode(1, &"id".to_string(), &mut event);
    prost::encoding::bytes::encode(7, &entry1, &mut event);
    prost::encoding::bytes::encode(7, &entry2, &mut event);
    let mut body = Vec::new();
    prost::encoding::int32::encode(3, &6i32, &mut body);
    prost::encoding::bytes::encode(13, &event, &mut body);
    let f = Frame::decode(&body).unwrap();
    match f.payload {
        Some(Payload::Event(e)) => {
            assert_eq!(e.id, "id");
            assert_eq!(e.metadata, vec![("k".to_string(), "v2".to_string())]);
        }
        other => panic!("unexpected payload {:?}", other),
    }
}

#[test]
fn invalid_utf8_is_malformed() {
    let mut ack = Vec::new();
    prost::encoding::bytes::encode(1, &vec![0xFFu8, 0xFE], &mut ack);
    let mut body = Vec::new();
    prost::encoding::bytes::encode(16, &ack, &mut body);
    assert_eq!(Frame::decode(&body), None);
    let mut wire = Vec::new();
    put_varint(body.len() as u64, &mut wire);
    wire.extend_from_slice(&body);
    assert_eq!(Frame::read_from(&wire), Err(ReadError::Malformed));
}

#[test]
fn clean_eof_gives_no_frame() {
    assert_eq!(Frame::read_from_with_limit(&[], 1024), Ok(None));
    assert_eq!(Frame::decode_len_delimited(&[]), Err(ReadError::UnexpectedEof));
}

#[test]
fn eof_mid_varint_is_unexpected() {
    assert_eq!(Frame::read_from_with_limit(&[0x80], 1024), Err(ReadError::UnexpectedEof));
    assert_eq!(Frame::read_from_with_limit(&[0x80, 0x80, 0x80], 1024), Err(ReadError::UnexpectedEof));
    assert!(!ReadError::UnexpectedEof.is_invalid_data());
}

#[test]
fn eof_mid_body_is_unexpected() {
    let wire = frame(FrameType::Ping, 0, None).encode_len_delimited();
    let cut = &wire[..wire.len() - 1];
    assert_eq!(Frame::read_from_with_limit(cut, 1024), Err(ReadError::UnexpectedEof));
}

#[test]
fn oversized_frame_is_refused() {
    let wire = frame(FrameType::Event, 1, Some(Payload::Event(sample_event("e", "ns")))).encode_len_delimited();
    let body_len = wire.len() - 1;
    assert_eq!(Frame::read_from_with_limit(&wire, body_len - 1), Err(ReadError::FrameTooLarge));
    assert!(ReadError::FrameTooLarge.is_invalid_data());
    assert!(Frame::read_from_with_limit(&wire, body_len).unwrap().is_some());
    // A prefix announcing a huge body is refused before any body byte exists.
    let mut huge = Vec::new();
    put_varint(1 << 40, &mut huge);
    assert_eq!(Frame::read_from_with_limit(&huge, 1 << 20), Err(ReadError::FrameTooLarge));
    assert_eq!(check_frame_len(1 << 40, 1 << 20), Err(ReadError::FrameTooLarge));
    assert_eq!(check_frame_len(10, 10), Ok(10));
}

#[test]
fn long_varint_prefix_is_bad() {
    let wire = [0x80u8; 12];
    assert_eq!(Frame::read_from_with_limit(&wire, 1024), Err(ReadError::BadVarint));
}

#[test]
fn frames_read_one_after_another() {
    let a = frame(FrameType::Ping, 1, Some(Payload::Ping(PingPayload { timestamp_ms: 1, seq: 1 })));
    let b = frame(FrameType::Ack, 2, None);
    let mut wire = a.encode_len_delimited();
    wire.extend(b.encode_len_delimited());
    let (first, used) = Frame::read_from(&wire).unwrap().unwrap();
    assert_eq!(first, a);
    let (second, used2) = Frame::read_from(&wire[used..]).unwrap().unwrap();
    assert_eq!(second, b);
    assert_eq!(used + used2, wire.len());
    assert_eq!(Frame::read_from(&wire[used + used2..]), Ok(None));
}

#[test]
fn length_prefix_reads_byte_by_byte() {
    let mut p = LengthPrefix::new();
    assert!(p.is_empty());
    assert_eq!(p.push(0xAC), PrefixStep::More);
    assert!(!p.is_empty());
    assert_eq!(p.push(0x02), PrefixStep::Done(300));
    let mut q = LengthPrefix::new();
    for _ in 0..9 {
        assert_eq!(q.push(0x80), PrefixStep::More);
    }
    assert_eq!(q.push(0x80), PrefixStep::Bad);
}

#[test]
fn frame_type_numbers_are_stable() {
    let all = [
        FrameType::Ping,
        FrameType::Pong,
        FrameType::Auth,
        FrameType::AuthAck,
        FrameType::AuthError,
        FrameType::Event,
        FrameType::EventsBatch,
        FrameType::FetchEvents,
        FrameType::AckEvent,
        FrameType::Ack,
    ];
    for (i, t) in all.iter().enumerate() {
        assert_eq!(t.as_i32(), i as i32 + 1);
        assert_eq!(FrameType::from_i32(i as i32 + 1), Some(*t));
    }
    assert_eq!(FrameType::from_i32(0), None);
    assert_eq!(FrameType::from_i32(11), None);
}
