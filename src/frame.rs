//! The protocol's messages, their views, and the field lists that give
//! their encoding.
use vstd::prelude::*;
use vstd::utf8::encode_utf8;
use crate::wire::{varint, encode_fields, WireField, WireValue};

verus! {

/// The protocol version that every frame carries.
pub const PROTO_VERSION: u32 = 1;

/// The kinds of frame, with their stable numbers on the wire.
#[derive(Clone, Copy, Debug, PartialEq, Eq, Structural)]
pub enum FrameType {
    Ping,
    Pong,
    Auth,
    AuthAck,
    AuthError,
    Event,
    EventsBatch,
    FetchEvents,
    AckEvent,
    Ack,
}

pub open spec fn kind_number(t: FrameType) -> i32 {
    match t {
        FrameType::Ping => 1,
        FrameType::Pong => 2,
        FrameType::Auth => 3,
        FrameType::AuthAck => 4,
        FrameType::AuthError => 5,
        FrameType::Event => 6,
        FrameType::EventsBatch => 7,
        FrameType::FetchEvents => 8,
        FrameType::AckEvent => 9,
        FrameType::Ack => 10,
    }
}

pub open spec fn kind_of(v: i32) -> Option<FrameType> {
    if v == 1 {
        Some(FrameType::Ping)
    } else if v == 2 {
        Some(FrameType::Pong)
    } else if v == 3 {
        Some(FrameType::Auth)
    } else if v == 4 {
        Some(FrameType::AuthAck)
    } else if v == 5 {
        Some(FrameType::AuthError)
    } else if v == 6 {
        Some(FrameType::Event)
    } else if v == 7 {
        Some(FrameType::EventsBatch)
    } else if v == 8 {
        Some(FrameType::FetchEvents)
    } else if v == 9 {
        Some(FrameType::AckEvent)
    } else if v == 10 {
        Some(FrameType::Ack)
    } else {
        None
    }
}

impl FrameType {
    /// The number that stands for this kind on the wire.
    pub fn as_i32(self) -> (r: i32)
        ensures
            r == kind_number(self),
            kind_of(r) == Some(self),
    {
        match self {
            FrameType::Ping => 1,
            FrameType::Pong => 2,
            FrameType::Auth => 3,
            FrameType::AuthAck => 4,
            FrameType::AuthError => 5,
            FrameType::Event => 6,
            FrameType::EventsBatch => 7,
            FrameType::FetchEvents => 8,
            FrameType::AckEvent => 9,
            FrameType::Ack => 10,
        }
    }

    /// The kind a wire number stands for; `None` for a number of no kind.
    pub fn from_i32(v: i32) -> (r: Option<FrameType>)
        ensures
            r == kind_of(v),
            r matches Some(t) ==> kind_number(t) == v,
    {
        if v == 1 {
            Some(FrameType::Ping)
        } else if v == 2 {
            Some(FrameType::Pong)
        } else if v == 3 {
            Some(FrameType::Auth)
        } else if v == 4 {
            Some(FrameType::AuthAck)
        } else if v == 5 {
            Some(FrameType::AuthError)
        } else if v == 6 {
            Some(FrameType::Event)
        } else if v == 7 {
            Some(FrameType::EventsBatch)
        } else if v == 8 {
            Some(FrameType::FetchEvents)
        } else if v == 9 {
            Some(FrameType::AckEvent)
        } else if v == 10 {
            Some(FrameType::Ack)
        } else {
            None
        }
    }
}

#[derive(Clone, Copy, Debug, PartialEq, Eq, Structural)]
pub struct PingPayload {
    pub timestamp_ms: u64,
    pub seq: u64,
}

#[derive(Clone, Copy, Debug, PartialEq, Eq, Structural)]
pub struct PongPayload {
    pub echo_timestamp_ms: u64,
    pub server_time_ms: u64,
    pub seq: u64,
}

#[derive(Clone, Debug, PartialEq, Eq)]
pub struct AuthPayload {
    pub client_id: String,
    pub token: String,
    pub namespaces: Vec<String>,
}

#[derive(Clone, Debug, PartialEq, Eq)]
pub struct EventPayload {
    pub id: String,
    pub namespace: String,
    pub event_type: String,
    pub message: String,
    pub data: Vec<u8>,
    pub timestamp: i64,
    /// Key/value pairs; keys are unique.
    pub metadata: Vec<(String, String)>,
}

#[derive(Clone, Debug, PartialEq, Eq)]
pub struct EventsBatchPayload {
    pub events: Vec<EventPayload>,
}

#[derive(Clone, Debug, PartialEq, Eq)]
pub struct FetchEventsPayload {
    pub namespaces: Vec<String>,
    /// At most this many events per namespace; 0 asks for all.
    pub limit: u32,
}

#[derive(Clone, Debug, PartialEq, Eq)]
pub struct AckEventPayload {
    pub namespace: String,
    pub event_id: String,
}

/// The body of a frame: one message of the kinds that carry one.
#[derive(Clone, Debug, PartialEq, Eq)]
pub enum Payload {
    Ping(PingPayload),
    Pong(PongPayload),
    Auth(AuthPayload),
    Event(EventPayload),
    EventsBatch(EventsBatchPayload),
    FetchEvents(FetchEventsPayload),
    AckEvent(AckEventPayload),
}

/// The envelope of every message on a stream.
#[derive(Clone, Debug, PartialEq, Eq)]
pub struct Frame {
    pub version: u32,
    pub stream_id: u32,
    /// The wire number of the frame's kind, as [`FrameType::as_i32`] gives it;
    /// a number of no kind is kept as it came.
    pub kind: i32,
    pub payload: Option<Payload>,
}

// ---------------------------------------------------------------------------
// Views
pub struct AuthView {
    pub client_id: Seq<char>,
    pub token: Seq<char>,
    pub namespaces: Seq<Seq<char>>,
}

pub struct EventView {
    pub id: Seq<char>,
    pub namespace: Seq<char>,
    pub event_type: Seq<char>,
    pub message: Seq<char>,
    pub data: Seq<u8>,
    pub timestamp: i64,
    pub metadata: Seq<(Seq<char>, Seq<char>)>,
}

pub struct FetchView {
    pub namespaces: Seq<Seq<char>>,
    pub limit: u32,
}

pub struct AckView {
    pub namespace: Seq<char>,
    pub event_id: Seq<char>,
}

pub enum PayloadView {
    Ping(PingPayload),
    Pong(PongPayload),
    Auth(AuthView),
    Event(EventView),
    EventsBatch(Seq<EventView>),
    FetchEvents(FetchView),
    AckEvent(AckView),
}

pub struct FrameView {
    pub version: u32,
    pub stream_id: u32,
    pub kind: i32,
    pub payload: Option<PayloadView>,
}

pub open spec fn strings_view(v: Seq<String>) -> Seq<Seq<char>> {
    v.map_values(|s: String| s@)
}

pub open spec fn pairs_view(v: Seq<(String, String)>) -> Seq<(Seq<char>, Seq<char>)> {
    v.map_values(|p: (String, String)| (p.0@, p.1@))
}

impl View for AuthPayload {
    type V = AuthView;

    open spec fn view(&self) -> AuthView {
        AuthView {
            client_id: self.client_id@,
            token: self.token@,
            namespaces: strings_view(self.namespaces@),
        }
    }
}

impl View for EventPayload {
    type V = EventView;

    open spec fn view(&self) -> EventView {
        EventView {
            id: self.id@,
            namespace: self.namespace@,
            event_type: self.event_type@,
            message: self.message@,
            data: self.data@,
            timestamp: self.timestamp,
            metadata: pairs_view(self.metadata@),
        }
    }
}

pub open spec fn events_view(v: Seq<EventPayload>) -> Seq<EventView> {
    v.map_values(|e: EventPayload| e@)
}

impl View for EventsBatchPayload {
    type V = Seq<EventView>;

    open spec fn view(&self) -> Seq<EventView> {
        events_view(self.events@)
    }
}

impl View for FetchEventsPayload {
    type V = FetchView;

    open spec fn view(&self) -> FetchView {
        FetchView { namespaces: strings_view(self.namespaces@), limit: self.limit }
    }
}

impl View for AckEventPayload {
    type V = AckView;

    open spec fn view(&self) -> AckView {
        AckView { namespace: self.namespace@, event_id: self.event_id@ }
    }
}

impl View for Payload {
    type V = PayloadView;

    open spec fn view(&self) -> PayloadView {
        match self {
            Payload::Ping(p) => PayloadView::Ping(*p),
            Payload::Pong(p) => PayloadView::Pong(*p),
            Payload::Auth(a) => PayloadView::Auth(a@),
            Payload::Event(e) => PayloadView::Event(e@),
            Payload::EventsBatch(b) => PayloadView::EventsBatch(b@),
            Payload::FetchEvents(f) => PayloadView::FetchEvents(f@),
            Payload::AckEvent(a) => PayloadView::AckEvent(a@),
        }
    }
}

pub open spec fn payload_view(p: Option<Payload>) -> Option<PayloadView> {
    match p {
        Some(q) => Some(q@),
        None => None,
    }
}

impl View for Frame {
    type V = FrameView;

    open spec fn view(&self) -> FrameView {
        FrameView {
            version: self.version,
            stream_id: self.stream_id,
            kind: self.kind,
            payload: payload_view(self.payload),
        }
    }
}

/// The frame of `kind`, version 1, on stream `stream_id`.
pub open spec fn kind_frame(stream_id: u32, kind: FrameType, payload: Option<PayloadView>) -> FrameView {
    FrameView { version: 1, stream_id, kind: kind_number(kind), payload }
}

impl Frame {
    /// A frame of `kind`, version 1, on stream `stream_id`.
    pub fn of_kind(stream_id: u32, kind: FrameType, payload: Option<Payload>) -> (r: Frame)
        ensures
            r@ == kind_frame(stream_id, kind, payload_view(payload)),
    {
        Frame { version: PROTO_VERSION, stream_id, kind: kind.as_i32(), payload }
    }
}

impl EventPayload {
    /// A copy of the event.
    pub fn clone_event(&self) -> (r: EventPayload)
        ensures
            r@ == self@,
    {
        let mut metadata: Vec<(String, String)> = Vec::new();
        let mut i: usize = 0;
        while i < self.metadata.len()
            invariant
                i <= self.metadata@.len(),
                pairs_view(metadata@) == pairs_view(self.metadata@).take(
                    i as int,
                ),
            decreases self.metadata@.len() - i,
        {
            let ghost before = metadata@;
            let k = self.metadata[i].0.clone();
            let v = self.metadata[i].1.clone();
            metadata.push((k, v));
            proof {
                assert(pairs_view(metadata@) =~= pairs_view(before).push(
                    (k@, v@),
                ));
                assert(pairs_view(metadata@) =~= pairs_view(
                    self.metadata@,
                ).take(i as int + 1));
            }
            i = i + 1;
        }
        proof {
            assert(pairs_view(self.metadata@).take(self.metadata@.len() as int)
                =~= pairs_view(self.metadata@));
        }
        EventPayload {
            id: self.id.clone(),
            namespace: self.namespace.clone(),
            event_type: self.event_type.clone(),
            message: self.message.clone(),
            data: self.data.clone(),
            timestamp: self.timestamp,
            metadata,
        }
    }
}

// ---------------------------------------------------------------------------
// Well-formedness
/// No key occurs twice.
pub open spec fn keys_unique(m: Seq<(Seq<char>, Seq<char>)>) -> bool {
    forall|i: int, j: int| 0 <= i < j < m.len() ==> #[trigger] m[i].0 != #[trigger] m[j].0
}

pub open spec fn event_wf(e: EventView) -> bool {
    keys_unique(e.metadata)
}

pub open spec fn payload_wf(p: PayloadView) -> bool {
    match p {
        PayloadView::Event(e) => event_wf(e),
        PayloadView::EventsBatch(es) => forall|i: int| 0 <= i < es.len() ==> #[trigger] event_wf(es[i]),
        _ => true,
    }
}

/// Metadata keys are unique in every event the frame carries.
pub open spec fn frame_wf(f: FrameView) -> bool {
    match f.payload {
        Some(p) => payload_wf(p),
        None => true,
    }
}

// ---------------------------------------------------------------------------
// Field lists: what each message encodes to.  Scalars equal to zero and empty
// strings are left out, as protobuf does; repeated items are written one
// field each, in order.
pub open spec fn push_u64(fs: Seq<WireField>, n: u64, v: u64) -> Seq<WireField> {
    if v == 0 {
        fs
    } else {
        fs.push(WireField { num: n, val: WireValue::Varint(v) })
    }
}

pub open spec fn push_bytes(fs: Seq<WireField>, n: u64, b: Seq<u8>) -> Seq<WireField> {
    if b.len() == 0 {
        fs
    } else {
        fs.push(WireField { num: n, val: WireValue::Bytes(b) })
    }
}

pub open spec fn push_str(fs: Seq<WireField>, n: u64, s: Seq<char>) -> Seq<WireField> {
    push_bytes(fs, n, encode_utf8(s))
}

/// One field for each item, empty ones included.
pub open spec fn push_each(fs: Seq<WireField>, n: u64, items: Seq<Seq<u8>>) -> Seq<WireField>
    decreases items.len(),
{
    if items.len() == 0 {
        fs
    } else {
        push_each(fs, n, items.drop_last()).push(
            WireField { num: n, val: WireValue::Bytes(items.last()) },
        )
    }
}

pub open spec fn utf8_each(ss: Seq<Seq<char>>) -> Seq<Seq<u8>> {
    ss.map_values(|s: Seq<char>| encode_utf8(s))
}

/// The bit pattern of a signed value, as protobuf writes `int32` and `int64`.
pub open spec fn signed_bits(v: int) -> u64 {
    if v >= 0 {
        v as u64
    } else {
        (v + 0x1_0000_0000_0000_0000) as u64
    }
}

pub open spec fn ping_fields(p: PingPayload) -> Seq<WireField> {
    push_u64(push_u64(Seq::empty(), 1, p.timestamp_ms), 2, p.seq)
}

pub open spec fn pong_fields(p: PongPayload) -> Seq<WireField> {
    push_u64(push_u64(push_u64(Seq::empty(), 1, p.echo_timestamp_ms), 2, p.server_time_ms), 3, p.seq)
}

pub open spec fn auth_fields(a: AuthView) -> Seq<WireField> {
    push_each(
        push_str(push_str(Seq::empty(), 1, a.client_id), 2, a.token),
        3,
        utf8_each(a.namespaces),
    )
}

pub open spec fn entry_fields(kv: (Seq<char>, Seq<char>)) -> Seq<WireField> {
    push_str(push_str(Seq::empty(), 1, kv.0), 2, kv.1)
}

pub open spec fn entry_bytes(kv: (Seq<char>, Seq<char>)) -> Seq<u8> {
    encode_fields(entry_fields(kv))
}

pub open spec fn event_head_fields(e: EventView) -> Seq<WireField> {
    push_u64(
        push_bytes(
            push_str(
                push_str(push_str(push_str(Seq::empty(), 1, e.id), 2, e.namespace), 3, e.event_type),
                4,
                e.message,
            ),
            5,
            e.data,
        ),
        6,
        signed_bits(e.timestamp as int),
    )
}

pub open spec fn event_fields(e: EventView) -> Seq<WireField> {
    push_each(
        event_head_fields(e),
        7,
        e.metadata.map_values(|kv: (Seq<char>, Seq<char>)| entry_bytes(kv)),
    )
}

pub open spec fn event_bytes(e: EventView) -> Seq<u8> {
    encode_fields(event_fields(e))
}

pub open spec fn batch_fields(es: Seq<EventView>) -> Seq<WireField> {
    push_each(Seq::empty(), 1, es.map_values(|e: EventView| event_bytes(e)))
}

pub open spec fn fetch_fields(f: FetchView) -> Seq<WireField> {
    push_u64(push_each(Seq::empty(), 1, utf8_each(f.namespaces)), 2, f.limit as u64)
}

pub open spec fn ack_fields(a: AckView) -> Seq<WireField> {
    push_str(push_str(Seq::empty(), 1, a.namespace), 2, a.event_id)
}

/// The field number of each payload in the frame.
pub open spec fn payload_num(p: PayloadView) -> u64 {
    match p {
        PayloadView::Ping(_) => 10,
        PayloadView::Pong(_) => 11,
        PayloadView::Auth(_) => 12,
        PayloadView::Event(_) => 13,
        PayloadView::EventsBatch(_) => 14,
        PayloadView::FetchEvents(_) => 15,
        PayloadView::AckEvent(_) => 16,
    }
}

pub open spec fn payload_fields(p: PayloadView) -> Seq<WireField> {
    match p {
        PayloadView::Ping(x) => ping_fields(x),
        PayloadView::Pong(x) => pong_fields(x),
        PayloadView::Auth(x) => auth_fields(x),
        PayloadView::Event(x) => event_fields(x),
        PayloadView::EventsBatch(x) => batch_fields(x),
        PayloadView::FetchEvents(x) => fetch_fields(x),
        PayloadView::AckEvent(x) => ack_fields(x),
    }
}

pub open spec fn payload_bytes(p: PayloadView) -> Seq<u8> {
    encode_fields(payload_fields(p))
}

pub open spec fn frame_head_fields(f: FrameView) -> Seq<WireField> {
    push_u64(
        push_u64(push_u64(Seq::empty(), 1, f.version as u64), 2, f.stream_id as u64),
        3,
        signed_bits(f.kind as int),
    )
}

/// A payload is written even when its own encoding is empty, so that its
/// presence survives.
pub open spec fn frame_fields(f: FrameView) -> Seq<WireField> {
    match f.payload {
        Some(p) => frame_head_fields(f).push(
            WireField { num: payload_num(p), val: WireValue::Bytes(payload_bytes(p)) },
        ),
        None => frame_head_fields(f),
    }
}

/// The encoded body of a frame.
pub open spec fn frame_bytes(f: FrameView) -> Seq<u8> {
    encode_fields(frame_fields(f))
}

/// A frame as it travels on a stream: the body's length, then the body.
pub open spec fn delimited_bytes(f: FrameView) -> Seq<u8> {
    varint(frame_bytes(f).len() as u64) + frame_bytes(f)
}

} // verus!
