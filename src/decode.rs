//! Reading messages and frames back from their wire form.  Unknown fields
//! are skipped; a scalar field that comes twice keeps the last value; a
//! metadata key that comes twice keeps the last value in the first place.
use vstd::prelude::*;
use vstd::utf8::{decode_utf8, valid_utf8};
use crate::frame::{
    events_view, pairs_view, strings_view, AckEventPayload, AckView, AuthPayload, AuthView,
    EventPayload, EventView, EventsBatchPayload, FetchEventsPayload, FetchView, Frame, FrameView,
    Payload, PayloadView, PingPayload, PongPayload,
};
use crate::wire::{fields_view, parse_fields, read_fields, FieldValue, WireField, WireValue};

verus! {

/// Applies `step` to each field in turn, stopping at the first failure.
pub open spec fn fold_fields<A>(
    acc: A,
    fs: Seq<WireField>,
    step: spec_fn(A, WireField) -> Option<A>,
) -> Option<A>
    decreases fs.len(),
{
    if fs.len() == 0 {
        Some(acc)
    } else {
        match fold_fields(acc, fs.drop_last(), step) {
            Some(a) => step(a, fs.last()),
            None => None,
        }
    }
}

pub proof fn lemma_fold_push<A>(
    acc: A,
    fs: Seq<WireField>,
    f: WireField,
    step: spec_fn(A, WireField) -> Option<A>,
)
    ensures
        fold_fields(acc, fs.push(f), step) == match fold_fields(acc, fs, step) {
            Some(a) => step(a, f),
            None => None,
        },
{
    assert(fs.push(f).drop_last() =~= fs);
}

proof fn lemma_fold_take<A>(
    acc: A,
    fs: Seq<WireField>,
    i: int,
    step: spec_fn(A, WireField) -> Option<A>,
)
    requires
        0 <= i < fs.len(),
    ensures
        fold_fields(acc, fs.take(i + 1), step) == match fold_fields(acc, fs.take(i), step) {
            Some(a) => step(a, fs[i]),
            None => None,
        },
{
    assert(fs.take(i + 1) =~= fs.take(i).push(fs[i]));
    lemma_fold_push(acc, fs.take(i), fs[i], step);
}

proof fn lemma_fold_none<A>(
    acc: A,
    fs: Seq<WireField>,
    i: int,
    step: spec_fn(A, WireField) -> Option<A>,
)
    requires
        0 <= i <= fs.len(),
        fold_fields(acc, fs.take(i), step) is None,
    ensures
        fold_fields(acc, fs, step) is None,
    decreases fs.len() - i,
{
    if i == fs.len() {
        assert(fs.take(i) =~= fs);
    } else {
        lemma_fold_take(acc, fs, i, step);
        lemma_fold_none(acc, fs, i + 1, step);
    }
}

proof fn lemma_fold_all<A>(acc: A, fs: Seq<WireField>, step: spec_fn(A, WireField) -> Option<A>)
    ensures
        fold_fields(acc, fs.take(fs.len() as int), step) == fold_fields(acc, fs, step),
{
    assert(fs.take(fs.len() as int) =~= fs);
}

proof fn lemma_fold_start<A>(acc: A, fs: Seq<WireField>, step: spec_fn(A, WireField) -> Option<A>)
    ensures
        fold_fields(acc, fs.take(0), step) == Some(acc),
{
    assert(fs.take(0) =~= Seq::<WireField>::empty());
}

/// The text that UTF-8 bytes stand for, if they are valid UTF-8.
pub open spec fn text_of(b: Seq<u8>) -> Option<Seq<char>> {
    if valid_utf8(b) {
        Some(decode_utf8(b))
    } else {
        None
    }
}

/// The low 32 bits, as protobuf reads a `uint32`.
pub open spec fn unsigned_32(x: u64) -> u32 {
    (x % 0x1_0000_0000) as u32
}

/// The low 32 bits as a signed value, as protobuf reads an `int32`.
pub open spec fn signed_32(x: u64) -> i32 {
    let w = x % 0x1_0000_0000;
    if w < 0x8000_0000 {
        w as i32
    } else {
        (w - 0x1_0000_0000) as i32
    }
}

/// The 64 bits as a signed value, as protobuf reads an `int64`.
pub open spec fn signed_64(x: u64) -> i64 {
    if x < 0x8000_0000_0000_0000 {
        x as i64
    } else {
        (x - 0x1_0000_0000_0000_0000) as i64
    }
}

pub open spec fn ping_step(a: PingPayload, f: WireField) -> Option<PingPayload> {
    match f.val {
        WireValue::Varint(x) => if f.num == 1 {
            Some(PingPayload { timestamp_ms: x, seq: a.seq })
        } else if f.num == 2 {
            Some(PingPayload { timestamp_ms: a.timestamp_ms, seq: x })
        } else {
            Some(a)
        },
        _ => Some(a),
    }
}

pub open spec fn ping_stepper() -> spec_fn(PingPayload, WireField) -> Option<PingPayload> {
    |a: PingPayload, f: WireField| ping_step(a, f)
}

pub open spec fn empty_ping() -> PingPayload {
    PingPayload { timestamp_ms: 0, seq: 0 }
}

pub open spec fn decode_ping(b: Seq<u8>) -> Option<PingPayload> {
    match parse_fields(b) {
        Some(fs) => fold_fields(empty_ping(), fs, ping_stepper()),
        None => None,
    }
}

pub open spec fn pong_step(a: PongPayload, f: WireField) -> Option<PongPayload> {
    match f.val {
        WireValue::Varint(x) => if f.num == 1 {
            Some(PongPayload { echo_timestamp_ms: x, server_time_ms: a.server_time_ms, seq: a.seq })
        } else if f.num == 2 {
            Some(
                PongPayload {
                    echo_timestamp_ms: a.echo_timestamp_ms,
                    server_time_ms: x,
                    seq: a.seq,
                },
            )
        } else if f.num == 3 {
            Some(
                PongPayload {
                    echo_timestamp_ms: a.echo_timestamp_ms,
                    server_time_ms: a.server_time_ms,
                    seq: x,
                },
            )
        } else {
            Some(a)
        },
        _ => Some(a),
    }
}

pub open spec fn pong_stepper() -> spec_fn(PongPayload, WireField) -> Option<PongPayload> {
    |a: PongPayload, f: WireField| pong_step(a, f)
}

pub open spec fn empty_pong() -> PongPayload {
    PongPayload { echo_timestamp_ms: 0, server_time_ms: 0, seq: 0 }
}

pub open spec fn decode_pong(b: Seq<u8>) -> Option<PongPayload> {
    match parse_fields(b) {
        Some(fs) => fold_fields(empty_pong(), fs, pong_stepper()),
        None => None,
    }
}

pub open spec fn auth_step(a: AuthView, f: WireField) -> Option<AuthView> {
    match f.val {
        WireValue::Bytes(b) => if 1 <= f.num <= 3 {
            match text_of(b) {
                Some(s) => if f.num == 1 {
                    Some(AuthView { client_id: s, token: a.token, namespaces: a.namespaces })
                } else if f.num == 2 {
                    Some(AuthView { client_id: a.client_id, token: s, namespaces: a.namespaces })
                } else {
                    Some(
                        AuthView {
                            client_id: a.client_id,
                            token: a.token,
                            namespaces: a.namespaces.push(s),
                        },
                    )
                },
                None => None,
            }
        } else {
            Some(a)
        },
        _ => Some(a),
    }
}

pub open spec fn auth_stepper() -> spec_fn(AuthView, WireField) -> Option<AuthView> {
    |a: AuthView, f: WireField| auth_step(a, f)
}

pub open spec fn empty_auth() -> AuthView {
    AuthView { client_id: Seq::empty(), token: Seq::empty(), namespaces: Seq::empty() }
}

pub open spec fn decode_auth(b: Seq<u8>) -> Option<AuthView> {
    match parse_fields(b) {
        Some(fs) => fold_fields(empty_auth(), fs, auth_stepper()),
        None => None,
    }
}

pub open spec fn entry_step(a: (Seq<char>, Seq<char>), f: WireField) -> Option<
    (Seq<char>, Seq<char>),
> {
    match f.val {
        WireValue::Bytes(b) => if f.num == 1 || f.num == 2 {
            match text_of(b) {
                Some(s) => if f.num == 1 {
                    Some((s, a.1))
                } else {
                    Some((a.0, s))
                },
                None => None,
            }
        } else {
            Some(a)
        },
        _ => Some(a),
    }
}

pub open spec fn entry_stepper() -> spec_fn((Seq<char>, Seq<char>), WireField) -> Option<
    (Seq<char>, Seq<char>),
> {
    |a: (Seq<char>, Seq<char>), f: WireField| entry_step(a, f)
}

pub open spec fn decode_entry(b: Seq<u8>) -> Option<(Seq<char>, Seq<char>)> {
    match parse_fields(b) {
        Some(fs) => fold_fields((Seq::empty(), Seq::empty()), fs, entry_stepper()),
        None => None,
    }
}

/// `i` is the first place that holds key `k`.
pub open spec fn first_with_key(m: Seq<(Seq<char>, Seq<char>)>, k: Seq<char>, i: int) -> bool {
    &&& 0 <= i < m.len()
    &&& m[i].0 == k
    &&& forall|j: int| 0 <= j < i ==> m[j].0 != k
}

/// Sets key `k` to `v`: in the first place that holds `k`, or at the end.
pub open spec fn meta_put(m: Seq<(Seq<char>, Seq<char>)>, k: Seq<char>, v: Seq<char>) -> Seq<
    (Seq<char>, Seq<char>),
> {
    if exists|i: int| first_with_key(m, k, i) {
        let i = choose|i: int| first_with_key(m, k, i);
        m.update(i, (k, v))
    } else {
        m.push((k, v))
    }
}

pub open spec fn event_step(a: EventView, f: WireField) -> Option<EventView> {
    match f.val {
        WireValue::Bytes(b) => if 1 <= f.num <= 4 {
            match text_of(b) {
                Some(s) => if f.num == 1 {
                    Some(EventView { id: s, ..a })
                } else if f.num == 2 {
                    Some(EventView { namespace: s, ..a })
                } else if f.num == 3 {
                    Some(EventView { event_type: s, ..a })
                } else {
                    Some(EventView { message: s, ..a })
                },
                None => None,
            }
        } else if f.num == 5 {
            Some(EventView { data: b, ..a })
        } else if f.num == 7 {
            match decode_entry(b) {
                Some(kv) => Some(EventView { metadata: meta_put(a.metadata, kv.0, kv.1), ..a }),
                None => None,
            }
        } else {
            Some(a)
        },
        WireValue::Varint(x) => if f.num == 6 {
            Some(EventView { timestamp: signed_64(x), ..a })
        } else {
            Some(a)
        },
        _ => Some(a),
    }
}

pub open spec fn event_stepper() -> spec_fn(EventView, WireField) -> Option<EventView> {
    |a: EventView, f: WireField| event_step(a, f)
}

pub open spec fn empty_event() -> EventView {
    EventView {
        id: Seq::empty(),
        namespace: Seq::empty(),
        event_type: Seq::empty(),
        message: Seq::empty(),
        data: Seq::empty(),
        timestamp: 0,
        metadata: Seq::empty(),
    }
}

pub open spec fn decode_event(b: Seq<u8>) -> Option<EventView> {
    match parse_fields(b) {
        Some(fs) => fold_fields(empty_event(), fs, event_stepper()),
        None => None,
    }
}

pub open spec fn batch_step(a: Seq<EventView>, f: WireField) -> Option<Seq<EventView>> {
    match f.val {
        WireValue::Bytes(b) => if f.num == 1 {
            match decode_event(b) {
                Some(e) => Some(a.push(e)),
                None => None,
            }
        } else {
            Some(a)
        },
        _ => Some(a),
    }
}

pub open spec fn batch_stepper() -> spec_fn(Seq<EventView>, WireField) -> Option<Seq<EventView>> {
    |a: Seq<EventView>, f: WireField| batch_step(a, f)
}

pub open spec fn decode_batch(b: Seq<u8>) -> Option<Seq<EventView>> {
    match parse_fields(b) {
        Some(fs) => fold_fields(Seq::empty(), fs, batch_stepper()),
        None => None,
    }
}

pub open spec fn fetch_step(a: FetchView, f: WireField) -> Option<FetchView> {
    match f.val {
        WireValue::Bytes(b) => if f.num == 1 {
            match text_of(b) {
                Some(s) => Some(FetchView { namespaces: a.namespaces.push(s), limit: a.limit }),
                None => None,
            }
        } else {
            Some(a)
        },
        WireValue::Varint(x) => if f.num == 2 {
            Some(FetchView { namespaces: a.namespaces, limit: unsigned_32(x) })
        } else {
            Some(a)
        },
        _ => Some(a),
    }
}

pub open spec fn fetch_stepper() -> spec_fn(FetchView, WireField) -> Option<FetchView> {
    |a: FetchView, f: WireField| fetch_step(a, f)
}

pub open spec fn empty_fetch() -> FetchView {
    FetchView { namespaces: Seq::empty(), limit: 0 }
}

pub open spec fn decode_fetch(b: Seq<u8>) -> Option<FetchView> {
    match parse_fields(b) {
        Some(fs) => fold_fields(empty_fetch(), fs, fetch_stepper()),
        None => None,
    }
}

pub open spec fn ack_step(a: AckView, f: WireField) -> Option<AckView> {
    match f.val {
        WireValue::Bytes(b) => if f.num == 1 || f.num == 2 {
            match text_of(b) {
                Some(s) => if f.num == 1 {
                    Some(AckView { namespace: s, event_id: a.event_id })
                } else {
                    Some(AckView { namespace: a.namespace, event_id: s })
                },
                None => None,
            }
        } else {
            Some(a)
        },
        _ => Some(a),
    }
}

pub open spec fn ack_stepper() -> spec_fn(AckView, WireField) -> Option<AckView> {
    |a: AckView, f: WireField| ack_step(a, f)
}

pub open spec fn empty_ack() -> AckView {
    AckView { namespace: Seq::empty(), event_id: Seq::empty() }
}

pub open spec fn decode_ack(b: Seq<u8>) -> Option<AckView> {
    match parse_fields(b) {
        Some(fs) => fold_fields(empty_ack(), fs, ack_stepper()),
        None => None,
    }
}

/// The payload that field `num` of a frame carries.
pub open spec fn decode_payload(num: u64, b: Seq<u8>) -> Option<PayloadView> {
    if num == 10 {
        match decode_ping(b) {
            Some(x) => Some(PayloadView::Ping(x)),
            None => None,
        }
    } else if num == 11 {
        match decode_pong(b) {
            Some(x) => Some(PayloadView::Pong(x)),
            None => None,
        }
    } else if num == 12 {
        match decode_auth(b) {
            Some(x) => Some(PayloadView::Auth(x)),
            None => None,
        }
    } else if num == 13 {
        match decode_event(b) {
            Some(x) => Some(PayloadView::Event(x)),
            None => None,
        }
    } else if num == 14 {
        match decode_batch(b) {
            Some(x) => Some(PayloadView::EventsBatch(x)),
            None => None,
        }
    } else if num == 15 {
        match decode_fetch(b) {
            Some(x) => Some(PayloadView::FetchEvents(x)),
            None => None,
        }
    } else {
        match decode_ack(b) {
            Some(x) => Some(PayloadView::AckEvent(x)),
            None => None,
        }
    }
}

pub open spec fn frame_step(a: FrameView, f: WireField) -> Option<FrameView> {
    match f.val {
        WireValue::Varint(x) => if f.num == 1 {
            Some(FrameView { version: unsigned_32(x), ..a })
        } else if f.num == 2 {
            Some(FrameView { stream_id: unsigned_32(x), ..a })
        } else if f.num == 3 {
            Some(FrameView { kind: signed_32(x), ..a })
        } else {
            Some(a)
        },
        WireValue::Bytes(b) => if 10 <= f.num <= 16 {
            match decode_payload(f.num, b) {
                Some(p) => Some(FrameView { payload: Some(p), ..a }),
                None => None,
            }
        } else {
            Some(a)
        },
        _ => Some(a),
    }
}

pub open spec fn frame_stepper() -> spec_fn(FrameView, WireField) -> Option<FrameView> {
    |a: FrameView, f: WireField| frame_step(a, f)
}

pub open spec fn empty_frame() -> FrameView {
    FrameView { version: 0, stream_id: 0, kind: 0, payload: None }
}

/// The frame an encoded body stands for, if it is well formed.
pub open spec fn decode_frame(b: Seq<u8>) -> Option<FrameView> {
    match parse_fields(b) {
        Some(fs) => fold_fields(empty_frame(), fs, frame_stepper()),
        None => None,
    }
}

// ---------------------------------------------------------------------------
// Exec decoding
/// Relies on std::str::from_utf8: it accepts exactly the valid UTF-8 byte
/// strings, and the text is what the bytes encode.
#[verifier::external_body]
fn utf8_text(b: &[u8]) -> (r: Option<String>)
    ensures
        match r {
            Some(s) => valid_utf8(b@) && s@ == decode_utf8(b@),
            None => !valid_utf8(b@),
        },
{
    std::str::from_utf8(b).ok().map(String::from)
}

fn text_from(b: &Vec<u8>) -> (r: Option<String>)
    ensures
        match r {
            Some(s) => text_of(b@) == Some(s@),
            None => text_of(b@) is None,
        },
{
    utf8_text(b.as_slice())
}

pub fn u32_of(x: u64) -> (r: u32)
    ensures
        r == unsigned_32(x),
{
    (x % 0x1_0000_0000) as u32
}

pub fn i32_of(x: u64) -> (r: i32)
    ensures
        r == signed_32(x),
{
    let w = x % 0x1_0000_0000;
    if w < 0x8000_0000 {
        w as i32
    } else {
        (w as i64 - 0x1_0000_0000) as i32
    }
}

pub fn i64_of(x: u64) -> (r: i64)
    ensures
        r == signed_64(x),
{
    if x < 0x8000_0000_0000_0000 {
        x as i64
    } else {
        let low = (x - 0x8000_0000_0000_0000) as i64;
        low + i64::MIN
    }
}

/// Reads a ping message.
pub fn read_ping(b: &[u8]) -> (r: Option<PingPayload>)
    ensures
        r == decode_ping(b@),
{
    let fields = match read_fields(b) {
        Some(v) => v,
        None => return None,
    };
    let ghost fs = fields_view(fields@);
    let mut acc = PingPayload { timestamp_ms: 0, seq: 0 };
    proof {
        lemma_fold_start(empty_ping(), fs, ping_stepper());
    }
    let mut i: usize = 0;
    while i < fields.len()
        invariant
            i <= fields@.len(),
            fs == fields_view(fields@),
            parse_fields(b@) == Some(fs),
            fold_fields(empty_ping(), fs.take(i as int), ping_stepper()) == Some(acc),
        decreases fields@.len() - i,
    {
        let f = &fields[i];
        proof {
            lemma_fold_take(empty_ping(), fs, i as int, ping_stepper());
            assert(fs[i as int] == f@);
        }
        match &f.val {
            FieldValue::Varint(x) => {
                if f.num == 1 {
                    acc.timestamp_ms = *x;
                } else if f.num == 2 {
                    acc.seq = *x;
                }
            },
            _ => {},
        }
        i = i + 1;
    }
    proof {
        lemma_fold_all(empty_ping(), fs, ping_stepper());
    }
    Some(acc)
}

/// Reads a pong message.
pub fn read_pong(b: &[u8]) -> (r: Option<PongPayload>)
    ensures
        r == decode_pong(b@),
{
    let fields = match read_fields(b) {
        Some(v) => v,
        None => return None,
    };
    let ghost fs = fields_view(fields@);
    let mut acc = PongPayload { echo_timestamp_ms: 0, server_time_ms: 0, seq: 0 };
    proof {
        lemma_fold_start(empty_pong(), fs, pong_stepper());
    }
    let mut i: usize = 0;
    while i < fields.len()
        invariant
            i <= fields@.len(),
            fs == fields_view(fields@),
            parse_fields(b@) == Some(fs),
            fold_fields(empty_pong(), fs.take(i as int), pong_stepper()) == Some(acc),
        decreases fields@.len() - i,
    {
        let f = &fields[i];
        proof {
            lemma_fold_take(empty_pong(), fs, i as int, pong_stepper());
            assert(fs[i as int] == f@);
        }
        match &f.val {
            FieldValue::Varint(x) => {
                if f.num == 1 {
                    acc.echo_timestamp_ms = *x;
                } else if f.num == 2 {
                    acc.server_time_ms = *x;
                } else if f.num == 3 {
                    acc.seq = *x;
                }
            },
            _ => {},
        }
        i = i + 1;
    }
    proof {
        lemma_fold_all(empty_pong(), fs, pong_stepper());
    }
    Some(acc)
}

/// Reads an auth message.
pub fn read_auth(b: &[u8]) -> (r: Option<AuthPayload>)
    ensures
        match r {
            Some(a) => decode_auth(b@) == Some(a@),
            None => decode_auth(b@) is None,
        },
{
    let fields = match read_fields(b) {
        Some(v) => v,
        None => return None,
    };
    let ghost fs = fields_view(fields@);
    let mut acc = AuthPayload { client_id: String::new(), token: String::new(), namespaces: Vec::new() };
    proof {
        lemma_fold_start(empty_auth(), fs, auth_stepper());
        assert(strings_view(acc.namespaces@) =~= Seq::<Seq<char>>::empty());
    }
    let mut i: usize = 0;
    while i < fields.len()
        invariant
            i <= fields@.len(),
            fs == fields_view(fields@),
            parse_fields(b@) == Some(fs),
            fold_fields(empty_auth(), fs.take(i as int), auth_stepper()) == Some(acc@),
        decreases fields@.len() - i,
    {
        let f = &fields[i];
        proof {
            lemma_fold_take(empty_auth(), fs, i as int, auth_stepper());
            assert(fs[i as int] == f@);
        }
        match &f.val {
            FieldValue::Bytes(bytes) => {
                if 1 <= f.num && f.num <= 3 {
                    match text_from(bytes) {
                        None => {
                            proof {
                                lemma_fold_none(empty_auth(), fs, i as int + 1, auth_stepper());
                            }
                            return None;
                        },
                        Some(s) => {
                            if f.num == 1 {
                                acc.client_id = s;
                            } else if f.num == 2 {
                                acc.token = s;
                            } else {
                                let ghost before = acc.namespaces@;
                                acc.namespaces.push(s);
                                proof {
                                    assert(strings_view(acc.namespaces@) =~= strings_view(
                                        before,
                                    ).push(s@));
                                }
                            }
                        },
                    }
                }
            },
            _ => {},
        }
        i = i + 1;
    }
    proof {
        lemma_fold_all(empty_auth(), fs, auth_stepper());
    }
    Some(acc)
}

/// Reads one metadata entry.
fn read_entry(b: &[u8]) -> (r: Option<(String, String)>)
    ensures
        match r {
            Some(kv) => decode_entry(b@) == Some((kv.0@, kv.1@)),
            None => decode_entry(b@) is None,
        },
{
    let fields = match read_fields(b) {
        Some(v) => v,
        None => return None,
    };
    let ghost fs = fields_view(fields@);
    let ghost start = (Seq::<char>::empty(), Seq::<char>::empty());
    let mut key = String::new();
    let mut value = String::new();
    proof {
        lemma_fold_start(start, fs, entry_stepper());
    }
    let mut i: usize = 0;
    while i < fields.len()
        invariant
            i <= fields@.len(),
            fs == fields_view(fields@),
            parse_fields(b@) == Some(fs),
            fold_fields(start, fs.take(i as int), entry_stepper()) == Some((key@, value@)),
            start == (Seq::<char>::empty(), Seq::<char>::empty()),
        decreases fields@.len() - i,
    {
        let f = &fields[i];
        proof {
            lemma_fold_take(start, fs, i as int, entry_stepper());
            assert(fs[i as int] == f@);
        }
        match &f.val {
            FieldValue::Bytes(bytes) => {
                if f.num == 1 || f.num == 2 {
                    match text_from(bytes) {
                        None => {
                            proof {
                                lemma_fold_none(start, fs, i as int + 1, entry_stepper());
                            }
                            return None;
                        },
                        Some(s) => {
                            if f.num == 1 {
                                key = s;
                            } else {
                                value = s;
                            }
                        },
                    }
                }
            },
            _ => {},
        }
        i = i + 1;
    }
    proof {
        lemma_fold_all(start, fs, entry_stepper());
    }
    Some((key, value))
}

/// Sets key `k` to `v` as [`meta_put`] specifies.
fn put_entry(m: &mut Vec<(String, String)>, k: String, v: String)
    ensures
        pairs_view(final(m)@) == meta_put(pairs_view(old(m)@), k@, v@),
{
    let ghost pm = pairs_view(m@);
    let mut j: usize = 0;
    while j < m.len()
        invariant
            j <= m@.len(),
            pm == pairs_view(m@),
            m@ == old(m)@,
            forall|i: int| 0 <= i < j ==> pm[i].0 != k@,
        decreases m@.len() - j,
    {
        if m[j].0 == k {
            let ghost kv = (k@, v@);
            proof {
                assert(first_with_key(pm, k@, j as int));
                let c = choose|i: int| first_with_key(pm, k@, i);
                assert(c == j) by {
                    if c < j {
                        assert(pm[c].0 != k@);
                    }
                    if c > j {
                        assert(pm[j as int].0 != k@);
                    }
                }
                assert(meta_put(pm, k@, v@) == pm.update(j as int, kv));
            }
            m.set(j, (k, v));
            proof {
                assert(pairs_view(m@) =~= pm.update(j as int, kv));
            }
            return;
        }
        j = j + 1;
    }
    proof {
        assert(!exists|i: int| first_with_key(pm, k@, i));
    }
    m.push((k, v));
    proof {
        assert(pairs_view(m@) =~= pm.push((k@, v@)));
    }
}

/// Reads an event message.
pub fn read_event(b: &[u8]) -> (r: Option<EventPayload>)
    ensures
        match r {
            Some(e) => decode_event(b@) == Some(e@),
            None => decode_event(b@) is None,
        },
{
    let fields = match read_fields(b) {
        Some(v) => v,
        None => return None,
    };
    let ghost fs = fields_view(fields@);
    let mut acc = EventPayload {
        id: String::new(),
        namespace: String::new(),
        event_type: String::new(),
        message: String::new(),
        data: Vec::new(),
        timestamp: 0,
        metadata: Vec::new(),
    };
    proof {
        lemma_fold_start(empty_event(), fs, event_stepper());
        assert(pairs_view(acc.metadata@) =~= Seq::<(Seq<char>, Seq<char>)>::empty());
        assert(acc.data@ =~= Seq::<u8>::empty());
    }
    let mut i: usize = 0;
    while i < fields.len()
        invariant
            i <= fields@.len(),
            fs == fields_view(fields@),
            parse_fields(b@) == Some(fs),
            fold_fields(empty_event(), fs.take(i as int), event_stepper()) == Some(acc@),
        decreases fields@.len() - i,
    {
        let f = &fields[i];
        proof {
            lemma_fold_take(empty_event(), fs, i as int, event_stepper());
            assert(fs[i as int] == f@);
        }
        match &f.val {
            FieldValue::Bytes(bytes) => {
                if 1 <= f.num && f.num <= 4 {
                    match text_from(bytes) {
                        None => {
                            proof {
                                lemma_fold_none(empty_event(), fs, i as int + 1, event_stepper());
                            }
                            return None;
                        },
                        Some(s) => {
                            if f.num == 1 {
                                acc.id = s;
                            } else if f.num == 2 {
                                acc.namespace = s;
                            } else if f.num == 3 {
                                acc.event_type = s;
                            } else {
                                acc.message = s;
                            }
                        },
                    }
                } else if f.num == 5 {
                    acc.data = bytes.clone();
                } else if f.num == 7 {
                    match read_entry(bytes.as_slice()) {
                        None => {
                            proof {
                                lemma_fold_none(empty_event(), fs, i as int + 1, event_stepper());
                            }
                            return None;
                        },
                        Some(kv) => {
                            let (k, v) = kv;
                            put_entry(&mut acc.metadata, k, v);
                        },
                    }
                }
            },
            FieldValue::Varint(x) => {
                if f.num == 6 {
                    acc.timestamp = i64_of(*x);
                }
            },
            _ => {},
        }
        i = i + 1;
    }
    proof {
        lemma_fold_all(empty_event(), fs, event_stepper());
    }
    Some(acc)
}

/// Reads a batch of events.
pub fn read_batch(b: &[u8]) -> (r: Option<EventsBatchPayload>)
    ensures
        match r {
            Some(x) => decode_batch(b@) == Some(x@),
            None => decode_batch(b@) is None,
        },
{
    let fields = match read_fields(b) {
        Some(v) => v,
        None => return None,
    };
    let ghost fs = fields_view(fields@);
    let mut events: Vec<EventPayload> = Vec::new();
    proof {
        lemma_fold_start(Seq::<EventView>::empty(), fs, batch_stepper());
        assert(events_view(events@) =~= Seq::<EventView>::empty());
    }
    let mut i: usize = 0;
    while i < fields.len()
        invariant
            i <= fields@.len(),
            fs == fields_view(fields@),
            parse_fields(b@) == Some(fs),
            fold_fields(Seq::<EventView>::empty(), fs.take(i as int), batch_stepper()) == Some(
                events_view(events@),
            ),
        decreases fields@.len() - i,
    {
        let f = &fields[i];
        proof {
            lemma_fold_take(Seq::<EventView>::empty(), fs, i as int, batch_stepper());
            assert(fs[i as int] == f@);
        }
        match &f.val {
            FieldValue::Bytes(bytes) => {
                if f.num == 1 {
                    match read_event(bytes.as_slice()) {
                        None => {
                            proof {
                                lemma_fold_none(
                                    Seq::<EventView>::empty(),
                                    fs,
                                    i as int + 1,
                                    batch_stepper(),
                                );
                            }
                            return None;
                        },
                        Some(e) => {
                            let ghost before = events@;
                            events.push(e);
                            proof {
                                assert(events_view(events@) =~= events_view(before).push(e@));
                            }
                        },
                    }
                }
            },
            _ => {},
        }
        i = i + 1;
    }
    proof {
        lemma_fold_all(Seq::<EventView>::empty(), fs, batch_stepper());
    }
    Some(EventsBatchPayload { events })
}

/// Reads a fetch request.
pub fn read_fetch(b: &[u8]) -> (r: Option<FetchEventsPayload>)
    ensures
        match r {
            Some(x) => decode_fetch(b@) == Some(x@),
            None => decode_fetch(b@) is None,
        },
{
    let fields = match read_fields(b) {
        Some(v) => v,
        None => return None,
    };
    let ghost fs = fields_view(fields@);
    let mut acc = FetchEventsPayload { namespaces: Vec::new(), limit: 0 };
    proof {
        lemma_fold_start(empty_fetch(), fs, fetch_stepper());
        assert(strings_view(acc.namespaces@) =~= Seq::<Seq<char>>::empty());
    }
    let mut i: usize = 0;
    while i < fields.len()
        invariant
            i <= fields@.len(),
            fs == fields_view(fields@),
            parse_fields(b@) == Some(fs),
            fold_fields(empty_fetch(), fs.take(i as int), fetch_stepper()) == Some(acc@),
        decreases fields@.len() - i,
    {
        let f = &fields[i];
        proof {
            lemma_fold_take(empty_fetch(), fs, i as int, fetch_stepper());
            assert(fs[i as int] == f@);
        }
        match &f.val {
            FieldValue::Bytes(bytes) => {
                if f.num == 1 {
                    match text_from(bytes) {
                        None => {
                            proof {
                                lemma_fold_none(empty_fetch(), fs, i as int + 1, fetch_stepper());
                            }
                            return None;
                        },
                        Some(s) => {
                            let ghost before = acc.namespaces@;
                            acc.namespaces.push(s);
                            proof {
                                assert(strings_view(acc.namespaces@) =~= strings_view(before).push(
                                    s@,
                                ));
                            }
                        },
                    }
                }
            },
            FieldValue::Varint(x) => {
                if f.num == 2 {
                    acc.limit = u32_of(*x);
                }
            },
            _ => {},
        }
        i = i + 1;
    }
    proof {
        lemma_fold_all(empty_fetch(), fs, fetch_stepper());
    }
    Some(acc)
}

/// Reads an acknowledgement.
pub fn read_ack(b: &[u8]) -> (r: Option<AckEventPayload>)
    ensures
        match r {
            Some(x) => decode_ack(b@) == Some(x@),
            None => decode_ack(b@) is None,
        },
{
    let fields = match read_fields(b) {
        Some(v) => v,
        None => return None,
    };
    let ghost fs = fields_view(fields@);
    let mut acc = AckEventPayload { namespace: String::new(), event_id: String::new() };
    proof {
        lemma_fold_start(empty_ack(), fs, ack_stepper());
        
    }
    let mut i: usize = 0;
    while i < fields.len()
        invariant
            i <= fields@.len(),
            fs == fields_view(fields@),
            parse_fields(b@) == Some(fs),
            fold_fields(empty_ack(), fs.take(i as int), ack_stepper()) == Some(acc@),
        decreases fields@.len() - i,
    {
        let f = &fields[i];
        proof {
            lemma_fold_take(empty_ack(), fs, i as int, ack_stepper());
            assert(fs[i as int] == f@);
        }
        match &f.val {
            FieldValue::Bytes(bytes) => {
                if f.num == 1 || f.num == 2 {
                    match text_from(bytes) {
                        None => {
                            proof {
                                lemma_fold_none(empty_ack(), fs, i as int + 1, ack_stepper());
                            }
                            return None;
                        },
                        Some(s) => {
                            if f.num == 1 {
                                acc.namespace = s;
                            } else {
                                acc.event_id = s;
                            }
                        },
                    }
                }
            },
            _ => {},
        }
        i = i + 1;
    }
    proof {
        lemma_fold_all(empty_ack(), fs, ack_stepper());
    }
    Some(acc)
}

/// Reads the payload that field `num` of a frame carries.
fn read_payload(num: u64, b: &[u8]) -> (r: Option<Payload>)
    requires
        10 <= num <= 16,
    ensures
        match r {
            Some(p) => decode_payload(num, b@) == Some(p@),
            None => decode_payload(num, b@) is None,
        },
{
    if num == 10 {
        match read_ping(b) {
            Some(x) => Some(Payload::Ping(x)),
            None => None,
        }
    } else if num == 11 {
        match read_pong(b) {
            Some(x) => Some(Payload::Pong(x)),
            None => None,
        }
    } else if num == 12 {
        match read_auth(b) {
            Some(x) => Some(Payload::Auth(x)),
            None => None,
        }
    } else if num == 13 {
        match read_event(b) {
            Some(x) => Some(Payload::Event(x)),
            None => None,
        }
    } else if num == 14 {
        match read_batch(b) {
            Some(x) => Some(Payload::EventsBatch(x)),
            None => None,
        }
    } else if num == 15 {
        match read_fetch(b) {
            Some(x) => Some(Payload::FetchEvents(x)),
            None => None,
        }
    } else {
        match read_ack(b) {
            Some(x) => Some(Payload::AckEvent(x)),
            None => None,
        }
    }
}

impl Frame {
    /// Reads a frame from its encoded body (no length prefix).  `None` when
    /// the bytes are not a well-formed frame.
    pub fn decode(b: &[u8]) -> (r: Option<Frame>)
        ensures
            match r {
                Some(f) => decode_frame(b@) == Some(f@),
                None => decode_frame(b@) is None,
            },
    {
        let fields = match read_fields(b) {
            Some(v) => v,
            None => return None,
        };
        let ghost fs = fields_view(fields@);
        let mut acc = Frame { version: 0, stream_id: 0, kind: 0, payload: None };
        proof {
            lemma_fold_start(empty_frame(), fs, frame_stepper());
        }
        let mut i: usize = 0;
        while i < fields.len()
            invariant
                i <= fields@.len(),
                fs == fields_view(fields@),
                parse_fields(b@) == Some(fs),
            parse_fields(b@) == Some(fs),
                fold_fields(empty_frame(), fs.take(i as int), frame_stepper()) == Some(acc@),
            decreases fields@.len() - i,
        {
            let f = &fields[i];
            proof {
                lemma_fold_take(empty_frame(), fs, i as int, frame_stepper());
                assert(fs[i as int] == f@);
            }
            match &f.val {
                FieldValue::Varint(x) => {
                    if f.num == 1 {
                        acc.version = u32_of(*x);
                    } else if f.num == 2 {
                        acc.stream_id = u32_of(*x);
                    } else if f.num == 3 {
                        acc.kind = i32_of(*x);
                    }
                },
                FieldValue::Bytes(bytes) => {
                    if 10 <= f.num && f.num <= 16 {
                        match read_payload(f.num, bytes.as_slice()) {
                            None => {
                                proof {
                                    lemma_fold_none(empty_frame(), fs, i as int + 1, frame_stepper());
                                }
                                return None;
                            },
                            Some(p) => {
                                acc.payload = Some(p);
                            },
                        }
                    }
                },
                _ => {},
            }
            i = i + 1;
        }
        proof {
            lemma_fold_all(empty_frame(), fs, frame_stepper());
        }
        Some(acc)
    }
}

} // verus!
