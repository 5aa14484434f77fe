//! Writing messages and frames in their wire form.
use vstd::prelude::*;
use crate::frame::{
    ack_fields, auth_fields, batch_fields, delimited_bytes, entry_bytes, event_bytes,
    event_head_fields, events_view, fetch_fields, frame_bytes, frame_head_fields, payload_bytes,
    payload_num, ping_fields, pong_fields, push_bytes, push_each, push_str, push_u64,
    signed_bits, strings_view, utf8_each, AckEventPayload, AuthPayload, EventPayload, EventView,
    EventsBatchPayload, FetchEventsPayload, Frame, Payload, PingPayload, PongPayload,
};
use crate::wire::{
    encode_field, encode_fields, lemma_encode_fields_push, put_varint, varint, WireField,
    WireValue,
};

verus! {

/// Appends the bytes of `b` to `out`.
fn append_bytes(out: &mut Vec<u8>, b: &[u8])
    ensures
        final(out)@ == old(out)@ + b@,
{
    let ghost start = out@;
    let mut i: usize = 0;
    while i < b.len()
        invariant
            i <= b@.len(),
            out@ == start + b@.take(i as int),
        decreases b@.len() - i,
    {
        out.push(b[i]);
        proof {
            assert(b@.take(i as int).push(b@[i as int]) =~= b@.take(i as int + 1));
        }
        i = i + 1;
    }
    proof {
        assert(b@.take(b@.len() as int) =~= b@);
    }
}

/// Appends one field to an encoding under way.
proof fn lemma_append_field(base: Seq<u8>, fs: Seq<WireField>, f: WireField, tail: Seq<u8>)
    requires
        tail == encode_field(f),
    ensures
        base + encode_fields(fs) + tail == base + encode_fields(fs.push(f)),
{
    lemma_encode_fields_push(fs, f);
    assert(base + encode_fields(fs) + tail =~= base + (encode_fields(fs) + tail));
}

/// Writes field `n` as a varint, unless `v` is zero.
fn put_u64_field(
    n: u64,
    v: u64,
    out: &mut Vec<u8>,
    Ghost(base): Ghost<Seq<u8>>,
    Ghost(fs): Ghost<Seq<WireField>>,
)
    requires
        1 <= n <= 16,
        old(out)@ == base + encode_fields(fs),
    ensures
        final(out)@ == base + encode_fields(push_u64(fs, n, v)),
{
    if v != 0 {
        let ghost f = WireField { num: n, val: WireValue::Varint(v) };
        let ghost before = out@;
        put_varint(n * 8, out);
        put_varint(v, out);
        proof {
            assert(out@ =~= before + (varint((n * 8) as u64) + varint(v)));
            lemma_append_field(base, fs, f, varint((n * 8) as u64) + varint(v));
        }
    }
}

/// Writes field `n` with the bytes of `b`, empty or not.
fn put_len_field(
    n: u64,
    b: &[u8],
    out: &mut Vec<u8>,
    Ghost(base): Ghost<Seq<u8>>,
    Ghost(fs): Ghost<Seq<WireField>>,
)
    requires
        1 <= n <= 16,
        old(out)@ == base + encode_fields(fs),
    ensures
        final(out)@ == base + encode_fields(
            fs.push(WireField { num: n, val: WireValue::Bytes(b@) }),
        ),
{
    let ghost f = WireField { num: n, val: WireValue::Bytes(b@) };
    let ghost before = out@;
    put_varint(n * 8 + 2, out);
    put_varint(b.len() as u64, out);
    append_bytes(out, b);
    proof {
        let tail = varint((n * 8 + 2) as u64) + (varint(b@.len() as u64) + b@);
        assert(out@ =~= before + tail);
        lemma_append_field(base, fs, f, tail);
    }
}

/// Writes field `n` with the bytes of `b`, unless `b` is empty.
fn put_bytes_field(
    n: u64,
    b: &[u8],
    out: &mut Vec<u8>,
    Ghost(base): Ghost<Seq<u8>>,
    Ghost(fs): Ghost<Seq<WireField>>,
)
    requires
        1 <= n <= 16,
        old(out)@ == base + encode_fields(fs),
    ensures
        final(out)@ == base + encode_fields(push_bytes(fs, n, b@)),
{
    if b.len() != 0 {
        put_len_field(n, b, out, Ghost(base), Ghost(fs));
    }
}

/// Writes field `n` with the UTF-8 bytes of `s`, unless `s` is empty.
fn put_str_field(
    n: u64,
    s: &String,
    out: &mut Vec<u8>,
    Ghost(base): Ghost<Seq<u8>>,
    Ghost(fs): Ghost<Seq<WireField>>,
)
    requires
        1 <= n <= 16,
        old(out)@ == base + encode_fields(fs),
    ensures
        final(out)@ == base + encode_fields(push_str(fs, n, s@)),
{
    let b = s.as_str().as_bytes();
    put_bytes_field(n, b, out, Ghost(base), Ghost(fs));
}

proof fn lemma_push_each_step(fs: Seq<WireField>, n: u64, items: Seq<Seq<u8>>, i: int)
    requires
        0 <= i < items.len(),
    ensures
        push_each(fs, n, items.take(i + 1)) == push_each(fs, n, items.take(i)).push(
            WireField { num: n, val: WireValue::Bytes(items[i]) },
        ),
{
    assert(items.take(i + 1).drop_last() =~= items.take(i));
}

/// Writes field `n` once for each string, in order.
fn put_str_fields(
    n: u64,
    ss: &Vec<String>,
    out: &mut Vec<u8>,
    Ghost(base): Ghost<Seq<u8>>,
    Ghost(fs): Ghost<Seq<WireField>>,
)
    requires
        1 <= n <= 16,
        old(out)@ == base + encode_fields(fs),
    ensures
        final(out)@ == base + encode_fields(push_each(fs, n, utf8_each(strings_view(ss@)))),
{
    let ghost items = utf8_each(strings_view(ss@));
    let mut i: usize = 0;
    proof {
        assert(items.take(0) =~= Seq::<Seq<u8>>::empty());
    }
    while i < ss.len()
        invariant
            1 <= n <= 16,
            i <= ss@.len(),
            items == utf8_each(strings_view(ss@)),
            out@ == base + encode_fields(push_each(fs, n, items.take(i as int))),
        decreases ss@.len() - i,
    {
        let b = ss[i].as_str().as_bytes();
        proof {
            lemma_push_each_step(fs, n, items, i as int);
            assert(b@ == items[i as int]);
        }
        put_len_field(n, b, out, Ghost(base), Ghost(push_each(fs, n, items.take(i as int))));
        i = i + 1;
    }
    proof {
        assert(items.take(ss@.len() as int) =~= items);
    }
}

proof fn lemma_empty_fields(base: Seq<u8>)
    ensures
        base == base + encode_fields(Seq::<WireField>::empty()),
{
    assert(base =~= base + encode_fields(Seq::<WireField>::empty()));
}

/// Writes a ping message.
pub fn write_ping(p: &PingPayload, out: &mut Vec<u8>)
    ensures
        final(out)@ == old(out)@ + encode_fields(ping_fields(*p)),
{
    let ghost base = out@;
    proof {
        lemma_empty_fields(base);
    }
    put_u64_field(1, p.timestamp_ms, out, Ghost(base), Ghost(Seq::empty()));
    put_u64_field(2, p.seq, out, Ghost(base), Ghost(push_u64(Seq::empty(), 1, p.timestamp_ms)));
}

/// Writes a pong message.
pub fn write_pong(p: &PongPayload, out: &mut Vec<u8>)
    ensures
        final(out)@ == old(out)@ + encode_fields(pong_fields(*p)),
{
    let ghost base = out@;
    proof {
        lemma_empty_fields(base);
    }
    let ghost f1 = push_u64(Seq::empty(), 1, p.echo_timestamp_ms);
    let ghost f2 = push_u64(f1, 2, p.server_time_ms);
    put_u64_field(1, p.echo_timestamp_ms, out, Ghost(base), Ghost(Seq::empty()));
    put_u64_field(2, p.server_time_ms, out, Ghost(base), Ghost(f1));
    put_u64_field(3, p.seq, out, Ghost(base), Ghost(f2));
}

/// Writes an auth message.
pub fn write_auth(a: &AuthPayload, out: &mut Vec<u8>)
    ensures
        final(out)@ == old(out)@ + encode_fields(auth_fields(a@)),
{
    let ghost base = out@;
    proof {
        lemma_empty_fields(base);
    }
    let ghost f1 = push_str(Seq::empty(), 1, a.client_id@);
    let ghost f2 = push_str(f1, 2, a.token@);
    put_str_field(1, &a.client_id, out, Ghost(base), Ghost(Seq::empty()));
    put_str_field(2, &a.token, out, Ghost(base), Ghost(f1));
    put_str_fields(3, &a.namespaces, out, Ghost(base), Ghost(f2));
}

/// Writes one metadata entry as a map entry message.
fn write_entry(k: &String, v: &String, out: &mut Vec<u8>)
    ensures
        final(out)@ == old(out)@ + entry_bytes((k@, v@)),
{
    let ghost base = out@;
    proof {
        lemma_empty_fields(base);
    }
    put_str_field(1, k, out, Ghost(base), Ghost(Seq::empty()));
    put_str_field(2, v, out, Ghost(base), Ghost(push_str(Seq::empty(), 1, k@)));
}

/// The bit pattern protobuf writes for a signed 64-bit value.
pub fn signed_bits_of(v: i64) -> (r: u64)
    ensures
        r == signed_bits(v as int),
{
    if v >= 0 {
        v as u64
    } else {
        let m: i64 = -(v + 1);
        u64::MAX - (m as u64)
    }
}

/// Writes an event message.
pub fn write_event(e: &EventPayload, out: &mut Vec<u8>)
    ensures
        final(out)@ == old(out)@ + event_bytes(e@),
{
    let ghost base = out@;
    let ghost ev = e@;
    proof {
        lemma_empty_fields(base);
    }
    let ghost f1 = push_str(Seq::empty(), 1, ev.id);
    let ghost f2 = push_str(f1, 2, ev.namespace);
    let ghost f3 = push_str(f2, 3, ev.event_type);
    let ghost f4 = push_str(f3, 4, ev.message);
    let ghost f5 = push_bytes(f4, 5, ev.data);
    put_str_field(1, &e.id, out, Ghost(base), Ghost(Seq::empty()));
    put_str_field(2, &e.namespace, out, Ghost(base), Ghost(f1));
    put_str_field(3, &e.event_type, out, Ghost(base), Ghost(f2));
    put_str_field(4, &e.message, out, Ghost(base), Ghost(f3));
    put_bytes_field(5, e.data.as_slice(), out, Ghost(base), Ghost(f4));
    let bits = signed_bits_of(e.timestamp);
    put_u64_field(6, bits, out, Ghost(base), Ghost(f5));
    let ghost head = event_head_fields(ev);
    let ghost items = ev.metadata.map_values(|kv: (Seq<char>, Seq<char>)| entry_bytes(kv));
    assert(out@ == base + encode_fields(push_each(head, 7, items.take(0)))) by {
        assert(items.take(0) =~= Seq::<Seq<u8>>::empty());
    }
    let mut i: usize = 0;
    while i < e.metadata.len()
        invariant
            i <= e.metadata@.len(),
            ev == e@,
            head == event_head_fields(ev),
            items == ev.metadata.map_values(|kv: (Seq<char>, Seq<char>)| entry_bytes(kv)),
            out@ == base + encode_fields(push_each(head, 7, items.take(i as int))),
        decreases e.metadata@.len() - i,
    {
        let mut entry: Vec<u8> = Vec::new();
        write_entry(&e.metadata[i].0, &e.metadata[i].1, &mut entry);
        proof {
            lemma_push_each_step(head, 7, items, i as int);
            assert(entry@ =~= items[i as int]);
        }
        put_len_field(7, entry.as_slice(), out, Ghost(base), Ghost(push_each(head, 7, items.take(i as int))));
        i = i + 1;
    }
    proof {
        assert(items.take(e.metadata@.len() as int) =~= items);
    }
}

/// Writes a batch of events.
pub fn write_batch(b: &EventsBatchPayload, out: &mut Vec<u8>)
    ensures
        final(out)@ == old(out)@ + encode_fields(batch_fields(b@)),
{
    let ghost base = out@;
    let ghost items = b@.map_values(|e: EventView| event_bytes(e));
    proof {
        lemma_empty_fields(base);
        assert(items.take(0) =~= Seq::<Seq<u8>>::empty());
    }
    let mut i: usize = 0;
    while i < b.events.len()
        invariant
            i <= b.events@.len(),
            items == b@.map_values(|e: EventView| event_bytes(e)),
            b@ == events_view(b.events@),
            out@ == base + encode_fields(push_each(Seq::empty(), 1, items.take(i as int))),
        decreases b.events@.len() - i,
    {
        let mut body: Vec<u8> = Vec::new();
        write_event(&b.events[i], &mut body);
        proof {
            lemma_push_each_step(Seq::empty(), 1, items, i as int);
            assert(body@ =~= items[i as int]);
        }
        put_len_field(1, body.as_slice(), out, Ghost(base), Ghost(push_each(Seq::empty(), 1, items.take(i as int))));
        i = i + 1;
    }
    proof {
        assert(items.take(b.events@.len() as int) =~= items);
    }
}

/// Writes a fetch request.
pub fn write_fetch(f: &FetchEventsPayload, out: &mut Vec<u8>)
    ensures
        final(out)@ == old(out)@ + encode_fields(fetch_fields(f@)),
{
    let ghost base = out@;
    proof {
        lemma_empty_fields(base);
    }
    put_str_fields(1, &f.namespaces, out, Ghost(base), Ghost(Seq::empty()));
    put_u64_field(2, f.limit as u64, out, Ghost(base), Ghost(push_each(Seq::empty(), 1, utf8_each(f@.namespaces))));
}

/// Writes an acknowledgement of one event.
pub fn write_ack(a: &AckEventPayload, out: &mut Vec<u8>)
    ensures
        final(out)@ == old(out)@ + encode_fields(ack_fields(a@)),
{
    let ghost base = out@;
    proof {
        lemma_empty_fields(base);
    }
    put_str_field(1, &a.namespace, out, Ghost(base), Ghost(Seq::empty()));
    put_str_field(2, &a.event_id, out, Ghost(base), Ghost(push_str(Seq::empty(), 1, a.namespace@)));
}

/// Writes the message a payload holds, and gives its field number in the frame.
pub fn write_payload(p: &Payload, out: &mut Vec<u8>) -> (n: u64)
    ensures
        final(out)@ == old(out)@ + payload_bytes(p@),
        n == payload_num(p@),
{
    match p {
        Payload::Ping(x) => {
            write_ping(x, out);
            10
        },
        Payload::Pong(x) => {
            write_pong(x, out);
            11
        },
        Payload::Auth(x) => {
            write_auth(x, out);
            12
        },
        Payload::Event(x) => {
            write_event(x, out);
            13
        },
        Payload::EventsBatch(x) => {
            write_batch(x, out);
            14
        },
        Payload::FetchEvents(x) => {
            write_fetch(x, out);
            15
        },
        Payload::AckEvent(x) => {
            write_ack(x, out);
            16
        },
    }
}

/// The bit pattern protobuf writes for a signed 32-bit value.
pub fn signed_bits_of_i32(v: i32) -> (r: u64)
    ensures
        r == signed_bits(v as int),
{
    signed_bits_of(v as i64)
}

impl Frame {
    /// The frame's encoded body, without a length prefix.
    pub fn encode(&self) -> (r: Vec<u8>)
        ensures
            r@ == frame_bytes(self@),
    {
        let mut out: Vec<u8> = Vec::new();
        let ghost base = out@;
        proof {
            lemma_empty_fields(base);
        }
        let ghost f1 = push_u64(Seq::empty(), 1, self.version as u64);
        let ghost f2 = push_u64(f1, 2, self.stream_id as u64);
        put_u64_field(1, self.version as u64, &mut out, Ghost(base), Ghost(Seq::empty()));
        put_u64_field(2, self.stream_id as u64, &mut out, Ghost(base), Ghost(f1));
        let bits = signed_bits_of_i32(self.kind);
        put_u64_field(3, bits, &mut out, Ghost(base), Ghost(f2));
        match &self.payload {
            None => {},
            Some(p) => {
                let mut body: Vec<u8> = Vec::new();
                let n = write_payload(p, &mut body);
                put_len_field(n, body.as_slice(), &mut out, Ghost(base), Ghost(frame_head_fields(self@)));
            },
        }
        proof {
            assert(base + frame_bytes(self@) =~= frame_bytes(self@));
        }
        out
    }

    /// The frame as it goes on a stream: the body's length as a varint, then
    /// the body.
    pub fn encode_len_delimited(&self) -> (r: Vec<u8>)
        ensures
            r@ == delimited_bytes(self@),
            r@ == varint(frame_bytes(self@).len() as u64) + frame_bytes(self@),
    {
        let body = self.encode();
        let mut out: Vec<u8> = Vec::new();
        put_varint(body.len() as u64, &mut out);
        append_bytes(&mut out, body.as_slice());
        proof {
            assert(out@ =~= varint(body@.len() as u64) + body@);
        }
        out
    }
}

} // verus!
