//! Decoding what was encoded gives back the same message, for every message
//! of the protocol.
use vstd::prelude::*;
use vstd::utf8::{encode_utf8, encode_utf8_decode_utf8, encode_utf8_valid_utf8};
use crate::decode::{
    ack_stepper, auth_stepper, batch_stepper, decode_ack, decode_auth, decode_batch,
    decode_entry, decode_event, decode_fetch, decode_frame, decode_payload, decode_ping,
    decode_pong, empty_ack, empty_auth, empty_event, empty_fetch, empty_frame, empty_ping,
    empty_pong, entry_stepper, event_stepper, fetch_stepper, fold_fields, frame_stepper,
    lemma_fold_push, meta_put, ping_stepper, pong_stepper, signed_32, signed_64, text_of,
};
use crate::frame::{
    ack_fields, auth_fields, batch_fields, entry_bytes, entry_fields, event_bytes, event_fields,
    event_head_fields, event_wf, fetch_fields, frame_bytes, frame_fields, frame_head_fields,
    frame_wf, keys_unique, payload_bytes, payload_num, payload_wf, ping_fields, pong_fields,
    push_bytes, push_each, push_str, push_u64, signed_bits, utf8_each, AckView, AuthView,
    EventView, FetchView, FrameView, PayloadView, PingPayload, PongPayload,
};
use crate::wire::{
    encode_fields, field_num_ok, fields_shape, lemma_bytes_within, lemma_decode_encoded,
    WireField, WireValue,
};

verus! {

broadcast use {encode_utf8_decode_utf8, encode_utf8_valid_utf8};

proof fn lemma_text_round_trip(s: Seq<char>)
    ensures
        text_of(encode_utf8(s)) == Some(s),
{
}

proof fn lemma_fold_push_u64<A>(
    acc: A,
    fs: Seq<WireField>,
    n: u64,
    v: u64,
    step: spec_fn(A, WireField) -> Option<A>,
)
    ensures
        fold_fields(acc, push_u64(fs, n, v), step) == if v == 0 {
            fold_fields(acc, fs, step)
        } else {
            match fold_fields(acc, fs, step) {
                Some(a) => step(a, WireField { num: n, val: WireValue::Varint(v) }),
                None => None,
            }
        },
{
    if v != 0 {
        lemma_fold_push(acc, fs, WireField { num: n, val: WireValue::Varint(v) }, step);
    }
}

proof fn lemma_fold_push_bytes<A>(
    acc: A,
    fs: Seq<WireField>,
    n: u64,
    b: Seq<u8>,
    step: spec_fn(A, WireField) -> Option<A>,
)
    ensures
        fold_fields(acc, push_bytes(fs, n, b), step) == if b.len() == 0 {
            fold_fields(acc, fs, step)
        } else {
            match fold_fields(acc, fs, step) {
                Some(a) => step(a, WireField { num: n, val: WireValue::Bytes(b) }),
                None => None,
            }
        },
{
    if b.len() != 0 {
        lemma_fold_push(acc, fs, WireField { num: n, val: WireValue::Bytes(b) }, step);
    }
}

proof fn lemma_fold_push_str<A>(
    acc: A,
    fs: Seq<WireField>,
    n: u64,
    s: Seq<char>,
    step: spec_fn(A, WireField) -> Option<A>,
)
    ensures
        fold_fields(acc, push_str(fs, n, s), step) == if s.len() == 0 {
            fold_fields(acc, fs, step)
        } else {
            match fold_fields(acc, fs, step) {
                Some(a) => step(a, WireField { num: n, val: WireValue::Bytes(encode_utf8(s)) }),
                None => None,
            }
        },
{
    lemma_fold_push_bytes(acc, fs, n, encode_utf8(s), step);
    if s.len() != 0 {
        assert(encode_utf8(s).len() != 0) by {
            assert(encode_utf8(s) =~= encode_utf8(seq![s[0]]) + encode_utf8(s.drop_first()))
                by {
                reveal_with_fuel(encode_utf8, 2);
            }
        }
    } else {
        assert(encode_utf8(s) =~= Seq::<u8>::empty());
    }
}

/// The shape, length and places of the fields [`push_each`] adds.
proof fn lemma_push_each(fs: Seq<WireField>, n: u64, items: Seq<Seq<u8>>)
    requires
        fields_shape(fs),
        field_num_ok(n),
    ensures
        fields_shape(push_each(fs, n, items)),
        push_each(fs, n, items).len() == fs.len() + items.len(),
        forall|j: int|
            0 <= j < items.len() ==> #[trigger] push_each(fs, n, items)[fs.len() + j]
                == (WireField { num: n, val: WireValue::Bytes(items[j]) }),
    decreases items.len(),
{
    if items.len() > 0 {
        lemma_push_each(fs, n, items.drop_last());
        let p = push_each(fs, n, items.drop_last());
        let q = push_each(fs, n, items);
        assert(q == p.push(WireField { num: n, val: WireValue::Bytes(items.last()) }));
        assert forall|j: int| 0 <= j < items.len() implies #[trigger] q[fs.len() + j]
            == WireField { num: n, val: WireValue::Bytes(items[j]) } by {
            if j < items.len() - 1 {
                assert(q[fs.len() + j] == p[fs.len() + j]);
                assert(items.drop_last()[j] == items[j]);
            }
        }
    }
}

proof fn lemma_shape_push(fs: Seq<WireField>, f: WireField)
    requires
        fields_shape(fs),
        field_num_ok(f.num),
        f.val is Varint || f.val is Bytes,
    ensures
        fields_shape(fs.push(f)),
{
    assert forall|i: int| 0 <= i < fs.push(f).len() implies field_num_ok(
        #[trigger] fs.push(f)[i].num,
    ) && (fs.push(f)[i].val is Varint || fs.push(f)[i].val is Bytes) by {
        if i < fs.len() {
            assert(fs.push(f)[i] == fs[i]);
        }
    }
}

proof fn lemma_shape_u64(fs: Seq<WireField>, n: u64, v: u64)
    requires
        fields_shape(fs),
        field_num_ok(n),
    ensures
        fields_shape(push_u64(fs, n, v)),
{
    if v != 0 {
        lemma_shape_push(fs, WireField { num: n, val: WireValue::Varint(v) });
    }
}

proof fn lemma_shape_bytes(fs: Seq<WireField>, n: u64, b: Seq<u8>)
    requires
        fields_shape(fs),
        field_num_ok(n),
    ensures
        fields_shape(push_bytes(fs, n, b)),
{
    if b.len() != 0 {
        lemma_shape_push(fs, WireField { num: n, val: WireValue::Bytes(b) });
    }
}

proof fn lemma_shape_empty()
    ensures
        fields_shape(Seq::<WireField>::empty()),
{
}

pub proof fn lemma_ping_round_trip(p: PingPayload)
    requires
        encode_fields(ping_fields(p)).len() <= u64::MAX,
    ensures
        decode_ping(encode_fields(ping_fields(p))) == Some(p),
{
    let f1 = push_u64(Seq::empty(), 1, p.timestamp_ms);
    lemma_shape_empty();
    lemma_shape_u64(Seq::empty(), 1, p.timestamp_ms);
    lemma_shape_u64(f1, 2, p.seq);
    lemma_decode_encoded(ping_fields(p));
    lemma_fold_push_u64(empty_ping(), Seq::empty(), 1, p.timestamp_ms, ping_stepper());
    lemma_fold_push_u64(empty_ping(), f1, 2, p.seq, ping_stepper());
}

pub proof fn lemma_pong_round_trip(p: PongPayload)
    requires
        encode_fields(pong_fields(p)).len() <= u64::MAX,
    ensures
        decode_pong(encode_fields(pong_fields(p))) == Some(p),
{
    let f1 = push_u64(Seq::empty(), 1, p.echo_timestamp_ms);
    let f2 = push_u64(f1, 2, p.server_time_ms);
    lemma_shape_empty();
    lemma_shape_u64(Seq::empty(), 1, p.echo_timestamp_ms);
    lemma_shape_u64(f1, 2, p.server_time_ms);
    lemma_shape_u64(f2, 3, p.seq);
    lemma_decode_encoded(pong_fields(p));
    lemma_fold_push_u64(empty_pong(), Seq::empty(), 1, p.echo_timestamp_ms, pong_stepper());
    lemma_fold_push_u64(empty_pong(), f1, 2, p.server_time_ms, pong_stepper());
    lemma_fold_push_u64(empty_pong(), f2, 3, p.seq, pong_stepper());
}

proof fn lemma_utf8_each_drop_last(ss: Seq<Seq<char>>)
    requires
        ss.len() > 0,
    ensures
        utf8_each(ss).drop_last() == utf8_each(ss.drop_last()),
        utf8_each(ss).last() == encode_utf8(ss.last()),
{
    assert(utf8_each(ss).drop_last() =~= utf8_each(ss.drop_last()));
}

proof fn lemma_auth_names(fs: Seq<WireField>, acc: AuthView, ss: Seq<Seq<char>>)
    requires
        fold_fields(empty_auth(), fs, auth_stepper()) == Some(acc),
    ensures
        fold_fields(empty_auth(), push_each(fs, 3, utf8_each(ss)), auth_stepper()) == Some(
            AuthView { namespaces: acc.namespaces + ss, ..acc },
        ),
    decreases ss.len(),
{
    if ss.len() == 0 {
        assert(acc.namespaces + ss =~= acc.namespaces);
    } else {
        lemma_utf8_each_drop_last(ss);
        lemma_auth_names(fs, acc, ss.drop_last());
        let items = utf8_each(ss);
        lemma_fold_push(
            empty_auth(),
            push_each(fs, 3, items.drop_last()),
            WireField { num: 3, val: WireValue::Bytes(items.last()) },
            auth_stepper(),
        );
        lemma_text_round_trip(ss.last());
        assert((acc.namespaces + ss.drop_last()).push(ss.last()) =~= acc.namespaces + ss);
    }
}

pub proof fn lemma_auth_round_trip(a: AuthView)
    requires
        encode_fields(auth_fields(a)).len() <= u64::MAX,
    ensures
        decode_auth(encode_fields(auth_fields(a))) == Some(a),
{
    let f1 = push_str(Seq::empty(), 1, a.client_id);
    let f2 = push_str(f1, 2, a.token);
    lemma_shape_empty();
    lemma_shape_bytes(Seq::empty(), 1, encode_utf8(a.client_id));
    lemma_shape_bytes(f1, 2, encode_utf8(a.token));
    lemma_push_each(f2, 3, utf8_each(a.namespaces));
    lemma_decode_encoded(auth_fields(a));
    lemma_fold_push_str(empty_auth(), Seq::empty(), 1, a.client_id, auth_stepper());
    lemma_text_round_trip(a.client_id);
    lemma_fold_push_str(empty_auth(), f1, 2, a.token, auth_stepper());
    lemma_text_round_trip(a.token);
    let acc = AuthView { client_id: a.client_id, token: a.token, namespaces: Seq::empty() };
    assert(fold_fields(empty_auth(), f2, auth_stepper()) == Some(acc));
    lemma_auth_names(f2, acc, a.namespaces);
    assert(Seq::<Seq<char>>::empty() + a.namespaces =~= a.namespaces);
}

pub proof fn lemma_entry_round_trip(kv: (Seq<char>, Seq<char>))
    requires
        entry_bytes(kv).len() <= u64::MAX,
    ensures
        decode_entry(entry_bytes(kv)) == Some(kv),
{
    let start = (Seq::<char>::empty(), Seq::<char>::empty());
    let f1 = push_str(Seq::empty(), 1, kv.0);
    lemma_shape_empty();
    lemma_shape_bytes(Seq::empty(), 1, encode_utf8(kv.0));
    lemma_shape_bytes(f1, 2, encode_utf8(kv.1));
    lemma_decode_encoded(entry_fields(kv));
    lemma_fold_push_str(start, Seq::empty(), 1, kv.0, entry_stepper());
    lemma_text_round_trip(kv.0);
    lemma_fold_push_str(start, f1, 2, kv.1, entry_stepper());
    lemma_text_round_trip(kv.1);
}

pub proof fn lemma_signed_64(t: i64)
    ensures
        signed_64(signed_bits(t as int)) == t,
        signed_bits(t as int) == 0 <==> t == 0,
{
}

pub proof fn lemma_signed_32(k: i32)
    ensures
        signed_32(signed_bits(k as int)) == k,
        signed_bits(k as int) == 0 <==> k == 0,
{
    if k < 0 {
        let x = k as int + 0x1_0000_0000_0000_0000;
        assert(x % 0x1_0000_0000 == k as int + 0x1_0000_0000) by {
            assert(x == (k as int + 0x1_0000_0000) + 0x1_0000_0000 * 0xFFFF_FFFF);
        }
    }
}

proof fn lemma_meta_put_new(m: Seq<(Seq<char>, Seq<char>)>, k: Seq<char>, v: Seq<char>)
    requires
        forall|i: int| 0 <= i < m.len() ==> m[i].0 != k,
    ensures
        meta_put(m, k, v) == m.push((k, v)),
{
}

/// Applying the metadata entries of an event with unique keys, in order,
/// rebuilds its metadata.
proof fn lemma_event_entries(
    fs: Seq<WireField>,
    acc: EventView,
    md: Seq<(Seq<char>, Seq<char>)>,
    whole: Seq<(Seq<char>, Seq<char>)>,
)
    requires
        fold_fields(empty_event(), fs, event_stepper()) == Some(acc),
        acc.metadata.len() == 0,
        md.len() <= whole.len(),
        md == whole.take(md.len() as int),
        keys_unique(whole),
        forall|i: int| 0 <= i < whole.len() ==> decode_entry(#[trigger] entry_bytes(whole[i])) == Some(whole[i]),
    ensures
        fold_fields(
            empty_event(),
            push_each(fs, 7, md.map_values(|kv: (Seq<char>, Seq<char>)| entry_bytes(kv))),
            event_stepper(),
        ) == Some(EventView { metadata: md, ..acc }),
    decreases md.len(),
{
    let items = md.map_values(|kv: (Seq<char>, Seq<char>)| entry_bytes(kv));
    if md.len() == 0 {
        assert(md =~= acc.metadata);
    } else {
        let prev = md.drop_last();
        assert(items.drop_last() =~= prev.map_values(|kv: (Seq<char>, Seq<char>)| entry_bytes(kv)));
        assert(prev == whole.take(prev.len() as int));
        lemma_event_entries(fs, acc, prev, whole);
        let last = md.last();
        assert(last == whole[md.len() - 1]);
        lemma_fold_push(
            empty_event(),
            push_each(fs, 7, items.drop_last()),
            WireField { num: 7, val: WireValue::Bytes(items.last()) },
            event_stepper(),
        );
        assert(decode_entry(entry_bytes(whole[md.len() - 1])) == Some(last));
        assert forall|i: int| 0 <= i < prev.len() implies prev[i].0 != last.0 by {
            assert(prev[i] == whole[i]);
        }
        lemma_meta_put_new(prev, last.0, last.1);
        assert(prev.push((last.0, last.1)) =~= md);
    }
}

/// The places of the metadata entries among an event's fields.
proof fn lemma_event_shape(e: EventView)
    ensures
        fields_shape(event_fields(e)),
        forall|i: int|
            0 <= i < e.metadata.len() ==> #[trigger] event_fields(e)[event_head_fields(e).len()
                + i] == (WireField { num: 7, val: WireValue::Bytes(entry_bytes(e.metadata[i])) }),
        event_fields(e).len() == event_head_fields(e).len() + e.metadata.len(),
{
    let f1 = push_str(Seq::empty(), 1, e.id);
    let f2 = push_str(f1, 2, e.namespace);
    let f3 = push_str(f2, 3, e.event_type);
    let f4 = push_str(f3, 4, e.message);
    let f5 = push_bytes(f4, 5, e.data);
    lemma_shape_empty();
    lemma_shape_bytes(Seq::empty(), 1, encode_utf8(e.id));
    lemma_shape_bytes(f1, 2, encode_utf8(e.namespace));
    lemma_shape_bytes(f2, 3, encode_utf8(e.event_type));
    lemma_shape_bytes(f3, 4, encode_utf8(e.message));
    lemma_shape_bytes(f4, 5, e.data);
    lemma_shape_u64(f5, 6, signed_bits(e.timestamp as int));
    let items = e.metadata.map_values(|kv: (Seq<char>, Seq<char>)| entry_bytes(kv));
    lemma_push_each(event_head_fields(e), 7, items);
}

pub proof fn lemma_event_round_trip(e: EventView)
    requires
        event_wf(e),
        event_bytes(e).len() <= u64::MAX,
    ensures
        decode_event(event_bytes(e)) == Some(e),
{
    lemma_event_shape(e);
    lemma_decode_encoded(event_fields(e));
    let head = event_head_fields(e);
    assert forall|i: int| 0 <= i < e.metadata.len() implies decode_entry(
        #[trigger] entry_bytes(e.metadata[i]),
    ) == Some(e.metadata[i]) by {
        lemma_bytes_within(event_fields(e), head.len() + i);
        lemma_entry_round_trip(e.metadata[i]);
    }
    let f1 = push_str(Seq::empty(), 1, e.id);
    let f2 = push_str(f1, 2, e.namespace);
    let f3 = push_str(f2, 3, e.event_type);
    let f4 = push_str(f3, 4, e.message);
    let f5 = push_bytes(f4, 5, e.data);
    let st = event_stepper();
    lemma_fold_push_str(empty_event(), Seq::empty(), 1, e.id, st);
    lemma_text_round_trip(e.id);
    lemma_fold_push_str(empty_event(), f1, 2, e.namespace, st);
    lemma_text_round_trip(e.namespace);
    lemma_fold_push_str(empty_event(), f2, 3, e.event_type, st);
    lemma_text_round_trip(e.event_type);
    lemma_fold_push_str(empty_event(), f3, 4, e.message, st);
    lemma_text_round_trip(e.message);
    lemma_fold_push_bytes(empty_event(), f4, 5, e.data, st);
    lemma_fold_push_u64(empty_event(), f5, 6, signed_bits(e.timestamp as int), st);
    lemma_signed_64(e.timestamp);
    let acc = EventView { metadata: Seq::empty(), ..e };
    assert(e.data.len() == 0 ==> e.data =~= Seq::<u8>::empty());
    assert(e.id.len() == 0 ==> e.id =~= Seq::<char>::empty());
    assert(e.namespace.len() == 0 ==> e.namespace =~= Seq::<char>::empty());
    assert(e.event_type.len() == 0 ==> e.event_type =~= Seq::<char>::empty());
    assert(e.message.len() == 0 ==> e.message =~= Seq::<char>::empty());
    assert(fold_fields(empty_event(), head, st) == Some(acc));
    assert(e.metadata.take(e.metadata.len() as int) =~= e.metadata);
    lemma_event_entries(head, acc, e.metadata, e.metadata);
}

proof fn lemma_batch_events(es: Seq<EventView>, whole: Seq<EventView>)
    requires
        es.len() <= whole.len(),
        es == whole.take(es.len() as int),
        forall|i: int| 0 <= i < whole.len() ==> decode_event(#[trigger] event_bytes(whole[i])) == Some(whole[i]),
    ensures
        fold_fields(
            Seq::empty(),
            push_each(Seq::empty(), 1, es.map_values(|e: EventView| event_bytes(e))),
            batch_stepper(),
        ) == Some(es),
    decreases es.len(),
{
    let items = es.map_values(|e: EventView| event_bytes(e));
    if es.len() == 0 {
        assert(es =~= Seq::<EventView>::empty());
    } else {
        let prev = es.drop_last();
        assert(items.drop_last() =~= prev.map_values(|e: EventView| event_bytes(e)));
        assert(prev == whole.take(prev.len() as int));
        lemma_batch_events(prev, whole);
        lemma_fold_push(
            Seq::empty(),
            push_each(Seq::empty(), 1, items.drop_last()),
            WireField { num: 1, val: WireValue::Bytes(items.last()) },
            batch_stepper(),
        );
        assert(es.last() == whole[es.len() - 1]);
        assert(prev.push(es.last()) =~= es);
    }
}

pub proof fn lemma_batch_round_trip(es: Seq<EventView>)
    requires
        forall|i: int| 0 <= i < es.len() ==> #[trigger] event_wf(es[i]),
        encode_fields(batch_fields(es)).len() <= u64::MAX,
    ensures
        decode_batch(encode_fields(batch_fields(es))) == Some(es),
{
    let items = es.map_values(|e: EventView| event_bytes(e));
    lemma_shape_empty();
    lemma_push_each(Seq::empty(), 1, items);
    lemma_decode_encoded(batch_fields(es));
    assert forall|i: int| 0 <= i < es.len() implies decode_event(#[trigger] event_bytes(es[i]))
        == Some(es[i]) by {
        assert(batch_fields(es)[0 + i] == WireField { num: 1, val: WireValue::Bytes(items[i]) });
        lemma_bytes_within(batch_fields(es), i);
        lemma_event_round_trip(es[i]);
    }
    assert(es.take(es.len() as int) =~= es);
    lemma_batch_events(es, es);
}

proof fn lemma_fetch_names(acc: FetchView, ss: Seq<Seq<char>>)
    ensures
        fold_fields(acc, push_each(Seq::empty(), 1, utf8_each(ss)), fetch_stepper()) == Some(
            FetchView { namespaces: acc.namespaces + ss, limit: acc.limit },
        ),
    decreases ss.len(),
{
    if ss.len() == 0 {
        assert(acc.namespaces + ss =~= acc.namespaces);
    } else {
        lemma_utf8_each_drop_last(ss);
        lemma_fetch_names(acc, ss.drop_last());
        let items = utf8_each(ss);
        lemma_fold_push(
            acc,
            push_each(Seq::empty(), 1, items.drop_last()),
            WireField { num: 1, val: WireValue::Bytes(items.last()) },
            fetch_stepper(),
        );
        lemma_text_round_trip(ss.last());
        assert((acc.namespaces + ss.drop_last()).push(ss.last()) =~= acc.namespaces + ss);
    }
}

pub proof fn lemma_fetch_round_trip(f: FetchView)
    requires
        encode_fields(fetch_fields(f)).len() <= u64::MAX,
    ensures
        decode_fetch(encode_fields(fetch_fields(f))) == Some(f),
{
    let items = utf8_each(f.namespaces);
    lemma_shape_empty();
    lemma_push_each(Seq::empty(), 1, items);
    lemma_shape_u64(push_each(Seq::empty(), 1, items), 2, f.limit as u64);
    lemma_decode_encoded(fetch_fields(f));
    lemma_fetch_names(empty_fetch(), f.namespaces);
    assert(Seq::<Seq<char>>::empty() + f.namespaces =~= f.namespaces);
    lemma_fold_push_u64(empty_fetch(), push_each(Seq::empty(), 1, items), 2, f.limit as u64, fetch_stepper());
}

pub proof fn lemma_ack_round_trip(a: AckView)
    requires
        encode_fields(ack_fields(a)).len() <= u64::MAX,
    ensures
        decode_ack(encode_fields(ack_fields(a))) == Some(a),
{
    let f1 = push_str(Seq::empty(), 1, a.namespace);
    lemma_shape_empty();
    lemma_shape_bytes(Seq::empty(), 1, encode_utf8(a.namespace));
    lemma_shape_bytes(f1, 2, encode_utf8(a.event_id));
    lemma_decode_encoded(ack_fields(a));
    lemma_fold_push_str(empty_ack(), Seq::empty(), 1, a.namespace, ack_stepper());
    lemma_text_round_trip(a.namespace);
    lemma_fold_push_str(empty_ack(), f1, 2, a.event_id, ack_stepper());
    lemma_text_round_trip(a.event_id);
    assert(a.namespace.len() == 0 ==> a.namespace =~= Seq::<char>::empty());
    assert(a.event_id.len() == 0 ==> a.event_id =~= Seq::<char>::empty());
}

pub proof fn lemma_payload_round_trip(p: PayloadView)
    requires
        payload_wf(p),
        payload_bytes(p).len() <= u64::MAX,
    ensures
        decode_payload(payload_num(p), payload_bytes(p)) == Some(p),
{
    match p {
        PayloadView::Ping(x) => lemma_ping_round_trip(x),
        PayloadView::Pong(x) => lemma_pong_round_trip(x),
        PayloadView::Auth(x) => lemma_auth_round_trip(x),
        PayloadView::Event(x) => lemma_event_round_trip(x),
        PayloadView::EventsBatch(x) => lemma_batch_round_trip(x),
        PayloadView::FetchEvents(x) => lemma_fetch_round_trip(x),
        PayloadView::AckEvent(x) => lemma_ack_round_trip(x),
    }
}

/// Round trip: decoding the encoding of a frame gives the same frame, for
/// every frame whose events have unique metadata keys and whose encoding is
/// shorter than 2^64 bytes (every frame held in memory).
pub proof fn lemma_frame_round_trip(f: FrameView)
    requires
        frame_wf(f),
        frame_bytes(f).len() <= u64::MAX,
    ensures
        decode_frame(frame_bytes(f)) == Some(f),
{
    let f1 = push_u64(Seq::empty(), 1, f.version as u64);
    let f2 = push_u64(f1, 2, f.stream_id as u64);
    let head = frame_head_fields(f);
    lemma_shape_empty();
    lemma_shape_u64(Seq::empty(), 1, f.version as u64);
    lemma_shape_u64(f1, 2, f.stream_id as u64);
    lemma_shape_u64(f2, 3, signed_bits(f.kind as int));
    let st = frame_stepper();
    lemma_fold_push_u64(empty_frame(), Seq::empty(), 1, f.version as u64, st);
    lemma_fold_push_u64(empty_frame(), f1, 2, f.stream_id as u64, st);
    lemma_fold_push_u64(empty_frame(), f2, 3, signed_bits(f.kind as int), st);
    lemma_signed_32(f.kind);
    let acc = FrameView { payload: None, ..f };
    assert(fold_fields(empty_frame(), head, st) == Some(acc));
    match f.payload {
        None => {
            lemma_decode_encoded(frame_fields(f));
        },
        Some(p) => {
            let pf = WireField { num: payload_num(p), val: WireValue::Bytes(payload_bytes(p)) };
            lemma_shape_push(head, pf);
            lemma_decode_encoded(frame_fields(f));
            lemma_bytes_within(frame_fields(f), head.len() as int);
            lemma_payload_round_trip(p);
            lemma_fold_push(empty_frame(), head, pf, st);
        },
    }
}

} // verus!
