//! The server's side of the protocol: the state of one connection, the
//! handler of each frame kind, and the dispatcher that a stream's read loop
//! calls for every frame it reads.  Writing the replies is the caller's.
use vstd::prelude::*;
use crate::decode::decode_frame;
use crate::frame::{
    events_view, kind_frame, kind_number, kind_of, strings_view, AckEventPayload, EventPayload,
    EventView, EventsBatchPayload, Frame, FrameType, FrameView, Payload, PayloadView,
    PongPayload, PROTO_VERSION,
};
use crate::queue::{
    is_listing, key_of, lex_lt, limited, lemma_records_from, lemma_records_to, record_of, records,
    records_view, keys_with_id, part, enqueue_failure, enqueued, partly_removed, EventQueue, QueueError,
};
use crate::registry::{auth_valid, lookup, validate_auth, Registry};

verus! {

/// Whether `s` is among the strings of `v`.
pub fn contains_str(v: &Vec<String>, s: &String) -> (r: bool)
    ensures
        r == strings_view(v@).contains(s@),
{
    let mut i: usize = 0;
    while i < v.len()
        invariant
            i <= v@.len(),
            forall|j: int| 0 <= j < i ==> strings_view(v@)[j] != s@,
        decreases v@.len() - i,
    {
        if v[i] == *s {
            proof {
                assert(strings_view(v@)[i as int] == s@);
            }
            return true;
        }
        i = i + 1;
    }
    false
}

/// Membership in a sequence after a push.
pub proof fn lemma_contains_push<A>(s: Seq<A>, x: A)
    ensures
        forall|y: A| #[trigger] s.push(x).contains(y) <==> s.contains(y) || y == x,
{
    assert forall|y: A| #[trigger] s.push(x).contains(y) <==> s.contains(y) || y == x by {
        if s.contains(y) {
            let j = choose|j: int| 0 <= j < s.len() && s[j] == y;
            assert(s.push(x)[j] == y);
        }
        if y == x {
            assert(s.push(x)[s.len() as int] == y);
        }
        if s.push(x).contains(y) {
            let j = choose|j: int| 0 <= j < s.push(x).len() && s.push(x)[j] == y;
            if j < s.len() {
                assert(s[j] == y);
            }
        }
    }
}

/// What one connection has established: whether it is authenticated, and
/// for which namespaces.
pub struct Session {
    authenticated: bool,
    namespaces: Vec<String>,
}

impl Session {
    pub closed spec fn authed(&self) -> bool {
        self.authenticated
    }

    pub closed spec fn allowed(&self) -> Seq<Seq<char>> {
        strings_view(self.namespaces@)
    }

    /// The connection may publish to and fetch from `ns`.
    pub open spec fn permits(&self, ns: Seq<char>) -> bool {
        self.authed() && self.allowed().contains(ns)
    }

    /// A connection that has not authenticated.
    pub fn new() -> (r: Session)
        ensures
            !r.authed(),
            r.allowed().len() == 0,
            forall|ns: Seq<char>| !r.permits(ns),
    {
        Session { authenticated: false, namespaces: Vec::new() }
    }

    pub fn is_authenticated(&self) -> (r: bool)
        ensures
            r == self.authed(),
    {
        self.authenticated
    }

    /// Whether the connection may use namespace `ns`.
    pub fn may_use(&self, ns: &String) -> (r: bool)
        ensures
            r == self.permits(ns@),
    {
        self.authenticated && contains_str(&self.namespaces, ns)
    }
}

/// What answering an Auth frame does, from session `s0` to `s1`.
pub open spec fn auth_effect(
    registry: Seq<crate::registry::CredView>,
    frame: FrameView,
    s0: &Session,
    s1: &Session,
    reply: FrameView,
    close: bool,
) -> bool {
    match frame.payload {
        Some(PayloadView::Auth(a)) if auth_valid(registry, a.client_id, a.token) => {
            let c = lookup(registry, a.client_id)->Some_0;
            &&& reply == kind_frame(frame.stream_id, FrameType::AuthAck, None)
            &&& !close
            &&& s1.authed()
            &&& forall|ns: Seq<char>|
                #[trigger] s1.allowed().contains(ns) <==> a.namespaces.contains(ns)
                    && c.namespaces.contains(ns)
        },
        _ => {
            &&& reply == kind_frame(frame.stream_id, FrameType::AuthError, None)
            &&& close
            &&& s1.authed() == s0.authed()
            &&& s1.allowed() == s0.allowed()
        },
    }
}

/// Answers an Auth frame.  A registered client with the right token is
/// authenticated on the connection for the namespaces it asks for that its
/// credential allows, and gets AuthAck; anything else gets AuthError, and
/// the stream is to be closed (the flag).
pub fn handle_auth(session: &mut Session, registry: &Registry, frame: &Frame) -> (r: (Frame, bool))
    ensures
        auth_effect(registry@, frame@, old(session), final(session), r.0@, r.1),
{
    if let Some(Payload::Auth(auth)) = &frame.payload {
        if validate_auth(auth, registry) {
            let cred = match registry.get(&auth.client_id) {
                Some(c) => c,
                None => {
                    return (Frame::of_kind(frame.stream_id, FrameType::AuthError, None), true);
                },
            };
            let mut granted: Vec<String> = Vec::new();
            let mut i: usize = 0;
            while i < auth.namespaces.len()
                invariant
                    i <= auth.namespaces@.len(),
                    forall|ns: Seq<char>|
                        #[trigger] strings_view(granted@).contains(ns) <==> strings_view(
                            auth.namespaces@,
                        ).take(i as int).contains(ns) && cred@.namespaces.contains(ns),
                decreases auth.namespaces@.len() - i,
            {
                let ns = &auth.namespaces[i];
                let ghost before = strings_view(granted@);
                proof {
                    assert(strings_view(auth.namespaces@).take(i as int + 1) =~= strings_view(
                        auth.namespaces@,
                    ).take(i as int).push(ns@));
                    lemma_contains_push(strings_view(auth.namespaces@).take(i as int), ns@);
                    lemma_contains_push(before, ns@);
                }
                if contains_str(&cred.namespaces, ns) {
                    granted.push(ns.clone());
                    proof {
                        assert(strings_view(granted@) =~= before.push(ns@));
                    }
                }
                i = i + 1;
            }
            proof {
                assert(strings_view(auth.namespaces@).take(auth.namespaces@.len() as int)
                    =~= strings_view(auth.namespaces@));
            }
            session.authenticated = true;
            session.namespaces = granted;
            return (Frame::of_kind(frame.stream_id, FrameType::AuthAck, None), false);
        }
    }
    (Frame::of_kind(frame.stream_id, FrameType::AuthError, None), true)
}

/// The Pong that answers a Ping frame at server time `now_ms`.
pub open spec fn pong_for(frame: FrameView, now_ms: u64) -> FrameView {
    kind_frame(
        frame.stream_id,
        FrameType::Pong,
        match frame.payload {
            Some(PayloadView::Ping(p)) => Some(
                PayloadView::Pong(
                    PongPayload {
                        echo_timestamp_ms: p.timestamp_ms,
                        server_time_ms: now_ms,
                        seq: p.seq,
                    },
                ),
            ),
            _ => None,
        },
    )
}

/// Answers a Ping frame: its timestamp and sequence number echoed, with the
/// server's time; a Ping without a payload gets an empty Pong.
pub fn handle_ping(frame: &Frame, now_ms: u64) -> (r: Frame)
    ensures
        r@ == pong_for(frame@, now_ms),
{
    let payload = match &frame.payload {
        Some(Payload::Ping(p)) => Some(
            Payload::Pong(
                PongPayload { echo_timestamp_ms: p.timestamp_ms, server_time_ms: now_ms, seq: p.seq },
            ),
        ),
        _ => None,
    };
    Frame::of_kind(frame.stream_id, FrameType::Pong, payload)
}

/// Echo and sequence are the ping's, and the server's time is no earlier
/// than the ping's timestamp when the server's clock is no earlier.
pub proof fn lemma_pong_echoes_ping(frame: FrameView, now_ms: u64, t: u64, s: u64)
    requires
        frame.payload == Some(PayloadView::Ping(crate::frame::PingPayload { timestamp_ms: t, seq: s })),
        now_ms >= t,
    ensures
        pong_for(frame, now_ms).payload matches Some(PayloadView::Pong(p)) && p.echo_timestamp_ms
            == t && p.seq == s && p.server_time_ms >= t,
{
}

/// The frame in which a published event is stored.
pub open spec fn stored_frame(stream_id: u32, e: EventView) -> FrameView {
    kind_frame(stream_id, FrameType::Event, Some(PayloadView::Event(e)))
}

/// What became of a published event.
#[derive(Debug)]
pub enum EventOutcome {
    /// Stored under this record number.
    Stored(u64),
    /// The connection may not publish to the event's namespace.
    Rejected,
    /// The frame carries no event.
    Missing,
    /// The queue failed to store it.
    Failed(QueueError),
}

/// What publishing an event does to the queue, from `q0` to `q1`.
pub open spec fn event_effect(
    session: &Session,
    frame: FrameView,
    q0: &EventQueue,
    q1: &EventQueue,
    r: &EventOutcome,
) -> bool {
    match frame.payload {
        Some(PayloadView::Event(e)) => if session.permits(e.namespace) {
            match r {
                EventOutcome::Stored(n) => enqueued(
                    q0.parts(),
                    q1.parts(),
                    e.namespace,
                    *n,
                    crate::frame::frame_bytes(stored_frame(frame.stream_id, e)),
                ),
                EventOutcome::Failed(err) => enqueue_failure(
                    q0.parts(),
                    q1.parts(),
                    e.namespace,
                    crate::frame::frame_bytes(stored_frame(frame.stream_id, e)),
                    err,
                ),
                _ => false,
            }
        } else {
            r is Rejected && q1.parts() == q0.parts()
        },
        _ => r is Missing && q1.parts() == q0.parts(),
    }
}

/// Publishes the event of an Event frame: stores the whole frame, as an
/// Event frame of version 1 on the same stream, in the partition of the
/// event's namespace, if the connection may publish there.
pub fn handle_event(session: &Session, queue: &mut EventQueue, frame: Frame) -> (r: EventOutcome)
    ensures
        event_effect(session, frame@, old(queue), final(queue), &r),
{
    let stream_id = frame.stream_id;
    match frame.payload {
        Some(Payload::Event(event)) => {
            if !session.may_use(&event.namespace) {
                return EventOutcome::Rejected;
            }
            let stored = Frame::of_kind(stream_id, FrameType::Event, Some(Payload::Event(event)));
            match queue.enqueue(&stored) {
                Ok(n) => EventOutcome::Stored(n),
                Err(e) => {
                    proof {
                        assert(!(e is NotAnEvent));
                    }
                    EventOutcome::Failed(e)
                },
            }
        },
        _ => EventOutcome::Missing,
    }
}

/// The acknowledgement of one event.
pub open spec fn ack_view(stream_id: u32, e: EventView) -> FrameView {
    kind_frame(
        stream_id,
        FrameType::AckEvent,
        Some(
            PayloadView::AckEvent(
                crate::frame::AckView { namespace: e.namespace, event_id: e.id },
            ),
        ),
    )
}

/// The acknowledgements of the stored events among the first `i`.
pub open spec fn batch_acks(
    stream_id: u32,
    evs: Seq<EventView>,
    stored: Seq<bool>,
    i: int,
) -> Seq<FrameView>
    decreases i,
{
    if i <= 0 {
        Seq::empty()
    } else if stored[i - 1] {
        batch_acks(stream_id, evs, stored, i - 1).push(ack_view(stream_id, evs[i - 1]))
    } else {
        batch_acks(stream_id, evs, stored, i - 1)
    }
}

pub open spec fn outcomes_stored(v: Seq<EventOutcome>) -> Seq<bool> {
    v.map_values(|o: EventOutcome| o is Stored)
}

pub open spec fn frames_view(v: Seq<Frame>) -> Seq<FrameView> {
    v.map_values(|f: Frame| f@)
}

/// `qs` is the queue before and after each event of a batch is published
/// in turn, from `q0` to `q1`, each step as [`handle_event`] does it.
pub open spec fn batch_chain(
    session: &Session,
    stream_id: u32,
    evs: Seq<EventView>,
    outs: Seq<EventOutcome>,
    qs: Seq<EventQueue>,
    q0: EventQueue,
    q1: EventQueue,
) -> bool {
    &&& qs.len() == evs.len() + 1
    &&& outs.len() == evs.len()
    &&& qs[0] == q0
    &&& qs[evs.len() as int] == q1
    &&& forall|i: int|
        0 <= i < evs.len() ==> #[trigger] event_effect(
            session,
            stored_frame(stream_id, evs[i]),
            &qs[i],
            &qs[i + 1],
            &outs[i],
        )
}

/// What publishing a batch does to the queue, from `q0` to `q1`.
pub open spec fn batch_effect(
    session: &Session,
    frame: FrameView,
    q0: &EventQueue,
    q1: &EventQueue,
    outs: Seq<EventOutcome>,
) -> bool {
    match frame.payload {
        Some(PayloadView::EventsBatch(evs)) => exists|qs: Seq<EventQueue>|
            #[trigger] batch_chain(session, frame.stream_id, evs, outs, qs, *q0, *q1),
        _ => outs.len() == 0 && q1.parts() == q0.parts(),
    }
}

/// Publishes each event of an EventsBatch frame as [`handle_event`] does,
/// in order, and acknowledges each one stored.  Gives the outcome of each
/// event and the acknowledgements to send back.
///
/// Only events reported `Stored` are acknowledged.  An event whose record
/// went in but whose flush failed (`Failed(NotFlushed(n, _))`) is in the
/// queue, as [`enqueue_failure`] states, yet not acknowledged: the publisher
/// may send it again, and delivery stays at least once.
pub fn handle_events_batch(session: &Session, queue: &mut EventQueue, frame: Frame) -> (r: (
    Vec<EventOutcome>,
    Vec<Frame>,
))
    ensures
        match frame@.payload {
            Some(PayloadView::EventsBatch(evs)) => {
                &&& r.0@.len() == evs.len()
                &&& forall|i: int|
                    0 <= i < evs.len() ==> (#[trigger] r.0@[i] is Rejected <==> !session.permits(
                        evs[i].namespace,
                    )) && !(r.0@[i] is Missing)
                &&& frames_view(r.1@) == batch_acks(
                    frame.stream_id,
                    evs,
                    outcomes_stored(r.0@),
                    evs.len() as int,
                )
            },
            _ => r.0@.len() == 0 && r.1@.len() == 0 && final(queue).parts() == old(queue).parts(),
        },
        batch_effect(session, frame@, old(queue), final(queue), r.0@),
{
    let stream_id = frame.stream_id;
    let events = match frame.payload {
        Some(Payload::EventsBatch(b)) => b.events,
        _ => return (Vec::new(), Vec::new()),
    };
    let ghost evs = events_view(events@);
    let ghost q_start = *queue;
    let ghost mut qs: Seq<EventQueue> = seq![*queue];
    let mut outcomes: Vec<EventOutcome> = Vec::new();
    let mut acks: Vec<Frame> = Vec::new();
    let mut i: usize = 0;
    while i < events.len()
        invariant
            i <= events@.len(),
            evs == events_view(events@),
            frame@.payload == Some(PayloadView::EventsBatch(evs)),
            stream_id == frame.stream_id,
            q_start == *old(queue),
            qs.len() == i + 1,
            qs[0] == q_start,
            qs[i as int] == *queue,
            forall|j: int|
                0 <= j < i ==> #[trigger] event_effect(
                    session,
                    stored_frame(stream_id, evs[j]),
                    &qs[j],
                    &qs[j + 1],
                    &outcomes@[j],
                ),
            outcomes@.len() == i,
            forall|j: int|
                0 <= j < i ==> (#[trigger] outcomes@[j] is Rejected <==> !session.permits(
                    evs[j].namespace,
                )) && !(outcomes@[j] is Missing),
            frames_view(acks@) == batch_acks(stream_id, evs, outcomes_stored(outcomes@), i as int),
        decreases events@.len() - i,
    {
        let ev = events[i].clone_event();
        let namespace = ev.namespace.clone();
        let id = ev.id.clone();
        let single = Frame::of_kind(stream_id, FrameType::Event, Some(Payload::Event(ev)));
        let ghost q_before = *queue;
        let outcome = handle_event(session, queue, single);
        proof {
            qs = qs.push(*queue);
            assert(qs[i as int] == q_before);
        }
        let ghost before = outcomes@;
        let ghost acks_before = frames_view(acks@);
        let stored = matches!(outcome, EventOutcome::Stored(_));
        if stored {
            let ack = Frame::of_kind(
                stream_id,
                FrameType::AckEvent,
                Some(Payload::AckEvent(AckEventPayload { namespace, event_id: id })),
            );
            acks.push(ack);
        }
        outcomes.push(outcome);
        proof {
            assert(outcomes_stored(outcomes@).take(i as int) =~= outcomes_stored(before));
            lemma_batch_acks_prefix(stream_id, evs, outcomes_stored(before), outcomes_stored(outcomes@), i as int);
            if stored {
                assert(frames_view(acks@) =~= acks_before.push(ack_view(stream_id, evs[i as int])));
            } else {
                assert(frames_view(acks@) =~= acks_before);
            }
            assert forall|j: int| 0 <= j < i + 1 implies #[trigger] event_effect(
                session,
                stored_frame(stream_id, evs[j]),
                &qs[j],
                &qs[j + 1],
                &outcomes@[j],
            ) by {
                if j < i {
                    assert(outcomes@[j] == before[j]);
                }
            }
        }
        i = i + 1;
    }
    proof {
        assert(batch_chain(session, stream_id, evs, outcomes@, qs, q_start, *queue));
        assert(batch_chain(session, frame.stream_id, evs, outcomes@, qs, *old(queue), *queue));
        assert(frame@.payload == Some(PayloadView::EventsBatch(evs)));
        assert(frame@.stream_id == stream_id);
        assert(exists|q: Seq<EventQueue>|
            #[trigger] batch_chain(session, frame@.stream_id, evs, outcomes@, q, *old(queue), *queue));
    }
    (outcomes, acks)
}

proof fn lemma_batch_acks_prefix(
    stream_id: u32,
    evs: Seq<EventView>,
    a: Seq<bool>,
    b: Seq<bool>,
    i: int,
)
    requires
        0 <= i <= a.len(),
        i <= b.len(),
        forall|j: int| 0 <= j < i ==> a[j] == b[j],
    ensures
        batch_acks(stream_id, evs, a, i) == batch_acks(stream_id, evs, b, i),
    decreases i,
{
    if i > 0 {
        lemma_batch_acks_prefix(stream_id, evs, a, b, i - 1);
    }
}


/// `e` is the event of a record of `m`: an 8-byte key whose value decodes
/// to a frame carrying `e`.
pub open spec fn record_event(m: Map<Seq<u8>, Seq<u8>>, k: Seq<u8>, e: EventView) -> bool {
    &&& m.contains_key(k)
    &&& k.len() == 8
    &&& match decode_frame(m[k]) {
        Some(f) => f.payload == Some(PayloadView::Event(e)),
        None => false,
    }
}

/// `e` is stored in a namespace that was asked for and that the connection
/// may fetch from.
pub open spec fn exists_source(queue: &EventQueue, session: &Session, asked: Seq<Seq<char>>, e: EventView) -> bool {
    exists|ns: Seq<char>, k: Seq<u8>|
        #![trigger record_event(queue.partition(ns), k, e)]
        asked.contains(ns) && session.permits(ns) && record_event(queue.partition(ns), k, e)
}

/// Every event of the batch is stored in a namespace that was asked for and
/// that the connection may fetch from.
pub open spec fn batch_sound(
    queue: &EventQueue,
    session: &Session,
    asked: Seq<Seq<char>>,
    evs: Seq<EventView>,
) -> bool {
    forall|j: int| 0 <= j < evs.len() ==> #[trigger] exists_source(queue, session, asked, evs[j])
}

/// Every event stored in a namespace that was asked for and that the
/// connection may fetch from is in the batch.
pub open spec fn batch_complete(
    queue: &EventQueue,
    session: &Session,
    asked: Seq<Seq<char>>,
    evs: Seq<EventView>,
) -> bool {
    forall|ns: Seq<char>, k: Seq<u8>, e: EventView|
        asked.contains(ns) && session.permits(ns) && #[trigger] record_event(
            queue.partition(ns),
            k,
            e,
        ) ==> evs.contains(e)
}

/// `b` answers fetch request `frame`: an EventsBatch on the same stream
/// whose events are all stored in namespaces asked for and permitted, and,
/// when the request sets no limit, all such events.
pub open spec fn batch_answers(session: &Session, queue: &EventQueue, frame: FrameView, b: FrameView) -> bool {
    &&& frame.payload matches Some(PayloadView::FetchEvents(req))
    &&& b.version == 1
    &&& b.stream_id == frame.stream_id
    &&& b.kind == kind_number(FrameType::EventsBatch)
    &&& b.payload matches Some(PayloadView::EventsBatch(evs))
    &&& batch_sound(queue, session, req.namespaces, evs)
    &&& req.limit == 0 ==> batch_complete(queue, session, req.namespaces, evs)
    &&& evs == fetched_events(queue, session, req.namespaces, fetch_max(req.limit))
}

/// The events carried by records, in order; records of other payloads
/// are skipped.
pub open spec fn record_events(rs: Seq<(u64, FrameView)>) -> Seq<EventView>
    decreases rs.len(),
{
    if rs.len() == 0 {
        Seq::empty()
    } else {
        match rs.last().1.payload {
            Some(PayloadView::Event(e)) => record_events(rs.drop_last()).push(e),
            _ => record_events(rs.drop_last()),
        }
    }
}

/// How many records a fetch takes from each namespace: all for a limit of 0.
pub open spec fn fetch_max(limit: u32) -> Option<usize> {
    if limit == 0 {
        None
    } else {
        Some(limit as usize)
    }
}

/// The events a fetch returns from namespace `ns`: the events of its first
/// `max` records in key order, which is insertion order; none when the
/// connection may not use it.
pub open spec fn namespace_events(
    queue: &EventQueue,
    session: &Session,
    ns: Seq<char>,
    max: Option<usize>,
) -> Seq<EventView> {
    if session.permits(ns) {
        record_events(
            limited(crate::queue::records(crate::queue::listing_of(queue.partition(ns))), max),
        )
    } else {
        Seq::empty()
    }
}

/// The events a fetch of `names` returns: those of each namespace in turn,
/// in the order asked.
pub open spec fn fetched_events(
    queue: &EventQueue,
    session: &Session,
    names: Seq<Seq<char>>,
    max: Option<usize>,
) -> Seq<EventView>
    decreases names.len(),
{
    if names.len() == 0 {
        Seq::empty()
    } else {
        fetched_events(queue, session, names.drop_last(), max) + namespace_events(
            queue,
            session,
            names.last(),
            max,
        )
    }
}

/// `frame` asks for a namespace the connection may fetch from: only then
/// does a fetch scan the store, and only then can it fail.
pub open spec fn asks_permitted(session: &Session, frame: FrameView) -> bool {
    match frame.payload {
        Some(PayloadView::FetchEvents(req)) => exists|ns: Seq<char>|
            #![trigger req.namespaces.contains(ns)]
            req.namespaces.contains(ns) && session.permits(ns),
        _ => false,
    }
}

proof fn lemma_asks_permitted(
    session: &Session,
    frame: FrameView,
    req: crate::frame::FetchView,
    ns: Seq<char>,
)
    requires
        frame.payload == Some(PayloadView::FetchEvents(req)),
        req.namespaces.contains(ns),
        session.permits(ns),
    ensures
        asks_permitted(session, frame),
{
    let r = frame.payload->Some_0->FetchEvents_0;
    assert(r == req);
    assert(r.namespaces.contains(ns) && session.permits(ns));
}

/// What a fetch request gave.
#[derive(Debug)]
pub enum FetchOutcome {
    /// The EventsBatch frame to send.
    Batch(Frame),
    /// The frame carries no fetch request.
    Missing,
    /// The queue failed to scan.
    Failed(QueueError),
}

proof fn lemma_fetched_is_stored(
    m: Map<Seq<u8>, Seq<u8>>,
    s: Seq<(Seq<u8>, Seq<u8>)>,
    max: Option<usize>,
    j: int,
    e: EventView,
)
    requires
        is_listing(m, s),
        0 <= j < limited(records(s), max).len(),
        limited(records(s), max)[j].1.payload == Some(PayloadView::Event(e)),
    ensures
        exists|k: Seq<u8>| #[trigger] record_event(m, k, e),
{
    assert(limited(records(s), max)[j] == records(s)[j]);
    lemma_records_from(s, j);
    let i = choose|i: int| 0 <= i < s.len() && #[trigger] record_of(s[i]) == Some(records(s)[j]);
    assert(m.contains_key(s[i].0) && m[s[i].0] == s[i].1);
    assert(record_event(m, s[i].0, e));
}

proof fn lemma_stored_is_fetched(
    m: Map<Seq<u8>, Seq<u8>>,
    s: Seq<(Seq<u8>, Seq<u8>)>,
    k: Seq<u8>,
    e: EventView,
)
    requires
        is_listing(m, s),
        record_event(m, k, e),
    ensures
        exists|j: int|
            0 <= j < records(s).len() && #[trigger] records(s)[j].1.payload == Some(
                PayloadView::Event(e),
            ),
{
    let i = choose|i: int| 0 <= i < s.len() && #[trigger] s[i].0 == k;
    assert(m[s[i].0] == s[i].1);
    assert(record_of(s[i]) is Some);
    lemma_records_to(s, i);
    let j = choose|j: int| 0 <= j < records(s).len() && records(s)[j] == record_of(s[i])->Some_0;
    assert(records(s)[j].1.payload == Some(PayloadView::Event(e)));
}

/// A published event stays fetchable: while its record is stored, a fetch
/// without a limit that asks for its namespace, on a connection that may
/// use it, returns it.
pub proof fn lemma_published_event_is_fetched(
    session: &Session,
    queue: &EventQueue,
    fetch: FrameView,
    batch: FrameView,
    n: u64,
    stream_id: u32,
    e: EventView,
)
    requires
        batch_answers(session, queue, fetch, batch),
        fetch.payload matches Some(PayloadView::FetchEvents(req)) && req.limit == 0
            && req.namespaces.contains(e.namespace),
        session.permits(e.namespace),
        crate::frame::event_wf(e),
        crate::frame::frame_bytes(stored_frame(stream_id, e)).len() <= u64::MAX,
        queue.partition(e.namespace).contains_key(key_of(n)),
        queue.partition(e.namespace)[key_of(n)] == crate::frame::frame_bytes(stored_frame(stream_id, e)),
    ensures
        batch.payload matches Some(PayloadView::EventsBatch(evs)) && evs.contains(e),
{
    crate::round_trip::lemma_frame_round_trip(stored_frame(stream_id, e));
    crate::queue::lemma_be_bytes_len(n as nat, 8);
    assert(record_event(queue.partition(e.namespace), key_of(n), e));
}

/// Acknowledged means gone from every fetch: when every partition holds
/// only its namespace's events and no record of namespace `ns` carries
/// event `id` (an acknowledgement removed them), no batch returns an event
/// of `ns` with that id, from whichever partition.
pub proof fn lemma_acked_event_is_gone(
    session: &Session,
    queue: &EventQueue,
    fetch: FrameView,
    batch: FrameView,
    ns: Seq<char>,
    id: Seq<char>,
)
    requires
        batch_answers(session, queue, fetch, batch),
        crate::queue::partitions_consistent(queue.parts()),
        keys_with_id(queue.partition(ns), id) == Set::<Seq<u8>>::empty(),
    ensures
        batch.payload matches Some(PayloadView::EventsBatch(evs)) && forall|j: int|
            0 <= j < evs.len() ==> !(#[trigger] evs[j].namespace == ns && evs[j].id == id),
{
    let req = fetch.payload->Some_0->FetchEvents_0;
    let evs = batch.payload->Some_0->EventsBatch_0;
    assert forall|j: int| 0 <= j < evs.len() implies !(#[trigger] evs[j].namespace == ns
        && evs[j].id == id) by {
        assert(exists_source(queue, session, req.namespaces, evs[j]));
        let (n2, k) = choose|n2: Seq<char>, k: Seq<u8>|
            req.namespaces.contains(n2) && session.permits(n2) && #[trigger] record_event(
                queue.partition(n2),
                k,
                evs[j],
            );
        let name = vstd::utf8::encode_utf8(n2);
        assert(part(queue.parts(), name).contains_key(k));
        if evs[j].namespace == ns && evs[j].id == id {
            assert(vstd::utf8::encode_utf8(ns) == name);
            assert(keys_with_id(queue.partition(ns), id).contains(k));
        }
    }
}

/// Once no record of namespace `ns` carries event `id` (an acknowledgement
/// removed them), no batch returns that event from there: every event of a
/// batch is stored in a namespace asked for.
pub proof fn lemma_acked_event_is_not_fetched(
    session: &Session,
    queue: &EventQueue,
    fetch: FrameView,
    batch: FrameView,
    id: Seq<char>,
)
    requires
        batch_answers(session, queue, fetch, batch),
        forall|ns: Seq<char>| #[trigger]
            session.permits(ns) ==> keys_with_id(queue.partition(ns), id) == Set::<Seq<u8>>::empty(),
    ensures
        batch.payload matches Some(PayloadView::EventsBatch(evs)) && forall|j: int|
            0 <= j < evs.len() ==> #[trigger] evs[j].id != id,
{
    let req = fetch.payload->Some_0->FetchEvents_0;
    let evs = batch.payload->Some_0->EventsBatch_0;
    assert forall|j: int| 0 <= j < evs.len() implies #[trigger] evs[j].id != id by {
        assert(exists_source(queue, session, req.namespaces, evs[j]));
        let (ns, k) = choose|ns: Seq<char>, k: Seq<u8>|
            req.namespaces.contains(ns) && session.permits(ns) && #[trigger] record_event(
                queue.partition(ns),
                k,
                evs[j],
            );
        let m = queue.partition(ns);
        if evs[j].id == id {
            assert(keys_with_id(m, id).contains(k));
        }
    }
}

/// Answers a FetchEvents frame: one EventsBatch on the same stream with the
/// events stored in each namespace asked for that the connection may fetch
/// from, in partition order, at most `limit` from each (all of them when
/// `limit` is 0).  The caller then drains acknowledgements from the stream.
pub fn handle_fetch_events(session: &Session, queue: &EventQueue, frame: &Frame) -> (r: FetchOutcome)
    ensures
        match frame@.payload {
            Some(PayloadView::FetchEvents(req)) => match r {
                FetchOutcome::Batch(b) => batch_answers(session, queue, frame@, b@),
                FetchOutcome::Failed(e) => e is Store && asks_permitted(session, frame@),
                FetchOutcome::Missing => false,
            },
            _ => r is Missing,
        },
{
    let req = match &frame.payload {
        Some(Payload::FetchEvents(req)) => req,
        _ => return FetchOutcome::Missing,
    };
    let ghost asked = strings_view(req.namespaces@);
    let max: Option<usize> = if req.limit == 0 {
        None
    } else {
        Some(req.limit as usize)
    };
    let mut events: Vec<EventPayload> = Vec::new();
    let mut i: usize = 0;
    while i < req.namespaces.len()
        invariant
            i <= req.namespaces@.len(),
            frame@.payload == Some(PayloadView::FetchEvents(req@)),
            asked == strings_view(req.namespaces@),
            max == (if req.limit == 0 {
                None::<usize>
            } else {
                Some(req.limit as usize)
            }),
            batch_sound(queue, session, asked, events_view(events@)),
            events_view(events@) == fetched_events(queue, session, asked.take(i as int), max),
            req.limit == 0 ==> batch_complete(
                queue,
                session,
                asked.take(i as int),
                events_view(events@),
            ),
        decreases req.namespaces@.len() - i,
    {
        let ns = &req.namespaces[i];
        proof {
            assert(asked.take(i as int + 1) =~= asked.take(i as int).push(ns@));
            assert(asked.take(i as int + 1).drop_last() =~= asked.take(i as int));
            lemma_contains_push(asked.take(i as int), ns@);
            assert(asked.contains(ns@)) by {
                assert(asked[i as int] == ns@);
            }
        }
        if session.may_use(ns) {
            let recs = match queue.fetch(ns.as_str(), max) {
                Err(e) => {
                    proof {
                        assert(asked.contains(ns@) && session.permits(ns@));
                        assert(req@.namespaces == asked);
                        assert(req@.namespaces.contains(ns@));
                        assert(frame@.payload == Some(PayloadView::FetchEvents(req@)));
                        assert(exists|n: Seq<char>| #[trigger] req@.namespaces.contains(n) && session.permits(n));
                        lemma_asks_permitted(session, frame@, req@, ns@);
                    }
                    return FetchOutcome::Failed(e);
                },
                Ok(v) => v,
            };
            let ghost m = queue.partition(ns@);
            let ghost s = choose|s: Seq<(Seq<u8>, Seq<u8>)>|
                is_listing(m, s) && records_view(recs@) == limited(records(s), max);
            let ghost rv = records_view(recs@);
            let ghost start = events_view(events@);
            let mut j: usize = 0;
            while j < recs.len()
                invariant
                    j <= recs@.len(),
                    rv == records_view(recs@),
                    is_listing(m, s),
                    rv == limited(records(s), max),
                    m == queue.partition(ns@),
                    asked.contains(ns@),
                    session.permits(ns@),
                    batch_sound(queue, session, asked, events_view(events@)),
                    forall|x: EventView| start.contains(x) ==> #[trigger] events_view(events@).contains(x),
                    events_view(events@) == start + record_events(rv.take(j as int)),
                    forall|jj: int|
                        0 <= jj < j ==> match #[trigger] rv[jj].1.payload {
                            Some(PayloadView::Event(e)) => events_view(events@).contains(e),
                            _ => true,
                        },
                decreases recs@.len() - j,
            {
                let ghost before = events_view(events@);
                proof {
                    assert(rv.take(j as int + 1).drop_last() =~= rv.take(j as int));
                    assert(rv.take(j as int + 1).last() == rv[j as int]);
                }
                match &recs[j].1.payload {
                    Some(Payload::Event(e)) => {
                        let copy = e.clone_event();
                        events.push(copy);
                        proof {
                            assert(events_view(events@) =~= before.push(e@));
                            assert(start + record_events(rv.take(j as int)).push(e@) =~= (start
                                + record_events(rv.take(j as int))).push(e@));
                            lemma_contains_push(before, e@);
                            assert(rv[j as int].1.payload == Some(PayloadView::Event(e@)));
                            lemma_fetched_is_stored(m, s, max, j as int, e@);
                            assert forall|jj: int| 0 <= jj < events_view(events@).len() implies #[trigger] exists_source(
                                queue,
                                session,
                                asked,
                                events_view(events@)[jj],
                            ) by {
                                if jj < before.len() {
                                    assert(events_view(events@)[jj] == before[jj]);
                                } else {
                                    let k = choose|k: Seq<u8>| #[trigger] record_event(m, k, e@);
                                    assert(record_event(queue.partition(ns@), k, events_view(events@)[jj]));
                                }
                            }
                        }
                    },
                    _ => {},
                }
                j = j + 1;
            }
            proof {
                assert(rv.take(rv.len() as int) =~= rv);
                assert(events_view(events@) == start + namespace_events(queue, session, ns@, max));
                if req.limit == 0 {
                    assert forall|n: Seq<char>, k: Seq<u8>, e: EventView|
                        asked.take(i as int + 1).contains(n) && session.permits(n) && #[trigger] record_event(
                            queue.partition(n),
                            k,
                            e,
                        ) implies events_view(events@).contains(e) by {
                        if n == ns@ {
                            lemma_stored_is_fetched(m, s, k, e);
                            let jj = choose|jj: int|
                                0 <= jj < records(s).len() && #[trigger] records(s)[jj].1.payload
                                    == Some(PayloadView::Event(e));
                            assert(rv[jj].1.payload == Some(PayloadView::Event(e)));
                        } else {
                            assert(asked.take(i as int).contains(n));
                        }
                    }
                }
            }
        } else {
            proof {
                assert(events_view(events@) =~= events_view(events@) + namespace_events(
                    queue,
                    session,
                    ns@,
                    max,
                ));
                if req.limit == 0 {
                    assert forall|n: Seq<char>, k: Seq<u8>, e: EventView|
                        asked.take(i as int + 1).contains(n) && session.permits(n) && #[trigger] record_event(
                            queue.partition(n),
                            k,
                            e,
                        ) implies events_view(events@).contains(e) by {
                        assert(n != ns@);
                        assert(asked.take(i as int).contains(n));
                    }
                }
            }
        }
        i = i + 1;
    }
    proof {
        assert(asked.take(req.namespaces@.len() as int) =~= asked);
    }
    let batch = Frame::of_kind(
        frame.stream_id,
        FrameType::EventsBatch,
        Some(Payload::EventsBatch(EventsBatchPayload { events })),
    );
    FetchOutcome::Batch(batch)
}

/// What an acknowledgement did.
#[derive(Debug)]
pub enum AckOutcome {
    /// The event's records were removed; whether there was one.
    Removed(bool),
    /// The connection may not use the namespace.
    Rejected,
    /// The frame carries no acknowledgement.
    Missing,
    /// The queue failed.
    Failed(QueueError),
}

/// What an acknowledgement does to the queue, from `q0` to `q1`.
pub open spec fn ack_effect(
    session: &Session,
    frame: FrameView,
    q0: &EventQueue,
    q1: &EventQueue,
    r: &AckOutcome,
) -> bool {
    match frame.payload {
        Some(PayloadView::AckEvent(a)) => if session.permits(a.namespace) {
            match r {
                AckOutcome::Removed(found) => {
                    &&& q1.partition(a.namespace) == q0.partition(a.namespace).remove_keys(
                        keys_with_id(q0.partition(a.namespace), a.event_id),
                    )
                    &&& *found == (keys_with_id(q0.partition(a.namespace), a.event_id) != Set::<
                        Seq<u8>,
                    >::empty())
                    &&& forall|other: Seq<u8>|
                        other != vstd::utf8::encode_utf8(a.namespace) ==> #[trigger] part(
                            q1.parts(),
                            other,
                        ) == part(q0.parts(), other)
                },
                AckOutcome::Failed(e) => {
                    &&& (e is Store || e is DeleteFailed)
                    &&& e is DeleteFailed ==> keys_with_id(q0.partition(a.namespace), a.event_id)
                        != Set::<Seq<u8>>::empty()
                    &&& e is Store ==> partly_removed(
                        q0.parts(),
                        q1.parts(),
                        vstd::utf8::encode_utf8(a.namespace),
                        a.event_id,
                    )
                },
                _ => false,
            }
        } else {
            r is Rejected && q1.parts() == q0.parts()
        },
        _ => r is Missing && q1.parts() == q0.parts(),
    }
}

/// Removes the records of an acknowledged event, if the connection may use
/// its namespace.  Acknowledging twice is harmless: the second finds nothing.
pub fn handle_ack_event(session: &Session, queue: &mut EventQueue, frame: &Frame) -> (r: AckOutcome)
    ensures
        ack_effect(session, frame@, old(queue), final(queue), &r),
{
    match &frame.payload {
        Some(Payload::AckEvent(ack)) => {
            if !session.may_use(&ack.namespace) {
                return AckOutcome::Rejected;
            }
            match queue.remove(ack.namespace.as_str(), ack.event_id.as_str()) {
                Ok(found) => AckOutcome::Removed(found),
                Err(e) => {
                    AckOutcome::Failed(e)
                },
            }
        },
        _ => AckOutcome::Missing,
    }
}

/// What the stream's read loop does after a frame.
#[derive(Clone, Copy, Debug, PartialEq, Eq, Structural)]
pub enum StreamNext {
    /// Read the next frame.
    Continue,
    /// Close the stream.
    Close,
    /// Read acknowledgements until the client closes its side.
    Drain,
}

/// Which handler ran, and what it gave.
#[derive(Debug)]
pub enum Handled {
    /// The frame was dropped: a bad version, a kind of no number, a kind the
    /// server does not take, or a frame before authentication.
    Nothing,
    Ping,
    Auth,
    Event(EventOutcome),
    Batch(Vec<EventOutcome>),
    /// The batch a fetch gave is the reply.
    Fetched,
    /// A fetch gave no batch.
    Fetch(FetchOutcome),
    Ack(AckOutcome),
}

/// The dispatcher's answer: frames to write back, in order, and what the
/// read loop does next.
#[derive(Debug)]
pub struct Dispatch {
    pub replies: Vec<Frame>,
    pub next: StreamNext,
    pub handled: Handled,
}

pub open spec fn unchanged(s0: &Session, s1: &Session, q0: &EventQueue, q1: &EventQueue) -> bool {
    s1.authed() == s0.authed() && s1.allowed() == s0.allowed() && q1.parts() == q0.parts()
}

/// The frame kinds a connection may send before it authenticates.
pub open spec fn open_kind(k: FrameType) -> bool {
    k == FrameType::Auth || k == FrameType::Ping
}

/// Dispatches one frame read from a stream.  A frame of another version
/// closes the stream; a kind of no number is skipped; before the connection
/// has authenticated, only Auth and Ping are taken, and anything else gets
/// AuthError and closes the stream with nothing changed.
pub fn handle_frame(
    session: &mut Session,
    registry: &Registry,
    queue: &mut EventQueue,
    frame: Frame,
    now_ms: u64,
) -> (d: Dispatch)
    ensures
        frame.version != PROTO_VERSION ==> d.replies@.len() == 0 && d.next == StreamNext::Close
            && unchanged(old(session), final(session), old(queue), final(queue)),
        frame.version == PROTO_VERSION ==> match kind_of(frame.kind) {
            None => d.replies@.len() == 0 && d.next == StreamNext::Continue && unchanged(
                old(session),
                final(session),
                old(queue),
                final(queue),
            ),
            Some(k) => if !old(session).authed() && !open_kind(k) {
                &&& frames_view(d.replies@) == seq![
                    kind_frame(frame.stream_id, FrameType::AuthError, None),
                ]
                &&& d.next == StreamNext::Close
                &&& unchanged(old(session), final(session), old(queue), final(queue))
            } else {
                match k {
                    FrameType::Ping => frames_view(d.replies@) == seq![pong_for(frame@, now_ms)]
                        && d.next == StreamNext::Continue && unchanged(
                        old(session),
                        final(session),
                        old(queue),
                        final(queue),
                    ),
                    FrameType::Auth => d.replies@.len() == 1 && auth_effect(
                        registry@,
                        frame@,
                        old(session),
                        final(session),
                        d.replies@[0]@,
                        d.next == StreamNext::Close,
                    ) && (d.next == StreamNext::Close || d.next == StreamNext::Continue)
                        && final(queue).parts() == old(queue).parts(),
                    FrameType::Event => d.replies@.len() == 0 && d.next == StreamNext::Continue
                        && (d.handled matches Handled::Event(o) && event_effect(
                        old(session),
                        frame@,
                        old(queue),
                        final(queue),
                        &o,
                    )) && final(session).authed() == old(session).authed() && final(session).allowed() == old(session).allowed(),
                    FrameType::EventsBatch => d.next == StreamNext::Continue && final(session).authed() == old(session).authed() && final(session).allowed() == old(session).allowed() && (d.handled matches Handled::Batch(outs) && batch_effect(
                        old(session),
                        frame@,
                        old(queue),
                        final(queue),
                        outs@,
                    )) && (frame@.payload matches Some(PayloadView::EventsBatch(evs))
                        ==> (d.handled matches Handled::Batch(outs) && frames_view(d.replies@)
                        == batch_acks(
                        frame.stream_id,
                        evs,
                        outcomes_stored(outs@),
                        evs.len() as int,
                    ))),
                    FrameType::FetchEvents => unchanged(
                        old(session),
                        final(session),
                        old(queue),
                        final(queue),
                    ) && match d.handled {
                        Handled::Fetched => d.replies@.len() == 1 && batch_answers(
                            old(session),
                            old(queue),
                            frame@,
                            d.replies@[0]@,
                        ) && d.next == StreamNext::Drain,
                        Handled::Fetch(o) => !(o is Batch) && (o matches FetchOutcome::Failed(e)
                            ==> e is Store && asks_permitted(old(session), frame@)) && d.replies@.len()
                            == 0 && d.next == StreamNext::Close,
                        _ => false,
                    },
                    FrameType::AckEvent => d.replies@.len() == 0 && d.next == StreamNext::Continue
                        && (d.handled matches Handled::Ack(o) && ack_effect(
                        old(session),
                        frame@,
                        old(queue),
                        final(queue),
                        &o,
                    )) && final(session).authed() == old(session).authed() && final(session).allowed() == old(session).allowed(),
                    _ => d.replies@.len() == 0 && d.next == StreamNext::Continue && unchanged(
                        old(session),
                        final(session),
                        old(queue),
                        final(queue),
                    ),
                }
            },
        },
{
    if frame.version != PROTO_VERSION {
        return Dispatch { replies: Vec::new(), next: StreamNext::Close, handled: Handled::Nothing };
    }
    let kind = match FrameType::from_i32(frame.kind) {
        None => {
            return Dispatch {
                replies: Vec::new(),
                next: StreamNext::Continue,
                handled: Handled::Nothing,
            };
        },
        Some(k) => k,
    };
    if !session.is_authenticated() && !matches!(kind, FrameType::Auth | FrameType::Ping) {
        let mut replies = Vec::new();
        replies.push(Frame::of_kind(frame.stream_id, FrameType::AuthError, None));
        proof {
            assert(frames_view(replies@) =~= seq![kind_frame(frame.stream_id, FrameType::AuthError, None)]);
        }
        return Dispatch { replies, next: StreamNext::Close, handled: Handled::Nothing };
    }
    match kind {
        FrameType::Ping => {
            let mut replies = Vec::new();
            replies.push(handle_ping(&frame, now_ms));
            proof {
                assert(frames_view(replies@) =~= seq![pong_for(frame@, now_ms)]);
            }
            Dispatch { replies, next: StreamNext::Continue, handled: Handled::Ping }
        },
        FrameType::Auth => {
            let (answer, close) = handle_auth(session, registry, &frame);
            let mut replies = Vec::new();
            replies.push(answer);
            let next = if close {
                StreamNext::Close
            } else {
                StreamNext::Continue
            };
            Dispatch { replies, next, handled: Handled::Auth }
        },
        FrameType::Event => {
            let o = handle_event(session, queue, frame);
            Dispatch { replies: Vec::new(), next: StreamNext::Continue, handled: Handled::Event(o) }
        },
        FrameType::EventsBatch => {
            let (outs, acks) = handle_events_batch(session, queue, frame);
            Dispatch { replies: acks, next: StreamNext::Continue, handled: Handled::Batch(outs) }
        },
        FrameType::FetchEvents => {
            let o = handle_fetch_events(session, queue, &frame);
            match o {
                FetchOutcome::Batch(b) => {
                    let mut replies = Vec::new();
                    replies.push(b);
                    Dispatch { replies, next: StreamNext::Drain, handled: Handled::Fetched }
                },
                other => Dispatch { replies: Vec::new(), next: StreamNext::Close, handled: Handled::Fetch(other) },
            }
        },
        FrameType::AckEvent => {
            let o = handle_ack_event(session, queue, &frame);
            Dispatch { replies: Vec::new(), next: StreamNext::Continue, handled: Handled::Ack(o) }
        },
        _ => Dispatch { replies: Vec::new(), next: StreamNext::Continue, handled: Handled::Nothing },
    }
}

/// Handles a frame read while draining acknowledgements after a fetch:
/// an AckEvent is handled as [`handle_ack_event`] does, anything else is
/// skipped.
pub fn handle_drain_frame(session: &Session, queue: &mut EventQueue, frame: &Frame) -> (r: Option<AckOutcome>)
    ensures
        match r {
            Some(o) => frame.kind == kind_number(FrameType::AckEvent) && ack_effect(
                session,
                frame@,
                old(queue),
                final(queue),
                &o,
            ),
            None => frame.kind != kind_number(FrameType::AckEvent) && final(queue).parts() == old(queue).parts(),
        },
{
    if frame.kind == FrameType::AckEvent.as_i32() {
        Some(handle_ack_event(session, queue, frame))
    } else {
        None
    }
}

} // verus!
