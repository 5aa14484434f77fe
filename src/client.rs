//! The client's side of the protocol: its parameters, the frames it sends,
//! what it makes of the frames it gets, and the decisions of its connection
//! loop.  Dialing, sleeping and the streams themselves are the caller's.
use vstd::prelude::*;
use vstd::string::StringExecFns;
use crate::frame::{
    events_view, kind_frame, kind_number, strings_view, AckEventPayload, AckView, AuthPayload,
    EventView, FetchEventsPayload, Frame, FrameType, FrameView, Payload, PayloadView, PingPayload,
};
use crate::server::{ack_view, frames_view};

verus! {

/// A copy of a list of strings.
pub fn copy_strings(v: &Vec<String>) -> (r: Vec<String>)
    ensures
        strings_view(r@) == strings_view(v@),
{
    let mut out: Vec<String> = Vec::new();
    let mut i: usize = 0;
    while i < v.len()
        invariant
            i <= v@.len(),
            strings_view(out@) == strings_view(v@).take(i as int),
        decreases v@.len() - i,
    {
        let ghost before = out@;
        let s = v[i].clone();
        out.push(s);
        proof {
            assert(strings_view(out@) =~= strings_view(before).push(v@[i as int]@));
            assert(strings_view(v@).take(i as int + 1) =~= strings_view(v@).take(i as int).push(
                v@[i as int]@,
            ));
        }
        i = i + 1;
    }
    proof {
        assert(strings_view(v@).take(v@.len() as int) =~= strings_view(v@));
    }
    out
}

/// What a client connects with.
#[derive(Clone, Debug)]
pub struct ClientParams {
    pub client_id: String,
    pub namespaces: Vec<String>,
    pub token: String,
}

impl ClientParams {
    pub fn new(client_id: String, namespaces: Vec<String>, token: String) -> (r: ClientParams)
        ensures
            r.client_id@ == client_id@,
            strings_view(r.namespaces@) == strings_view(namespaces@),
            r.token@ == token@,
    {
        ClientParams { client_id, namespaces, token }
    }

    pub fn client_id(&self) -> (r: String)
        ensures
            r@ == self.client_id@,
    {
        self.client_id.clone()
    }

    pub fn namespaces(&self) -> (r: Vec<String>)
        ensures
            strings_view(r@) == strings_view(self.namespaces@),
    {
        copy_strings(&self.namespaces)
    }

    pub fn token(&self) -> (r: String)
        ensures
            r@ == self.token@,
    {
        self.token.clone()
    }
}

/// The prefix of every client id in the registry.
pub open spec fn id_prefix() -> Seq<char> {
    seq!['c', 'l', 'i', 'e', 'n', 't', '_', 'i', 'd', ':']
}

/// Builds [`ClientParams`]: a name, at least one namespace, and a token.
pub struct ClientBuilder {
    client_id: String,
    namespaces: Vec<String>,
    token: Option<String>,
}

impl ClientBuilder {
    pub closed spec fn name(&self) -> Seq<char> {
        self.client_id@
    }

    pub closed spec fn names(&self) -> Seq<Seq<char>> {
        strings_view(self.namespaces@)
    }

    pub closed spec fn secret(&self) -> Option<Seq<char>> {
        match self.token {
            Some(t) => Some(t@),
            None => None,
        }
    }

    /// A builder with the default name, no namespace and no token.
    pub fn new() -> (r: ClientBuilder)
        ensures
            r.name() == id_prefix() + seq!['d', 'e', 'f', 'a', 'u', 'l', 't'],
            r.names().len() == 0,
            r.secret() is None,
    {
        let id = String::from_str("client_id:default");
        proof {
            reveal_strlit("client_id:default");
            assert(id@ =~= id_prefix() + seq!['d', 'e', 'f', 'a', 'u', 'l', 't']);
        }
        let r = ClientBuilder { client_id: id, namespaces: Vec::new(), token: None };
        proof {
            assert(r.names() =~= Seq::<Seq<char>>::empty());
        }
        r
    }

    pub fn client_id(self, id: &str) -> (r: ClientBuilder)
        ensures
            r.name() == id@,
            r.names() == self.names(),
            r.secret() == self.secret(),
    {
        ClientBuilder { client_id: id.to_owned(), namespaces: self.namespaces, token: self.token }
    }

    /// Sets one namespace in place of any set before.
    pub fn namespace(self, ns: &str) -> (r: ClientBuilder)
        ensures
            r.name() == self.name(),
            r.names() == seq![ns@],
            r.secret() == self.secret(),
    {
        let mut namespaces: Vec<String> = Vec::new();
        namespaces.push(ns.to_owned());
        let r = ClientBuilder { client_id: self.client_id, namespaces, token: self.token };
        proof {
            assert(r.names() =~= seq![ns@]);
        }
        r
    }

    /// Sets the namespaces in place of any set before.
    pub fn namespaces(self, list: Vec<String>) -> (r: ClientBuilder)
        ensures
            r.name() == self.name(),
            r.names() == strings_view(list@),
            r.secret() == self.secret(),
    {
        ClientBuilder { client_id: self.client_id, namespaces: list, token: self.token }
    }

    pub fn token(self, token: &str) -> (r: ClientBuilder)
        ensures
            r.name() == self.name(),
            r.names() == self.names(),
            r.secret() == Some(token@),
    {
        ClientBuilder { client_id: self.client_id, namespaces: self.namespaces, token: Some(token.to_owned()) }
    }

    /// The parameters: the client id is the name after `client_id:`.  Fails
    /// without a namespace, then without a token.
    pub fn build(self) -> (r: Result<ClientParams, String>)
        ensures
            self.names().len() == 0 ==> (r matches Err(m) && m@
                == "At least one namespace is required"@),
            self.names().len() > 0 && self.secret() is None ==> (r matches Err(m) && m@
                == "Token must be provided"@),
            self.names().len() > 0 && self.secret() is Some ==> (r matches Ok(p) && p.client_id@
                == id_prefix() + self.name() && strings_view(p.namespaces@) == self.names()
                && p.token@ == self.secret()->Some_0),
    {
        if self.namespaces.len() == 0 {
            return Err(String::from_str("At least one namespace is required"));
        }
        let token = match self.token {
            Some(t) => t,
            None => return Err(String::from_str("Token must be provided")),
        };
        let mut id = String::from_str("client_id:");
        proof {
            reveal_strlit("client_id:");
            assert(id@ =~= id_prefix());
        }
        id.append(self.client_id.as_str());
        Ok(ClientParams::new(id, self.namespaces, token))
    }
}

/// How a ping loop or a client ends.
#[derive(Clone, Copy, Debug, PartialEq, Eq, Structural)]
pub enum Shutdown {
    ManualInterrupt,
}

// ---------------------------------------------------------------------------
// Requests
/// The acknowledgement of one event.
pub fn ack_event(stream_id: u32, namespace: String, event_id: String) -> (r: Frame)
    ensures
        r@ == kind_frame(
            stream_id,
            FrameType::AckEvent,
            Some(PayloadView::AckEvent(AckView { namespace: namespace@, event_id: event_id@ })),
        ),
{
    Frame::of_kind(stream_id, FrameType::AckEvent, Some(Payload::AckEvent(AckEventPayload { namespace, event_id })))
}

/// The request for the events of `namespaces`, at most `max` from each; a
/// `max` beyond 32 bits asks for as many as 32 bits can say.
pub fn fetch_events(stream_id: u32, namespaces: Vec<String>, max: usize) -> (r: Frame)
    ensures
        r@ == kind_frame(
            stream_id,
            FrameType::FetchEvents,
            Some(
                PayloadView::FetchEvents(
                    crate::frame::FetchView {
                        namespaces: strings_view(namespaces@),
                        limit: if max > u32::MAX {
                            u32::MAX
                        } else {
                            max as u32
                        },
                    },
                ),
            ),
        ),
{
    let limit: u32 = if max > u32::MAX as usize {
        u32::MAX
    } else {
        max as u32
    };
    Frame::of_kind(stream_id, FrameType::FetchEvents, Some(Payload::FetchEvents(FetchEventsPayload { namespaces, limit })))
}

/// The authentication request, on stream 0.
pub fn auth_request(client_id: String, token: String, namespaces: Vec<String>) -> (r: Frame)
    ensures
        r@ == kind_frame(
            0,
            FrameType::Auth,
            Some(
                PayloadView::Auth(
                    crate::frame::AuthView {
                        client_id: client_id@,
                        token: token@,
                        namespaces: strings_view(namespaces@),
                    },
                ),
            ),
        ),
{
    Frame::of_kind(0, FrameType::Auth, Some(Payload::Auth(AuthPayload { client_id, token, namespaces })))
}

/// A ping carrying the client's time and a sequence number.
pub fn ping_request(stream_id: u32, timestamp_ms: u64, seq: u64) -> (r: Frame)
    ensures
        r@ == kind_frame(
            stream_id,
            FrameType::Ping,
            Some(PayloadView::Ping(PingPayload { timestamp_ms, seq })),
        ),
{
    Frame::of_kind(stream_id, FrameType::Ping, Some(Payload::Ping(PingPayload { timestamp_ms, seq })))
}

// ---------------------------------------------------------------------------
// Replies
/// What the reply to an authentication request says.
#[derive(Clone, Copy, Debug, PartialEq, Eq, Structural)]
pub enum AuthReply {
    Accepted,
    Rejected,
    /// A frame of another kind came, with this kind number.
    Unexpected(i32),
    /// The stream ended first.
    NoReply,
}

pub fn classify_auth_reply(reply: Option<&Frame>) -> (r: AuthReply)
    ensures
        match reply {
            None => r == AuthReply::NoReply,
            Some(f) => if f.kind == kind_number(FrameType::AuthAck) {
                r == AuthReply::Accepted
            } else if f.kind == kind_number(FrameType::AuthError) {
                r == AuthReply::Rejected
            } else {
                r == AuthReply::Unexpected(f.kind)
            },
        },
{
    match reply {
        None => AuthReply::NoReply,
        Some(f) => {
            if f.kind == FrameType::AuthAck.as_i32() {
                AuthReply::Accepted
            } else if f.kind == FrameType::AuthError.as_i32() {
                AuthReply::Rejected
            } else {
                AuthReply::Unexpected(f.kind)
            }
        },
    }
}

/// The acknowledgements a received frame calls for: one for an Event
/// frame's event, one per event of an EventsBatch, in order, each on the
/// frame's stream; none for anything else.
pub open spec fn acks_for_frame(f: FrameView) -> Seq<FrameView> {
    if f.kind == kind_number(FrameType::Event) {
        match f.payload {
            Some(PayloadView::Event(e)) => seq![ack_view(f.stream_id, e)],
            _ => Seq::empty(),
        }
    } else if f.kind == kind_number(FrameType::EventsBatch) {
        match f.payload {
            Some(PayloadView::EventsBatch(evs)) => evs.map_values(|e: EventView| ack_view(f.stream_id, e)),
            _ => Seq::empty(),
        }
    } else {
        Seq::empty()
    }
}

pub fn acks_for(frame: &Frame) -> (r: Vec<Frame>)
    ensures
        frames_view(r@) == acks_for_frame(frame@),
{
    let mut out: Vec<Frame> = Vec::new();
    if frame.kind == FrameType::Event.as_i32() {
        if let Some(Payload::Event(e)) = &frame.payload {
            out.push(ack_event(frame.stream_id, e.namespace.clone(), e.id.clone()));
            proof {
                assert(frames_view(out@) =~= seq![ack_view(frame.stream_id, e@)]);
            }
            return out;
        }
    } else if frame.kind == FrameType::EventsBatch.as_i32() {
        if let Some(Payload::EventsBatch(b)) = &frame.payload {
            let ghost evs = events_view(b.events@);
            let mut i: usize = 0;
            while i < b.events.len()
                invariant
                    i <= b.events@.len(),
                    evs == events_view(b.events@),
                    frames_view(out@) == evs.take(i as int).map_values(
                        |e: EventView| ack_view(frame.stream_id, e),
                    ),
                decreases b.events@.len() - i,
            {
                let e = &b.events[i];
                let ghost before = frames_view(out@);
                let a = ack_event(frame.stream_id, e.namespace.clone(), e.id.clone());
                out.push(a);
                proof {
                    assert(frames_view(out@) =~= before.push(ack_view(frame.stream_id, evs[i as int])));
                    assert(evs.take(i as int + 1) =~= evs.take(i as int).push(evs[i as int]));
                    assert(frames_view(out@) =~= evs.take(i as int + 1).map_values(
                        |e: EventView| ack_view(frame.stream_id, e),
                    ));
                }
                i = i + 1;
            }
            proof {
                assert(evs.take(b.events@.len() as int) =~= evs);
            }
            return out;
        }
    }
    proof {
        assert(frames_view(out@) =~= Seq::<FrameView>::empty());
    }
    out
}

// ---------------------------------------------------------------------------
// Retry and backoff
/// The first delay before redialing, in seconds.
pub const BACKOFF_START_SECS: u64 = 1;
/// The longest delay before redialing, in seconds.
pub const BACKOFF_CAP_SECS: u64 = 30;
/// The wait after a disconnection before redialing, in seconds.
pub const RECONNECT_WAIT_SECS: u64 = 3;
/// How many times an acknowledgement is tried.
pub const ACK_MAX_ATTEMPTS: u32 = 5;

/// Exponential backoff: 1 s, doubled after each failure up to 30 s, back
/// to 1 s after a success.
pub struct Backoff {
    delay_secs: u64,
}

impl Backoff {
    pub closed spec fn delay(&self) -> u64 {
        self.delay_secs
    }

    pub open spec fn wf(&self) -> bool {
        BACKOFF_START_SECS <= self.delay() <= BACKOFF_CAP_SECS
    }

    pub fn new() -> (r: Backoff)
        ensures
            r.wf(),
            r.delay() == BACKOFF_START_SECS,
    {
        Backoff { delay_secs: BACKOFF_START_SECS }
    }

    /// The delay to wait now; the next one is twice as long, up to the cap.
    pub fn next_delay(&mut self) -> (r: u64)
        requires
            old(self).wf(),
        ensures
            final(self).wf(),
            r == old(self).delay(),
            final(self).delay() == if 2 * old(self).delay() > BACKOFF_CAP_SECS {
                BACKOFF_CAP_SECS as int
            } else {
                2 * old(self).delay()
            },
    {
        let d = self.delay_secs;
        self.delay_secs = if 2 * d > BACKOFF_CAP_SECS {
            BACKOFF_CAP_SECS
        } else {
            2 * d
        };
        d
    }

    pub fn reset(&mut self)
        ensures
            final(self).wf(),
            final(self).delay() == BACKOFF_START_SECS,
    {
        self.delay_secs = BACKOFF_START_SECS;
    }
}

/// Retries of one acknowledgement: at most five tries, waiting 1 s after
/// the first failure and twice as long after each next one.
pub struct AckRetry {
    failures: u32,
}

pub open spec fn pow2(k: nat) -> nat
    decreases k,
{
    if k == 0 {
        1
    } else {
        2 * pow2((k - 1) as nat)
    }
}

impl AckRetry {
    pub closed spec fn failed(&self) -> nat {
        self.failures as nat
    }

    pub fn new() -> (r: AckRetry)
        ensures
            r.failed() == 0,
    {
        AckRetry { failures: 0 }
    }

    /// Whether another try is due.
    pub fn may_try(&self) -> (r: bool)
        ensures
            r == (self.failed() < ACK_MAX_ATTEMPTS),
    {
        self.failures < ACK_MAX_ATTEMPTS
    }

    /// Records a failed try; gives the seconds to wait before the next.
    pub fn on_failure(&mut self) -> (r: u64)
        requires
            old(self).failed() < ACK_MAX_ATTEMPTS,
        ensures
            final(self).failed() == old(self).failed() + 1,
            r == pow2(old(self).failed()),
    {
        let k = self.failures;
        self.failures = k + 1;
        proof {
            reveal_with_fuel(pow2, 5);
        }
        if k == 0 {
            1
        } else if k == 1 {
            2
        } else if k == 2 {
            4
        } else if k == 3 {
            8
        } else {
            16
        }
    }
}

// ---------------------------------------------------------------------------
// The connection loop
/// Where a client is in its connection loop.
#[derive(Clone, Copy, Debug, PartialEq, Eq, Structural)]
pub enum ClientState {
    Dial,
    Auth,
    Steady,
    Disconnected,
    Stopped,
}

/// What happened since the last action.
#[derive(Clone, Copy, Debug, PartialEq, Eq, Structural)]
pub enum ClientEvent {
    Connected,
    ConnectFailed,
    AuthAccepted,
    /// AuthError, another frame, or no reply.
    AuthFailed,
    /// The receive stream ended, cleanly or not.
    StreamEnded,
    /// A wait is over.
    Waited,
    Cancelled,
}

/// What the caller does next.
#[derive(Clone, Copy, Debug, PartialEq, Eq, Structural)]
pub enum ClientAction {
    Connect,
    Authenticate,
    /// Open a stream, ask for the events, and read.
    Receive,
    Sleep(u64),
    Stop,
    /// Nothing: the event does not fit the state.
    Ignore,
}

/// The connection loop's transitions; `delay` is the backoff's current delay.
pub open spec fn client_next(s: ClientState, e: ClientEvent, delay: u64) -> (ClientState, ClientAction) {
    if s == ClientState::Stopped || e == ClientEvent::Cancelled {
        (ClientState::Stopped, ClientAction::Stop)
    } else {
        match (s, e) {
            (ClientState::Dial, ClientEvent::Connected) => (ClientState::Auth, ClientAction::Authenticate),
            (ClientState::Dial, ClientEvent::ConnectFailed) => (ClientState::Dial, ClientAction::Sleep(delay)),
            (ClientState::Dial, ClientEvent::Waited) => (ClientState::Dial, ClientAction::Connect),
            (ClientState::Auth, ClientEvent::AuthAccepted) => (ClientState::Steady, ClientAction::Receive),
            (ClientState::Auth, ClientEvent::AuthFailed) => (ClientState::Dial, ClientAction::Sleep(delay)),
            (ClientState::Auth, ClientEvent::StreamEnded) => (ClientState::Dial, ClientAction::Sleep(delay)),
            (ClientState::Steady, ClientEvent::StreamEnded) => (
                ClientState::Disconnected,
                ClientAction::Sleep(RECONNECT_WAIT_SECS),
            ),
            (ClientState::Disconnected, ClientEvent::Waited) => (ClientState::Dial, ClientAction::Connect),
            _ => (s, ClientAction::Ignore),
        }
    }
}

/// One client's connection loop: dial, authenticate, receive; on a failure
/// to dial or authenticate, wait with backoff and dial again; after a
/// disconnection, wait 3 s and dial again; stop when cancelled.
pub struct ClientSession {
    state: ClientState,
    backoff: Backoff,
}

impl ClientSession {
    pub closed spec fn current(&self) -> ClientState {
        self.state
    }

    pub closed spec fn delay(&self) -> u64 {
        self.backoff.delay()
    }

    pub closed spec fn wf(&self) -> bool {
        self.backoff.wf()
    }

    /// A session about to dial.
    pub fn new() -> (r: (ClientSession, ClientAction))
        ensures
            r.0.wf(),
            r.0.current() == ClientState::Dial,
            r.0.delay() == BACKOFF_START_SECS,
            r.1 == ClientAction::Connect,
    {
        (ClientSession { state: ClientState::Dial, backoff: Backoff::new() }, ClientAction::Connect)
    }

    pub fn state(&self) -> (r: ClientState)
        ensures
            r == self.current(),
    {
        self.state
    }

    /// Takes an event, gives the next action.  A connection that
    /// authenticates resets the backoff; each backoff wait doubles it.
    pub fn step(&mut self, e: ClientEvent) -> (r: ClientAction)
        requires
            old(self).wf(),
        ensures
            final(self).wf(),
            (final(self).current(), r) == client_next(old(self).current(), e, old(self).delay()),
            e == ClientEvent::AuthAccepted && old(self).current() == ClientState::Auth
                ==> final(self).delay() == BACKOFF_START_SECS,
    {
        if matches!(self.state, ClientState::Stopped) || matches!(e, ClientEvent::Cancelled) {
            self.state = ClientState::Stopped;
            return ClientAction::Stop;
        }
        match (self.state, e) {
            (ClientState::Dial, ClientEvent::Connected) => {
                self.state = ClientState::Auth;
                ClientAction::Authenticate
            },
            (ClientState::Dial, ClientEvent::ConnectFailed) => ClientAction::Sleep(self.backoff.next_delay()),
            (ClientState::Dial, ClientEvent::Waited) => ClientAction::Connect,
            (ClientState::Auth, ClientEvent::AuthAccepted) => {
                self.state = ClientState::Steady;
                self.backoff.reset();
                ClientAction::Receive
            },
            (ClientState::Auth, ClientEvent::AuthFailed) | (ClientState::Auth, ClientEvent::StreamEnded) => {
                self.state = ClientState::Dial;
                ClientAction::Sleep(self.backoff.next_delay())
            },
            (ClientState::Steady, ClientEvent::StreamEnded) => {
                self.state = ClientState::Disconnected;
                ClientAction::Sleep(RECONNECT_WAIT_SECS)
            },
            (ClientState::Disconnected, ClientEvent::Waited) => {
                self.state = ClientState::Dial;
                ClientAction::Connect
            },
            _ => ClientAction::Ignore,
        }
    }
}

/// Retries of opening a ping stream: wait 1 s after a failure, doubling up
/// to 30 s; after more than five failures in a row, give the connection up.
pub struct PingRetry {
    failures: u32,
    backoff: Backoff,
}

impl PingRetry {
    pub closed spec fn failed(&self) -> nat {
        self.failures as nat
    }

    pub closed spec fn delay(&self) -> u64 {
        self.backoff.delay()
    }

    pub closed spec fn wf(&self) -> bool {
        self.backoff.wf() && self.failures <= 6
    }

    pub fn new() -> (r: PingRetry)
        ensures
            r.wf(),
            r.failed() == 0,
            r.delay() == BACKOFF_START_SECS,
    {
        PingRetry { failures: 0, backoff: Backoff::new() }
    }

    /// A stream opened: the count and the delay start over.
    pub fn opened(&mut self)
        ensures
            final(self).wf(),
            final(self).failed() == 0,
            final(self).delay() == BACKOFF_START_SECS,
    {
        self.failures = 0;
        self.backoff.reset();
    }

    /// A stream failed to open: the seconds to wait, and whether to give the
    /// connection up after the wait.
    pub fn open_failed(&mut self) -> (r: (u64, bool))
        requires
            old(self).wf(),
            old(self).failed() <= 5,
        ensures
            final(self).wf(),
            final(self).failed() == old(self).failed() + 1,
            r.0 == old(self).delay(),
            final(self).delay() == if 2 * old(self).delay() > BACKOFF_CAP_SECS {
                BACKOFF_CAP_SECS as int
            } else {
                2 * old(self).delay()
            },
            r.1 == (final(self).failed() > 5),
    {
        self.failures = self.failures + 1;
        let d = self.backoff.next_delay();
        (d, self.failures > 5)
    }
}

} // verus!
