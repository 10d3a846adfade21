use vstd::prelude::*;

use std::collections::HashSet;
use std::collections::VecDeque;

use backoff::backoff::Backoff;

verus! {

/// A strictly monotonically increasing ID for outbound requests.
#[derive(Debug, PartialEq, Eq, Hash, PartialOrd, Ord, Structural)]
pub struct OutboundRequestId(u64);

impl View for OutboundRequestId {
    type V = u64;

    closed spec fn view(&self) -> u64 {
        self.0
    }
}

impl OutboundRequestId {
    /// Makes an ID from its number; meant for tests.
    pub fn for_test(id: u64) -> (r: Self)
        ensures
            r@ == id,
    {
        OutboundRequestId(id)
    }

    /// Makes a copy of this ID.
    ///
    /// IDs are meant to be unique, which is why the type is not `Clone`.
    pub fn copy(&self) -> (r: Self)
        ensures
            r@ == self@,
    {
        OutboundRequestId(self.0)
    }

    /// The number of this ID.
    pub fn value(&self) -> (r: u64)
        ensures
            r == self@,
    {
        self.0
    }
}


#[verifier::external_type_specification]
#[verifier::external_body]
#[verifier::reject_recursive_types(C)]
pub struct ExExponentialBackoff<C>(backoff::exponential::ExponentialBackoff<C>);

#[verifier::external_type_specification]
#[verifier::external_body]
pub struct ExSystemClock(backoff::SystemClock);

/// The reconnect backoff of the channel.
pub type ReconnectBackoff = backoff::exponential::ExponentialBackoff<backoff::SystemClock>;

/// Relies on backoff's `Backoff::next_backoff` for `ExponentialBackoff`: the
/// next delay in milliseconds, or `None` once the maximum elapsed time is
/// spent. It reads the clock and a random number, so nothing is promised of it.
#[verifier::external_body]
fn next_backoff_millis(b: &mut ReconnectBackoff) -> (r: Option<u64>) {
    match b.next_backoff() {
        Some(d) => Some(d.as_millis() as u64),
        None => None,
    }
}

/// Relies on backoff's `Backoff::reset` for `ExponentialBackoff`: restarts the
/// interval and the elapsed time.
#[verifier::external_body]
fn reset_backoff(b: &mut ReconnectBackoff) {
    b.reset()
}

/// How often a heartbeat is sent, in milliseconds.
pub const HEARTBEAT_INTERVAL_MS: u64 = 30_000;

/// How long the reply to a heartbeat may take, in milliseconds.
pub const HEARTBEAT_TIMEOUT_MS: u64 = 5_000;

/// The reason of an error reply from the portal.
#[derive(Debug, Clone, Copy, PartialEq, Eq, Structural)]
pub enum ErrorReply {
    UnmatchedTopic,
    NotFound,
    InvalidVersion,
    Offline,
    Disabled,
    Other,
}

pub open spec fn error_reply_text(e: ErrorReply) -> Seq<char> {
    match e {
        ErrorReply::UnmatchedTopic => "unmatched topic"@,
        ErrorReply::NotFound => "not found"@,
        ErrorReply::InvalidVersion => "invalid version"@,
        ErrorReply::Offline => "offline"@,
        ErrorReply::Disabled => "disabled"@,
        ErrorReply::Other => "other"@,
    }
}

impl ErrorReply {
    /// The reason as the portal writes it.
    pub fn as_str(&self) -> (r: &'static str)
        ensures
            r@ == error_reply_text(*self),
    {
        match self {
            ErrorReply::UnmatchedTopic => "unmatched topic",
            ErrorReply::NotFound => "not found",
            ErrorReply::InvalidVersion => "invalid version",
            ErrorReply::Offline => "offline",
            ErrorReply::Disabled => "disabled",
            ErrorReply::Other => "other",
        }
    }
}

/// Why the portal disconnected us.
#[derive(Debug, Clone, Copy, PartialEq, Eq, Structural)]
pub enum DisconnectReason {
    TokenExpired,
}

/// A graceful close was asked for while a connection was still being set up.
#[derive(Debug, Clone, Copy, PartialEq, Eq, Structural)]
pub struct Connecting;

/// The errors that end the channel; the caller is told of them.
#[derive(Debug, Clone, Copy, PartialEq, Eq, Structural)]
pub enum Error {
    /// The portal refused the connection with this HTTP client error status.
    Client(u16),
    TokenExpired,
    MaxRetriesReached,
    LoginFailed(ErrorReply),
}

pub open spec fn is_auth_error(e: Error) -> bool {
    match e {
        Error::Client(s) => s == 401 || s == 403,
        Error::TokenExpired => true,
        _ => false,
    }
}

impl Error {
    /// Whether the error says that our credentials were refused.
    pub fn is_authentication_error(&self) -> (r: bool)
        ensures
            r == is_auth_error(*self),
    {
        match self {
            Error::Client(s) => *s == 401 || *s == 403,
            Error::TokenExpired => true,
            Error::MaxRetriesReached => false,
            Error::LoginFailed(_) => false,
        }
    }
}

/// What a reply with status `ok` carries.
#[derive(Debug, Clone, PartialEq, Eq)]
pub enum OkReply<R> {
    Message(R),
    NoMessage,
}

/// The payload of a `phx_reply` frame.
#[derive(Debug, Clone, PartialEq, Eq)]
pub enum Reply<R> {
    Success(OkReply<R>),
    Failure { reason: ErrorReply },
}

/// The event and payload of a frame.
#[derive(Debug, Clone, PartialEq, Eq)]
pub enum Payload<T, R> {
    Reply(Reply<R>),
    Error,
    Close,
    Disconnect { reason: DisconnectReason },
    Message(T),
}

/// The reason of an error reply as the portal writes it; any reason not
/// known here is `Other`.
pub open spec fn error_reply_of(s: Seq<char>) -> ErrorReply {
    if s == "unmatched topic"@ {
        ErrorReply::UnmatchedTopic
    } else if s == "not_found"@ {
        ErrorReply::NotFound
    } else if s == "invalid_version"@ {
        ErrorReply::InvalidVersion
    } else if s == "offline"@ {
        ErrorReply::Offline
    } else if s == "disabled"@ {
        ErrorReply::Disabled
    } else {
        ErrorReply::Other
    }
}

/// Reads the reason of an error reply.
pub fn error_reply_from_reason(reason: &String) -> (r: ErrorReply)
    ensures
        r == error_reply_of(reason@),
{
    proof {
        reveal_strlit("unmatched topic");
        reveal_strlit("not_found");
        reveal_strlit("invalid_version");
        reveal_strlit("offline");
        reveal_strlit("disabled");
    }
    if *reason == "unmatched topic".to_owned() {
        ErrorReply::UnmatchedTopic
    } else if *reason == "not_found".to_owned() {
        ErrorReply::NotFound
    } else if *reason == "invalid_version".to_owned() {
        ErrorReply::InvalidVersion
    } else if *reason == "offline".to_owned() {
        ErrorReply::Offline
    } else if *reason == "disabled".to_owned() {
        ErrorReply::Disabled
    } else {
        ErrorReply::Other
    }
}

/// What the payload of a frame holds, as read from the wire: the `status`
/// and reason of a reply (or the `reason` of a disconnect), the payload read
/// as an inbound message, the `response` read as a reply, and whether that
/// `response` is an empty object.
pub struct FrameParts<T, R> {
    pub status: Option<String>,
    pub reason: Option<String>,
    pub message: Option<T>,
    pub reply: Option<R>,
    pub empty_response: bool,
}

/// The payload that a frame with event `event` and payload `parts` carries,
/// if it is well-formed. A frame whose event is none of the protocol's own
/// is an inbound message.
pub open spec fn payload_of<T, R>(event: Seq<char>, parts: FrameParts<T, R>) -> Option<Payload<T, R>> {
    let tagged = if event == "phx_reply"@ {
        match parts.status {
            Some(st) => if st@ == "ok"@ {
                match parts.reply {
                    Some(x) => Some(Payload::Reply(Reply::Success(OkReply::Message(x)))),
                    None => if parts.empty_response { Some(Payload::Reply(Reply::Success(OkReply::NoMessage))) } else { None },
                }
            } else if st@ == "error"@ {
                match parts.reason {
                    Some(reason) => Some(Payload::Reply(Reply::Failure { reason: error_reply_of(reason@) })),
                    None => None,
                }
            } else {
                None
            },
            None => None,
        }
    } else if event == "phx_error"@ {
        Some(Payload::Error)
    } else if event == "phx_close"@ {
        Some(Payload::Close)
    } else if event == "disconnect"@ {
        match parts.reason {
            Some(reason) => if reason@ == "token_expired"@ {
                Some(Payload::Disconnect { reason: DisconnectReason::TokenExpired })
            } else {
                None
            },
            None => None,
        }
    } else {
        None
    };
    match tagged {
        Some(p) => Some(p),
        None => match parts.message {
            Some(m) => Some(Payload::Message(m)),
            None => None,
        },
    }
}

impl<T, R> Payload<T, R> {
    /// Reads the payload of a frame from its event and parts; `None` where
    /// the frame is malformed.
    pub fn from_parts(event: &String, parts: FrameParts<T, R>) -> (r: Option<Self>)
        ensures
            r == payload_of(event@, parts),
    {
        proof {
            reveal_strlit("phx_reply");
            reveal_strlit("phx_error");
            reveal_strlit("phx_close");
            reveal_strlit("disconnect");
            reveal_strlit("ok");
            reveal_strlit("error");
            reveal_strlit("token_expired");
        }
        let FrameParts { status, reason, message, reply, empty_response } = parts;
        let fallback = message;
        let tagged: Option<Payload<T, R>> = if *event == "phx_reply".to_owned() {
            match status {
                Some(st) => {
                    if st == "ok".to_owned() {
                        match reply {
                            Some(x) => Some(Payload::Reply(Reply::Success(OkReply::Message(x)))),
                            None => if empty_response { Some(Payload::Reply(Reply::Success(OkReply::NoMessage))) } else { None },
                        }
                    } else if st == "error".to_owned() {
                        match reason {
                            Some(reason) => Some(Payload::Reply(Reply::Failure { reason: error_reply_from_reason(&reason) })),
                            None => None,
                        }
                    } else {
                        None
                    }
                },
                None => None,
            }
        } else if *event == "phx_error".to_owned() {
            Some(Payload::Error)
        } else if *event == "phx_close".to_owned() {
            Some(Payload::Close)
        } else if *event == "disconnect".to_owned() {
            match reason {
                Some(reason) => {
                    if reason == "token_expired".to_owned() {
                        Some(Payload::Disconnect { reason: DisconnectReason::TokenExpired })
                    } else {
                        None
                    }
                },
                None => None,
            }
        } else {
            None
        };
        match tagged {
            Some(p) => Some(p),
            None => match fallback {
                Some(m) => Some(Payload::Message(m)),
                None => None,
            },
        }
    }
}

/// A frame of the portal protocol: `{ topic, event, payload, ref }`.
#[derive(Debug, PartialEq, Eq)]
pub struct PhoenixMessage<T, R> {
    pub topic: String,
    pub payload: Payload<T, R>,
    pub reference: Option<OutboundRequestId>,
}

impl<T, R> PhoenixMessage<T, R> {
    pub fn new_message(topic: String, payload: T, reference: Option<OutboundRequestId>) -> (r: Self)
        ensures
            r.topic@ == topic@,
            r.payload == Payload::<T, R>::Message(payload),
            r.reference == reference,
    {
        PhoenixMessage { topic, payload: Payload::Message(payload), reference }
    }

    pub fn new_ok_reply(topic: String, payload: R, reference: Option<OutboundRequestId>) -> (r: Self)
        ensures
            r.topic@ == topic@,
            r.payload == Payload::<T, R>::Reply(Reply::Success(OkReply::Message(payload))),
            r.reference == reference,
    {
        PhoenixMessage { topic, payload: Payload::Reply(Reply::Success(OkReply::Message(payload))), reference }
    }

    pub fn new_err_reply(topic: String, reason: ErrorReply, reference: Option<OutboundRequestId>) -> (r: Self)
        ensures
            r.topic@ == topic@,
            r.payload == Payload::<T, R>::Reply(Reply::Failure { reason }),
            r.reference == reference,
    {
        PhoenixMessage { topic, payload: Payload::Reply(Reply::Failure { reason }), reference }
    }
}


/// Where the channel's connection to the portal stands.
#[derive(Debug, Clone, Copy, PartialEq, Eq, Structural)]
pub enum ChannelState {
    /// A connection attempt is under way.
    Connecting,
    /// The connection broke on a transient error; a new attempt follows after
    /// a backoff.
    Retrying,
    Connected,
    Closing,
    Closed,
}

/// The event and payload of an outbound frame.
#[derive(Debug, Clone, PartialEq, Eq)]
pub enum EgressPayload<T> {
    /// `phx_join` with the login payload.
    Join(T),
    /// `heartbeat` with an empty payload.
    Heartbeat,
    Message(T),
}

/// A frame that waits to be sent, with the request ID in its `ref`.
#[derive(Debug, PartialEq, Eq)]
pub struct OutboundFrame<T> {
    pub topic: String,
    pub payload: EgressPayload<T>,
    pub reference: OutboundRequestId,
}

/// What the channel reports to its user.
#[derive(Debug, PartialEq, Eq)]
pub enum Event<I, R> {
    SuccessResponse { topic: String, req_id: OutboundRequestId, res: R },
    ErrorResponse { topic: String, req_id: OutboundRequestId, res: ErrorReply },
    JoinedRoom { topic: String },
    HeartbeatSent,
    /// The portal sent us a message, most likely a broadcast.
    InboundMessage { topic: String, msg: I },
    /// The connection was closed on our request.
    Closed,
}

/// The decisions of a long-lived channel to the portal: login, heartbeats,
/// reconnects, request IDs and reply correlation.
///
/// The caller owns the socket. It performs what the state asks for, hands
/// the outcome back through the `handle_*` methods, and sends the frames
/// that `poll_outbound` gives out.
pub struct PhoenixChannel<T> {
    state: ChannelState,
    pending_messages: VecDeque<OutboundFrame<T>>,
    next_request_id: u64,
    pending_join_requests: HashSet<u64>,
    /// The heartbeat that waits for its reply: its request ID and when it
    /// was sent.
    heartbeat_pending: Option<(u64, u64)>,
    next_heartbeat_at: u64,
    login: String,
    init_req: T,
    reconnect_backoff: ReconnectBackoff,
}

/// The request ID that follows `id`.
pub open spec fn next_id(id: u64) -> u64 {
    if id < u64::MAX { (id + 1) as u64 } else { 0 }
}

impl<T: Clone> PhoenixChannel<T> {
    pub closed spec fn spec_state(&self) -> ChannelState {
        self.state
    }

    pub closed spec fn spec_queue(&self) -> Seq<OutboundFrame<T>> {
        self.pending_messages@
    }

    pub closed spec fn spec_next_request_id(&self) -> u64 {
        self.next_request_id
    }

    pub closed spec fn spec_join_requests(&self) -> Set<u64> {
        self.pending_join_requests@
    }

    pub closed spec fn spec_heartbeat_pending(&self) -> Option<(u64, u64)> {
        self.heartbeat_pending
    }

    pub closed spec fn spec_next_heartbeat_at(&self) -> u64 {
        self.next_heartbeat_at
    }

    pub closed spec fn spec_login(&self) -> Seq<char> {
        self.login@
    }

    /// A channel that starts connecting; `login` is the topic joined with
    /// `init_req` once connected.
    pub fn connect(login: String, init_req: T, reconnect_backoff: ReconnectBackoff) -> (r: Self)
        ensures
            r.spec_state() == ChannelState::Connecting,
            r.spec_queue().len() == 0,
            r.spec_next_request_id() == 0,
            r.spec_join_requests() == Set::<u64>::empty(),
            r.spec_heartbeat_pending().is_none(),
            r.spec_login() == login@,
    {
        PhoenixChannel {
            state: ChannelState::Connecting,
            pending_messages: VecDeque::new(),
            next_request_id: 0,
            pending_join_requests: HashSet::new(),
            heartbeat_pending: None,
            next_heartbeat_at: 0,
            login,
            init_req,
            reconnect_backoff,
        }
    }

    pub fn state(&self) -> (r: ChannelState)
        ensures
            r == self.spec_state(),
    {
        self.state
    }

    fn fetch_add_request_id(&mut self) -> (r: OutboundRequestId)
        ensures
            r@ == old(self).next_request_id,
            final(self).next_request_id == next_id(old(self).next_request_id),
            final(self).state == old(self).state,
            final(self).pending_messages == old(self).pending_messages,
            final(self).pending_join_requests == old(self).pending_join_requests,
            final(self).heartbeat_pending == old(self).heartbeat_pending,
            final(self).next_heartbeat_at == old(self).next_heartbeat_at,
            final(self).login == old(self).login,
    {
        let id = self.next_request_id;
        self.next_request_id = if id < u64::MAX { id + 1 } else { 0 };
        OutboundRequestId(id)
    }

    /// Joins the room `topic`; the join frame goes out before all others.
    pub fn join(&mut self, topic: String, payload: T) -> (r: OutboundRequestId)
        ensures
            r@ == old(self).spec_next_request_id(),
            final(self).spec_next_request_id() == next_id(old(self).spec_next_request_id()),
            final(self).spec_queue() == seq![
                OutboundFrame { topic, payload: EgressPayload::Join(payload), reference: r },
            ] + old(self).spec_queue(),
            final(self).spec_join_requests() == old(self).spec_join_requests().insert(r@),
            final(self).spec_state() == old(self).spec_state(),
            final(self).spec_heartbeat_pending() == old(self).spec_heartbeat_pending(),
            final(self).spec_next_heartbeat_at() == old(self).spec_next_heartbeat_at(),
            final(self).spec_login() == old(self).spec_login(),
    {
        let id = self.fetch_add_request_id();
        let n = id.value();
        self.pending_messages.push_front(
            OutboundFrame { topic, payload: EgressPayload::Join(payload), reference: id.copy() },
        );
        self.pending_join_requests.insert(n);
        id
    }

    /// Queues `message` for `topic`, giving back its request ID.
    pub fn send(&mut self, topic: String, message: T) -> (r: OutboundRequestId)
        ensures
            r@ == old(self).spec_next_request_id(),
            final(self).spec_next_request_id() == next_id(old(self).spec_next_request_id()),
            r@ < final(self).spec_next_request_id() || r@ == u64::MAX,
            final(self).spec_queue() == old(self).spec_queue().push(
                OutboundFrame { topic, payload: EgressPayload::Message(message), reference: r },
            ),
            final(self).spec_join_requests() == old(self).spec_join_requests(),
            final(self).spec_state() == old(self).spec_state(),
            final(self).spec_heartbeat_pending() == old(self).spec_heartbeat_pending(),
            final(self).spec_next_heartbeat_at() == old(self).spec_next_heartbeat_at(),
            final(self).spec_login() == old(self).spec_login(),
    {
        let id = self.fetch_add_request_id();
        self.pending_messages.push_back(
            OutboundFrame { topic, payload: EgressPayload::Message(message), reference: id.copy() },
        );
        id
    }

    /// Starts a new connection attempt at once, with a fresh backoff.
    pub fn reconnect(&mut self)
        ensures
            final(self).spec_state() == ChannelState::Connecting,
            final(self).spec_queue() == old(self).spec_queue(),
            final(self).spec_next_request_id() == old(self).spec_next_request_id(),
            final(self).spec_join_requests() == old(self).spec_join_requests(),
    {
        reset_backoff(&mut self.reconnect_backoff);
        self.state = ChannelState::Connecting;
    }

    /// Starts a graceful close.
    ///
    /// While a connection is being set up there is nothing to close: the
    /// attempt is dropped and `Connecting` is returned.
    pub fn close(&mut self) -> (r: Result<(), Connecting>)
        ensures
            match old(self).spec_state() {
                ChannelState::Connecting | ChannelState::Retrying => {
                    &&& r == Err::<(), Connecting>(Connecting)
                    &&& final(self).spec_state() == ChannelState::Closed
                },
                ChannelState::Connected | ChannelState::Closing => {
                    &&& r == Ok::<(), Connecting>(())
                    &&& final(self).spec_state() == ChannelState::Closing
                },
                ChannelState::Closed => {
                    &&& r == Ok::<(), Connecting>(())
                    &&& final(self).spec_state() == ChannelState::Closed
                },
            },
            final(self).spec_queue() == old(self).spec_queue(),
    {
        match self.state {
            ChannelState::Connecting | ChannelState::Retrying => {
                self.state = ChannelState::Closed;
                Err(Connecting)
            },
            ChannelState::Connected | ChannelState::Closing => {
                self.state = ChannelState::Closing;
                Ok(())
            },
            ChannelState::Closed => Ok(()),
        }
    }

    /// The socket finished closing (or failed to): the channel is closed.
    pub fn handle_closed<I, R>(&mut self) -> (r: Event<I, R>)
        ensures
            r == Event::<I, R>::Closed,
            final(self).spec_state() == ChannelState::Closed,
            final(self).spec_queue() == old(self).spec_queue(),
    {
        self.state = ChannelState::Closed;
        Event::Closed
    }

    /// The connection broke on a transient error: WebSocket IO, a close
    /// frame, the end of the stream or a missed heartbeat.
    pub fn handle_transient_error(&mut self)
        ensures
            final(self).spec_state() == ChannelState::Retrying,
            final(self).spec_queue() == old(self).spec_queue(),
            final(self).spec_next_request_id() == old(self).spec_next_request_id(),
            final(self).spec_join_requests() == old(self).spec_join_requests(),
            final(self).spec_heartbeat_pending() == old(self).spec_heartbeat_pending(),
            final(self).spec_login() == old(self).spec_login(),
    {
        self.state = ChannelState::Retrying;
    }

    /// The connection attempt succeeded at `now` (milliseconds): the backoff
    /// and the heartbeat start afresh, and the login topic is joined first.
    pub fn handle_connect_success(&mut self, now: u64)
        ensures
            final(self).spec_state() == ChannelState::Connected,
            final(self).spec_heartbeat_pending().is_none(),
            final(self).spec_next_heartbeat_at() == sat_add(now, HEARTBEAT_INTERVAL_MS),
            final(self).spec_next_request_id() == next_id(old(self).spec_next_request_id()),
            final(self).spec_join_requests() == old(self).spec_join_requests().insert(
                old(self).spec_next_request_id(),
            ),
            final(self).spec_queue().len() == old(self).spec_queue().len() + 1,
            final(self).spec_queue()[0].topic@ == old(self).spec_login(),
            final(self).spec_queue()[0].payload is Join,
            final(self).spec_queue()[0].reference@ == old(self).spec_next_request_id(),
            final(self).spec_queue().drop_first() == old(self).spec_queue(),
            final(self).spec_login() == old(self).spec_login(),
    {
        reset_backoff(&mut self.reconnect_backoff);
        self.heartbeat_pending = None;
        self.next_heartbeat_at = now.saturating_add(HEARTBEAT_INTERVAL_MS);
        self.state = ChannelState::Connected;
        let topic = self.login.clone();
        let init = self.init_req.clone();
        let ghost q = self.pending_messages@;
        let _ = self.join(topic, init);
        proof {
            assert(self.pending_messages@.drop_first() =~= q);
        }
    }

    /// Decides, from what the backoff gave (`None` once it is spent), whether
    /// to try again: `Ok(delay)` in milliseconds, or `MaxRetriesReached`.
    pub fn apply_backoff(&mut self, backoff: Option<u64>) -> (r: Result<u64, Error>)
        ensures
            match backoff {
                Some(d) => r == Ok::<u64, Error>(d) && final(self).spec_state() == ChannelState::Connecting,
                None => r == Err::<u64, Error>(Error::MaxRetriesReached)
                    && final(self).spec_state() == old(self).spec_state(),
            },
            final(self).spec_queue() == old(self).spec_queue(),
            final(self).spec_next_request_id() == old(self).spec_next_request_id(),
            final(self).spec_join_requests() == old(self).spec_join_requests(),
    {
        match backoff {
            Some(d) => {
                self.state = ChannelState::Connecting;
                Ok(d)
            },
            None => Err(Error::MaxRetriesReached),
        }
    }

    /// The connection attempt failed, with the HTTP status of the portal's
    /// answer if there was one.
    ///
    /// A client error status (4xx) ends the channel; anything else is retried
    /// after the next backoff delay, as long as the backoff allows.
    pub fn handle_connect_failure(&mut self, http_status: Option<u16>) -> (r: Result<u64, Error>)
        ensures
            match http_status {
                Some(s) if 400 <= s <= 499 => r == Err::<u64, Error>(Error::Client(s))
                    && final(self).spec_state() == old(self).spec_state(),
                _ => match r {
                    Ok(_) => final(self).spec_state() == ChannelState::Connecting,
                    Err(e) => e == Error::MaxRetriesReached
                        && final(self).spec_state() == old(self).spec_state(),
                },
            },
            final(self).spec_queue() == old(self).spec_queue(),
            final(self).spec_next_request_id() == old(self).spec_next_request_id(),
            final(self).spec_join_requests() == old(self).spec_join_requests(),
    {
        match http_status {
            Some(s) => {
                if 400 <= s && s <= 499 {
                    return Err(Error::Client(s));
                }
            },
            None => {},
        }
        let backoff = next_backoff_millis(&mut self.reconnect_backoff);
        self.apply_backoff(backoff)
    }

    /// Runs the heartbeat at `now` (milliseconds) on a connected channel.
    ///
    /// A heartbeat whose reply is overdue breaks the connection; otherwise,
    /// once the interval is over, a heartbeat frame is queued.
    pub fn poll_heartbeat<I, R>(&mut self, now: u64) -> (r: Option<Event<I, R>>)
        ensures
            old(self).spec_state() != ChannelState::Connected ==> r.is_none() && *final(self)
                == *old(self),
            old(self).spec_state() == ChannelState::Connected ==> match old(self).spec_heartbeat_pending() {
                Some((id, sent)) if now >= sat_add(sent, HEARTBEAT_TIMEOUT_MS) => {
                    &&& r.is_none()
                    &&& final(self).spec_state() == ChannelState::Retrying
                    &&& final(self).spec_heartbeat_pending().is_none()
                    &&& final(self).spec_queue() == old(self).spec_queue()
                    &&& final(self).spec_next_request_id() == old(self).spec_next_request_id()
                },
                _ => if now >= old(self).spec_next_heartbeat_at() {
                    &&& r == Some(Event::<I, R>::HeartbeatSent)
                    &&& final(self).spec_state() == ChannelState::Connected
                    &&& final(self).spec_heartbeat_pending() == Some(
                        (old(self).spec_next_request_id(), now),
                    )
                    &&& final(self).spec_next_heartbeat_at() == sat_add(now, HEARTBEAT_INTERVAL_MS)
                    &&& final(self).spec_next_request_id() == next_id(old(self).spec_next_request_id())
                    &&& final(self).spec_queue().len() == old(self).spec_queue().len() + 1
                    &&& final(self).spec_queue().drop_last() == old(self).spec_queue()
                    &&& final(self).spec_queue().last().topic@ == "phoenix"@
                    &&& final(self).spec_queue().last().payload == EgressPayload::<T>::Heartbeat
                    &&& final(self).spec_queue().last().reference@ == old(self).spec_next_request_id()
                } else {
                    r.is_none() && *final(self) == *old(self)
                },
            },
            final(self).spec_join_requests() == old(self).spec_join_requests(),
            final(self).spec_login() == old(self).spec_login(),
    {
        if self.state != ChannelState::Connected {
            return None;
        }
        match self.heartbeat_pending {
            Some((_, sent)) => {
                if now >= sent.saturating_add(HEARTBEAT_TIMEOUT_MS) {
                    self.heartbeat_pending = None;
                    self.handle_transient_error();
                    return None;
                }
            },
            None => {},
        }
        if now < self.next_heartbeat_at {
            return None;
        }
        let id = self.fetch_add_request_id();
        self.heartbeat_pending = Some((id.value(), now));
        self.next_heartbeat_at = now.saturating_add(HEARTBEAT_INTERVAL_MS);
        let ghost q = self.pending_messages@;
        self.pending_messages.push_back(
            OutboundFrame { topic: "phoenix".to_owned(), payload: EgressPayload::Heartbeat, reference: id },
        );
        proof {
            reveal_strlit("phoenix");
            assert(self.pending_messages@.drop_last() =~= q);
        }
        Some(Event::HeartbeatSent)
    }

    /// Handles a frame from the portal.
    ///
    /// Gives back what the user is to see of it, or `None` where the frame is
    /// handled here (heartbeat replies, replies without a `ref`, close frames).
    pub fn handle_inbound<I, R>(&mut self, message: PhoenixMessage<I, R>) -> (r: Option<Result<Event<I, R>, Error>>)
        ensures
            inbound_outcome(
                old(self).spec_login(),
                old(self).spec_join_requests(),
                old(self).spec_heartbeat_pending(),
                message,
                r,
                final(self).spec_join_requests(),
                final(self).spec_heartbeat_pending(),
                old(self).spec_state(),
                final(self).spec_state(),
            ),
            final(self).spec_queue() == old(self).spec_queue(),
            final(self).spec_next_request_id() == old(self).spec_next_request_id(),
            final(self).spec_login() == old(self).spec_login(),
    {
        let PhoenixMessage { topic, payload, reference } = message;
        match payload {
            Payload::Message(msg) => Some(Ok(Event::InboundMessage { topic, msg })),
            Payload::Reply(reply) => {
                let req_id = match reference {
                    Some(id) => id,
                    None => {
                        return None;
                    },
                };
                let n = req_id.value();
                match reply {
                    Reply::Failure { reason } => {
                        if topic == self.login && self.pending_join_requests.contains(&n) {
                            return Some(Err(Error::LoginFailed(reason)));
                        }
                        Some(Ok(Event::ErrorResponse { topic, req_id, res: reason }))
                    },
                    Reply::Success(OkReply::Message(res)) => {
                        if self.pending_join_requests.remove(&n) {
                            return Some(Ok(Event::JoinedRoom { topic }));
                        }
                        Some(Ok(Event::SuccessResponse { topic, req_id, res }))
                    },
                    Reply::Success(OkReply::NoMessage) => {
                        match self.heartbeat_pending {
                            Some((id, _)) => {
                                if id == n {
                                    self.heartbeat_pending = None;
                                }
                            },
                            None => {},
                        }
                        None
                    },
                }
            },
            Payload::Error => None,
            Payload::Close => {
                self.handle_transient_error();
                None
            },
            Payload::Disconnect { reason: DisconnectReason::TokenExpired } => Some(Err(Error::TokenExpired)),
        }
    }


    pub fn poll_outbound(&mut self) -> (r: Option<OutboundFrame<T>>)
        ensures
            old(self).spec_queue().len() == 0 ==> r.is_none() && final(self).spec_queue()
                == old(self).spec_queue(),
            old(self).spec_queue().len() > 0 ==> r == Some(old(self).spec_queue()[0])
                && final(self).spec_queue() == old(self).spec_queue().drop_first(),
            final(self).spec_state() == old(self).spec_state(),
    {
        self.pending_messages.pop_front()
    }

    /// A frame could not be sent: it goes back to the front of the queue and
    /// the connection is retried.
    pub fn handle_send_failure(&mut self, frame: OutboundFrame<T>)
        ensures
            final(self).spec_queue() == seq![frame] + old(self).spec_queue(),
            final(self).spec_state() == ChannelState::Retrying,
    {
        self.pending_messages.push_front(frame);
        self.state = ChannelState::Retrying;
    }
}

/// What handling the frame `m` gives (`r`) and how it leaves the join
/// requests, the pending heartbeat and the state.
pub open spec fn inbound_outcome<I, R>(
    login: Seq<char>,
    joins: Set<u64>,
    heartbeat: Option<(u64, u64)>,
    m: PhoenixMessage<I, R>,
    r: Option<Result<Event<I, R>, Error>>,
    joins2: Set<u64>,
    heartbeat2: Option<(u64, u64)>,
    state: ChannelState,
    state2: ChannelState,
) -> bool {
    &&& state2 == (if m.payload is Close { ChannelState::Retrying } else { state })
    &&& match m.payload {
        Payload::Message(msg) => r == Some(Ok::<Event<I, R>, Error>(Event::InboundMessage { topic: m.topic, msg }))
            && joins2 == joins && heartbeat2 == heartbeat,
        Payload::Reply(reply) => match m.reference {
            None => r.is_none() && joins2 == joins && heartbeat2 == heartbeat,
            Some(id) => match reply {
                Reply::Failure { reason } => {
                    &&& joins2 == joins
                    &&& heartbeat2 == heartbeat
                    &&& r == if m.topic@ == login && joins.contains(id@) {
                        Some(Err::<Event<I, R>, Error>(Error::LoginFailed(reason)))
                    } else {
                        Some(Ok::<Event<I, R>, Error>(Event::ErrorResponse { topic: m.topic, req_id: id, res: reason }))
                    }
                },
                Reply::Success(OkReply::Message(res)) => {
                    &&& heartbeat2 == heartbeat
                    &&& joins2 == joins.remove(id@)
                    &&& r == if joins.contains(id@) {
                        Some(Ok::<Event<I, R>, Error>(Event::JoinedRoom { topic: m.topic }))
                    } else {
                        Some(Ok::<Event<I, R>, Error>(Event::SuccessResponse { topic: m.topic, req_id: id, res }))
                    }
                },
                Reply::Success(OkReply::NoMessage) => {
                    &&& r.is_none()
                    &&& joins2 == joins
                    &&& heartbeat2 == match heartbeat {
                        Some((h, t)) => if h == id@ { None } else { Some((h, t)) },
                        None => None,
                    }
                },
            },
        },
        Payload::Error | Payload::Close => r.is_none() && joins2 == joins && heartbeat2 == heartbeat,
        Payload::Disconnect { reason } => r == Some(Err::<Event<I, R>, Error>(Error::TokenExpired))
            && joins2 == joins && heartbeat2 == heartbeat,
    }
}

/// `a + b`, or `u64::MAX` where that does not fit.
pub open spec fn sat_add(a: u64, b: u64) -> u64 {
    if a + b <= u64::MAX { (a + b) as u64 } else { u64::MAX }
}

} // verus!
