use vstd::prelude::*;

use std::collections::VecDeque;
use std::marker::PhantomData;
use std::sync::Arc;

use boringtun::noise::rate_limiter::RateLimiter;
use boringtun::noise::Tunn;

use crate::allocation::{
    alloc_candidates, unwrapped, channel_of, index_of, relay_with_socket_spec, with_channel, relays_updated, configs_view, AllocView, Allocation, Allocations, RelayConfig,
};
use crate::channel_data::{be16, channel_data_frame};
use crate::connection::{
    earliest, earliest_of, max_u64, sat_add, state_accepts, state_after_nomination, Candidate,
    CandidateKind, ConnectionState, IceEvent, PeerSocket, StateView, CANDIDATE_TIMEOUT_MS,
    HANDSHAKE_TIMEOUT_MS, MAX_IDLE_MS, TIMER_INTERVAL_MS,
};
use crate::net::{class_of, classify, IpAddress, PacketClass, SocketAddress, Transmit};
use crate::wg;

verus! {

/// The handshake rate limit shared by all connections of a node, per second.
pub const HANDSHAKE_RATE_LIMIT: u64 = 100;

/// How often the handshake rate limiter is reset, in ms.
pub const RATE_LIMITER_RESET_MS: u64 = 1_000;

/// The node of a gateway.
pub struct Server;

/// The node of a client.
pub struct Client;

/// ICE credentials: username fragment and password.
#[derive(Debug, Clone)]
pub struct Credentials {
    pub username: String,
    pub password: String,
}

/// What a client sends to open a connection.
#[derive(Debug, Clone)]
pub struct Offer {
    pub session_key: [u8; 32],
    pub credentials: Credentials,
}

/// What a gateway answers to an offer.
#[derive(Debug, Clone)]
pub struct Answer {
    pub credentials: Credentials,
}

/// What the node reports to its user.
#[derive(Debug, Clone, Copy, PartialEq, Eq, Structural)]
pub enum Event {
    /// The candidate is to be signalled to the remote.
    NewIceCandidate { connection: u64, candidate: Candidate },
    InvalidateIceCandidate { connection: u64, candidate: Candidate },
    /// The WireGuard handshake of the connection completed.
    ConnectionEstablished(u64),
    ConnectionFailed(u64),
    ConnectionClosed(u64),
}

/// Where an inbound datagram went.
#[derive(Debug, Clone, PartialEq, Eq)]
pub enum Inbound {
    /// It was consumed here, or dropped.
    Handled,
    /// A STUN message from the server of relay `relay`, for its TURN client.
    Relay { relay: u64 },
    /// A STUN message for the ICE agents: from `source`, sent to our socket
    /// `destination`.
    Stun { source: SocketAddress, destination: SocketAddress, message: Vec<u8> },
    /// An IP packet decrypted on connection `connection`.
    Packet { connection: u64, packet: Vec<u8> },
}

/// Why a datagram or packet was not handled.
#[derive(Debug, Clone, Copy, PartialEq, Eq, Structural)]
pub enum Error {
    Decapsulate,
    Encapsulate,
    /// A STUN message that no ICE agent took; the agents run outside the
    /// node, which hands such messages out as `Inbound::Stun`.
    UnhandledStunMessage { num_agents: usize },
    UnhandledPacket { num_tunnels: usize },
    NotConnected,
    /// The local address cannot be a host candidate.
    BadLocalAddress,
}

/// Whether ICE takes `addr` as a host candidate, as str0m does: no
/// unspecified, multicast or broadcast address, and no IPv4 link-local one.
pub open spec fn valid_host_addr(addr: SocketAddress) -> bool {
    match addr.ip {
        IpAddress::V4(v) => v != 0 && v != 0xffff_ffff && v / 65536 != 0xa9fe && !(224 <= v / 16777216 <= 239),
        IpAddress::V6(v) => v != 0 && v / 0x0100_0000_0000_0000_0000_0000_0000_0000 != 0xff,
    }
}

fn is_valid_host_addr(addr: SocketAddress) -> (r: bool)
    ensures
        r == valid_host_addr(addr),
{
    match addr.ip {
        IpAddress::V4(v) => v != 0 && v != 0xffff_ffff && v / 65536 != 0xa9fe && !(224 <= v / 16777216 && v / 16777216 <= 239),
        IpAddress::V6(v) => v != 0 && v / 0x0100_0000_0000_0000_0000_0000_0000_0000 != 0xff,
    }
}

pub uninterp spec fn parses_as_stun(packet: Seq<u8>) -> bool;

/// The padded length of a STUN attribute whose value has `len` bytes.
pub open spec fn padded(len: int) -> int {
    len + (4 - len % 4) % 4
}

/// Whether a STUN attribute of type `typ` with value length `len`, whose
/// bytes from its header on are `a`, has what str0m reads of it: four bytes
/// for an ERROR-CODE or FINGERPRINT, the whole address for an
/// XOR-MAPPED-ADDRESS.
pub open spec fn stun_attr_fits(typ: int, len: int, a: Seq<u8>) -> bool {
    if typ == 0x0009 || typ == 0x8028 {
        len >= 4
    } else if typ == 0x0020 {
        len >= 8 && (a[5] != 2 || len >= 20)
    } else {
        true
    }
}

/// Whether the STUN attributes `a` follow one another to its end, each
/// with a four-byte header, a value that fits in what is left and the
/// padding to four bytes.
pub open spec fn stun_attrs_fit(a: Seq<u8>) -> bool
    decreases a.len(),
{
    if a.len() == 0 {
        true
    } else if a.len() < 4 {
        false
    } else {
        let len = be16(a, 2);
        let next = 4 + padded(len);
        next <= a.len() && stun_attr_fits(be16(a, 0), len, a) && stun_attrs_fit(a.subrange(next, a.len() as int))
    }
}

/// A datagram that str0m's STUN parser can read without going out of
/// bounds: a 20-byte header, then attributes that fit.
pub open spec fn stun_shaped(packet: Seq<u8>) -> bool {
    packet.len() >= 20 && stun_attrs_fit(packet.subrange(20, packet.len() as int))
}

/// Checks `stun_shaped`.
fn is_stun_shaped(packet: &[u8]) -> (r: bool)
    ensures
        r == stun_shaped(packet@),
{
    let n = packet.len();
    if n < 20 {
        return false;
    }
    let mut off: usize = 20;
    while off < n
        invariant
            20 <= off <= n,
            n == packet@.len(),
            stun_shaped(packet@) == stun_attrs_fit(packet@.subrange(off as int, n as int)),
        decreases n - off,
    {
        let ghost a = packet@.subrange(off as int, n as int);
        if n - off < 4 {
            return false;
        }
        let typ = (packet[off] as usize) * 256 + packet[off + 1] as usize;
        let len = (packet[off + 2] as usize) * 256 + packet[off + 3] as usize;
        let next = 4 + len + (4 - len % 4) % 4;
        proof {
            assert(a[0] == packet@[off as int] && a[1] == packet@[off + 1]);
            assert(a[2] == packet@[off + 2] && a[3] == packet@[off + 3]);
            assert(typ == be16(a, 0) && len == be16(a, 2));
        }
        if next > n - off {
            return false;
        }
        let fits = if typ == 0x0009 || typ == 0x8028 {
            len >= 4
        } else if typ == 0x0020 {
            len >= 8 && (packet[off + 5] != 2 || len >= 20)
        } else {
            true
        };
        proof {
            if typ == 0x0020 && len >= 8 {
                assert(a[5] == packet@[off + 5]);
            }
            assert(fits == stun_attr_fits(be16(a, 0), be16(a, 2), a));
            assert(a.subrange(next as int, a.len() as int) =~= packet@.subrange(off + next, n as int));
        }
        if !fits {
            return false;
        }
        off = off + next;
    }
    proof {
        assert(packet@.subrange(off as int, n as int).len() == 0);
    }
    true
}

/// Relies on str0m's `StunMessage::parse`: whether the datagram parses as a
/// STUN message, which depends on its bytes alone. The parser indexes the
/// header and each attribute's value without checking the lengths, so it
/// is only called on datagrams whose layout fits.
#[verifier::external_body]
fn parse_stun(packet: &[u8]) -> (r: bool)
    requires
        stun_shaped(packet@),
    ensures
        r == parses_as_stun(packet@),
{
    str0m::ice::StunMessage::parse(packet).is_ok()
}

/// Relies on str0m's `IceCreds::new`: a random username fragment of 4
/// characters and password of 22.
#[verifier::external_body]
fn new_ice_credentials() -> (r: Credentials)
    ensures
        r.username@.len() == 4,
        r.password@.len() == 22,
{
    let creds = str0m::IceCreds::new();
    Credentials { username: creds.ufrag, password: creds.pass }
}

/// Whether the datagram is a STUN message: laid out as one, and what str0m
/// parses.
pub open spec fn is_stun(packet: Seq<u8>) -> bool {
    stun_shaped(packet) && parses_as_stun(packet)
}

fn is_stun_message(packet: &[u8]) -> (r: bool)
    ensures
        r == is_stun(packet@),
{
    is_stun_shaped(packet) && parse_stun(packet)
}

pub assume_specification<T>[ rand::random::<T> ]() -> (r: T)
    where
        rand::distributions::Standard: rand::distributions::Distribution<T>,
;

fn keys_equal(a: &[u8; 32], b: &[u8; 32]) -> (r: bool)
    ensures
        r == (a@ == b@),
{
    let mut i: usize = 0;
    while i < 32
        invariant
            0 <= i <= 32,
            a@.len() == 32,
            b@.len() == 32,
            forall|j: int| 0 <= j < i ==> a@[j] == b@[j],
        decreases 32 - i,
    {
        if a[i] != b[i] {
            return false;
        }
        i += 1;
    }
    proof {
        assert(a@ =~= b@);
    }
    true
}

/// Credentials as contracts see them.
pub open spec fn cred_view(c: Credentials) -> (Seq<char>, Seq<char>) {
    (c.username@, c.password@)
}

/// What the node tells a connection's ICE agent: the candidates on both
/// sides and the credentials.
pub struct Agent {
    local_candidates: Vec<Candidate>,
    remote_candidates: Vec<Candidate>,
    local_credentials: Credentials,
    remote_credentials: Option<Credentials>,
    controlling: bool,
}

fn contains_candidate(v: &Vec<Candidate>, c: Candidate) -> (r: bool)
    ensures
        r == v@.contains(c),
{
    let mut i: usize = 0;
    while i < v.len()
        invariant
            0 <= i <= v@.len(),
            forall|j: int| 0 <= j < i ==> v@[j] != c,
        decreases v@.len() - i,
    {
        if v[i] == c {
            return true;
        }
        i += 1;
    }
    false
}

/// `s` without its entries equal to `c`.
pub open spec fn without(s: Seq<Candidate>, c: Candidate) -> Seq<Candidate> {
    s.filter(|x: Candidate| x != c)
}

impl Agent {
    pub fn new(controlling: bool) -> (r: Self)
        ensures
            r.locals() == Seq::<Candidate>::empty(),
            r.remotes() == Seq::<Candidate>::empty(),
            r.creds().0.0.len() == 4,
            r.creds().0.1.len() == 22,
            r.creds().1.is_none(),
    {
        Agent {
            local_candidates: Vec::new(),
            remote_candidates: Vec::new(),
            local_credentials: new_ice_credentials(),
            remote_credentials: None,
            controlling,
        }
    }

    pub closed spec fn locals(&self) -> Seq<Candidate> {
        self.local_candidates@
    }

    pub closed spec fn remotes(&self) -> Seq<Candidate> {
        self.remote_candidates@
    }

    /// The local credentials, and the remote's once known.
    pub closed spec fn creds(&self) -> ((Seq<char>, Seq<char>), Option<(Seq<char>, Seq<char>)>) {
        (cred_view(self.local_credentials), match self.remote_credentials {
            Some(c) => Some(cred_view(c)),
            None => None,
        })
    }

    /// Adds a local candidate; `true` where it is new.
    pub fn add_local_candidate(&mut self, c: Candidate) -> (is_new: bool)
        ensures
            is_new == !old(self).locals().contains(c),
            final(self).locals() == if is_new { old(self).locals().push(c) } else { old(self).locals() },
            final(self).remotes() == old(self).remotes(),
            final(self).creds() == old(self).creds(),
    {
        if contains_candidate(&self.local_candidates, c) {
            return false;
        }
        self.local_candidates.push(c);
        true
    }

    /// Drops a local candidate; `true` where it was there.
    pub fn invalidate_candidate(&mut self, c: Candidate) -> (was_present: bool)
        ensures
            was_present == old(self).locals().contains(c),
            final(self).locals() == without(old(self).locals(), c),
            final(self).remotes() == old(self).remotes(),
            final(self).creds() == old(self).creds(),
    {
        let was_present = contains_candidate(&self.local_candidates, c);
        let mut kept: Vec<Candidate> = Vec::new();
        let mut i: usize = 0;
        while i < self.local_candidates.len()
            invariant
                0 <= i <= self.local_candidates@.len(),
                kept@ == without(self.local_candidates@.subrange(0, i as int), c),
            decreases self.local_candidates@.len() - i,
        {
            let x = self.local_candidates[i];
            proof {
                let s = self.local_candidates@.subrange(0, i + 1);
                assert(s.drop_last() =~= self.local_candidates@.subrange(0, i as int));
                assert(s.last() == x);
                reveal(Seq::filter);
            }
            if x != c {
                kept.push(x);
            }
            i += 1;
        }
        proof {
            assert(self.local_candidates@.subrange(0, self.local_candidates@.len() as int) =~= self.local_candidates@);
        }
        self.local_candidates = kept;
        was_present
    }

    pub fn add_remote_candidate(&mut self, c: Candidate)
        ensures
            final(self).remotes() == if old(self).remotes().contains(c) { old(self).remotes() } else { old(self).remotes().push(c) },
            final(self).locals() == old(self).locals(),
    {
        if !contains_candidate(&self.remote_candidates, c) {
            self.remote_candidates.push(c);
        }
    }

    pub fn remove_remote_candidate(&mut self, c: Candidate)
        ensures
            final(self).remotes() == without(old(self).remotes(), c),
            final(self).locals() == old(self).locals(),
    {
        let mut kept: Vec<Candidate> = Vec::new();
        let mut i: usize = 0;
        while i < self.remote_candidates.len()
            invariant
                0 <= i <= self.remote_candidates@.len(),
                kept@ == without(self.remote_candidates@.subrange(0, i as int), c),
            decreases self.remote_candidates@.len() - i,
        {
            let x = self.remote_candidates[i];
            proof {
                let s = self.remote_candidates@.subrange(0, i + 1);
                assert(s.drop_last() =~= self.remote_candidates@.subrange(0, i as int));
                assert(s.last() == x);
                reveal(Seq::filter);
            }
            if x != c {
                kept.push(x);
            }
            i += 1;
        }
        proof {
            assert(self.remote_candidates@.subrange(0, self.remote_candidates@.len() as int) =~= self.remote_candidates@);
        }
        self.remote_candidates = kept;
    }

    pub fn set_remote_credentials(&mut self, creds: Credentials)
        ensures
            final(self).locals() == old(self).locals(),
            final(self).remotes() == old(self).remotes(),
            final(self).creds() == (old(self).creds().0, Some(cred_view(creds))),
    {
        self.remote_credentials = Some(creds);
    }

    pub fn local_credentials(&self) -> (r: Credentials)
        ensures
            cred_view(r) == self.creds().0,
    {
        Credentials {
            username: self.local_credentials.username.clone(),
            password: self.local_credentials.password.clone(),
        }
    }
}

/// What contracts see of one connection of a node.
pub ghost struct ConnInfo {
    /// Whether it still waits for the answer to its offer.
    pub initial: bool,
    pub state: Option<StateView>,
    pub remote_key: Option<Seq<u8>>,
    pub session_key: Seq<u8>,
    /// The agent's local credentials, and the remote's once known.
    pub creds: ((Seq<char>, Seq<char>), Option<(Seq<char>, Seq<char>)>),
    /// The candidates the remote signalled.
    pub remotes: Seq<Candidate>,
    /// Whether the WireGuard handshake has been reported complete.
    pub latch: bool,
    /// When it fails: no answer, or no remote candidate, in time.
    pub fail_deadline: Option<u64>,
    /// When it becomes idle.
    pub idle_deadline: Option<u64>,
    /// When the WireGuard timers are next due.
    pub timer_at: Option<u64>,
}

pub open spec fn slot_info(s: Slot) -> ConnInfo {
    match s {
        Slot::Initial(c) => c.info(),
        Slot::Established(c) => c.info(),
    }
}

/// A connection of a client between its offer and the gateway's answer.
pub struct InitialConnection {
    agent: Agent,
    session_key: [u8; 32],
    created_at: u64,
    intent_sent_at: u64,
    is_failed: bool,
}

impl InitialConnection {
    /// The instant at which the offer counts as unanswered.
    pub closed spec fn no_answer_deadline(&self) -> u64 {
        sat_add(self.created_at, HANDSHAKE_TIMEOUT_MS)
    }

    pub closed spec fn failed(&self) -> bool {
        self.is_failed
    }

    pub closed spec fn locals(&self) -> Seq<Candidate> {
        self.agent.locals()
    }

    pub closed spec fn info(&self) -> ConnInfo {
        ConnInfo {
            initial: true,
            state: None,
            remote_key: None,
            session_key: self.session_key@,
            creds: self.agent.creds(),
            remotes: self.agent.remotes(),
            latch: false,
            fail_deadline: Some(self.no_answer_deadline()),
            idle_deadline: None,
            timer_at: None,
        }
    }

    pub fn handle_timeout(&mut self, now: u64)
        ensures
            final(self).failed() == (old(self).failed() || now >= old(self).no_answer_deadline()),
            final(self).no_answer_deadline() == old(self).no_answer_deadline(),
            final(self).locals() == old(self).locals(),
    {
        if now >= self.created_at.saturating_add(HANDSHAKE_TIMEOUT_MS) {
            self.is_failed = true;
        }
    }

    pub fn poll_timeout(&self) -> (r: u64)
        ensures
            r == self.no_answer_deadline(),
    {
        self.created_at.saturating_add(HANDSHAKE_TIMEOUT_MS)
    }
}

/// An established connection: the ICE side, the WireGuard tunnel and where
/// the connection stands.
pub struct Connection {
    agent: Agent,
    tunnel: Tunn,
    remote_pub_key: [u8; 32],
    session_key: [u8; 32],
    state: ConnectionState,
    next_timer_update: u64,
    intent_sent_at: u64,
    signalling_completed_at: u64,
    last_outgoing: u64,
    last_incoming: u64,
    handshake_done: bool,
}

/// When a connection without remote candidates gives up.
pub open spec fn candidate_deadline(remotes: Seq<Candidate>, signalling_completed_at: u64) -> Option<u64> {
    if remotes.len() == 0 {
        Some(sat_add(signalling_completed_at, CANDIDATE_TIMEOUT_MS))
    } else {
        None
    }
}

impl Connection {
    pub closed spec fn state_view(&self) -> StateView {
        self.state@
    }

    pub closed spec fn locals(&self) -> Seq<Candidate> {
        self.agent.locals()
    }

    pub closed spec fn remotes(&self) -> Seq<Candidate> {
        self.agent.remotes()
    }

    pub closed spec fn candidate_timeout_at(&self) -> Option<u64> {
        candidate_deadline(self.agent.remotes(), self.signalling_completed_at)
    }

    pub closed spec fn idle_timeout_at(&self) -> u64 {
        sat_add(max_u64(self.last_incoming, self.last_outgoing), MAX_IDLE_MS)
    }

    pub closed spec fn remote_key(&self) -> Seq<u8> {
        self.remote_pub_key@
    }

    pub closed spec fn info(&self) -> ConnInfo {
        ConnInfo {
            initial: false,
            state: Some(self.state@),
            remote_key: Some(self.remote_pub_key@),
            session_key: self.session_key@,
            creds: self.agent.creds(),
            remotes: self.agent.remotes(),
            latch: self.handshake_done,
            fail_deadline: self.candidate_timeout_at(),
            idle_deadline: Some(self.idle_timeout_at()),
            timer_at: Some(self.next_timer_update),
        }
    }

    pub closed spec fn next_timer_at(&self) -> u64 {
        self.next_timer_update
    }

    /// The earliest instant at which the connection wants to be woken.
    pub open spec fn deadline(&self) -> u64 {
        earliest(
            Some(self.idle_timeout_at()),
            earliest(Some(self.next_timer_at()), self.candidate_timeout_at()),
        ).unwrap()
    }

    pub fn accepts(&self, from: SocketAddress) -> (r: bool)
        ensures
            r == state_accepts(self.state_view(), from),
    {
        self.state.accepts(from)
    }

    fn candidate_timeout(&self) -> (r: Option<u64>)
        ensures
            r == self.candidate_timeout_at(),
    {
        if self.agent.remote_candidates.len() == 0 {
            Some(self.signalling_completed_at.saturating_add(CANDIDATE_TIMEOUT_MS))
        } else {
            None
        }
    }

    fn idle_timeout(&self) -> (r: u64)
        ensures
            r == self.idle_timeout_at(),
    {
        let last = if self.last_incoming >= self.last_outgoing { self.last_incoming } else { self.last_outgoing };
        last.saturating_add(MAX_IDLE_MS)
    }

    pub fn poll_timeout(&self) -> (r: u64)
        ensures
            r == self.deadline(),
    {
        let t = earliest_of(
            Some(self.idle_timeout()),
            earliest_of(Some(self.next_timer_update), self.candidate_timeout()),
        );
        match t {
            Some(x) => x,
            None => self.idle_timeout(),
        }
    }

    /// Fails a connection that got no remote candidate in time, and marks
    /// one without traffic for too long as idle. `true` where it failed.
    pub fn check_timeouts(&mut self, now: u64) -> (failed: bool)
        ensures
            failed == match old(self).candidate_timeout_at() {
                Some(t) => now >= t,
                None => false,
            },
            final(self).state_view() == if failed {
                StateView::Failed
            } else if now >= old(self).idle_timeout_at() {
                StateView::Idle
            } else {
                old(self).state_view()
            },
            final(self).locals() == old(self).locals(),
            final(self).remotes() == old(self).remotes(),
            final(self).candidate_timeout_at() == old(self).candidate_timeout_at(),
            final(self).idle_timeout_at() == old(self).idle_timeout_at(),
            final(self).next_timer_at() == old(self).next_timer_at(),
    {
        match self.candidate_timeout() {
            Some(t) => {
                if now >= t {
                    self.state = ConnectionState::Failed;
                    return true;
                }
            },
            None => {},
        }
        if now >= self.idle_timeout() {
            self.state = ConnectionState::Idle;
        }
        false
    }

    /// Handles what ICE reported. `relay` is the relay whose relayed address
    /// is the nominated source, if any.
    ///
    /// Gives back the WireGuard packets that waited for a socket and whether
    /// a handshake is to be forced.
    pub fn handle_ice_event(&mut self, event: IceEvent, relay: Option<u64>) -> (r: (Vec<Vec<u8>>, bool))
        ensures
            match event {
                IceEvent::DiscoveredRecv { source } => {
                    &&& final(self).state_view() == crate::connection::state_with_socket(old(self).state_view(), source)
                    &&& r.0@.len() == 0
                    &&& !r.1
                },
                IceEvent::Disconnected => {
                    &&& final(self).state_view() == StateView::Failed
                    &&& r.0@.len() == 0
                    &&& !r.1
                },
                IceEvent::NominatedSend { source, destination } => {
                    let socket = match relay {
                        Some(id) => PeerSocket::Relay { relay: id, dest: destination },
                        None => PeerSocket::Direct { source, dest: destination },
                    };
                    let after = state_after_nomination(old(self).state_view(), socket);
                    &&& final(self).state_view() == after.0
                    &&& crate::connection::buffered_view(r.0@) == after.1
                    &&& r.1 == after.2
                },
            },
            final(self).locals() == old(self).locals(),
            final(self).remotes() == old(self).remotes(),
    {
        match event {
            IceEvent::DiscoveredRecv { source } => {
                self.state.add_possible_socket(source);
                (Vec::new(), false)
            },
            IceEvent::Disconnected => {
                self.state = ConnectionState::Failed;
                (Vec::new(), false)
            },
            IceEvent::NominatedSend { source, destination } => {
                let socket = match relay {
                    Some(id) => PeerSocket::Relay { relay: id, dest: destination },
                    None => PeerSocket::Direct { source, dest: destination },
                };
                self.state.nominate(socket)
            },
        }
    }

    pub fn socket(&self) -> (r: Option<PeerSocket>)
        ensures
            r == match self.state_view() {
                StateView::Connected { peer_socket, .. } => Some(peer_socket),
                _ => None::<PeerSocket>,
            },
    {
        self.state.socket()
    }

    pub fn is_failed(&self) -> (r: bool)
        ensures
            r == (self.state_view() is Failed),
    {
        self.state.is_failed()
    }

    pub fn is_idle(&self) -> (r: bool)
        ensures
            r == (self.state_view() is Idle),
    {
        self.state.is_idle()
    }
}

/// What adding local candidate `c` to the agent of connection `cid`, whose
/// local candidates are `locals`, does: the new local candidates and the
/// events. A server-reflexive candidate is only signalled, never added.
pub open spec fn local_candidate_effect(locals: Seq<Candidate>, c: Candidate, cid: u64) -> (Seq<Candidate>, Seq<Event>) {
    if c.kind == CandidateKind::ServerReflexive {
        (locals, seq![Event::NewIceCandidate { connection: cid, candidate: c }])
    } else if locals.contains(c) {
        (locals, Seq::empty())
    } else {
        (locals.push(c), seq![Event::NewIceCandidate { connection: cid, candidate: c }])
    }
}

/// Adding a host or peer-reflexive candidate leaves it in the agent exactly
/// once and signals it at most once, exactly once where it is new; a
/// server-reflexive candidate is signalled once and never added.
pub proof fn lemma_local_candidate_once(locals: Seq<Candidate>, c: Candidate, cid: u64)
    requires
        locals.no_duplicates(),
    ensures
        c.kind != CandidateKind::ServerReflexive ==> {
            let (after, events) = local_candidate_effect(locals, c, cid);
            &&& after.no_duplicates()
            &&& after.contains(c)
            &&& events.len() == if locals.contains(c) { 0int } else { 1int }
        },
        c.kind == CandidateKind::ServerReflexive ==> {
            let (after, events) = local_candidate_effect(locals, c, cid);
            &&& after == locals
            &&& events == seq![Event::NewIceCandidate { connection: cid, candidate: c }]
        },
{
    if c.kind != CandidateKind::ServerReflexive && !locals.contains(c) {
        let after = locals.push(c);
        assert(after[locals.len() as int] == c);
        assert forall|i: int, j: int| 0 <= i < after.len() && 0 <= j < after.len() && i != j implies after[i] != after[j] by {
            if i < locals.len() && j < locals.len() {
            } else if i < locals.len() {
                assert(locals.contains(locals[i]));
            } else {
                assert(locals.contains(locals[j]));
            }
        }
    }
}

/// Adds local candidate `c` to `agent` of connection `cid`, queueing the
/// event that signals it.
pub fn add_local_candidate(cid: u64, agent: &mut Agent, c: Candidate, events: &mut VecDeque<Event>)
    ensures
        final(agent).locals() == local_candidate_effect(old(agent).locals(), c, cid).0,
        final(events)@ == old(events)@ + local_candidate_effect(old(agent).locals(), c, cid).1,
        final(agent).remotes() == old(agent).remotes(),
        final(agent).creds() == old(agent).creds(),
{
    if c.kind == CandidateKind::ServerReflexive {
        events.push_back(Event::NewIceCandidate { connection: cid, candidate: c });
        proof {
            assert(events@ =~= old(events)@ + seq![Event::NewIceCandidate { connection: cid, candidate: c }]);
        }
        return;
    }
    let is_new = agent.add_local_candidate(c);
    if is_new {
        events.push_back(Event::NewIceCandidate { connection: cid, candidate: c });
        proof {
            assert(events@ =~= old(events)@ + seq![Event::NewIceCandidate { connection: cid, candidate: c }]);
        }
    } else {
        proof {
            assert(events@ =~= old(events)@ + Seq::<Event>::empty());
        }
    }
}

/// What invalidating local candidate `c` of connection `cid` does. A
/// server-reflexive candidate was only signalled, never added, so its
/// invalidation is signalled whatever the agent holds.
pub open spec fn invalidate_effect(locals: Seq<Candidate>, c: Candidate, cid: u64) -> (Seq<Candidate>, Seq<Event>) {
    if c.kind == CandidateKind::ServerReflexive {
        (locals, seq![Event::InvalidateIceCandidate { connection: cid, candidate: c }])
    } else if locals.contains(c) {
        (without(locals, c), seq![Event::InvalidateIceCandidate { connection: cid, candidate: c }])
    } else {
        (locals, Seq::empty())
    }
}

fn remove_local_candidate(cid: u64, agent: &mut Agent, c: Candidate, events: &mut VecDeque<Event>)
    ensures
        final(agent).locals() == invalidate_effect(old(agent).locals(), c, cid).0,
        final(events)@ == old(events)@ + invalidate_effect(old(agent).locals(), c, cid).1,
        final(agent).remotes() == old(agent).remotes(),
{
    if c.kind == CandidateKind::ServerReflexive {
        events.push_back(Event::InvalidateIceCandidate { connection: cid, candidate: c });
        proof {
            assert(events@ =~= old(events)@ + seq![Event::InvalidateIceCandidate { connection: cid, candidate: c }]);
        }
        return;
    }
    let was_present = agent.invalidate_candidate(c);
    if was_present {
        events.push_back(Event::InvalidateIceCandidate { connection: cid, candidate: c });
        proof {
            assert(events@ =~= old(events)@ + seq![Event::InvalidateIceCandidate { connection: cid, candidate: c }]);
        }
    } else {
        proof {
            assert(without(old(agent).locals(), c) =~= old(agent).locals()) by {
                reveal(Seq::filter);
                old(agent).locals().filter_lemma(|x: Candidate| x != c);
                lemma_without_absent(old(agent).locals(), c);
            }
            assert(events@ =~= old(events)@ + Seq::<Event>::empty());
        }
    }
}

proof fn lemma_without_absent(s: Seq<Candidate>, c: Candidate)
    requires
        !s.contains(c),
    ensures
        without(s, c) == s,
    decreases s.len(),
{
    reveal(Seq::filter);
    if s.len() > 0 {
        assert(!s.drop_last().contains(c)) by {
            if s.drop_last().contains(c) {
                let k = choose|k: int| 0 <= k < s.drop_last().len() && s.drop_last()[k] == c;
                assert(s[k] == c);
            }
        }
        lemma_without_absent(s.drop_last(), c);
        assert(s.last() != c) by {
            assert(s[s.len() - 1] == s.last());
        }
        assert(s.drop_last().push(s.last()) =~= s);
    } else {
        assert(without(s, c) =~= s);
    }
}

/// A datagram as contracts see it: source, destination, payload.
pub open spec fn tview(t: Transmit) -> (Option<SocketAddress>, SocketAddress, Seq<u8>) {
    (t.src, t.dst, t.payload@)
}

/// The datagrams as contracts see them.
pub open spec fn tviews(s: Seq<Transmit>) -> Seq<(Option<SocketAddress>, SocketAddress, Seq<u8>)> {
    s.map_values(|t: Transmit| tview(t))
}

pub open spec fn opt_seq<A>(o: Option<A>) -> Seq<A> {
    match o {
        Some(x) => seq![x],
        None => Seq::empty(),
    }
}

/// The datagram that carries `payload` to the peer through `socket`, given
/// the allocations `relays`.
pub open spec fn transmit_for(socket: PeerSocket, payload: Seq<u8>, relays: Seq<(u64, AllocView)>) -> Option<(Option<SocketAddress>, SocketAddress, Seq<u8>)> {
    match socket {
        PeerSocket::Direct { source, dest } => Some((Some(source), dest, payload)),
        PeerSocket::Relay { relay, dest } => {
            if payload.len() > 65535 {
                None
            } else {
                match index_of(relays, relay) {
                    Some(j) => match channel_of(relays[j].1.channels, dest) {
                        Some(ch) => Some((None, relays[j].1.server, channel_data_frame(ch, payload))),
                        None => None,
                    },
                    None => None,
                }
            }
        },
    }
}

pub open spec fn opt_tview(t: Option<Transmit>) -> Option<(Option<SocketAddress>, SocketAddress, Seq<u8>)> {
    match t {
        Some(x) => Some(tview(x)),
        None => None,
    }
}

pub open spec fn result_view(r: Result<Option<Transmit>, Error>) -> Result<Option<(Option<SocketAddress>, SocketAddress, Seq<u8>)>, Error> {
    match r {
        Ok(t) => Ok(opt_tview(t)),
        Err(e) => Err(e),
    }
}

/// What `encapsulate` gives back when WireGuard made `o` of the packet for
/// the peer at `socket`.
pub open spec fn encap_result(socket: PeerSocket, o: wg::WgOutput, relays: Seq<(u64, AllocView)>) -> Result<Option<(Option<SocketAddress>, SocketAddress, Seq<u8>)>, Error> {
    match o {
        wg::WgOutput::Network(b) => Ok(transmit_for(socket, b@, relays)),
        wg::WgOutput::Expired | wg::WgOutput::Failed => Err(Error::Encapsulate),
        _ => Ok(None),
    }
}

/// Whether `cid` is an established connection with a nominated socket.
pub open spec fn is_connected(ids: Seq<u64>, states: Seq<Option<StateView>>, cid: u64) -> bool {
    exists|k: int| 0 <= k < ids.len() && ids[k] == cid && states[k] is Some && (#[trigger] states[k]).unwrap() is Connected
}

/// What running the WireGuard timers of connection `id`, connected
/// through `socket`, did when they gave `o`: an expired session fails the
/// connection, bytes to send go to the peer.
pub open spec fn timer_effect(
    id: u64,
    socket: PeerSocket,
    o: wg::WgOutput,
    relays: Seq<(u64, AllocView)>,
    t0: Seq<(Option<SocketAddress>, SocketAddress, Seq<u8>)>,
    t1: Seq<(Option<SocketAddress>, SocketAddress, Seq<u8>)>,
    gc_flag: Option<Event>,
) -> bool {
    &&& o is Expired ==> gc_flag == Some(Event::ConnectionFailed(id))
    &&& t1 == t0 + match o {
        wg::WgOutput::Network(b) => opt_seq(transmit_for(socket, b@, relays)),
        _ => Seq::empty(),
    }
}

/// Whether the WireGuard timers of connection `info` run at `now`: it is
/// connected, neither failing nor idle, and its timers are due.
pub open spec fn timers_run(info: ConnInfo, now: u64) -> bool {
    &&& info.state is Some
    &&& !(match info.fail_deadline {
        Some(t) => now >= t,
        None => false,
    })
    &&& now < info.idle_deadline.unwrap()
    &&& now >= info.timer_at.unwrap()
    &&& info.state.unwrap() is Connected
}

/// What advancing connection `id`, seen as `info`, to `now` did to the
/// datagrams and to its garbage-collection event, when its timers gave `o`.
pub open spec fn tick_effect(
    info: ConnInfo,
    now: u64,
    id: u64,
    relays: Seq<(u64, AllocView)>,
    t0: Seq<(Option<SocketAddress>, SocketAddress, Seq<u8>)>,
    t1: Seq<(Option<SocketAddress>, SocketAddress, Seq<u8>)>,
    gc_flag: Option<Event>,
    o: wg::WgOutput,
) -> bool {
    if timers_run(info, now) {
        timer_effect(id, info.state.unwrap()->Connected_peer_socket, o, relays, t0, t1, gc_flag)
    } else {
        t1 == t0
    }
}

/// The datagrams that the timers of the first `n` connections sent, when
/// they gave `outs`.
pub open spec fn timers_transmits(
    infos: Seq<ConnInfo>,
    relays: Seq<(u64, AllocView)>,
    now: u64,
    outs: Seq<wg::WgOutput>,
    n: int,
) -> Seq<(Option<SocketAddress>, SocketAddress, Seq<u8>)>
    decreases n,
{
    if n <= 0 {
        Seq::empty()
    } else {
        timers_transmits(infos, relays, now, outs, n - 1) + if timers_run(infos[n - 1], now) {
            handshake_transmit(infos[n - 1].state.unwrap()->Connected_peer_socket, outs[n - 1], relays)
        } else {
            Seq::empty()
        }
    }
}

proof fn lemma_timers_transmits_prefix(
    infos: Seq<ConnInfo>,
    relays: Seq<(u64, AllocView)>,
    now: u64,
    a: Seq<wg::WgOutput>,
    b: Seq<wg::WgOutput>,
    n: int,
)
    requires
        0 <= n <= a.len(),
        n <= b.len(),
        forall|k: int| 0 <= k < n ==> a[k] == b[k],
    ensures
        timers_transmits(infos, relays, now, a, n) == timers_transmits(infos, relays, now, b, n),
    decreases n,
{
    if n > 0 {
        lemma_timers_transmits_prefix(infos, relays, now, a, b, n - 1);
    }
}

/// Whether connection `info` turns idle at `now`: established, not failed
/// for want of remote candidates, and without traffic for too long.
pub open spec fn idle_at(info: ConnInfo, now: u64) -> bool {
    &&& info.state is Some
    &&& !(match info.fail_deadline {
        Some(t) => now >= t,
        None => false,
    })
    &&& now >= info.idle_deadline.unwrap()
}

/// The events with which the node's connections learn of host candidate
/// `address`: none if it is refused or known already.
pub open spec fn promotion_events<T>(n: Node<T>, address: SocketAddress) -> Seq<Event> {
    let c = Candidate { kind: CandidateKind::Host, addr: address };
    if !valid_host_addr(address) || n.host_candidates().contains(c) {
        Seq::empty()
    } else {
        add_to_all_events(n.ids(), n.agent_locals(), c, n.ids().len() as int)
    }
}

/// Whether allocation `a` offers a candidate with IP `ip`.
pub open spec fn offers_ip(a: AllocView, ip: IpAddress) -> bool {
    exists|y: int| 0 <= y < alloc_candidates(a).len() && (#[trigger] alloc_candidates(a)[y]).addr.ip == ip
}

/// The events of withdrawing local candidate `c` from the first `n`
/// connections.
pub open spec fn invalidate_all_events(ids: Seq<u64>, locals: Seq<Seq<Candidate>>, c: Candidate, n: int) -> Seq<Event>
    decreases n,
{
    if n <= 0 {
        Seq::empty()
    } else {
        invalidate_all_events(ids, locals, c, n - 1) + invalidate_effect(locals[n - 1], c, ids[n - 1]).1
    }
}

/// Withdrawing local candidate `c` from every connection: the events and
/// the connections' local candidates afterwards.
pub open spec fn invalidate_all(ids: Seq<u64>, locals: Seq<Seq<Candidate>>, c: Candidate) -> (Seq<Event>, Seq<Seq<Candidate>>) {
    (
        invalidate_all_events(ids, locals, c, locals.len() as int),
        Seq::new(locals.len(), |k: int| invalidate_effect(locals[k], c, ids[k]).0),
    )
}

/// Removing the relays `rm` in order, from allocations `relays`: the relayed
/// candidate of each that has one is withdrawn from every connection.
pub open spec fn removal_effect(
    ids: Seq<u64>,
    locals: Seq<Seq<Candidate>>,
    relays: Seq<(u64, AllocView)>,
    rm: Seq<u64>,
) -> (Seq<Event>, Seq<Seq<Candidate>>)
    decreases rm.len(),
{
    if rm.len() == 0 {
        (Seq::empty(), locals)
    } else {
        let prev = removal_effect(ids, locals, relays, rm.drop_last());
        match index_of(relays, rm.last()) {
            Some(j) => match relays[j].1.relayed {
                Some(addr) => {
                    let step = invalidate_all(ids, prev.1, Candidate { kind: CandidateKind::Relayed, addr });
                    (prev.0 + step.0, step.1)
                },
                None => prev,
            },
            None => prev,
        }
    }
}

/// The socket a nomination from our `source` to `destination` picks: the
/// relay whose relayed address `source` is, or else the direct path.
pub open spec fn nominated_socket(relays: Seq<(u64, AllocView)>, source: SocketAddress, destination: SocketAddress) -> PeerSocket {
    match relay_with_socket_spec(relays, source) {
        Some(id) => PeerSocket::Relay { relay: id, dest: destination },
        None => PeerSocket::Direct { source, dest: destination },
    }
}

/// The datagram of the handshake initiation `o` to the peer at `socket`.
pub open spec fn handshake_transmit(socket: PeerSocket, o: wg::WgOutput, relays: Seq<(u64, AllocView)>) -> Seq<(Option<SocketAddress>, SocketAddress, Seq<u8>)> {
    match o {
        wg::WgOutput::Network(b) => opt_seq(transmit_for(socket, b@, relays)),
        _ => Seq::empty(),
    }
}

/// What a nomination of `socket` did to a connection in state `before`,
/// whose WireGuard tunnel gave `o` for the handshake: the state is
/// connected, the buffered packets go out in order, then the handshake
/// initiation, which is asked for only when the connection was connecting
/// or its socket changed.
pub open spec fn nomination_effect(
    before: StateView,
    after: StateView,
    socket: PeerSocket,
    relays: Seq<(u64, AllocView)>,
    t0: Seq<(Option<SocketAddress>, SocketAddress, Seq<u8>)>,
    t1: Seq<(Option<SocketAddress>, SocketAddress, Seq<u8>)>,
    o: wg::WgOutput,
) -> bool {
    let nominated = state_after_nomination(before, socket);
    &&& after == nominated.0
    &&& !(o is TunnelV4) && !(o is TunnelV6)
    &&& !nominated.2 ==> o is Done
    &&& t1 == t0 + transmits_for(socket, nominated.1, relays) + handshake_transmit(socket, o, relays)
}

/// Whether `e` signals a new candidate of connection `cid`.
pub open spec fn announces(e: Event, cid: u64) -> bool {
    match e {
        Event::NewIceCandidate { connection, .. } => connection == cid,
        _ => false,
    }
}

/// Whether `e` withdraws relayed candidate of some connection.
pub open spec fn withdraws_relayed(e: Event) -> bool {
    match e {
        Event::InvalidateIceCandidate { candidate, .. } => candidate.kind == CandidateKind::Relayed,
        _ => false,
    }
}

/// Whether `e` signals candidate `c` of some connection.
pub open spec fn signals(e: Event, c: Candidate) -> bool {
    match e {
        Event::NewIceCandidate { candidate, .. } => candidate == c,
        _ => false,
    }
}

/// A connection of the node, before or after the answer.
pub enum Slot {
    Initial(InitialConnection),
    Established(Connection),
}

pub open spec fn slot_state(s: Slot) -> Option<StateView> {
    match s {
        Slot::Initial(_) => None,
        Slot::Established(c) => Some(c.state_view()),
    }
}

/// The datagrams that carry `packets` through `socket`, in order; those
/// that cannot be sent are dropped.
pub open spec fn transmits_for(socket: PeerSocket, packets: Seq<Seq<u8>>, relays: Seq<(u64, AllocView)>) -> Seq<(Option<SocketAddress>, SocketAddress, Seq<u8>)>
    decreases packets.len(),
{
    if packets.len() == 0 {
        Seq::empty()
    } else {
        transmits_for(socket, packets.drop_last(), relays) + opt_seq(transmit_for(socket, packets.last(), relays))
    }
}

/// The event with which garbage collection drops connection `id`, if it
/// does: a failed offer or connection fails, an idle one is closed.
pub open spec fn slot_gc_event(id: u64, s: Slot) -> Option<Event> {
    match s {
        Slot::Initial(c) => if c.failed() { Some(Event::ConnectionFailed(id)) } else { None },
        Slot::Established(c) => match c.state_view() {
            StateView::Failed => Some(Event::ConnectionFailed(id)),
            StateView::Idle => Some(Event::ConnectionClosed(id)),
            _ => None,
        },
    }
}

pub open spec fn gc_events(s: Seq<(u64, Slot)>) -> Seq<Event>
    decreases s.len(),
{
    if s.len() == 0 {
        Seq::empty()
    } else {
        gc_events(s.drop_last()) + opt_seq(slot_gc_event(s.last().0, s.last().1))
    }
}

pub open spec fn entry_ids(s: Seq<(u64, Slot)>) -> Seq<u64> {
    s.map_values(|e: (u64, Slot)| e.0)
}

pub open spec fn gc_kept(s: Seq<(u64, Slot)>) -> Seq<(u64, Slot)> {
    s.filter(|e: (u64, Slot)| slot_gc_event(e.0, e.1).is_none())
}

pub open spec fn slot_fail_deadline(s: Slot) -> Option<u64> {
    match s {
        Slot::Initial(c) => Some(c.no_answer_deadline()),
        Slot::Established(c) => c.candidate_timeout_at(),
    }
}

proof fn lemma_gc_count(s: Seq<(u64, Slot)>)
    ensures
        gc_events(s).len() + gc_kept(s).len() == s.len(),
    decreases s.len(),
{
    reveal(Seq::filter);
    if s.len() > 0 {
        lemma_gc_count(s.drop_last());
    }
}

proof fn lemma_gc_drops(s: Seq<(u64, Slot)>, k: int)
    requires
        0 <= k < s.len(),
        entry_ids(s).no_duplicates(),
        slot_gc_event(s[k].0, s[k].1).is_some(),
    ensures
        gc_events(s).contains(slot_gc_event(s[k].0, s[k].1).unwrap()),
        !entry_ids(gc_kept(s)).contains(s[k].0),
    decreases s.len(),
{
    reveal(Seq::filter);
    let p = s.drop_last();
    let ev = slot_gc_event(s[k].0, s[k].1).unwrap();
    assert(entry_ids(p) =~= entry_ids(s).drop_last());
    if k == s.len() - 1 {
        assert(gc_events(s) == gc_events(p) + seq![ev]);
        assert(gc_events(s)[gc_events(p).len() as int] == ev);
        assert(gc_kept(s) == gc_kept(p));
        lemma_gc_ids_unique(p);
        if entry_ids(gc_kept(p)).contains(s[k].0) {
            assert(entry_ids(p).contains(s[k].0));
            let j = choose|j: int| 0 <= j < entry_ids(p).len() && entry_ids(p)[j] == s[k].0;
            assert(entry_ids(s)[j] == entry_ids(s)[k]);
        }
    } else {
        assert(p[k] == s[k]);
        assert(entry_ids(p).no_duplicates());
        lemma_gc_drops(p, k);
        let g = gc_events(p);
        let i = choose|i: int| 0 <= i < g.len() && g[i] == ev;
        assert(gc_events(s) == g + opt_seq(slot_gc_event(s.last().0, s.last().1)));
        assert(gc_events(s)[i] == ev);
        if slot_gc_event(s.last().0, s.last().1).is_none() {
            assert(gc_kept(s) == gc_kept(p).push(s.last()));
            assert(entry_ids(gc_kept(s)) =~= entry_ids(gc_kept(p)).push(s.last().0));
            assert(s.last().0 != s[k].0) by {
                assert(entry_ids(s)[s.len() - 1] != entry_ids(s)[k]);
            }
        } else {
            assert(gc_kept(s) == gc_kept(p));
        }
    }
}

/// The earliest of `init` and the instants `ts`.
pub open spec fn earliest_all(ts: Seq<u64>, init: Option<u64>) -> Option<u64>
    decreases ts.len(),
{
    if ts.len() == 0 {
        init
    } else {
        earliest(earliest_all(ts.drop_last(), init), Some(ts.last()))
    }
}

/// The position of the first connection in `states` that takes traffic
/// from `from`.
pub open spec fn first_accepting(states: Seq<Option<StateView>>, from: SocketAddress) -> Option<int>
    decreases states.len(),
{
    if states.len() == 0 {
        None
    } else {
        match first_accepting(states.drop_last(), from) {
            Some(k) => Some(k),
            None => match states.last() {
                Some(st) => if state_accepts(st, from) { Some(states.len() - 1) } else { None },
                None => None,
            },
        }
    }
}

/// The ID of the first relay whose server is `from`.
pub open spec fn relay_at_server(relays: Seq<(u64, AllocView)>, from: SocketAddress) -> Option<u64>
    decreases relays.len(),
{
    if relays.len() == 0 {
        None
    } else {
        match relay_at_server(relays.drop_last(), from) {
            Some(id) => Some(id),
            None => if relays.last().1.server == from { Some(relays.last().0) } else { None },
        }
    }
}

proof fn lemma_relay_at_server(relays: Seq<(u64, AllocView)>, from: SocketAddress)
    ensures
        match relay_at_server(relays, from) {
            Some(id) => exists|j: int| 0 <= j < relays.len() && relays[j].0 == id && relays[j].1.server == from
                && forall|k: int| 0 <= k < j ==> (#[trigger] relays[k]).1.server != from,
            None => forall|k: int| 0 <= k < relays.len() ==> (#[trigger] relays[k]).1.server != from,
        },
    decreases relays.len(),
{
    if relays.len() > 0 {
        let p = relays.drop_last();
        lemma_relay_at_server(p, from);
        match relay_at_server(p, from) {
            Some(id) => {
                let j = choose|j: int| 0 <= j < p.len() && p[j].0 == id && p[j].1.server == from
                    && forall|k: int| 0 <= k < j ==> (#[trigger] p[k]).1.server != from;
                assert(relays[j] == p[j]);
                assert forall|k: int| 0 <= k < j implies (#[trigger] relays[k]).1.server != from by {
                    assert(relays[k] == p[k]);
                }
            },
            None => {
                assert forall|k: int| 0 <= k < relays.len() - 1 implies (#[trigger] relays[k]).1.server != from by {
                    assert(relays[k] == p[k]);
                }
                if relays.last().1.server == from {
                    let j = relays.len() - 1;
                    assert(relays[j] == relays.last());
                }
            },
        }
    }
}

proof fn lemma_first_accepting_prefix(states: Seq<Option<StateView>>, from: SocketAddress, i: int)
    requires
        0 <= i < states.len(),
        first_accepting(states.subrange(0, i), from) is None,
        states[i] is Some && state_accepts(states[i].unwrap(), from),
    ensures
        first_accepting(states, from) == Some(i),
    decreases states.len(),
{
    let sub = states.subrange(0, i + 1);
    assert(sub.drop_last() =~= states.subrange(0, i));
    assert(sub.last() == states[i]);
    if i + 1 < states.len() {
        let p = states.drop_last();
        assert(p.subrange(0, i) =~= states.subrange(0, i));
        assert(p[i] == states[i]);
        lemma_first_accepting_prefix(p, from, i);
    } else {
        assert(sub =~= states);
    }
}

pub open spec fn slot_remote_key(s: Slot) -> Option<Seq<u8>> {
    match s {
        Slot::Initial(_) => None,
        Slot::Established(c) => Some(c.remote_key()),
    }
}

/// The buffer after the packets `pkts` were added in order.
pub open spec fn ring_push_all(s: Seq<Seq<u8>>, pkts: Seq<Seq<u8>>) -> Seq<Seq<u8>>
    decreases pkts.len(),
{
    if pkts.len() == 0 {
        s
    } else {
        crate::connection::ring_push(ring_push_all(s, pkts.drop_last()), pkts.last())
    }
}

proof fn lemma_established_count_le(states: Seq<Option<StateView>>)
    ensures
        established_count(states) <= states.len(),
    decreases states.len(),
{
    if states.len() > 0 {
        lemma_established_count_le(states.drop_last());
    }
}

/// The number of established connections.
pub open spec fn established_count(states: Seq<Option<StateView>>) -> nat
    decreases states.len(),
{
    if states.len() == 0 {
        0
    } else {
        established_count(states.drop_last()) + if states.last() is Some { 1nat } else { 0nat }
    }
}

/// What `decapsulate` gives back for what WireGuard made of the datagram.
pub open spec fn decap_result(id: u64, o: wg::WgOutput) -> Result<Inbound, Error> {
    match o {
        wg::WgOutput::TunnelV4(p) => Ok(Inbound::Packet { connection: id, packet: p }),
        wg::WgOutput::TunnelV6(p) => Ok(Inbound::Packet { connection: id, packet: p }),
        wg::WgOutput::Network(_) | wg::WgOutput::Done => Ok(Inbound::Handled),
        wg::WgOutput::Expired | wg::WgOutput::Failed => Err(Error::Decapsulate),
    }
}

/// The result for WireGuard's answer `out` on connection `id`, and the bytes
/// it wants sent, if any.
fn decapsulated(id: u64, out: wg::WgOutput) -> (r: (Result<Inbound, Error>, Option<Vec<u8>>))
    ensures
        r.0 == decap_result(id, out),
        r.1 == match out {
            wg::WgOutput::Network(b) => Some(b),
            _ => None::<Vec<u8>>,
        },
{
    match out {
        wg::WgOutput::TunnelV4(p) => (Ok(Inbound::Packet { connection: id, packet: p }), None),
        wg::WgOutput::TunnelV6(p) => (Ok(Inbound::Packet { connection: id, packet: p }), None),
        wg::WgOutput::Network(b) => (Ok(Inbound::Handled), Some(b)),
        wg::WgOutput::Done => (Ok(Inbound::Handled), None),
        wg::WgOutput::Expired | wg::WgOutput::Failed => (Err(Error::Decapsulate), None),
    }
}

/// How a connection in state `before`, whose datagrams were `t0`, ends up
/// when WireGuard made `o` of a datagram and then handed out `pkts` to send
/// (the first of them from `o`, the rest drained from its queue).
pub open spec fn decap_effect(
    id: u64,
    before: StateView,
    after: StateView,
    t0: Seq<(Option<SocketAddress>, SocketAddress, Seq<u8>)>,
    t1: Seq<(Option<SocketAddress>, SocketAddress, Seq<u8>)>,
    relays: Seq<(u64, AllocView)>,
    o: wg::WgOutput,
    pkts: Seq<Seq<u8>>,
    r: Result<Inbound, Error>,
) -> bool {
    &&& r == decap_result(id, o)
    &&& match o {
        wg::WgOutput::Network(b) => pkts.len() >= 1 && pkts[0] == b@,
        _ => pkts.len() == 0,
    }
    &&& match before {
        StateView::Connecting { possible_sockets, buffered } => after == (StateView::Connecting {
            possible_sockets,
            buffered: ring_push_all(buffered, pkts),
        }) && t1 == t0,
        StateView::Connected { peer_socket, .. } => after == before && t1 == t0 + transmits_for(peer_socket, pkts, relays),
        _ => after == before && t1 == t0,
    }
}

/// What decrypting `packet` on connection `k` did, from `a` to `b`.
///
/// `events0` are the events queued before the decryption.
pub open spec fn decap_step<T>(a: Node<T>, b: Node<T>, k: int, packet: Seq<u8>, r: Result<Inbound, Error>, events0: Seq<Event>) -> bool {
    let id = a.ids()[k];
    let s0 = a.conn_states()[k].unwrap();
    let s1 = b.conn_states()[k].unwrap();
    let t0 = a.transmits().map_values(|t: Transmit| tview(t));
    let t1 = b.transmits().map_values(|t: Transmit| tview(t));
    let rel = a.relays();
    &&& b.wf()
    &&& b.ids() == a.ids()
    &&& b.relays() == a.relays()
    &&& b.initial_flags() == a.initial_flags()
    &&& b.conn_states().len() == a.conn_states().len()
    &&& forall|j: int| 0 <= j < a.ids().len() && j != k ==> #[trigger] b.infos()[j] == a.infos()[j]
        && b.conn_states()[j] == a.conn_states()[j]
    &&& a.infos()[k].latch ==> b.infos()[k].latch
    &&& b.events() == events0 + (if !a.infos()[k].latch && b.infos()[k].latch {
        seq![Event::ConnectionEstablished(id)]
    } else {
        Seq::empty()
    })
    &&& packet.len() > wg::MAX_PACKET ==> r == Err::<Inbound, Error>(Error::Decapsulate)
        && b.conn_states()[k] == a.conn_states()[k] && t1 == t0
    &&& exists|o: wg::WgOutput, pkts: Seq<Seq<u8>>| #[trigger] decap_effect(id, s0, s1, t0, t1, rel, o, pkts, r)
}

pub open spec fn slot_deadline(s: Slot) -> u64 {
    match s {
        Slot::Initial(c) => c.no_answer_deadline(),
        Slot::Established(c) => c.deadline(),
    }
}

pub open spec fn slot_locals(s: Slot) -> Seq<Candidate> {
    match s {
        Slot::Initial(c) => c.locals(),
        Slot::Established(c) => c.locals(),
    }
}

fn slot_add_local_candidate(cid: u64, slot: &mut Slot, c: Candidate, events: &mut VecDeque<Event>)
    ensures
        slot_locals(*final(slot)) == local_candidate_effect(slot_locals(*old(slot)), c, cid).0,
        final(events)@ == old(events)@ + local_candidate_effect(slot_locals(*old(slot)), c, cid).1,
        (*old(slot) is Initial) == (*final(slot) is Initial),
        slot_state(*final(slot)) == slot_state(*old(slot)),
        slot_info(*final(slot)) == slot_info(*old(slot)),
{
    match slot {
        Slot::Initial(conn) => add_local_candidate(cid, &mut conn.agent, c, events),
        Slot::Established(conn) => add_local_candidate(cid, &mut conn.agent, c, events),
    }
}

fn slot_remove_local_candidate(cid: u64, slot: &mut Slot, c: Candidate, events: &mut VecDeque<Event>)
    ensures
        slot_locals(*final(slot)) == invalidate_effect(slot_locals(*old(slot)), c, cid).0,
        final(events)@ == old(events)@ + invalidate_effect(slot_locals(*old(slot)), c, cid).1,
        (*old(slot) is Initial) == (*final(slot) is Initial),
        slot_state(*final(slot)) == slot_state(*old(slot)),
{
    match slot {
        Slot::Initial(conn) => remove_local_candidate(cid, &mut conn.agent, c, events),
        Slot::Established(conn) => remove_local_candidate(cid, &mut conn.agent, c, events),
    }
}

/// The events of adding local candidate `c` to the first `n` connections.
pub open spec fn add_to_all_events(ids: Seq<u64>, locals: Seq<Seq<Candidate>>, c: Candidate, n: int) -> Seq<Event>
    decreases n,
{
    if n <= 0 {
        Seq::empty()
    } else {
        add_to_all_events(ids, locals, c, n - 1) + local_candidate_effect(locals[n - 1], c, ids[n - 1]).1
    }
}

pub open spec fn closed_events(ids: Seq<u64>) -> Seq<Event> {
    ids.map_values(|id: u64| Event::ConnectionClosed(id))
}

proof fn lemma_gc_ids_unique(s: Seq<(u64, Slot)>)
    requires
        entry_ids(s).no_duplicates(),
    ensures
        entry_ids(gc_kept(s)).no_duplicates(),
        forall|x: u64| #[trigger] entry_ids(gc_kept(s)).contains(x) ==> entry_ids(s).contains(x),
    decreases s.len(),
{
    reveal(Seq::filter);
    if s.len() > 0 {
        let p = s.drop_last();
        assert(entry_ids(p) =~= entry_ids(s).drop_last());
        lemma_gc_ids_unique(p);
        let kp = entry_ids(gc_kept(p));
        let ks = entry_ids(gc_kept(s));
        let ids = entry_ids(s);
        if slot_gc_event(s.last().0, s.last().1).is_none() {
            assert(gc_kept(s) == gc_kept(p).push(s.last()));
            assert(ks =~= kp.push(s.last().0));
            assert(!kp.contains(s.last().0)) by {
                if kp.contains(s.last().0) {
                    let k = choose|k: int| 0 <= k < kp.len() && kp[k] == s.last().0;
                    assert(ids.drop_last().contains(s.last().0));
                    let j = choose|j: int| 0 <= j < ids.drop_last().len() && ids.drop_last()[j] == s.last().0;
                    assert(ids[j] == ids[ids.len() - 1]);
                }
            }
            assert forall|x: u64| ks.contains(x) implies ids.contains(x) by {
                if x != s.last().0 {
                    let k = choose|k: int| 0 <= k < ks.len() && ks[k] == x;
                    assert(kp[k] == x);
                    assert(kp.contains(x));
                    assert(ids.drop_last().contains(x));
                    let j = choose|j: int| 0 <= j < ids.drop_last().len() && ids.drop_last()[j] == x;
                    assert(ids[j] == x);
                } else {
                    assert(ids[ids.len() - 1] == x);
                }
            }
            assert forall|a: int, b: int| 0 <= a < ks.len() && 0 <= b < ks.len() && a != b implies ks[a] != ks[b] by {
                if a < kp.len() && b < kp.len() {
                    assert(ks[a] == kp[a] && ks[b] == kp[b]);
                } else if a < kp.len() {
                    assert(ks[a] == kp[a]);
                    assert(kp.contains(kp[a]));
                } else {
                    assert(ks[b] == kp[b]);
                    assert(kp.contains(kp[b]));
                }
            }
        } else {
            assert(gc_kept(s) == gc_kept(p));
            assert forall|x: u64| ks.contains(x) implies ids.contains(x) by {
                assert(ids.drop_last().contains(x));
                let j = choose|j: int| 0 <= j < ids.drop_last().len() && ids.drop_last()[j] == x;
                assert(ids[j] == x);
            }
        }
    } else {
        assert(entry_ids(gc_kept(s)) =~= Seq::<u64>::empty());
    }
}

/// A sans-IO node that multiplexes connections to many peers over TURN
/// allocations and direct paths.
///
/// It never reads the clock or a socket: time comes in as milliseconds and
/// datagrams as bytes; what it wants done comes out of `poll_transmit`,
/// `poll_event` and `poll_timeout`.
pub struct Node<T> {
    private_key: [u8; 32],
    public_key: [u8; 32],
    next_index: u32,
    rate_limiter: Arc<RateLimiter>,
    host_candidates: Vec<Candidate>,
    buffered_transmits: VecDeque<Transmit>,
    next_rate_limiter_reset: Option<u64>,
    allocations: Allocations,
    connections: Vec<(u64, Slot)>,
    pending_events: VecDeque<Event>,
    marker: PhantomData<T>,
}

impl<T> Node<T> {
    pub closed spec fn ids(&self) -> Seq<u64> {
        self.connections@.map_values(|e: (u64, Slot)| e.0)
    }

    pub closed spec fn agent_locals(&self) -> Seq<Seq<Candidate>> {
        self.connections@.map_values(|e: (u64, Slot)| slot_locals(e.1))
    }

    pub closed spec fn initial_flags(&self) -> Seq<bool> {
        self.connections@.map_values(|e: (u64, Slot)| e.1 is Initial)
    }

    pub closed spec fn events(&self) -> Seq<Event> {
        self.pending_events@
    }

    pub closed spec fn host_candidates(&self) -> Seq<Candidate> {
        self.host_candidates@
    }

    pub closed spec fn transmits(&self) -> Seq<Transmit> {
        self.buffered_transmits@
    }

    pub closed spec fn relays(&self) -> Seq<(u64, AllocView)> {
        self.allocations@
    }

    pub closed spec fn spec_public_key(&self) -> Seq<u8> {
        self.public_key@
    }

    /// When the handshake rate limiter is next reset.
    pub closed spec fn rate_reset(&self) -> Option<u64> {
        self.next_rate_limiter_reset
    }

    /// Where each connection stands; `None` for one that waits for its
    /// answer.
    pub closed spec fn conn_states(&self) -> Seq<Option<StateView>> {
        self.connections@.map_values(|e: (u64, Slot)| slot_state(e.1))
    }

    /// The events with which garbage collection would drop connections now.
    pub closed spec fn gc_view(&self) -> Seq<Event> {
        gc_events(self.connections@)
    }

    /// The IDs of the connections that garbage collection would keep now.
    pub closed spec fn gc_kept_ids(&self) -> Seq<u64> {
        entry_ids(gc_kept(self.connections@))
    }

    /// For each connection, the event with which garbage collection would
    /// drop it now.
    pub closed spec fn gc_flags(&self) -> Seq<Option<Event>> {
        self.connections@.map_values(|e: (u64, Slot)| slot_gc_event(e.0, e.1))
    }

    /// For each connection, the instant at which it fails: an offer without
    /// answer, or a connection without remote candidates.
    pub closed spec fn fail_deadlines(&self) -> Seq<Option<u64>> {
        self.connections@.map_values(|e: (u64, Slot)| slot_fail_deadline(e.1))
    }

    /// For each connection, the public key of its peer; `None` for one that
    /// waits for its answer.
    pub closed spec fn remote_keys(&self) -> Seq<Option<Seq<u8>>> {
        self.connections@.map_values(|e: (u64, Slot)| slot_remote_key(e.1))
    }

    /// What contracts see of each connection.
    pub closed spec fn infos(&self) -> Seq<ConnInfo> {
        self.connections@.map_values(|e: (u64, Slot)| slot_info(e.1))
    }

    /// When each connection wants to be woken.
    pub closed spec fn deadlines(&self) -> Seq<u64> {
        self.connections@.map_values(|e: (u64, Slot)| slot_deadline(e.1))
    }

    /// The node is well formed: connection IDs are unique, the views of the
    /// connections line up, and the allocations are well formed.
    pub open spec fn wf(&self) -> bool {
        &&& self.ids().no_duplicates()
        &&& self.views_agree()
        &&& self.allocations_wf()
    }

    pub closed spec fn allocations_wf(&self) -> bool {
        self.allocations.wf()
    }

    /// The per-connection views have one entry per connection, and what
    /// `infos` says of a connection is what the other views say.
    pub open spec fn views_agree(&self) -> bool {
        let n = self.ids().len();
        &&& self.initial_flags().len() == n
        &&& self.infos().len() == n
        &&& self.conn_states().len() == n
        &&& self.fail_deadlines().len() == n
        &&& self.agent_locals().len() == n
        &&& self.gc_flags().len() == n
        &&& self.deadlines().len() == n
        &&& self.remote_keys().len() == n
        &&& forall|k: int| 0 <= k < n ==> {
            &&& (#[trigger] self.infos()[k]).initial == self.initial_flags()[k]
            &&& self.infos()[k].state == self.conn_states()[k]
            &&& self.infos()[k].fail_deadline == self.fail_deadlines()[k]
            &&& self.infos()[k].remote_key == self.remote_keys()[k]
        }
    }


    /// A node with no connections and no relays.
    pub fn new(private_key: [u8; 32]) -> (r: Self)
        ensures
            r.wf(),
            r.ids() == Seq::<u64>::empty(),
            r.events() == Seq::<Event>::empty(),
            r.host_candidates() == Seq::<Candidate>::empty(),
            r.transmits() == Seq::<Transmit>::empty(),
            r.relays() == Seq::<(u64, AllocView)>::empty(),
            r.infos() == Seq::<ConnInfo>::empty(),
            r.deadlines() == Seq::<u64>::empty(),
            r.rate_reset().is_none(),
            r.spec_public_key() == wg::x25519_public_key(private_key@),
    {
        let public_key = wg::public_key_of(private_key);
        let r = Node {
            private_key,
            public_key,
            next_index: 0,
            rate_limiter: wg::new_rate_limiter(public_key, HANDSHAKE_RATE_LIMIT),
            host_candidates: Vec::new(),
            buffered_transmits: VecDeque::new(),
            next_rate_limiter_reset: None,
            allocations: Allocations::new(),
            connections: Vec::new(),
            pending_events: VecDeque::new(),
            marker: PhantomData,
        };
        assert(r.ids() =~= Seq::<u64>::empty());
        assert(r.infos() =~= Seq::<ConnInfo>::empty());
        assert(r.deadlines() =~= Seq::<u64>::empty());
        r
    }

    pub fn public_key(&self) -> (r: [u8; 32])
        ensures
            r@ == self.spec_public_key(),
    {
        self.public_key
    }

    /// Drops every connection and allocation; each connection, initial or
    /// established, is reported closed, in order.
    ///
    /// The TURN allocations stay on the relays until they time out, so the
    /// caller must bind to a new port before using the node again.
    pub fn reset(&mut self)
        requires
            old(self).wf(),
        ensures
            final(self).wf(),
            final(self).events() == closed_events(old(self).ids()),
            final(self).ids() == Seq::<u64>::empty(),
            final(self).relays() == Seq::<(u64, AllocView)>::empty(),
            final(self).host_candidates() == Seq::<Candidate>::empty(),
            final(self).transmits() == Seq::<Transmit>::empty(),
            final(self).spec_public_key() == old(self).spec_public_key(),
    {
        self.pending_events.clear();
        let mut i: usize = 0;
        while i < self.connections.len()
            invariant
                0 <= i <= self.connections@.len(),
                self.ids() == old(self).ids(),
                self.pending_events@ == closed_events(self.ids().subrange(0, i as int)),
                self.public_key == old(self).public_key,
            decreases self.connections@.len() - i,
        {
            let id = self.connections[i].0;
            self.pending_events.push_back(Event::ConnectionClosed(id));
            proof {
                assert(self.ids()[i as int] == id);
                assert(closed_events(self.ids().subrange(0, i + 1)) =~= closed_events(
                    self.ids().subrange(0, i as int),
                ).push(Event::ConnectionClosed(id)));
            }
            i += 1;
        }
        proof {
            assert(self.ids().subrange(0, self.ids().len() as int) =~= self.ids());
        }
        self.allocations.clear();
        self.buffered_transmits.clear();
        self.host_candidates.clear();
        self.connections.clear();
        proof {
            assert(self.ids() =~= Seq::<u64>::empty());
        }
    }

    /// The oldest pending event.
    pub fn poll_event(&mut self) -> (r: Option<Event>)
        ensures
            old(self).events().len() == 0 ==> r.is_none() && final(self).events() == old(self).events(),
            old(self).events().len() > 0 ==> r == Some(old(self).events()[0])
                && final(self).events() == old(self).events().drop_first(),
            final(self).ids() == old(self).ids(),
            final(self).agent_locals() == old(self).agent_locals(),
            final(self).wf() == old(self).wf(),
            final(self).deadlines() == old(self).deadlines(),
            final(self).rate_reset() == old(self).rate_reset(),
    {
        self.pending_events.pop_front()
    }

    /// The oldest datagram waiting to be sent.
    pub fn poll_transmit(&mut self) -> (r: Option<Transmit>)
        ensures
            old(self).transmits().len() == 0 ==> r.is_none() && final(self).transmits() == old(self).transmits(),
            old(self).transmits().len() > 0 ==> r == Some(old(self).transmits()[0])
                && final(self).transmits() == old(self).transmits().drop_first(),
            final(self).events() == old(self).events(),
            final(self).ids() == old(self).ids(),
            final(self).wf() == old(self).wf(),
            final(self).deadlines() == old(self).deadlines(),
            final(self).rate_reset() == old(self).rate_reset(),
    {
        self.buffered_transmits.pop_front()
    }

    /// Adds `address` as a host candidate: once, and to every connection's
    /// ICE agent, each of which signals it if it is new there.
    pub fn add_local_host_candidate(&mut self, address: SocketAddress) -> (r: Result<(), Error>)
        requires
            old(self).wf(),
        ensures
            final(self).wf(),
            r is Err <==> !valid_host_addr(address),
            r is Err ==> r == Err::<(), Error>(Error::BadLocalAddress),
            final(self).events() == old(self).events() + promotion_events(*old(self), address),
            ({
                let c = Candidate { kind: CandidateKind::Host, addr: address };
                if !valid_host_addr(address) || old(self).host_candidates().contains(c) {
                    &&& final(self).host_candidates() == old(self).host_candidates()
                    &&& final(self).agent_locals() == old(self).agent_locals()
                    &&& final(self).events() == old(self).events()
                } else {
                    &&& final(self).host_candidates() == old(self).host_candidates().push(c)
                    &&& final(self).agent_locals().len() == old(self).agent_locals().len()
                    &&& forall|k: int| 0 <= k < old(self).agent_locals().len() ==> #[trigger] final(self).agent_locals()[k]
                        == local_candidate_effect(old(self).agent_locals()[k], c, old(self).ids()[k]).0
                    &&& final(self).events() == old(self).events() + add_to_all_events(
                        old(self).ids(),
                        old(self).agent_locals(),
                        c,
                        old(self).ids().len() as int,
                    )
                }
            }),
            final(self).ids() == old(self).ids(),
            final(self).initial_flags() == old(self).initial_flags(),
            final(self).conn_states() == old(self).conn_states(),
            final(self).infos() == old(self).infos(),
            final(self).relays() == old(self).relays(),
            final(self).transmits() == old(self).transmits(),
    {
        if !is_valid_host_addr(address) {
            proof {
                assert(old(self).events() + Seq::<Event>::empty() =~= old(self).events());
            }
            return Err(Error::BadLocalAddress);
        }
        let c = Candidate { kind: CandidateKind::Host, addr: address };
        if contains_candidate(&self.host_candidates, c) {
            proof {
                assert(old(self).events() + Seq::<Event>::empty() =~= old(self).events());
            }
            return Ok(());
        }
        self.host_candidates.push(c);
        let mut i: usize = 0;
        while i < self.connections.len()
            invariant
                0 <= i <= self.connections@.len(),
                self.ids() == old(self).ids(),
                self.initial_flags() == old(self).initial_flags(),
                self.conn_states() == old(self).conn_states(),
                self.infos() == old(self).infos(),
                self.agent_locals().len() == old(self).agent_locals().len(),
                forall|k: int| 0 <= k < i ==> #[trigger] self.agent_locals()[k]
                    == local_candidate_effect(old(self).agent_locals()[k], c, old(self).ids()[k]).0,
                forall|k: int| i <= k < self.agent_locals().len() ==> #[trigger] self.agent_locals()[k]
                    == old(self).agent_locals()[k],
                self.pending_events@ == old(self).events() + add_to_all_events(
                    old(self).ids(),
                    old(self).agent_locals(),
                    c,
                    i as int,
                ),
                self.allocations == old(self).allocations,
                self.buffered_transmits == old(self).buffered_transmits,
                self.host_candidates@ == old(self).host_candidates@.push(c),
            decreases self.connections@.len() - i,
        {
            let ghost before = self.connections@;
            let ghost before_locals = self.agent_locals();
            let ghost ev = self.pending_events@;
            let (cid, mut slot) = self.connections.remove(i);
            slot_add_local_candidate(cid, &mut slot, c, &mut self.pending_events);
            self.connections.insert(i, (cid, slot));
            proof {
                assert(self.connections@ =~= before.update(i as int, (cid, slot)));
                assert(self.ids() =~= old(self).ids()) by {
                    assert forall|k: int| 0 <= k < self.ids().len() implies self.ids()[k] == old(self).ids()[k] by {
                        if k == i {
                        } else {
                            assert(self.connections@[k] == before[k]);
                        }
                    }
                }
                assert(self.initial_flags() =~= old(self).initial_flags()) by {
                    assert forall|k: int| 0 <= k < self.initial_flags().len() implies self.initial_flags()[k]
                        == old(self).initial_flags()[k] by {
                        if k != i {
                            assert(self.connections@[k] == before[k]);
                        }
                    }
                }
                assert(self.conn_states() =~= old(self).conn_states()) by {
                    assert forall|k: int| 0 <= k < self.conn_states().len() implies self.conn_states()[k]
                        == old(self).conn_states()[k] by {
                        if k != i {
                            assert(self.connections@[k] == before[k]);
                        }
                    }
                }
                assert(self.infos() =~= old(self).infos()) by {
                    assert forall|k: int| 0 <= k < self.infos().len() implies self.infos()[k]
                        == old(self).infos()[k] by {
                        if k != i {
                            assert(self.connections@[k] == before[k]);
                        }
                    }
                }
                assert(before_locals[i as int] == old(self).agent_locals()[i as int]);
                assert(before_locals[i as int] == slot_locals(before[i as int].1));
                assert forall|k: int| 0 <= k < i + 1 implies #[trigger] self.agent_locals()[k]
                    == local_candidate_effect(old(self).agent_locals()[k], c, old(self).ids()[k]).0 by {
                    if k < i {
                        assert(self.connections@[k] == before[k]);
                        assert(self.agent_locals()[k] == before_locals[k]);
                    } else {
                        assert(self.connections@[k] == (cid, slot));
                        assert(old(self).ids()[k] == cid);
                    }
                }
                assert forall|k: int| i + 1 <= k < self.agent_locals().len() implies #[trigger] self.agent_locals()[k]
                    == old(self).agent_locals()[k] by {
                    assert(self.connections@[k] == before[k]);
                    assert(self.agent_locals()[k] == before_locals[k]);
                }
                assert(add_to_all_events(old(self).ids(), old(self).agent_locals(), c, i + 1)
                    == add_to_all_events(old(self).ids(), old(self).agent_locals(), c, i as int)
                    + local_candidate_effect(old(self).agent_locals()[i as int], c, old(self).ids()[i as int]).1);
                assert(self.pending_events@ =~= old(self).events() + add_to_all_events(
                    old(self).ids(),
                    old(self).agent_locals(),
                    c,
                    i + 1,
                ));
            }
            i += 1;
        }
        proof {
            assert(self.ids().no_duplicates());
        }
        Ok(())
    }

    /// The position of connection `cid`.
    fn find(&self, cid: u64) -> (r: Option<usize>)
        ensures
            match r {
                Some(i) => i < self.ids().len() && self.ids()[i as int] == cid,
                None => !self.ids().contains(cid),
            },
    {
        let mut i: usize = 0;
        while i < self.connections.len()
            invariant
                0 <= i <= self.connections@.len(),
                forall|k: int| 0 <= k < i ==> self.ids()[k] != cid,
            decreases self.connections@.len() - i,
        {
            if self.connections[i].0 == cid {
                return Some(i);
            }
            i += 1;
        }
        None
    }

    /// Drops connection `cid`, if there is one.
    fn remove_connection(&mut self, cid: u64) -> (r: Option<Slot>)
        requires
            old(self).wf(),
        ensures
            final(self).wf(),
            !final(self).ids().contains(cid),
            forall|x: u64| x != cid ==> (final(self).ids().contains(x) <==> old(self).ids().contains(x)),
            r.is_some() == old(self).ids().contains(cid),
            match r {
                Some(slot) => exists|i: int| 0 <= i < old(self).ids().len() && old(self).ids()[i] == cid
                    && old(self).initial_flags()[i] == (slot is Initial) && old(self).infos()[i] == slot_info(slot),
                None => true,
            },
            final(self).events() == old(self).events(),
            final(self).relays() == old(self).relays(),
            final(self).host_candidates() == old(self).host_candidates(),
            final(self).transmits() == old(self).transmits(),
            final(self).spec_public_key() == old(self).spec_public_key(),
    {
        match self.find(cid) {
            Some(i) => {
                let ghost before = self.ids();
                let ghost flags = self.initial_flags();
                let ghost infos = self.infos();
                let (_, slot) = self.connections.remove(i);
                proof {
                    assert(flags[i as int] == (slot is Initial));
                    assert(infos[i as int] == slot_info(slot));
                    assert(self.ids() =~= before.remove(i as int));
                    assert forall|a: int, b: int| 0 <= a < self.ids().len() && 0 <= b < self.ids().len() && a != b
                        implies self.ids()[a] != self.ids()[b] by {
                        let a2 = if a < i { a } else { a + 1 };
                        let b2 = if b < i { b } else { b + 1 };
                        assert(self.ids()[a] == before[a2]);
                        assert(self.ids()[b] == before[b2]);
                    }
                    assert(!self.ids().contains(cid)) by {
                        if self.ids().contains(cid) {
                            let k = choose|k: int| 0 <= k < self.ids().len() && self.ids()[k] == cid;
                            let k2 = if k < i { k } else { k + 1 };
                            assert(before[k2] == cid);
                        }
                    }
                    assert forall|x: u64| x != cid implies (self.ids().contains(x) <==> before.contains(x)) by {
                        if before.contains(x) {
                            let k = choose|k: int| 0 <= k < before.len() && before[k] == x;
                            assert(k != i);
                            let k2 = if k < i { k } else { k - 1 };
                            assert(self.ids()[k2] == x);
                        }
                        if self.ids().contains(x) {
                            let k = choose|k: int| 0 <= k < self.ids().len() && self.ids()[k] == x;
                            let k2 = if k < i { k } else { k + 1 };
                            assert(before[k2] == x);
                        }
                    }
                }
                Some(slot)
            },
            None => None,
        }
    }

    /// Appends connection `cid`, which the node does not have.
    fn push_connection(&mut self, cid: u64, slot: Slot)
        requires
            old(self).wf(),
            !old(self).ids().contains(cid),
        ensures
            final(self).wf(),
            final(self).ids() == old(self).ids().push(cid),
            final(self).initial_flags() == old(self).initial_flags().push(slot is Initial),
            final(self).agent_locals() == old(self).agent_locals().push(slot_locals(slot)),
            final(self).infos() == old(self).infos().push(slot_info(slot)),
            final(self).events() == old(self).events(),
            final(self).relays() == old(self).relays(),
            final(self).host_candidates() == old(self).host_candidates(),
            final(self).transmits() == old(self).transmits(),
            final(self).spec_public_key() == old(self).spec_public_key(),
    {
        let ghost is_initial = slot is Initial;
        let ghost locals = slot_locals(slot);
        let ghost info = slot_info(slot);
        self.connections.push((cid, slot));
        proof {
            assert(self.infos() =~= old(self).infos().push(info));
            assert(self.ids() =~= old(self).ids().push(cid));
            assert(self.initial_flags() =~= old(self).initial_flags().push(is_initial));
            assert(self.agent_locals() =~= old(self).agent_locals().push(locals));
            assert forall|a: int, b: int| 0 <= a < self.ids().len() && 0 <= b < self.ids().len() && a != b
                implies self.ids()[a] != self.ids()[b] by {
                if a < old(self).ids().len() && b < old(self).ids().len() {
                } else if a < old(self).ids().len() {
                    assert(old(self).ids().contains(self.ids()[a]));
                } else {
                    assert(old(self).ids().contains(self.ids()[b]));
                }
            }
        }
    }

    /// Offers `agent` of connection `cid` every local candidate the node
    /// knows: the host candidates, then those of each allocation.
    fn seed_agent_with_local_candidates(&mut self, cid: u64, agent: &mut Agent)
        requires
            old(self).wf(),
        ensures
            final(self).events().len() >= old(self).events().len(),
            final(self).events().subrange(0, old(self).events().len() as int) == old(self).events(),
            forall|k: int| old(self).events().len() <= k < final(self).events().len() ==> announces(#[trigger] final(self).events()[k], cid),
            final(self).ids() == old(self).ids(),
            final(self).wf() == old(self).wf(),
            final(self).relays() == old(self).relays(),
            final(self).host_candidates() == old(self).host_candidates(),
            final(self).transmits() == old(self).transmits(),
            final(self).spec_public_key() == old(self).spec_public_key(),
            final(self).agent_locals() == old(self).agent_locals(),
            final(self).initial_flags() == old(self).initial_flags(),
            final(agent).remotes() == old(agent).remotes(),
            final(agent).creds() == old(agent).creds(),
    {
        let n0 = self.pending_events.len();
        let mut i: usize = 0;
        while i < self.host_candidates.len()
            invariant
                0 <= i <= self.host_candidates@.len(),
                n0 == old(self).events().len(),
                self.pending_events@.len() >= n0,
                self.pending_events@.subrange(0, n0 as int) == old(self).events(),
                forall|k: int| n0 <= k < self.pending_events@.len() ==> announces(#[trigger] self.pending_events@[k], cid),
                self.connections == old(self).connections,
                self.allocations == old(self).allocations,
                self.allocations.wf(),
                self.host_candidates == old(self).host_candidates,
                self.buffered_transmits == old(self).buffered_transmits,
                self.public_key == old(self).public_key,
                agent.remotes() == old(agent).remotes(),
                agent.creds() == old(agent).creds(),
            decreases self.host_candidates@.len() - i,
        {
            let ghost before = self.pending_events@;
            add_local_candidate(cid, agent, self.host_candidates[i], &mut self.pending_events);
            proof {
                assert forall|k: int| n0 <= k < self.pending_events@.len() implies announces(#[trigger] self.pending_events@[k], cid) by {
                    if k < before.len() {
                        assert(self.pending_events@[k] == before[k]);
                    }
                }
                assert(self.pending_events@.subrange(0, n0 as int) =~= before.subrange(0, n0 as int));
            }
            i += 1;
        }
        let mut j: usize = 0;
        while j < self.allocations.len()
            invariant
                0 <= j <= self.allocations@.len(),
                n0 == old(self).events().len(),
                self.pending_events@.len() >= n0,
                self.pending_events@.subrange(0, n0 as int) == old(self).events(),
                forall|k: int| n0 <= k < self.pending_events@.len() ==> announces(#[trigger] self.pending_events@[k], cid),
                self.connections == old(self).connections,
                self.allocations == old(self).allocations,
                self.allocations.wf(),
                self.host_candidates == old(self).host_candidates,
                self.buffered_transmits == old(self).buffered_transmits,
                self.public_key == old(self).public_key,
                agent.remotes() == old(agent).remotes(),
                agent.creds() == old(agent).creds(),
            decreases self.allocations@.len() - j,
        {
            let (_, a) = self.allocations.get(j);
            let cands = a.current_candidates();
            let mut k: usize = 0;
            while k < cands.len()
                invariant
                    0 <= k <= cands@.len(),
                    n0 == old(self).events().len(),
                    self.pending_events@.len() >= n0,
                    self.pending_events@.subrange(0, n0 as int) == old(self).events(),
                    forall|m: int| n0 <= m < self.pending_events@.len() ==> announces(#[trigger] self.pending_events@[m], cid),
                    self.connections == old(self).connections,
                    self.allocations == old(self).allocations,
                    self.host_candidates == old(self).host_candidates,
                    self.buffered_transmits == old(self).buffered_transmits,
                    self.public_key == old(self).public_key,
                    agent.remotes() == old(agent).remotes(),
                agent.creds() == old(agent).creds(),
                decreases cands@.len() - k,
            {
                let ghost before = self.pending_events@;
                add_local_candidate(cid, agent, cands[k], &mut self.pending_events);
                proof {
                    assert forall|m: int| n0 <= m < self.pending_events@.len() implies announces(#[trigger] self.pending_events@[m], cid) by {
                        if m < before.len() {
                            assert(self.pending_events@[m] == before[m]);
                        }
                    }
                    assert(self.pending_events@.subrange(0, n0 as int) =~= before.subrange(0, n0 as int));
                }
                k += 1;
            }
            j += 1;
        }
    }

    /// Makes a WireGuard tunnel to `remote` with the next session index.
    fn new_tunnel(&mut self, remote: [u8; 32], session_key: [u8; 32]) -> (r: Option<Tunn>)
        ensures
            r.is_some(),
            final(self).ids() == old(self).ids(),
            final(self).wf() == old(self).wf(),
            final(self).events() == old(self).events(),
            final(self).relays() == old(self).relays(),
            final(self).host_candidates() == old(self).host_candidates(),
            final(self).transmits() == old(self).transmits(),
            final(self).spec_public_key() == old(self).spec_public_key(),
            final(self).agent_locals() == old(self).agent_locals(),
            final(self).initial_flags() == old(self).initial_flags(),
    {
        let index = self.next_index;
        self.next_index = if index < MAX_SESSION_INDEX { index + 1 } else { 0 };
        wg::new_tunnel(self.private_key, remote, session_key, crate::connection::WG_KEEP_ALIVE_SECS, index, &self.rate_limiter)
    }

    /// Whether `cid` is a connection that waits for its answer.
    pub fn is_expecting_answer(&self, cid: u64) -> (r: bool)
        requires
            self.wf(),
        ensures
            r == exists|i: int| 0 <= i < self.ids().len() && self.ids()[i] == cid && self.initial_flags()[i],
    {
        match self.find(cid) {
            Some(i) => {
                let r = match &self.connections[i].1 {
                    Slot::Initial(_) => true,
                    Slot::Established(_) => false,
                };
                proof {
                    assert(self.initial_flags()[i as int] == r);
                    if !r {
                        assert forall|k: int| 0 <= k < self.ids().len() && self.ids()[k] == cid implies !self.initial_flags()[k] by {
                            assert(self.ids()[i as int] == cid);
                            assert(k == i);
                        }
                    }
                }
                r
            },
            None => false,
        }
    }

    /// The agent of connection `cid`, at position `i`, takes remote
    /// candidate `c` (`add`) or drops it.
    fn update_remote_candidate(&mut self, i: usize, c: Candidate, add: bool)
        requires
            old(self).wf(),
            i < old(self).ids().len(),
        ensures
            final(self).wf(),
            final(self).ids() == old(self).ids(),
            final(self).initial_flags() == old(self).initial_flags(),
            final(self).agent_locals() == old(self).agent_locals(),
            final(self).events() == old(self).events(),
            final(self).relays() == old(self).relays(),
            final(self).host_candidates() == old(self).host_candidates(),
            final(self).transmits() == old(self).transmits(),
            final(self).spec_public_key() == old(self).spec_public_key(),
            forall|k: int| 0 <= k < old(self).ids().len() && k != i ==> #[trigger] final(self).infos()[k] == old(self).infos()[k],
            final(self).infos()[i as int].remotes == if add {
                if old(self).infos()[i as int].remotes.contains(c) {
                    old(self).infos()[i as int].remotes
                } else {
                    old(self).infos()[i as int].remotes.push(c)
                }
            } else {
                without(old(self).infos()[i as int].remotes, c)
            },
    {
        let ghost before = self.connections@;
        let (cid, mut slot) = self.connections.remove(i);
        match &mut slot {
            Slot::Initial(conn) => {
                if add {
                    conn.agent.add_remote_candidate(c);
                } else {
                    conn.agent.remove_remote_candidate(c);
                }
            },
            Slot::Established(conn) => {
                if add {
                    conn.agent.add_remote_candidate(c);
                } else {
                    conn.agent.remove_remote_candidate(c);
                }
            },
        }
        self.connections.insert(i, (cid, slot));
        proof {
            assert(self.connections@ =~= before.update(i as int, (cid, slot)));
            assert(self.ids() =~= old(self).ids());
            assert(self.initial_flags() =~= old(self).initial_flags());
            assert(self.agent_locals() =~= old(self).agent_locals());
            assert(self.infos()[i as int] == slot_info(slot));
            assert forall|k: int| 0 <= k < old(self).ids().len() && k != i implies #[trigger] self.infos()[k] == old(self).infos()[k] by {
                assert(self.connections@[k] == before[k]);
            }
        }
    }

    /// The position of the allocation on the same relay as the remote's
    /// relayed candidate `c`: one of whose candidates has the same IP.
    fn same_relay_as_peer(&self, c: Candidate) -> (r: Option<usize>)
        requires
            self.wf(),
        ensures
            match r {
                Some(j) => j < self.relays().len() && offers_ip(self.relays()[j as int].1, c.addr.ip)
                    && forall|x: int| 0 <= x < j ==> !offers_ip(#[trigger] self.relays()[x].1, c.addr.ip),
                None => forall|x: int| 0 <= x < self.relays().len() ==> !offers_ip(#[trigger] self.relays()[x].1, c.addr.ip),
            },
    {
        let mut j: usize = 0;
        while j < self.allocations.len()
            invariant
                0 <= j <= self.allocations@.len(),
                self.allocations.wf(),
                forall|x: int| 0 <= x < j ==> !offers_ip(#[trigger] self.relays()[x].1, c.addr.ip),
            decreases self.allocations@.len() - j,
        {
            let (_, a) = self.allocations.get(j);
            let cands = a.current_candidates();
            let mut k: usize = 0;
            while k < cands.len()
                invariant
                    0 <= k <= cands@.len(),
                    j < self.allocations@.len(),
                    cands@ == alloc_candidates(self.relays()[j as int].1),
                    self.allocations.wf(),
                    forall|x: int| 0 <= x < j ==> !offers_ip(#[trigger] self.relays()[x].1, c.addr.ip),
                    forall|y: int| 0 <= y < k ==> (#[trigger] cands@[y]).addr.ip != c.addr.ip,
                decreases cands@.len() - k,
            {
                if cands[k].addr.ip == c.addr.ip {
                    proof {
                        let a0 = self.relays()[j as int].1;
                        assert(k < alloc_candidates(a0).len());
                        assert(alloc_candidates(a0)[k as int].addr.ip == c.addr.ip);
                        assert(offers_ip(a0, c.addr.ip));
                    }
                    return Some(j);
                }
                k += 1;
            }
            proof {
                assert(!offers_ip(self.relays()[j as int].1, c.addr.ip)) by {
                    if offers_ip(self.relays()[j as int].1, c.addr.ip) {
                        let y = choose|y: int| 0 <= y < alloc_candidates(self.relays()[j as int].1).len()
                            && (#[trigger] alloc_candidates(self.relays()[j as int].1)[y]).addr.ip == c.addr.ip;
                        assert(cands@[y].addr.ip == c.addr.ip);
                    }
                }
            }
            j += 1;
        }
        None
    }

    /// Takes a candidate that the remote of connection `cid` signalled.
    ///
    /// Its agent learns it. For a relayed candidate a channel is bound on the
    /// allocation of the same relay, if there is one; for any other but a
    /// host candidate, on every allocation.
    pub fn add_remote_candidate(&mut self, cid: u64, candidate: Candidate)
        requires
            old(self).wf(),
        ensures
            final(self).wf(),
            final(self).ids() == old(self).ids(),
            final(self).initial_flags() == old(self).initial_flags(),
            final(self).agent_locals() == old(self).agent_locals(),
            final(self).events() == old(self).events(),
            forall|k: int| 0 <= k < old(self).ids().len() && old(self).ids()[k] == cid ==> #[trigger] final(self).infos()[k].remotes
                == if old(self).infos()[k].remotes.contains(candidate) {
                    old(self).infos()[k].remotes
                } else {
                    old(self).infos()[k].remotes.push(candidate)
                },
            forall|k: int| 0 <= k < old(self).ids().len() && old(self).ids()[k] != cid ==> #[trigger] final(self).infos()[k]
                == old(self).infos()[k],
            final(self).relays().len() == old(self).relays().len(),
            candidate.kind == CandidateKind::Host ==> final(self).relays() == old(self).relays(),
            candidate.kind == CandidateKind::Relayed && (exists|j: int| 0 <= j < old(self).relays().len()
                && offers_ip(#[trigger] old(self).relays()[j].1, candidate.addr.ip)) ==> exists|j: int|
                0 <= j < old(self).relays().len() && offers_ip(old(self).relays()[j].1, candidate.addr.ip)
                && (forall|x: int| 0 <= x < j ==> !offers_ip(#[trigger] old(self).relays()[x].1, candidate.addr.ip))
                && final(self).relays() == old(self).relays().update(j, with_channel(old(self).relays()[j], candidate.addr)),
            candidate.kind != CandidateKind::Host && !(candidate.kind == CandidateKind::Relayed && (exists|j: int| 0 <= j < old(self).relays().len()
                && offers_ip(#[trigger] old(self).relays()[j].1, candidate.addr.ip))) ==> forall|j: int| 0 <= j < old(self).relays().len()
                ==> #[trigger] final(self).relays()[j] == with_channel(old(self).relays()[j], candidate.addr),
            final(self).host_candidates() == old(self).host_candidates(),
            final(self).transmits() == old(self).transmits(),
    {
        match self.find(cid) {
            Some(i) => {
                proof {
                    assert forall|k: int| 0 <= k < old(self).ids().len() && old(self).ids()[k] == cid implies k == i by {}
                }
                self.update_remote_candidate(i, candidate, true);
            },
            None => {},
        }
        match candidate.kind {
            CandidateKind::Host => {
                return;
            },
            CandidateKind::Relayed => {
                match self.same_relay_as_peer(candidate) {
                    Some(j) => {
                        self.allocations.bind_channel_at(j, candidate.addr);
                        proof {
                            assert(self.relays() =~= old(self).relays().update(j as int, with_channel(old(self).relays()[j as int], candidate.addr)));
                        }
                        return;
                    },
                    None => {},
                }
            },
            CandidateKind::ServerReflexive | CandidateKind::PeerReflexive => {},
        }
        let mut j: usize = 0;
        let ghost mid = self.relays();
        let ghost infos_mid = self.infos();
        while j < self.allocations.len()
            invariant
                0 <= j <= self.allocations@.len(),
                self.allocations.wf(),
                self.allocations@.len() == mid.len(),
                forall|k: int| 0 <= k < mid.len() ==> (#[trigger] self.allocations@[k]).0 == mid[k].0,
                self.ids() == old(self).ids(),
                self.ids().no_duplicates(),
                self.initial_flags() == old(self).initial_flags(),
                self.agent_locals() == old(self).agent_locals(),
                self.pending_events@ == old(self).pending_events@,
                self.host_candidates@ == old(self).host_candidates@,
                self.buffered_transmits@ == old(self).buffered_transmits@,
                mid.len() == old(self).relays().len(),
                mid == old(self).relays(),
                self.infos() == infos_mid,
                forall|k: int| 0 <= k < j ==> #[trigger] self.allocations@[k] == with_channel(mid[k], candidate.addr),
                forall|k: int| j <= k < mid.len() ==> #[trigger] self.allocations@[k] == mid[k],
                forall|k: int| 0 <= k < old(self).ids().len() && old(self).ids()[k] == cid ==> #[trigger] infos_mid[k].remotes
                    == if old(self).infos()[k].remotes.contains(candidate) {
                        old(self).infos()[k].remotes
                    } else {
                        old(self).infos()[k].remotes.push(candidate)
                    },
            decreases self.allocations@.len() - j,
        {
            self.allocations.bind_channel_at(j, candidate.addr);
            j += 1;
        }
    }

    /// The remote of connection `cid` withdrew `candidate`.
    pub fn remove_remote_candidate(&mut self, cid: u64, candidate: Candidate)
        requires
            old(self).wf(),
        ensures
            final(self).wf(),
            final(self).ids() == old(self).ids(),
            final(self).initial_flags() == old(self).initial_flags(),
            final(self).agent_locals() == old(self).agent_locals(),
            final(self).events() == old(self).events(),
            final(self).relays() == old(self).relays(),
            forall|k: int| 0 <= k < old(self).ids().len() && old(self).ids()[k] == cid ==> #[trigger] final(self).infos()[k].remotes
                == without(old(self).infos()[k].remotes, candidate),
            forall|k: int| 0 <= k < old(self).ids().len() && old(self).ids()[k] != cid ==> #[trigger] final(self).infos()[k]
                == old(self).infos()[k],
    {
        match self.find(cid) {
            Some(i) => {
                proof {
                    assert forall|k: int| 0 <= k < old(self).ids().len() && old(self).ids()[k] == cid implies k == i by {}
                }
                self.update_remote_candidate(i, candidate, false)
            },
            None => {},
        }
    }

    /// Makes the connection with `agent` and the tunnel to `remote`.
    fn establish(&mut self, cid: u64, mut agent: Agent, remote: [u8; 32], session_key: [u8; 32], intent_sent_at: u64, now: u64)
        requires
            old(self).wf(),
            !old(self).ids().contains(cid),
        ensures
            final(self).wf(),
            final(self).ids() == old(self).ids().push(cid),
            !final(self).initial_flags().last(),
            final(self).infos().last() == (ConnInfo {
                initial: false,
                state: Some(StateView::Connecting { possible_sockets: Seq::empty(), buffered: Seq::empty() }),
                remote_key: Some(remote@),
                session_key: session_key@,
                creds: agent.creds(),
                remotes: agent.remotes(),
                latch: false,
                fail_deadline: candidate_deadline(agent.remotes(), now),
                idle_deadline: Some(sat_add(now, MAX_IDLE_MS)),
                timer_at: Some(now),
            }),
            final(self).events().len() >= old(self).events().len(),
            final(self).events().subrange(0, old(self).events().len() as int) == old(self).events(),
            final(self).relays() == old(self).relays(),
            final(self).host_candidates() == old(self).host_candidates(),
            final(self).spec_public_key() == old(self).spec_public_key(),
    {
        self.seed_agent_with_local_candidates(cid, &mut agent);
        let tunnel = match self.new_tunnel(remote, session_key) {
            Some(t) => t,
            None => {
                return;
            },
        };
        let conn = Connection {
            agent,
            tunnel,
            remote_pub_key: remote,
            session_key,
            state: ConnectionState::new(),
            next_timer_update: now,
            intent_sent_at,
            signalling_completed_at: now,
            last_outgoing: now,
            last_incoming: now,
            handshake_done: false,
        };
        let ghost before = self.initial_flags();
        let ghost ci = conn.info();
        proof {
            assert(ci.idle_deadline == Some(sat_add(now, MAX_IDLE_MS)));
            assert(ci.fail_deadline == candidate_deadline(conn.agent.remotes(), now));
        }
        self.push_connection(cid, Slot::Established(conn));
        proof {
            assert(self.infos().last() == ci);
            assert(self.initial_flags() == before.push(false));
            assert(self.initial_flags().last() == false);
        }
    }

    /// Sends `message` to the peer through `socket`: directly, or wrapped as
    /// channel-data through the relay's allocation. Dropped where the relay
    /// or its channel to the peer is gone.
    fn make_owned_transmit(&mut self, socket: PeerSocket, message: Vec<u8>)
        requires
            old(self).wf(),
        ensures
            final(self).wf(),
            final(self).transmits().map_values(|t: Transmit| tview(t)) == old(self).transmits().map_values(|t: Transmit| tview(t))
                + opt_seq(transmit_for(socket, message@, old(self).relays())),
            final(self).ids() == old(self).ids(),
            final(self).initial_flags() == old(self).initial_flags(),
            final(self).agent_locals() == old(self).agent_locals(),
            final(self).events() == old(self).events(),
            final(self).relays() == old(self).relays(),
            final(self).host_candidates() == old(self).host_candidates(),
            final(self).spec_public_key() == old(self).spec_public_key(),
            final(self).rate_reset() == old(self).rate_reset(),
            final(self).deadlines() == old(self).deadlines(),
            final(self).conn_states() == old(self).conn_states(),
            final(self).fail_deadlines() == old(self).fail_deadlines(),
            final(self).gc_flags() == old(self).gc_flags(),
            final(self).infos() == old(self).infos(),
            final(self).initial_flags() == old(self).initial_flags(),
    {
        let ghost before = self.buffered_transmits@;
        let t: Option<Transmit> = match socket {
            PeerSocket::Direct { source, dest } => Some(Transmit { src: Some(source), dst: dest, payload: message }),
            PeerSocket::Relay { relay, dest } => {
                if message.len() > 65535 {
                    None
                } else {
                    match self.allocations.position(relay) {
                        Some(j) => {
                            let (_, a) = self.allocations.get(j);
                            a.encode_to_owned_transmit(dest, message.as_slice())
                        },
                        None => None,
                    }
                }
            },
        };
        match t {
            Some(t) => {
                let ghost tv = tview(t);
                self.buffered_transmits.push_back(t);
                proof {
                    assert(self.buffered_transmits@.map_values(|t: Transmit| tview(t)) =~= before.map_values(|t: Transmit| tview(t)).push(tv));
                }
            },
            None => {
                proof {
                    assert(self.buffered_transmits@.map_values(|t: Transmit| tview(t)) =~= before.map_values(|t: Transmit| tview(t)) + Seq::empty());
                }
            },
        }
    }

    /// Handles what the ICE agent of connection `cid` reported.
    ///
    /// On a nomination the connection is connected through the nominated
    /// pair (through a relay where the source is a relayed address), the
    /// WireGuard packets that waited are sent there in order, and a new
    /// handshake follows.
    pub fn handle_ice_event(&mut self, cid: u64, event: IceEvent)
        requires
            old(self).wf(),
        ensures
            final(self).wf(),
            final(self).ids() == old(self).ids(),
            final(self).initial_flags() == old(self).initial_flags(),
            final(self).agent_locals() == old(self).agent_locals(),
            final(self).events() == old(self).events(),
            final(self).relays() == old(self).relays(),
            forall|k: int| 0 <= k < old(self).ids().len() && old(self).ids()[k] != cid ==> #[trigger] final(self).conn_states()[k] == old(self).conn_states()[k],
            forall|k: int| 0 <= k < old(self).ids().len() && old(self).ids()[k] == cid && !old(self).initial_flags()[k] ==> {
                let before = old(self).conn_states()[k].unwrap();
                let after = final(self).conn_states()[k].unwrap();
                let old_t = tviews(old(self).transmits());
                let new_t = tviews(final(self).transmits());
                match event {
                    IceEvent::DiscoveredRecv { source } => after == crate::connection::state_with_socket(before, source) && new_t == old_t,
                    IceEvent::Disconnected => after == StateView::Failed && new_t == old_t,
                    IceEvent::NominatedSend { source, destination } => {
                        exists|o: wg::WgOutput| #[trigger] nomination_effect(
                            before,
                            after,
                            nominated_socket(old(self).relays(), source, destination),
                            old(self).relays(),
                            old_t,
                            new_t,
                            o,
                        )
                    },
                }
            },
    {
        let i = match self.find(cid) {
            Some(i) => i,
            None => {
                return;
            },
        };
        let ghost before = self.connections@;
        let (id, slot) = self.connections.remove(i);
        let mut conn = match slot {
            Slot::Initial(c) => {
                self.connections.insert(i, (id, Slot::Initial(c)));
                proof {
                    assert(self.connections@ =~= before);
                }
                return;
            },
            Slot::Established(c) => c,
        };
        let relay = match event {
            IceEvent::NominatedSend { source, .. } => self.allocations.relay_with_socket(source),
            _ => None,
        };
        let (packets, force) = conn.handle_ice_event(event, relay);
        let socket = conn.socket();
        let handshake = if force {
            let mut buf: Vec<u8> = vec![0u8; 148];
            wg::format_handshake_initiation(&mut conn.tunnel, &mut buf)
        } else {
            wg::WgOutput::Done
        };
        let ghost hs = handshake;
        let ghost st_before = old(self).conn_states()[i as int];
        proof {
            assert(old(self).ids()[i as int] == id);
            assert forall|k: int| 0 <= k < old(self).ids().len() && old(self).ids()[k] == cid implies k == i by {}
        }
        let ghost new_slot = Slot::Established(conn);
        self.connections.insert(i, (id, Slot::Established(conn)));
        proof {
            assert(self.connections@ =~= before.update(i as int, (id, new_slot)));
            assert(self.ids() =~= old(self).ids());
            assert(self.initial_flags() =~= old(self).initial_flags());
            assert(self.agent_locals() =~= old(self).agent_locals());
            assert forall|k: int| 0 <= k < old(self).ids().len() && old(self).ids()[k] != cid implies #[trigger] self.conn_states()[k] == old(self).conn_states()[k] by {
                assert(k != i);
            }
        }
        let ghost mid = self.conn_states();
        let ghost old_t = old(self).transmits().map_values(|t: Transmit| tview(t));
        let ghost all = crate::connection::buffered_view(packets@);
        match socket {
            Some(sock) => {
                let mut j: usize = 0;
                while j < packets.len()
                    invariant
                        self.wf(),
                        0 <= j <= packets@.len(),
                        all == crate::connection::buffered_view(packets@),
                        self.ids() == old(self).ids(),
                        self.initial_flags() == old(self).initial_flags(),
                        self.agent_locals() == old(self).agent_locals(),
                        self.events() == old(self).events(),
                        self.relays() == old(self).relays(),
                        self.conn_states() == mid,
                        self.transmits().map_values(|t: Transmit| tview(t)) == old_t + transmits_for(sock, all.subrange(0, j as int), old(self).relays()),
                    decreases packets@.len() - j,
                {
                    let p = packets[j].clone();
                    proof {
                        assert(p@ == all[j as int]);
                        assert(all.subrange(0, j + 1).drop_last() =~= all.subrange(0, j as int));
                    }
                    self.make_owned_transmit(sock, p);
                    j += 1;
                }
                proof {
                    assert(all.subrange(0, all.len() as int) =~= all);
                }
                let ghost t_mid = self.transmits().map_values(|t: Transmit| tview(t));
                match handshake {
                    wg::WgOutput::Network(b) => self.make_owned_transmit(sock, b),
                    _ => {
                        proof {
                            assert(t_mid + Seq::empty() =~= t_mid);
                        }
                    },
                }
                proof {
                    assert(self.transmits().map_values(|t: Transmit| tview(t))
                        == old_t + transmits_for(sock, all, old(self).relays()) + handshake_transmit(sock, hs, old(self).relays()));
                }
            },
            None => {
                proof {
                    assert(all.len() == 0);
                    assert(transmits_for(PeerSocket::Direct { source: SocketAddress { ip: IpAddress::V4(0), port: 0 }, dest: SocketAddress { ip: IpAddress::V4(0), port: 0 } }, all, old(self).relays()) =~= Seq::empty());
                }
            },
        }
        proof {
            match event {
                IceEvent::NominatedSend { source, destination } => {
                    let sp = nominated_socket(old(self).relays(), source, destination);
                    let nominated = state_after_nomination(st_before.unwrap(), sp);
                    let new_t = self.transmits().map_values(|t: Transmit| tview(t));
                    if socket is None {
                        assert(!force);
                        assert(transmits_for(sp, nominated.1, old(self).relays()) =~= Seq::empty());
                        assert(new_t =~= old_t + transmits_for(sp, nominated.1, old(self).relays()) + handshake_transmit(sp, hs, old(self).relays()));
                    } else {
                        if force {
                            assert(socket == Some(sp));
                        } else {
                            assert(all.len() == 0 || socket == Some(sp));
                            if all.len() == 0 {
                                assert(transmits_for(sp, nominated.1, old(self).relays()) =~= Seq::empty());
                                assert(transmits_for(socket->0, all, old(self).relays()) =~= Seq::empty());
                            }
                        }
                    }
                    assert(nomination_effect(st_before.unwrap(), self.conn_states()[i as int].unwrap(), sp, old(self).relays(), old_t, new_t, hs));
                    assert forall|k: int| 0 <= k < old(self).ids().len() && old(self).ids()[k] == cid && !old(self).initial_flags()[k] implies
                        exists|o: wg::WgOutput| #[trigger] nomination_effect(old(self).conn_states()[k].unwrap(), self.conn_states()[k].unwrap(),
                            nominated_socket(old(self).relays(), source, destination),
                            old(self).relays(), tviews(old(self).transmits()), tviews(self.transmits()), o) by {
                        assert(k == i);
                        assert(nomination_effect(old(self).conn_states()[k].unwrap(), self.conn_states()[k].unwrap(), sp,
                            old(self).relays(), tviews(old(self).transmits()), tviews(self.transmits()), hs));
                    }
                },
                _ => {
                    assert(all.len() == 0);
                    assert(!force);
                    if socket is Some {
                        assert(transmits_for(socket->0, all, old(self).relays()) =~= Seq::empty());
                        assert(handshake_transmit(socket->0, hs, old(self).relays()) =~= Seq::empty());
                    }
                    assert(self.transmits().map_values(|t: Transmit| tview(t)) =~= old_t);
                },
            }
        }
    }

    /// Drops failed and idle connections, reporting each.
    fn gc(&mut self)
        requires
            old(self).wf(),
        ensures
            final(self).wf(),
            final(self).events() == old(self).events() + old(self).gc_view(),
            final(self).ids() == old(self).gc_kept_ids(),
            forall|k: int| 0 <= k < final(self).ids().len() ==> slot_gc_event(final(self).ids()[k], #[trigger] final(self).connections@[k].1).is_none(),
            final(self).relays() == old(self).relays(),
            final(self).transmits() == old(self).transmits(),
            final(self).host_candidates() == old(self).host_candidates(),
            final(self).rate_reset() == old(self).rate_reset(),
    {
        let mut old_entries: Vec<(u64, Slot)> = Vec::new();
        std::mem::swap(&mut old_entries, &mut self.connections);
        let ghost all = old_entries@;
        let total: usize = old_entries.len();
        assert(all.len() == total);
        let mut rev: Vec<(u64, Slot)> = Vec::new();
        // Move the entries out back to front, so that they can be taken by
        // value, then walk them front to back.
        while old_entries.len() > 0
            invariant
                all.len() == old_entries@.len() + rev@.len(),
                old_entries@ == all.subrange(0, old_entries@.len() as int),
                forall|k: int| 0 <= k < rev@.len() ==> #[trigger] rev@[k] == all[all.len() - 1 - k],
            decreases old_entries@.len(),
        {
            let e = old_entries.pop().unwrap();
            rev.push(e);
        }
        let mut n: usize = 0;
        while rev.len() > 0
            invariant
                all.len() == n + rev@.len(),
                all.len() <= usize::MAX,
                forall|k: int| 0 <= k < rev@.len() ==> #[trigger] rev@[k] == all[all.len() - 1 - k],
                self.connections@ == gc_kept(all.subrange(0, n as int)),
                self.pending_events@ == old(self).events() + gc_events(all.subrange(0, n as int)),
                self.allocations == old(self).allocations,
                self.buffered_transmits == old(self).buffered_transmits,
                self.host_candidates == old(self).host_candidates,
                self.next_rate_limiter_reset == old(self).next_rate_limiter_reset,
            decreases rev@.len(),
        {
            let ghost before_events = self.pending_events@;
            let (id, slot) = rev.pop().unwrap();
            proof {
                assert(all[n as int] == (id, slot));
                assert(all.subrange(0, n + 1).drop_last() =~= all.subrange(0, n as int));
                assert(all.subrange(0, n + 1).last() == (id, slot));
                reveal(Seq::filter);
            }
            let dead = match &slot {
                Slot::Initial(c) => if c.is_failed { Some(Event::ConnectionFailed(id)) } else { None },
                Slot::Established(c) => {
                    if c.is_failed() {
                        Some(Event::ConnectionFailed(id))
                    } else if c.is_idle() {
                        Some(Event::ConnectionClosed(id))
                    } else {
                        None
                    }
                },
            };
            match dead {
                Some(ev) => {
                    self.pending_events.push_back(ev);
                    proof {
                        assert(self.pending_events@ =~= old(self).events() + gc_events(all.subrange(0, n + 1)));
                    }
                },
                None => {
                    self.connections.push((id, slot));
                    proof {
                        assert(self.pending_events@ =~= old(self).events() + gc_events(all.subrange(0, n + 1)));
                    }
                },
            }
            n += 1;
        }
        proof {
            assert(all.subrange(0, all.len() as int) =~= all);
            let kept = gc_kept(all);
            assert forall|k: int| 0 <= k < self.connections@.len() implies slot_gc_event(self.ids()[k], #[trigger] self.connections@[k].1).is_none() by {
                all.filter_lemma(|e: (u64, Slot)| slot_gc_event(e.0, e.1).is_none());
                assert(kept[k] == self.connections@[k]);
            }
            lemma_gc_ids_unique(all);
        }
    }

    /// Advances connection `i` to `now`: its timeouts and, at most once a
    /// second, the WireGuard timers.
    fn tick_connection(&mut self, i: usize, now: u64)
        requires
            old(self).wf(),
            i < old(self).ids().len(),
        ensures
            final(self).wf(),
            final(self).ids() == old(self).ids(),
            final(self).initial_flags() == old(self).initial_flags(),
            final(self).agent_locals() == old(self).agent_locals(),
            final(self).events() == old(self).events(),
            final(self).relays() == old(self).relays(),
            final(self).host_candidates() == old(self).host_candidates(),
            final(self).fail_deadlines() == old(self).fail_deadlines(),
            final(self).rate_reset() == old(self).rate_reset(),
            forall|k: int| 0 <= k < old(self).ids().len() && k != i ==> #[trigger] final(self).gc_flags()[k] == old(self).gc_flags()[k]
                && final(self).infos()[k] == old(self).infos()[k],
            old(self).gc_flags()[i as int].is_some() ==> final(self).gc_flags()[i as int].is_some(),
            match old(self).fail_deadlines()[i as int] {
                Some(t) => now >= t ==> final(self).gc_flags()[i as int] == Some(Event::ConnectionFailed(old(self).ids()[i as int])),
                None => true,
            },
            ({
                let info = old(self).infos()[i as int];
                let id = old(self).ids()[i as int];
                let failing = match info.fail_deadline {
                    Some(t) => now >= t,
                    None => false,
                };
                let t0 = old(self).transmits().map_values(|t: Transmit| tview(t));
                let t1 = final(self).transmits().map_values(|t: Transmit| tview(t));
                &&& info.state is None || failing ==> t1 == t0
                &&& info.state is Some && !failing && now >= info.idle_deadline.unwrap()
                    ==> final(self).gc_flags()[i as int] == Some(Event::ConnectionClosed(id)) && t1 == t0
                &&& info.state is Some && !failing && now < info.idle_deadline.unwrap() ==> {
                    if now >= info.timer_at.unwrap() && info.state.unwrap() is Connected {
                        exists|o: wg::WgOutput| #[trigger] timer_effect(
                            id,
                            info.state.unwrap()->Connected_peer_socket,
                            o,
                            old(self).relays(),
                            t0,
                            t1,
                            final(self).gc_flags()[i as int],
                        )
                    } else {
                        t1 == t0
                    }
                }
            }),
            exists|o: wg::WgOutput| #[trigger] tick_effect(old(self).infos()[i as int], now, old(self).ids()[i as int], old(self).relays(),
                tviews(old(self).transmits()), tviews(final(self).transmits()), final(self).gc_flags()[i as int], o),
            old(self).infos()[i as int].state == Some(StateView::Failed) && !idle_at(old(self).infos()[i as int], now)
                ==> final(self).gc_flags()[i as int] == Some(Event::ConnectionFailed(old(self).ids()[i as int])),
    {
        let ghost before = self.connections@;
        let (id, slot) = self.connections.remove(i);
        match slot {
            Slot::Initial(mut c) => {
                c.handle_timeout(now);
                self.connections.insert(i, (id, Slot::Initial(c)));
                proof {
                    assert(self.connections@ =~= before.update(i as int, (id, Slot::Initial(c))));
                    assert(tick_effect(old(self).infos()[i as int], now, old(self).ids()[i as int], old(self).relays(),
                        tviews(old(self).transmits()), tviews(self.transmits()), self.gc_flags()[i as int], wg::WgOutput::Done));
                    assert(self.ids() =~= old(self).ids());
                    assert(self.initial_flags() =~= old(self).initial_flags());
                    assert(self.agent_locals() =~= old(self).agent_locals());
                    assert(self.fail_deadlines() =~= old(self).fail_deadlines());
                    assert forall|k: int| 0 <= k < old(self).ids().len() && k != i implies #[trigger] self.gc_flags()[k] == old(self).gc_flags()[k]
                        && self.infos()[k] == old(self).infos()[k] by {
                        assert(self.connections@[k] == before[k]);
                    }
                }
            },
            Slot::Established(mut c) => {
                let ghost was = c.state_view();
                let ghost info0 = c.info();
                let failed = c.check_timeouts(now);
                let mut out = wg::WgOutput::Done;
                let mut sock: Option<PeerSocket> = None;
                if !failed && now >= c.next_timer_update {
                    c.next_timer_update = now.saturating_add(TIMER_INTERVAL_MS);
                    sock = c.socket();
                    if sock.is_some() {
                        let mut buf: Vec<u8> = vec![0u8; 148];
                        out = wg::update_timers(&mut c.tunnel, &mut buf);
                        match out {
                            wg::WgOutput::Expired => {
                                c.state = ConnectionState::Failed;
                            },
                            _ => {},
                        }
                    }
                }
                let ghost new_slot = Slot::Established(c);
                self.connections.insert(i, (id, Slot::Established(c)));
                proof {
                    assert(self.connections@ =~= before.update(i as int, (id, new_slot)));
                    assert(self.ids() =~= old(self).ids());
                    assert(self.initial_flags() =~= old(self).initial_flags());
                    assert(self.agent_locals() =~= old(self).agent_locals());
                    assert(self.fail_deadlines() =~= old(self).fail_deadlines());
                    assert forall|k: int| 0 <= k < old(self).ids().len() && k != i implies #[trigger] self.gc_flags()[k] == old(self).gc_flags()[k]
                        && self.infos()[k] == old(self).infos()[k] by {
                        assert(self.connections@[k] == before[k]);
                    }
                }
                let ghost o = out;
                let ghost t0 = self.transmits().map_values(|t: Transmit| tview(t));
                proof {
                    assert(old(self).infos()[i as int] == info0);
                    assert(self.transmits() == old(self).transmits());
                }
                match (sock, out) {
                    (Some(s), wg::WgOutput::Network(b)) => self.make_owned_transmit(s, b),
                    _ => {
                        proof {
                            assert(self.transmits().map_values(|t: Transmit| tview(t)) =~= t0 + Seq::empty());
                        }
                    },
                }
                proof {
                    if sock is Some {
                        assert(timer_effect(id, sock->0, o, old(self).relays(), t0,
                            self.transmits().map_values(|t: Transmit| tview(t)), self.gc_flags()[i as int]));
                    }
                    assert(old(self).ids()[i as int] == id);
                    if timers_run(info0, now) {
                        assert(sock == Some(info0.state.unwrap()->Connected_peer_socket));
                    }
                    assert(tick_effect(old(self).infos()[i as int], now, old(self).ids()[i as int], old(self).relays(),
                        tviews(old(self).transmits()), tviews(self.transmits()), self.gc_flags()[i as int], o));
                }
            },
        }
    }

    /// Advances time to `now`: connection timeouts and WireGuard timers, the
    /// handshake rate limiter (reset once a second), then garbage collection
    /// of failed and idle connections.
    pub fn handle_timeout(&mut self, now: u64)
        requires
            old(self).wf(),
        ensures
            final(self).wf(),
            final(self).events().len() >= old(self).events().len(),
            final(self).events().subrange(0, old(self).events().len() as int) == old(self).events(),
            forall|x: u64| #[trigger] final(self).ids().contains(x) ==> old(self).ids().contains(x),
            forall|k: int| 0 <= k < final(self).ids().len() ==> (#[trigger] final(self).gc_flags()[k]).is_none(),
            forall|k: int| 0 <= k < old(self).ids().len() ==> match #[trigger] old(self).fail_deadlines()[k] {
                Some(t) => now >= t ==> !final(self).ids().contains(old(self).ids()[k])
                    && final(self).events().contains(Event::ConnectionFailed(old(self).ids()[k])),
                None => true,
            },
            forall|k: int| 0 <= k < old(self).ids().len() ==> idle_at(#[trigger] old(self).infos()[k], now)
                ==> !final(self).ids().contains(old(self).ids()[k])
                && final(self).events().contains(Event::ConnectionClosed(old(self).ids()[k])),
            final(self).events().len() - old(self).events().len() == old(self).ids().len() - final(self).ids().len(),
            exists|outs: Seq<wg::WgOutput>| outs.len() == old(self).ids().len()
                && tviews(final(self).transmits()) == tviews(old(self).transmits())
                    + #[trigger] timers_transmits(old(self).infos(), old(self).relays(), now, outs, outs.len() as int)
                && forall|k: int| 0 <= k < old(self).ids().len() && timers_run(old(self).infos()[k], now) && (#[trigger] outs[k]) is Expired
                    ==> !final(self).ids().contains(old(self).ids()[k])
                    && final(self).events().contains(Event::ConnectionFailed(old(self).ids()[k])),
            forall|k: int| 0 <= k < old(self).ids().len() && (#[trigger] old(self).infos()[k]).state == Some(StateView::Failed)
                && !idle_at(old(self).infos()[k], now) ==> !final(self).ids().contains(old(self).ids()[k])
                && final(self).events().contains(Event::ConnectionFailed(old(self).ids()[k])),
            final(self).relays() == old(self).relays(),
            final(self).host_candidates() == old(self).host_candidates(),
            final(self).rate_reset() == match old(self).rate_reset() {
                Some(t) => if now < t { Some(t) } else { Some(sat_add(now, RATE_LIMITER_RESET_MS)) },
                None => Some(sat_add(now, RATE_LIMITER_RESET_MS)),
            },
    {
        let mut i: usize = 0;
        let ghost mut outs: Seq<wg::WgOutput> = Seq::empty();
        while i < self.connections.len()
            invariant
                self.wf(),
                outs.len() == i,
                forall|k: int| 0 <= k < i && (#[trigger] old(self).infos()[k]).state == Some(StateView::Failed)
                    && !idle_at(old(self).infos()[k], now) ==> self.gc_flags()[k] == Some(Event::ConnectionFailed(old(self).ids()[k])),
                tviews(self.transmits()) == tviews(old(self).transmits()) + timers_transmits(old(self).infos(), old(self).relays(), now, outs, i as int),
                forall|k: int| 0 <= k < i && timers_run(old(self).infos()[k], now) && (#[trigger] outs[k]) is Expired
                    ==> self.gc_flags()[k] == Some(Event::ConnectionFailed(old(self).ids()[k])),
                0 <= i <= self.connections@.len(),
                self.ids() == old(self).ids(),
                self.events() == old(self).events(),
                self.relays() == old(self).relays(),
                self.host_candidates() == old(self).host_candidates(),
                self.fail_deadlines() == old(self).fail_deadlines(),
                forall|k: int| 0 <= k < i ==> match #[trigger] old(self).fail_deadlines()[k] {
                    Some(t) => now >= t ==> self.gc_flags()[k] == Some(Event::ConnectionFailed(old(self).ids()[k])),
                    None => true,
                },
                forall|k: int| 0 <= k < i ==> idle_at(#[trigger] old(self).infos()[k], now)
                    ==> self.gc_flags()[k] == Some(Event::ConnectionClosed(old(self).ids()[k])),
                forall|k: int| i <= k < old(self).ids().len() ==> #[trigger] self.infos()[k] == old(self).infos()[k],
                self.rate_reset() == old(self).rate_reset(),
            decreases self.connections@.len() - i,
        {
            let ghost flags = self.gc_flags();
            let ghost infos = self.infos();
            let ghost t_before = tviews(self.transmits());
            self.tick_connection(i, now);
            proof {
                let o = choose|o: wg::WgOutput| #[trigger] tick_effect(infos[i as int], now, old(self).ids()[i as int], old(self).relays(),
                    t_before, tviews(self.transmits()), self.gc_flags()[i as int], o);
                assert(infos[i as int] == old(self).infos()[i as int]);
                let outs2 = outs.push(o);
                assert(outs2.drop_last() =~= outs);
                assert(timers_transmits(old(self).infos(), old(self).relays(), now, outs2, i as int)
                    == timers_transmits(old(self).infos(), old(self).relays(), now, outs, i as int)) by {
                    lemma_timers_transmits_prefix(old(self).infos(), old(self).relays(), now, outs, outs2, i as int);
                }
                assert(tviews(self.transmits()) =~= tviews(old(self).transmits())
                    + timers_transmits(old(self).infos(), old(self).relays(), now, outs2, i + 1));
                assert forall|k: int| 0 <= k < i + 1 && timers_run(old(self).infos()[k], now) && (#[trigger] outs2[k]) is Expired
                    implies self.gc_flags()[k] == Some(Event::ConnectionFailed(old(self).ids()[k])) by {
                    if k < i {
                        assert(outs2[k] == outs[k]);
                        assert(self.gc_flags()[k] == flags[k]);
                    }
                }
                assert forall|k: int| 0 <= k < i + 1 && (#[trigger] old(self).infos()[k]).state == Some(StateView::Failed)
                    && !idle_at(old(self).infos()[k], now) implies self.gc_flags()[k] == Some(Event::ConnectionFailed(old(self).ids()[k])) by {
                    if k < i {
                        assert(self.gc_flags()[k] == flags[k]);
                    }
                }
                outs = outs2;
                assert forall|k: int| 0 <= k < i + 1 implies idle_at(#[trigger] old(self).infos()[k], now)
                    ==> self.gc_flags()[k] == Some(Event::ConnectionClosed(old(self).ids()[k])) by {
                    if k < i {
                        assert(self.gc_flags()[k] == flags[k]);
                    } else {
                        assert(infos[k] == old(self).infos()[k]);
                    }
                }
                assert forall|k: int| i + 1 <= k < old(self).ids().len() implies #[trigger] self.infos()[k] == old(self).infos()[k] by {
                    assert(self.infos()[k] == infos[k]);
                }
                assert forall|k: int| 0 <= k < i + 1 implies match #[trigger] old(self).fail_deadlines()[k] {
                    Some(t) => now >= t ==> self.gc_flags()[k] == Some(Event::ConnectionFailed(old(self).ids()[k])),
                    None => true,
                } by {
                    if k < i {
                        assert(self.gc_flags()[k] == flags[k]);
                    }
                }
            }
            i += 1;
        }
        let next_reset = match self.next_rate_limiter_reset {
            Some(t) => t,
            None => now,
        };
        if now >= next_reset {
            wg::reset_rate_limiter(&self.rate_limiter);
            self.next_rate_limiter_reset = Some(now.saturating_add(RATE_LIMITER_RESET_MS));
        } else {
            self.next_rate_limiter_reset = Some(next_reset);
        }
        let ghost pre = self.connections@;
        proof {
            assert(pre.map_values(|e: (u64, Slot)| slot_gc_event(e.0, e.1)) == self.gc_flags());
            assert(entry_ids(pre) == self.ids());
        }
        self.gc();
        proof {
            lemma_gc_ids_unique(pre);
            assert(self.events().subrange(0, old(self).events().len() as int) =~= old(self).events());
            assert forall|x: u64| #[trigger] self.ids().contains(x) implies old(self).ids().contains(x) by {
                assert(entry_ids(gc_kept(pre)).contains(x));
            }
            assert forall|k: int| 0 <= k < self.ids().len() implies (#[trigger] self.gc_flags()[k]).is_none() by {
                assert(slot_gc_event(self.ids()[k], self.connections@[k].1).is_none());
            }
            assert forall|k: int| 0 <= k < old(self).ids().len() implies match #[trigger] old(self).fail_deadlines()[k] {
                Some(t) => now >= t ==> !self.ids().contains(old(self).ids()[k])
                    && self.events().contains(Event::ConnectionFailed(old(self).ids()[k])),
                None => true,
            } by {
                match old(self).fail_deadlines()[k] {
                    Some(t) => {
                        if now >= t {
                            assert(pre[k].0 == old(self).ids()[k]);
                            assert(slot_gc_event(pre[k].0, pre[k].1) == Some(Event::ConnectionFailed(old(self).ids()[k])));
                            lemma_gc_drops(pre, k);
                            let g = gc_events(pre);
                            let j = choose|j: int| 0 <= j < g.len() && g[j] == Event::ConnectionFailed(old(self).ids()[k]);
                            assert(self.events()[old(self).events().len() + j] == g[j]);
                        }
                    },
                    None => {},
                }
            }
            assert forall|k: int| 0 <= k < old(self).ids().len() implies idle_at(#[trigger] old(self).infos()[k], now)
                ==> !self.ids().contains(old(self).ids()[k])
                && self.events().contains(Event::ConnectionClosed(old(self).ids()[k])) by {
                if idle_at(old(self).infos()[k], now) {
                    assert(pre[k].0 == old(self).ids()[k]);
                    assert(slot_gc_event(pre[k].0, pre[k].1) == Some(Event::ConnectionClosed(old(self).ids()[k])));
                    lemma_gc_drops(pre, k);
                    let g = gc_events(pre);
                    let j = choose|j: int| 0 <= j < g.len() && g[j] == Event::ConnectionClosed(old(self).ids()[k]);
                    assert(self.events()[old(self).events().len() + j] == g[j]);
                }
            }
            lemma_gc_count(pre);
            assert forall|k: int| 0 <= k < old(self).ids().len() && timers_run(old(self).infos()[k], now) && (#[trigger] outs[k]) is Expired
                implies !self.ids().contains(old(self).ids()[k])
                && self.events().contains(Event::ConnectionFailed(old(self).ids()[k])) by {
                assert(pre[k].0 == old(self).ids()[k]);
                assert(slot_gc_event(pre[k].0, pre[k].1) == Some(Event::ConnectionFailed(old(self).ids()[k])));
                lemma_gc_drops(pre, k);
                let g = gc_events(pre);
                let j = choose|j: int| 0 <= j < g.len() && g[j] == Event::ConnectionFailed(old(self).ids()[k]);
                assert(self.events()[old(self).events().len() + j] == g[j]);
            }
            assert(tviews(self.transmits()) == tviews(old(self).transmits())
                + timers_transmits(old(self).infos(), old(self).relays(), now, outs, outs.len() as int));
            assert forall|k: int| 0 <= k < old(self).ids().len() && (#[trigger] old(self).infos()[k]).state == Some(StateView::Failed)
                && !idle_at(old(self).infos()[k], now) implies !self.ids().contains(old(self).ids()[k])
                && self.events().contains(Event::ConnectionFailed(old(self).ids()[k])) by {
                assert(pre[k].0 == old(self).ids()[k]);
                assert(slot_gc_event(pre[k].0, pre[k].1) == Some(Event::ConnectionFailed(old(self).ids()[k])));
                lemma_gc_drops(pre, k);
                let g = gc_events(pre);
                let j = choose|j: int| 0 <= j < g.len() && g[j] == Event::ConnectionFailed(old(self).ids()[k]);
                assert(self.events()[old(self).events().len() + j] == g[j]);
            }
        }
    }

    /// When `handle_timeout` is next due: the earliest deadline of any
    /// connection and of the rate limiter reset.
    pub fn poll_timeout(&self) -> (r: Option<u64>)
        ensures
            r == earliest_all(self.deadlines(), self.rate_reset()),
    {
        let mut r = self.next_rate_limiter_reset;
        let mut i: usize = 0;
        while i < self.connections.len()
            invariant
                0 <= i <= self.connections@.len(),
                r == earliest_all(self.deadlines().subrange(0, i as int), self.rate_reset()),
            decreases self.connections@.len() - i,
        {
            let t = match &self.connections[i].1 {
                Slot::Initial(c) => c.poll_timeout(),
                Slot::Established(c) => c.poll_timeout(),
            };
            proof {
                assert(self.deadlines()[i as int] == t);
                assert(self.deadlines().subrange(0, i + 1).drop_last() =~= self.deadlines().subrange(0, i as int));
            }
            r = earliest_of(r, Some(t));
            i += 1;
        }
        proof {
            assert(self.deadlines().subrange(0, self.deadlines().len() as int) =~= self.deadlines());
        }
        r
    }

    /// Encrypts the IP packet `packet` for connection `cid` into a datagram
    /// to its peer.
    ///
    /// `NotConnected` where `cid` is no established connection or ICE has
    /// not nominated a socket yet; `Ok(None)` where WireGuard only queued
    /// the packet, or the relay path cannot carry it.
    pub fn encapsulate(&mut self, cid: u64, packet: &[u8], now: u64) -> (r: Result<Option<Transmit>, Error>)
        requires
            old(self).wf(),
        ensures
            final(self).wf(),
            final(self).ids() == old(self).ids(),
            final(self).events() == old(self).events(),
            final(self).relays() == old(self).relays(),
            final(self).conn_states() == old(self).conn_states(),
            final(self).transmits() == old(self).transmits(),
            (r == Err::<Option<Transmit>, Error>(Error::NotConnected)) <==> !is_connected(old(self).ids(), old(self).conn_states(), cid),
            forall|k: int| 0 <= k < old(self).ids().len() && old(self).ids()[k] == cid && (#[trigger] old(self).conn_states()[k]) is Some
                && old(self).conn_states()[k].unwrap() is Connected ==> {
                let socket = old(self).conn_states()[k].unwrap()->Connected_peer_socket;
                &&& packet@.len() > wg::MAX_PACKET ==> r == Err::<Option<Transmit>, Error>(Error::Encapsulate)
                &&& packet@.len() <= wg::MAX_PACKET ==> exists|o: wg::WgOutput| !(o is TunnelV4) && !(o is TunnelV6)
                    && #[trigger] encap_result(socket, o, old(self).relays()) == result_view(r)
            },
    {
        let i = match self.find(cid) {
            Some(i) => i,
            None => {
                return Err(Error::NotConnected);
            },
        };
        let socket = match &self.connections[i].1 {
            Slot::Established(c) => match c.socket() {
                Some(s) => s,
                None => {
                    proof {
                        assert forall|k: int| 0 <= k < old(self).ids().len() && old(self).ids()[k] == cid implies
                            !(old(self).conn_states()[k] is Some && old(self).conn_states()[k].unwrap() is Connected) by {
                            assert(k == i);
                        }
                    }
                    return Err(Error::NotConnected);
                },
            },
            Slot::Initial(_) => {
                proof {
                    assert forall|k: int| 0 <= k < old(self).ids().len() && old(self).ids()[k] == cid implies
                        !(old(self).conn_states()[k] is Some) by {
                        assert(k == i);
                    }
                }
                return Err(Error::NotConnected);
            },
        };
        proof {
            assert(old(self).ids()[i as int] == cid);
            assert(old(self).conn_states()[i as int] is Some && old(self).conn_states()[i as int].unwrap() is Connected);
            assert(old(self).conn_states()[i as int].unwrap()->Connected_peer_socket == socket);
            assert forall|k: int| 0 <= k < old(self).ids().len() && old(self).ids()[k] == cid implies k == i by {}
        }
        if packet.len() > wg::MAX_PACKET {
            return Err(Error::Encapsulate);
        }
        let size: usize = if packet.len() + wg::DATA_OVERHEAD > wg::MAX_HANDSHAKE_SIZE {
            packet.len() + wg::DATA_OVERHEAD
        } else {
            wg::MAX_HANDSHAKE_SIZE
        };
        let ghost before = self.connections@;
        let (id, slot) = self.connections.remove(i);
        let mut conn = match slot {
            Slot::Established(c) => c,
            Slot::Initial(c) => {
                self.connections.insert(i, (id, Slot::Initial(c)));
                proof {
                    assert(self.connections@ =~= before);
                }
                return Err(Error::NotConnected);
            },
        };
        let mut buf: Vec<u8> = vec![0u8; size];
        let out = wg::encapsulate(&mut conn.tunnel, packet, &mut buf);
        let sent = match out {
            wg::WgOutput::Network(_) => true,
            _ => false,
        };
        if sent {
            conn.last_outgoing = now;
        }
        let ghost new_slot = Slot::Established(conn);
        self.connections.insert(i, (id, Slot::Established(conn)));
        proof {
            assert(self.connections@ =~= before.update(i as int, (id, new_slot)));
            assert(self.ids() =~= old(self).ids());
            assert(self.conn_states() =~= old(self).conn_states());
        }
        let ghost o = out;
        let r = self.encapsulated(socket, out);
        proof {
            assert(encap_result(socket, o, old(self).relays()) == result_view(r));
        }
        r
    }

    /// What encrypting gave, `out`, for the peer at `socket`: a datagram
    /// when WireGuard has bytes to send and the path can carry them, nothing
    /// when it only queued the packet, an error when it failed.
    fn encapsulated(&self, socket: PeerSocket, out: wg::WgOutput) -> (r: Result<Option<Transmit>, Error>)
        requires
            self.wf(),
        ensures
            result_view(r) == encap_result(socket, out, self.relays()),
    {
        match out {
            wg::WgOutput::Network(bytes) => Ok(self.transmit_to(socket, bytes)),
            wg::WgOutput::Expired | wg::WgOutput::Failed => Err(Error::Encapsulate),
            _ => Ok(None),
        }
    }

    /// The datagram that carries `message` to the peer through `socket`.
    fn transmit_to(&self, socket: PeerSocket, message: Vec<u8>) -> (r: Option<Transmit>)
        requires
            self.wf(),
        ensures
            opt_tview(r) == transmit_for(socket, message@, self.relays()),
    {
        match socket {
            PeerSocket::Direct { source, dest } => Some(Transmit { src: Some(source), dst: dest, payload: message }),
            PeerSocket::Relay { relay, dest } => {
                if message.len() > 65535 {
                    None
                } else {
                    match self.allocations.position(relay) {
                        Some(j) => {
                            let (_, a) = self.allocations.get(j);
                            proof {
                                crate::allocation::lemma_index_of_pub(self.relays(), relay);
                            }
                            a.encode_to_owned_transmit(dest, message.as_slice())
                        },
                        None => None,
                    }
                }
            },
        }
    }

    /// Hands ciphertext from `from` to the first established connection that
    /// takes traffic from there.
    fn connections_try_handle(&mut self, from: SocketAddress, packet: &[u8], now: u64) -> (r: Result<Inbound, Error>)
        requires
            old(self).wf(),
        ensures
            final(self).wf(),
            final(self).ids() == old(self).ids(),
            final(self).relays() == old(self).relays(),
            final(self).initial_flags() == old(self).initial_flags(),
            final(self).host_candidates() == old(self).host_candidates(),
            match first_accepting(old(self).conn_states(), from) {
                None => {
                    &&& r == Err::<Inbound, Error>(Error::UnhandledPacket { num_tunnels: established_count(old(self).conn_states()) as usize })
                    &&& final(self).conn_states() == old(self).conn_states()
                    &&& final(self).host_candidates() == old(self).host_candidates()
                    &&& final(self).events() == old(self).events()
                    &&& final(self).transmits() == old(self).transmits()
                },
                Some(k) => decap_step(*old(self), *final(self), k, packet@, r, old(self).events()),
            },
    {
        let mut i: usize = 0;
        let mut num_tunnels: usize = 0;
        while i < self.connections.len()
            invariant
                0 <= i <= self.connections@.len(),
                num_tunnels == established_count(self.conn_states().subrange(0, i as int)),
                self.wf(),
                self.ids() == old(self).ids(),
                self.relays() == old(self).relays(),
                self.events() == old(self).events(),
                self.conn_states() == old(self).conn_states(),
                self.transmits() == old(self).transmits(),
                self.initial_flags() == old(self).initial_flags(),
                *self == *old(self),
                first_accepting(self.conn_states().subrange(0, i as int), from) is None,
            decreases self.connections@.len() - i,
        {
            proof {
                let sub = self.conn_states().subrange(0, i + 1);
                assert(sub.drop_last() =~= self.conn_states().subrange(0, i as int));
                assert(sub.last() == self.conn_states()[i as int]);
                lemma_established_count_le(self.conn_states().subrange(0, i as int));
            }
            let accepts = match &self.connections[i].1 {
                Slot::Established(c) => {
                    num_tunnels += 1;
                    c.accepts(from)
                },
                Slot::Initial(_) => false,
            };
            if accepts {
                proof {
                    lemma_first_accepting_prefix(self.conn_states(), from, i as int);
                }
                return self.decapsulate_on(i, packet, now);
            }
            i += 1;
        }
        proof {
            assert(self.conn_states().subrange(0, i as int) =~= self.conn_states());
        }
        Err(Error::UnhandledPacket { num_tunnels })
    }

    /// Decrypts `packet` on the established connection at position `i`.
    ///
    /// A decrypted packet comes back as it came out of WireGuard. Bytes that
    /// WireGuard wants sent (and whatever it had queued) wait in the buffer
    /// while the connection is connecting, and go to the peer once it is
    /// connected. The first completed handshake is reported once.
    fn decapsulate_on(&mut self, i: usize, packet: &[u8], now: u64) -> (r: Result<Inbound, Error>)
        requires
            old(self).wf(),
            i < old(self).ids().len(),
            old(self).conn_states()[i as int] is Some,
        ensures
            decap_step(*old(self), *final(self), i as int, packet@, r, old(self).events()),
            final(self).host_candidates() == old(self).host_candidates(),
    {
        let ghost before = self.connections@;
        let ghost t0 = self.transmits().map_values(|t: Transmit| tview(t));
        let (id, slot) = self.connections.remove(i);
        let mut conn = match slot {
            Slot::Established(c) => c,
            Slot::Initial(c) => {
                proof {
                    assert(before[i as int].1 == Slot::Initial(c));
                    assert(old(self).conn_states()[i as int] == slot_state(before[i as int].1));
                }
                self.connections.insert(i, (id, Slot::Initial(c)));
                return Ok(Inbound::Handled);
            },
        };
        let ghost st0 = conn.state@;
        let ghost latch0 = conn.handshake_done;
        proof {
            assert(old(self).conn_states()[i as int] == Some(st0));
            assert(old(self).ids()[i as int] == id);
            assert(old(self).infos()[i as int].latch == latch0);
        }
        let mut drained: Vec<Vec<u8>> = Vec::new();
        let result: Result<Inbound, Error>;
        let ghost mut o: wg::WgOutput = wg::WgOutput::Failed;
        if packet.len() > wg::MAX_PACKET {
            result = Err(Error::Decapsulate);
            proof {
                assert(decap_result(id, wg::WgOutput::Failed) == result);
            }
        } else {
            let mut buf: Vec<u8> = vec![0u8; wg::DECAPSULATE_BUFFER];
            let out = wg::decapsulate(&mut conn.tunnel, packet, &mut buf);
            proof {
                o = out;
            }
            let (res, first) = decapsulated(id, out);
            result = res;
            match &result {
                Ok(Inbound::Packet { .. }) => {
                    conn.last_incoming = now;
                },
                _ => {},
            }
            match first {
                Some(first) => {
                    drained.push(first);
                    let mut more = true;
                    let mut n: usize = 0;
                    while more && n < MAX_WG_QUEUE
                        invariant
                            buf@.len() == wg::DECAPSULATE_BUFFER,
                            n <= MAX_WG_QUEUE,
                            drained@.len() >= 1,
                            o is Network,
                            drained@[0]@ == o->Network_0@,
                            conn.state@ == st0,
                            conn.handshake_done == latch0,
                        decreases MAX_WG_QUEUE - n,
                    {
                        match wg::decapsulate(&mut conn.tunnel, &[], &mut buf) {
                            wg::WgOutput::Network(b) => drained.push(b),
                            _ => {
                                more = false;
                            },
                        }
                        n += 1;
                    }
                },
                None => {},
            }
            proof {
                assert(result == decap_result(id, o));
            }
        }
        let ghost pkts = crate::connection::buffered_view(drained@);
        let established_now = !conn.handshake_done && wg::handshake_complete(&conn.tunnel);
        if established_now {
            conn.handshake_done = true;
        }
        let connecting = conn.state.is_connecting();
        let socket = conn.state.socket();
        if connecting {
            let ghost mut j: int = 0;
            while drained.len() > 0
                invariant
                    0 <= j <= pkts.len(),
                    crate::connection::buffered_view(drained@) == pkts.subrange(j, pkts.len() as int),
                    st0 is Connecting,
                    conn.state@ == (StateView::Connecting {
                        possible_sockets: st0->Connecting_possible_sockets,
                        buffered: ring_push_all(st0->Connecting_buffered, pkts.subrange(0, j)),
                    }),
                    conn.handshake_done == (latch0 || established_now),
                decreases drained@.len(),
            {
                let ghost rest = drained@;
                let p = drained.remove(0);
                proof {
                    assert(p@ == crate::connection::buffered_view(rest)[0]);
                    assert(crate::connection::buffered_view(rest).len() == rest.len());
                    assert(j < pkts.len());
                    assert(pkts.subrange(j, pkts.len() as int)[0] == pkts[j]);
                    assert(pkts.subrange(0, j + 1).drop_last() =~= pkts.subrange(0, j));
                    assert(pkts.subrange(0, j + 1).last() == p@);
                    assert(drained@ =~= rest.subrange(1, rest.len() as int));
                    assert forall|x: int| 0 <= x < drained@.len() implies #[trigger] crate::connection::buffered_view(drained@)[x] == pkts[j + 1 + x] by {
                        assert(drained@[x] == rest[x + 1]);
                        assert(crate::connection::buffered_view(rest)[x + 1] == pkts.subrange(j, pkts.len() as int)[x + 1]);
                    }
                    assert(crate::connection::buffered_view(drained@) =~= pkts.subrange(j + 1, pkts.len() as int));
                }
                conn.state.buffer_packet(p);
                proof {
                    j = j + 1;
                }
            }
            proof {
                assert(j == pkts.len());
                assert(pkts.subrange(0, pkts.len() as int) =~= pkts);
            }
        }
        let ghost st1 = conn.state@;
        let ghost latch1 = conn.handshake_done;
        let ghost new_slot = Slot::Established(conn);
        self.connections.insert(i, (id, Slot::Established(conn)));
        proof {
            assert(self.connections@ =~= before.update(i as int, (id, new_slot)));
            assert(self.ids() =~= old(self).ids());
            assert(self.initial_flags() =~= old(self).initial_flags());
            assert(self.conn_states()[i as int] == Some(st1));
            assert(self.infos()[i as int].latch == latch1);
            assert(self.conn_states() =~= old(self).conn_states().update(i as int, Some(st1)));
            assert forall|k: int| 0 <= k < self.ids().len() && k != i implies #[trigger] self.infos()[k] == old(self).infos()[k]
                && self.conn_states()[k] == old(self).conn_states()[k] by {
                assert(self.connections@[k] == before[k]);
            }
            assert(self.transmits() == old(self).transmits());
            assert(self.events() == old(self).events());
        }
        let ghost ev0 = self.pending_events@;
        if established_now {
            self.pending_events.push_back(Event::ConnectionEstablished(id));
        }
        proof {
            assert(self.infos()[i as int].latch == latch1);
            assert(self.events() == ev0 + (if established_now { seq![Event::ConnectionEstablished(id)] } else { Seq::<Event>::empty() })) by {
                if !established_now {
                    assert(ev0 + Seq::<Event>::empty() =~= ev0);
                }
            }
        }
        match socket {
            Some(sock) => {
                let ghost mut j: int = 0;
                proof {
                    assert(pkts.subrange(0, 0) =~= Seq::<Seq<u8>>::empty());
                    assert(pkts.subrange(0, pkts.len() as int) =~= pkts);
                }
                while drained.len() > 0
                    invariant
                        self.wf(),
                        0 <= j <= pkts.len(),
                        crate::connection::buffered_view(drained@) == pkts.subrange(j, pkts.len() as int),
                        self.ids() == old(self).ids(),
                        self.initial_flags() == old(self).initial_flags(),
                        self.relays() == old(self).relays(),
                        self.conn_states() == old(self).conn_states().update(i as int, Some(st1)),
                        self.infos()[i as int].latch == latch1,
                        self.host_candidates() == old(self).host_candidates(),
                        forall|k: int| 0 <= k < self.ids().len() && k != i ==> #[trigger] self.infos()[k] == old(self).infos()[k],
                        self.events() == ev0 + (if established_now { seq![Event::ConnectionEstablished(id)] } else { Seq::empty() }),
                        self.transmits().map_values(|t: Transmit| tview(t)) == t0 + transmits_for(sock, pkts.subrange(0, j), old(self).relays()),
                    decreases drained@.len(),
                {
                    let ghost rest = drained@;
                    let p = drained.remove(0);
                    proof {
                        assert(p@ == crate::connection::buffered_view(rest)[0]);
                        assert(crate::connection::buffered_view(rest).len() == rest.len());
                        assert(j < pkts.len());
                        assert(pkts.subrange(j, pkts.len() as int)[0] == pkts[j]);
                        assert(pkts.subrange(0, j + 1).drop_last() =~= pkts.subrange(0, j));
                        assert(pkts.subrange(0, j + 1).last() == p@);
                        assert(drained@ =~= rest.subrange(1, rest.len() as int));
                    assert forall|x: int| 0 <= x < drained@.len() implies #[trigger] crate::connection::buffered_view(drained@)[x] == pkts[j + 1 + x] by {
                        assert(drained@[x] == rest[x + 1]);
                        assert(crate::connection::buffered_view(rest)[x + 1] == pkts.subrange(j, pkts.len() as int)[x + 1]);
                    }
                    assert(crate::connection::buffered_view(drained@) =~= pkts.subrange(j + 1, pkts.len() as int));
                    }
                    self.make_owned_transmit(sock, p);
                    proof {
                        j = j + 1;
                    }
                }
                proof {
                    assert(j == pkts.len());
                    assert(pkts.subrange(0, pkts.len() as int) =~= pkts);
                }
            },
            None => {},
        }
        proof {
            assert(self.infos()[i as int].latch == latch1);
            assert(latch1 == (latch0 || established_now));
            if established_now {
                assert(!latch0);
                assert(self.events() =~= old(self).events() + seq![Event::ConnectionEstablished(id)]);
            } else {
                assert(self.events() =~= old(self).events() + Seq::<Event>::empty());
            }
            if packet@.len() > wg::MAX_PACKET {
                assert(drained@.len() == 0);
                assert(pkts =~= Seq::<Seq<u8>>::empty());
                if st0 is Connecting {
                    assert(ring_push_all(st0->Connecting_buffered, pkts) == st0->Connecting_buffered);
                }
                assert(transmits_for(socket->0, pkts, old(self).relays()) =~= Seq::empty());
            }
            assert(decap_effect(id, st0, self.conn_states()[i as int].unwrap(), t0,
                self.transmits().map_values(|t: Transmit| tview(t)), old(self).relays(), o, pkts, result));
        }
        result
    }

    /// Handles a datagram that arrived on our socket `local` from `from`.
    ///
    /// `local` becomes a host candidate. A STUN message from a relay's
    /// server goes to that relay; channel-data from it is unwrapped and
    /// goes on as traffic from the peer. Anything else that parses as STUN
    /// goes to the ICE agents, and the rest is WireGuard, for the first
    /// connection that takes traffic from its source.
    pub fn decapsulate(&mut self, local: SocketAddress, from: SocketAddress, packet: &[u8], now: u64) -> (r: Result<Inbound, Error>)
        requires
            old(self).wf(),
        ensures
            final(self).wf(),
            final(self).ids() == old(self).ids(),
            final(self).relays() == old(self).relays(),
            !valid_host_addr(local) ==> r == Err::<Inbound, Error>(Error::BadLocalAddress)
                && final(self).events() == old(self).events()
                && final(self).host_candidates() == old(self).host_candidates()
                && final(self).conn_states() == old(self).conn_states()
                && final(self).transmits() == old(self).transmits(),
            valid_host_addr(local) ==> ({
                let c = Candidate { kind: CandidateKind::Host, addr: local };
                let promoted = old(self).events() + promotion_events(*old(self), local);
                &&& final(self).host_candidates() == if old(self).host_candidates().contains(c) {
                    old(self).host_candidates()
                } else {
                    old(self).host_candidates().push(c)
                }
                &&& final(self).events().len() >= promoted.len()
                &&& final(self).events().subrange(0, promoted.len() as int) == promoted
                &&& class_of(packet@) == PacketClass::Stun && relay_at_server(old(self).relays(), from).is_some()
                    ==> r == Ok::<Inbound, Error>(Inbound::Relay { relay: relay_at_server(old(self).relays(), from).unwrap() })
                    && final(self).events() == promoted
                &&& class_of(packet@) == PacketClass::ChannelData ==> forall|j: int| 0 <= j < old(self).relays().len()
                    && (#[trigger] old(self).relays()[j]).1.server == from
                    && (forall|x: int| 0 <= x < j ==> (#[trigger] old(self).relays()[x]).1.server != from) ==> {
                    match unwrapped(old(self).relays()[j].1, from, packet@) {
                        None => {
                            &&& r == Ok::<Inbound, Error>(Inbound::Handled)
                            &&& final(self).events() == promoted
                            &&& final(self).conn_states() == old(self).conn_states()
                            &&& final(self).transmits() == old(self).transmits()
                        },
                        Some((peer, data, relayed)) => if is_stun(data) {
                            &&& (r matches Ok(Inbound::Stun { source, destination, message })
                                && source == peer && destination == relayed && message@ == data)
                            &&& final(self).events() == promoted
                        } else {
                            match first_accepting(old(self).conn_states(), peer) {
                                None => {
                                    &&& r == Err::<Inbound, Error>(Error::UnhandledPacket { num_tunnels: established_count(old(self).conn_states()) as usize })
                                    &&& final(self).conn_states() == old(self).conn_states()
                                    &&& final(self).events() == promoted
                                },
                                Some(k) => decap_step(*old(self), *final(self), k, data, r, promoted),
                            }
                        },
                    }
                }
                &&& (class_of(packet@) == PacketClass::Other || relay_at_server(old(self).relays(), from).is_none()) ==> {
                    &&& !(r matches Ok(Inbound::Relay { .. }))
                    &&& is_stun(packet@) ==> (r matches Ok(Inbound::Stun { source, destination, message })
                        && source == from && destination == local && message@ == packet@)
                        && final(self).events() == promoted
                    &&& !is_stun(packet@) ==> match first_accepting(old(self).conn_states(), from) {
                        None => {
                            &&& r == Err::<Inbound, Error>(Error::UnhandledPacket { num_tunnels: established_count(old(self).conn_states()) as usize })
                            &&& final(self).conn_states() == old(self).conn_states()
                            &&& final(self).events() == promoted
                        },
                        Some(k) => decap_step(*old(self), *final(self), k, packet@, r, promoted),
                    }
                }
            }),
    {
        let ghost ev0 = self.events();
        match self.add_local_host_candidate(local) {
            Ok(()) => {},
            Err(e) => {
                return Err(e);
            },
        }
        let ghost ev1 = self.events();
        proof {
            assert(ev1.subrange(0, ev0.len() as int) =~= ev0);
        }
        let class = classify(packet);
        let relay_pos = match class {
            PacketClass::Other => None,
            _ => self.allocations.position_of_server(from),
        };
        proof {
            lemma_relay_at_server(self.relays(), from);
        }
        let r = match (class, relay_pos) {
            (PacketClass::Stun, Some(j)) => {
                let (rid, _) = self.allocations.get(j);
                Ok(Inbound::Relay { relay: rid })
            },
            (PacketClass::ChannelData, Some(j)) => {
                proof {
                    assert forall|jj: int| 0 <= jj < old(self).relays().len()
                        && (#[trigger] old(self).relays()[jj]).1.server == from
                        && (forall|x: int| 0 <= x < jj ==> (#[trigger] old(self).relays()[x]).1.server != from) implies jj == j by {
                        if jj < j {
                            assert(old(self).relays()[jj].1.server != from);
                        }
                        if jj > j {
                            assert(old(self).relays()[j as int].1.server != from);
                        }
                    }
                }
                let (_, a) = self.allocations.get(j);
                match a.decapsulate(from, packet) {
                    Some((peer, data, relayed)) => {
                        if is_stun_message(data.as_slice()) {
                            Ok(Inbound::Stun { source: peer, destination: relayed, message: data })
                        } else {
                            self.connections_try_handle(peer, data.as_slice(), now)
                        }
                    },
                    None => Ok(Inbound::Handled),
                }
            },
            _ => {
                if is_stun_message(packet) {
                    Ok(Inbound::Stun { source: from, destination: local, message: crate::net::copy_bytes(packet) })
                } else {
                    self.connections_try_handle(from, packet, now)
                }
            },
        };
        proof {
            if self.events() != ev1 {
                assert(self.events().subrange(0, ev1.len() as int) == ev1);
            } else {
                assert(self.events().subrange(0, ev1.len() as int) =~= ev1);
            }
            assert forall|k: int| 0 <= k < ev0.len() implies self.events()[k] == ev0[k] by {
                assert(self.events().len() >= ev1.len());
                assert(ev1.len() >= ev0.len());
                assert(self.events().subrange(0, ev1.len() as int)[k] == self.events()[k]);
                assert(ev1.subrange(0, ev0.len() as int)[k] == ev1[k]);
            }
            assert(self.events().subrange(0, ev0.len() as int) =~= ev0);
        }
        r
    }

    /// Withdraws relayed candidate `c` from every connection's agent.
    fn remove_local_candidate_from_all(&mut self, c: Candidate)
        requires
            old(self).wf(),
            c.kind == CandidateKind::Relayed,
        ensures
            final(self).wf(),
            final(self).ids() == old(self).ids(),
            final(self).conn_states() == old(self).conn_states(),
            final(self).relays() == old(self).relays(),
            final(self).events().len() >= old(self).events().len(),
            final(self).events().subrange(0, old(self).events().len() as int) == old(self).events(),
            forall|k: int| old(self).events().len() <= k < final(self).events().len() ==> withdraws_relayed(#[trigger] final(self).events()[k]),
            final(self).events() == old(self).events() + invalidate_all(old(self).ids(), old(self).agent_locals(), c).0,
            final(self).agent_locals() == invalidate_all(old(self).ids(), old(self).agent_locals(), c).1,
    {
        let mut i: usize = 0;
        while i < self.connections.len()
            invariant
                0 <= i <= self.connections@.len(),
                c.kind == CandidateKind::Relayed,
                self.ids() == old(self).ids(),
                self.conn_states() == old(self).conn_states(),
                self.allocations == old(self).allocations,
                self.events().len() >= old(self).events().len(),
                self.events().subrange(0, old(self).events().len() as int) == old(self).events(),
                forall|k: int| old(self).events().len() <= k < self.events().len() ==> withdraws_relayed(#[trigger] self.events()[k]),
                self.agent_locals().len() == old(self).agent_locals().len(),
                forall|k: int| 0 <= k < i ==> #[trigger] self.agent_locals()[k]
                    == invalidate_effect(old(self).agent_locals()[k], c, old(self).ids()[k]).0,
                forall|k: int| i <= k < self.agent_locals().len() ==> #[trigger] self.agent_locals()[k]
                    == old(self).agent_locals()[k],
                self.events() == old(self).events() + invalidate_all_events(old(self).ids(), old(self).agent_locals(), c, i as int),
            decreases self.connections@.len() - i,
        {
            let ghost before = self.connections@;
            let ghost before_locals = self.agent_locals();
            let ghost ev = self.pending_events@;
            let (cid, mut slot) = self.connections.remove(i);
            slot_remove_local_candidate(cid, &mut slot, c, &mut self.pending_events);
            self.connections.insert(i, (cid, slot));
            proof {
                assert(self.connections@ =~= before.update(i as int, (cid, slot)));
                assert(self.ids() =~= old(self).ids());
                assert(self.conn_states() =~= old(self).conn_states());
                assert(self.events().subrange(0, old(self).events().len() as int) =~= old(self).events()) by {
                    assert forall|k: int| 0 <= k < old(self).events().len() implies self.events()[k] == old(self).events()[k] by {
                        assert(self.events()[k] == ev[k]);
                        assert(ev.subrange(0, old(self).events().len() as int)[k] == ev[k]);
                    }
                }
                assert forall|k: int| old(self).events().len() <= k < self.events().len() implies withdraws_relayed(#[trigger] self.events()[k]) by {
                    if k < ev.len() {
                        assert(self.events()[k] == ev[k]);
                    }
                }
                assert(before_locals[i as int] == old(self).agent_locals()[i as int]);
                assert(before_locals[i as int] == slot_locals(before[i as int].1));
                assert forall|k: int| 0 <= k < i + 1 implies #[trigger] self.agent_locals()[k]
                    == invalidate_effect(old(self).agent_locals()[k], c, old(self).ids()[k]).0 by {
                    if k < i {
                        assert(self.connections@[k] == before[k]);
                        assert(self.agent_locals()[k] == before_locals[k]);
                    } else {
                        assert(self.connections@[k] == (cid, slot));
                        assert(old(self).ids()[k] == cid);
                    }
                }
                assert forall|k: int| i + 1 <= k < self.agent_locals().len() implies #[trigger] self.agent_locals()[k]
                    == old(self).agent_locals()[k] by {
                    assert(self.connections@[k] == before[k]);
                    assert(self.agent_locals()[k] == before_locals[k]);
                }
                assert(old(self).ids()[i as int] == cid);
                assert(self.events() =~= old(self).events() + invalidate_all_events(old(self).ids(), old(self).agent_locals(), c, i + 1));
            }
            i += 1;
        }
        proof {
            assert(self.agent_locals() =~= invalidate_all(old(self).ids(), old(self).agent_locals(), c).1);
        }
    }

    /// Removes the relays `to_remove`, withdrawing their relayed candidates
    /// from every connection, then adds or refreshes the relays of `to_add`.
    /// A relay whose username or realm a TURN server would refuse is skipped.
    pub fn update_relays(&mut self, to_remove: &Vec<u64>, to_add: &Vec<RelayConfig>)
        requires
            old(self).wf(),
        ensures
            final(self).wf(),
            final(self).relays() == relays_updated(old(self).relays(), to_remove@, configs_view(to_add@)),
            final(self).ids() == old(self).ids(),
            final(self).conn_states() == old(self).conn_states(),
            final(self).events() == old(self).events() + removal_effect(old(self).ids(), old(self).agent_locals(), old(self).relays(), to_remove@).0,
            final(self).agent_locals() == removal_effect(old(self).ids(), old(self).agent_locals(), old(self).relays(), to_remove@).1,
            to_remove@.len() == 0 ==> final(self).events() == old(self).events(),
            final(self).events().len() >= old(self).events().len(),
            final(self).events().subrange(0, old(self).events().len() as int) == old(self).events(),
            forall|k: int| old(self).events().len() <= k < final(self).events().len() ==> withdraws_relayed(#[trigger] final(self).events()[k]),
    {
        let mut i: usize = 0;
        proof {
            assert(to_remove@.subrange(0, 0) =~= Seq::<u64>::empty());
            assert(old(self).events() + Seq::<Event>::empty() =~= old(self).events());
        }
        while i < to_remove.len()
            invariant
                self.wf(),
                0 <= i <= to_remove@.len(),
                self.ids() == old(self).ids(),
                self.conn_states() == old(self).conn_states(),
                self.relays() == old(self).relays(),
                self.events().len() >= old(self).events().len(),
                self.events().subrange(0, old(self).events().len() as int) == old(self).events(),
                forall|k: int| old(self).events().len() <= k < self.events().len() ==> withdraws_relayed(#[trigger] self.events()[k]),
                self.events() == old(self).events() + removal_effect(old(self).ids(), old(self).agent_locals(), old(self).relays(), to_remove@.subrange(0, i as int)).0,
                self.agent_locals() == removal_effect(old(self).ids(), old(self).agent_locals(), old(self).relays(), to_remove@.subrange(0, i as int)).1,
            decreases to_remove@.len() - i,
        {
            let ghost pre_ev = self.events();
            proof {
                let sub = to_remove@.subrange(0, i + 1);
                assert(sub.drop_last() =~= to_remove@.subrange(0, i as int));
                assert(sub.last() == to_remove@[i as int]);
                crate::allocation::lemma_index_of_pub(self.relays(), to_remove@[i as int]);
            }
            match self.allocations.position(to_remove[i]) {
                Some(j) => {
                    let (_, a) = self.allocations.get(j);
                    match a.relayed() {
                        Some(addr) => {
                            let ghost ev = self.events();
                            self.remove_local_candidate_from_all(Candidate { kind: CandidateKind::Relayed, addr });
                            proof {
                                assert forall|k: int| 0 <= k < old(self).events().len() implies self.events()[k] == old(self).events()[k] by {
                                    assert(self.events().subrange(0, ev.len() as int)[k] == self.events()[k]);
                                    assert(ev.subrange(0, old(self).events().len() as int)[k] == ev[k]);
                                }
                                assert(self.events().subrange(0, old(self).events().len() as int) =~= old(self).events());
                                assert forall|k: int| old(self).events().len() <= k < self.events().len() implies withdraws_relayed(#[trigger] self.events()[k]) by {
                                    if k < ev.len() {
                                        assert(self.events().subrange(0, ev.len() as int)[k] == self.events()[k]);
                                    }
                                }
                            }
                        },
                        None => {
                            proof {
                                assert(self.events() =~= pre_ev);
                            }
                        },
                    }
                },
                None => {},
            }
            proof {
                let l0 = old(self).agent_locals();
                let ids0 = old(self).ids();
                let sub = to_remove@.subrange(0, i + 1);
                assert(self.events() =~= old(self).events() + removal_effect(ids0, l0, old(self).relays(), sub).0);
            }
            i += 1;
        }
        proof {
            assert(to_remove@.subrange(0, to_remove@.len() as int) =~= to_remove@);
        }
        let _gone = self.allocations.update(to_remove, to_add);
    }

    /// Offers local candidate `c` to every connection's agent.
    fn add_local_candidate_to_all(&mut self, c: Candidate)
        requires
            old(self).wf(),
        ensures
            final(self).wf(),
            final(self).ids() == old(self).ids(),
            final(self).conn_states() == old(self).conn_states(),
            final(self).relays() == old(self).relays(),
            final(self).events().len() >= old(self).events().len(),
            final(self).events().subrange(0, old(self).events().len() as int) == old(self).events(),
            forall|k: int| old(self).events().len() <= k < final(self).events().len() ==> signals(#[trigger] final(self).events()[k], c),
    {
        let mut i: usize = 0;
        while i < self.connections.len()
            invariant
                0 <= i <= self.connections@.len(),
                self.ids() == old(self).ids(),
                self.conn_states() == old(self).conn_states(),
                self.allocations == old(self).allocations,
                self.events().len() >= old(self).events().len(),
                self.events().subrange(0, old(self).events().len() as int) == old(self).events(),
                forall|k: int| old(self).events().len() <= k < self.events().len() ==> signals(#[trigger] self.events()[k], c),
            decreases self.connections@.len() - i,
        {
            let ghost before = self.connections@;
            let ghost ev = self.pending_events@;
            let (cid, mut slot) = self.connections.remove(i);
            slot_add_local_candidate(cid, &mut slot, c, &mut self.pending_events);
            self.connections.insert(i, (cid, slot));
            proof {
                assert(self.connections@ =~= before.update(i as int, (cid, slot)));
                assert(self.ids() =~= old(self).ids());
                assert(self.conn_states() =~= old(self).conn_states());
                assert(self.events().subrange(0, old(self).events().len() as int) =~= old(self).events()) by {
                    assert forall|k: int| 0 <= k < old(self).events().len() implies self.events()[k] == old(self).events()[k] by {
                        assert(self.events()[k] == ev[k]);
                        assert(ev.subrange(0, old(self).events().len() as int)[k] == ev[k]);
                    }
                }
                assert forall|k: int| old(self).events().len() <= k < self.events().len() implies signals(#[trigger] self.events()[k], c) by {
                    if k < ev.len() {
                        assert(self.events()[k] == ev[k]);
                    }
                }
            }
            i += 1;
        }
    }

    /// The TURN client of relay `rid` learned our addresses: as the server
    /// sees us, and the relayed one. New candidates are offered to every
    /// connection; a relayed candidate that is gone is withdrawn.
    pub fn set_relay_addresses(&mut self, rid: u64, server_reflexive: Option<SocketAddress>, relayed: Option<SocketAddress>)
        requires
            old(self).wf(),
        ensures
            final(self).wf(),
            final(self).ids() == old(self).ids(),
            final(self).conn_states() == old(self).conn_states(),
            match index_of(old(self).relays(), rid) {
                Some(i) => final(self).relays() == old(self).relays().update(
                    i,
                    (rid, AllocView { server_reflexive, relayed, ..old(self).relays()[i].1 }),
                ),
                None => final(self).relays() == old(self).relays() && final(self).events() == old(self).events(),
            },
            final(self).events().len() >= old(self).events().len(),
            final(self).events().subrange(0, old(self).events().len() as int) == old(self).events(),
    {
        let (old_srflx, old_relayed) = match self.allocations.position(rid) {
            Some(j) => {
                let (_, a) = self.allocations.get(j);
                (a.server_reflexive(), a.relayed())
            },
            None => {
                proof {
                    assert(self.events().subrange(0, self.events().len() as int) =~= self.events());
                }
                return;
            },
        };
        self.allocations.set_addresses(rid, server_reflexive, relayed);
        let ghost rel = self.relays();
        let ghost ev0 = self.events();
        if old_relayed.is_some() && old_relayed != relayed {
            self.remove_local_candidate_from_all(Candidate { kind: CandidateKind::Relayed, addr: old_relayed.unwrap() });
        }
        let ghost ev1 = self.events();
        if server_reflexive.is_some() && server_reflexive != old_srflx {
            self.add_local_candidate_to_all(Candidate { kind: CandidateKind::ServerReflexive, addr: server_reflexive.unwrap() });
        }
        let ghost ev2 = self.events();
        if relayed.is_some() && relayed != old_relayed {
            self.add_local_candidate_to_all(Candidate { kind: CandidateKind::Relayed, addr: relayed.unwrap() });
        }
        proof {
            assert(ev1.len() >= ev0.len() && ev2.len() >= ev1.len() && self.events().len() >= ev2.len()) by {
                if ev1 != ev0 {} else {}
            }
            assert forall|k: int| 0 <= k < ev0.len() implies self.events()[k] == ev0[k] by {
                if self.events() != ev2 {
                    assert(self.events().subrange(0, ev2.len() as int)[k] == self.events()[k]);
                }
                if ev2 != ev1 {
                    assert(ev2.subrange(0, ev1.len() as int)[k] == ev2[k]);
                }
                if ev1 != ev0 {
                    assert(ev1.subrange(0, ev0.len() as int)[k] == ev1[k]);
                }
            }
            assert(self.events().subrange(0, ev0.len() as int) =~= ev0);
        }
    }

    /// Updating the relays with nothing to remove and one relay to add, a
    /// second time, leaves the allocations as the first time did: the
    /// credentials are refreshed, no allocation is added.
    pub proof fn lemma_update_relays_twice(&self, once: Seq<(u64, AllocView)>, twice: Seq<(u64, AllocView)>, relay: RelayConfig)
        requires
            self.wf(),
            once == relays_updated(self.relays(), Seq::empty(), configs_view(seq![relay])),
            twice == relays_updated(once, Seq::empty(), configs_view(seq![relay])),
        ensures
            twice == once,
    {
        assert(configs_view(seq![relay]) =~= seq![crate::allocation::config_view(relay)]);
        self.allocations.lemma_ids_unique();
        crate::allocation::lemma_update_relays_idempotent(self.relays(), crate::allocation::config_view(relay));
    }

    /// The IDs of the relays the node has allocations on.
    pub fn relay_ids(&self) -> (r: Vec<u64>)
        requires
            self.wf(),
        ensures
            r@ == self.relays().map_values(|e: (u64, AllocView)| e.0),
    {
        let mut r: Vec<u64> = Vec::new();
        let mut j: usize = 0;
        while j < self.allocations.len()
            invariant
                0 <= j <= self.allocations@.len(),
                self.allocations.wf(),
                r@ == self.relays().subrange(0, j as int).map_values(|e: (u64, AllocView)| e.0),
            decreases self.allocations@.len() - j,
        {
            let (id, _) = self.allocations.get(j);
            r.push(id);
            proof {
                assert(self.relays().subrange(0, j + 1).map_values(|e: (u64, AllocView)| e.0)
                    =~= self.relays().subrange(0, j as int).map_values(|e: (u64, AllocView)| e.0).push(id));
            }
            j += 1;
        }
        proof {
            assert(self.relays().subrange(0, self.relays().len() as int) =~= self.relays());
        }
        r
    }

    /// Sends a datagram that the ICE agent of a connection wants sent from
    /// our socket `source` to `dest`: through the relay whose relayed address
    /// `source` is, as channel-data, or else directly.
    pub fn queue_agent_transmit(&mut self, source: SocketAddress, dest: SocketAddress, payload: Vec<u8>)
        requires
            old(self).wf(),
        ensures
            final(self).wf(),
            final(self).transmits().map_values(|t: Transmit| tview(t)) == old(self).transmits().map_values(|t: Transmit| tview(t))
                + opt_seq(transmit_for(
                    match relay_with_socket_spec(old(self).relays(), source) {
                        Some(relay) => PeerSocket::Relay { relay, dest },
                        None => PeerSocket::Direct { source, dest },
                    },
                    payload@,
                    old(self).relays(),
                )),
            final(self).ids() == old(self).ids(),
            final(self).events() == old(self).events(),
            final(self).relays() == old(self).relays(),
            final(self).conn_states() == old(self).conn_states(),
    {
        let socket = match self.allocations.relay_with_socket(source) {
            Some(relay) => PeerSocket::Relay { relay, dest },
            None => PeerSocket::Direct { source, dest },
        };
        self.make_owned_transmit(socket, payload);
    }

    /// The established connection to the peer with public key `key` whose
    /// WireGuard handshake has completed, if any.
    pub fn connection_id(&self, key: [u8; 32]) -> (r: Option<u64>)
        ensures
            match r {
                Some(cid) => exists|k: int| 0 <= k < self.ids().len() && self.ids()[k] == cid
                    && self.remote_keys()[k] == Some(key@),
                None => true,
            },
    {
        let mut i: usize = 0;
        while i < self.connections.len()
            invariant
                0 <= i <= self.connections@.len(),
            decreases self.connections@.len() - i,
        {
            match &self.connections[i].1 {
                Slot::Established(c) => {
                    if keys_equal(&c.remote_pub_key, &key) && wg::handshake_complete(&c.tunnel) {
                        proof {
                            assert(self.remote_keys()[i as int] == Some(key@));
                        }
                        return Some(self.connections[i].0);
                    }
                },
                Slot::Initial(_) => {},
            }
            i += 1;
        }
        None
    }
}

impl Node<Client> {
    /// Starts connection `cid`, replacing any connection of that ID; the
    /// offer is for the remote.
    pub fn new_connection(&mut self, cid: u64, intent_sent_at: u64, now: u64) -> (offer: Offer)
        requires
            old(self).wf(),
        ensures
            final(self).wf(),
            final(self).ids().last() == cid,
            final(self).ids().contains(cid),
            final(self).initial_flags().last(),
            final(self).agent_locals().last() == Seq::<Candidate>::empty(),
            final(self).infos().last() == (ConnInfo {
                initial: true,
                state: None,
                remote_key: None,
                session_key: offer.session_key@,
                creds: (cred_view(offer.credentials), None),
                remotes: Seq::empty(),
                latch: false,
                fail_deadline: Some(sat_add(now, HANDSHAKE_TIMEOUT_MS)),
                idle_deadline: None,
                timer_at: None,
            }),
            offer.credentials.username@.len() == 4,
            offer.credentials.password@.len() == 22,
            forall|x: u64| x != cid ==> (final(self).ids().contains(x) <==> old(self).ids().contains(x)),
            final(self).events() == old(self).events(),
            final(self).relays() == old(self).relays(),
            final(self).host_candidates() == old(self).host_candidates(),
    {
        let _ = self.remove_connection(cid);
        let agent = Agent::new(true);
        let session_key: [u8; 32] = rand::random();
        let credentials = agent.local_credentials();
        let initial = InitialConnection {
            agent,
            session_key,
            created_at: now,
            intent_sent_at,
            is_failed: false,
        };
        let ghost mid = self.ids();
        self.push_connection(cid, Slot::Initial(initial));
        proof {
            assert(self.ids()[self.ids().len() - 1] == cid);
            assert forall|x: u64| x != cid implies (self.ids().contains(x) <==> mid.contains(x)) by {
                if mid.contains(x) {
                    let k = choose|k: int| 0 <= k < mid.len() && mid[k] == x;
                    assert(self.ids()[k] == x);
                }
                if self.ids().contains(x) {
                    let k = choose|k: int| 0 <= k < self.ids().len() && self.ids()[k] == x;
                    assert(k < mid.len());
                    assert(mid[k] == x);
                }
            }
        }
        Offer { session_key, credentials }
    }

    /// Takes the remote's answer to the offer of connection `cid`; without
    /// an offer waiting (it may have timed out) the answer is ignored.
    pub fn accept_answer(&mut self, cid: u64, remote: [u8; 32], answer: Answer, now: u64)
        requires
            old(self).wf(),
        ensures
            final(self).wf(),
            !(exists|i: int| 0 <= i < old(self).ids().len() && old(self).ids()[i] == cid && old(self).initial_flags()[i])
                ==> *final(self) == *old(self),
            (exists|i: int| 0 <= i < old(self).ids().len() && old(self).ids()[i] == cid && old(self).initial_flags()[i])
                ==> final(self).ids().contains(cid),
            forall|i: int| 0 <= i < old(self).ids().len() && old(self).ids()[i] == cid && old(self).initial_flags()[i] ==> {
                let before = old(self).infos()[i];
                &&& final(self).ids().last() == cid
                &&& !final(self).initial_flags().last()
                &&& final(self).infos().last() == (ConnInfo {
                    initial: false,
                    state: Some(StateView::Connecting { possible_sockets: Seq::empty(), buffered: Seq::empty() }),
                    remote_key: Some(remote@),
                    session_key: before.session_key,
                    creds: (before.creds.0, Some(cred_view(answer.credentials))),
                    remotes: before.remotes,
                    latch: false,
                    fail_deadline: candidate_deadline(before.remotes, now),
                    idle_deadline: Some(sat_add(now, MAX_IDLE_MS)),
                    timer_at: Some(now),
                })
            },
            forall|x: u64| x != cid ==> (final(self).ids().contains(x) <==> old(self).ids().contains(x)),
            final(self).relays() == old(self).relays(),
            final(self).host_candidates() == old(self).host_candidates(),
    {
        if !self.is_expecting_answer(cid) {
            return;
        }
        let ghost before_ids = self.ids();
        let ghost before_flags = self.initial_flags();
        let initial = match self.remove_connection(cid) {
            Some(Slot::Initial(c)) => c,
            other => {
                proof {
                    let i = choose|i: int| 0 <= i < before_ids.len() && before_ids[i] == cid && before_flags[i];
                    if other is Some {
                        let j = choose|j: int| 0 <= j < before_ids.len() && before_ids[j] == cid
                            && before_flags[j] == (other->0 is Initial);
                        assert(i == j);
                    }
                }
                return;
            },
        };
        proof {
            let i = choose|i: int| 0 <= i < before_ids.len() && before_ids[i] == cid && before_flags[i];
            let j = choose|j: int| 0 <= j < before_ids.len() && before_ids[j] == cid
                && before_flags[j] == true && old(self).infos()[j] == initial.info();
            assert(i == j);
            assert forall|k: int| 0 <= k < before_ids.len() && before_ids[k] == cid && before_flags[k] implies k == j by {}
        }
        let mut agent = initial.agent;
        agent.set_remote_credentials(answer.credentials);
        let ghost mid = self.ids();
        self.establish(cid, agent, remote, initial.session_key, initial.intent_sent_at, now);
        proof {
            if self.ids() == mid.push(cid) {
                assert(self.ids()[mid.len() as int] == cid);
            }
            assert forall|x: u64| x != cid implies (self.ids().contains(x) <==> mid.contains(x)) by {
                if self.ids() == mid.push(cid) {
                    if mid.contains(x) {
                        let k = choose|k: int| 0 <= k < mid.len() && mid[k] == x;
                        assert(self.ids()[k] == x);
                    }
                    if self.ids().contains(x) {
                        let k = choose|k: int| 0 <= k < self.ids().len() && self.ids()[k] == x;
                        assert(k < mid.len());
                        assert(mid[k] == x);
                    }
                }
            }
        }
    }
}

impl Node<Server> {
    /// Accepts connection `cid` offered by `remote`, replacing any
    /// connection of that ID; the answer is for the remote.
    pub fn accept_connection(&mut self, cid: u64, offer: Offer, remote: [u8; 32], now: u64) -> (answer: Answer)
        requires
            old(self).wf(),
        ensures
            final(self).wf(),
            final(self).ids().contains(cid),
            final(self).ids().last() == cid,
            !final(self).initial_flags().last(),
            final(self).infos().last() == (ConnInfo {
                initial: false,
                state: Some(StateView::Connecting { possible_sockets: Seq::empty(), buffered: Seq::empty() }),
                remote_key: Some(remote@),
                session_key: offer.session_key@,
                creds: (cred_view(answer.credentials), Some(cred_view(offer.credentials))),
                remotes: Seq::empty(),
                latch: false,
                fail_deadline: Some(sat_add(now, CANDIDATE_TIMEOUT_MS)),
                idle_deadline: Some(sat_add(now, MAX_IDLE_MS)),
                timer_at: Some(now),
            }),
            forall|x: u64| x != cid ==> (final(self).ids().contains(x) <==> old(self).ids().contains(x)),
            final(self).relays() == old(self).relays(),
            final(self).host_candidates() == old(self).host_candidates(),
    {
        let _ = self.remove_connection(cid);
        let mut agent = Agent::new(false);
        agent.set_remote_credentials(offer.credentials);
        let answer = Answer { credentials: agent.local_credentials() };
        let ghost mid = self.ids();
        self.establish(cid, agent, remote, offer.session_key, now, now);
        proof {
            if self.ids() == mid.push(cid) {
                assert(self.ids()[mid.len() as int] == cid);
            }
            assert forall|x: u64| x != cid implies (self.ids().contains(x) <==> mid.contains(x)) by {
                if self.ids() == mid.push(cid) {
                    if mid.contains(x) {
                        let k = choose|k: int| 0 <= k < mid.len() && mid[k] == x;
                        assert(self.ids()[k] == x);
                    }
                    if self.ids().contains(x) {
                        let k = choose|k: int| 0 <= k < self.ids().len() && self.ids()[k] == x;
                        assert(k < mid.len());
                        assert(mid[k] == x);
                    }
                }
            }
        }
        answer
    }
}

/// How many packets boringtun queues while it has no session.
pub const MAX_WG_QUEUE: usize = 256;

/// The largest WireGuard session index: boringtun shifts it left by 8 bits.
pub const MAX_SESSION_INDEX: u32 = 0x00ff_ffff;

} // verus!
