use vstd::prelude::*;

use std::collections::VecDeque;

use boringtun::noise::Tunn;

use crate::net::SocketAddress;

verus! {

/// How many WireGuard packets a connection holds while ICE has not yet
/// nominated a socket; beyond that the oldest is dropped.
pub const MAX_BUFFERED: usize = 10;

/// How long a connection waits for the first remote candidate, in ms.
pub const CANDIDATE_TIMEOUT_MS: u64 = 10_000;

/// How long a client waits for the answer to its offer, in ms.
pub const HANDSHAKE_TIMEOUT_MS: u64 = 20_000;

/// How long a connection may go without traffic before it is idle, in ms.
pub const MAX_IDLE_MS: u64 = 300_000;

/// How often the WireGuard timers are updated, in ms.
pub const TIMER_INTERVAL_MS: u64 = 1_000;

/// The WireGuard keep-alive, in seconds.
pub const WG_KEEP_ALIVE_SECS: u16 = 10;

/// The kind of an ICE candidate.
#[derive(Debug, Clone, Copy, PartialEq, Eq, Hash, Structural)]
pub enum CandidateKind {
    Host,
    ServerReflexive,
    PeerReflexive,
    Relayed,
}

/// An ICE candidate for UDP.
#[derive(Debug, Clone, Copy, PartialEq, Eq, Hash, Structural)]
pub struct Candidate {
    pub kind: CandidateKind,
    pub addr: SocketAddress,
}

/// The socket on which the peer is reached.
#[derive(Debug, Clone, Copy, PartialEq, Eq, Structural)]
pub enum PeerSocket {
    Direct { source: SocketAddress, dest: SocketAddress },
    /// Through the TURN allocation on relay `relay`.
    Relay { relay: u64, dest: SocketAddress },
}

pub open spec fn socket_dest(s: PeerSocket) -> SocketAddress {
    match s {
        PeerSocket::Direct { dest, .. } => dest,
        PeerSocket::Relay { dest, .. } => dest,
    }
}

/// Where a connection stands.
pub enum ConnectionState {
    /// ICE has not nominated a socket yet; WireGuard packets wait in
    /// `buffered`.
    Connecting { possible_sockets: Vec<SocketAddress>, buffered: VecDeque<Vec<u8>> },
    Connected { peer_socket: PeerSocket, possible_sockets: Vec<SocketAddress> },
    Failed,
    Idle,
}

/// The buffer after `packet` was added to `s`, the oldest dropped when full.
pub open spec fn ring_push(s: Seq<Seq<u8>>, packet: Seq<u8>) -> Seq<Seq<u8>> {
    if s.len() >= MAX_BUFFERED {
        s.drop_first().push(packet)
    } else {
        s.push(packet)
    }
}

/// What ICE reported for a connection.
#[derive(Debug, Clone, Copy, PartialEq, Eq, Structural)]
pub enum IceEvent {
    /// Traffic was received from `source`.
    DiscoveredRecv { source: SocketAddress },
    /// ICE nominated the pair `source` to `destination`.
    NominatedSend { source: SocketAddress, destination: SocketAddress },
    /// ICE gave up on the connection.
    Disconnected,
}

/// `a + b`, or `u64::MAX` where that does not fit.
pub open spec fn sat_add(a: u64, b: u64) -> u64 {
    if a + b <= u64::MAX { (a + b) as u64 } else { u64::MAX }
}

pub open spec fn max_u64(a: u64, b: u64) -> u64 {
    if a >= b { a } else { b }
}

/// The earlier of two optional instants.
pub open spec fn earliest(a: Option<u64>, b: Option<u64>) -> Option<u64> {
    match (a, b) {
        (Some(x), Some(y)) => Some(if x <= y { x } else { y }),
        (Some(x), None) => Some(x),
        (None, y) => y,
    }
}

pub fn earliest_of(a: Option<u64>, b: Option<u64>) -> (r: Option<u64>)
    ensures
        r == earliest(a, b),
{
    match (a, b) {
        (Some(x), Some(y)) => Some(if x <= y { x } else { y }),
        (Some(x), None) => Some(x),
        (None, y) => y,
    }
}

/// The view of a connection's state that contracts speak of.
pub ghost enum StateView {
    Connecting { possible_sockets: Seq<SocketAddress>, buffered: Seq<Seq<u8>> },
    Connected { peer_socket: PeerSocket, possible_sockets: Seq<SocketAddress> },
    Failed,
    Idle,
}

pub open spec fn buffered_view(q: Seq<Vec<u8>>) -> Seq<Seq<u8>> {
    q.map_values(|p: Vec<u8>| p@)
}

impl View for ConnectionState {
    type V = StateView;

    open spec fn view(&self) -> StateView {
        match self {
            ConnectionState::Connecting { possible_sockets, buffered } => StateView::Connecting {
                possible_sockets: possible_sockets@,
                buffered: buffered_view(buffered@),
            },
            ConnectionState::Connected { peer_socket, possible_sockets } => StateView::Connected {
                peer_socket: *peer_socket,
                possible_sockets: possible_sockets@,
            },
            ConnectionState::Failed => StateView::Failed,
            ConnectionState::Idle => StateView::Idle,
        }
    }
}

/// Whether a connection in state `s` takes traffic from `from`.
pub open spec fn state_accepts(s: StateView, from: SocketAddress) -> bool {
    match s {
        StateView::Connecting { possible_sockets, .. } => possible_sockets.contains(from),
        StateView::Connected { peer_socket, possible_sockets } => socket_dest(peer_socket) == from
            || possible_sockets.contains(from),
        StateView::Failed | StateView::Idle => false,
    }
}

/// The state after `from` was seen to send to us.
pub open spec fn state_with_socket(s: StateView, from: SocketAddress) -> StateView {
    match s {
        StateView::Connecting { possible_sockets, buffered } => StateView::Connecting {
            possible_sockets: if possible_sockets.contains(from) { possible_sockets } else { possible_sockets.push(from) },
            buffered,
        },
        StateView::Connected { peer_socket, possible_sockets } => StateView::Connected {
            peer_socket,
            possible_sockets: if possible_sockets.contains(from) { possible_sockets } else { possible_sockets.push(from) },
        },
        other => other,
    }
}

/// The state after ICE nominated `socket`, the packets that were waiting
/// for it, and whether a new handshake is due.
pub open spec fn state_after_nomination(s: StateView, socket: PeerSocket) -> (StateView, Seq<Seq<u8>>, bool) {
    match s {
        StateView::Connecting { possible_sockets, buffered } => (
            StateView::Connected { peer_socket: socket, possible_sockets },
            buffered,
            true,
        ),
        StateView::Connected { peer_socket, possible_sockets } => if peer_socket == socket {
            (s, Seq::empty(), false)
        } else {
            (StateView::Connected { peer_socket: socket, possible_sockets }, Seq::empty(), true)
        },
        StateView::Failed | StateView::Idle => (s, Seq::empty(), false),
    }
}

fn contains_socket(v: &Vec<SocketAddress>, a: SocketAddress) -> (r: bool)
    ensures
        r == v@.contains(a),
{
    let mut i: usize = 0;
    while i < v.len()
        invariant
            0 <= i <= v@.len(),
            forall|j: int| 0 <= j < i ==> v@[j] != a,
        decreases v@.len() - i,
    {
        if v[i] == a {
            return true;
        }
        i += 1;
    }
    false
}

impl ConnectionState {
    pub fn new() -> (r: Self)
        ensures
            r@ == (StateView::Connecting { possible_sockets: Seq::empty(), buffered: Seq::empty() }),
    {
        let r = ConnectionState::Connecting { possible_sockets: Vec::new(), buffered: VecDeque::new() };
        proof {
            assert(buffered_view(Seq::<Vec<u8>>::empty()) =~= Seq::<Seq<u8>>::empty());
        }
        r
    }

    pub fn accepts(&self, from: SocketAddress) -> (r: bool)
        ensures
            r == state_accepts(self@, from),
    {
        match self {
            ConnectionState::Connecting { possible_sockets, .. } => contains_socket(possible_sockets, from),
            ConnectionState::Connected { peer_socket, possible_sockets } => {
                let dest = match peer_socket {
                    PeerSocket::Direct { dest, .. } => *dest,
                    PeerSocket::Relay { dest, .. } => *dest,
                };
                dest == from || contains_socket(possible_sockets, from)
            },
            ConnectionState::Failed | ConnectionState::Idle => false,
        }
    }

    pub fn add_possible_socket(&mut self, from: SocketAddress)
        ensures
            final(self)@ == state_with_socket(old(self)@, from),
    {
        match self {
            ConnectionState::Connecting { possible_sockets, .. } => {
                if !contains_socket(possible_sockets, from) {
                    possible_sockets.push(from);
                }
            },
            ConnectionState::Connected { possible_sockets, .. } => {
                if !contains_socket(possible_sockets, from) {
                    possible_sockets.push(from);
                }
            },
            ConnectionState::Failed | ConnectionState::Idle => {},
        }
    }

    /// Holds a WireGuard packet until a socket is nominated.
    ///
    /// Only a connecting state buffers; in any other the packet is dropped.
    pub fn buffer_packet(&mut self, packet: Vec<u8>)
        ensures
            match old(self)@ {
                StateView::Connecting { possible_sockets, buffered } => final(self)@ == (StateView::Connecting {
                    possible_sockets,
                    buffered: ring_push(buffered, packet@),
                }),
                _ => final(self)@ == old(self)@,
            },
    {
        match self {
            ConnectionState::Connecting { buffered, .. } => {
                let ghost before = buffered@;
                if buffered.len() >= MAX_BUFFERED {
                    let _ = buffered.pop_front();
                }
                buffered.push_back(packet);
                proof {
                    if before.len() >= MAX_BUFFERED {
                        assert(buffered_view(buffered@) =~= buffered_view(before).drop_first().push(packet@));
                    } else {
                        assert(buffered_view(buffered@) =~= buffered_view(before).push(packet@));
                    }
                }
            },
            _ => {},
        }
    }

    /// ICE nominated `socket`: the connection is connected through it.
    ///
    /// Gives back the packets that waited for a socket, oldest first, and
    /// whether a new handshake is to be forced.
    pub fn nominate(&mut self, socket: PeerSocket) -> (r: (Vec<Vec<u8>>, bool))
        ensures
            final(self)@ == state_after_nomination(old(self)@, socket).0,
            buffered_view(r.0@) == state_after_nomination(old(self)@, socket).1,
            r.1 == state_after_nomination(old(self)@, socket).2,
    {
        let mut old_state = ConnectionState::Failed;
        std::mem::swap(self, &mut old_state);
        match old_state {
            ConnectionState::Connecting { possible_sockets, buffered } => {
                let mut flushed: Vec<Vec<u8>> = Vec::new();
                let mut q = buffered;
                let ghost all = buffered_view(q@);
                while q.len() > 0
                    invariant
                        buffered_view(flushed@) + buffered_view(q@) == all,
                    decreases q@.len(),
                {
                    let ghost before_q = q@;
                    let ghost before_f = flushed@;
                    match q.pop_front() {
                        Some(p) => {
                            flushed.push(p);
                            proof {
                                assert(buffered_view(flushed@) =~= buffered_view(before_f).push(p@));
                                assert(buffered_view(before_q) =~= seq![p@] + buffered_view(q@));
                                assert(buffered_view(flushed@) + buffered_view(q@) =~= buffered_view(before_f)
                                    + buffered_view(before_q));
                            }
                        },
                        None => {},
                    }
                }
                proof {
                    assert(buffered_view(q@) =~= Seq::<Seq<u8>>::empty());
                    assert(buffered_view(flushed@) =~= all);
                }
                *self = ConnectionState::Connected { peer_socket: socket, possible_sockets };
                (flushed, true)
            },
            ConnectionState::Connected { peer_socket, possible_sockets } => {
                let changed = peer_socket != socket;
                *self = ConnectionState::Connected { peer_socket: socket, possible_sockets };
                proof {
                    assert(buffered_view(Seq::<Vec<u8>>::empty()) =~= Seq::<Seq<u8>>::empty());
                }
                (Vec::new(), changed)
            },
            ConnectionState::Failed => {
                proof {
                    assert(buffered_view(Seq::<Vec<u8>>::empty()) =~= Seq::<Seq<u8>>::empty());
                }
                (Vec::new(), false)
            },
            ConnectionState::Idle => {
                *self = ConnectionState::Idle;
                proof {
                    assert(buffered_view(Seq::<Vec<u8>>::empty()) =~= Seq::<Seq<u8>>::empty());
                }
                (Vec::new(), false)
            },
        }
    }

    pub fn socket(&self) -> (r: Option<PeerSocket>)
        ensures
            r == match self@ {
                StateView::Connected { peer_socket, .. } => Some(peer_socket),
                _ => None::<PeerSocket>,
            },
    {
        match self {
            ConnectionState::Connected { peer_socket, .. } => Some(*peer_socket),
            _ => None,
        }
    }

    pub fn is_connecting(&self) -> (r: bool)
        ensures
            r == (self@ is Connecting),
    {
        match self {
            ConnectionState::Connecting { .. } => true,
            _ => false,
        }
    }

    pub fn is_failed(&self) -> (r: bool)
        ensures
            r == (self@ is Failed),
    {
        match self {
            ConnectionState::Failed => true,
            _ => false,
        }
    }

    pub fn is_idle(&self) -> (r: bool)
        ensures
            r == (self@ is Idle),
    {
        match self {
            ConnectionState::Idle => true,
            _ => false,
        }
    }
}

} // verus!
