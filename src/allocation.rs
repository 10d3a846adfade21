use vstd::prelude::*;

use stun_codec::rfc5389::attributes::{Realm, Username};

use crate::channel_data;
use crate::channel_data::{FIRST_CHANNEL, LAST_CHANNEL};
use crate::connection::{Candidate, CandidateKind};
use crate::net::{SocketAddress, Transmit};

verus! {

/// The number of bytes that UTF-8 takes for `c`.
pub open spec fn utf8_width(c: char) -> nat {
    if (c as u32) < 0x80 {
        1
    } else if (c as u32) < 0x800 {
        2
    } else if (c as u32) < 0x10000 {
        3
    } else {
        4
    }
}

/// The number of bytes that UTF-8 takes for `s`.
pub open spec fn utf8_len(s: Seq<char>) -> nat
    decreases s.len(),
{
    if s.len() == 0 {
        0
    } else {
        utf8_len(s.drop_last()) + utf8_width(s.last())
    }
}

/// A TURN username is shorter than 513 bytes.
pub open spec fn valid_username(s: Seq<char>) -> bool {
    utf8_len(s) < 513
}

/// A TURN realm is shorter than 128 characters.
pub open spec fn valid_realm(s: Seq<char>) -> bool {
    s.len() < 128
}

/// Relies on stun_codec's `Username::new`: it accepts a name of fewer than
/// 513 bytes.
#[verifier::external_body]
fn username_is_valid(s: &String) -> (r: bool)
    ensures
        r == valid_username(s@),
{
    Username::new(s.clone()).is_ok()
}

/// Relies on stun_codec's `Realm::new`: it accepts a text of fewer than 128
/// characters.
#[verifier::external_body]
fn realm_is_valid(s: &String) -> (r: bool)
    ensures
        r == valid_realm(s@),
{
    Realm::new(s.clone()).is_ok()
}

/// A relay as the portal describes it.
#[derive(Debug, Clone)]
pub struct RelayConfig {
    pub id: u64,
    pub server: SocketAddress,
    pub username: String,
    pub password: String,
    pub realm: String,
}

/// What contracts see of an allocation.
pub ghost struct AllocView {
    pub server: SocketAddress,
    pub username: Seq<char>,
    pub password: Seq<char>,
    pub realm: Seq<char>,
    pub relayed: Option<SocketAddress>,
    pub server_reflexive: Option<SocketAddress>,
    pub channels: Seq<(SocketAddress, u16)>,
}

/// One TURN allocation: the relay's server, our credentials on it, the
/// addresses it gave us and the channels bound to peers.
pub struct Allocation {
    server: SocketAddress,
    username: String,
    password: String,
    realm: String,
    relayed: Option<SocketAddress>,
    server_reflexive: Option<SocketAddress>,
    channels: Vec<(SocketAddress, u16)>,
}

/// The channel bound to `peer`, if any.
pub open spec fn channel_of(channels: Seq<(SocketAddress, u16)>, peer: SocketAddress) -> Option<u16>
    decreases channels.len(),
{
    if channels.len() == 0 {
        None
    } else if channels[0].0 == peer {
        Some(channels[0].1)
    } else {
        channel_of(channels.drop_first(), peer)
    }
}

/// The relay `e` after a channel to `peer` was asked for: one is bound
/// unless one is already, or none is left.
pub open spec fn with_channel(e: (u64, AllocView), peer: SocketAddress) -> (u64, AllocView) {
    let chs = e.1.channels;
    (e.0, AllocView {
        channels: if channel_of(chs, peer).is_some() || chs.len() > LAST_CHANNEL - FIRST_CHANNEL {
            chs
        } else {
            chs.push((peer, (FIRST_CHANNEL + chs.len()) as u16))
        },
        ..e.1
    })
}

/// The channel numbers in `channels` are `FIRST_CHANNEL`, `FIRST_CHANNEL + 1`, ...
pub open spec fn channels_numbered(channels: Seq<(SocketAddress, u16)>) -> bool {
    &&& channels.len() <= LAST_CHANNEL - FIRST_CHANNEL + 1
    &&& forall|i: int| 0 <= i < channels.len() ==> (#[trigger] channels[i]).1 == FIRST_CHANNEL + i
}

proof fn lemma_channel_of_push(channels: Seq<(SocketAddress, u16)>, e: (SocketAddress, u16), peer: SocketAddress)
    ensures
        channel_of(channels.push(e), peer) == match channel_of(channels, peer) {
            Some(c) => Some(c),
            None => if e.0 == peer { Some(e.1) } else { None },
        },
    decreases channels.len(),
{
    if channels.len() == 0 {
        assert(channels.push(e)[0] == e);
        assert(channels.push(e).drop_first() =~= Seq::<(SocketAddress, u16)>::empty());
        assert(channel_of(channels.push(e).drop_first(), peer) == None::<u16>);
    } else {
        assert(channels.push(e)[0] == channels[0]);
        assert(channels.push(e).drop_first() =~= channels.drop_first().push(e));
        lemma_channel_of_push(channels.drop_first(), e, peer);
    }
}

proof fn lemma_channel_of_in_range(channels: Seq<(SocketAddress, u16)>, peer: SocketAddress)
    requires
        forall|i: int| 0 <= i < channels.len() ==> FIRST_CHANNEL <= (#[trigger] channels[i]).1 <= LAST_CHANNEL,
    ensures
        match channel_of(channels, peer) {
            Some(c) => FIRST_CHANNEL <= c <= LAST_CHANNEL,
            None => true,
        },
    decreases channels.len(),
{
    if channels.len() > 0 {
        assert(channels[0].1 == channels[0].1);
        assert forall|i: int| 0 <= i < channels.drop_first().len() implies FIRST_CHANNEL <= (
        #[trigger] channels.drop_first()[i]).1 <= LAST_CHANNEL by {
            assert(channels.drop_first()[i] == channels[i + 1]);
        }
        lemma_channel_of_in_range(channels.drop_first(), peer);
    }
}

impl View for Allocation {
    type V = AllocView;

    closed spec fn view(&self) -> AllocView {
        AllocView {
            server: self.server,
            username: self.username@,
            password: self.password@,
            realm: self.realm@,
            relayed: self.relayed,
            server_reflexive: self.server_reflexive,
            channels: self.channels@,
        }
    }
}

/// The candidates that an allocation offers: the server-reflexive address,
/// then the relayed one, as far as they are known.
pub open spec fn alloc_candidates(a: AllocView) -> Seq<Candidate> {
    let srflx = match a.server_reflexive {
        Some(addr) => seq![Candidate { kind: CandidateKind::ServerReflexive, addr }],
        None => Seq::empty(),
    };
    let relayed = match a.relayed {
        Some(addr) => seq![Candidate { kind: CandidateKind::Relayed, addr }],
        None => Seq::empty(),
    };
    srflx + relayed
}

impl Allocation {
    pub closed spec fn wf(&self) -> bool {
        channels_numbered(self.channels@)
    }

    /// A new allocation on `server` with the given credentials.
    pub fn new(server: SocketAddress, username: String, password: String, realm: String) -> (r: Self)
        ensures
            r.wf(),
            r@ == (AllocView {
                server,
                username: username@,
                password: password@,
                realm: realm@,
                relayed: None,
                server_reflexive: None,
                channels: Seq::empty(),
            }),
    {
        Allocation {
            server,
            username,
            password,
            realm,
            relayed: None,
            server_reflexive: None,
            channels: Vec::new(),
        }
    }

    /// Takes the relay's server and credentials as the portal now gives
    /// them; the addresses and channels stay.
    pub fn update_credentials(&mut self, server: SocketAddress, username: String, password: String, realm: String)
        requires
            old(self).wf(),
        ensures
            final(self).wf(),
            final(self)@ == (AllocView {
                server,
                username: username@,
                password: password@,
                realm: realm@,
                ..old(self)@
            }),
    {
        self.server = server;
        self.username = username;
        self.password = password;
        self.realm = realm;
    }

    /// Records the addresses the server gave us: our address as it sees it,
    /// and the relayed address.
    pub fn set_addresses(&mut self, server_reflexive: Option<SocketAddress>, relayed: Option<SocketAddress>)
        requires
            old(self).wf(),
        ensures
            final(self).wf(),
            final(self)@ == (AllocView { server_reflexive, relayed, ..old(self)@ }),
    {
        self.server_reflexive = server_reflexive;
        self.relayed = relayed;
    }

    pub fn server(&self) -> (r: SocketAddress)
        ensures
            r == self@.server,
    {
        self.server
    }

    pub fn server_reflexive(&self) -> (r: Option<SocketAddress>)
        ensures
            r == self@.server_reflexive,
    {
        self.server_reflexive
    }

    pub fn relayed(&self) -> (r: Option<SocketAddress>)
        ensures
            r == self@.relayed,
    {
        self.relayed
    }

    /// The candidates this allocation offers.
    pub fn current_candidates(&self) -> (r: Vec<Candidate>)
        ensures
            r@ == alloc_candidates(self@),
    {
        let mut r: Vec<Candidate> = Vec::new();
        match self.server_reflexive {
            Some(addr) => r.push(Candidate { kind: CandidateKind::ServerReflexive, addr }),
            None => {},
        }
        match self.relayed {
            Some(addr) => r.push(Candidate { kind: CandidateKind::Relayed, addr }),
            None => {},
        }
        proof {
            assert(r@ =~= alloc_candidates(self@));
        }
        r
    }

    /// Whether `socket` is this allocation's relayed address.
    pub fn has_socket(&self, socket: SocketAddress) -> (r: bool)
        ensures
            r == (self@.relayed == Some(socket)),
    {
        match self.relayed {
            Some(a) => a == socket,
            None => false,
        }
    }

    /// The channel bound to `peer`.
    pub fn channel_to(&self, peer: SocketAddress) -> (r: Option<u16>)
        ensures
            r == channel_of(self@.channels, peer),
    {
        let mut i: usize = 0;
        proof {
            assert(self.channels@.subrange(0, self.channels@.len() as int) =~= self.channels@);
        }
        while i < self.channels.len()
            invariant
                0 <= i <= self.channels@.len(),
                channel_of(self.channels@, peer) == channel_of(self.channels@.subrange(i as int, self.channels@.len() as int), peer),
            decreases self.channels@.len() - i,
        {
            let ghost rest = self.channels@.subrange(i as int, self.channels@.len() as int);
            proof {
                assert(rest.drop_first() =~= self.channels@.subrange(i + 1, self.channels@.len() as int));
            }
            if self.channels[i].0 == peer {
                return Some(self.channels[i].1);
            }
            i += 1;
        }
        proof {
            assert(self.channels@.subrange(i as int, self.channels@.len() as int) =~= Seq::<(SocketAddress, u16)>::empty());
        }
        None
    }

    /// The peer on channel `channel`.
    pub fn peer_on(&self, channel: u16) -> (r: Option<SocketAddress>)
        requires
            self.wf(),
        ensures
            match r {
                Some(p) => exists|i: int| 0 <= i < self@.channels.len() && #[trigger] self@.channels[i] == (p, channel),
                None => forall|i: int| 0 <= i < self@.channels.len() ==> (#[trigger] self@.channels[i]).1 != channel,
            },
    {
        let mut i: usize = 0;
        while i < self.channels.len()
            invariant
                0 <= i <= self.channels@.len(),
                forall|j: int| 0 <= j < i ==> (#[trigger] self.channels@[j]).1 != channel,
            decreases self.channels@.len() - i,
        {
            if self.channels[i].1 == channel {
                proof {
                    assert(self@.channels[i as int] == (self.channels@[i as int].0, channel));
                }
                return Some(self.channels[i].0);
            }
            i += 1;
        }
        None
    }

    /// Binds a channel to `peer` unless one is bound already or none is left.
    pub fn bind_channel(&mut self, peer: SocketAddress)
        requires
            old(self).wf(),
        ensures
            final(self).wf(),
            final(self)@ == (AllocView {
                channels: if channel_of(old(self)@.channels, peer).is_some()
                    || old(self)@.channels.len() > LAST_CHANNEL - FIRST_CHANNEL {
                    old(self)@.channels
                } else {
                    old(self)@.channels.push((peer, (FIRST_CHANNEL + old(self)@.channels.len()) as u16))
                },
                ..old(self)@
            }),
            channel_of(old(self)@.channels, peer).is_none() && old(self)@.channels.len() <= LAST_CHANNEL
                - FIRST_CHANNEL ==> channel_of(final(self)@.channels, peer) == Some(
                (FIRST_CHANNEL + old(self)@.channels.len()) as u16,
            ),
    {
        if self.channel_to(peer).is_some() {
            return;
        }
        let n = self.channels.len();
        if n > (LAST_CHANNEL - FIRST_CHANNEL) as usize {
            return;
        }
        let ch = FIRST_CHANNEL + n as u16;
        proof {
            lemma_channel_of_push(self.channels@, (peer, ch), peer);
        }
        self.channels.push((peer, ch));
    }

    /// Wraps `data` for `peer` as channel-data to the server; `None` where no
    /// channel is bound to `peer`.
    pub fn encode_to_owned_transmit(&self, peer: SocketAddress, data: &[u8]) -> (r: Option<Transmit>)
        requires
            data@.len() <= u16::MAX,
        ensures
            match channel_of(self@.channels, peer) {
                Some(ch) => r == Some(Transmit { src: None, dst: self@.server, payload: r->0.payload })
                    && r->0.payload@ == channel_data::channel_data_frame(ch, data@),
                None => r.is_none(),
            },
    {
        match self.channel_to(peer) {
            Some(ch) => {
                let payload = channel_data::encode(ch, data);
                Some(Transmit { src: None, dst: self.server, payload })
            },
            None => None,
        }
    }

    /// Unwraps a channel-data message from the server: the peer it came
    /// from, its data, and our relayed address it was sent to.
    ///
    /// `None` where the message is malformed, the channel is not bound, or
    /// we have no relayed address.
    pub fn decapsulate(&self, from: SocketAddress, packet: &[u8]) -> (r: Option<(SocketAddress, Vec<u8>, SocketAddress)>)
        requires
            self.wf(),
        ensures
            match r {
                Some((peer, data, relayed)) => unwrapped(self@, from, packet@) == Some((peer, data@, relayed)),
                None => unwrapped(self@, from, packet@).is_none(),
            },
    {
        if from != self.server {
            return None;
        }
        let relayed = match self.relayed {
            Some(a) => a,
            None => {
                return None;
            },
        };
        let (ch, data) = match channel_data::decode(packet) {
            Some(x) => x,
            None => {
                return None;
            },
        };
        match self.peer_on(ch) {
            Some(peer) => {
                proof {
                    let i = choose|i: int| 0 <= i < self@.channels.len() && #[trigger] self@.channels[i] == (peer, ch);
                    assert(self@.channels[i] == (peer, ch));
                    assert(i == ch - FIRST_CHANNEL);
                }
                Some((peer, data, relayed))
            },
            None => {
                proof {
                    let chi = ch as int;
                    if FIRST_CHANNEL <= chi && chi - FIRST_CHANNEL < self@.channels.len() {
                        assert(self@.channels[chi - FIRST_CHANNEL].1 == ch);
                    }
                }
                None
            },
        }
    }
}

/// What the allocation `a` unwraps from a datagram `packet` that came from
/// `from`: the peer on the channel, the data, and our relayed address. None
/// where it is not channel-data from the server on a bound channel, or no
/// relayed address is known.
pub open spec fn unwrapped(a: AllocView, from: SocketAddress, packet: Seq<u8>) -> Option<(SocketAddress, Seq<u8>, SocketAddress)> {
    let ch = channel_data::be16(packet, 0);
    if from == a.server && channel_data::is_channel_data(packet) && a.relayed is Some
        && FIRST_CHANNEL <= ch && ch - FIRST_CHANNEL < a.channels.len() {
        Some((
            a.channels[ch - FIRST_CHANNEL].0,
            packet.subrange(4, 4 + channel_data::be16(packet, 2)),
            a.relayed.unwrap(),
        ))
    } else {
        None
    }
}

/// The relay whose relayed address is `socket`, the first one.
pub open spec fn relay_with_socket_spec(relays: Seq<(u64, AllocView)>, socket: SocketAddress) -> Option<u64>
    decreases relays.len(),
{
    if relays.len() == 0 {
        None
    } else if relays[0].1.relayed == Some(socket) {
        Some(relays[0].0)
    } else {
        relay_with_socket_spec(relays.drop_first(), socket)
    }
}

/// The allocations of a node, by relay ID.
pub struct Allocations {
    entries: Vec<(u64, Allocation)>,
}

pub open spec fn ids_unique(s: Seq<(u64, AllocView)>) -> bool {
    forall|i: int, j: int|
        0 <= i < s.len() && 0 <= j < s.len() && i != j ==> (#[trigger] s[i]).0 != (#[trigger] s[j]).0
}

/// The index of relay `id` in `s`, if it is there.
pub open spec fn index_of(s: Seq<(u64, AllocView)>, id: u64) -> Option<int> {
    if exists|i: int| 0 <= i < s.len() && (#[trigger] s[i]).0 == id {
        Some(choose|i: int| 0 <= i < s.len() && (#[trigger] s[i]).0 == id)
    } else {
        None
    }
}

proof fn lemma_index_of(s: Seq<(u64, AllocView)>, id: u64)
    ensures
        match index_of(s, id) {
            Some(i) => 0 <= i < s.len() && s[i].0 == id,
            None => forall|j: int| 0 <= j < s.len() ==> (#[trigger] s[j]).0 != id,
        },
{
}

/// Where `index_of` finds relay `id`, it is there.
pub proof fn lemma_index_of_pub(s: Seq<(u64, AllocView)>, id: u64)
    ensures
        match index_of(s, id) {
            Some(i) => 0 <= i < s.len() && s[i].0 == id,
            None => forall|j: int| 0 <= j < s.len() ==> (#[trigger] s[j]).0 != id,
        },
{
}

/// The allocation that relay `c` gets: the existing one with the server
/// and credentials as given now, or a new one.
pub open spec fn upserted(s: Seq<(u64, AllocView)>, c: (u64, SocketAddress, Seq<char>, Seq<char>, Seq<char>)) -> Seq<(u64, AllocView)> {
    match index_of(s, c.0) {
        Some(i) => s.update(i, (c.0, AllocView { server: c.1, username: c.2, password: c.3, realm: c.4, ..s[i].1 })),
        None => s.push((c.0, AllocView {
            server: c.1,
            username: c.2,
            password: c.3,
            realm: c.4,
            relayed: None,
            server_reflexive: None,
            channels: Seq::empty(),
        })),
    }
}

pub open spec fn config_view(c: RelayConfig) -> (u64, SocketAddress, Seq<char>, Seq<char>, Seq<char>) {
    (c.id, c.server, c.username@, c.password@, c.realm@)
}

/// The allocations after the relays in `to_add` were upserted in order,
/// skipping those with an invalid username or realm.
pub open spec fn upserted_all(s: Seq<(u64, AllocView)>, to_add: Seq<(u64, SocketAddress, Seq<char>, Seq<char>, Seq<char>)>) -> Seq<(u64, AllocView)>
    decreases to_add.len(),
{
    if to_add.len() == 0 {
        s
    } else {
        let prev = upserted_all(s, to_add.drop_last());
        let c = to_add.last();
        if valid_username(c.2) && valid_realm(c.4) {
            upserted(prev, c)
        } else {
            prev
        }
    }
}

/// The allocations without relay `id`.
pub open spec fn removed(s: Seq<(u64, AllocView)>, id: u64) -> Seq<(u64, AllocView)> {
    match index_of(s, id) {
        Some(i) => s.remove(i),
        None => s,
    }
}

pub open spec fn removed_all(s: Seq<(u64, AllocView)>, ids: Seq<u64>) -> Seq<(u64, AllocView)>
    decreases ids.len(),
{
    if ids.len() == 0 {
        s
    } else {
        removed(removed_all(s, ids.drop_last()), ids.last())
    }
}

/// What updating the relays does: first remove, then upsert.
pub open spec fn relays_updated(
    s: Seq<(u64, AllocView)>,
    to_remove: Seq<u64>,
    to_add: Seq<(u64, SocketAddress, Seq<char>, Seq<char>, Seq<char>)>,
) -> Seq<(u64, AllocView)> {
    upserted_all(removed_all(s, to_remove), to_add)
}

proof fn lemma_upserted_unique(s: Seq<(u64, AllocView)>, c: (u64, SocketAddress, Seq<char>, Seq<char>, Seq<char>))
    requires
        ids_unique(s),
    ensures
        ids_unique(upserted(s, c)),
        index_of(upserted(s, c), c.0).is_some(),
        upserted(s, c)[index_of(upserted(s, c), c.0).unwrap()].1.username == c.2,
        upserted(s, c)[index_of(upserted(s, c), c.0).unwrap()].1.password == c.3,
        upserted(s, c)[index_of(upserted(s, c), c.0).unwrap()].1.realm == c.4,
{
    let u = upserted(s, c);
    match index_of(s, c.0) {
        Some(i) => {
            assert(u[i].0 == c.0);
        },
        None => {
            assert(u[s.len() as int].0 == c.0);
        },
    }
    let k = index_of(u, c.0).unwrap();
    assert(u[k].0 == c.0);
    match index_of(s, c.0) {
        Some(i) => assert(k == i),
        None => assert(k == s.len()),
    }
}

/// Upserting the same relay twice does what upserting it once does: the
/// credentials are refreshed and no allocation is added.
pub proof fn lemma_upsert_idempotent(s: Seq<(u64, AllocView)>, c: (u64, SocketAddress, Seq<char>, Seq<char>, Seq<char>))
    requires
        ids_unique(s),
    ensures
        upserted(upserted(s, c), c) == upserted(s, c),
{
    lemma_upserted_unique(s, c);
    let u = upserted(s, c);
    let k = index_of(u, c.0).unwrap();
    assert(upserted(u, c) =~= u);
}

/// Updating the relays with nothing to remove and one relay to add, twice,
/// has the effect of doing it once.
pub proof fn lemma_update_relays_idempotent(s: Seq<(u64, AllocView)>, c: (u64, SocketAddress, Seq<char>, Seq<char>, Seq<char>))
    requires
        ids_unique(s),
    ensures
        relays_updated(relays_updated(s, Seq::empty(), seq![c]), Seq::empty(), seq![c]) == relays_updated(s, Seq::empty(), seq![c]),
{
    let once = relays_updated(s, Seq::empty(), seq![c]);
    let one = seq![c];
    assert(one.drop_last() =~= Seq::<(u64, SocketAddress, Seq<char>, Seq<char>, Seq<char>)>::empty());
    assert(one.last() == c);
    assert(removed_all(s, Seq::empty()) == s);
    assert(removed_all(once, Seq::empty()) == once);
    assert(upserted_all(s, Seq::empty()) == s);
    assert(upserted_all(once, Seq::empty()) == once);
    assert(upserted_all(s, one) == if valid_username(c.2) && valid_realm(c.4) { upserted(s, c) } else { s });
    assert(upserted_all(once, one) == if valid_username(c.2) && valid_realm(c.4) { upserted(once, c) } else { once });
    if valid_username(c.2) && valid_realm(c.4) {
        assert(once == upserted(s, c));
        lemma_upsert_idempotent(s, c);
    } else {
        assert(once == s);
    }
}

pub open spec fn entries_view(s: Seq<(u64, Allocation)>) -> Seq<(u64, AllocView)> {
    s.map_values(|e: (u64, Allocation)| (e.0, e.1@))
}

proof fn lemma_replace_at(s: Seq<(u64, Allocation)>, i: int, x: (u64, Allocation))
    requires
        0 <= i < s.len(),
    ensures
        s.remove(i).insert(i, x) == s.update(i, x),
        entries_view(s.update(i, x)) == entries_view(s).update(i, (x.0, x.1@)),
{
    assert(s.remove(i).insert(i, x) =~= s.update(i, x));
    assert(entries_view(s.update(i, x)) =~= entries_view(s).update(i, (x.0, x.1@)));
}

impl View for Allocations {
    type V = Seq<(u64, AllocView)>;

    closed spec fn view(&self) -> Seq<(u64, AllocView)> {
        entries_view(self.entries@)
    }
}

impl Allocations {
    pub closed spec fn wf(&self) -> bool {
        &&& ids_unique(self@)
        &&& forall|i: int| 0 <= i < self.entries@.len() ==> (#[trigger] self.entries@[i]).1.wf()
    }

    /// Relay IDs are unique.
    pub proof fn lemma_ids_unique(&self)
        requires
            self.wf(),
        ensures
            ids_unique(self@),
    {
    }

    pub fn new() -> (r: Self)
        ensures
            r.wf(),
            r@ == Seq::<(u64, AllocView)>::empty(),
    {
        let r = Allocations { entries: Vec::new() };
        assert(r@ =~= Seq::<(u64, AllocView)>::empty());
        r
    }

    pub fn len(&self) -> (r: usize)
        ensures
            r == self@.len(),
    {
        self.entries.len()
    }

    /// The relay ID and allocation at position `i`.
    pub fn get(&self, i: usize) -> (r: (u64, &Allocation))
        requires
            self.wf(),
            i < self@.len(),
        ensures
            r.0 == self@[i as int].0,
            r.1@ == self@[i as int].1,
            r.1.wf(),
    {
        (self.entries[i].0, &self.entries[i].1)
    }

    pub fn clear(&mut self)
        ensures
            final(self).wf(),
            final(self)@ == Seq::<(u64, AllocView)>::empty(),
    {
        self.entries.clear();
        assert(self@ =~= Seq::<(u64, AllocView)>::empty());
    }

    /// The position of relay `id`.
    pub fn position(&self, id: u64) -> (r: Option<usize>)
        requires
            self.wf(),
        ensures
            match r {
                Some(i) => index_of(self@, id) == Some(i as int),
                None => index_of(self@, id).is_none(),
            },
    {
        let mut i: usize = 0;
        while i < self.entries.len()
            invariant
                self.wf(),
                0 <= i <= self.entries@.len(),
                forall|j: int| 0 <= j < i ==> (#[trigger] self@[j]).0 != id,
            decreases self.entries@.len() - i,
        {
            if self.entries[i].0 == id {
                proof {
                    assert(self@[i as int].0 == id);
                    let k = choose|k: int| 0 <= k < self@.len() && (#[trigger] self@[k]).0 == id;
                    assert(k == i);
                }
                return Some(i);
            }
            i += 1;
        }
        proof {
            lemma_index_of(self@, id);
        }
        None
    }

    /// The relay whose relayed address is `socket`.
    pub fn relay_with_socket(&self, socket: SocketAddress) -> (r: Option<u64>)
        ensures
            r == relay_with_socket_spec(self@, socket),
    {
        let mut i: usize = 0;
        proof {
            assert(self@.subrange(0, self@.len() as int) =~= self@);
        }
        while i < self.entries.len()
            invariant
                0 <= i <= self.entries@.len(),
                relay_with_socket_spec(self@, socket) == relay_with_socket_spec(self@.subrange(i as int, self@.len() as int), socket),
            decreases self.entries@.len() - i,
        {
            let ghost rest = self@.subrange(i as int, self@.len() as int);
            proof {
                assert(rest.drop_first() =~= self@.subrange(i + 1, self@.len() as int));
                assert(rest[0] == self@[i as int]);
            }
            if self.entries[i].1.has_socket(socket) {
                return Some(self.entries[i].0);
            }
            i += 1;
        }
        proof {
            assert(self@.subrange(i as int, self@.len() as int) =~= Seq::<(u64, AllocView)>::empty());
        }
        None
    }

    /// The position of the first allocation whose server is `from`.
    pub fn position_of_server(&self, from: SocketAddress) -> (r: Option<usize>)
        ensures
            match r {
                Some(i) => i < self@.len() && self@[i as int].1.server == from
                    && forall|k: int| 0 <= k < i ==> (#[trigger] self@[k]).1.server != from,
                None => forall|i: int| 0 <= i < self@.len() ==> (#[trigger] self@[i]).1.server != from,
            },
    {
        let mut i: usize = 0;
        while i < self.entries.len()
            invariant
                0 <= i <= self.entries@.len(),
                forall|j: int| 0 <= j < i ==> (#[trigger] self@[j]).1.server != from,
            decreases self.entries@.len() - i,
        {
            if self.entries[i].1.server() == from {
                return Some(i);
            }
            i += 1;
        }
        None
    }

    /// Binds a channel to `peer` on the allocation at position `i`.
    pub fn bind_channel_at(&mut self, i: usize, peer: SocketAddress)
        requires
            old(self).wf(),
            i < old(self)@.len(),
        ensures
            final(self).wf(),
            final(self)@.len() == old(self)@.len(),
            forall|j: int| 0 <= j < old(self)@.len() && j != i ==> #[trigger] final(self)@[j] == old(self)@[j],
            final(self)@[i as int] == with_channel(old(self)@[i as int], peer),
    {
        let (id, mut a) = self.entries.remove(i);
        a.bind_channel(peer);
        self.entries.insert(i, (id, a));
        proof {
            assert forall|a: int, b: int|
                0 <= a < self@.len() && 0 <= b < self@.len() && a != b implies (#[trigger] self@[a]).0
                != (#[trigger] self@[b]).0 by {
                assert(self@[a].0 == old(self)@[a].0);
                assert(self@[b].0 == old(self)@[b].0);
            }
            assert forall|j: int| 0 <= j < self.entries@.len() implies (#[trigger] self.entries@[j]).1.wf() by {
                if j != i {
                    assert(self.entries@[j] == old(self).entries@[j]);
                }
            }
        }
    }

    /// Records the addresses the server of relay `id` gave us.
    pub fn set_addresses(&mut self, id: u64, server_reflexive: Option<SocketAddress>, relayed: Option<SocketAddress>)
        requires
            old(self).wf(),
        ensures
            final(self).wf(),
            final(self)@.len() == old(self)@.len(),
            match index_of(old(self)@, id) {
                Some(i) => final(self)@ == old(self)@.update(
                    i,
                    (id, AllocView { server_reflexive, relayed, ..old(self)@[i].1 }),
                ),
                None => final(self)@ == old(self)@,
            },
    {
        match self.position(id) {
            Some(i) => {
                let (k, mut a) = self.entries.remove(i);
                a.set_addresses(server_reflexive, relayed);
                self.entries.insert(i, (k, a));
                proof {
                    lemma_index_of(old(self)@, id);
                    lemma_replace_at(old(self).entries@, i as int, (k, a));
                    assert(self@ =~= old(self)@.update(
                        i as int,
                        (id, AllocView { server_reflexive, relayed, ..old(self)@[i as int].1 }),
                    ));
                    assert forall|j: int| 0 <= j < self.entries@.len() implies (#[trigger] self.entries@[j]).1.wf() by {
                        if j != i {
                            assert(self.entries@[j] == old(self).entries@[j]);
                        }
                    }
                    assert forall|a: int, b: int|
                        0 <= a < self@.len() && 0 <= b < self@.len() && a != b implies (#[trigger] self@[a]).0
                        != (#[trigger] self@[b]).0 by {
                        assert(self@[a].0 == old(self)@[a].0);
                        assert(self@[b].0 == old(self)@[b].0);
                    }
                }
            },
            None => {},
        }
    }

    /// Removes relay `id`, giving back its allocation.
    pub fn remove(&mut self, id: u64) -> (r: Option<Allocation>)
        requires
            old(self).wf(),
        ensures
            final(self).wf(),
            final(self)@ == removed(old(self)@, id),
            match index_of(old(self)@, id) {
                Some(i) => r.is_some() && r->0@ == old(self)@[i].1,
                None => r.is_none(),
            },
    {
        match self.position(id) {
            Some(i) => {
                let (_, a) = self.entries.remove(i);
                proof {
                    lemma_index_of(old(self)@, id);
                    assert(index_of(old(self)@, id) == Some(i as int));
                    assert(self.entries@ == old(self).entries@.remove(i as int));
                    assert(self@.len() == old(self)@.len() - 1);
                    assert forall|j: int| 0 <= j < self@.len() implies #[trigger] self@[j] == old(self)@.remove(i as int)[j] by {
                        if j < i {
                            assert(self.entries@[j] == old(self).entries@[j]);
                        } else {
                            assert(self.entries@[j] == old(self).entries@[j + 1]);
                        }
                    }
                    assert(self@ =~= old(self)@.remove(i as int));
                    assert forall|j: int| 0 <= j < self.entries@.len() implies (#[trigger] self.entries@[j]).1.wf() by {
                        if j < i {
                            assert(self.entries@[j] == old(self).entries@[j]);
                        } else {
                            assert(self.entries@[j] == old(self).entries@[j + 1]);
                        }
                    }
                    assert forall|a: int, b: int|
                        0 <= a < self@.len() && 0 <= b < self@.len() && a != b implies (#[trigger] self@[a]).0
                        != (#[trigger] self@[b]).0 by {
                        let a2 = if a < i { a } else { a + 1 };
                        let b2 = if b < i { b } else { b + 1 };
                        assert(self@[a] == old(self)@[a2]);
                        assert(self@[b] == old(self)@[b2]);
                    }
                }
                Some(a)
            },
            None => {
                proof {
                    lemma_index_of(old(self)@, id);
                    assert(index_of(old(self)@, id).is_none());
                }
                None
            },
        }
    }

    /// Adds relay `c`, or refreshes the credentials of the allocation that
    /// it already has; a relay with an invalid username or realm is skipped.
    pub fn upsert(&mut self, c: &RelayConfig)
        requires
            old(self).wf(),
        ensures
            final(self).wf(),
            final(self)@ == if valid_username(c.username@) && valid_realm(c.realm@) {
                upserted(old(self)@, config_view(*c))
            } else {
                old(self)@
            },
    {
        if !username_is_valid(&c.username) || !realm_is_valid(&c.realm) {
            return;
        }
        proof {
            lemma_upserted_unique(self@, config_view(*c));
        }
        match self.position(c.id) {
            Some(i) => {
                let (k, mut a) = self.entries.remove(i);
                a.update_credentials(c.server, c.username.clone(), c.password.clone(), c.realm.clone());
                self.entries.insert(i, (k, a));
                proof {
                    lemma_index_of(old(self)@, c.id);
                    assert(index_of(old(self)@, c.id) == Some(i as int));
                    assert(k == c.id);
                    lemma_replace_at(old(self).entries@, i as int, (k, a));
                    assert(self@ =~= upserted(old(self)@, config_view(*c)));
                    assert forall|j: int| 0 <= j < self.entries@.len() implies (#[trigger] self.entries@[j]).1.wf() by {
                        if j != i {
                            assert(self.entries@[j] == old(self).entries@[j]);
                        }
                    }
                }
            },
            None => {
                let a = Allocation::new(c.server, c.username.clone(), c.password.clone(), c.realm.clone());
                self.entries.push((c.id, a));
                proof {
                    lemma_index_of(old(self)@, c.id);
                    assert(index_of(old(self)@, c.id).is_none());
                    assert(self@ =~= upserted(old(self)@, config_view(*c)));
                    assert forall|j: int| 0 <= j < self.entries@.len() implies (#[trigger] self.entries@[j]).1.wf() by {
                        if j < old(self).entries@.len() {
                            assert(self.entries@[j] == old(self).entries@[j]);
                        }
                    }
                }
            },
        }
    }

    /// Removes the relays `to_remove`, then adds or refreshes those of
    /// `to_add`, in order. Gives back the removed allocations.
    pub fn update(&mut self, to_remove: &Vec<u64>, to_add: &Vec<RelayConfig>) -> (gone: Vec<(u64, Allocation)>)
        requires
            old(self).wf(),
        ensures
            final(self).wf(),
            final(self)@ == relays_updated(old(self)@, to_remove@, configs_view(to_add@)),
    {
        let mut gone: Vec<(u64, Allocation)> = Vec::new();
        let mut i: usize = 0;
        while i < to_remove.len()
            invariant
                self.wf(),
                0 <= i <= to_remove@.len(),
                self@ == removed_all(old(self)@, to_remove@.subrange(0, i as int)),
            decreases to_remove@.len() - i,
        {
            let id = to_remove[i];
            match self.remove(id) {
                Some(a) => gone.push((id, a)),
                None => {},
            }
            proof {
                let next = to_remove@.subrange(0, i + 1);
                assert(next.drop_last() =~= to_remove@.subrange(0, i as int));
                assert(next.last() == id);
            }
            i += 1;
        }
        proof {
            assert(to_remove@.subrange(0, to_remove@.len() as int) =~= to_remove@);
        }
        let ghost base = self@;
        let ghost all = configs_view(to_add@);
        let mut j: usize = 0;
        proof {
            assert(all.subrange(0, 0) =~= Seq::<(u64, SocketAddress, Seq<char>, Seq<char>, Seq<char>)>::empty());
        }
        while j < to_add.len()
            invariant
                self.wf(),
                0 <= j <= to_add@.len(),
                all == configs_view(to_add@),
                self@ == upserted_all(base, all.subrange(0, j as int)),
            decreases to_add@.len() - j,
        {
            self.upsert(&to_add[j]);
            proof {
                let next = all.subrange(0, j + 1);
                assert(next.drop_last() =~= all.subrange(0, j as int));
                assert(next.last() == config_view(to_add@[j as int]));
            }
            j += 1;
        }
        proof {
            assert(all.subrange(0, all.len() as int) =~= all);
        }
        gone
    }
}

pub open spec fn configs_view(s: Seq<RelayConfig>) -> Seq<(u64, SocketAddress, Seq<char>, Seq<char>, Seq<char>)> {
    s.map_values(|c: RelayConfig| config_view(c))
}

} // verus!
