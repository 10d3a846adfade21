use vstd::prelude::*;

verus! {

/// An IP address: IPv4 as its 32 bits, IPv6 as its 128 bits.
#[derive(Debug, Clone, Copy, PartialEq, Eq, Hash, Structural)]
pub enum IpAddress {
    V4(u32),
    V6(u128),
}

/// An IP address and a UDP port.
#[derive(Debug, Clone, Copy, PartialEq, Eq, Hash, Structural)]
pub struct SocketAddress {
    pub ip: IpAddress,
    pub port: u16,
}

impl SocketAddress {
    pub fn new(ip: IpAddress, port: u16) -> (r: Self)
        ensures
            r.ip == ip,
            r.port == port,
    {
        SocketAddress { ip, port }
    }
}

/// A datagram to send: from `src` (or any local socket), to `dst`.
#[derive(Debug, Clone, PartialEq, Eq)]
pub struct Transmit {
    pub src: Option<SocketAddress>,
    pub dst: SocketAddress,
    pub payload: Vec<u8>,
}

/// A copy of `s`.
pub fn copy_bytes(s: &[u8]) -> (r: Vec<u8>)
    ensures
        r@ == s@,
{
    let mut r: Vec<u8> = Vec::with_capacity(s.len());
    let mut i: usize = 0;
    while i < s.len()
        invariant
            0 <= i <= s@.len(),
            r@ == s@.subrange(0, i as int),
        decreases s@.len() - i,
    {
        r.push(s[i]);
        i += 1;
        proof {
            assert(s@.subrange(0, i as int) =~= s@.subrange(0, i - 1).push(s@[i - 1]));
        }
    }
    proof {
        assert(s@.subrange(0, s@.len() as int) =~= s@);
    }
    r
}

impl Transmit {
    /// The datagram as an owned value; it always is one.
    pub fn into_owned(self) -> (r: Transmit)
        ensures
            r == self,
    {
        self
    }
}

/// What the first byte of an inbound datagram suggests it is.
#[derive(Debug, Clone, Copy, PartialEq, Eq, Structural)]
pub enum PacketClass {
    /// 0..=3: a STUN message.
    Stun,
    /// 64..=79: a TURN channel-data message.
    ChannelData,
    /// Anything else, such as WireGuard.
    Other,
}

pub open spec fn class_of(packet: Seq<u8>) -> PacketClass {
    if packet.len() == 0 {
        PacketClass::Other
    } else if packet[0] <= 3 {
        PacketClass::Stun
    } else if 64 <= packet[0] <= 79 {
        PacketClass::ChannelData
    } else {
        PacketClass::Other
    }
}

/// Classifies a datagram by its first byte.
///
/// This is a heuristic only: WireGuard traffic is encrypted and may start
/// with any byte, so the sender's address must be checked as well.
pub fn classify(packet: &[u8]) -> (r: PacketClass)
    ensures
        r == class_of(packet@),
{
    if packet.len() == 0 {
        return PacketClass::Other;
    }
    let b = packet[0];
    if b <= 3 {
        PacketClass::Stun
    } else if 64 <= b && b <= 79 {
        PacketClass::ChannelData
    } else {
        PacketClass::Other
    }
}

} // verus!
