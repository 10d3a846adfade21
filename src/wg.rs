use vstd::prelude::*;

use std::sync::Arc;

use boringtun::noise::errors::WireGuardError;
use boringtun::noise::rate_limiter::RateLimiter;
use boringtun::noise::{Tunn, TunnResult};

verus! {

#[verifier::external_type_specification]
#[verifier::external_body]
pub struct ExTunn(Tunn);

#[verifier::external_type_specification]
#[verifier::external_body]
pub struct ExRateLimiter(RateLimiter);

/// The largest WireGuard handshake message.
pub const MAX_HANDSHAKE_SIZE: usize = 148;

/// How many bytes WireGuard adds to a data packet.
pub const DATA_OVERHEAD: usize = 32;

/// The largest IP packet the tunnels are given.
pub const MAX_PACKET: usize = 65_535;

/// A buffer that holds any decrypted packet, and any packet the tunnel
/// queued and encrypts when drained.
pub const DECAPSULATE_BUFFER: usize = 65_567;

/// What a WireGuard tunnel asks for after a call.
#[derive(Debug, Clone, PartialEq, Eq)]
pub enum WgOutput {
    Done,
    /// The tunnel's session has expired.
    Expired,
    /// Any other WireGuard error.
    Failed,
    /// Bytes to send to the peer.
    Network(Vec<u8>),
    /// A decrypted IPv4 packet.
    TunnelV4(Vec<u8>),
    /// A decrypted IPv6 packet.
    TunnelV6(Vec<u8>),
}

pub uninterp spec fn x25519_public_key(private_key: Seq<u8>) -> Seq<u8>;

/// Relies on x25519's `PublicKey::from(&StaticSecret)`, re-exported by
/// boringtun: the public key of a private key, a function of its bytes.
#[verifier::external_body]
pub(crate) fn public_key_of(private_key: [u8; 32]) -> (r: [u8; 32])
    ensures
        r@ == x25519_public_key(private_key@),
{
    let secret = boringtun::x25519::StaticSecret::from(private_key);
    boringtun::x25519::PublicKey::from(&secret).to_bytes()
}

/// Relies on boringtun's `RateLimiter::new`: a handshake rate limiter for
/// the given public key, allowing `limit` handshakes between resets.
#[verifier::external_body]
pub(crate) fn new_rate_limiter(public_key: [u8; 32], limit: u64) -> (r: Arc<RateLimiter>) {
    Arc::new(RateLimiter::new(&boringtun::x25519::PublicKey::from(public_key), limit))
}

/// Relies on boringtun's `RateLimiter::reset_count`: starts a new counting
/// period.
#[verifier::external_body]
pub(crate) fn reset_rate_limiter(limiter: &RateLimiter) {
    limiter.reset_count()
}

/// Relies on boringtun's `Tunn::new`: a tunnel to `peer_public_key`, with the
/// preshared session key, keep-alive in seconds, session index and the
/// shared rate limiter. Its only error comes from the noise parameters,
/// whose construction always succeeds, so there is always a tunnel.
#[verifier::external_body]
pub(crate) fn new_tunnel(
    private_key: [u8; 32],
    peer_public_key: [u8; 32],
    preshared_key: [u8; 32],
    keep_alive: u16,
    index: u32,
    limiter: &Arc<RateLimiter>,
) -> (r: Option<Tunn>)
    ensures
        r.is_some(),
{
    Tunn::new(
        boringtun::x25519::StaticSecret::from(private_key),
        boringtun::x25519::PublicKey::from(peer_public_key),
        Some(preshared_key),
        Some(keep_alive),
        index,
        Some(limiter.clone()),
    ).ok()
}

/// Relies on boringtun's `Tunn::encapsulate`: encrypts an IP packet, or
/// queues it and starts a handshake. It never yields a decrypted packet.
/// It panics on a buffer shorter than the packet and its overhead; packets
/// are kept to `MAX_PACKET` so that draining the queue fits in
/// `DECAPSULATE_BUFFER`.
#[verifier::external_body]
pub(crate) fn encapsulate(tunnel: &mut Tunn, packet: &[u8], buf: &mut Vec<u8>) -> (r: WgOutput)
    requires
        packet@.len() <= MAX_PACKET,
        old(buf)@.len() >= packet@.len() + DATA_OVERHEAD,
        old(buf)@.len() >= MAX_HANDSHAKE_SIZE,
    ensures
        !(r is TunnelV4),
        !(r is TunnelV6),
        final(buf)@.len() == old(buf)@.len(),
{
    match tunnel.encapsulate(packet, buf.as_mut_slice()) {
        TunnResult::Done => WgOutput::Done,
        TunnResult::Err(WireGuardError::ConnectionExpired) => WgOutput::Expired,
        TunnResult::Err(_) => WgOutput::Failed,
        TunnResult::WriteToNetwork(p) => WgOutput::Network(p.to_vec()),
        TunnResult::WriteToTunnelV4(p, _) => WgOutput::TunnelV4(p.to_vec()),
        TunnResult::WriteToTunnelV6(p, _) => WgOutput::TunnelV6(p.to_vec()),
    }
}

/// Relies on boringtun's `Tunn::decapsulate`: handles a datagram from the
/// peer; an empty datagram asks for the packets that are still queued. It
/// panics on a buffer shorter than the ciphertext, than a cookie reply (64
/// bytes), or than a queued packet with its overhead; queued packets come
/// from `encapsulate`, so they are at most `MAX_PACKET` bytes.
#[verifier::external_body]
pub(crate) fn decapsulate(tunnel: &mut Tunn, datagram: &[u8], buf: &mut Vec<u8>) -> (r: WgOutput)
    requires
        old(buf)@.len() >= DECAPSULATE_BUFFER,
        datagram@.len() <= MAX_PACKET,
    ensures
        final(buf)@.len() == old(buf)@.len(),
{
    match tunnel.decapsulate(None, datagram, buf.as_mut_slice()) {
        TunnResult::Done => WgOutput::Done,
        TunnResult::Err(WireGuardError::ConnectionExpired) => WgOutput::Expired,
        TunnResult::Err(_) => WgOutput::Failed,
        TunnResult::WriteToNetwork(p) => WgOutput::Network(p.to_vec()),
        TunnResult::WriteToTunnelV4(p, _) => WgOutput::TunnelV4(p.to_vec()),
        TunnResult::WriteToTunnelV6(p, _) => WgOutput::TunnelV6(p.to_vec()),
    }
}

/// Relies on boringtun's `Tunn::update_timers`: keep-alives, rekeys and
/// session expiry, going by the clock.
#[verifier::external_body]
pub(crate) fn update_timers(tunnel: &mut Tunn, buf: &mut Vec<u8>) -> (r: WgOutput)
    requires
        old(buf)@.len() >= MAX_HANDSHAKE_SIZE,
    ensures
        final(buf)@.len() == old(buf)@.len(),
{
    match tunnel.update_timers(buf.as_mut_slice()) {
        TunnResult::Done => WgOutput::Done,
        TunnResult::Err(WireGuardError::ConnectionExpired) => WgOutput::Expired,
        TunnResult::Err(_) => WgOutput::Failed,
        TunnResult::WriteToNetwork(p) => WgOutput::Network(p.to_vec()),
        TunnResult::WriteToTunnelV4(p, _) => WgOutput::TunnelV4(p.to_vec()),
        TunnResult::WriteToTunnelV6(p, _) => WgOutput::TunnelV6(p.to_vec()),
    }
}

/// Relies on boringtun's `Tunn::format_handshake_initiation` without forcing
/// a resend: a new handshake initiation unless one is under way, in which
/// case `Done`.
#[verifier::external_body]
pub(crate) fn format_handshake_initiation(tunnel: &mut Tunn, buf: &mut Vec<u8>) -> (r: WgOutput)
    requires
        old(buf)@.len() >= MAX_HANDSHAKE_SIZE,
    ensures
        !(r is TunnelV4),
        !(r is TunnelV6),
        final(buf)@.len() == old(buf)@.len(),
{
    match tunnel.format_handshake_initiation(buf.as_mut_slice(), false) {
        TunnResult::Done => WgOutput::Done,
        TunnResult::Err(WireGuardError::ConnectionExpired) => WgOutput::Expired,
        TunnResult::Err(_) => WgOutput::Failed,
        TunnResult::WriteToNetwork(p) => WgOutput::Network(p.to_vec()),
        TunnResult::WriteToTunnelV4(p, _) => WgOutput::TunnelV4(p.to_vec()),
        TunnResult::WriteToTunnelV6(p, _) => WgOutput::TunnelV6(p.to_vec()),
    }
}

/// Relies on boringtun's `Tunn::time_since_last_handshake`: whether the
/// tunnel has a current session, that is a completed handshake.
#[verifier::external_body]
pub(crate) fn handshake_complete(tunnel: &Tunn) -> (r: bool) {
    tunnel.time_since_last_handshake().is_some()
}

} // verus!
