use snownet::allocation::RelayConfig;
use snownet::channel_data;
use snownet::connection::{Candidate, CandidateKind, ConnectionState, IceEvent, PeerSocket, MAX_BUFFERED};
use snownet::net::{classify, IpAddress, PacketClass, SocketAddress};
use snownet::node::{Client, Credentials, Error, Event, Inbound, Node, Offer, Server};

fn addr(last: u32, port: u16) -> SocketAddress {
    SocketAddress::new(IpAddress::V4(0x0a00_0000 + last), port)
}

fn offer() -> Offer {
    Offer {
        session_key: [7u8; 32],
        credentials: Credentials { username: "ufrag".to_owned(), password: "password".to_owned() },
    }
}

fn drain_events<T>(node: &mut Node<T>) -> Vec<Event> {
    let mut events = Vec::new();
    while let Some(e) = node.poll_event() {
        events.push(e);
    }
    events
}

/// A minimal IPv4 packet of `len` bytes (at least 20) whose header gives
/// that length.
fn ipv4_packet(len: usize) -> Vec<u8> {
    let mut p = vec![0u8; len];
    p[0] = 0x45;
    p[2] = (len >> 8) as u8;
    p[3] = (len & 0xff) as u8;
    p[8] = 64;
    p[9] = 17;
    p[12..16].copy_from_slice(&[10, 0, 0, 1]);
    p[16..20].copy_from_slice(&[10, 0, 0, 2]);
    for (i, b) in p.iter_mut().enumerate().skip(20) {
        *b = i as u8;
    }
    p
}

#[test]
fn host_candidate_is_signalled_once_per_connection() {
    let peer = Node::<Client>::new([2u8; 32]).public_key();
    let mut node = Node::<Server>::new([1u8; 32]);
    let _ = node.accept_connection(1, offer(), peer, 0);
    let _ = node.accept_connection(2, offer(), peer, 0);
    assert!(drain_events(&mut node).is_empty());

    let host = addr(5, 4000);
    node.add_local_host_candidate(host).unwrap();
    let candidate = Candidate { kind: CandidateKind::Host, addr: host };
    assert_eq!(
        drain_events(&mut node),
        vec![
            Event::NewIceCandidate { connection: 1, candidate },
            Event::NewIceCandidate { connection: 2, candidate },
        ]
    );

    node.add_local_host_candidate(host).unwrap();
    assert!(drain_events(&mut node).is_empty());

    // A connection made later is seeded with the host candidate.
    let _ = node.accept_connection(3, offer(), peer, 0);
    assert_eq!(drain_events(&mut node), vec![Event::NewIceCandidate { connection: 3, candidate }]);
}

#[test]
fn reset_closes_every_connection() {
    let peer = Node::<Server>::new([2u8; 32]).public_key();
    let mut node = Node::<Client>::new([1u8; 32]);
    let _ = node.new_connection(1, 0, 0);
    let _ = node.new_connection(2, 0, 0);
    node.add_local_host_candidate(addr(5, 4000)).unwrap();
    node.accept_answer(2, peer, snownet::node::Answer { credentials: offer().credentials }, 0);
    let _ = drain_events(&mut node);

    node.reset();
    assert_eq!(
        drain_events(&mut node),
        vec![Event::ConnectionClosed(1), Event::ConnectionClosed(2)]
    );
    assert!(node.poll_event().is_none());
    assert!(!node.is_expecting_answer(1));
    assert!(node.poll_timeout().is_none());
}

#[test]
fn nomination_flushes_buffered_packets_in_order() {
    let mut state = ConnectionState::new();
    let a = addr(1, 1000);
    let b = addr(2, 2000);
    state.buffer_packet(vec![1]);
    state.buffer_packet(vec![2, 2]);
    state.buffer_packet(vec![3, 3, 3]);

    let (flushed, force_handshake) = state.nominate(PeerSocket::Direct { source: a, dest: b });
    assert_eq!(flushed, vec![vec![1], vec![2, 2], vec![3, 3, 3]]);
    assert!(force_handshake);
    assert_eq!(state.socket(), Some(PeerSocket::Direct { source: a, dest: b }));
    assert!(state.accepts(b));
    assert!(!state.accepts(a));

    // The same nomination again changes nothing.
    let (flushed, force_handshake) = state.nominate(PeerSocket::Direct { source: a, dest: b });
    assert!(flushed.is_empty());
    assert!(!force_handshake);

    let (_, force_handshake) = state.nominate(PeerSocket::Relay { relay: 4, dest: b });
    assert!(force_handshake);
}

#[test]
fn buffer_drops_the_oldest_beyond_its_capacity() {
    let mut state = ConnectionState::new();
    for i in 0..(MAX_BUFFERED + 1) {
        state.buffer_packet(vec![i as u8]);
    }
    let (flushed, _) = state.nominate(PeerSocket::Direct { source: addr(1, 1), dest: addr(2, 2) });
    assert_eq!(flushed.len(), MAX_BUFFERED);
    assert_eq!(flushed[0], vec![1]);
    assert_eq!(flushed[MAX_BUFFERED - 1], vec![MAX_BUFFERED as u8]);
}

#[test]
fn connecting_state_accepts_discovered_sockets_only() {
    let mut state = ConnectionState::new();
    let c = addr(3, 3000);
    assert!(!state.accepts(c));
    state.add_possible_socket(c);
    assert!(state.accepts(c));
    assert!(!state.is_failed());
    assert!(!state.is_idle());
}

#[test]
fn connection_without_candidates_fails_after_ten_seconds() {
    let peer = Node::<Server>::new([2u8; 32]).public_key();
    let mut node = Node::<Client>::new([1u8; 32]);
    let _ = node.new_connection(1, 0, 0);
    node.accept_answer(1, peer, snownet::node::Answer { credentials: offer().credentials }, 0);
    let _ = drain_events(&mut node);

    node.handle_timeout(9_999);
    assert!(drain_events(&mut node).is_empty());

    node.handle_timeout(10_000);
    assert_eq!(drain_events(&mut node), vec![Event::ConnectionFailed(1)]);
}

#[test]
fn remote_candidate_keeps_connection_alive() {
    let peer = Node::<Server>::new([2u8; 32]).public_key();
    let mut node = Node::<Client>::new([1u8; 32]);
    let _ = node.new_connection(1, 0, 0);
    node.accept_answer(1, peer, snownet::node::Answer { credentials: offer().credentials }, 0);
    node.add_remote_candidate(1, Candidate { kind: CandidateKind::Host, addr: addr(9, 9000) });

    node.handle_timeout(10_000);
    assert!(drain_events(&mut node).is_empty());
}

#[test]
fn unanswered_offer_fails_after_twenty_seconds() {
    let mut node = Node::<Client>::new([1u8; 32]);
    let _ = node.new_connection(1, 0, 0);
    assert!(node.is_expecting_answer(1));
    assert_eq!(node.poll_timeout(), Some(20_000));
    assert_eq!(node.poll_timeout(), Some(20_000));

    node.handle_timeout(19_999);
    assert!(drain_events(&mut node).is_empty());
    node.handle_timeout(20_000);
    assert_eq!(drain_events(&mut node), vec![Event::ConnectionFailed(1)]);
    assert!(!node.is_expecting_answer(1));
}

#[test]
fn encapsulate_before_nomination_is_not_connected() {
    let peer = Node::<Server>::new([2u8; 32]).public_key();
    let mut node = Node::<Client>::new([1u8; 32]);
    assert_eq!(node.encapsulate(1, &ipv4_packet(20), 0), Err(Error::NotConnected));
    let _ = node.new_connection(1, 0, 0);
    assert_eq!(node.encapsulate(1, &ipv4_packet(20), 0), Err(Error::NotConnected));
    node.accept_answer(1, peer, snownet::node::Answer { credentials: offer().credentials }, 0);
    assert_eq!(node.encapsulate(1, &ipv4_packet(20), 0), Err(Error::NotConnected));
}

#[test]
fn packet_round_trips_between_client_and_gateway() {
    let mut client = Node::<Client>::new([1u8; 32]);
    let mut gateway = Node::<Server>::new([2u8; 32]);
    let client_addr = addr(1, 1000);
    let gateway_addr = addr(2, 2000);

    let offer = client.new_connection(9, 0, 0);
    let answer = gateway.accept_connection(9, offer, client.public_key(), 0);
    client.accept_answer(9, gateway.public_key(), answer, 0);

    client.handle_ice_event(9, IceEvent::NominatedSend { source: client_addr, destination: gateway_addr });
    gateway.handle_ice_event(9, IceEvent::NominatedSend { source: gateway_addr, destination: client_addr });

    for _ in 0..5 {
        while let Some(t) = client.poll_transmit() {
            assert_eq!(t.dst, gateway_addr);
            // WireGuard messages start with a type byte of 1 to 4, which the
            // first-byte heuristic takes for STUN: no relay is at the source,
            // so the packet goes on to the connection.
            assert!(t.payload[0] <= 4);
            let _ = gateway.decapsulate(gateway_addr, client_addr, &t.payload, 0);
        }
        while let Some(t) = gateway.poll_transmit() {
            assert_eq!(t.dst, client_addr);
            let _ = client.decapsulate(client_addr, gateway_addr, &t.payload, 0);
        }
    }
    let established = drain_events(&mut client);
    assert!(established.contains(&Event::ConnectionEstablished(9)));

    let packet = ipv4_packet(64);
    let transmit = client.encapsulate(9, &packet, 1).unwrap().unwrap();
    assert_eq!(transmit.src, Some(client_addr));
    assert_eq!(transmit.dst, gateway_addr);
    assert_ne!(transmit.payload, packet);

    let inbound = gateway.decapsulate(gateway_addr, client_addr, &transmit.into_owned().payload, 1).unwrap();
    assert_eq!(inbound, Inbound::Packet { connection: 9, packet });

    assert_eq!(client.connection_id(gateway.public_key()), Some(9));
    assert_eq!(gateway.connection_id(client.public_key()), Some(9));
    assert_eq!(gateway.connection_id(gateway.public_key()), None);
}

#[test]
fn traffic_from_unknown_source_is_unhandled() {
    let peer = Node::<Client>::new([2u8; 32]).public_key();
    let mut node = Node::<Server>::new([1u8; 32]);
    let _ = node.accept_connection(1, offer(), peer, 0);
    let r = node.decapsulate(addr(1, 1), addr(7, 7), &[9, 9, 9, 9], 0);
    assert_eq!(r, Err(Error::UnhandledPacket { num_tunnels: 1 }));
    // The local socket became a host candidate.
    let events = drain_events(&mut node);
    assert_eq!(
        events,
        vec![Event::NewIceCandidate {
            connection: 1,
            candidate: Candidate { kind: CandidateKind::Host, addr: addr(1, 1) }
        }]
    );
}

fn relay(id: u64, server: SocketAddress, password: &str) -> RelayConfig {
    RelayConfig {
        id,
        server,
        username: "user".to_owned(),
        password: password.to_owned(),
        realm: "firezone".to_owned(),
    }
}

#[test]
fn updating_relays_twice_adds_one_allocation() {
    let mut node = Node::<Client>::new([1u8; 32]);
    let x = relay(4, addr(50, 3478), "secret");
    node.update_relays(&vec![], &vec![x.clone()]);
    node.update_relays(&vec![], &vec![x]);
    assert_eq!(node.relay_ids(), vec![4]);

    node.update_relays(&vec![], &vec![relay(4, addr(50, 3478), "other"), relay(5, addr(51, 3478), "s")]);
    assert_eq!(node.relay_ids(), vec![4, 5]);

    node.update_relays(&vec![4], &vec![]);
    assert_eq!(node.relay_ids(), vec![5]);
}

#[test]
fn relay_with_invalid_realm_is_skipped() {
    let mut node = Node::<Client>::new([1u8; 32]);
    let mut bad = relay(4, addr(50, 3478), "secret");
    bad.realm = "r".repeat(128);
    node.update_relays(&vec![], &vec![bad]);
    assert!(node.relay_ids().is_empty());

    let mut bad = relay(4, addr(50, 3478), "secret");
    bad.username = "u".repeat(513);
    node.update_relays(&vec![], &vec![bad]);
    assert!(node.relay_ids().is_empty());

    let mut ok = relay(4, addr(50, 3478), "secret");
    ok.username = "u".repeat(512);
    ok.realm = "r".repeat(127);
    node.update_relays(&vec![], &vec![ok]);
    assert_eq!(node.relay_ids(), vec![4]);
}

#[test]
fn relay_addresses_become_candidates() {
    let peer = Node::<Client>::new([2u8; 32]).public_key();
    let mut node = Node::<Server>::new([1u8; 32]);
    node.update_relays(&vec![], &vec![relay(4, addr(50, 3478), "secret")]);
    let _ = node.accept_connection(1, offer(), peer, 0);

    let srflx = addr(60, 5000);
    let relayed = addr(50, 40000);
    node.set_relay_addresses(4, Some(srflx), Some(relayed));
    assert_eq!(
        drain_events(&mut node),
        vec![
            Event::NewIceCandidate { connection: 1, candidate: Candidate { kind: CandidateKind::ServerReflexive, addr: srflx } },
            Event::NewIceCandidate { connection: 1, candidate: Candidate { kind: CandidateKind::Relayed, addr: relayed } },
        ]
    );

    // Removing the relay withdraws its relayed candidate.
    node.update_relays(&vec![4], &vec![]);
    assert_eq!(
        drain_events(&mut node),
        vec![Event::InvalidateIceCandidate { connection: 1, candidate: Candidate { kind: CandidateKind::Relayed, addr: relayed } }]
    );
}

#[test]
fn stun_from_relay_server_goes_to_the_relay() {
    let mut node = Node::<Client>::new([1u8; 32]);
    let server = addr(50, 3478);
    node.update_relays(&vec![], &vec![relay(4, server, "secret")]);
    let r = node.decapsulate(addr(1, 1000), server, &[0, 1, 0, 0], 0);
    assert_eq!(r, Ok(Inbound::Relay { relay: 4 }));

    // The same bytes from elsewhere are not taken for the relay's.
    let r = node.decapsulate(addr(1, 1000), addr(9, 9), &[0, 1, 0, 0], 0);
    assert_eq!(r, Err(Error::UnhandledPacket { num_tunnels: 0 }));
}

#[test]
fn channel_data_round_trip() {
    let data = [1u8, 2, 3, 4, 5];
    let frame = channel_data::encode(0x4001, &data);
    assert_eq!(frame, vec![0x40, 0x01, 0x00, 0x05, 1, 2, 3, 4, 5]);
    assert_eq!(channel_data::decode(&frame), Some((0x4001, data.to_vec())));
    assert_eq!(channel_data::decode(&frame[..6]), None);
    assert_eq!(channel_data::decode(&[0x30, 0, 0, 0]), None);
    assert_eq!(channel_data::decode(&[0x4f, 0xff, 0, 0]), Some((0x4fff, vec![])));
}

#[test]
fn first_byte_classification() {
    assert_eq!(classify(&[]), PacketClass::Other);
    assert_eq!(classify(&[0]), PacketClass::Stun);
    assert_eq!(classify(&[3, 9]), PacketClass::Stun);
    assert_eq!(classify(&[4]), PacketClass::Other);
    assert_eq!(classify(&[63]), PacketClass::Other);
    assert_eq!(classify(&[64]), PacketClass::ChannelData);
    assert_eq!(classify(&[79]), PacketClass::ChannelData);
    assert_eq!(classify(&[80]), PacketClass::Other);
}

#[test]
fn ice_disconnect_fails_the_connection() {
    let peer = Node::<Client>::new([2u8; 32]).public_key();
    let mut node = Node::<Server>::new([1u8; 32]);
    let _ = node.accept_connection(1, offer(), peer, 0);
    node.add_remote_candidate(1, Candidate { kind: CandidateKind::Host, addr: addr(9, 9000) });
    node.handle_ice_event(1, IceEvent::Disconnected);
    node.handle_timeout(1);
    assert_eq!(drain_events(&mut node), vec![Event::ConnectionFailed(1)]);
}

#[test]
fn idle_connection_is_closed() {
    let peer = Node::<Client>::new([2u8; 32]).public_key();
    let mut node = Node::<Server>::new([1u8; 32]);
    let _ = node.accept_connection(1, offer(), peer, 0);
    node.add_remote_candidate(1, Candidate { kind: CandidateKind::Host, addr: addr(9, 9000) });
    node.handle_timeout(299_999);
    assert!(drain_events(&mut node).is_empty());
    node.handle_timeout(300_000);
    assert_eq!(drain_events(&mut node), vec![Event::ConnectionClosed(1)]);
}

#[test]
fn public_key_is_derived_from_the_private_key() {
    let a = Node::<Client>::new([1u8; 32]).public_key();
    let b = Node::<Client>::new([1u8; 32]).public_key();
    let c = Node::<Client>::new([3u8; 32]).public_key();
    assert_eq!(a, b);
    assert_ne!(a, [1u8; 32]);
    assert_ne!(a, c);
}

#[test]
fn agent_datagrams_go_direct_or_through_the_relay() {
    let mut node = Node::<Client>::new([1u8; 32]);
    let server = addr(50, 3478);
    let relayed = addr(50, 40000);
    let peer = addr(70, 7000);
    node.update_relays(&vec![], &vec![relay(4, server, "secret")]);
    node.set_relay_addresses(4, None, Some(relayed));

    node.queue_agent_transmit(addr(1, 1000), peer, vec![1, 2]);
    let t = node.poll_transmit().unwrap();
    assert_eq!((t.src, t.dst, t.payload), (Some(addr(1, 1000)), peer, vec![1, 2]));

    // No channel is bound to the peer yet: the datagram is dropped.
    node.queue_agent_transmit(relayed, peer, vec![1, 2]);
    assert!(node.poll_transmit().is_none());

    let peer_key = Node::<Server>::new([2u8; 32]).public_key();
    let _ = node.new_connection(1, 0, 0);
    node.accept_answer(1, peer_key, snownet::node::Answer { credentials: offer().credentials }, 0);
    node.add_remote_candidate(1, Candidate { kind: CandidateKind::ServerReflexive, addr: peer });
    node.queue_agent_transmit(relayed, peer, vec![1, 2]);
    let t = node.poll_transmit().unwrap();
    assert_eq!((t.src, t.dst, t.payload), (None, server, vec![0x40, 0x00, 0x00, 0x02, 1, 2]));
}

#[test]
fn oversized_packet_and_garbage_ciphertext_are_errors() {
    let mut client = Node::<Client>::new([1u8; 32]);
    let gateway_key = Node::<Server>::new([2u8; 32]).public_key();
    let client_addr = addr(1, 1000);
    let gateway_addr = addr(2, 2000);
    let _ = client.new_connection(3, 0, 0);
    client.accept_answer(3, gateway_key, snownet::node::Answer { credentials: offer().credentials }, 0);
    client.handle_ice_event(3, IceEvent::NominatedSend { source: client_addr, destination: gateway_addr });

    assert_eq!(client.encapsulate(3, &vec![0u8; 70_000], 0), Err(Error::Encapsulate));

    let garbage = [4u8, 0, 0, 0, 1, 2, 3];
    assert_eq!(client.decapsulate(client_addr, gateway_addr, &garbage, 0), Err(Error::Decapsulate));
}

#[test]
fn addresses_ice_refuses_are_not_host_candidates() {
    let mut node = Node::<Client>::new([1u8; 32]);
    let unspecified = SocketAddress::new(IpAddress::V4(0), 1000);
    let broadcast = SocketAddress::new(IpAddress::V4(0xffff_ffff), 1000);
    let multicast = SocketAddress::new(IpAddress::V4(0xe000_0001), 1000);
    let link_local = SocketAddress::new(IpAddress::V4(0xa9fe_0001), 1000);
    let v6_multicast = SocketAddress::new(IpAddress::V6(0xff02 << 112), 1000);
    for bad in [unspecified, broadcast, multicast, link_local, v6_multicast] {
        assert_eq!(node.add_local_host_candidate(bad), Err(Error::BadLocalAddress));
        assert_eq!(node.decapsulate(bad, addr(7, 7), &[9, 9, 9, 9], 0), Err(Error::BadLocalAddress));
    }
    assert_eq!(node.add_local_host_candidate(addr(5, 4000)), Ok(()));
    assert_eq!(node.add_local_host_candidate(SocketAddress::new(IpAddress::V6(1), 1000)), Ok(()));
}

#[test]
fn malformed_stun_attributes_do_not_reach_the_parser() {
    let mut node = Node::<Server>::new([1u8; 32]);
    // A STUN header announcing 4 bytes of attributes, then a FINGERPRINT
    // attribute whose value is empty.
    let mut datagram = vec![0x00, 0x01, 0x00, 0x04, 0x21, 0x12, 0xa4, 0x42];
    datagram.extend_from_slice(&[7u8; 12]);
    datagram.extend_from_slice(&[0x80, 0x28, 0x00, 0x00]);
    let r = node.decapsulate(addr(1, 1000), addr(7, 7), &datagram, 0);
    assert_eq!(r, Err(Error::UnhandledPacket { num_tunnels: 0 }));
}

#[test]
fn fresh_node_has_nothing_to_wake_for() {
    let node = Node::<Client>::new([1u8; 32]);
    assert_eq!(node.poll_timeout(), None);
}

#[test]
fn nomination_flushes_buffered_handshake_then_initiates_one() {
    let mut client = Node::<Client>::new([1u8; 32]);
    let mut gateway = Node::<Server>::new([2u8; 32]);
    let client_addr = addr(1, 1000);
    let gateway_addr = addr(2, 2000);

    let offer = client.new_connection(4, 0, 0);
    let answer = gateway.accept_connection(4, offer, client.public_key(), 0);
    client.accept_answer(4, gateway.public_key(), answer, 0);

    client.handle_ice_event(4, IceEvent::NominatedSend { source: client_addr, destination: gateway_addr });
    let initiation = client.poll_transmit().unwrap();
    assert_eq!(initiation.payload.len(), 148);

    // The gateway has no socket yet: its handshake response waits.
    gateway.handle_ice_event(4, IceEvent::DiscoveredRecv { source: client_addr });
    let r = gateway.decapsulate(gateway_addr, client_addr, &initiation.payload, 0);
    assert_eq!(r, Ok(Inbound::Handled));
    assert!(gateway.poll_transmit().is_none());

    gateway.handle_ice_event(4, IceEvent::NominatedSend { source: gateway_addr, destination: client_addr });
    let response = gateway.poll_transmit().unwrap();
    assert_eq!((response.src, response.dst, response.payload.len(), response.payload[0]), (Some(gateway_addr), client_addr, 92, 2));
    let handshake = gateway.poll_transmit().unwrap();
    assert_eq!((handshake.src, handshake.dst, handshake.payload.len(), handshake.payload[0]), (Some(gateway_addr), client_addr, 148, 1));
    assert!(gateway.poll_transmit().is_none());

    // The same nomination again changes nothing and sends nothing.
    gateway.handle_ice_event(4, IceEvent::NominatedSend { source: gateway_addr, destination: client_addr });
    assert!(gateway.poll_transmit().is_none());
}
