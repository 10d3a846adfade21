use snownet::allocation::RelayConfig;
use snownet::intents::{ResourceId, SentConnectionIntents};
use snownet::net::{IpAddress, SocketAddress};
use snownet::node::{Client, Node};
use snownet::phoenix::OutboundRequestId;
use snownet::signalling::{handle_connection_details, handle_ingress_message, ConnectionRequest, IngressMessage};

fn relay(id: u64) -> RelayConfig {
    RelayConfig {
        id,
        server: SocketAddress::new(IpAddress::V4(0x0a00_0032 + id as u32), 3478),
        username: "user".to_owned(),
        password: "secret".to_owned(),
        realm: "firezone".to_owned(),
    }
}

#[test]
fn relays_presence_updates_the_allocations() {
    let mut node = Node::<Client>::new([1u8; 32]);
    handle_ingress_message(&mut node, IngressMessage::RelaysPresence { disconnected: vec![], connected: vec![relay(1), relay(2)] });
    assert_eq!(node.relay_ids(), vec![1, 2]);
    handle_ingress_message(&mut node, IngressMessage::RelaysPresence { disconnected: vec![1], connected: vec![relay(3)] });
    assert_eq!(node.relay_ids(), vec![2, 3]);
}

#[test]
fn connection_details_follow_the_intent_rule() {
    let mut intents = SentConnectionIntents::new();
    let ra = ResourceId::from_u128(5);
    intents.register_new_intent(OutboundRequestId::for_test(1), ra);
    intents.register_new_intent(OutboundRequestId::for_test(2), ra);

    assert_eq!(handle_connection_details(&mut intents, OutboundRequestId::for_test(1), ra, 9, 3), None);
    assert_eq!(
        handle_connection_details(&mut intents, OutboundRequestId::for_test(2), ra, 9, 3),
        Some(ConnectionRequest { resource: ra, gateway: 9, site: 3 })
    );
    assert_eq!(handle_connection_details(&mut intents, OutboundRequestId::for_test(2), ra, 9, 3), None);
}
