use snownet::intents::{
    handle_portal_error_reply, send_connection_intent, ErrorAction, ResourceId, SentConnectionIntents,
};
use snownet::phoenix::{EgressPayload, PhoenixChannel, ReconnectBackoff};
use snownet::phoenix::{ErrorReply, OutboundRequestId};

#[test]
fn discards_old_connection_intent() {
    let mut intents = SentConnectionIntents::default();

    let resource = ResourceId::random();

    intents.register_new_intent(OutboundRequestId::for_test(1), resource);
    intents.register_new_intent(OutboundRequestId::for_test(2), resource);

    let should_accept =
        intents.handle_connection_details_received(OutboundRequestId::for_test(1), resource);

    assert!(!should_accept);
}

#[test]
fn allows_unrelated_intents() {
    let mut intents = SentConnectionIntents::default();

    let resource1 = ResourceId::random();
    let resource2 = ResourceId::random();

    intents.register_new_intent(OutboundRequestId::for_test(1), resource1);
    intents.register_new_intent(OutboundRequestId::for_test(2), resource2);

    let should_accept_1 =
        intents.handle_connection_details_received(OutboundRequestId::for_test(1), resource1);
    let should_accept_2 =
        intents.handle_connection_details_received(OutboundRequestId::for_test(2), resource2);

    assert!(should_accept_1);
    assert!(should_accept_2);
}

#[test]
fn handles_out_of_order_responses() {
    let mut intents = SentConnectionIntents::default();

    let resource = ResourceId::random();

    intents.register_new_intent(OutboundRequestId::for_test(1), resource);
    intents.register_new_intent(OutboundRequestId::for_test(2), resource);

    let should_accept_2 =
        intents.handle_connection_details_received(OutboundRequestId::for_test(2), resource);
    let should_accept_1 =
        intents.handle_connection_details_received(OutboundRequestId::for_test(1), resource);

    assert!(should_accept_2);
    assert!(!should_accept_1);
}

#[test]
fn latest_of_three_intents_wins_and_clears_all() {
    let mut intents = SentConnectionIntents::new();
    let ra = ResourceId::from_u128(10);
    let rb = ResourceId::from_u128(11);

    intents.register_new_intent(OutboundRequestId::for_test(1), ra);
    intents.register_new_intent(OutboundRequestId::for_test(2), rb);
    intents.register_new_intent(OutboundRequestId::for_test(3), ra);
    intents.register_new_intent(OutboundRequestId::for_test(5), ra);

    assert!(!intents.handle_connection_details_received(OutboundRequestId::for_test(3), ra));
    assert!(intents.handle_connection_details_received(OutboundRequestId::for_test(5), ra));
    // Every intent for `ra` is gone now; the one for `rb` stays.
    assert!(!intents.handle_connection_details_received(OutboundRequestId::for_test(1), ra));
    assert!(!intents.handle_connection_details_received(OutboundRequestId::for_test(3), ra));
    assert!(intents.handle_connection_details_received(OutboundRequestId::for_test(2), rb));
}

#[test]
fn details_for_unknown_request_are_stale() {
    let mut intents = SentConnectionIntents::new();
    let ra = ResourceId::from_u128(1);
    let rb = ResourceId::from_u128(2);

    intents.register_new_intent(OutboundRequestId::for_test(4), ra);

    assert!(!intents.handle_connection_details_received(OutboundRequestId::for_test(7), ra));
    // Request 4 was for another resource.
    assert!(!intents.handle_connection_details_received(OutboundRequestId::for_test(4), rb));
    assert!(intents.handle_connection_details_received(OutboundRequestId::for_test(4), ra));
}

#[test]
fn registering_an_id_again_replaces_its_resource() {
    let mut intents = SentConnectionIntents::new();
    let ra = ResourceId::from_u128(1);
    let rb = ResourceId::from_u128(2);

    intents.register_new_intent(OutboundRequestId::for_test(4), ra);
    intents.register_new_intent(OutboundRequestId::for_test(4), rb);

    assert!(!intents.handle_connection_details_received(OutboundRequestId::for_test(4), ra));
    assert!(intents.handle_connection_details_received(OutboundRequestId::for_test(4), rb));
}

#[test]
fn error_forgets_the_intent() {
    let mut intents = SentConnectionIntents::new();
    let ra = ResourceId::from_u128(9);

    intents.register_new_intent(OutboundRequestId::for_test(1), ra);

    assert_eq!(intents.handle_error(OutboundRequestId::for_test(2)), None);
    assert_eq!(intents.handle_error(OutboundRequestId::for_test(1)), Some(ra));
    assert_eq!(intents.handle_error(OutboundRequestId::for_test(1)), None);
    assert!(!intents.handle_connection_details_received(OutboundRequestId::for_test(1), ra));
}

#[test]
fn offline_reply_marks_resource_offline() {
    let mut intents = SentConnectionIntents::new();
    let ra = ResourceId::from_u128(3);
    intents.register_new_intent(OutboundRequestId::for_test(8), ra);

    let action = handle_portal_error_reply(
        &mut intents,
        ErrorReply::Offline,
        "client".to_owned(),
        OutboundRequestId::for_test(8),
    );
    assert_eq!(action, ErrorAction::SetResourceOffline(ra));

    let again = handle_portal_error_reply(
        &mut intents,
        ErrorReply::Offline,
        "client".to_owned(),
        OutboundRequestId::for_test(8),
    );
    assert_eq!(again, ErrorAction::Ignore);
}

#[test]
fn unmatched_topic_reply_rejoins() {
    let mut intents = SentConnectionIntents::new();
    let ra = ResourceId::from_u128(3);
    intents.register_new_intent(OutboundRequestId::for_test(8), ra);

    let action = handle_portal_error_reply(
        &mut intents,
        ErrorReply::UnmatchedTopic,
        "client".to_owned(),
        OutboundRequestId::for_test(8),
    );
    assert_eq!(action, ErrorAction::Rejoin("client".to_owned()));

    let other = handle_portal_error_reply(
        &mut intents,
        ErrorReply::NotFound,
        "client".to_owned(),
        OutboundRequestId::for_test(8),
    );
    assert_eq!(other, ErrorAction::Ignore);
    // The intent is still there.
    assert!(intents.handle_connection_details_received(OutboundRequestId::for_test(8), ra));
}

#[test]
fn random_resource_ids_differ() {
    let a = ResourceId::random();
    let b = ResourceId::random();
    assert_ne!(a, b);
    assert_eq!(ResourceId::from_u128(a.as_u128()), a);
}

#[test]
fn sent_intent_is_registered_under_its_request_id() {
    let mut portal = PhoenixChannel::connect("client".to_owned(), 0u8, ReconnectBackoff::default());
    let mut intents = SentConnectionIntents::new();
    let ra = ResourceId::from_u128(42);

    let first = send_connection_intent(&mut portal, &mut intents, "client".to_owned(), 1, ra);
    let second = send_connection_intent(&mut portal, &mut intents, "client".to_owned(), 2, ra);
    assert_eq!(first, OutboundRequestId::for_test(0));
    assert_eq!(second, OutboundRequestId::for_test(1));

    let frame = portal.poll_outbound().unwrap();
    assert_eq!(frame.payload, EgressPayload::Message(1));
    assert_eq!(frame.reference, OutboundRequestId::for_test(0));

    assert!(!intents.handle_connection_details_received(first, ra));
    assert!(intents.handle_connection_details_received(second, ra));
}
