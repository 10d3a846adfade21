use serde_json::Value;
use snownet::phoenix::{
    error_reply_from_reason, ChannelState, Connecting, DisconnectReason, EgressPayload, Error,
    ErrorReply, Event, FrameParts, OkReply, OutboundRequestId, Payload, PhoenixChannel,
    PhoenixMessage, Reply, ReconnectBackoff,
};

#[derive(Debug, PartialEq)]
enum Msg {
    Shout { hello: String },
}

fn text(v: Option<&Value>) -> Option<String> {
    v.and_then(|x| x.as_str()).map(|s| s.to_owned())
}

/// Reads the parts of a frame's payload that do not depend on the message
/// type.
fn frame_parts<T, R>(frame: &Value, message: Option<T>, reply: Option<R>) -> (String, FrameParts<T, R>) {
    let event = text(frame.get("event")).unwrap();
    let payload = frame.get("payload");
    let response = payload.and_then(|p| p.get("response"));
    let reason = text(response.and_then(|r| r.get("reason")))
        .or_else(|| text(payload.and_then(|p| p.get("reason"))));
    let empty_response = response.and_then(|r| r.as_object()).map(|o| o.is_empty()).unwrap_or(false);
    (
        event,
        FrameParts {
            status: text(payload.and_then(|p| p.get("status"))),
            reason,
            message,
            reply,
            empty_response,
        },
    )
}

fn parse_payload(json: &str) -> Payload<(), ()> {
    let frame: Value = serde_json::from_str(json).unwrap();
    let (event, parts) = frame_parts::<(), ()>(&frame, None, None);
    Payload::from_parts(&event, parts).unwrap()
}

fn test_channel() -> PhoenixChannel<u32> {
    PhoenixChannel::connect("client".to_owned(), 7, ReconnectBackoff::default())
}

#[test]
fn can_deserialize_inbound_message() {
    let msg = r#"{
        "topic": "room:lobby",
        "ref": null,
        "payload": {
            "hello": "world"
        },
        "join_ref": null,
        "event": "shout"
    }"#;
    let frame: Value = serde_json::from_str(msg).unwrap();
    let shout = match (text(frame.get("event")).as_deref(), text(frame["payload"].get("hello"))) {
        (Some("shout"), Some(hello)) => Some(Msg::Shout { hello }),
        _ => None,
    };
    let (event, parts) = frame_parts::<Msg, ()>(&frame, shout, None);
    let payload = Payload::from_parts(&event, parts).unwrap();
    let reference = frame["ref"].as_u64().map(OutboundRequestId::for_test);
    let msg = PhoenixMessage { topic: text(frame.get("topic")).unwrap(), payload, reference };

    assert_eq!(msg.topic, "room:lobby");
    assert_eq!(msg.reference, None);
    assert_eq!(
        msg.payload,
        Payload::Message(Msg::Shout {
            hello: "world".to_owned()
        })
    );
}

#[test]
fn unmatched_topic_reply() {
    let actual_reply = r#"
        {
           "event": "phx_reply",
           "ref": "12",
           "topic": "client",
           "payload":{
              "status": "error",
              "response":{
                 "reason": "unmatched topic"
              }
           }
        }
    "#;
    let actual_reply = parse_payload(actual_reply);
    let expected_reply = Payload::<(), ()>::Reply(Reply::Failure {
        reason: ErrorReply::UnmatchedTopic,
    });
    assert_eq!(actual_reply, expected_reply);
}

#[test]
fn phx_close() {
    let actual_reply = r#"
    {
      "event": "phx_close",
      "ref": null,
      "topic": "client",
      "payload": {}
    }
    "#;
    let actual_reply = parse_payload(actual_reply);
    let expected_reply = Payload::<(), ()>::Close;
    assert_eq!(actual_reply, expected_reply);
}

#[test]
fn token_expired() {
    let actual_reply = r#"
    {
      "event": "disconnect",
      "ref": null,
      "topic": "client",
      "payload": { "reason": "token_expired" }
    }
    "#;
    let actual_reply = parse_payload(actual_reply);
    let expected_reply = Payload::<(), ()>::Disconnect {
        reason: DisconnectReason::TokenExpired,
    };
    assert_eq!(actual_reply, expected_reply);
}

#[test]
fn not_found() {
    let actual_reply = r#"
    {
        "event": "phx_reply",
        "ref": null,
        "topic": "client",
        "payload": {
            "status": "error",
            "response": {
                "reason": "not_found"
            }
        }
    }
    "#;
    let actual_reply = parse_payload(actual_reply);
    let expected_reply = Payload::<(), ()>::Reply(Reply::Failure {
        reason: ErrorReply::NotFound,
    });
    assert_eq!(actual_reply, expected_reply);
}

#[test]
fn unexpected_error_reply() {
    let actual_reply = r#"
        {
           "event": "phx_reply",
           "ref": "12",
           "topic": "client",
           "payload": {
              "status": "error",
              "response": {
                 "reason": "bad reply"
              }
           }
        }
    "#;
    let actual_reply = parse_payload(actual_reply);
    let expected_reply = Payload::<(), ()>::Reply(Reply::Failure {
        reason: ErrorReply::Other,
    });
    assert_eq!(actual_reply, expected_reply);
}

#[test]
fn invalid_version_reply() {
    let actual_reply = r#"
        {
            "event": "phx_reply",
            "ref": "12",
            "topic": "client",
            "payload":{
                "status": "error",
                "response":{
                    "reason": "invalid_version"
                }
            }
        }
    "#;
    let actual_reply = parse_payload(actual_reply);
    let expected_reply = Payload::<(), ()>::Reply(Reply::Failure {
        reason: ErrorReply::InvalidVersion,
    });
    assert_eq!(actual_reply, expected_reply);
}

#[test]
fn disabled_err_reply() {
    let json = r#"{"event":"phx_reply","ref":null,"topic":"client","payload":{"status":"error","response":{"reason": "disabled"}}}"#;
    let frame: Value = serde_json::from_str(json).unwrap();
    let (event, parts) = frame_parts::<(), ()>(&frame, None, None);
    let actual = PhoenixMessage {
        topic: text(frame.get("topic")).unwrap(),
        payload: Payload::from_parts(&event, parts).unwrap(),
        reference: frame["ref"].as_u64().map(OutboundRequestId::for_test),
    };
    let expected = PhoenixMessage::new_err_reply("client".to_owned(), ErrorReply::Disabled, None);
    assert_eq!(actual, expected)
}

#[test]
fn ok_reply_with_empty_response_is_no_message() {
    let json = r#"{"event":"phx_reply","ref":3,"topic":"phoenix","payload":{"status":"ok","response":{}}}"#;
    assert_eq!(parse_payload(json), Payload::Reply(Reply::Success(OkReply::NoMessage)));
}

#[test]
fn malformed_control_frames_are_refused() {
    let frame: Value = serde_json::from_str(
        r#"{"event":"disconnect","ref":null,"topic":"client","payload":{"reason":"bored"}}"#,
    )
    .unwrap();
    let (event, parts) = frame_parts::<(), ()>(&frame, None, None);
    assert_eq!(Payload::from_parts(&event, parts), None);

    let frame: Value = serde_json::from_str(
        r#"{"event":"phx_reply","ref":null,"topic":"client","payload":{"status":"maybe"}}"#,
    )
    .unwrap();
    let (event, parts) = frame_parts::<(), ()>(&frame, None, None);
    assert_eq!(Payload::from_parts(&event, parts), None);
}

#[test]
fn error_reasons_are_read_as_the_portal_writes_them() {
    for reply in [
        ErrorReply::UnmatchedTopic,
        ErrorReply::InvalidVersion,
        ErrorReply::Offline,
        ErrorReply::Disabled,
        ErrorReply::Other,
    ] {
        let written = reply.as_str().to_owned();
        if reply != ErrorReply::InvalidVersion {
            assert_eq!(error_reply_from_reason(&written), reply);
        }
    }
    assert_eq!(ErrorReply::NotFound.as_str(), "not found");
    assert_eq!(error_reply_from_reason(&"not_found".to_owned()), ErrorReply::NotFound);
    assert_eq!(error_reply_from_reason(&"invalid_version".to_owned()), ErrorReply::InvalidVersion);
    assert_eq!(error_reply_from_reason(&"nope".to_owned()), ErrorReply::Other);
}

#[test]
fn authentication_errors() {
    assert!(Error::Client(401).is_authentication_error());
    assert!(Error::Client(403).is_authentication_error());
    assert!(!Error::Client(404).is_authentication_error());
    assert!(Error::TokenExpired.is_authentication_error());
    assert!(!Error::MaxRetriesReached.is_authentication_error());
    assert!(!Error::LoginFailed(ErrorReply::Other).is_authentication_error());
}

#[test]
fn login_is_joined_first_after_connecting() {
    let mut channel = test_channel();
    let id = channel.send("client".to_owned(), 1);
    assert_eq!(id, OutboundRequestId::for_test(0));

    channel.handle_connect_success(1_000);
    assert_eq!(channel.state(), ChannelState::Connected);

    let join = channel.poll_outbound().unwrap();
    assert_eq!(join.topic, "client");
    assert_eq!(join.payload, EgressPayload::Join(7));
    assert_eq!(join.reference, OutboundRequestId::for_test(1));

    let msg = channel.poll_outbound().unwrap();
    assert_eq!(msg.payload, EgressPayload::Message(1));
    assert_eq!(msg.reference, OutboundRequestId::for_test(0));
    assert!(channel.poll_outbound().is_none());

    let reply = PhoenixMessage::<(), u8>::new_ok_reply("client".to_owned(), 0, Some(OutboundRequestId::for_test(1)));
    assert_eq!(
        channel.handle_inbound(reply),
        Some(Ok(Event::JoinedRoom { topic: "client".to_owned() }))
    );

    // A second reply to the same request is an ordinary response.
    let reply = PhoenixMessage::<(), u8>::new_ok_reply("client".to_owned(), 5, Some(OutboundRequestId::for_test(1)));
    assert_eq!(
        channel.handle_inbound(reply),
        Some(Ok(Event::SuccessResponse {
            topic: "client".to_owned(),
            req_id: OutboundRequestId::for_test(1),
            res: 5
        }))
    );
}

#[test]
fn login_error_reply_fails_the_channel() {
    let mut channel = test_channel();
    channel.handle_connect_success(0);
    let reply = PhoenixMessage::<(), ()>::new_err_reply(
        "client".to_owned(),
        ErrorReply::InvalidVersion,
        Some(OutboundRequestId::for_test(0)),
    );
    assert_eq!(
        channel.handle_inbound(reply),
        Some(Err(Error::LoginFailed(ErrorReply::InvalidVersion)))
    );

    // On another topic it is only an error response.
    let reply = PhoenixMessage::<(), ()>::new_err_reply(
        "other".to_owned(),
        ErrorReply::Offline,
        Some(OutboundRequestId::for_test(0)),
    );
    assert_eq!(
        channel.handle_inbound(reply),
        Some(Ok(Event::ErrorResponse {
            topic: "other".to_owned(),
            req_id: OutboundRequestId::for_test(0),
            res: ErrorReply::Offline
        }))
    );
}

#[test]
fn token_expiry_ends_the_channel_with_an_authentication_error() {
    let mut channel = test_channel();
    channel.handle_connect_success(0);
    let frame = PhoenixMessage::<(), ()> {
        topic: "client".to_owned(),
        payload: Payload::Disconnect { reason: DisconnectReason::TokenExpired },
        reference: None,
    };
    let outcome = channel.handle_inbound(frame);
    assert_eq!(outcome, Some(Err(Error::TokenExpired)));
    assert!(Error::TokenExpired.is_authentication_error());
}

#[test]
fn replies_without_reference_and_close_frames() {
    let mut channel = test_channel();
    channel.handle_connect_success(0);
    let reply = PhoenixMessage::<(), u8>::new_ok_reply("client".to_owned(), 1, None);
    assert_eq!(channel.handle_inbound(reply), None);

    let inbound = PhoenixMessage::<u8, ()>::new_message("client".to_owned(), 9, None);
    assert_eq!(
        channel.handle_inbound(inbound),
        Some(Ok(Event::InboundMessage { topic: "client".to_owned(), msg: 9 }))
    );

    let close = PhoenixMessage::<(), ()> { topic: "client".to_owned(), payload: Payload::Close, reference: None };
    assert_eq!(channel.handle_inbound(close), None);
    assert_eq!(channel.state(), ChannelState::Retrying);
}

#[test]
fn heartbeat_is_sent_and_its_reply_awaited() {
    let mut channel = test_channel();
    channel.handle_connect_success(0);
    let _join = channel.poll_outbound().unwrap();

    assert_eq!(channel.poll_heartbeat::<(), ()>(29_999), None);
    assert_eq!(channel.poll_heartbeat::<(), ()>(30_000), Some(Event::HeartbeatSent));
    let beat = channel.poll_outbound().unwrap();
    assert_eq!(beat.topic, "phoenix");
    assert_eq!(beat.payload, EgressPayload::Heartbeat);
    assert_eq!(beat.reference, OutboundRequestId::for_test(1));

    let reply = PhoenixMessage::<(), ()> {
        topic: "phoenix".to_owned(),
        payload: Payload::Reply(Reply::Success(OkReply::NoMessage)),
        reference: Some(OutboundRequestId::for_test(1)),
    };
    assert_eq!(channel.handle_inbound(reply), None);
    assert_eq!(channel.poll_heartbeat::<(), ()>(40_000), None);
    assert_eq!(channel.state(), ChannelState::Connected);
}

#[test]
fn missed_heartbeat_reconnects() {
    let mut channel = test_channel();
    channel.handle_connect_success(0);
    assert_eq!(channel.poll_heartbeat::<(), ()>(30_000), Some(Event::HeartbeatSent));
    assert_eq!(channel.poll_heartbeat::<(), ()>(34_999), None);
    assert_eq!(channel.state(), ChannelState::Connected);
    assert_eq!(channel.poll_heartbeat::<(), ()>(35_000), None);
    assert_eq!(channel.state(), ChannelState::Retrying);
}

#[test]
fn close_while_connecting_fails() {
    let mut channel = test_channel();
    assert_eq!(channel.close(), Err(Connecting));
    assert_eq!(channel.state(), ChannelState::Closed);

    let mut channel = test_channel();
    channel.handle_connect_success(0);
    assert_eq!(channel.close(), Ok(()));
    assert_eq!(channel.state(), ChannelState::Closing);
    assert_eq!(channel.handle_closed::<(), ()>(), Event::Closed);
    assert_eq!(channel.state(), ChannelState::Closed);
}

#[test]
fn client_errors_at_connect_are_not_retried() {
    let mut channel = test_channel();
    assert_eq!(channel.handle_connect_failure(Some(401)), Err(Error::Client(401)));
    assert_eq!(channel.handle_connect_failure(Some(403)), Err(Error::Client(403)));
    assert!(channel.handle_connect_failure(Some(502)).is_ok());
    assert!(channel.handle_connect_failure(None).is_ok());
    assert_eq!(channel.state(), ChannelState::Connecting);
}

#[test]
fn spent_backoff_gives_up() {
    let mut channel = test_channel();
    channel.handle_transient_error();
    assert_eq!(channel.apply_backoff(None), Err(Error::MaxRetriesReached));
    assert_eq!(channel.state(), ChannelState::Retrying);
    assert_eq!(channel.apply_backoff(Some(250)), Ok(250));
    assert_eq!(channel.state(), ChannelState::Connecting);
}

#[test]
fn request_ids_increase() {
    let mut channel = test_channel();
    let a = channel.send("t".to_owned(), 1);
    let b = channel.join("room".to_owned(), 2);
    let c = channel.send("t".to_owned(), 3);
    assert!(a < b && b < c);
    assert_eq!(c.value(), 2);
    assert_eq!(c.copy(), c);
}
