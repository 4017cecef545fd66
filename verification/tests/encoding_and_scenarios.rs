use notir::broadcast::{BroadcastOutcome, BroadcastRegistry};
use notir::message::{EncodeError, InboundFrame, Message, encode_body, is_textual};
use notir::queue::{OutboundQueue, ReplySender};
use notir::single::{Mode, PublishOutcome, ReplyAwaited, SingleRegistry, reply_status};

fn queue() -> (
    OutboundQueue,
    tokio::sync::mpsc::UnboundedReceiver<Message>,
) {
    let (tx, rx) = tokio::sync::mpsc::unbounded_channel();
    (OutboundQueue::new(tx), rx)
}

fn reply_pair() -> (ReplySender, tokio::sync::oneshot::Receiver<Vec<u8>>) {
    let (tx, rx) = tokio::sync::oneshot::channel();
    (ReplySender::new(tx), rx)
}

// ------------------------------------------------------------------------
// Content-type routing and body encoding
// ------------------------------------------------------------------------

#[test]
fn content_type_routing_is_total() {
    assert!(is_textual("application/json"));
    assert!(is_textual("application/json; charset=utf-8"));
    assert!(is_textual("text/plain"));
    assert!(is_textual("text/html; charset=utf-8"));
    assert!(!is_textual("application/octet-stream"));
    assert!(!is_textual("image/png"));
    assert!(!is_textual(""));
    assert!(!is_textual("application/jso"));
}

#[test]
fn encode_textual_body_decodes_utf8() {
    match encode_body("text/plain", b"hello".to_vec()) {
        Ok(Message::Text(s)) => assert_eq!(s, "hello"),
        _ => panic!("expected a text frame"),
    }
    match encode_body("application/json", "{\"q\":1}".as_bytes().to_vec()) {
        Ok(Message::Text(s)) => assert_eq!(s, "{\"q\":1}"),
        _ => panic!("expected a text frame"),
    }
}

#[test]
fn encode_rejects_invalid_utf8() {
    match encode_body("text/plain", vec![0xff, 0xfe, 0xfd]) {
        Err(EncodeError::InvalidUtf8) => {},
        _ => panic!("expected the invalid-UTF-8 rejection"),
    }
    // a non-textual content type takes the same bytes as they are
    match encode_body("application/octet-stream", vec![0xff, 0xfe, 0xfd]) {
        Ok(Message::Binary(b)) => assert_eq!(b, vec![0xff, 0xfe, 0xfd]),
        _ => panic!("expected a binary frame"),
    }
}

#[test]
fn binary_body_round_trips_unchanged() {
    let body: Vec<u8> = vec![0, 1, 2, 255, 128, 7];
    match encode_body("application/octet-stream", body.clone()) {
        Ok(Message::Binary(b)) => assert_eq!(b, body),
        _ => panic!("expected a binary frame"),
    }
}

#[test]
fn duplicate_preserves_the_frame() {
    let m = Message::Text("hello".to_string());
    match m.duplicate() {
        Message::Text(s) => assert_eq!(s, "hello"),
        _ => panic!("expected a text frame"),
    }
    let b = Message::Binary(vec![1, 2, 3]);
    match b.duplicate() {
        Message::Binary(p) => assert_eq!(p, vec![1, 2, 3]),
        _ => panic!("expected a binary frame"),
    }
}

// ------------------------------------------------------------------------
// End-to-end scenarios
// ------------------------------------------------------------------------

/// Shot success: a subscriber on `a` receives the published text frame and
/// the publisher is told 200.
#[test]
fn scenario_shot_success() {
    let mut reg = SingleRegistry::new();
    let (q, mut rx) = queue();
    assert!(reg.user_connected("a".to_string(), "conn-a".to_string(), q));

    let (reply, _reply_rx) = reply_pair();
    let outcome = reg.publish_message("a", Mode::Shot, "text/plain", b"hello".to_vec(), reply);
    assert!(matches!(outcome, PublishOutcome::Delivered));

    match rx.try_recv().expect("the subscriber should receive a frame") {
        Message::Text(s) => assert_eq!(s, "hello"),
        _ => panic!("expected a text frame with payload hello"),
    }
}

/// Shot to unknown: publishing to an identifier with no subscribers is 404.
#[test]
fn scenario_shot_to_unknown() {
    let mut reg = SingleRegistry::new();
    let (reply, _reply_rx) = reply_pair();
    let outcome = reg.publish_message("z", Mode::Shot, "text/plain", b"anything".to_vec(), reply);
    assert!(matches!(outcome, PublishOutcome::NotFound));
}

/// Ping-pong reply: the subscriber on `b` receives the JSON text frame,
/// answers with binary bytes, and the publisher's reply channel carries
/// exactly those bytes; the wait resolves to 200.
#[test]
fn scenario_ping_pong_reply() {
    let mut reg = SingleRegistry::new();
    let (q, mut rx) = queue();
    assert!(reg.user_connected("b".to_string(), "conn-b".to_string(), q));

    let (reply, mut reply_rx) = reply_pair();
    let outcome = reg.publish_message(
        "b",
        Mode::PingPong,
        "application/json",
        "{\"q\":1}".as_bytes().to_vec(),
        reply,
    );
    let slot_id = match outcome {
        PublishOutcome::AwaitingReply(sid) => sid,
        _ => panic!("expected a pending reply"),
    };

    match rx.try_recv().expect("the subscriber should receive the request") {
        Message::Text(s) => assert_eq!(s, "{\"q\":1}"),
        _ => panic!("expected a text frame"),
    }

    let serviced = reg.single_on_frame("b", InboundFrame::Binary(vec![0x01, 0x02, 0x03]));
    assert_eq!(serviced, Some(slot_id));

    let bytes = reply_rx.try_recv().expect("the reply should arrive");
    assert_eq!(bytes, vec![0x01, 0x02, 0x03]);
    assert_eq!(reply_status(&ReplyAwaited::Reply(bytes)), 200);
}

/// Ping-pong timeout: the subscriber on `c` stays silent; the wait resolves
/// to 408 and the timed-out slot is scanned out of the FIFO.
#[test]
fn scenario_ping_pong_timeout() {
    let mut reg = SingleRegistry::new();
    let (q, _rx) = queue();
    assert!(reg.user_connected("c".to_string(), "conn-c".to_string(), q));

    let (reply, mut reply_rx) = reply_pair();
    let outcome = reg.publish_message("c", Mode::PingPong, "text/plain", b"ping".to_vec(), reply);
    let slot_id = match outcome {
        PublishOutcome::AwaitingReply(sid) => sid,
        _ => panic!("expected a pending reply"),
    };
    assert!(reply_rx.try_recv().is_err(), "the subscriber stays silent");

    assert_eq!(reply_status(&ReplyAwaited::TimedOut), 408);
    reg.remove_slot("c", &slot_id);
    assert_eq!(reg.pending_replies("c"), 0, "the slot should no longer be in the FIFO");
}

/// Ping-pong with the subscriber disconnecting mid-wait: dropping the
/// identifier closes its reply slots, and the wait resolves to 204.
#[test]
fn scenario_ping_pong_subscriber_gone() {
    let mut reg = SingleRegistry::new();
    let (q, _rx) = queue();
    assert!(reg.user_connected("g".to_string(), "conn-g".to_string(), q));

    let (reply, mut reply_rx) = reply_pair();
    let outcome = reg.publish_message("g", Mode::PingPong, "text/plain", b"x".to_vec(), reply);
    assert!(matches!(outcome, PublishOutcome::AwaitingReply(_)));

    // the reader exits: identifier and FIFO go away, the slot's sender drops
    reg.user_disconnected("g", "conn-g");
    assert!(!reg.has_reply_fifo("g"));
    assert!(matches!(
        reply_rx.try_recv(),
        Err(tokio::sync::oneshot::error::TryRecvError::Closed)
    ));
    assert_eq!(reply_status(&ReplyAwaited::ChannelClosed), 204);
}

/// Broadcast fan-out: both subscribers of `d` receive the text frame and the
/// publisher is told 200.
#[test]
fn scenario_broadcast_fan_out() {
    let mut reg = BroadcastRegistry::new();
    let (q1, mut rx1) = queue();
    let (q2, mut rx2) = queue();
    assert!(reg.broadcast_subscribe("d".to_string(), 1, q1));
    assert!(reg.broadcast_subscribe("d".to_string(), 2, q2));

    let (outcome, failed) = reg.broadcast_publish("d", "text/plain", b"ping".to_vec());
    assert!(matches!(outcome, BroadcastOutcome::Accepted));
    assert_eq!(outcome.status_code(), 200);
    assert!(failed.is_empty());

    for rx in [&mut rx1, &mut rx2] {
        match rx.try_recv().expect("each subscriber should receive the frame") {
            Message::Text(s) => assert_eq!(s, "ping"),
            _ => panic!("expected a text frame with payload ping"),
        }
    }
}

/// Broadcast with a dead recipient: the live subscriber of `e` receives the
/// binary frame, the dead one is pruned, and the publisher is told 200.
#[test]
fn scenario_broadcast_dead_recipient() {
    let mut reg = BroadcastRegistry::new();
    let (q1, mut rx1) = queue();
    let (q2, rx2) = queue();
    assert!(reg.broadcast_subscribe("e".to_string(), 1, q1));
    assert!(reg.broadcast_subscribe("e".to_string(), 2, q2));

    drop(rx2); // S2's socket closes

    let (outcome, failed) =
        reg.broadcast_publish("e", "application/octet-stream", b"x".to_vec());
    assert!(matches!(outcome, BroadcastOutcome::Accepted));
    assert_eq!(failed, vec![2]);

    match rx1.try_recv().expect("S1 should receive the frame") {
        Message::Binary(b) => assert_eq!(b, b"x".to_vec()),
        _ => panic!("expected a binary frame"),
    }
    assert_eq!(reg.connection_count("e"), 1, "exactly one entry (S1) should remain");
}
