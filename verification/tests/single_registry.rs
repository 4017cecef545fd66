use notir::message::{InboundFrame, Message};
use notir::queue::{OutboundQueue, ReplySender};
use notir::single::{Mode, PublishOutcome, ReplyAwaited, SingleRegistry, reply_status};

fn queue() -> (
    OutboundQueue,
    tokio::sync::mpsc::UnboundedReceiver<Message>,
) {
    let (tx, rx) = tokio::sync::mpsc::unbounded_channel();
    (OutboundQueue::new(tx), rx)
}

fn reply_pair() -> (ReplySender, tokio::sync::oneshot::Receiver<Vec<u8>>) {
    let (tx, rx) = tokio::sync::oneshot::channel();
    (ReplySender::new(tx), rx)
}

#[test]
fn test_single_shot_mode() {
    let mode = Mode::parse("shot").unwrap();
    assert!(matches!(mode, Mode::Shot));

    let mut reg = SingleRegistry::new();
    let user_id = "test_user_shot".to_string();
    let (q, mut rx) = queue();
    assert!(reg.user_connected(user_id.clone(), "c1".to_string(), q));
    assert!(reg.contains_id(&user_id));

    let test_message = "Hello from single shot test";
    let (reply, _reply_rx) = reply_pair();
    let outcome = reg.publish_message(
        &user_id,
        Mode::Shot,
        "text/plain",
        test_message.as_bytes().to_vec(),
        reply,
    );
    assert!(matches!(outcome, PublishOutcome::Delivered));

    let received = rx.try_recv().expect("the queue should hold the message");
    match received {
        Message::Text(s) => assert_eq!(s, test_message),
        _ => panic!("expected a text frame"),
    }

    reg.user_disconnected(&user_id, "c1");
}

#[test]
fn test_ping_pong_mode() {
    let mode = Mode::parse("ping_pong").unwrap();
    assert!(matches!(mode, Mode::PingPong));

    let mut reg = SingleRegistry::new();
    let user_id = "test_user_pingpong".to_string();
    let (q, mut rx) = queue();
    assert!(reg.user_connected(user_id.clone(), "c1".to_string(), q));

    let (reply, mut reply_rx) = reply_pair();
    let outcome = reg.publish_message(&user_id, Mode::PingPong, "text/plain", b"10".to_vec(), reply);
    let slot_id = match outcome {
        PublishOutcome::AwaitingReply(sid) => sid,
        _ => panic!("expected a pending reply"),
    };
    assert!(!slot_id.is_empty());
    assert_eq!(reg.pending_replies(&user_id), 1, "one reply slot should be pending");
    rx.try_recv().expect("the request frame should be queued");

    // the subscriber answers: its next data frame services the slot
    let response_data = b"Pong response from client".to_vec();
    let serviced = reg.single_on_frame(&user_id, InboundFrame::Binary(response_data.clone()));
    assert_eq!(serviced, Some(slot_id));

    let response = reply_rx.try_recv().expect("the reply should have been delivered");
    assert_eq!(response, response_data, "the reply bytes should match");

    reg.user_disconnected(&user_id, "c1");
}

#[test]
fn test_single_shot_user_not_found() {
    let mut reg = SingleRegistry::new();
    let non_existent_user = "non_existent_user".to_string();
    assert!(!reg.contains_id(&non_existent_user), "the user should not exist");

    let (reply, _reply_rx) = reply_pair();
    let outcome = reg.publish_message(&non_existent_user, Mode::Shot, "text/plain", b"x".to_vec(), reply);
    assert!(matches!(outcome, PublishOutcome::NotFound));
}

#[test]
fn test_ping_pong_timeout() {
    let mut reg = SingleRegistry::new();
    let user_id = "test_user_timeout".to_string();
    let (q, _rx) = queue();
    assert!(reg.user_connected(user_id.clone(), "c1".to_string(), q));

    let (reply, mut reply_rx) = reply_pair();
    let outcome = reg.publish_message(&user_id, Mode::PingPong, "text/plain", b"100".to_vec(), reply);
    let slot_id = match outcome {
        PublishOutcome::AwaitingReply(sid) => sid,
        _ => panic!("expected a pending reply"),
    };

    // the subscriber stays silent: nothing arrives on the reply channel
    assert!(reply_rx.try_recv().is_err(), "no reply should have been delivered");
    assert_eq!(reply_status(&ReplyAwaited::TimedOut), 408);

    // the timed-out publisher scans its slot out of the FIFO
    reg.remove_slot(&user_id, &slot_id);
    assert_eq!(reg.pending_replies(&user_id), 0, "the slot should be cleaned up");

    reg.user_disconnected(&user_id, "c1");
}

#[test]
fn test_mode_deserialization() {
    let default_mode = Mode::default();
    assert!(matches!(default_mode, Mode::Shot));

    let shot_mode = Mode::parse("shot").unwrap();
    assert!(matches!(shot_mode, Mode::Shot));

    let ping_pong_mode = Mode::parse("ping_pong").unwrap();
    assert!(matches!(ping_pong_mode, Mode::PingPong));
}

#[test]
fn test_user_disconnection() {
    let mut reg = SingleRegistry::new();
    let user_id = "test_disconnect_user".to_string();
    let (q, _rx) = queue();
    assert!(reg.user_connected(user_id.clone(), "c1".to_string(), q));

    // a pending ping-pong gives the user a reply-slot FIFO
    let (reply, _reply_rx) = reply_pair();
    let outcome = reg.publish_message(&user_id, Mode::PingPong, "text/plain", b"x".to_vec(), reply);
    assert!(matches!(outcome, PublishOutcome::AwaitingReply(_)));

    assert!(reg.contains_id(&user_id), "the user should exist");
    assert!(reg.has_reply_fifo(&user_id), "the reply FIFO should exist");

    reg.user_disconnected(&user_id, "c1");

    assert!(!reg.contains_id(&user_id), "the user should be removed");
    assert!(!reg.has_reply_fifo(&user_id), "the reply FIFO should be removed");
}

#[test]
fn mode_from_query_defaults() {
    assert!(matches!(Mode::from_query(None), Mode::Shot));
    assert!(matches!(Mode::from_query(Some("nonsense")), Mode::Shot));
    assert!(matches!(Mode::from_query(Some("ping_pong")), Mode::PingPong));
    assert!(matches!(Mode::from_query(Some("shot")), Mode::Shot));
    assert!(Mode::parse("Shot").is_none());
}

#[test]
fn publish_empty_id_is_rejected() {
    let mut reg = SingleRegistry::new();
    let (reply, _reply_rx) = reply_pair();
    let outcome = reg.publish_message("", Mode::Shot, "text/plain", b"x".to_vec(), reply);
    assert!(matches!(outcome, PublishOutcome::EmptyId));
}

#[test]
fn publish_invalid_utf8_is_rejected() {
    let mut reg = SingleRegistry::new();
    let (q, _rx) = queue();
    assert!(reg.user_connected("u".to_string(), "c1".to_string(), q));
    let (reply, _reply_rx) = reply_pair();
    let outcome = reg.publish_message("u", Mode::Shot, "application/json", vec![0xff, 0xfe], reply);
    assert!(matches!(outcome, PublishOutcome::InvalidUtf8));
    // the registry is untouched
    assert_eq!(reg.connections("u"), 1);
}

#[test]
fn shot_prunes_dead_connections_and_tries_next() {
    let mut reg = SingleRegistry::new();
    let (q1, rx1) = queue();
    let (q2, mut rx2) = queue();
    assert!(reg.user_connected("u".to_string(), "dead".to_string(), q1));
    assert!(reg.user_connected("u".to_string(), "live".to_string(), q2));
    drop(rx1); // the first connection's writer is gone

    let (reply, _reply_rx) = reply_pair();
    let outcome = reg.publish_message("u", Mode::Shot, "application/octet-stream", vec![7], reply);
    assert!(matches!(outcome, PublishOutcome::Delivered));
    assert_eq!(reg.connections("u"), 1, "the dead connection should be pruned");
    match rx2.try_recv().unwrap() {
        Message::Binary(b) => assert_eq!(b, vec![7]),
        _ => panic!("expected a binary frame"),
    }
}

#[test]
fn shot_with_all_connections_dead_returns_not_found_and_clears() {
    let mut reg = SingleRegistry::new();
    let (q1, rx1) = queue();
    assert!(reg.user_connected("u".to_string(), "c1".to_string(), q1));
    drop(rx1);
    // a pending slot exists too
    let (reply, _reply_rx) = reply_pair();
    // the ping-pong send also fails, so the identifier and its FIFO go away
    let outcome = reg.publish_message("u", Mode::PingPong, "text/plain", b"x".to_vec(), reply);
    assert!(matches!(outcome, PublishOutcome::NotFound));
    assert!(!reg.contains_id("u"));
    assert!(!reg.has_reply_fifo("u"));
}

#[test]
fn replies_are_serviced_in_push_order() {
    let mut reg = SingleRegistry::new();
    let (q, _rx) = queue();
    assert!(reg.user_connected("u".to_string(), "c1".to_string(), q));

    let (reply1, mut rx1) = reply_pair();
    let (reply2, mut rx2) = reply_pair();
    let sid1 = match reg.publish_message("u", Mode::PingPong, "text/plain", b"a".to_vec(), reply1) {
        PublishOutcome::AwaitingReply(sid) => sid,
        _ => panic!("expected a pending reply"),
    };
    let sid2 = match reg.publish_message("u", Mode::PingPong, "text/plain", b"b".to_vec(), reply2) {
        PublishOutcome::AwaitingReply(sid) => sid,
        _ => panic!("expected a pending reply"),
    };
    assert_eq!(reg.pending_replies("u"), 2);

    let first = reg.single_on_frame("u", InboundFrame::Text(b"first".to_vec()));
    assert_eq!(first, Some(sid1));
    let second = reg.single_on_frame("u", InboundFrame::Binary(b"second".to_vec()));
    assert_eq!(second, Some(sid2));

    assert_eq!(rx1.try_recv().unwrap(), b"first".to_vec());
    assert_eq!(rx2.try_recv().unwrap(), b"second".to_vec());
}

#[test]
fn non_data_frames_are_discarded() {
    let mut reg = SingleRegistry::new();
    let (q, _rx) = queue();
    assert!(reg.user_connected("u".to_string(), "c1".to_string(), q));
    let (reply, mut reply_rx) = reply_pair();
    let outcome = reg.publish_message("u", Mode::PingPong, "text/plain", b"x".to_vec(), reply);
    assert!(matches!(outcome, PublishOutcome::AwaitingReply(_)));

    assert_eq!(reg.single_on_frame("u", InboundFrame::Pong(vec![])), None);
    assert_eq!(reg.single_on_frame("u", InboundFrame::Ping(vec![])), None);
    assert_eq!(reg.single_on_frame("u", InboundFrame::Close), None);
    assert_eq!(reg.pending_replies("u"), 1, "no slot should be consumed");
    assert!(reply_rx.try_recv().is_err());
}

#[test]
fn data_frame_without_waiting_slot_is_dropped() {
    let mut reg = SingleRegistry::new();
    let (q, _rx) = queue();
    assert!(reg.user_connected("u".to_string(), "c1".to_string(), q));
    assert_eq!(reg.single_on_frame("u", InboundFrame::Text(b"stray".to_vec())), None);
}

#[test]
fn heartbeat_enqueues_ping() {
    let mut reg = SingleRegistry::new();
    let (q, mut rx) = queue();
    assert!(reg.user_connected("u".to_string(), "c1".to_string(), q));

    assert!(reg.heartbeat_tick("u", "c1"));
    match rx.try_recv().unwrap() {
        Message::Ping(payload) => assert!(payload.is_empty()),
        _ => panic!("expected a ping frame"),
    }

    drop(rx);
    assert!(!reg.heartbeat_tick("u", "c1"), "a closed queue ends the heartbeat");
    assert!(!reg.heartbeat_tick("u", "nosuch"), "an unknown connection ends the heartbeat");
    assert_eq!(reg.connections("u"), 1, "the heartbeat itself prunes nothing");
}

#[test]
fn disconnect_decrements_count_exactly_once() {
    let mut reg = SingleRegistry::new();
    let (q1, _rx1) = queue();
    let (q2, _rx2) = queue();
    assert!(reg.user_connected("u".to_string(), "c1".to_string(), q1));
    assert!(reg.user_connected("u".to_string(), "c2".to_string(), q2));
    assert_eq!(reg.connections("u"), 2);

    reg.user_disconnected("u", "c1");
    assert_eq!(reg.connections("u"), 1);
    // removing the same connection again is a no-op
    reg.user_disconnected("u", "c1");
    assert_eq!(reg.connections("u"), 1);
}

#[test]
fn subscribe_then_disconnect_restores_registry() {
    let mut reg = SingleRegistry::new();
    let ids = ["r1", "r2", "r3"];
    for id in ids {
        let (q, _rx) = queue();
        assert!(reg.user_connected(id.to_string(), "c".to_string(), q));
    }
    for id in ids {
        reg.user_disconnected(id, "c");
    }
    for id in ids {
        assert!(!reg.contains_id(id));
        assert!(!reg.has_reply_fifo(id));
        assert_eq!(reg.connections(id), 0);
    }
}

#[test]
fn duplicate_connection_handle_is_refused() {
    let mut reg = SingleRegistry::new();
    let (q1, _rx1) = queue();
    let (q2, _rx2) = queue();
    assert!(reg.user_connected("u".to_string(), "c1".to_string(), q1));
    assert!(!reg.user_connected("u".to_string(), "c1".to_string(), q2));
    assert_eq!(reg.connections("u"), 1);
}

#[test]
fn slot_ids_are_opaque_random_handles() {
    let mut reg = SingleRegistry::new();
    let (q, _rx) = queue();
    assert!(reg.user_connected("u".to_string(), "c1".to_string(), q));
    let (reply, _reply_rx) = reply_pair();
    match reg.publish_message("u", Mode::PingPong, "text/plain", b"x".to_vec(), reply) {
        PublishOutcome::AwaitingReply(sid) => {
            assert_eq!(sid.chars().count(), 21);
        },
        _ => panic!("expected a pending reply"),
    }
}

#[test]
fn reply_status_codes() {
    assert_eq!(reply_status(&ReplyAwaited::Reply(vec![1])), 200);
    assert_eq!(reply_status(&ReplyAwaited::ChannelClosed), 204);
    assert_eq!(reply_status(&ReplyAwaited::TimedOut), 408);
}
