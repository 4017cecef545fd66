use notir::broadcast::{BroadcastOutcome, BroadcastRegistry};
use notir::message::Message;
use notir::queue::OutboundQueue;

fn queue() -> (
    OutboundQueue,
    tokio::sync::mpsc::UnboundedReceiver<Message>,
) {
    let (tx, rx) = tokio::sync::mpsc::unbounded_channel();
    (OutboundQueue::new(tx), rx)
}

#[test]
fn test_broadcast_users_pool() {
    let mut reg = BroadcastRegistry::new();
    let user_id = "test_broadcast_user".to_string();
    let (q, _rx) = queue();
    assert!(reg.broadcast_subscribe(user_id.clone(), 1, q));

    assert!(reg.contains_id(&user_id), "the user should be in the pool");
    assert_eq!(reg.connection_count(&user_id), 1, "there should be one connection");

    reg.broadcast_user_disconnected(&user_id, 1);
    assert!(!reg.contains_id(&user_id));
}

#[test]
fn test_broadcast_multiple_connections() {
    let mut reg = BroadcastRegistry::new();
    let user_id = "test_multi_broadcast_user".to_string();
    let (q1, _rx1) = queue();
    let (q2, _rx2) = queue();
    assert!(reg.broadcast_subscribe(user_id.clone(), 1, q1));
    assert!(reg.broadcast_subscribe(user_id.clone(), 2, q2));

    assert!(reg.contains_id(&user_id), "the user should be in the pool");
    assert_eq!(reg.connection_count(&user_id), 2, "there should be two connections");
}

#[test]
fn test_broadcast_message_distribution() {
    let mut reg = BroadcastRegistry::new();
    let user_id = "test_message_dist_user".to_string();
    let (q1, mut rx1) = queue();
    let (q2, mut rx2) = queue();
    assert!(reg.broadcast_subscribe(user_id.clone(), 1, q1));
    assert!(reg.broadcast_subscribe(user_id.clone(), 2, q2));

    let test_message = "Broadcast test message";
    let (outcome, failed) =
        reg.broadcast_publish(&user_id, "text/plain", test_message.as_bytes().to_vec());
    assert!(matches!(outcome, BroadcastOutcome::Accepted));
    assert!(failed.is_empty());

    for rx in [&mut rx1, &mut rx2] {
        match rx.try_recv().expect("each connection should receive the message") {
            Message::Text(s) => assert_eq!(s, test_message),
            _ => panic!("expected a text frame"),
        }
    }
}

#[test]
fn test_broadcast_failed_connection_cleanup() {
    let mut reg = BroadcastRegistry::new();
    let user_id = "test_cleanup_user".to_string();
    let (q1, rx1) = queue();
    let (q2, _rx2) = queue();
    assert!(reg.broadcast_subscribe(user_id.clone(), 1, q1));
    assert!(reg.broadcast_subscribe(user_id.clone(), 2, q2));

    drop(rx1); // the first connection is gone

    let (outcome, failed) =
        reg.broadcast_publish(&user_id, "text/plain", b"Test cleanup message".to_vec());
    assert!(matches!(outcome, BroadcastOutcome::Accepted));
    assert_eq!(failed.len(), 1, "one connection should have failed");

    assert_eq!(reg.connection_count(&user_id), 1, "one connection should remain");
}

#[test]
fn test_broadcast_empty_user_cleanup() {
    let mut reg = BroadcastRegistry::new();
    let user_id = "test_empty_cleanup_user".to_string();
    let (q, rx) = queue();
    assert!(reg.broadcast_subscribe(user_id.clone(), 1, q));

    drop(rx);

    let (outcome, failed) = reg.broadcast_publish(&user_id, "text/plain", b"test".to_vec());
    assert!(matches!(outcome, BroadcastOutcome::Accepted));
    assert_eq!(failed.len(), 1);

    assert!(!reg.contains_id(&user_id), "the emptied user should be removed");
}

#[test]
fn test_broadcast_message_types() {
    let mut reg = BroadcastRegistry::new();
    let user_id = "test_message_types_user".to_string();
    let (q, mut rx) = queue();
    assert!(reg.broadcast_subscribe(user_id.clone(), 1, q));

    let (outcome, _) = reg.broadcast_publish(&user_id, "text/plain", b"Hello World".to_vec());
    assert!(matches!(outcome, BroadcastOutcome::Accepted));
    match rx.try_recv().expect("a text message should arrive") {
        Message::Text(s) => assert_eq!(s, "Hello World"),
        _ => panic!("expected a text frame"),
    }

    let (outcome, _) = reg.broadcast_publish(
        &user_id,
        "application/octet-stream",
        vec![1, 2, 3, 4],
    );
    assert!(matches!(outcome, BroadcastOutcome::Accepted));
    match rx.try_recv().expect("a binary message should arrive") {
        Message::Binary(b) => assert_eq!(b, vec![1, 2, 3, 4]),
        _ => panic!("expected a binary frame"),
    }

    assert!(reg.heartbeat_tick(&user_id, 1));
    match rx.try_recv().expect("a ping message should arrive") {
        Message::Ping(payload) => assert!(payload.is_empty()),
        _ => panic!("expected a ping frame"),
    }
}

#[test]
fn test_broadcast_concurrent_access() {
    let mut reg = BroadcastRegistry::new();
    let user_id = "test_concurrent_user".to_string();
    for i in 0..10u64 {
        let (q, _rx) = queue();
        assert!(reg.broadcast_subscribe(user_id.clone(), i, q));
    }
    assert!(reg.contains_id(&user_id), "the user should exist");
    assert_eq!(reg.connection_count(&user_id), 10, "there should be 10 connections");
}

#[test]
fn test_broadcast_connection_disconnect_scenario() {
    let mut reg = BroadcastRegistry::new();
    let user_id = "test_disconnect_scenario".to_string();
    let (q1, mut rx1) = queue();
    let (q2, rx2) = queue();
    assert!(reg.broadcast_subscribe(user_id.clone(), 1, q1));
    assert!(reg.broadcast_subscribe(user_id.clone(), 2, q2));
    assert_eq!(reg.connection_count(&user_id), 2, "there should be two connections");

    drop(rx2); // the second connection drops

    let (outcome, failed) = reg.broadcast_publish(
        &user_id,
        "text/plain",
        b"Test message after disconnect".to_vec(),
    );
    assert!(matches!(outcome, BroadcastOutcome::Accepted));
    assert_eq!(failed.len(), 1, "one connection should have failed");
    assert_eq!(failed[0], 2, "the failed one should be connection 2");

    assert!(reg.contains_id(&user_id), "the user should still exist");
    assert_eq!(reg.connection_count(&user_id), 1, "one connection should remain");

    match rx1.try_recv().expect("the remaining connection should receive the message") {
        Message::Text(s) => assert_eq!(s, "Test message after disconnect"),
        _ => panic!("expected a text frame"),
    }

    let (outcome, failed) =
        reg.broadcast_publish(&user_id, "text/plain", b"Second test message".to_vec());
    assert!(matches!(outcome, BroadcastOutcome::Accepted));
    assert!(failed.is_empty(), "sending to the remaining connection should succeed");
    match rx1.try_recv().expect("the remaining connection should receive the second message") {
        Message::Text(s) => assert_eq!(s, "Second test message"),
        _ => panic!("expected a text frame"),
    }
}

#[test]
fn test_broadcast_all_connections_disconnect() {
    let mut reg = BroadcastRegistry::new();
    let user_id = "test_all_disconnect".to_string();
    let (q1, rx1) = queue();
    let (q2, rx2) = queue();
    assert!(reg.broadcast_subscribe(user_id.clone(), 1, q1));
    assert!(reg.broadcast_subscribe(user_id.clone(), 2, q2));

    drop(rx1);
    drop(rx2);

    let (outcome, failed) = reg.broadcast_publish(
        &user_id,
        "text/plain",
        b"Message to disconnected connections".to_vec(),
    );
    assert!(matches!(outcome, BroadcastOutcome::Accepted));
    assert_eq!(failed.len(), 2, "every connection should have failed");

    assert!(!reg.contains_id(&user_id), "the user entry should be removed entirely");
}

#[test]
fn test_broadcast_partial_disconnect_multiple_users() {
    let mut reg = BroadcastRegistry::new();
    let user1 = "user1".to_string();
    let user2 = "user2".to_string();

    let (q1, mut u1rx1) = queue();
    let (q2, u1rx2) = queue();
    let (q3, mut u2rx1) = queue();
    let (q4, mut u2rx2) = queue();
    assert!(reg.broadcast_subscribe(user1.clone(), 1, q1));
    assert!(reg.broadcast_subscribe(user1.clone(), 2, q2));
    assert!(reg.broadcast_subscribe(user2.clone(), 3, q3));
    assert!(reg.broadcast_subscribe(user2.clone(), 4, q4));

    drop(u1rx2); // user1's second connection drops

    let (outcome, failed) =
        reg.broadcast_publish(&user1, "text/plain", b"Message for user1".to_vec());
    assert!(matches!(outcome, BroadcastOutcome::Accepted));
    assert_eq!(failed, vec![2]);

    assert_eq!(reg.connection_count(&user1), 1, "user1 should have one connection left");
    assert_eq!(reg.connection_count(&user2), 2, "user2 should still have two connections");

    match u1rx1.try_recv().expect("user1's remaining connection should receive the message") {
        Message::Text(s) => assert_eq!(s, "Message for user1"),
        _ => panic!("expected a text frame"),
    }

    let (outcome, failed) =
        reg.broadcast_publish(&user2, "text/plain", b"Message for user2".to_vec());
    assert!(matches!(outcome, BroadcastOutcome::Accepted));
    assert!(failed.is_empty(), "user2's sends should succeed");
    for rx in [&mut u2rx1, &mut u2rx2] {
        match rx.try_recv().expect("each of user2's connections should receive the message") {
            Message::Text(s) => assert_eq!(s, "Message for user2"),
            _ => panic!("expected a text frame"),
        }
    }
}

#[test]
fn broadcast_to_nobody_is_accepted() {
    let mut reg = BroadcastRegistry::new();
    let (outcome, failed) = reg.broadcast_publish("ghost", "text/plain", b"x".to_vec());
    assert!(matches!(outcome, BroadcastOutcome::Accepted));
    assert!(failed.is_empty());
    assert_eq!(outcome.status_code(), 200);
}

#[test]
fn broadcast_rejections() {
    let mut reg = BroadcastRegistry::new();
    let (outcome, _) = reg.broadcast_publish("", "text/plain", b"x".to_vec());
    assert!(matches!(outcome, BroadcastOutcome::EmptyId));
    assert_eq!(outcome.status_code(), 400);

    let (q, _rx) = queue();
    assert!(reg.broadcast_subscribe("e".to_string(), 1, q));
    let (outcome, _) = reg.broadcast_publish("e", "application/json", vec![0xc3, 0x28]);
    assert!(matches!(outcome, BroadcastOutcome::InvalidUtf8));
    assert_eq!(outcome.status_code(), 400);
    assert_eq!(reg.connection_count("e"), 1, "a rejected publish changes nothing");
}

#[test]
fn broadcast_subscribe_then_disconnect_restores_registry() {
    let mut reg = BroadcastRegistry::new();
    for (i, id) in ["b1", "b2", "b3"].into_iter().enumerate() {
        let (q, _rx) = queue();
        assert!(reg.broadcast_subscribe(id.to_string(), i as u64, q));
    }
    for (i, id) in ["b1", "b2", "b3"].into_iter().enumerate() {
        reg.broadcast_user_disconnected(id, i as u64);
    }
    for id in ["b1", "b2", "b3"] {
        assert!(!reg.contains_id(id));
        assert_eq!(reg.connection_count(id), 0);
    }
}

#[test]
fn broadcast_prune_twice_is_noop() {
    let mut reg = BroadcastRegistry::new();
    let (q1, _rx1) = queue();
    let (q2, _rx2) = queue();
    assert!(reg.broadcast_subscribe("u".to_string(), 1, q1));
    assert!(reg.broadcast_subscribe("u".to_string(), 2, q2));

    reg.broadcast_user_disconnected("u", 1);
    assert_eq!(reg.connection_count("u"), 1);
    reg.broadcast_user_disconnected("u", 1);
    assert_eq!(reg.connection_count("u"), 1);
}
