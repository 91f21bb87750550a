use chat_relay::hub::Hub;
use chat_relay::msg::Message;

fn msg(user: &str, text: &str) -> Message {
    Message::new(user.to_string(), text.to_string())
}

#[test]
fn fanout_reaches_every_subscriber() {
    let mut hub = Hub::new(4);
    let s1 = hub.subscribe();
    let s2 = hub.subscribe();
    hub.publish(&msg("alice", "hi"));
    let m1 = hub.recv(s1).expect("s1 observes the publish");
    let m2 = hub.recv(s2).expect("s2 observes the publish");
    assert_eq!(m1.user, "alice");
    assert_eq!(m1.message, "hi");
    assert_eq!(m2.user, "alice");
    assert_eq!(m2.message, "hi");
    assert!(hub.recv(s1).is_none());
    assert!(hub.recv(s2).is_none());
}

#[test]
fn join_point_no_replay() {
    let mut hub = Hub::new(4);
    let early = hub.subscribe();
    hub.publish(&msg("alice", "first"));
    let late = hub.subscribe();
    hub.publish(&msg("alice", "second"));
    // the late subscriber sees only the later publish
    let got = hub.recv(late).expect("late subscriber observes the later publish");
    assert_eq!(got.message, "second");
    assert!(hub.recv(late).is_none());
    // the early subscriber sees both, in order
    assert_eq!(hub.recv(early).unwrap().message, "first");
    assert_eq!(hub.recv(early).unwrap().message, "second");
}

#[test]
fn per_subscriber_order_is_kept() {
    let mut hub = Hub::new(8);
    let s = hub.subscribe();
    hub.publish(&msg("alice", "one"));
    hub.publish(&msg("bob", "two"));
    hub.publish(&msg("alice", "three"));
    assert_eq!(hub.recv(s).unwrap().message, "one");
    assert_eq!(hub.recv(s).unwrap().message, "two");
    assert_eq!(hub.recv(s).unwrap().message, "three");
    assert!(hub.recv(s).is_none());
}

#[test]
fn lag_drops_only_the_oldest() {
    let mut hub = Hub::new(2);
    let s = hub.subscribe();
    hub.publish(&msg("alice", "a"));
    hub.publish(&msg("alice", "b"));
    assert_eq!(hub.dropped_count(s), 0);
    hub.publish(&msg("alice", "c"));
    // one more publish than the capacity: exactly one message is lost,
    // the publisher was never blocked, and the rest arrive in order
    assert_eq!(hub.dropped_count(s), 1);
    assert_eq!(hub.pending_count(s), 2);
    assert_eq!(hub.recv(s).unwrap().message, "b");
    assert_eq!(hub.recv(s).unwrap().message, "c");
    assert!(hub.recv(s).is_none());
}

#[test]
fn slow_subscriber_never_affects_another() {
    let mut hub = Hub::new(1);
    let slow = hub.subscribe();
    let fast = hub.subscribe();
    hub.publish(&msg("alice", "x"));
    assert_eq!(hub.recv(fast).unwrap().message, "x");
    hub.publish(&msg("alice", "y"));
    assert_eq!(hub.recv(fast).unwrap().message, "y");
    // the slow subscriber lost the oldest message, nobody else did
    assert_eq!(hub.dropped_count(slow), 1);
    assert_eq!(hub.dropped_count(fast), 0);
    assert_eq!(hub.recv(slow).unwrap().message, "y");
}

#[test]
fn unsubscribe_stops_delivery_to_that_subscription_only() {
    let mut hub = Hub::new(4);
    let gone = hub.subscribe();
    let stays = hub.subscribe();
    hub.publish(&msg("alice", "before"));
    hub.unsubscribe(gone);
    hub.publish(&msg("bob", "after"));
    assert_eq!(hub.pending_count(gone), 0);
    assert!(hub.recv(gone).is_none());
    assert_eq!(hub.recv(stays).unwrap().message, "before");
    assert_eq!(hub.recv(stays).unwrap().message, "after");
}

#[test]
fn capacity_and_counts_are_reported() {
    let mut hub = Hub::new(16);
    assert_eq!(hub.capacity_of(), 16);
    assert_eq!(hub.subscriber_count(), 0);
    let s = hub.subscribe();
    assert_eq!(hub.subscriber_count(), 1);
    assert_eq!(hub.pending_count(s), 0);
    assert_eq!(hub.dropped_count(s), 0);
}
