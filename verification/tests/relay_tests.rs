use chat_relay::codec::encode;
use chat_relay::decoder::FrameDecoder;
use chat_relay::hub::Hub;
use chat_relay::msg::Message;
use chat_relay::relay::{frame_input, handle_incoming};

fn frame_of(user: &str, text: &str) -> Vec<u8> {
    let m = Message::new(user.to_string(), text.to_string());
    encode(&m).expect("message fits a frame")
}

#[test]
fn frame_input_stamps_the_user_name() {
    let user = "alice".to_string();
    let framed = frame_input(&user, "hi".to_string()).expect("message fits a frame");
    assert_eq!(framed, frame_of("alice", "hi"));
}

#[test]
fn two_clients_exchange_a_message() {
    // a server hub with one subscription per connected client's writer
    let mut hub = Hub::new(256);
    let alice_sub = hub.subscribe();
    let bob_sub = hub.subscribe();

    // alice's socket bytes arrive at her connection's reader
    let mut alice_reader = FrameDecoder::new();
    let bad = handle_incoming(&mut alice_reader, &mut hub, &frame_of("alice", "hi"));
    assert_eq!(bad, 0);

    // bob's writer takes the message and frames it for his socket
    let to_bob = hub.recv(bob_sub).expect("bob observes the publish");
    assert_eq!(to_bob.user, "alice");
    assert_eq!(to_bob.message, "hi");

    // bob's client decodes the frame for display
    let mut bob_client = FrameDecoder::new();
    bob_client.feed(&encode(&to_bob).expect("message fits a frame"));
    let (shown, bad2) = bob_client.drain();
    assert_eq!(bad2, 0);
    assert_eq!(shown.len(), 1);
    assert_eq!(shown[0].user, "alice");
    assert_eq!(shown[0].message, "hi");

    // the sender's own writer received it too: fan-out is to everyone
    assert_eq!(hub.recv(alice_sub).unwrap().message, "hi");
}

#[test]
fn late_client_misses_the_earlier_send() {
    let mut hub = Hub::new(256);
    let alice_sub = hub.subscribe();
    let mut alice_reader = FrameDecoder::new();
    handle_incoming(&mut alice_reader, &mut hub, &frame_of("alice", "hi"));

    // bob connects only after alice's send was fanned out
    let bob_sub = hub.subscribe();
    assert!(hub.recv(bob_sub).is_none());
    assert_eq!(hub.recv(alice_sub).unwrap().message, "hi");
}

#[test]
fn corrupt_frame_does_not_stop_delivery() {
    let mut hub = Hub::new(256);
    let sub = hub.subscribe();
    let mut reader = FrameDecoder::new();

    let mut bytes = frame_of("alice", "before");
    bytes.extend_from_slice(&[3, 0, 0, 0, 0xFF, 0xFF, 0xFF]);
    bytes.extend_from_slice(&frame_of("alice", "after"));
    let bad = handle_incoming(&mut reader, &mut hub, &bytes);

    assert_eq!(bad, 1);
    assert_eq!(hub.recv(sub).unwrap().message, "before");
    assert_eq!(hub.recv(sub).unwrap().message, "after");
    assert!(hub.recv(sub).is_none());
}

#[test]
fn split_reads_publish_once_complete() {
    let mut hub = Hub::new(256);
    let sub = hub.subscribe();
    let mut reader = FrameDecoder::new();

    let f = frame_of("alice", "split");
    let bad1 = handle_incoming(&mut reader, &mut hub, &f[..5]);
    assert_eq!(bad1, 0);
    assert!(hub.recv(sub).is_none());
    let bad2 = handle_incoming(&mut reader, &mut hub, &f[5..]);
    assert_eq!(bad2, 0);
    assert_eq!(hub.recv(sub).unwrap().message, "split");
}

#[test]
fn disconnecting_one_client_leaves_the_rest_served() {
    let mut hub = Hub::new(256);
    let alice_sub = hub.subscribe();
    let bob_sub = hub.subscribe();

    // alice's socket closes: her connection tears down its subscription
    hub.unsubscribe(alice_sub);

    // carol, still connected, sends through her reader
    let mut carol_reader = FrameDecoder::new();
    let bad = handle_incoming(&mut carol_reader, &mut hub, &frame_of("carol", "still here"));
    assert_eq!(bad, 0);

    // bob keeps receiving, the departed connection holds nothing
    assert_eq!(hub.recv(bob_sub).unwrap().message, "still here");
    assert_eq!(hub.pending_count(alice_sub), 0);
}
