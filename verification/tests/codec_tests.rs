use chat_relay::codec::encode;
use chat_relay::decoder::{DecodeStep, FrameDecoder};
use chat_relay::msg::Message;

fn frame_of(user: &str, text: &str) -> Vec<u8> {
    let m = Message::new(user.to_string(), text.to_string());
    encode(&m).expect("message fits a frame")
}

#[test]
fn encode_exact_layout() {
    // payload = name length (little-endian), name bytes, text bytes;
    // frame = payload length (little-endian), payload
    let f = frame_of("ab", "c");
    assert_eq!(f, vec![7, 0, 0, 0, 2, 0, 0, 0, 97, 98, 99]);
}

#[test]
fn round_trip_ascii() {
    let mut dec = FrameDecoder::new();
    dec.feed(&frame_of("alice", "hi"));
    match dec.next_step() {
        DecodeStep::Frame(m) => {
            assert_eq!(m.user, "alice");
            assert_eq!(m.message, "hi");
        },
        _ => panic!("expected a frame"),
    }
    assert!(matches!(dec.next_step(), DecodeStep::Pending));
}

#[test]
fn round_trip_multibyte_utf8() {
    let mut dec = FrameDecoder::new();
    dec.feed(&frame_of("héloïse", "snow \u{2603} and chat 聊天"));
    match dec.next_step() {
        DecodeStep::Frame(m) => {
            assert_eq!(m.user, "héloïse");
            assert_eq!(m.message, "snow \u{2603} and chat 聊天");
        },
        _ => panic!("expected a frame"),
    }
}

#[test]
fn round_trip_empty_text() {
    let mut dec = FrameDecoder::new();
    dec.feed(&frame_of("bob", ""));
    match dec.next_step() {
        DecodeStep::Frame(m) => {
            assert_eq!(m.user, "bob");
            assert_eq!(m.message, "");
        },
        _ => panic!("expected a frame"),
    }
}

#[test]
fn split_reads_wait_for_the_last_byte() {
    let f = frame_of("alice", "split over many reads");
    let mut dec = FrameDecoder::new();
    for b in &f[..f.len() - 1] {
        dec.feed(&[*b]);
        assert!(matches!(dec.next_step(), DecodeStep::Pending));
    }
    dec.feed(&[f[f.len() - 1]]);
    match dec.next_step() {
        DecodeStep::Frame(m) => {
            assert_eq!(m.user, "alice");
            assert_eq!(m.message, "split over many reads");
        },
        _ => panic!("expected a frame"),
    }
}

#[test]
fn coalesced_reads_yield_frames_in_order() {
    let mut both = frame_of("alice", "first");
    both.extend_from_slice(&frame_of("bob", "second"));
    let mut dec = FrameDecoder::new();
    dec.feed(&both);
    let (msgs, bad) = dec.drain();
    assert_eq!(bad, 0);
    assert_eq!(msgs.len(), 2);
    assert_eq!(msgs[0].user, "alice");
    assert_eq!(msgs[0].message, "first");
    assert_eq!(msgs[1].user, "bob");
    assert_eq!(msgs[1].message, "second");
    assert_eq!(dec.buffered(), 0);
}

#[test]
fn short_payload_is_malformed() {
    // a complete frame whose payload is too short to hold a name length
    let mut dec = FrameDecoder::new();
    dec.feed(&[2, 0, 0, 0, 0xFF, 0xFF]);
    assert!(matches!(dec.next_step(), DecodeStep::Malformed));
    assert!(matches!(dec.next_step(), DecodeStep::Pending));
}

#[test]
fn overlong_name_length_is_malformed() {
    // the payload announces 9 name bytes but holds only 1
    let mut dec = FrameDecoder::new();
    dec.feed(&[5, 0, 0, 0, 9, 0, 0, 0, 97]);
    assert!(matches!(dec.next_step(), DecodeStep::Malformed));
}

#[test]
fn invalid_utf8_is_malformed() {
    // well-framed, but the name bytes are not valid UTF-8
    let mut dec = FrameDecoder::new();
    dec.feed(&[6, 0, 0, 0, 2, 0, 0, 0, 0xC3, 0x28]);
    assert!(matches!(dec.next_step(), DecodeStep::Malformed));
}

#[test]
fn malformed_frame_between_two_good_ones() {
    let mut bytes = frame_of("alice", "before");
    bytes.extend_from_slice(&[2, 0, 0, 0, 0xFF, 0xFF]);
    bytes.extend_from_slice(&frame_of("bob", "after"));
    let mut dec = FrameDecoder::new();
    dec.feed(&bytes);
    let (msgs, bad) = dec.drain();
    assert_eq!(bad, 1);
    assert_eq!(msgs.len(), 2);
    assert_eq!(msgs[0].message, "before");
    assert_eq!(msgs[1].message, "after");
}

#[test]
fn trailing_partial_frame_stays_buffered() {
    let f = frame_of("alice", "whole");
    let tail = frame_of("bob", "partial");
    let mut bytes = f.clone();
    bytes.extend_from_slice(&tail[..3]);
    let mut dec = FrameDecoder::new();
    dec.feed(&bytes);
    let (msgs, bad) = dec.drain();
    assert_eq!(bad, 0);
    assert_eq!(msgs.len(), 1);
    assert_eq!(dec.buffered(), 3);
    dec.feed(&tail[3..]);
    let (msgs2, bad2) = dec.drain();
    assert_eq!(bad2, 0);
    assert_eq!(msgs2.len(), 1);
    assert_eq!(msgs2[0].user, "bob");
    assert_eq!(msgs2[0].message, "partial");
}
