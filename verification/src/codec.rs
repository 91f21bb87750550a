//! The wire codec: a `Message` as one self-delimiting byte frame.
//!
//! A frame is `[payload length, 4 bytes little-endian][payload]`; the
//! payload is `[name length, 4 bytes little-endian][name bytes][text
//! bytes]`, both fields UTF-8. The explicit lengths make the stream
//! self-delimiting, so partial, split and coalesced reads can all be
//! handled by the incremental decoder built on top of this module.

use vstd::bytes::{
    lemma_auto_spec_u32_to_from_le_bytes, spec_u32_from_le_bytes, spec_u32_to_le_bytes,
    u32_from_le_bytes, u32_to_le_bytes,
};
use vstd::prelude::*;
use vstd::slice::{slice_subrange, slice_to_vec};
use vstd::utf8::{decode_utf8, encode_utf8, encode_utf8_decode_utf8, encode_utf8_valid_utf8, valid_utf8};

use crate::msg::{Message, MessageView};

verus! {

/// The payload bytes for a name field `u` and a text field `t`.
pub open spec fn payload_of(u: Seq<u8>, t: Seq<u8>) -> Seq<u8>
    recommends
        u.len() <= u32::MAX,
{
    spec_u32_to_le_bytes(u.len() as u32) + u + t
}

/// The payload of a message: both fields encoded as UTF-8.
pub open spec fn msg_payload(m: MessageView) -> Seq<u8> {
    payload_of(encode_utf8(m.user), encode_utf8(m.message))
}

/// A whole frame for a payload `p`: its length, then the payload.
pub open spec fn frame_of(p: Seq<u8>) -> Seq<u8>
    recommends
        p.len() <= u32::MAX,
{
    spec_u32_to_le_bytes(p.len() as u32) + p
}

/// The frame that carries a message.
pub open spec fn msg_frame(m: MessageView) -> Seq<u8> {
    frame_of(msg_payload(m))
}

/// A message can be framed exactly when its payload length fits the
/// 32-bit length header.
pub open spec fn encodable(m: MessageView) -> bool {
    encode_utf8(m.user).len() + encode_utf8(m.message).len() + 4 <= u32::MAX
}

/// Splits a payload into its name bytes and its text bytes, or `None`
/// when the payload is too short for the name length it announces.
pub open spec fn parse_payload(p: Seq<u8>) -> Option<(Seq<u8>, Seq<u8>)> {
    if p.len() >= 4 {
        let ul = spec_u32_from_le_bytes(p.subrange(0, 4)) as int;
        if p.len() - 4 >= ul {
            Some((p.subrange(4, 4 + ul), p.subrange(4 + ul, p.len() as int)))
        } else {
            None
        }
    } else {
        None
    }
}

/// The message a payload stands for, or `None` when the payload is
/// structurally malformed or either field is not valid UTF-8.
pub open spec fn payload_msg(p: Seq<u8>) -> Option<MessageView> {
    match parse_payload(p) {
        Some((u, t)) => if valid_utf8(u) && valid_utf8(t) {
            Some(MessageView { user: decode_utf8(u), message: decode_utf8(t) })
        } else {
            None
        },
        None => None,
    }
}

/// Round trip, payload level: the payload built from any encodable
/// message decodes back to exactly that message.
pub proof fn lemma_payload_round_trip(m: MessageView)
    requires
        encodable(m),
    ensures
        payload_msg(msg_payload(m)) == Some(m),
{
    broadcast use encode_utf8_valid_utf8, encode_utf8_decode_utf8;

    let u = encode_utf8(m.user);
    let t = encode_utf8(m.message);
    let p = msg_payload(m);
    lemma_auto_spec_u32_to_from_le_bytes();
    assert(p.subrange(0, 4) =~= spec_u32_to_le_bytes(u.len() as u32));
    assert(p.subrange(4, 4 + u.len() as int) =~= u);
    assert(p.subrange(4 + u.len() as int, p.len() as int) =~= t);
    assert(payload_msg(p) == Some(MessageView { user: decode_utf8(u), message: decode_utf8(t) }));
    assert(MessageView { user: decode_utf8(u), message: decode_utf8(t) } =~= m);
}

/// Relies on `String::from_utf8`: it returns `Ok` exactly when the given
/// bytes are valid UTF-8, and the returned string is those bytes decoded.
#[verifier::external_body]
fn utf8_to_string(v: Vec<u8>) -> (r: Option<String>)
    ensures
        r is Some <==> valid_utf8(v@),
        (r matches Some(s) ==> s@ == decode_utf8(v@)),
{
    String::from_utf8(v).ok()
}

/// Encodes a message into one frame, or `None` when the payload would
/// overflow the 32-bit length header.
pub fn encode(m: &Message) -> (r: Option<Vec<u8>>)
    ensures
        r is Some <==> encodable(m@),
        (r matches Some(f) ==> f@ == msg_frame(m@)),
{
    let ub: &[u8] = m.user.as_str().as_bytes();
    let tb: &[u8] = m.message.as_str().as_bytes();
    let max: usize = u32::MAX as usize;
    if ub.len() > max - 4 || tb.len() > max - 4 - ub.len() {
        return None;
    }
    let plen: u32 = 4 + ub.len() as u32 + tb.len() as u32;
    let mut out: Vec<u8> = u32_to_le_bytes(plen);
    let mut uhdr: Vec<u8> = u32_to_le_bytes(ub.len() as u32);
    out.append(&mut uhdr);
    out.extend_from_slice(ub);
    out.extend_from_slice(tb);
    proof {
        assert(out@ =~= msg_frame(m@));
    }
    Some(out)
}

/// Decodes one complete payload into a message: reads the name length,
/// splits the name from the text, and validates both fields as UTF-8.
pub fn decode_payload(p: &[u8]) -> (r: Option<Message>)
    ensures
        r is Some <==> payload_msg(p@) is Some,
        (r matches Some(m) ==> payload_msg(p@) == Some(m@)),
{
    if p.len() < 4 {
        return None;
    }
    let hdr: &[u8] = slice_subrange(p, 0, 4);
    let ul32: u32 = u32_from_le_bytes(hdr);
    let ul: usize = ul32 as usize;
    if p.len() - 4 < ul {
        return None;
    }
    let ub: Vec<u8> = slice_to_vec(slice_subrange(p, 4, 4 + ul));
    let tb: Vec<u8> = slice_to_vec(slice_subrange(p, 4 + ul, p.len()));
    let user = match utf8_to_string(ub) {
        Some(s) => s,
        None => {
            return None;
        },
    };
    let text = match utf8_to_string(tb) {
        Some(s) => s,
        None => {
            return None;
        },
    };
    Some(Message::new(user, text))
}

} // verus!
