//! The incremental frame decoder.
//!
//! TCP hands a connection an arbitrary byte stream with no message
//! boundaries, so the decoder buffers whatever arrives and takes
//! complete frames off the front: a frame split over several reads
//! waits until its last byte is in, and one read holding several
//! frames yields them all. A complete frame whose payload is malformed
//! is discarded and counted; it never stops the frames after it.

use vstd::bytes::{
    lemma_auto_spec_u32_to_from_le_bytes, spec_u32_from_le_bytes, spec_u32_to_le_bytes,
    u32_from_le_bytes,
};
use vstd::prelude::*;
use vstd::slice::slice_subrange;

use crate::codec::{decode_payload, encodable, lemma_payload_round_trip, msg_frame, msg_payload, payload_msg};
use crate::msg::{Message, MessageView};

verus! {

/// True when the buffered bytes start with one complete frame.
pub open spec fn has_frame(b: Seq<u8>) -> bool {
    b.len() >= 4 && b.len() - 4 >= spec_u32_from_le_bytes(b.subrange(0, 4)) as int
}

/// The payload of the first complete frame.
pub open spec fn frame_payload(b: Seq<u8>) -> Seq<u8>
    recommends
        has_frame(b),
{
    b.subrange(4, 4 + spec_u32_from_le_bytes(b.subrange(0, 4)) as int)
}

/// What remains after the first complete frame.
pub open spec fn frame_rest(b: Seq<u8>) -> Seq<u8>
    recommends
        has_frame(b),
{
    b.subrange(4 + spec_u32_from_le_bytes(b.subrange(0, 4)) as int, b.len() as int)
}

/// The payloads of all complete frames at the front of the buffer, in
/// stream order.
pub open spec fn stream_payloads(b: Seq<u8>) -> Seq<Seq<u8>>
    decreases b.len(),
{
    if has_frame(b) {
        seq![frame_payload(b)] + stream_payloads(frame_rest(b))
    } else {
        seq![]
    }
}

/// The bytes left over once every complete frame is taken: a frame
/// still waiting for its remaining bytes, or nothing.
pub open spec fn stream_rest(b: Seq<u8>) -> Seq<u8>
    decreases b.len(),
{
    if has_frame(b) {
        stream_rest(frame_rest(b))
    } else {
        b
    }
}

/// The messages of the well-formed payloads, in stream order; the
/// malformed payloads are passed over.
pub open spec fn good_msgs(ps: Seq<Seq<u8>>) -> Seq<MessageView>
    decreases ps.len(),
{
    if ps.len() == 0 {
        seq![]
    } else {
        match payload_msg(ps[0]) {
            Some(m) => seq![m] + good_msgs(ps.drop_first()),
            None => good_msgs(ps.drop_first()),
        }
    }
}

/// How many of the payloads are malformed.
pub open spec fn bad_count(ps: Seq<Seq<u8>>) -> nat
    decreases ps.len(),
{
    if ps.len() == 0 {
        0
    } else {
        (if payload_msg(ps[0]) is Some {
            0nat
        } else {
            1nat
        }) + bad_count(ps.drop_first())
    }
}

/// One step of the decoder: a decoded message, a discarded malformed
/// frame, or a request for more bytes.
pub enum DecodeStep {
    /// More bytes are needed before the next frame is complete.
    Pending,
    /// One complete, well-formed frame, taken off the buffer.
    Frame(Message),
    /// One complete but malformed frame, taken off the buffer and
    /// discarded.
    Malformed,
}

/// The decoder's state: the bytes received and not yet consumed.
pub struct FrameDecoder {
    buf: Vec<u8>,
}

impl View for FrameDecoder {
    type V = Seq<u8>;

    closed spec fn view(&self) -> Seq<u8> {
        self.buf@
    }
}

/// Unrolls `good_msgs` and `bad_count` over the first payload.
proof fn lemma_stream_cons(p: Seq<u8>, ps: Seq<Seq<u8>>)
    ensures
        good_msgs(seq![p] + ps) == (match payload_msg(p) {
            Some(m) => seq![m] + good_msgs(ps),
            None => good_msgs(ps),
        }),
        bad_count(seq![p] + ps) == (if payload_msg(p) is Some {
            0nat
        } else {
            1nat
        }) + bad_count(ps),
{
    let c = seq![p] + ps;
    assert(c[0] == p);
    assert(c.drop_first() =~= ps);
}

impl FrameDecoder {
    /// A decoder with nothing buffered.
    pub fn new() -> (r: Self)
        ensures
            r@ == Seq::<u8>::empty(),
    {
        FrameDecoder { buf: Vec::new() }
    }

    /// How many bytes wait in the buffer.
    pub fn buffered(&self) -> (n: usize)
        ensures
            n == self@.len(),
    {
        self.buf.len()
    }

    /// Appends freshly read bytes. Frames may span several calls.
    pub fn feed(&mut self, chunk: &[u8])
        ensures
            final(self)@ == old(self)@ + chunk@,
    {
        self.buf.extend_from_slice(chunk);
    }

    /// Takes the first complete frame off the buffer, if one is in.
    pub fn next_step(&mut self) -> (r: DecodeStep)
        ensures
            !has_frame(old(self)@) ==> r is Pending && final(self)@ == old(self)@,
            has_frame(old(self)@) ==> {
                &&& final(self)@ == frame_rest(old(self)@)
                &&& (match payload_msg(frame_payload(old(self)@)) {
                    Some(mv) => r matches DecodeStep::Frame(m) && m@ == mv,
                    None => r is Malformed,
                })
            },
    {
        let ghost b = self.buf@;
        if self.buf.len() < 4 {
            return DecodeStep::Pending;
        }
        let hdr: &[u8] = slice_subrange(self.buf.as_slice(), 0, 4);
        let pl: usize = u32_from_le_bytes(hdr) as usize;
        if self.buf.len() - 4 < pl {
            return DecodeStep::Pending;
        }
        let rest: Vec<u8> = self.buf.split_off(4 + pl);
        let payload: &[u8] = slice_subrange(self.buf.as_slice(), 4, 4 + pl);
        proof {
            assert(has_frame(b));
            assert(rest@ =~= frame_rest(b));
            assert(payload@ =~= frame_payload(b));
        }
        let r = match decode_payload(payload) {
            Some(m) => DecodeStep::Frame(m),
            None => DecodeStep::Malformed,
        };
        self.buf = rest;
        r
    }

    /// Takes every complete frame off the buffer: the well-formed ones
    /// become messages, in stream order; the malformed ones are counted
    /// and discarded; a trailing partial frame stays buffered. A
    /// malformed frame between two well-formed ones never withholds the
    /// later one.
    pub fn drain(&mut self) -> (r: (Vec<Message>, usize))
        ensures
            final(self)@ == stream_rest(old(self)@),
            !has_frame(final(self)@),
            r.0.deep_view() == good_msgs(stream_payloads(old(self)@)),
            r.1 == bad_count(stream_payloads(old(self)@)),
    {
        let mut out: Vec<Message> = Vec::new();
        let mut bad: usize = 0;
        let n0: usize = self.buf.len();
        loop
            invariant
                good_msgs(stream_payloads(old(self)@)) == out.deep_view() + good_msgs(
                    stream_payloads(self@),
                ),
                bad_count(stream_payloads(old(self)@)) == bad + bad_count(stream_payloads(self@)),
                stream_rest(old(self)@) == stream_rest(self@),
                4 * bad + self@.len() <= n0,
            decreases self@.len(),
        {
            let ghost pre = self@;
            let step = self.next_step();
            match step {
                DecodeStep::Pending => {
                    proof {
                        assert(stream_payloads(pre) =~= Seq::<Seq<u8>>::empty());
                        assert(out.deep_view() + good_msgs(stream_payloads(pre)) =~= out.deep_view());
                    }
                    return (out, bad);
                },
                DecodeStep::Frame(m) => {
                    proof {
                        lemma_stream_cons(frame_payload(pre), stream_payloads(frame_rest(pre)));
                        assert(stream_payloads(pre) == seq![frame_payload(pre)] + stream_payloads(
                            frame_rest(pre),
                        ));
                    }
                    let ghost dv = out.deep_view();
                    out.push(m);
                    proof {
                        assert(out.deep_view() =~= dv.push(m@));
                        assert(dv.push(m@) + good_msgs(stream_payloads(self@)) =~= dv + (seq![m@]
                            + good_msgs(stream_payloads(self@))));
                    }
                },
                DecodeStep::Malformed => {
                    proof {
                        lemma_stream_cons(frame_payload(pre), stream_payloads(frame_rest(pre)));
                        assert(4 * bad + 4 <= n0);
                    }
                    bad = bad + 1;
                },
            }
        }
    }
}

/// Round trip: the byte stream holding exactly the frame of an
/// encodable message is one complete frame, decodes to exactly that
/// message, and leaves nothing behind.
pub proof fn lemma_stream_round_trip(m: MessageView)
    requires
        encodable(m),
    ensures
        has_frame(msg_frame(m)),
        stream_payloads(msg_frame(m)) == seq![msg_payload(m)],
        good_msgs(stream_payloads(msg_frame(m))) == seq![m],
        bad_count(stream_payloads(msg_frame(m))) == 0,
        stream_rest(msg_frame(m)) == Seq::<u8>::empty(),
{
    lemma_auto_spec_u32_to_from_le_bytes();
    lemma_payload_round_trip(m);
    let f = msg_frame(m);
    let p = msg_payload(m);
    assert(f.subrange(0, 4) =~= spec_u32_to_le_bytes(p.len() as u32));
    assert(has_frame(f));
    assert(frame_payload(f) =~= p);
    assert(frame_rest(f) =~= Seq::<u8>::empty());
    assert(!has_frame(Seq::<u8>::empty()));
    assert(stream_payloads(Seq::<u8>::empty()) =~= Seq::<Seq<u8>>::empty());
    assert(stream_payloads(f) =~= seq![p]);
    lemma_stream_cons(p, Seq::<Seq<u8>>::empty());
    assert(seq![p] =~= seq![p] + Seq::<Seq<u8>>::empty());
    assert(good_msgs(stream_payloads(f)) =~= seq![m]);
    assert(stream_rest(f) == stream_rest(Seq::<u8>::empty()));
}

/// Malformed-frame resilience: a malformed payload standing between two
/// well-formed ones is dropped, and both of its neighbours still come
/// through, in order.
pub proof fn lemma_malformed_between(p1: Seq<u8>, p2: Seq<u8>, p3: Seq<u8>)
    requires
        payload_msg(p1) is Some,
        payload_msg(p2) is None,
        payload_msg(p3) is Some,
    ensures
        good_msgs(seq![p1, p2, p3]) == seq![payload_msg(p1).unwrap(), payload_msg(p3).unwrap()],
        bad_count(seq![p1, p2, p3]) == 1,
{
    let empty = Seq::<Seq<u8>>::empty();
    assert(seq![p1, p2, p3] =~= seq![p1] + seq![p2, p3]);
    assert(seq![p2, p3] =~= seq![p2] + seq![p3]);
    assert(seq![p3] =~= seq![p3] + empty);
    lemma_stream_cons(p1, seq![p2, p3]);
    lemma_stream_cons(p2, seq![p3]);
    lemma_stream_cons(p3, empty);
    assert(good_msgs(empty) == Seq::<MessageView>::empty());
    assert(bad_count(empty) == 0);
    assert(good_msgs(seq![p1, p2, p3]) =~= seq![payload_msg(p1).unwrap(), payload_msg(p3).unwrap()]);
}

} // verus!
