//! The per-connection decision logic.
//!
//! A connection pairs a reader task with a writer task. The reader
//! computes here: bytes read from the socket go through the frame
//! decoder, every well-formed frame is published to the hub in stream
//! order, every malformed frame is dropped and counted without
//! terminating the connection. The writer's compute half stamps the
//! configured user name on a line of input and frames it for the
//! socket. The tasks themselves, the sockets and the signal that lets
//! either task stop its sibling are scheduling and I/O, outside this
//! library; they hand bytes in and take bytes and messages out.

use vstd::prelude::*;

use crate::codec::{encodable, encode, msg_frame};
use crate::decoder::{bad_count, good_msgs, has_frame, stream_payloads, stream_rest, FrameDecoder};
use crate::hub::{publish_buf, publish_dropped, Hub};
use crate::msg::{Message, MessageView};

verus! {

/// A delivery buffer after a sequence of publishes, first to last.
pub open spec fn publish_all(buf: Seq<MessageView>, cap: nat, ms: Seq<MessageView>) -> Seq<
    MessageView,
>
    decreases ms.len(),
{
    if ms.len() == 0 {
        buf
    } else {
        publish_all(publish_buf(buf, cap, ms[0]), cap, ms.drop_first())
    }
}

/// A subscriber's drop counter after a sequence of publishes against
/// its delivery buffer, first to last.
pub open spec fn publish_all_dropped(
    buf: Seq<MessageView>,
    cap: nat,
    ms: Seq<MessageView>,
    d: u64,
) -> u64
    decreases ms.len(),
{
    if ms.len() == 0 {
        d
    } else {
        publish_all_dropped(
            publish_buf(buf, cap, ms[0]),
            cap,
            ms.drop_first(),
            publish_dropped(buf.len(), cap, d),
        )
    }
}

/// Publishing one more message after a sequence is one publish against
/// the folded counter.
pub proof fn lemma_publish_all_dropped_snoc(
    buf: Seq<MessageView>,
    cap: nat,
    ms: Seq<MessageView>,
    m: MessageView,
    d: u64,
)
    ensures
        publish_all_dropped(buf, cap, ms.push(m), d) == publish_dropped(
            publish_all(buf, cap, ms).len(),
            cap,
            publish_all_dropped(buf, cap, ms, d),
        ),
    decreases ms.len(),
{
    if ms.len() == 0 {
        assert(ms.push(m)[0] == m);
        assert(ms.push(m).drop_first() =~= Seq::<MessageView>::empty());
        assert(publish_all_dropped(buf, cap, ms.push(m), d) == publish_all_dropped(
            publish_buf(buf, cap, m),
            cap,
            Seq::<MessageView>::empty(),
            publish_dropped(buf.len(), cap, d),
        ));
        assert(publish_all_dropped(buf, cap, ms, d) == d);
        assert(publish_all(buf, cap, ms) == buf);
    } else {
        assert(ms.push(m)[0] == ms[0]);
        assert(ms.push(m).drop_first() =~= ms.drop_first().push(m));
        assert(publish_all_dropped(buf, cap, ms.push(m), d) == publish_all_dropped(
            publish_buf(buf, cap, ms[0]),
            cap,
            ms.drop_first().push(m),
            publish_dropped(buf.len(), cap, d),
        ));
        lemma_publish_all_dropped_snoc(
            publish_buf(buf, cap, ms[0]),
            cap,
            ms.drop_first(),
            m,
            publish_dropped(buf.len(), cap, d),
        );
        assert(publish_all_dropped(buf, cap, ms, d) == publish_all_dropped(
            publish_buf(buf, cap, ms[0]),
            cap,
            ms.drop_first(),
            publish_dropped(buf.len(), cap, d),
        ));
        assert(publish_all(buf, cap, ms) == publish_all(
            publish_buf(buf, cap, ms[0]),
            cap,
            ms.drop_first(),
        ));
    }
}

/// Publishing one more message after a sequence is one publish against
/// the folded buffer.
pub proof fn lemma_publish_all_snoc(
    buf: Seq<MessageView>,
    cap: nat,
    ms: Seq<MessageView>,
    m: MessageView,
)
    ensures
        publish_all(buf, cap, ms.push(m)) == publish_buf(publish_all(buf, cap, ms), cap, m),
    decreases ms.len(),
{
    if ms.len() == 0 {
        assert(ms.push(m)[0] == m);
        assert(ms.push(m).drop_first() =~= Seq::<MessageView>::empty());
        assert(publish_all(buf, cap, ms.push(m)) == publish_all(
            publish_buf(buf, cap, m),
            cap,
            Seq::<MessageView>::empty(),
        ));
        assert(publish_all(publish_buf(buf, cap, m), cap, Seq::<MessageView>::empty())
            == publish_buf(buf, cap, m));
        assert(publish_all(buf, cap, ms) == buf);
    } else {
        assert(ms.push(m)[0] == ms[0]);
        assert(ms.push(m).drop_first() =~= ms.drop_first().push(m));
        assert(publish_all(buf, cap, ms.push(m)) == publish_all(
            publish_buf(buf, cap, ms[0]),
            cap,
            ms.drop_first().push(m),
        ));
        lemma_publish_all_snoc(publish_buf(buf, cap, ms[0]), cap, ms.drop_first(), m);
        assert(publish_all(buf, cap, ms) == publish_all(
            publish_buf(buf, cap, ms[0]),
            cap,
            ms.drop_first(),
        ));
    }
}

/// The server reader's step for one socket read: buffers the bytes,
/// takes every complete frame, and publishes each well-formed one to
/// the hub, in stream order. Malformed frames are counted and
/// discarded; they never terminate the connection and never withhold a
/// later frame. Returns how many frames were malformed.
pub fn handle_incoming(dec: &mut FrameDecoder, hub: &mut Hub, chunk: &[u8]) -> (bad: usize)
    requires
        old(hub).wf(),
    ensures
        final(hub).wf(),
        final(dec)@ == stream_rest(old(dec)@ + chunk@),
        !has_frame(final(dec)@),
        bad == bad_count(stream_payloads(old(dec)@ + chunk@)),
        final(hub).sub_count() == old(hub).sub_count(),
        final(hub).capacity() == old(hub).capacity(),
        forall|i: int|
            0 <= i < old(hub).sub_count()
                ==> #[trigger] final(hub).is_active(i) == old(hub).is_active(i),
        forall|i: int|
            0 <= i < old(hub).sub_count() && old(hub).is_active(i)
                ==> #[trigger] final(hub).buffer(i) == publish_all(
                old(hub).buffer(i),
                old(hub).capacity(),
                good_msgs(stream_payloads(old(dec)@ + chunk@)),
            ),
        forall|i: int|
            0 <= i < old(hub).sub_count() && old(hub).is_active(i)
                ==> #[trigger] final(hub).dropped(i) == publish_all_dropped(
                old(hub).buffer(i),
                old(hub).capacity(),
                good_msgs(stream_payloads(old(dec)@ + chunk@)),
                old(hub).dropped(i),
            ),
        forall|i: int|
            0 <= i < old(hub).sub_count() && !old(hub).is_active(i)
                ==> #[trigger] final(hub).buffer(i) == old(hub).buffer(i),
        forall|i: int|
            0 <= i < old(hub).sub_count() && !old(hub).is_active(i)
                ==> #[trigger] final(hub).dropped(i) == old(hub).dropped(i),
{
    dec.feed(chunk);
    let (msgs, bad) = dec.drain();
    let ghost all = good_msgs(stream_payloads(old(dec)@ + chunk@));
    proof {
        assert(msgs.deep_view() == all);
    }
    let n = msgs.len();
    let mut k: usize = 0;
    while k < n
        invariant
            hub.wf(),
            n == msgs.deep_view().len(),
            k <= n,
            msgs.deep_view() == all,
            hub.sub_count() == old(hub).sub_count(),
            hub.capacity() == old(hub).capacity(),
            forall|i: int|
                0 <= i < old(hub).sub_count() ==> #[trigger] hub.is_active(i) == old(
                    hub,
                ).is_active(i),
            forall|i: int|
                0 <= i < old(hub).sub_count() && old(hub).is_active(i) ==> #[trigger] hub.buffer(i)
                    == publish_all(
                    old(hub).buffer(i),
                    old(hub).capacity(),
                    all.take(k as int),
                ),
            forall|i: int|
                0 <= i < old(hub).sub_count() && old(hub).is_active(i) ==> #[trigger] hub.dropped(i)
                    == publish_all_dropped(
                    old(hub).buffer(i),
                    old(hub).capacity(),
                    all.take(k as int),
                    old(hub).dropped(i),
                ),
            forall|i: int|
                0 <= i < old(hub).sub_count() && !old(hub).is_active(i) ==> #[trigger] hub.buffer(
                    i,
                ) == old(hub).buffer(i),
            forall|i: int|
                0 <= i < old(hub).sub_count() && !old(hub).is_active(i) ==> #[trigger] hub.dropped(
                    i,
                ) == old(hub).dropped(i),
        decreases n - k,
    {
        let ghost prev = *hub;
        hub.publish(&msgs[k]);
        proof {
            assert(msgs@[k as int].deep_view() == all[k as int]);
            assert(all.take(k + 1) =~= all.take(k as int).push(all[k as int]));
            assert forall|i: int|
                0 <= i < old(hub).sub_count() && old(hub).is_active(i) implies #[trigger] hub.buffer(
                i,
            ) == publish_all(old(hub).buffer(i), old(hub).capacity(), all.take(k + 1)) by {
                assert(prev.is_active(i) == old(hub).is_active(i));
                assert(hub.buffer(i) == publish_buf(
                    prev.buffer(i),
                    prev.capacity(),
                    all[k as int],
                ));
                lemma_publish_all_snoc(
                    old(hub).buffer(i),
                    old(hub).capacity(),
                    all.take(k as int),
                    all[k as int],
                );
            }
            assert forall|i: int|
                0 <= i < old(hub).sub_count() && old(hub).is_active(i) implies #[trigger] hub.dropped(
                i,
            ) == publish_all_dropped(
                old(hub).buffer(i),
                old(hub).capacity(),
                all.take(k + 1),
                old(hub).dropped(i),
            ) by {
                assert(prev.is_active(i) == old(hub).is_active(i));
                assert(prev.buffer(i) == publish_all(
                    old(hub).buffer(i),
                    old(hub).capacity(),
                    all.take(k as int),
                ));
                assert(hub.dropped(i) == publish_dropped(
                    prev.buffer(i).len(),
                    prev.capacity(),
                    prev.dropped(i),
                ));
                lemma_publish_all_dropped_snoc(
                    old(hub).buffer(i),
                    old(hub).capacity(),
                    all.take(k as int),
                    all[k as int],
                    old(hub).dropped(i),
                );
            }
            assert forall|i: int|
                0 <= i < old(hub).sub_count() && !old(hub).is_active(i) implies #[trigger] hub.buffer(
                i,
            ) == old(hub).buffer(i) by {
                assert(prev.is_active(i) == old(hub).is_active(i));
                assert(hub.buffer(i) == prev.buffer(i));
            }
            assert forall|i: int|
                0 <= i < old(hub).sub_count() && !old(hub).is_active(i) implies #[trigger] hub.dropped(
                i,
            ) == old(hub).dropped(i) by {
                assert(prev.is_active(i) == old(hub).is_active(i));
                assert(hub.buffer(i) == prev.buffer(i));
                assert(hub.dropped(i) == prev.dropped(i));
            }
        }
        k = k + 1;
    }
    proof {
        assert(all.take(n as int) =~= all);
    }
    bad
}

/// The client writer's step: stamps the configured user name on one
/// line of input and frames the resulting message for the socket.
/// `None` exactly when the message would not fit a frame.
pub fn frame_input(user: &String, text: String) -> (r: Option<Vec<u8>>)
    ensures
        r is Some <==> encodable(MessageView { user: user@, message: text@ }),
        (r matches Some(f) ==> f@ == msg_frame(MessageView { user: user@, message: text@ })),
{
    let m = Message::new(user.clone(), text);
    encode(&m)
}

} // verus!
