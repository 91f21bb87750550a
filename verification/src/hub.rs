//! The broadcast hub: the in-process publish/subscribe point.
//!
//! One publish fans the message out to every current subscription.
//! Each subscription owns a bounded delivery buffer of the hub's
//! capacity: when the buffer is full, that subscriber's oldest
//! buffered message is dropped and counted, the publisher is never
//! blocked, and no other subscriber is affected. A subscription
//! created after a publish never sees that message: its buffer starts
//! empty, with no replay.

use vstd::pervasive::VecAdditionalExecFns;
use vstd::prelude::*;

use crate::msg::{Message, MessageView};

verus! {

/// One subscription's state inside the hub.
struct Subscriber {
    active: bool,
    buf: Vec<Message>,
    dropped: u64,
}

/// A delivery buffer after one publish: the message is appended, and
/// when the buffer is already at capacity the oldest entry leaves
/// first.
pub open spec fn publish_buf(buf: Seq<MessageView>, cap: nat, m: MessageView) -> Seq<MessageView> {
    if buf.len() < cap {
        buf.push(m)
    } else {
        buf.drop_first().push(m)
    }
}

/// A drop counter after one more drop: it saturates rather than wraps.
pub open spec fn inc_sat(d: u64) -> u64 {
    if d < u64::MAX {
        (d + 1) as u64
    } else {
        d
    }
}

/// The drop counter after one publish against a buffer of length `len`.
pub open spec fn publish_dropped(len: nat, cap: nat, d: u64) -> u64 {
    if len < cap {
        d
    } else {
        inc_sat(d)
    }
}

/// The hub: the only state shared between connections. Subscriptions
/// are identified by the index they were handed out at; an index is
/// never reused.
pub struct Hub {
    capacity: usize,
    subs: Vec<Subscriber>,
}

impl Hub {
    /// The fixed capacity of every delivery buffer.
    pub closed spec fn capacity(self) -> nat {
        self.capacity as nat
    }

    /// How many subscriptions were ever created.
    pub closed spec fn sub_count(self) -> nat {
        self.subs@.len()
    }

    /// Whether subscription `id` is still registered.
    pub closed spec fn is_active(self, id: int) -> bool {
        self.subs@[id].active
    }

    /// The messages delivered to subscription `id` and not yet taken,
    /// oldest first.
    pub closed spec fn buffer(self, id: int) -> Seq<MessageView> {
        self.subs@[id].buf.deep_view()
    }

    /// How many messages were dropped on subscription `id` for lag.
    pub closed spec fn dropped(self, id: int) -> u64 {
        self.subs@[id].dropped
    }

    /// Every delivery buffer fits the capacity.
    pub closed spec fn wf(self) -> bool {
        &&& self.capacity >= 1
        &&& forall|i: int|
            0 <= i < self.subs@.len() ==> (#[trigger] self.subs@[i].buf@.len()) <= self.capacity
    }

    /// A hub with no subscriptions yet.
    pub fn new(capacity: usize) -> (h: Hub)
        requires
            capacity >= 1,
        ensures
            h.wf(),
            h.capacity() == capacity,
            h.sub_count() == 0,
    {
        Hub { capacity, subs: Vec::new() }
    }

    /// Registers a new consumer and returns its subscription id. It
    /// never fails. The buffer starts empty: messages published before
    /// this call are never delivered to the new subscription.
    pub fn subscribe(&mut self) -> (id: usize)
        requires
            old(self).wf(),
        ensures
            final(self).wf(),
            id == old(self).sub_count(),
            final(self).sub_count() == old(self).sub_count() + 1,
            final(self).capacity() == old(self).capacity(),
            final(self).is_active(id as int),
            final(self).buffer(id as int) == Seq::<MessageView>::empty(),
            final(self).dropped(id as int) == 0,
            forall|j: int|
                0 <= j < old(self).sub_count() ==> #[trigger] final(self).is_active(j) == old(
                    self,
                ).is_active(j),
            forall|j: int|
                0 <= j < old(self).sub_count() ==> #[trigger] final(self).buffer(j) == old(
                    self,
                ).buffer(j),
            forall|j: int|
                0 <= j < old(self).sub_count() ==> #[trigger] final(self).dropped(j) == old(
                    self,
                ).dropped(j),
    {
        let id = self.subs.len();
        self.subs.push(Subscriber { active: true, buf: Vec::new(), dropped: 0 });
        proof {
            assert(self.buffer(id as int) =~= Seq::<MessageView>::empty());
        }
        id
    }

    /// Destroys subscription `id`: later publishes are no longer
    /// delivered to it and its buffered messages are released.
    pub fn unsubscribe(&mut self, id: usize)
        requires
            old(self).wf(),
            id < old(self).sub_count(),
        ensures
            final(self).wf(),
            final(self).sub_count() == old(self).sub_count(),
            final(self).capacity() == old(self).capacity(),
            !final(self).is_active(id as int),
            final(self).buffer(id as int) == Seq::<MessageView>::empty(),
            final(self).dropped(id as int) == old(self).dropped(id as int),
            forall|j: int|
                0 <= j < old(self).sub_count() && j != id ==> #[trigger] final(self).is_active(j)
                    == old(self).is_active(j),
            forall|j: int|
                0 <= j < old(self).sub_count() && j != id ==> #[trigger] final(self).buffer(j)
                    == old(self).buffer(j),
            forall|j: int|
                0 <= j < old(self).sub_count() && j != id ==> #[trigger] final(self).dropped(j)
                    == old(self).dropped(j),
    {
        let mut sub = Subscriber { active: false, buf: Vec::new(), dropped: 0 };
        self.subs.set_and_swap(id, &mut sub);
        let dropped = sub.dropped;
        self.subs.set(id, Subscriber { active: false, buf: Vec::new(), dropped });
        proof {
            assert(self.buffer(id as int) =~= Seq::<MessageView>::empty());
        }
    }

    /// Delivers the message to every active subscription, appending it
    /// to each buffer and dropping that subscriber's oldest entry when
    /// its buffer is full. It never blocks on a slow subscriber, a drop
    /// raises that subscriber's counter, and one subscriber's state
    /// never affects another's delivery.
    pub fn publish(&mut self, m: &Message)
        requires
            old(self).wf(),
        ensures
            final(self).wf(),
            final(self).sub_count() == old(self).sub_count(),
            final(self).capacity() == old(self).capacity(),
            forall|i: int|
                0 <= i < old(self).sub_count() ==> #[trigger] final(self).is_active(i) == old(
                    self,
                ).is_active(i),
            forall|i: int|
                0 <= i < old(self).sub_count() && old(self).is_active(i)
                    ==> #[trigger] final(self).buffer(i) == publish_buf(
                    old(self).buffer(i),
                    old(self).capacity(),
                    m@,
                ),
            forall|i: int|
                0 <= i < old(self).sub_count() && old(self).is_active(i)
                    ==> #[trigger] final(self).dropped(i) == publish_dropped(
                    old(self).buffer(i).len(),
                    old(self).capacity(),
                    old(self).dropped(i),
                ),
            forall|i: int|
                0 <= i < old(self).sub_count() && !old(self).is_active(i)
                    ==> #[trigger] final(self).buffer(i) == old(self).buffer(i)
                    && final(self).dropped(i) == old(self).dropped(i),
    {
        let n = self.subs.len();
        let mut i: usize = 0;
        while i < n
            invariant
                self.wf(),
                n == self.sub_count(),
                n == old(self).sub_count(),
                i <= n,
                self.capacity() == old(self).capacity(),
                forall|j: int|
                    0 <= j < n ==> #[trigger] self.is_active(j) == old(self).is_active(j),
                forall|j: int|
                    i <= j < n ==> #[trigger] self.subs@[j] == old(self).subs@[j],
                forall|j: int|
                    0 <= j < i && old(self).is_active(j) ==> #[trigger] self.buffer(j)
                        == publish_buf(old(self).buffer(j), old(self).capacity(), m@),
                forall|j: int|
                    0 <= j < i && old(self).is_active(j) ==> #[trigger] self.dropped(j)
                        == publish_dropped(
                        old(self).buffer(j).len(),
                        old(self).capacity(),
                        old(self).dropped(j),
                    ),
                forall|j: int|
                    0 <= j < i && !old(self).is_active(j) ==> #[trigger] self.buffer(j) == old(
                        self,
                    ).buffer(j),
                forall|j: int|
                    0 <= j < i && !old(self).is_active(j) ==> #[trigger] self.dropped(j) == old(
                        self,
                    ).dropped(j),
            decreases n - i,
        {
            let ghost prev = *self;
            let ghost s_pre = prev.subs@;
            let mut sub = Subscriber { active: false, buf: Vec::new(), dropped: 0 };
            self.subs.set_and_swap(i, &mut sub);
            proof {
                assert(sub == s_pre[i as int]);
                assert(s_pre[i as int] == old(self).subs@[i as int]);
            }
            let ghost pre_buf = sub.buf.deep_view();
            let ghost pre_dropped = sub.dropped;
            let ghost pre_active = sub.active;
            if sub.active {
                if sub.buf.len() >= self.capacity {
                    sub.buf.remove(0);
                    sub.dropped = if sub.dropped < u64::MAX {
                        sub.dropped + 1
                    } else {
                        sub.dropped
                    };
                    proof {
                        assert(sub.buf.deep_view() =~= pre_buf.drop_first());
                        assert(sub.dropped == publish_dropped(
                            pre_buf.len(),
                            old(self).capacity(),
                            pre_dropped,
                        ));
                    }
                }
                sub.buf.push(m.clone());
                proof {
                    if pre_buf.len() < old(self).capacity() {
                        assert(sub.buf.deep_view() =~= pre_buf.push(m@));
                    } else {
                        assert(sub.buf.deep_view() =~= pre_buf.drop_first().push(m@));
                    }
                    assert(sub.buf.deep_view() == publish_buf(
                        pre_buf,
                        old(self).capacity(),
                        m@,
                    ));
                }
            }
            let ghost sub_new = sub;
            self.subs.set(i, sub);
            proof {
                assert(self.subs@ =~= s_pre.update(i as int, sub_new));
                assert(prev.subs@[i as int] == old(self).subs@[i as int]);
                assert(pre_buf == prev.buffer(i as int));
                assert(pre_buf == old(self).buffer(i as int));
                assert(self.buffer(i as int) == sub_new.buf.deep_view());
                assert forall|j: int| 0 <= j < n implies #[trigger] self.is_active(j) == old(
                    self,
                ).is_active(j) by {
                    if j == i as int {
                        assert(sub_new.active == pre_active);
                        assert(prev.is_active(j) == old(self).is_active(j));
                    } else {
                        assert(self.subs@[j] == s_pre[j]);
                        assert(prev.is_active(j) == old(self).is_active(j));
                    }
                }
                assert forall|j: int|
                    0 <= j < i + 1 && old(self).is_active(j) implies #[trigger] self.buffer(j)
                    == publish_buf(old(self).buffer(j), old(self).capacity(), m@) by {
                    if j == i as int {
                    } else {
                        assert(self.subs@[j] == s_pre[j]);
                        assert(self.buffer(j) == prev.buffer(j));
                        assert(prev.buffer(j) == publish_buf(
                            old(self).buffer(j),
                            old(self).capacity(),
                            m@,
                        ));
                    }
                }
                assert forall|j: int|
                    0 <= j < i + 1 && old(self).is_active(j) implies #[trigger] self.dropped(j)
                    == publish_dropped(
                    old(self).buffer(j).len(),
                    old(self).capacity(),
                    old(self).dropped(j),
                ) by {
                    if j == i as int {
                    } else {
                        assert(self.subs@[j] == s_pre[j]);
                        assert(self.dropped(j) == prev.dropped(j));
                        assert(prev.dropped(j) == publish_dropped(
                            old(self).buffer(j).len(),
                            old(self).capacity(),
                            old(self).dropped(j),
                        ));
                    }
                }
                assert forall|j: int|
                    0 <= j < i + 1 && !old(self).is_active(j) implies #[trigger] self.buffer(j)
                    == old(self).buffer(j) && self.dropped(j) == old(self).dropped(j) by {
                    if j == i as int {
                        assert(!pre_active);
                        assert(sub_new == s_pre[j]);
                        assert(prev.buffer(j) == old(self).buffer(j));
                        assert(prev.dropped(j) == old(self).dropped(j));
                    } else {
                        assert(self.subs@[j] == s_pre[j]);
                        assert(prev.buffer(j) == old(self).buffer(j));
                        assert(prev.dropped(j) == old(self).dropped(j));
                    }
                    assert(self.buffer(j) == old(self).buffer(j));
                    assert(self.dropped(j) == old(self).dropped(j));
                }
                assert forall|j: int|
                    0 <= j < i + 1 && !old(self).is_active(j) implies #[trigger] self.dropped(j)
                    == old(self).dropped(j) by {
                    assert(self.buffer(j) == old(self).buffer(j));
                }
                assert forall|j: int| i + 1 <= j < n implies #[trigger] self.subs@[j] == old(
                    self,
                ).subs@[j] by {
                    assert(self.subs@[j] == s_pre[j]);
                    assert(prev.subs@[j] == old(self).subs@[j]);
                }
            }
            i = i + 1;
        }
    }

    /// Takes the oldest message delivered to subscription `id`, or
    /// `None` when nothing waits. Messages come out in the order they
    /// were delivered.
    pub fn recv(&mut self, id: usize) -> (r: Option<Message>)
        requires
            old(self).wf(),
            id < old(self).sub_count(),
        ensures
            final(self).wf(),
            final(self).sub_count() == old(self).sub_count(),
            final(self).capacity() == old(self).capacity(),
            final(self).is_active(id as int) == old(self).is_active(id as int),
            final(self).dropped(id as int) == old(self).dropped(id as int),
            old(self).buffer(id as int).len() == 0 ==> r is None && final(self).buffer(id as int)
                == old(self).buffer(id as int),
            old(self).buffer(id as int).len() > 0 ==> (r matches Some(m) && m@ == old(self).buffer(
                id as int,
            )[0] && final(self).buffer(id as int) == old(self).buffer(id as int).drop_first()),
            forall|j: int|
                0 <= j < old(self).sub_count() && j != id ==> #[trigger] final(self).is_active(j)
                    == old(self).is_active(j),
            forall|j: int|
                0 <= j < old(self).sub_count() && j != id ==> #[trigger] final(self).buffer(j)
                    == old(self).buffer(j),
            forall|j: int|
                0 <= j < old(self).sub_count() && j != id ==> #[trigger] final(self).dropped(j)
                    == old(self).dropped(j),
    {
        let mut sub = Subscriber { active: false, buf: Vec::new(), dropped: 0 };
        self.subs.set_and_swap(id, &mut sub);
        let ghost pre_buf = sub.buf.deep_view();
        let r = if sub.buf.len() == 0 {
            None
        } else {
            let m = sub.buf.remove(0);
            proof {
                assert(sub.buf.deep_view() =~= pre_buf.drop_first());
            }
            Some(m)
        };
        self.subs.set_and_swap(id, &mut sub);
        proof {
            assert(self.subs@ =~= old(self).subs@.update(
                id as int,
                self.subs@[id as int],
            ));
        }
        r
    }

    /// The capacity the hub was created with.
    pub fn capacity_of(&self) -> (c: usize)
        ensures
            c == self.capacity(),
    {
        self.capacity
    }

    /// How many subscriptions were ever created.
    pub fn subscriber_count(&self) -> (n: usize)
        ensures
            n == self.sub_count(),
    {
        self.subs.len()
    }

    /// How many messages subscription `id` has lost to lag. A drop is
    /// observable here; it is never silent.
    pub fn dropped_count(&self, id: usize) -> (d: u64)
        requires
            id < self.sub_count(),
        ensures
            d == self.dropped(id as int),
    {
        self.subs[id].dropped
    }

    /// How many delivered messages subscription `id` has not yet taken.
    pub fn pending_count(&self, id: usize) -> (n: usize)
        requires
            id < self.sub_count(),
        ensures
            n == self.buffer(id as int).len(),
    {
        self.subs[id].buf.len()
    }
}

/// Fan-out completeness: a subscriber whose buffer is not full when a
/// message is published holds every message it held before, and the
/// new message last.
pub proof fn lemma_fanout_completeness(buf: Seq<MessageView>, cap: nat, m: MessageView)
    requires
        buf.len() < cap,
    ensures
        publish_buf(buf, cap, m) == buf.push(m),
        publish_buf(buf, cap, m).last() == m,
        publish_buf(buf, cap, m).contains(m),
{
    assert(publish_buf(buf, cap, m)[buf.len() as int] == m);
}

/// Join-point semantics: a subscription created between two publishes
/// holds the later message and, if the two differ, not the earlier one.
pub proof fn lemma_join_point(cap: nat, m1: MessageView, m2: MessageView)
    requires
        cap >= 1,
    ensures
        publish_buf(Seq::<MessageView>::empty(), cap, m2) == seq![m2],
        publish_buf(Seq::<MessageView>::empty(), cap, m2).contains(m2),
        m1 != m2 ==> !publish_buf(Seq::<MessageView>::empty(), cap, m2).contains(m1),
{
    let b = publish_buf(Seq::<MessageView>::empty(), cap, m2);
    assert(b =~= seq![m2]);
    assert(b[0] == m2);
}

/// Per-subscriber order preservation: two messages that both stay in a
/// buffer across a publish keep their relative order; a publish never
/// reorders.
pub proof fn lemma_order_preservation(
    buf: Seq<MessageView>,
    cap: nat,
    m: MessageView,
    i: int,
    j: int,
)
    requires
        0 <= i < j < buf.len(),
        buf.len() >= cap ==> 1 <= i,
    ensures
        buf.len() < cap ==> publish_buf(buf, cap, m)[i] == buf[i] && publish_buf(buf, cap, m)[j]
            == buf[j],
        buf.len() >= cap ==> publish_buf(buf, cap, m)[i - 1] == buf[i] && publish_buf(
            buf,
            cap,
            m,
        )[j - 1] == buf[j],
{
}

/// Lag drop: a publish against a buffer at capacity keeps every held
/// message but the oldest, in order, and appends the new one; the
/// buffer never grows past the capacity and the publisher is never
/// stopped.
pub proof fn lemma_lag_drop(buf: Seq<MessageView>, cap: nat, m: MessageView)
    requires
        buf.len() == cap,
        cap >= 1,
    ensures
        publish_buf(buf, cap, m).len() == cap,
        publish_buf(buf, cap, m) == buf.drop_first().push(m),
        forall|k: int| 1 <= k < cap ==> #[trigger] publish_buf(buf, cap, m)[k - 1] == buf[k],
        publish_buf(buf, cap, m)[cap - 1] == m,
{
}

} // verus!
