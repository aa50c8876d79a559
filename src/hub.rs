use vstd::prelude::*;

use crate::model::{Message, MessageView};
use vstd::pervasive::VecAdditionalExecFns;

verus! {

/// What a subscriber reads next: a message, or notice that this many
/// messages were dropped because its buffer was full.
#[derive(Clone, Debug)]
pub enum Delivery {
    Message(Message),
    Overrun(u64),
}

pub enum DeliveryView {
    Message(MessageView),
    Overrun(u64),
}

impl View for Delivery {
    type V = DeliveryView;

    open spec fn view(&self) -> DeliveryView {
        match self {
            Delivery::Message(m) => DeliveryView::Message(m@),
            Delivery::Overrun(n) => DeliveryView::Overrun(*n),
        }
    }
}

pub open spec fn delivery_option(d: Option<Delivery>) -> Option<DeliveryView> {
    match d {
        Some(x) => Some(x@),
        None => None,
    }
}

/// One live subscription: its room filter, the messages waiting for it, in
/// the order they were published, and how many were dropped after those.
pub struct Subscriber {
    id: u64,
    room_filter: Option<i32>,
    buffer: Vec<Message>,
    dropped: u64,
}

pub struct SubscriberView {
    pub id: u64,
    pub room_filter: Option<i32>,
    pub buffer: Seq<MessageView>,
    pub dropped: u64,
}

impl View for Subscriber {
    type V = SubscriberView;

    closed spec fn view(&self) -> SubscriberView {
        SubscriberView {
            id: self.id,
            room_filter: self.room_filter,
            buffer: self.buffer@.map_values(|m: Message| m@),
            dropped: self.dropped,
        }
    }
}

/// Whether a subscription with this filter shows the message.
pub open spec fn accepts(room_filter: Option<i32>, m: MessageView) -> bool {
    match room_filter {
        Some(r) => m.room_id == r,
        None => true,
    }
}

/// Handing a published message to one subscriber: it waits in the buffer
/// when there is room and nothing was dropped before it; otherwise it is
/// dropped and counted, so that the subscriber learns of the gap in order.
pub open spec fn offer(s: SubscriberView, m: MessageView, capacity: usize) -> SubscriberView {
    if s.dropped == 0 && s.buffer.len() < capacity {
        SubscriberView { buffer: s.buffer.push(m), ..s }
    } else {
        SubscriberView { dropped: if s.dropped == u64::MAX { u64::MAX } else { (s.dropped + 1) as u64 }, ..s }
    }
}

/// The next delivery of a subscriber: the oldest waiting message that its
/// filter accepts (those it does not accept are discarded on the way); when
/// none is left, the notice of dropped messages, if any; else nothing.
pub open spec fn deliver(s: SubscriberView) -> (SubscriberView, Option<DeliveryView>)
    decreases s.buffer.len(),
{
    if s.buffer.len() > 0 {
        let m = s.buffer[0];
        let rest = SubscriberView { buffer: s.buffer.drop_first(), ..s };
        if accepts(s.room_filter, m) {
            (rest, Some(DeliveryView::Message(m)))
        } else {
            deliver(rest)
        }
    } else if s.dropped > 0 {
        (SubscriberView { dropped: 0, ..s }, Some(DeliveryView::Overrun(s.dropped)))
    } else {
        (s, None)
    }
}

/// A subscriber with a room filter is only ever handed messages of that
/// room.
pub proof fn lemma_filter_holds(s: SubscriberView)
    ensures
        deliver(s).1 matches Some(DeliveryView::Message(m)) ==> accepts(s.room_filter, m),
        deliver(s).0.room_filter == s.room_filter,
        deliver(s).0.id == s.id,
        deliver(s).0.buffer.len() <= s.buffer.len(),
    decreases s.buffer.len(),
{
    if s.buffer.len() > 0 {
        let rest = SubscriberView { buffer: s.buffer.drop_first(), ..s };
        if !accepts(s.room_filter, s.buffer[0]) {
            lemma_filter_holds(rest);
        }
    }
}

impl Subscriber {
    fn new(id: u64, room_filter: Option<i32>) -> (r: Subscriber)
        ensures
            r@ == (SubscriberView { id, room_filter, buffer: Seq::empty(), dropped: 0 }),
    {
        let r = Subscriber { id, room_filter, buffer: Vec::new(), dropped: 0 };
        assert(r@.buffer =~= Seq::<MessageView>::empty());
        r
    }

    fn offer(&mut self, m: &Message, capacity: usize)
        ensures
            final(self)@ == offer(old(self)@, m@, capacity),
    {
        if self.dropped == 0 && self.buffer.len() < capacity {
            let ghost before = self@;
            self.buffer.push(m.duplicate());
            assert(self@.buffer =~= before.buffer.push(m@));
        } else if self.dropped < u64::MAX {
            self.dropped = self.dropped + 1;
        }
    }

    fn take_next(&mut self) -> (r: Option<Delivery>)
        ensures
            (final(self)@, delivery_option(r)) == deliver(old(self)@),
    {
        while self.buffer.len() > 0
            invariant
                deliver(self@) == deliver(old(self)@),
            decreases self.buffer@.len(),
        {
            let ghost before = self@;
            let m = self.buffer.remove(0);
            assert(self@.buffer =~= before.buffer.drop_first());
            let keep = match self.room_filter {
                Some(r) => m.room_id == r,
                None => true,
            };
            if keep {
                return Some(Delivery::Message(m));
            }
        }
        if self.dropped > 0 {
            let n = self.dropped;
            self.dropped = 0;
            Some(Delivery::Overrun(n))
        } else {
            None
        }
    }
}

/// The fan-out point for newly stored messages. Each subscriber has its own
/// buffer of at most `capacity` messages; publishing never waits on one.
pub struct Hub {
    subscribers: Vec<Subscriber>,
    next_id: u64,
    capacity: usize,
}

pub struct HubState {
    pub subscribers: Seq<SubscriberView>,
    pub next_id: u64,
    pub capacity: usize,
}

impl View for Hub {
    type V = HubState;

    closed spec fn view(&self) -> HubState {
        HubState {
            subscribers: self.subscribers@.map_values(|s: Subscriber| s@),
            next_id: self.next_id,
            capacity: self.capacity,
        }
    }
}

/// Subscription ids are handed out in increasing order and never reused.
pub open spec fn hub_valid(h: HubState) -> bool {
    &&& forall|i: int, j: int|
        0 <= i < j < h.subscribers.len() ==> #[trigger] h.subscribers[i].id < #[trigger] h.subscribers[j].id
    &&& forall|i: int| 0 <= i < h.subscribers.len() ==> #[trigger] h.subscribers[i].id < h.next_id
}

pub open spec fn subscriber_exists(h: HubState, id: u64) -> bool {
    exists|i: int| 0 <= i < h.subscribers.len() && (#[trigger] h.subscribers[i]).id == id
}

pub open spec fn subscriber_index(h: HubState, id: u64) -> int {
    choose|i: int| 0 <= i < h.subscribers.len() && (#[trigger] h.subscribers[i]).id == id
}

pub open spec fn subscribe_spec(h: HubState, room_filter: Option<i32>) -> (HubState, Option<u64>) {
    if h.next_id == u64::MAX {
        (h, None)
    } else {
        let s = SubscriberView { id: h.next_id, room_filter, buffer: Seq::empty(), dropped: 0 };
        (HubState { subscribers: h.subscribers.push(s), next_id: (h.next_id + 1) as u64, ..h }, Some(h.next_id))
    }
}

pub open spec fn subscription_not(id: u64) -> spec_fn(SubscriberView) -> bool {
    |s: SubscriberView| s.id != id
}

pub open spec fn unsubscribe_spec(h: HubState, id: u64) -> HubState {
    HubState { subscribers: h.subscribers.filter(subscription_not(id)), ..h }
}

pub open spec fn publish_spec(h: HubState, m: MessageView) -> HubState {
    HubState { subscribers: h.subscribers.map_values(|s: SubscriberView| offer(s, m, h.capacity)), ..h }
}

pub open spec fn next_event_spec(h: HubState, id: u64) -> (HubState, Option<DeliveryView>) {
    if subscriber_exists(h, id) {
        let i = subscriber_index(h, id);
        let (s, d) = deliver(h.subscribers[i]);
        (HubState { subscribers: h.subscribers.update(i, s), ..h }, d)
    } else {
        (h, None)
    }
}

impl Hub {
    /// A hub without subscribers whose buffers hold up to `capacity`
    /// messages each.
    pub fn new(capacity: usize) -> (r: Hub)
        ensures
            hub_valid(r@),
            r@ == (HubState { subscribers: Seq::empty(), next_id: 0, capacity }),
    {
        let r = Hub { subscribers: Vec::new(), next_id: 0, capacity };
        assert(r@.subscribers =~= Seq::<SubscriberView>::empty());
        r
    }

    /// Opens a subscription, optionally limited to one room, and returns its
    /// id; `None` once every id has been handed out. It sees only messages
    /// published from now on.
    pub fn subscribe(&mut self, room_filter: Option<i32>) -> (r: Option<u64>)
        requires
            hub_valid(old(self)@),
        ensures
            hub_valid(final(self)@),
            (final(self)@, r) == subscribe_spec(old(self)@, room_filter),
    {
        if self.next_id == u64::MAX {
            return None;
        }
        let id = self.next_id;
        let ghost before = self@;
        let s = Subscriber::new(id, room_filter);
        self.subscribers.push(s);
        self.next_id = self.next_id + 1;
        assert(self@.subscribers =~= before.subscribers.push(SubscriberView { id, room_filter, buffer: Seq::empty(), dropped: 0 }));
        Some(id)
    }

    /// Closes a subscription and frees its buffer. Closing one that is not
    /// open changes nothing.
    pub fn unsubscribe(&mut self, id: u64)
        requires
            hub_valid(old(self)@),
        ensures
            hub_valid(final(self)@),
            final(self)@ == unsubscribe_spec(old(self)@, id),
    {
        let ghost h = self@;
        let ghost pred = subscription_not(id);
        let mut kept: Vec<Subscriber> = Vec::new();
        while self.subscribers.len() > 0
            invariant
                hub_valid(h),
                pred == subscription_not(id),
                self.next_id == h.next_id,
                self.capacity == h.capacity,
                self@.subscribers.len() <= h.subscribers.len(),
                self@.subscribers == h.subscribers.subrange(h.subscribers.len() - self@.subscribers.len(), h.subscribers.len() as int),
                kept@.map_values(|s: Subscriber| s@) == h.subscribers.subrange(0, h.subscribers.len() - self@.subscribers.len()).filter(pred),
                forall|a: int, b: int| 0 <= a < b < kept@.len() ==> #[trigger] kept@[a]@.id < #[trigger] kept@[b]@.id,
                forall|a: int| 0 <= a < kept@.len() ==> #[trigger] kept@[a]@.id < h.next_id,
                forall|a: int| 0 <= a < kept@.len() && self@.subscribers.len() > 0 ==> #[trigger] kept@[a]@.id < self@.subscribers[0].id,
            decreases self.subscribers@.len(),
        {
            let ghost done = h.subscribers.len() - self@.subscribers.len();
            let ghost before = kept@.map_values(|s: Subscriber| s@);
            let ghost rest = self@.subscribers;
            let s = self.subscribers.remove(0);
            proof {
                assert(self@.subscribers =~= rest.drop_first());
                assert(s@ == h.subscribers[done]);
                let pre = h.subscribers.subrange(0, done);
                assert(h.subscribers.subrange(0, done + 1) =~= pre.push(s@));
                pre.lemma_filter_push(s@, pred);
                if rest.len() > 1 {
                    assert(rest[0].id < rest[1].id) by {
                        assert(h.subscribers[done].id < h.subscribers[done + 1].id);
                    }
                }
            }
            if s.id != id {
                kept.push(s);
                assert(kept@.map_values(|s: Subscriber| s@) =~= before.push(rest[0]));
            }
        }
        assert(h.subscribers.subrange(0, h.subscribers.len() as int) =~= h.subscribers);
        self.subscribers = kept;
    }

    /// Hands a message to every open subscription. Never blocks and never
    /// fails: a subscriber whose buffer is full has the message counted as
    /// dropped instead.
    pub fn publish(&mut self, m: &Message)
        requires
            hub_valid(old(self)@),
        ensures
            hub_valid(final(self)@),
            final(self)@ == publish_spec(old(self)@, m@),
    {
        let ghost h = self@;
        let mut i: usize = 0;
        while i < self.subscribers.len()
            invariant
                hub_valid(h),
                self.next_id == h.next_id,
                self.capacity == h.capacity,
                i <= self@.subscribers.len(),
                self@.subscribers.len() == h.subscribers.len(),
                self.subscribers@.len() == h.subscribers.len(),
                forall|j: int| 0 <= j < i ==> #[trigger] self@.subscribers[j] == offer(h.subscribers[j], m@, h.capacity),
                forall|j: int| i <= j < self@.subscribers.len() ==> #[trigger] self@.subscribers[j] == h.subscribers[j],
            decreases h.subscribers.len() - i,
        {
            let ghost before = self@.subscribers;
            assert(self@.subscribers[i as int] == h.subscribers[i as int]);
            assert(self.subscribers@[i as int]@ == h.subscribers[i as int]);
            let mut s = Subscriber::new(0, None);
            self.subscribers.set_and_swap(i, &mut s);
            assert(s@ == h.subscribers[i as int]);
            s.offer(m, self.capacity);
            self.subscribers.set(i, s);
            assert(self@.subscribers =~= before.update(i as int, offer(h.subscribers[i as int], m@, h.capacity)));
            i = i + 1;
        }
        assert(self@.subscribers =~= h.subscribers.map_values(|s: SubscriberView| offer(s, m@, h.capacity)));
    }

    /// The next delivery of a subscription (see `deliver`); nothing for an
    /// id that is not open.
    pub fn next_event(&mut self, id: u64) -> (r: Option<Delivery>)
        requires
            hub_valid(old(self)@),
        ensures
            hub_valid(final(self)@),
            (final(self)@, delivery_option(r)) == next_event_spec(old(self)@, id),
    {
        let ghost h = self@;
        let mut i: usize = 0;
        while i < self.subscribers.len()
            invariant
                self@ == h,
                h == old(self)@,
                hub_valid(h),
                i <= h.subscribers.len(),
                self.subscribers@.len() == h.subscribers.len(),
                forall|j: int| 0 <= j < i ==> (#[trigger] h.subscribers[j]).id != id,
            decreases h.subscribers.len() - i,
        {
            if self.subscribers[i].id == id {
                proof {
                    assert(h.subscribers[i as int].id == id);
                    let k = subscriber_index(h, id);
                    if k < i {
                        assert(h.subscribers[k].id < h.subscribers[i as int].id);
                    } else if k > i {
                        assert(h.subscribers[i as int].id < h.subscribers[k].id);
                    }
                }
                assert(self.subscribers@[i as int]@ == h.subscribers[i as int]);
                let mut s = Subscriber::new(0, None);
                self.subscribers.set_and_swap(i, &mut s);
                assert(s@ == h.subscribers[i as int]);
                let d = s.take_next();
                proof {
                    lemma_filter_holds(h.subscribers[i as int]);
                }
                self.subscribers.set(i, s);
                assert(self@.subscribers =~= h.subscribers.update(i as int, deliver(h.subscribers[i as int]).0));
                return d;
            }
            i = i + 1;
        }
        None
    }
}

} // verus!
