use vstd::prelude::*;

use crate::hub::{
    hub_valid, lemma_filter_holds, next_event_spec, publish_spec, subscribe_spec, subscriber_exists,
    subscriber_index, subscription_not, unsubscribe_spec, DeliveryView, HubState,
};
use crate::model::{MarkerView, MessageView, NewRoomView, RoomView};
use crate::participants::{canonical_pair, is_pair_of, lemma_canonical_pair_ignores_order};
use crate::text::lemma_text_lt_asymmetric;
use crate::service::{send_spec, NewMessageView};
use crate::state::{
    add_participant_spec, append_spec, counted, lemma_rooms_kept, room_exists, room_index, create_room_spec, delete_room_spec,
    find_or_create_spec, first_with_members, has_members, in_room, last_message_id, last_read_of,
    mark_read_spec, marker_exists, marker_index, marker_not_in, message_not_in, put_room_spec,
    room_messages, room_not, room_of, room_with_members, same_key, send_check, unread_spec,
    update_room_spec, valid, StoreState,
};

verus! {

/// `b` comes no earlier than `a` in the history of a store: the next message
/// id has not moved back. No operation of the store moves it back.
pub open spec fn no_earlier(a: StoreState, b: StoreState) -> bool {
    a.next_message_id <= b.next_message_id
}

/// Ids of successful sends to a room strictly increase: a message stored
/// from a later state has a larger id than one stored before.
pub proof fn lemma_send_ids_increase(
    st: StoreState,
    later: StoreState,
    room_id: i32,
    sender1: Seq<char>,
    message1: Seq<char>,
    time1: i64,
    sender2: Seq<char>,
    message2: Seq<char>,
    time2: i64,
)
    requires
        valid(st),
        append_spec(st, room_id, sender1, message1, time1).1 is Ok,
        no_earlier(append_spec(st, room_id, sender1, message1, time1).0, later),
        append_spec(later, room_id, sender2, message2, time2).1 is Ok,
    ensures
        append_spec(st, room_id, sender1, message1, time1).1->Ok_0.id
            < append_spec(later, room_id, sender2, message2, time2).1->Ok_0.id,
{
}

/// No operation moves the next message id back, so `no_earlier` holds
/// along any history of a store and `lemma_send_ids_increase` applies to
/// any two successful sends of it, whatever came between them.
pub proof fn lemma_operations_never_move_ids_back(
    st: StoreState,
    h: HubState,
    room_id: i32,
    user: Seq<char>,
    names: Seq<Seq<char>>,
    room: NewRoomView,
    req: NewMessageView,
    requested: Option<i64>,
    now: i64,
)
    ensures
        no_earlier(st, append_spec(st, req.room_id, req.sender, req.message, now).0),
        no_earlier(st, send_spec(st, h, req, now).0),
        no_earlier(st, create_room_spec(st, names).0),
        no_earlier(st, find_or_create_spec(st, names).0),
        no_earlier(st, add_participant_spec(st, room_id, user).0),
        no_earlier(st, update_room_spec(st, room_id, names).0),
        no_earlier(st, put_room_spec(st, room).0),
        no_earlier(st, mark_read_spec(st, room_id, user, requested, now).0),
        no_earlier(st, delete_room_spec(st, room_id)),
{
}

proof fn lemma_sorted_filter(s: Seq<MessageView>, p: spec_fn(MessageView) -> bool)
    requires
        forall|i: int, j: int| 0 <= i < j < s.len() ==> #[trigger] s[i].id < #[trigger] s[j].id,
    ensures
        forall|i: int, j: int|
            0 <= i < j < s.filter(p).len() ==> #[trigger] s.filter(p)[i].id < #[trigger] s.filter(p)[j].id,
    decreases s.len(),
{
    reveal(Seq::filter);
    if s.len() > 0 {
        let rest = s.drop_last();
        lemma_sorted_filter(rest, p);
        let f = rest.filter(p);
        if p(s.last()) {
            assert forall|i: int| 0 <= i < f.len() implies #[trigger] f[i].id < s.last().id by {
                assert(f.contains(f[i]));
                rest.lemma_filter_contains_rev(p, f[i]);
                let k = choose|k: int| 0 <= k < rest.len() && rest[k] == f[i];
                assert(s[k].id < s[s.len() - 1].id);
            }
            assert(s.filter(p) == f.push(s.last()));
        }
    }
}

/// The messages of a room come out in strictly increasing id order.
pub proof fn lemma_room_messages_ascending(st: StoreState, room_id: i32)
    requires
        valid(st),
    ensures
        forall|i: int, j: int|
            0 <= i < j < room_messages(st, room_id).len() ==> #[trigger] room_messages(st, room_id)[i].id
                < #[trigger] room_messages(st, room_id)[j].id,
{
    lemma_sorted_filter(st.messages, in_room(room_id));
}

/// Marking a room read without naming a message covers all of it: right
/// after, the user has nothing unread there.
pub proof fn lemma_mark_all_read_leaves_nothing_unread(st: StoreState, room_id: i32, user: Seq<char>, now: i64)
    requires
        valid(st),
        mark_read_spec(st, room_id, user, None, now).1 is Ok,
    ensures
        unread_spec(mark_read_spec(st, room_id, user, None, now).0, room_id, user) == 0,
{
    broadcast use vstd::seq_lib::group_filter_ensures;
    let s1 = mark_read_spec(st, room_id, user, None, now).0;
    let resolved = last_message_id(st, room_id);
    let mk = MarkerView { room_id, user, last_read_message_id: resolved, updated_at: now };
    if marker_exists(st, room_id, user) {
        let k = marker_index(st, room_id, user);
        assert(s1.markers == st.markers.update(k, mk));
        assert(s1.markers[k] == mk);
        let j = marker_index(s1, room_id, user);
        if j != k {
            assert(s1.markers[j] == st.markers[j]);
            assert(same_key(st.markers[j], st.markers[k]));
        }
    } else {
        let n = st.markers.len() as int;
        assert(s1.markers == st.markers.push(mk));
        assert(s1.markers[n] == mk);
        let j = marker_index(s1, room_id, user);
        if j != n {
            assert(s1.markers[j] == st.markers[j]);
        }
    }
    assert(last_read_of(s1, room_id, user) == resolved);
    let rm = room_messages(st, room_id);
    lemma_room_messages_ascending(st, room_id);
    let pred = counted(room_id, resolved, None);
    assert forall|i: int| 0 <= i < st.messages.len() implies !pred(#[trigger] st.messages[i]) by {
        if st.messages[i].room_id == room_id {
            st.messages.lemma_filter_contains(in_room(room_id), i);
            let p = choose|p: int| 0 <= p < rm.len() && rm[p] == st.messages[i];
            if p < rm.len() - 1 {
                assert(rm[p].id < rm[rm.len() - 1].id);
            }
        }
    }
    assert(st.messages.all(|m: MessageView| !pred(m)));
    st.messages.lemma_all_neg_filter_empty(pred);
    assert(s1.messages == st.messages);
}

/// A send whose sender or body is blank, or whose body is too long, stores
/// nothing and publishes nothing.
pub proof fn lemma_rejected_send_changes_nothing(st: StoreState, h: HubState, req: NewMessageView, now: i64)
    requires
        send_check(req.sender, req.message) is Some,
    ensures
        send_spec(st, h, req, now) == (st, h, Err::<MessageView, _>(send_check(req.sender, req.message)->Some_0)),
{
}

/// A subscription limited to room `r` is never handed a message of another
/// room.
pub proof fn lemma_subscription_sees_only_its_room(h: HubState, id: u64, r: i32)
    requires
        subscriber_exists(h, id),
        h.subscribers[subscriber_index(h, id)].room_filter == Some(r),
    ensures
        next_event_spec(h, id).1 matches Some(DeliveryView::Message(m)) ==> m.room_id == r,
{
    lemma_filter_holds(h.subscribers[subscriber_index(h, id)]);
}

/// The room filter of an open subscription.
pub open spec fn filter_of(h: HubState, id: u64) -> Option<i32> {
    h.subscribers[subscriber_index(h, id)].room_filter
}

proof fn lemma_same_slot(h: HubState, g: HubState, id: u64)
    requires
        hub_valid(h),
        subscriber_exists(h, id),
        h.subscribers.len() <= g.subscribers.len(),
        forall|k: int|
            0 <= k < h.subscribers.len() ==> (#[trigger] g.subscribers[k]).id == h.subscribers[k].id
                && g.subscribers[k].room_filter == h.subscribers[k].room_filter,
        forall|k: int| h.subscribers.len() <= k < g.subscribers.len() ==> (#[trigger] g.subscribers[k]).id >= h.next_id,
    ensures
        subscriber_exists(g, id),
        filter_of(g, id) == filter_of(h, id),
{
    let k = subscriber_index(h, id);
    assert(g.subscribers[k].id == id);
    let q = subscriber_index(g, id);
    if q >= h.subscribers.len() {
        assert(h.subscribers[k].id < h.next_id);
    } else if q < k {
        assert(h.subscribers[q].id < h.subscribers[k].id);
    } else if q > k {
        assert(h.subscribers[k].id < h.subscribers[q].id);
    }
}

/// A subscription keeps the room filter it was opened with for as long as
/// it is open, whatever is published, read or closed meanwhile; together
/// with `lemma_subscription_sees_only_its_room` this gives that it never
/// sees a message of another room over its whole life.
pub proof fn lemma_subscription_filter_fixed(h: HubState, id: u64, m: MessageView, other: u64, f: Option<i32>)
    requires
        hub_valid(h),
        subscriber_exists(h, id),
        other != id,
    ensures
        subscriber_exists(publish_spec(h, m), id),
        filter_of(publish_spec(h, m), id) == filter_of(h, id),
        subscriber_exists(next_event_spec(h, other).0, id),
        filter_of(next_event_spec(h, other).0, id) == filter_of(h, id),
        subscriber_exists(next_event_spec(h, id).0, id),
        filter_of(next_event_spec(h, id).0, id) == filter_of(h, id),
        subscriber_exists(subscribe_spec(h, f).0, id),
        filter_of(subscribe_spec(h, f).0, id) == filter_of(h, id),
        subscriber_exists(unsubscribe_spec(h, other), id),
        filter_of(unsubscribe_spec(h, other), id) == filter_of(h, id),
{
    lemma_same_slot(h, publish_spec(h, m), id);
    if subscriber_exists(h, other) {
        lemma_filter_holds(h.subscribers[subscriber_index(h, other)]);
    }
    lemma_same_slot(h, next_event_spec(h, other).0, id);
    lemma_filter_holds(h.subscribers[subscriber_index(h, id)]);
    lemma_same_slot(h, next_event_spec(h, id).0, id);
    lemma_same_slot(h, subscribe_spec(h, f).0, id);
    let pred = subscription_not(other);
    let g = unsubscribe_spec(h, other);
    let k = subscriber_index(h, id);
    h.subscribers.lemma_filter_contains(pred, k);
    let j = choose|j: int| 0 <= j < g.subscribers.len() && g.subscribers[j] == h.subscribers[k];
    assert(g.subscribers[j].id == id);
    let q = subscriber_index(g, id);
    assert(g.subscribers.contains(g.subscribers[q]));
    h.subscribers.lemma_filter_contains_rev(pred, g.subscribers[q]);
    let p = choose|p: int| 0 <= p < h.subscribers.len() && h.subscribers[p] == g.subscribers[q];
    if p < k {
        assert(h.subscribers[p].id < h.subscribers[k].id);
    } else if p > k {
        assert(h.subscribers[k].id < h.subscribers[p].id);
    }
}

/// A new subscription has the filter it was opened with.
pub proof fn lemma_new_subscription_filter(h: HubState, f: Option<i32>)
    requires
        hub_valid(h),
    ensures
        subscribe_spec(h, f).1 matches Some(n) ==> subscriber_exists(subscribe_spec(h, f).0, n)
            && filter_of(subscribe_spec(h, f).0, n) == f,
{
    if let Some(n) = subscribe_spec(h, f).1 {
        let g = subscribe_spec(h, f).0;
        let last = h.subscribers.len() as int;
        assert(g.subscribers[last].id == n);
        let q = subscriber_index(g, n);
        if q < last {
            assert(h.subscribers[q].id < h.next_id);
        }
    }
}

proof fn lemma_first_exists(rooms: Seq<RoomView>, key: Seq<Seq<char>>, i: int)
    requires
        has_members(rooms, key, i),
    ensures
        exists|k: int| first_with_members(rooms, key, k),
    decreases i,
{
    if exists|j: int| 0 <= j < i && has_members(rooms, key, j) {
        let j = choose|j: int| 0 <= j < i && has_members(rooms, key, j);
        lemma_first_exists(rooms, key, j);
    } else {
        assert(first_with_members(rooms, key, i));
    }
}

/// A successful `find_or_create` leaves a valid store.
proof fn lemma_find_or_create_valid(st: StoreState, a: Seq<Seq<char>>)
    requires
        valid(st),
        find_or_create_spec(st, a).1 is Ok,
    ensures
        valid(find_or_create_spec(st, a).0),
{
    let pair = canonical_pair(a)->Some_0;
    assert(is_pair_of(a, pair));
    lemma_text_lt_asymmetric(pair[0], pair[0]);
    if room_with_members(st.rooms, pair) is None {
        let s1 = find_or_create_spec(st, a).0;
        lemma_rooms_kept(st, s1);
        assert(pair.no_duplicates());
    }
}

/// After a successful `find_or_create`, looking the pair up again leads to
/// the room it returned.
proof fn lemma_lookup_after(st: StoreState, a: Seq<Seq<char>>)
    requires
        find_or_create_spec(st, a).1 is Ok,
    ensures
        room_with_members(find_or_create_spec(st, a).0.rooms, canonical_pair(a)->Some_0) is Some,
        find_or_create_spec(st, a).0.rooms[room_with_members(find_or_create_spec(st, a).0.rooms, canonical_pair(a)->Some_0)->Some_0]
            == find_or_create_spec(st, a).1->Ok_0,
{
    let pair = canonical_pair(a)->Some_0;
    match room_with_members(st.rooms, pair) {
        Some(i) => {},
        None => {
            let s1 = find_or_create_spec(st, a).0;
            let n = st.rooms.len() as int;
            assert(s1.rooms == st.rooms.push(RoomView { id: st.next_room_id, pair, participants: pair }));
            assert forall|j: int| 0 <= j < n implies !#[trigger] has_members(s1.rooms, pair, j) by {
                if has_members(s1.rooms, pair, j) {
                    assert(has_members(st.rooms, pair, j));
                    lemma_first_exists(st.rooms, pair, j);
                }
            }
            assert(first_with_members(s1.rooms, pair, n));
            let k = choose|k: int| first_with_members(s1.rooms, pair, k);
            if k < n {
                assert(has_members(s1.rooms, pair, k));
            } else if k > n {
                assert(has_members(s1.rooms, pair, n));
            }
            assert(room_with_members(s1.rooms, pair) == Some(n));
        },
    }
}

/// `find_or_create` on the same two names, in any order, returns the same
/// room, and the second call creates nothing.
pub proof fn lemma_find_or_create_same_room(st: StoreState, a: Seq<Seq<char>>, b: Seq<Seq<char>>)
    requires
        forall|x: Seq<char>| a.contains(x) <==> b.contains(x),
        find_or_create_spec(st, a).1 is Ok,
    ensures
        find_or_create_spec(find_or_create_spec(st, a).0, b) == find_or_create_spec(st, a),
{
    lemma_canonical_pair_ignores_order(a, b);
    lemma_lookup_after(st, a);
}

/// From a store without a room for the pair, `find_or_create` leaves
/// exactly one room for it: no duplicate is made.
pub proof fn lemma_find_or_create_makes_one_room(st: StoreState, a: Seq<Seq<char>>)
    requires
        find_or_create_spec(st, a).1 is Ok,
        forall|i: int| !has_members(st.rooms, canonical_pair(a)->Some_0, i),
    ensures
        forall|i: int, j: int|
            has_members(find_or_create_spec(st, a).0.rooms, canonical_pair(a)->Some_0, i)
                && has_members(find_or_create_spec(st, a).0.rooms, canonical_pair(a)->Some_0, j) ==> i == j,
{
    let pair = canonical_pair(a)->Some_0;
    if room_with_members(st.rooms, pair) is Some {
        let i = room_with_members(st.rooms, pair)->Some_0;
        assert(first_with_members(st.rooms, pair, i));
    }
    let s1 = find_or_create_spec(st, a).0;
    assert(s1.rooms == st.rooms.push(RoomView { id: st.next_room_id, pair, participants: pair }));
    assert forall|i: int, j: int| has_members(s1.rooms, pair, i) && has_members(s1.rooms, pair, j) implies i == j by {
        if i < st.rooms.len() {
            assert(has_members(st.rooms, pair, i));
        }
        if j < st.rooms.len() {
            assert(has_members(st.rooms, pair, j));
        }
    }
}

/// `b` can follow `a` as far as rooms go: a room whose id was handed out
/// by the time of `a` was in `a` already, with the same pair. Rooms are
/// only ever added with new ids and never change their pair.
pub open spec fn rooms_carry_over(a: StoreState, b: StoreState) -> bool {
    &&& a.next_room_id <= b.next_room_id
    &&& forall|j: int|
        0 <= j < b.rooms.len() && (#[trigger] b.rooms[j]).id < a.next_room_id ==> exists|i: int|
            0 <= i < a.rooms.len() && (#[trigger] a.rooms[i]).id == b.rooms[j].id && a.rooms[i].pair == b.rooms[j].pair
}

proof fn lemma_carry_over_by_position(a: StoreState, b: StoreState)
    requires
        a.next_room_id <= b.next_room_id,
        a.rooms.len() <= b.rooms.len(),
        forall|k: int| 0 <= k < a.rooms.len() ==> (#[trigger] b.rooms[k]).id == a.rooms[k].id && b.rooms[k].pair == a.rooms[k].pair,
        forall|k: int| a.rooms.len() <= k < b.rooms.len() ==> (#[trigger] b.rooms[k]).id >= a.next_room_id,
    ensures
        rooms_carry_over(a, b),
{
    assert forall|j: int| 0 <= j < b.rooms.len() && (#[trigger] b.rooms[j]).id < a.next_room_id implies exists|i: int|
        0 <= i < a.rooms.len() && (#[trigger] a.rooms[i]).id == b.rooms[j].id && a.rooms[i].pair == b.rooms[j].pair by {
        assert(a.rooms[j].id == b.rooms[j].id);
    }
}

/// `rooms_carry_over` chains: it holds along any history of a store.
pub proof fn lemma_carry_over_chains(a: StoreState, b: StoreState, c: StoreState)
    requires
        rooms_carry_over(a, b),
        rooms_carry_over(b, c),
    ensures
        rooms_carry_over(a, c),
{
    assert forall|j: int| 0 <= j < c.rooms.len() && (#[trigger] c.rooms[j]).id < a.next_room_id implies exists|i: int|
        0 <= i < a.rooms.len() && (#[trigger] a.rooms[i]).id == c.rooms[j].id && a.rooms[i].pair == c.rooms[j].pair by {
        let k = choose|k: int| 0 <= k < b.rooms.len() && (#[trigger] b.rooms[k]).id == c.rooms[j].id && b.rooms[k].pair == c.rooms[j].pair;
        assert(b.rooms[k].id < a.next_room_id);
    }
}

proof fn lemma_carry_append(st: StoreState, room_id: i32, sender: Seq<char>, message: Seq<char>, now: i64)
    ensures
        rooms_carry_over(st, append_spec(st, room_id, sender, message, now).0),
{
    lemma_carry_over_by_position(st, append_spec(st, room_id, sender, message, now).0);
}

proof fn lemma_carry_add_participant(st: StoreState, room_id: i32, user: Seq<char>)
    ensures
        rooms_carry_over(st, add_participant_spec(st, room_id, user).0),
{
    lemma_carry_over_by_position(st, add_participant_spec(st, room_id, user).0);
}

proof fn lemma_carry_update(st: StoreState, room_id: i32, names: Seq<Seq<char>>)
    ensures
        rooms_carry_over(st, update_room_spec(st, room_id, names).0),
{
    lemma_carry_over_by_position(st, update_room_spec(st, room_id, names).0);
}

proof fn lemma_carry_create(st: StoreState, names: Seq<Seq<char>>)
    requires
        valid(st),
    ensures
        rooms_carry_over(st, create_room_spec(st, names).0),
        rooms_carry_over(st, find_or_create_spec(st, names).0),
{
    lemma_carry_over_by_position(st, create_room_spec(st, names).0);
    lemma_carry_over_by_position(st, find_or_create_spec(st, names).0);
}

proof fn lemma_carry_mark_read(st: StoreState, room_id: i32, user: Seq<char>, requested: Option<i64>, now: i64)
    ensures
        rooms_carry_over(st, mark_read_spec(st, room_id, user, requested, now).0),
{
    lemma_carry_over_by_position(st, mark_read_spec(st, room_id, user, requested, now).0);
}

proof fn lemma_carry_delete(st: StoreState, room_id: i32)
    ensures
        rooms_carry_over(st, delete_room_spec(st, room_id)),
{
    let d = delete_room_spec(st, room_id);
    assert forall|j: int| 0 <= j < d.rooms.len() && (#[trigger] d.rooms[j]).id < st.next_room_id implies exists|i: int|
        0 <= i < st.rooms.len() && (#[trigger] st.rooms[i]).id == d.rooms[j].id && st.rooms[i].pair == d.rooms[j].pair by {
        assert(d.rooms.contains(d.rooms[j]));
        st.rooms.lemma_filter_contains_rev(room_not(room_id), d.rooms[j]);
    }
}

/// Every operation of the store carries its rooms over.
pub proof fn lemma_operations_carry_rooms_over(
    st: StoreState,
    h: HubState,
    room_id: i32,
    user: Seq<char>,
    names: Seq<Seq<char>>,
    room: NewRoomView,
    req: NewMessageView,
    requested: Option<i64>,
    now: i64,
)
    requires
        valid(st),
    ensures
        rooms_carry_over(st, append_spec(st, req.room_id, req.sender, req.message, now).0),
        rooms_carry_over(st, send_spec(st, h, req, now).0),
        rooms_carry_over(st, create_room_spec(st, names).0),
        rooms_carry_over(st, find_or_create_spec(st, names).0),
        rooms_carry_over(st, add_participant_spec(st, room_id, user).0),
        rooms_carry_over(st, update_room_spec(st, room_id, names).0),
        rooms_carry_over(st, put_room_spec(st, room).0),
        rooms_carry_over(st, mark_read_spec(st, room_id, user, requested, now).0),
        rooms_carry_over(st, delete_room_spec(st, room_id)),
{
    lemma_carry_append(st, req.room_id, req.sender, req.message, now);
    let s1 = append_spec(st, req.room_id, req.sender, req.message, now).0;
    lemma_carry_add_participant(s1, req.room_id, req.sender);
    lemma_carry_over_chains(st, s1, add_participant_spec(s1, req.room_id, req.sender).0);
    assert(rooms_carry_over(st, st));
    lemma_carry_create(st, names);
    lemma_carry_create(st, room.participants);
    lemma_carry_add_participant(st, room_id, user);
    lemma_carry_update(st, room_id, names);
    if let Some(id) = room.id {
        lemma_carry_update(st, id, room.participants);
    }
    lemma_carry_mark_read(st, room_id, user, requested, now);
    lemma_carry_delete(st, room_id);
}

/// A pair keeps its room for as long as the room exists: whatever happened
/// since a successful `find_or_create` (messages, new participants, other
/// rooms created or deleted), the same two names, in any order, lead back
/// to the same room and create nothing.
pub proof fn lemma_pair_keeps_its_room(st: StoreState, a: Seq<Seq<char>>, later: StoreState, b: Seq<Seq<char>>)
    requires
        valid(st),
        valid(later),
        forall|x: Seq<char>| a.contains(x) <==> b.contains(x),
        find_or_create_spec(st, a).1 is Ok,
        rooms_carry_over(find_or_create_spec(st, a).0, later),
        room_exists(later, find_or_create_spec(st, a).1->Ok_0.id),
    ensures
        find_or_create_spec(later, b).0 == later,
        find_or_create_spec(later, b).1 is Ok,
        find_or_create_spec(later, b).1->Ok_0.id == find_or_create_spec(st, a).1->Ok_0.id,
        find_or_create_spec(later, b).1->Ok_0.pair == find_or_create_spec(st, a).1->Ok_0.pair,
{
    lemma_canonical_pair_ignores_order(a, b);
    lemma_find_or_create_valid(st, a);
    lemma_lookup_after(st, a);
    let s1 = find_or_create_spec(st, a).0;
    let r1 = find_or_create_spec(st, a).1->Ok_0;
    let pair = canonical_pair(a)->Some_0;
    let i1 = room_with_members(s1.rooms, pair)->Some_0;
    assert(first_with_members(s1.rooms, pair, i1));
    let j = room_index(later, r1.id);
    assert(later.rooms[j].id == r1.id);
    let i = choose|i: int| 0 <= i < s1.rooms.len() && (#[trigger] s1.rooms[i]).id == later.rooms[j].id && s1.rooms[i].pair == later.rooms[j].pair;
    if i < i1 {
        assert(s1.rooms[i].id < s1.rooms[i1].id);
    } else if i > i1 {
        assert(s1.rooms[i1].id < s1.rooms[i].id);
    }
    assert forall|k: int| 0 <= k < j implies !#[trigger] has_members(later.rooms, pair, k) by {
        if has_members(later.rooms, pair, k) {
            assert(later.rooms[k].id < later.rooms[j].id);
            let p = choose|p: int| 0 <= p < s1.rooms.len() && (#[trigger] s1.rooms[p]).id == later.rooms[k].id && s1.rooms[p].pair == later.rooms[k].pair;
            assert(has_members(s1.rooms, pair, p));
            if p > i1 {
                assert(s1.rooms[i1].id < s1.rooms[p].id);
            }
        }
    }
    assert(first_with_members(later.rooms, pair, j));
    let q = choose|q: int| first_with_members(later.rooms, pair, q);
    if q < j {
        assert(has_members(later.rooms, pair, q));
    } else if q > j {
        assert(has_members(later.rooms, pair, j));
    }
}

proof fn lemma_filter_all<A>(s: Seq<A>, p: spec_fn(A) -> bool)
    requires
        forall|i: int| 0 <= i < s.len() ==> p(#[trigger] s[i]),
    ensures
        s.filter(p) == s,
    decreases s.len(),
{
    reveal(Seq::filter);
    if s.len() > 0 {
        lemma_filter_all(s.drop_last(), p);
        assert(s.drop_last().push(s.last()) =~= s);
    }
}

/// After a room is deleted, nothing of it is left: no room entry, no
/// message and no read marker; listing its messages gives nothing.
pub proof fn lemma_deleted_room_leaves_nothing(st: StoreState, room_id: i32)
    ensures
        room_of(delete_room_spec(st, room_id), room_id) is None,
        room_messages(delete_room_spec(st, room_id), room_id).len() == 0,
        forall|i: int|
            0 <= i < delete_room_spec(st, room_id).markers.len() ==> (#[trigger] delete_room_spec(st, room_id).markers[i]).room_id != room_id,
{
    broadcast use vstd::seq_lib::group_filter_ensures;
    let s = delete_room_spec(st, room_id);
    assert forall|i: int| 0 <= i < s.rooms.len() implies (#[trigger] s.rooms[i]).id != room_id by {
        st.rooms.lemma_filter_pred(room_not(room_id), i);
    }
    assert forall|i: int| 0 <= i < s.markers.len() implies (#[trigger] s.markers[i]).room_id != room_id by {
        st.markers.lemma_filter_pred(marker_not_in(room_id), i);
    }
    assert forall|i: int| 0 <= i < s.messages.len() implies !in_room(room_id)(#[trigger] s.messages[i]) by {
        st.messages.lemma_filter_pred(message_not_in(room_id), i);
    }
    s.messages.lemma_all_neg_filter_empty(in_room(room_id));
}

/// Deleting a room that does not exist changes nothing.
pub proof fn lemma_delete_absent_room_changes_nothing(st: StoreState, room_id: i32)
    requires
        valid(st),
        !room_exists(st, room_id),
    ensures
        delete_room_spec(st, room_id) == st,
{
    assert forall|i: int| 0 <= i < st.rooms.len() implies room_not(room_id)(#[trigger] st.rooms[i]) by {
        if st.rooms[i].id == room_id {
            assert(room_exists(st, room_id));
        }
    }
    assert forall|i: int| 0 <= i < st.messages.len() implies message_not_in(room_id)(#[trigger] st.messages[i]) by {
        assert(room_exists(st, st.messages[i].room_id));
    }
    assert forall|i: int| 0 <= i < st.markers.len() implies marker_not_in(room_id)(#[trigger] st.markers[i]) by {
        assert(room_exists(st, st.markers[i].room_id));
    }
    lemma_filter_all(st.rooms, room_not(room_id));
    lemma_filter_all(st.markers, marker_not_in(room_id));
    lemma_filter_all(st.messages, message_not_in(room_id));
}

/// Room ids are never reused: a room that is gone stays gone along any
/// later history, and listing its messages gives nothing, whatever is sent
/// elsewhere meanwhile.
pub proof fn lemma_deleted_room_stays_empty(st: StoreState, later: StoreState, room_id: i32)
    requires
        valid(later),
        !room_exists(st, room_id),
        room_id < st.next_room_id,
        rooms_carry_over(st, later),
    ensures
        !room_exists(later, room_id),
        room_messages(later, room_id).len() == 0,
{
    if room_exists(later, room_id) {
        let j = room_index(later, room_id);
        let i = choose|i: int| 0 <= i < st.rooms.len() && (#[trigger] st.rooms[i]).id == later.rooms[j].id && st.rooms[i].pair == later.rooms[j].pair;
        assert(room_exists(st, room_id));
    }
    assert forall|i: int| 0 <= i < later.messages.len() implies !in_room(room_id)(#[trigger] later.messages[i]) by {
        assert(room_exists(later, later.messages[i].room_id));
    }
    assert(later.messages.all(|m: MessageView| !in_room(room_id)(m)));
    later.messages.lemma_all_neg_filter_empty(in_room(room_id));
}

/// Deleting an existing room leaves a state from which
/// `lemma_deleted_room_stays_empty` applies.
pub proof fn lemma_deleted_room_is_gone(st: StoreState, room_id: i32)
    requires
        valid(st),
        room_exists(st, room_id),
    ensures
        !room_exists(delete_room_spec(st, room_id), room_id),
        room_id < delete_room_spec(st, room_id).next_room_id,
{
    lemma_deleted_room_leaves_nothing(st, room_id);
    let k = room_index(st, room_id);
    assert(st.rooms[k].id < st.next_room_id);
}

/// Deleting a room a second time changes nothing.
pub proof fn lemma_delete_room_idempotent(st: StoreState, room_id: i32)
    ensures
        delete_room_spec(delete_room_spec(st, room_id), room_id) == delete_room_spec(st, room_id),
{
    let s = delete_room_spec(st, room_id);
    assert forall|i: int| 0 <= i < s.rooms.len() implies room_not(room_id)(#[trigger] s.rooms[i]) by {
        st.rooms.lemma_filter_pred(room_not(room_id), i);
    }
    assert forall|i: int| 0 <= i < s.markers.len() implies marker_not_in(room_id)(#[trigger] s.markers[i]) by {
        st.markers.lemma_filter_pred(marker_not_in(room_id), i);
    }
    assert forall|i: int| 0 <= i < s.messages.len() implies message_not_in(room_id)(#[trigger] s.messages[i]) by {
        st.messages.lemma_filter_pred(message_not_in(room_id), i);
    }
    lemma_filter_all(s.rooms, room_not(room_id));
    lemma_filter_all(s.markers, marker_not_in(room_id));
    lemma_filter_all(s.messages, message_not_in(room_id));
}

} // verus!
