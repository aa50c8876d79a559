use vstd::prelude::*;

use crate::model::{
    LastRead, MarkerView, Message, MessageView, NewRoomView, Room, RoomView, RoomWithUnreadView,
    MAX_MESSAGE_CHARS,
};
use crate::participants::canonical_pair;
use crate::text::blank;

verus! {

/// Why a message was not stored.
#[derive(Clone, Copy, Debug, PartialEq, Eq, Structural)]
pub enum SendError {
    /// The sender is empty or white space only.
    EmptySender,
    /// The body is empty or white space only.
    EmptyMessage,
    /// The body has more than `MAX_MESSAGE_CHARS` characters.
    TooLong,
    /// No room has the given id.
    RoomNotFound,
    /// Every message id has been handed out.
    IdsExhausted,
}

/// Why a room operation failed.
#[derive(Clone, Copy, Debug, PartialEq, Eq, Structural)]
pub enum RoomError {
    /// The participants do not make up exactly two distinct names.
    InvalidParticipantCount,
    /// No room has the given id.
    NotFound,
    /// Every room id has been handed out.
    IdsExhausted,
}

/// The whole state of the store, as values.
pub struct StoreState {
    pub rooms: Seq<RoomView>,
    pub messages: Seq<MessageView>,
    pub markers: Seq<MarkerView>,
    pub next_room_id: i32,
    pub next_message_id: i64,
}

/// A store with nothing in it; the first room and the first message get
/// id 1.
pub open spec fn empty_store() -> StoreState {
    StoreState { rooms: Seq::empty(), messages: Seq::empty(), markers: Seq::empty(), next_room_id: 1, next_message_id: 1 }
}

/// What every reachable state satisfies: ids are handed out in increasing
/// order and never reused, participants do not repeat, every message and
/// read marker belongs to an existing room, and there is at most one read
/// marker per room and user.
pub open spec fn valid(st: StoreState) -> bool {
    &&& 1 <= st.next_room_id
    &&& 1 <= st.next_message_id
    &&& forall|i: int, j: int|
        0 <= i < j < st.rooms.len() ==> #[trigger] st.rooms[i].id < #[trigger] st.rooms[j].id
    &&& forall|i: int|
        0 <= i < st.rooms.len() ==> 1 <= #[trigger] st.rooms[i].id < st.next_room_id
    &&& forall|i: int| 0 <= i < st.rooms.len() ==> (#[trigger] st.rooms[i]).participants.no_duplicates()
    &&& forall|i: int, j: int|
        0 <= i < j < st.messages.len() ==> #[trigger] st.messages[i].id < #[trigger] st.messages[j].id
    &&& forall|i: int|
        0 <= i < st.messages.len() ==> 1 <= #[trigger] st.messages[i].id < st.next_message_id
    &&& st.messages.len() < st.next_message_id
    &&& forall|i: int| 0 <= i < st.messages.len() ==> room_exists(st, (#[trigger] st.messages[i]).room_id)
    &&& forall|i: int| 0 <= i < st.markers.len() ==> room_exists(st, (#[trigger] st.markers[i]).room_id)
    &&& forall|i: int, j: int|
        0 <= i < st.markers.len() && 0 <= j < st.markers.len() && i != j
            ==> !same_key(#[trigger] st.markers[i], #[trigger] st.markers[j])
}

pub open spec fn same_key(a: MarkerView, b: MarkerView) -> bool {
    a.room_id == b.room_id && a.user == b.user
}

pub open spec fn room_exists(st: StoreState, room_id: i32) -> bool {
    exists|i: int| 0 <= i < st.rooms.len() && (#[trigger] st.rooms[i]).id == room_id
}

/// The room with the given id, if there is one.
pub open spec fn room_of(st: StoreState, room_id: i32) -> Option<RoomView> {
    if room_exists(st, room_id) {
        Some(st.rooms[choose|i: int| 0 <= i < st.rooms.len() && (#[trigger] st.rooms[i]).id == room_id])
    } else {
        None
    }
}

/// The position of the room with the given id (meaningful when it exists).
pub open spec fn room_index(st: StoreState, room_id: i32) -> int {
    choose|i: int| 0 <= i < st.rooms.len() && (#[trigger] st.rooms[i]).id == room_id
}

pub open spec fn has_members(rooms: Seq<RoomView>, key: Seq<Seq<char>>, i: int) -> bool {
    0 <= i < rooms.len() && rooms[i].pair == key
}

pub open spec fn first_with_members(rooms: Seq<RoomView>, key: Seq<Seq<char>>, i: int) -> bool {
    has_members(rooms, key, i) && forall|j: int| 0 <= j < i ==> !#[trigger] has_members(rooms, key, j)
}

/// The position of the oldest room opened for the pair `key`.
pub open spec fn room_with_members(rooms: Seq<RoomView>, key: Seq<Seq<char>>) -> Option<int> {
    if exists|i: int| first_with_members(rooms, key, i) {
        Some(choose|i: int| first_with_members(rooms, key, i))
    } else {
        None
    }
}

pub open spec fn room_result(r: Result<Room, RoomError>) -> Result<RoomView, RoomError> {
    match r {
        Ok(room) => Ok(room@),
        Err(e) => Err(e),
    }
}

/// A new room with the next id, opened for `pair`, whose participants are
/// the pair.
pub open spec fn create_spec(st: StoreState, pair: Seq<Seq<char>>) -> (StoreState, Result<RoomView, RoomError>) {
    if st.next_room_id == i32::MAX {
        (st, Err(RoomError::IdsExhausted))
    } else {
        let room = RoomView { id: st.next_room_id, pair, participants: pair };
        (StoreState { rooms: st.rooms.push(room), next_room_id: (st.next_room_id + 1) as i32, ..st }, Ok(room))
    }
}

/// Explicit creation: always a new room, for two distinct names.
pub open spec fn create_room_spec(st: StoreState, names: Seq<Seq<char>>) -> (StoreState, Result<RoomView, RoomError>) {
    match canonical_pair(names) {
        None => (st, Err(RoomError::InvalidParticipantCount)),
        Some(pair) => create_spec(st, pair),
    }
}

/// Lookup by the canonical pair, creating the room on a miss. Participants
/// that joined a room later do not change the pair it is found by.
pub open spec fn find_or_create_spec(st: StoreState, names: Seq<Seq<char>>) -> (StoreState, Result<RoomView, RoomError>) {
    match canonical_pair(names) {
        None => (st, Err(RoomError::InvalidParticipantCount)),
        Some(pair) => match room_with_members(st.rooms, pair) {
            Some(i) => (st, Ok(st.rooms[i])),
            None => create_spec(st, pair),
        },
    }
}

/// Adding a name to a participant list: a name already present changes
/// nothing, a new one goes to the end.
pub open spec fn with_participant(names: Seq<Seq<char>>, user: Seq<char>) -> Seq<Seq<char>> {
    if names.contains(user) {
        names
    } else {
        names.push(user)
    }
}

/// Adding several names, one after the other.
pub open spec fn merge_names(names: Seq<Seq<char>>, added: Seq<Seq<char>>) -> Seq<Seq<char>>
    decreases added.len(),
{
    if added.len() == 0 {
        names
    } else {
        with_participant(merge_names(names, added.drop_last()), added.last())
    }
}

/// The state with the participants of an existing room replaced.
pub open spec fn set_participants(st: StoreState, room_id: i32, names: Seq<Seq<char>>) -> StoreState {
    StoreState {
        rooms: st.rooms.update(room_index(st, room_id), RoomView { participants: names, ..st.rooms[room_index(st, room_id)] }),
        ..st
    }
}

pub open spec fn add_participant_spec(st: StoreState, room_id: i32, user: Seq<char>) -> (StoreState, Result<(), RoomError>) {
    match room_of(st, room_id) {
        None => (st, Err(RoomError::NotFound)),
        Some(room) => (set_participants(st, room_id, with_participant(room.participants, user)), Ok(())),
    }
}

/// Participants are only ever added: the names given join those present.
pub open spec fn update_room_spec(st: StoreState, room_id: i32, added: Seq<Seq<char>>) -> (StoreState, Result<RoomView, RoomError>) {
    match room_of(st, room_id) {
        None => (st, Err(RoomError::NotFound)),
        Some(room) => {
            let names = merge_names(room.participants, added);
            (set_participants(st, room_id, names), Ok(RoomView { participants: names, ..room }))
        },
    }
}

pub open spec fn put_room_spec(st: StoreState, room: NewRoomView) -> (StoreState, Result<RoomView, RoomError>) {
    match room.id {
        Some(id) => update_room_spec(st, id, room.participants),
        None => create_room_spec(st, room.participants),
    }
}

pub open spec fn as_new_room(v: RoomView) -> NewRoomView {
    NewRoomView { id: Some(v.id), participants: v.participants }
}

pub open spec fn room_has_id(id: i32) -> spec_fn(RoomView) -> bool {
    |r: RoomView| r.id == id
}

/// The rooms that `get_room` lists: the one with the id, or all.
pub open spec fn rooms_selected(st: StoreState, id: Option<i32>) -> Seq<RoomView> {
    match id {
        Some(x) => st.rooms.filter(room_has_id(x)),
        None => st.rooms,
    }
}

pub open spec fn room_not(id: i32) -> spec_fn(RoomView) -> bool {
    |r: RoomView| r.id != id
}

pub open spec fn message_not_in(id: i32) -> spec_fn(MessageView) -> bool {
    |m: MessageView| m.room_id != id
}

pub open spec fn marker_not_in(id: i32) -> spec_fn(MarkerView) -> bool {
    |k: MarkerView| k.room_id != id
}

/// Deleting a room takes its messages and read markers with it.
pub open spec fn delete_room_spec(st: StoreState, room_id: i32) -> StoreState {
    StoreState {
        rooms: st.rooms.filter(room_not(room_id)),
        messages: st.messages.filter(message_not_in(room_id)),
        markers: st.markers.filter(marker_not_in(room_id)),
        ..st
    }
}

pub open spec fn marker_exists(st: StoreState, room_id: i32, user: Seq<char>) -> bool {
    exists|i: int| 0 <= i < st.markers.len() && (#[trigger] st.markers[i]).room_id == room_id && st.markers[i].user == user
}

pub open spec fn marker_index(st: StoreState, room_id: i32, user: Seq<char>) -> int {
    choose|i: int| 0 <= i < st.markers.len() && (#[trigger] st.markers[i]).room_id == room_id && st.markers[i].user == user
}

/// The read marker of a user in a room, if one was ever set.
pub open spec fn marker_of(st: StoreState, room_id: i32, user: Seq<char>) -> Option<MarkerView> {
    if marker_exists(st, room_id, user) {
        Some(st.markers[marker_index(st, room_id, user)])
    } else {
        None
    }
}

/// The id of the newest message of a room.
pub open spec fn last_message_id(st: StoreState, room_id: i32) -> Option<i64> {
    let ms = room_messages(st, room_id);
    if ms.len() > 0 {
        Some(ms.last().id)
    } else {
        None
    }
}

/// The id a read marker is set to: the one asked for, or else the newest
/// message of the room at the time of the call.
pub open spec fn resolved_read_id(st: StoreState, room_id: i32, requested: Option<i64>) -> Option<i64> {
    match requested {
        Some(x) => Some(x),
        None => last_message_id(st, room_id),
    }
}

/// Setting a read marker: one marker per room and user, replaced in place
/// when it exists and added otherwise.
pub open spec fn mark_read_spec(st: StoreState, room_id: i32, user: Seq<char>, requested: Option<i64>, now: i64) -> (StoreState, Result<Option<i64>, RoomError>) {
    if !room_exists(st, room_id) {
        (st, Err(RoomError::NotFound))
    } else {
        let resolved = resolved_read_id(st, room_id, requested);
        let mk = MarkerView { room_id, user, last_read_message_id: resolved, updated_at: now };
        let markers = if marker_exists(st, room_id, user) {
            st.markers.update(marker_index(st, room_id, user), mk)
        } else {
            st.markers.push(mk)
        };
        (StoreState { markers, ..st }, Ok(resolved))
    }
}

pub open spec fn last_read_result(r: Result<LastRead, RoomError>) -> Result<Option<i64>, RoomError> {
    match r {
        Ok(l) => Ok(l.last_read_id),
        Err(e) => Err(e),
    }
}

/// The bound below which a user has read a room; `None` when the user has
/// no marker there or the marker records that nothing was read.
pub open spec fn last_read_of(st: StoreState, room_id: i32, user: Seq<char>) -> Option<i64> {
    match marker_of(st, room_id, user) {
        Some(m) => m.last_read_message_id,
        None => None,
    }
}

/// Unread messages: those of the room above the user's marker, whoever
/// sent them, or all of the room's messages without a marker.
pub open spec fn unread_spec(st: StoreState, room_id: i32, user: Seq<char>) -> nat {
    count_after_spec(st, room_id, last_read_of(st, room_id, user), None)
}

pub open spec fn member_of(user: Seq<char>) -> spec_fn(RoomView) -> bool {
    |r: RoomView| r.participants.contains(user)
}

pub open spec fn with_unread(st: StoreState, user: Seq<char>) -> spec_fn(RoomView) -> RoomWithUnreadView {
    |r: RoomView| RoomWithUnreadView { id: r.id, participants: r.participants, unread_count: unread_spec(st, r.id, user) as i64 }
}

/// The rooms of a user with their unread counts, oldest room first; nothing
/// at all for a blank user name.
pub open spec fn rooms_for_user_spec(st: StoreState, user: Seq<char>) -> Seq<RoomWithUnreadView> {
    if blank(user) {
        Seq::empty()
    } else {
        st.rooms.filter(member_of(user)).map_values(with_unread(st, user))
    }
}

/// Validation of a message before anything is stored, in the order the
/// checks are made.
pub open spec fn send_check(sender: Seq<char>, message: Seq<char>) -> Option<SendError> {
    if blank(sender) {
        Some(SendError::EmptySender)
    } else if blank(message) {
        Some(SendError::EmptyMessage)
    } else if message.len() > MAX_MESSAGE_CHARS {
        Some(SendError::TooLong)
    } else {
        None
    }
}

/// Storing a message: the new state and the outcome.
pub open spec fn append_spec(
    st: StoreState,
    room_id: i32,
    sender: Seq<char>,
    message: Seq<char>,
    timestamp: i64,
) -> (StoreState, Result<MessageView, SendError>) {
    match send_check(sender, message) {
        Some(e) => (st, Err(e)),
        None => if !room_exists(st, room_id) {
            (st, Err(SendError::RoomNotFound))
        } else if st.next_message_id == i64::MAX {
            (st, Err(SendError::IdsExhausted))
        } else {
            let m = MessageView { id: st.next_message_id, room_id, sender, message, timestamp };
            (
                StoreState {
                    messages: st.messages.push(m),
                    next_message_id: (st.next_message_id + 1) as i64,
                    ..st
                },
                Ok(m),
            )
        },
    }
}

pub open spec fn message_result(r: Result<Message, SendError>) -> Result<MessageView, SendError> {
    match r {
        Ok(m) => Ok(m@),
        Err(e) => Err(e),
    }
}

pub open spec fn in_room(room_id: i32) -> spec_fn(MessageView) -> bool {
    |m: MessageView| m.room_id == room_id
}

/// The messages of one room, in the order they were stored (ascending id).
pub open spec fn room_messages(st: StoreState, room_id: i32) -> Seq<MessageView> {
    st.messages.filter(in_room(room_id))
}

/// The messages that `count_after` counts: those of the room, with an id
/// above the bound when there is one, and not sent by the excluded sender
/// when there is one.
pub open spec fn counted(room_id: i32, after: Option<i64>, exclude: Option<Seq<char>>) -> spec_fn(
    MessageView,
) -> bool {
    |m: MessageView|
        m.room_id == room_id && (match after {
            Some(a) => m.id > a,
            None => true,
        }) && (match exclude {
            Some(s) => m.sender != s,
            None => true,
        })
}

pub open spec fn count_after_spec(
    st: StoreState,
    room_id: i32,
    after: Option<i64>,
    exclude: Option<Seq<char>>,
) -> nat {
    st.messages.filter(counted(room_id, after, exclude)).len()
}

pub open spec fn text_option(o: Option<String>) -> Option<Seq<char>> {
    match o {
        Some(s) => Some(s@),
        None => None,
    }
}

/// Keeping every room id where it was (and perhaps adding rooms) keeps
/// every message and read marker in an existing room.
pub proof fn lemma_rooms_kept(before: StoreState, after: StoreState)
    requires
        valid(before),
        after.messages == before.messages,
        after.markers == before.markers,
        before.rooms.len() <= after.rooms.len(),
        forall|k: int| 0 <= k < before.rooms.len() ==> (#[trigger] after.rooms[k]).id == before.rooms[k].id,
    ensures
        forall|i: int| 0 <= i < after.messages.len() ==> room_exists(after, (#[trigger] after.messages[i]).room_id),
        forall|i: int| 0 <= i < after.markers.len() ==> room_exists(after, (#[trigger] after.markers[i]).room_id),
{
    assert forall|i: int| 0 <= i < after.messages.len() implies room_exists(after, (#[trigger] after.messages[i]).room_id) by {
        let k = room_index(before, before.messages[i].room_id);
        assert(after.rooms[k].id == before.rooms[k].id);
    }
    assert forall|i: int| 0 <= i < after.markers.len() implies room_exists(after, (#[trigger] after.markers[i]).room_id) by {
        let k = room_index(before, before.markers[i].room_id);
        assert(after.rooms[k].id == before.rooms[k].id);
    }
}

} // verus!
