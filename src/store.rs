use vstd::prelude::*;

use crate::model::{
    copy_texts, texts_view, LastRead, Message, NewRoom, ReadMarker, ReadUpdate, Room, RoomView,
    RoomWithUnread, RoomWithUnreadView, MAX_MESSAGE_CHARS,
};
use crate::participants::canonical_participants;
use crate::state::{
    SendError, RoomError, StoreState, empty_store, lemma_rooms_kept, valid, same_key, room_exists, room_of, room_index,
    has_members, first_with_members, room_with_members, room_result, create_spec, create_room_spec,
    find_or_create_spec, with_participant, merge_names, add_participant_spec, update_room_spec,
    put_room_spec, as_new_room, room_has_id, rooms_selected, room_not, message_not_in,
    marker_not_in, delete_room_spec, marker_exists, marker_index, last_message_id, mark_read_spec,
    last_read_result, unread_spec, member_of, with_unread, rooms_for_user_spec, send_check,
    append_spec, message_result, in_room, room_messages, counted, count_after_spec, text_option,
};
use crate::text::{blank, is_blank, lemma_text_lt_asymmetric, text_lt};
use vstd::pervasive::VecAdditionalExecFns;
use vstd::string::StrSliceExecFns;

verus! {

/// The message log, the rooms and the read markers.
pub struct ChatStore {
    rooms: Vec<Room>,
    messages: Vec<Message>,
    markers: Vec<ReadMarker>,
    next_room_id: i32,
    next_message_id: i64,
}

impl View for ChatStore {
    type V = StoreState;

    closed spec fn view(&self) -> StoreState {
        StoreState {
            rooms: self.rooms@.map_values(|r: Room| r@),
            messages: self.messages@.map_values(|m: Message| m@),
            markers: self.markers@.map_values(|k: ReadMarker| k@),
            next_room_id: self.next_room_id,
            next_message_id: self.next_message_id,
        }
    }
}

/// Checks a message in the order `send_check` gives.
pub fn check_message(sender: &str, message: &str) -> (r: Option<SendError>)
    ensures
        r == send_check(sender@, message@),
{
    if is_blank(sender) {
        Some(SendError::EmptySender)
    } else if is_blank(message) {
        Some(SendError::EmptyMessage)
    } else if message.unicode_len() > MAX_MESSAGE_CHARS {
        Some(SendError::TooLong)
    } else {
        None
    }
}

/// Whether two name lists are equal, name by name.
fn same_texts(a: &Vec<String>, b: &Vec<String>) -> (r: bool)
    ensures
        r == (texts_view(a@) == texts_view(b@)),
{
    if a.len() != b.len() {
        proof {
            assert(texts_view(a@).len() != texts_view(b@).len());
        }
        return false;
    }
    let mut i: usize = 0;
    while i < a.len()
        invariant
            a@.len() == b@.len(),
            i <= a@.len(),
            forall|j: int| 0 <= j < i ==> (#[trigger] a@[j])@ == b@[j]@,
        decreases a@.len() - i,
    {
        if a[i] != b[i] {
            proof {
                assert(texts_view(a@)[i as int] != texts_view(b@)[i as int]);
            }
            return false;
        }
        i = i + 1;
    }
    assert(texts_view(a@) =~= texts_view(b@));
    true
}

/// Whether `user` is one of `names`.
fn contains_text(names: &Vec<String>, user: &String) -> (r: bool)
    ensures
        r == texts_view(names@).contains(user@),
{
    let mut i: usize = 0;
    while i < names.len()
        invariant
            i <= names@.len(),
            forall|j: int| 0 <= j < i ==> (#[trigger] names@[j])@ != user@,
        decreases names@.len() - i,
    {
        if names[i] == *user {
            proof {
                assert(texts_view(names@)[i as int] == user@);
            }
            return true;
        }
        i = i + 1;
    }
    proof {
        if texts_view(names@).contains(user@) {
            let k = choose|k: int| 0 <= k < names@.len() && texts_view(names@)[k] == user@;
            assert(names@[k]@ == user@);
        }
    }
    false
}

/// Adds `user` to `names` unless it is there already.
fn push_if_absent(names: &mut Vec<String>, user: &str)
    requires
        texts_view(old(names)@).no_duplicates(),
    ensures
        texts_view(final(names)@) == with_participant(texts_view(old(names)@), user@),
        texts_view(final(names)@).no_duplicates(),
{
    let u = user.to_string();
    if !contains_text(names, &u) {
        let ghost before = texts_view(names@);
        names.push(u);
        assert(texts_view(names@) =~= before.push(user@));
    }
}

/// Adds each name of `added` in turn, as `push_if_absent` does.
fn merge_into(names: &mut Vec<String>, added: &Vec<String>)
    requires
        texts_view(old(names)@).no_duplicates(),
    ensures
        texts_view(final(names)@) == merge_names(texts_view(old(names)@), texts_view(added@)),
        texts_view(final(names)@).no_duplicates(),
{
    let ghost nv = texts_view(names@);
    let ghost av = texts_view(added@);
    let mut i: usize = 0;
    while i < added.len()
        invariant
            av == texts_view(added@),
            i <= added@.len(),
            texts_view(names@) == merge_names(nv, av.subrange(0, i as int)),
            texts_view(names@).no_duplicates(),
        decreases added@.len() - i,
    {
        push_if_absent(names, added[i].as_str());
        proof {
            let next = av.subrange(0, i + 1);
            assert(next.drop_last() =~= av.subrange(0, i as int));
            assert(next.last() == av[i as int]);
        }
        i = i + 1;
    }
    assert(av.subrange(0, av.len() as int) =~= av);
}

impl ChatStore {
    /// An empty store; the first room and the first message get id 1.
    pub fn new() -> (r: ChatStore)
        ensures
            valid(r@),
            r@ == empty_store(),
    {
        let r = ChatStore {
            rooms: Vec::new(),
            messages: Vec::new(),
            markers: Vec::new(),
            next_room_id: 1,
            next_message_id: 1,
        };
        assert(r@.rooms =~= Seq::empty());
        assert(r@.messages =~= Seq::empty());
        assert(r@.markers =~= Seq::empty());
        r
    }

    /// The position of the room with the given id.
    fn room_position(&self, room_id: i32) -> (r: Option<usize>)
        requires
            valid(self@),
        ensures
            r is Some <==> room_exists(self@, room_id),
            r matches Some(i) ==> i < self@.rooms.len() && self@.rooms[i as int].id == room_id
                && room_of(self@, room_id) == Some(self@.rooms[i as int]),
    {
        let mut i: usize = 0;
        while i < self.rooms.len()
            invariant
                valid(self@),
                i <= self@.rooms.len(),
                self@.rooms.len() == self.rooms@.len(),
                forall|j: int| 0 <= j < i ==> (#[trigger] self@.rooms[j]).id != room_id,
            decreases self.rooms@.len() - i,
        {
            if self.rooms[i].id == room_id {
                assert(self@.rooms[i as int].id == room_id);
                let ghost k = choose|k: int| 0 <= k < self@.rooms.len() && (#[trigger] self@.rooms[k]).id == room_id;
                assert(k == i) by {
                    if k < i {
                        assert(self@.rooms[k].id < self@.rooms[i as int].id);
                    } else if k > i {
                        assert(self@.rooms[i as int].id < self@.rooms[k].id);
                    }
                }
                return Some(i);
            }
            i = i + 1;
        }
        None
    }

    /// Stores a message after checking it: a blank sender or body, or a body
    /// over the length limit, is refused before the room is looked up. The
    /// id is the next one in line, above every id handed out before.
    pub fn append(&mut self, room_id: i32, sender: &str, message: &str, timestamp: i64) -> (r: Result<Message, SendError>)
        requires
            valid(old(self)@),
        ensures
            valid(final(self)@),
            (final(self)@, message_result(r)) == append_spec(old(self)@, room_id, sender@, message@, timestamp),
    {
        if let Some(e) = check_message(sender, message) {
            return Err(e);
        }
        if self.room_position(room_id).is_none() {
            return Err(SendError::RoomNotFound);
        }
        if self.next_message_id == i64::MAX {
            return Err(SendError::IdsExhausted);
        }
        let m = Message {
            id: self.next_message_id,
            room_id,
            sender: sender.to_string(),
            message: message.to_string(),
            timestamp,
        };
        let ghost before = self@;
        self.messages.push(m.duplicate());
        self.next_message_id = self.next_message_id + 1;
        assert(self@.messages =~= before.messages.push(m@));
        assert(self@.rooms =~= before.rooms);
        assert(self@.markers =~= before.markers);
        Ok(m)
    }

    /// The messages of a room in ascending id order; empty when the room has
    /// none or does not exist.
    pub fn get_chat(&self, room_id: i32) -> (r: Vec<Message>)
        ensures
            r@.map_values(|m: Message| m@) == room_messages(self@, room_id),
    {
        let mut r: Vec<Message> = Vec::new();
        let mut i: usize = 0;
        while i < self.messages.len()
            invariant
                i <= self.messages@.len(),
                self@.messages.len() == self.messages@.len(),
                r@.map_values(|m: Message| m@) == self@.messages.subrange(0, i as int).filter(in_room(room_id)),
            decreases self.messages@.len() - i,
        {
            let ghost before = r@.map_values(|m: Message| m@);
            let ghost pre = self@.messages.subrange(0, i as int);
            assert(self@.messages.subrange(0, i + 1) =~= pre.push(self@.messages[i as int]));
            proof {
                pre.lemma_filter_push(self@.messages[i as int], in_room(room_id));
            }
            if self.messages[i].room_id == room_id {
                r.push(self.messages[i].duplicate());
                assert(r@.map_values(|m: Message| m@) =~= before.push(self@.messages[i as int]));
            }
            i = i + 1;
        }
        assert(self@.messages.subrange(0, self@.messages.len() as int) =~= self@.messages);
        r
    }

    /// Counts the messages of a room above an id bound (all of them without
    /// one), leaving out those of one sender when a sender is given.
    pub fn count_after(&self, room_id: i32, after: Option<i64>, exclude_sender: &Option<String>) -> (r: i64)
        requires
            valid(self@),
        ensures
            r == count_after_spec(self@, room_id, after, text_option(*exclude_sender)),
    {
        let ghost pred = counted(room_id, after, text_option(*exclude_sender));
        let mut n: i64 = 0;
        let mut i: usize = 0;
        while i < self.messages.len()
            invariant
                valid(self@),
                i <= self.messages@.len(),
                self@.messages.len() == self.messages@.len(),
                pred == counted(room_id, after, text_option(*exclude_sender)),
                n == self@.messages.subrange(0, i as int).filter(pred).len(),
            decreases self.messages@.len() - i,
        {
            let ghost pre = self@.messages.subrange(0, i as int);
            assert(self@.messages.subrange(0, i + 1) =~= pre.push(self@.messages[i as int]));
            proof {
                pre.lemma_filter_push(self@.messages[i as int], pred);
                pre.lemma_filter_len(pred);
            }
            let m = &self.messages[i];
            let above = match after {
                Some(a) => m.id > a,
                None => true,
            };
            let kept = match exclude_sender {
                Some(s) => m.sender != *s,
                None => true,
            };
            if m.room_id == room_id && above && kept {
                n = n + 1;
            }
            i = i + 1;
        }
        assert(self@.messages.subrange(0, self@.messages.len() as int) =~= self@.messages);
        n
    }

    /// Adds a room with the next id; `pair` holds two names in increasing order.
    fn create_with(&mut self, pair: Vec<String>) -> (r: Result<Room, RoomError>)
        requires
            valid(old(self)@),
            texts_view(pair@).len() == 2,
            text_lt(texts_view(pair@)[0], texts_view(pair@)[1]),
        ensures
            valid(final(self)@),
            (final(self)@, room_result(r)) == create_spec(old(self)@, texts_view(pair@)),
    {
        if self.next_room_id == i32::MAX {
            return Err(RoomError::IdsExhausted);
        }
        proof {
            lemma_text_lt_asymmetric(texts_view(pair@)[0], texts_view(pair@)[0]);
        }
        let room = Room { id: self.next_room_id, pair: copy_texts(&pair), participants: pair };
        let ghost before = self@;
        self.rooms.push(room.duplicate());
        self.next_room_id = self.next_room_id + 1;
        assert(self@.rooms =~= before.rooms.push(room@));
        assert(self@.messages =~= before.messages);
        assert(self@.markers =~= before.markers);
        proof {
            lemma_rooms_kept(before, self@);
        }
        Ok(room)
    }

    /// The position of the oldest room opened for the pair `key`.
    fn find_members(&self, key: &Vec<String>) -> (r: Option<usize>)
        requires
            valid(self@),
        ensures
            match r {
                Some(i) => room_with_members(self@.rooms, texts_view(key@)) == Some(i as int),
                None => room_with_members(self@.rooms, texts_view(key@)) is None,
            },
    {
        let ghost kv = texts_view(key@);
        let mut i: usize = 0;
        while i < self.rooms.len()
            invariant
                i <= self@.rooms.len(),
                self@.rooms.len() == self.rooms@.len(),
                kv == texts_view(key@),
                forall|j: int| 0 <= j < i ==> !#[trigger] has_members(self@.rooms, kv, j),
            decreases self.rooms@.len() - i,
        {
            if same_texts(&self.rooms[i].pair, key) {
                proof {
                    assert(first_with_members(self@.rooms, kv, i as int));
                    let k = choose|k: int| first_with_members(self@.rooms, kv, k);
                    if k < i {
                        assert(has_members(self@.rooms, kv, k));
                    } else if k > i {
                        assert(has_members(self@.rooms, kv, i as int));
                    }
                }
                return Some(i);
            }
            i = i + 1;
        }
        None
    }

    /// Creates a room for exactly two distinct participants, whether or not
    /// one with the same participants exists.
    pub fn create_room(&mut self, new_room: &NewRoom) -> (r: Result<Room, RoomError>)
        requires
            valid(old(self)@),
        ensures
            valid(final(self)@),
            (final(self)@, room_result(r)) == create_room_spec(old(self)@, new_room@.participants),
    {
        match canonical_participants(&new_room.participants) {
            None => Err(RoomError::InvalidParticipantCount),
            Some(pair) => self.create_with(pair),
        }
    }

    /// The same as `create_room`.
    pub fn post_room(&mut self, new_room: &NewRoom) -> (r: Result<Room, RoomError>)
        requires
            valid(old(self)@),
        ensures
            valid(final(self)@),
            (final(self)@, room_result(r)) == create_room_spec(old(self)@, new_room@.participants),
    {
        self.create_room(new_room)
    }

    /// Returns the room of these two participants, in whatever order and
    /// repetition they are given, creating it when there is none yet.
    pub fn find_or_create_room(&mut self, room: &NewRoom) -> (r: Result<Room, RoomError>)
        requires
            valid(old(self)@),
        ensures
            valid(final(self)@),
            (final(self)@, room_result(r)) == find_or_create_spec(old(self)@, room@.participants),
    {
        match canonical_participants(&room.participants) {
            None => Err(RoomError::InvalidParticipantCount),
            Some(pair) => {
                match self.find_members(&pair) {
                    Some(i) => Ok(self.rooms[i].duplicate()),
                    None => self.create_with(pair),
                }
            },
        }
    }

    /// The room with the given id.
    pub fn get_room_by_id(&self, room_id: i32) -> (r: Result<Room, RoomError>)
        requires
            valid(self@),
        ensures
            match room_of(self@, room_id) {
                Some(v) => r matches Ok(room) && room@ == v,
                None => r == Err::<Room, RoomError>(RoomError::NotFound),
            },
    {
        match self.room_position(room_id) {
            Some(i) => Ok(self.rooms[i].duplicate()),
            None => Err(RoomError::NotFound),
        }
    }

    /// Every room, oldest first.
    pub fn get_rooms(&self) -> (r: Vec<Room>)
        ensures
            r@.map_values(|x: Room| x@) == self@.rooms,
    {
        let mut r: Vec<Room> = Vec::new();
        let mut i: usize = 0;
        while i < self.rooms.len()
            invariant
                i <= self.rooms@.len(),
                self@.rooms.len() == self.rooms@.len(),
                r@.map_values(|x: Room| x@) == self@.rooms.subrange(0, i as int),
            decreases self.rooms@.len() - i,
        {
            let ghost before = r@.map_values(|x: Room| x@);
            r.push(self.rooms[i].duplicate());
            assert(r@.map_values(|x: Room| x@) =~= before.push(self@.rooms[i as int]));
            assert(self@.rooms.subrange(0, i + 1) =~= self@.rooms.subrange(0, i as int).push(self@.rooms[i as int]));
            i = i + 1;
        }
        assert(self@.rooms.subrange(0, self@.rooms.len() as int) =~= self@.rooms);
        r
    }

    /// The room with the given id (none if there is no such room), or every
    /// room when no id is given.
    pub fn get_room(&self, id: Option<i32>) -> (r: Vec<NewRoom>)
        ensures
            r@.map_values(|x: NewRoom| x@) == rooms_selected(self@, id).map_values(|v: RoomView| as_new_room(v)),
    {
        let mut r: Vec<NewRoom> = Vec::new();
        let mut i: usize = 0;
        while i < self.rooms.len()
            invariant
                i <= self.rooms@.len(),
                self@.rooms.len() == self.rooms@.len(),
                r@.map_values(|x: NewRoom| x@) == rooms_selected(
                    StoreState { rooms: self@.rooms.subrange(0, i as int), ..self@ },
                    id,
                ).map_values(|v: RoomView| as_new_room(v)),
            decreases self.rooms@.len() - i,
        {
            let ghost before = r@.map_values(|x: NewRoom| x@);
            let ghost pre = self@.rooms.subrange(0, i as int);
            let ghost v = self@.rooms[i as int];
            assert(self@.rooms.subrange(0, i + 1) =~= pre.push(v));
            let keep = match id {
                Some(x) => self.rooms[i].id == x,
                None => true,
            };
            proof {
                if let Some(x) = id {
                    pre.lemma_filter_push(v, room_has_id(x));
                }
            }
            if keep {
                let room = &self.rooms[i];
                r.push(NewRoom { id: Some(room.id), participants: copy_texts(&room.participants) });
                proof {
                    let sel = rooms_selected(StoreState { rooms: pre, ..self@ }, id);
                    assert(rooms_selected(StoreState { rooms: pre.push(v), ..self@ }, id) =~= sel.push(v));
                    assert(r@.map_values(|x: NewRoom| x@) =~= before.push(as_new_room(v)));
                    assert(sel.push(v).map_values(|w: RoomView| as_new_room(w)) =~= sel.map_values(|w: RoomView| as_new_room(w)).push(as_new_room(v)));
                }
            }
            i = i + 1;
        }
        assert(self@.rooms.subrange(0, self@.rooms.len() as int) =~= self@.rooms);
        assert(StoreState { rooms: self@.rooms, ..self@ } == self@);
        r
    }

    /// Adds a participant to a room; a participant already present changes
    /// nothing.
    pub fn add_participant(&mut self, room_id: i32, user: &str) -> (r: Result<(), RoomError>)
        requires
            valid(old(self)@),
        ensures
            valid(final(self)@),
            (final(self)@, r) == add_participant_spec(old(self)@, room_id, user@),
    {
        match self.room_position(room_id) {
            None => Err(RoomError::NotFound),
            Some(i) => {
                let ghost before = self@;
                let mut room = self.rooms[i].duplicate();
                push_if_absent(&mut room.participants, user);
                self.rooms.set(i, room);
                proof {
                    assert(self@.rooms =~= before.rooms.update(i as int, RoomView { participants: with_participant(before.rooms[i as int].participants, user@), ..before.rooms[i as int] }));
                    assert(self@.messages =~= before.messages);
                    assert(self@.markers =~= before.markers);
                    assert(room_index(before, room_id) == i);
                    lemma_rooms_kept(before, self@);
                }
                Ok(())
            },
        }
    }

    /// Adds the given participants to an existing room; none is removed.
    pub fn update_room(&mut self, room_id: i32, room_data: &NewRoom) -> (r: Result<Room, RoomError>)
        requires
            valid(old(self)@),
        ensures
            valid(final(self)@),
            (final(self)@, room_result(r)) == update_room_spec(old(self)@, room_id, room_data@.participants),
    {
        match self.room_position(room_id) {
            None => Err(RoomError::NotFound),
            Some(i) => {
                let ghost before = self@;
                let mut room = self.rooms[i].duplicate();
                merge_into(&mut room.participants, &room_data.participants);
                let out = room.duplicate();
                self.rooms.set(i, room);
                proof {
                    assert(self@.rooms =~= before.rooms.update(i as int, out@));
                    assert(self@.messages =~= before.messages);
                    assert(self@.markers =~= before.markers);
                    assert(room_index(before, room_id) == i);
                    lemma_rooms_kept(before, self@);
                }
                Ok(out)
            },
        }
    }

    /// Updates the room when an id is given, and creates one otherwise.
    pub fn put_room(&mut self, room: &NewRoom) -> (r: Result<Room, RoomError>)
        requires
            valid(old(self)@),
        ensures
            valid(final(self)@),
            (final(self)@, room_result(r)) == put_room_spec(old(self)@, room@),
    {
        match room.id {
            Some(id) => self.update_room(id, room),
            None => self.create_room(room),
        }
    }

    /// Deletes a room with its messages and read markers. Deleting a room
    /// that does not exist changes nothing.
    pub fn delete_room(&mut self, room_id: i32)
        requires
            valid(old(self)@),
        ensures
            valid(final(self)@),
            final(self)@ == delete_room_spec(old(self)@, room_id),
    {
        let ghost before = self@;
        self.delete_by_room(room_id);
        self.remove_room_markers(room_id);
        proof {
            broadcast use vstd::seq_lib::group_filter_ensures;
            assert forall|i: int| 0 <= i < self@.messages.len() implies (#[trigger] self@.messages[i]).room_id != room_id by {
                before.messages.lemma_filter_pred(message_not_in(room_id), i);
            }
            assert forall|i: int| 0 <= i < self@.markers.len() implies (#[trigger] self@.markers[i]).room_id != room_id by {
                before.markers.lemma_filter_pred(marker_not_in(room_id), i);
            }
        }
        self.remove_room_entry(room_id);
        assert(self@ == delete_room_spec(before, room_id));
    }

    /// Removes the messages of a room.
    fn delete_by_room(&mut self, room_id: i32)
        requires
            valid(old(self)@),
        ensures
            valid(final(self)@),
            final(self)@ == (StoreState { messages: old(self)@.messages.filter(message_not_in(room_id)), ..old(self)@ }),
    {
        let ghost st = self@;
        let ghost pred = message_not_in(room_id);
        let mut kept: Vec<Message> = Vec::new();
        let mut i: usize = 0;
        while i < self.messages.len()
            invariant
                valid(st),
                self@ == st,
                pred == message_not_in(room_id),
                i <= st.messages.len(),
                st.messages.len() == self.messages@.len(),
                kept@.map_values(|m: Message| m@) == st.messages.subrange(0, i as int).filter(pred),
                kept@.len() <= i,
                forall|a: int, b: int| 0 <= a < b < kept@.len() ==> #[trigger] kept@[a].id < #[trigger] kept@[b].id,
                forall|a: int| 0 <= a < kept@.len() ==> 1 <= #[trigger] kept@[a].id < st.next_message_id,
                forall|a: int| 0 <= a < kept@.len() ==> room_exists(st, (#[trigger] kept@[a]).room_id),
                forall|a: int| 0 <= a < kept@.len() && i < st.messages.len() ==> #[trigger] kept@[a].id < st.messages[i as int].id,
            decreases st.messages.len() - i,
        {
            let ghost before = kept@.map_values(|m: Message| m@);
            let ghost pre = st.messages.subrange(0, i as int);
            assert(st.messages.subrange(0, i + 1) =~= pre.push(st.messages[i as int]));
            proof {
                pre.lemma_filter_push(st.messages[i as int], pred);
            }
            if self.messages[i].room_id != room_id {
                kept.push(self.messages[i].duplicate());
                assert(kept@.map_values(|m: Message| m@) =~= before.push(st.messages[i as int]));
            }
            proof {
                if i + 1 < st.messages.len() {
                    assert(st.messages[i as int].id < st.messages[i + 1].id);
                }
            }
            i = i + 1;
        }
        assert(st.messages.subrange(0, st.messages.len() as int) =~= st.messages);
        self.messages = kept;
        proof {
            assert forall|a: int| 0 <= a < self@.messages.len() implies room_exists(self@, (#[trigger] self@.messages[a]).room_id) by {
                let k = room_index(st, self@.messages[a].room_id);
                assert(self@.rooms[k].id == self@.messages[a].room_id);
            }
            assert forall|a: int| 0 <= a < self@.markers.len() implies room_exists(self@, (#[trigger] self@.markers[a]).room_id) by {
                let k = room_index(st, self@.markers[a].room_id);
                assert(self@.rooms[k].id == self@.markers[a].room_id);
            }
        }
    }

    /// Removes the read markers of a room.
    fn remove_room_markers(&mut self, room_id: i32)
        requires
            valid(old(self)@),
        ensures
            valid(final(self)@),
            final(self)@ == (StoreState { markers: old(self)@.markers.filter(marker_not_in(room_id)), ..old(self)@ }),
    {
        let ghost st = self@;
        let ghost pred = marker_not_in(room_id);
        let mut kept: Vec<ReadMarker> = Vec::new();
        let ghost mut from: Seq<int> = Seq::empty();
        let mut i: usize = 0;
        while i < self.markers.len()
            invariant
                valid(st),
                self@ == st,
                pred == marker_not_in(room_id),
                i <= st.markers.len(),
                st.markers.len() == self.markers@.len(),
                kept@.map_values(|k: ReadMarker| k@) == st.markers.subrange(0, i as int).filter(pred),
                from.len() == kept@.len(),
                forall|a: int| 0 <= a < kept@.len() ==> 0 <= #[trigger] from[a] < i && kept@[a]@ == st.markers[from[a]],
                forall|a: int, b: int| 0 <= a < b < kept@.len() ==> #[trigger] from[a] < #[trigger] from[b],
            decreases st.markers.len() - i,
        {
            let ghost before = kept@.map_values(|k: ReadMarker| k@);
            let ghost pre = st.markers.subrange(0, i as int);
            assert(st.markers.subrange(0, i + 1) =~= pre.push(st.markers[i as int]));
            proof {
                pre.lemma_filter_push(st.markers[i as int], pred);
            }
            if self.markers[i].room_id != room_id {
                let k = ReadMarker {
                    room_id: self.markers[i].room_id,
                    user: self.markers[i].user.clone(),
                    last_read_message_id: self.markers[i].last_read_message_id,
                    updated_at: self.markers[i].updated_at,
                };
                kept.push(k);
                proof {
                    from = from.push(i as int);
                }
                assert(kept@.map_values(|k: ReadMarker| k@) =~= before.push(st.markers[i as int]));
            }
            i = i + 1;
        }
        assert(st.markers.subrange(0, st.markers.len() as int) =~= st.markers);
        self.markers = kept;
        proof {
            let ms = self@.markers;
            assert forall|a: int| 0 <= a < self@.messages.len() implies room_exists(self@, (#[trigger] self@.messages[a]).room_id) by {
                let k = room_index(st, self@.messages[a].room_id);
                assert(self@.rooms[k].id == self@.messages[a].room_id);
            }
            assert forall|a: int| 0 <= a < ms.len() implies room_exists(self@, (#[trigger] ms[a]).room_id) by {
                assert(ms[a] == st.markers[from[a]]);
                let k = room_index(st, ms[a].room_id);
                assert(self@.rooms[k].id == ms[a].room_id);
            }
            assert forall|a: int, b: int| 0 <= a < ms.len() && 0 <= b < ms.len() && a != b implies !same_key(#[trigger] ms[a], #[trigger] ms[b]) by {
                assert(ms[a] == st.markers[from[a]]);
                assert(ms[b] == st.markers[from[b]]);
                if a < b {
                    assert(from[a] < from[b]);
                } else {
                    assert(from[b] < from[a]);
                }
            }
        }
    }

    /// Removes the room entry itself.
    fn remove_room_entry(&mut self, room_id: i32)
        requires
            valid(old(self)@),
            forall|i: int| 0 <= i < old(self)@.messages.len() ==> (#[trigger] old(self)@.messages[i]).room_id != room_id,
            forall|i: int| 0 <= i < old(self)@.markers.len() ==> (#[trigger] old(self)@.markers[i]).room_id != room_id,
        ensures
            valid(final(self)@),
            final(self)@ == (StoreState { rooms: old(self)@.rooms.filter(room_not(room_id)), ..old(self)@ }),
    {
        let ghost st = self@;
        let ghost pred = room_not(room_id);
        let mut kept: Vec<Room> = Vec::new();
        let mut i: usize = 0;
        while i < self.rooms.len()
            invariant
                valid(st),
                self@ == st,
                pred == room_not(room_id),
                i <= st.rooms.len(),
                st.rooms.len() == self.rooms@.len(),
                kept@.map_values(|r: Room| r@) == st.rooms.subrange(0, i as int).filter(pred),
                forall|a: int, b: int| 0 <= a < b < kept@.len() ==> #[trigger] kept@[a].id < #[trigger] kept@[b].id,
                forall|a: int| 0 <= a < kept@.len() ==> 1 <= #[trigger] kept@[a].id < st.next_room_id,
                forall|a: int| 0 <= a < kept@.len() ==> (#[trigger] kept@[a])@.participants.no_duplicates(),
                forall|a: int| 0 <= a < kept@.len() && i < st.rooms.len() ==> #[trigger] kept@[a].id < st.rooms[i as int].id,
            decreases st.rooms.len() - i,
        {
            let ghost before = kept@.map_values(|r: Room| r@);
            let ghost pre = st.rooms.subrange(0, i as int);
            assert(st.rooms.subrange(0, i + 1) =~= pre.push(st.rooms[i as int]));
            proof {
                pre.lemma_filter_push(st.rooms[i as int], pred);
            }
            if self.rooms[i].id != room_id {
                kept.push(self.rooms[i].duplicate());
                assert(kept@.map_values(|r: Room| r@) =~= before.push(st.rooms[i as int]));
            }
            proof {
                if i + 1 < st.rooms.len() {
                    assert(st.rooms[i as int].id < st.rooms[i + 1].id);
                }
            }
            i = i + 1;
        }
        assert(st.rooms.subrange(0, st.rooms.len() as int) =~= st.rooms);
        self.rooms = kept;
        proof {
            broadcast use vstd::seq_lib::group_filter_ensures;
            assert forall|i: int| 0 <= i < self@.messages.len() implies room_exists(self@, (#[trigger] self@.messages[i]).room_id) by {
                let k = room_index(st, st.messages[i].room_id);
                st.rooms.lemma_filter_contains(pred, k);
                let f = st.rooms.filter(pred);
                let j = choose|j: int| 0 <= j < f.len() && f[j] == st.rooms[k];
                assert(self@.rooms[j].id == st.messages[i].room_id);
            }
            assert forall|i: int| 0 <= i < self@.markers.len() implies room_exists(self@, (#[trigger] self@.markers[i]).room_id) by {
                let k = room_index(st, st.markers[i].room_id);
                st.rooms.lemma_filter_contains(pred, k);
                let f = st.rooms.filter(pred);
                let j = choose|j: int| 0 <= j < f.len() && f[j] == st.rooms[k];
                assert(self@.rooms[j].id == st.markers[i].room_id);
            }
        }
    }

    /// The position of the read marker of a user in a room.
    fn marker_position(&self, room_id: i32, user: &String) -> (r: Option<usize>)
        requires
            valid(self@),
        ensures
            r is Some <==> marker_exists(self@, room_id, user@),
            r matches Some(i) ==> i == marker_index(self@, room_id, user@) && i < self@.markers.len(),
    {
        let mut i: usize = 0;
        while i < self.markers.len()
            invariant
                valid(self@),
                i <= self@.markers.len(),
                self@.markers.len() == self.markers@.len(),
                forall|j: int| 0 <= j < i ==> !((#[trigger] self@.markers[j]).room_id == room_id && self@.markers[j].user == user@),
            decreases self.markers@.len() - i,
        {
            if self.markers[i].room_id == room_id && self.markers[i].user == *user {
                proof {
                    assert(self@.markers[i as int].room_id == room_id && self@.markers[i as int].user == user@);
                    let k = marker_index(self@, room_id, user@);
                    if k != i {
                        assert(same_key(self@.markers[k], self@.markers[i as int]));
                    }
                }
                return Some(i);
            }
            i = i + 1;
        }
        None
    }

    /// The id of the newest message of a room.
    fn last_message_in(&self, room_id: i32) -> (r: Option<i64>)
        ensures
            r == last_message_id(self@, room_id),
    {
        let mut last: Option<i64> = None;
        let mut i: usize = 0;
        while i < self.messages.len()
            invariant
                i <= self.messages@.len(),
                self@.messages.len() == self.messages@.len(),
                last == (if self@.messages.subrange(0, i as int).filter(in_room(room_id)).len() > 0 {
                    Some(self@.messages.subrange(0, i as int).filter(in_room(room_id)).last().id)
                } else {
                    None::<i64>
                }),
            decreases self.messages@.len() - i,
        {
            let ghost pre = self@.messages.subrange(0, i as int);
            assert(self@.messages.subrange(0, i + 1) =~= pre.push(self@.messages[i as int]));
            proof {
                pre.lemma_filter_push(self@.messages[i as int], in_room(room_id));
            }
            if self.messages[i].room_id == room_id {
                last = Some(self.messages[i].id);
            }
            i = i + 1;
        }
        assert(self@.messages.subrange(0, self@.messages.len() as int) =~= self@.messages);
        last
    }

    /// Records how far a user has read a room, replacing an earlier marker
    /// of the same user in the same room. Without an id the marker goes to
    /// the newest message of the room (none when the room is empty).
    pub fn mark_read(&mut self, room_id: i32, read_data: &ReadUpdate, now: i64) -> (r: Result<LastRead, RoomError>)
        requires
            valid(old(self)@),
        ensures
            valid(final(self)@),
            (final(self)@, last_read_result(r)) == mark_read_spec(old(self)@, room_id, read_data.username@, read_data.last_read_id, now),
    {
        if self.room_position(room_id).is_none() {
            return Err(RoomError::NotFound);
        }
        let resolved = match read_data.last_read_id {
            Some(x) => Some(x),
            None => self.last_message_in(room_id),
        };
        let mk = ReadMarker {
            room_id,
            user: read_data.username.clone(),
            last_read_message_id: resolved,
            updated_at: now,
        };
        let ghost before = self@;
        match self.marker_position(room_id, &read_data.username) {
            Some(i) => {
                self.markers.set(i, mk);
                proof {
                    assert(self@.markers =~= before.markers.update(i as int, mk@));
                    assert forall|a: int, b: int| 0 <= a < self@.markers.len() && 0 <= b < self@.markers.len() && a != b
                        implies !same_key(#[trigger] self@.markers[a], #[trigger] self@.markers[b]) by {
                        if a != i && b != i {
                            assert(!same_key(before.markers[a], before.markers[b]));
                        } else if a == i {
                            assert(!same_key(before.markers[i as int], before.markers[b]));
                        } else {
                            assert(!same_key(before.markers[a], before.markers[i as int]));
                        }
                    }
                }
            },
            None => {
                self.markers.push(mk);
                proof {
                    assert(self@.markers =~= before.markers.push(mk@));
                    assert forall|a: int, b: int| 0 <= a < self@.markers.len() && 0 <= b < self@.markers.len() && a != b
                        implies !same_key(#[trigger] self@.markers[a], #[trigger] self@.markers[b]) by {
                        if a == before.markers.len() {
                            assert(!(before.markers[b].room_id == room_id && before.markers[b].user == read_data.username@));
                        } else if b == before.markers.len() {
                            assert(!(before.markers[a].room_id == room_id && before.markers[a].user == read_data.username@));
                        }
                    }
                }
            },
        }
        assert(self@.rooms =~= before.rooms);
        assert(self@.messages =~= before.messages);
        Ok(LastRead { last_read_id: resolved })
    }

    /// How many messages of a room a user has not read, counting the user's
    /// own messages too.
    pub fn unread_count(&self, room_id: i32, user: &String) -> (r: i64)
        requires
            valid(self@),
        ensures
            r == unread_spec(self@, room_id, user@),
    {
        let after = match self.marker_position(room_id, user) {
            Some(i) => self.markers[i].last_read_message_id,
            None => None,
        };
        self.count_after(room_id, after, &None)
    }

    /// The rooms a user takes part in, oldest first, each with the user's
    /// unread count. A blank user name gets no rooms at all.
    pub fn list_rooms_with_unread(&self, username: &String) -> (r: Vec<RoomWithUnread>)
        requires
            valid(self@),
        ensures
            r@.map_values(|x: RoomWithUnread| x@) == rooms_for_user_spec(self@, username@),
    {
        let mut r: Vec<RoomWithUnread> = Vec::new();
        if is_blank(username.as_str()) {
            assert(r@.map_values(|x: RoomWithUnread| x@) =~= Seq::<RoomWithUnreadView>::empty());
            return r;
        }
        let ghost user = username@;
        let mut i: usize = 0;
        while i < self.rooms.len()
            invariant
                valid(self@),
                !blank(user),
                user == username@,
                i <= self.rooms@.len(),
                self@.rooms.len() == self.rooms@.len(),
                r@.map_values(|x: RoomWithUnread| x@) == self@.rooms.subrange(0, i as int).filter(member_of(user)).map_values(with_unread(self@, user)),
            decreases self.rooms@.len() - i,
        {
            let ghost before = r@.map_values(|x: RoomWithUnread| x@);
            let ghost pre = self@.rooms.subrange(0, i as int);
            let ghost v = self@.rooms[i as int];
            assert(self@.rooms.subrange(0, i + 1) =~= pre.push(v));
            proof {
                pre.lemma_filter_push(v, member_of(user));
            }
            let room = &self.rooms[i];
            if contains_text(&room.participants, username) {
                let n = self.unread_count(room.id, username);
                r.push(RoomWithUnread { id: room.id, participants: copy_texts(&room.participants), unread_count: n });
                proof {
                    let sel = pre.filter(member_of(user));
                    assert(r@.map_values(|x: RoomWithUnread| x@) =~= before.push(with_unread(self@, user)(v)));
                    assert(sel.push(v).map_values(with_unread(self@, user)) =~= sel.map_values(with_unread(self@, user)).push(with_unread(self@, user)(v)));
                }
            }
            i = i + 1;
        }
        assert(self@.rooms.subrange(0, self@.rooms.len() as int) =~= self@.rooms);
        r
    }
}

} // verus!
