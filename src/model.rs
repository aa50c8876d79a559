use vstd::prelude::*;

verus! {

/// The longest message body accepted, in characters.
pub const MAX_MESSAGE_CHARS: usize = 500;

/// A stored chat message. Immutable once the store has assigned its id.
#[derive(Clone, Debug)]
pub struct Message {
    pub id: i64,
    pub room_id: i32,
    pub sender: String,
    pub message: String,
    /// Milliseconds since the Unix epoch, as handed in by the caller.
    pub timestamp: i64,
}

pub struct MessageView {
    pub id: i64,
    pub room_id: i32,
    pub sender: Seq<char>,
    pub message: Seq<char>,
    pub timestamp: i64,
}

impl View for Message {
    type V = MessageView;

    open spec fn view(&self) -> MessageView {
        MessageView {
            id: self.id,
            room_id: self.room_id,
            sender: self.sender@,
            message: self.message@,
            timestamp: self.timestamp,
        }
    }
}

impl Message {
    pub fn duplicate(&self) -> (r: Message)
        ensures
            r@ == self@,
    {
        Message {
            id: self.id,
            room_id: self.room_id,
            sender: self.sender.clone(),
            message: self.message.clone(),
            timestamp: self.timestamp,
        }
    }
}

/// A conversation: its id, the pair of names it was opened for (sorted,
/// fixed for the room's lifetime and the key it is found by), and its
/// participants, without repetition, which only ever grow.
#[derive(Clone, Debug)]
pub struct Room {
    pub id: i32,
    pub pair: Vec<String>,
    pub participants: Vec<String>,
}

pub struct RoomView {
    pub id: i32,
    pub pair: Seq<Seq<char>>,
    pub participants: Seq<Seq<char>>,
}

pub open spec fn texts_view(v: Seq<String>) -> Seq<Seq<char>> {
    v.map_values(|s: String| s@)
}

impl View for Room {
    type V = RoomView;

    open spec fn view(&self) -> RoomView {
        RoomView { id: self.id, pair: texts_view(self.pair@), participants: texts_view(self.participants@) }
    }
}

pub fn copy_texts(v: &Vec<String>) -> (r: Vec<String>)
    ensures
        texts_view(r@) == texts_view(v@),
{
    let mut r: Vec<String> = Vec::new();
    let mut i: usize = 0;
    while i < v.len()
        invariant
            i <= v@.len(),
            r@.len() == i,
            forall|j: int| 0 <= j < i ==> (#[trigger] r@[j])@ == v@[j]@,
        decreases v@.len() - i,
    {
        r.push(v[i].clone());
        i = i + 1;
    }
    assert(texts_view(r@) =~= texts_view(v@));
    r
}

impl Room {
    pub fn duplicate(&self) -> (r: Room)
        ensures
            r@ == self@,
    {
        Room { id: self.id, pair: copy_texts(&self.pair), participants: copy_texts(&self.participants) }
    }
}

/// A room as callers name it: an optional id and a list of participants,
/// in any order and possibly with repetitions.
#[derive(Clone, Debug)]
pub struct NewRoom {
    pub id: Option<i32>,
    pub participants: Vec<String>,
}

pub struct NewRoomView {
    pub id: Option<i32>,
    pub participants: Seq<Seq<char>>,
}

impl View for NewRoom {
    type V = NewRoomView;

    open spec fn view(&self) -> NewRoomView {
        NewRoomView { id: self.id, participants: texts_view(self.participants@) }
    }
}

/// How far one user has read in one room. `None` records that nothing has
/// been read yet.
#[derive(Clone, Debug)]
pub struct ReadMarker {
    pub room_id: i32,
    pub user: String,
    pub last_read_message_id: Option<i64>,
    pub updated_at: i64,
}

pub struct MarkerView {
    pub room_id: i32,
    pub user: Seq<char>,
    pub last_read_message_id: Option<i64>,
    pub updated_at: i64,
}

impl View for ReadMarker {
    type V = MarkerView;

    open spec fn view(&self) -> MarkerView {
        MarkerView {
            room_id: self.room_id,
            user: self.user@,
            last_read_message_id: self.last_read_message_id,
            updated_at: self.updated_at,
        }
    }
}

/// A room as listed for one user, with how many of its messages that user
/// has not read.
#[derive(Clone, Debug)]
pub struct RoomWithUnread {
    pub id: i32,
    pub participants: Vec<String>,
    pub unread_count: i64,
}

pub struct RoomWithUnreadView {
    pub id: i32,
    pub participants: Seq<Seq<char>>,
    pub unread_count: i64,
}

impl View for RoomWithUnread {
    type V = RoomWithUnreadView;

    open spec fn view(&self) -> RoomWithUnreadView {
        RoomWithUnreadView {
            id: self.id,
            participants: texts_view(self.participants@),
            unread_count: self.unread_count,
        }
    }
}

/// A request to record how far a user has read. Without an id the marker
/// goes to the newest message of the room.
#[derive(Clone, Debug)]
pub struct ReadUpdate {
    pub username: String,
    pub last_read_id: Option<i64>,
}

/// The id a read marker was set to.
#[derive(Clone, Copy, Debug, PartialEq, Eq)]
pub struct LastRead {
    pub last_read_id: Option<i64>,
}

} // verus!
