use vstd::prelude::*;

use crate::hub::{publish_spec, HubState, Hub, hub_valid};
use crate::model::{Message, MessageView};
use crate::state::{add_participant_spec, append_spec, empty_store, valid, SendError, StoreState};
use crate::store::ChatStore;

verus! {

/// A message as a client sends it.
#[derive(Clone, Debug)]
pub struct NewMessage {
    pub sender: String,
    pub message: String,
    pub room_id: i32,
}

pub struct NewMessageView {
    pub sender: Seq<char>,
    pub message: Seq<char>,
    pub room_id: i32,
}

impl View for NewMessage {
    type V = NewMessageView;

    open spec fn view(&self) -> NewMessageView {
        NewMessageView { sender: self.sender@, message: self.message@, room_id: self.room_id }
    }
}

/// The answer to a send: `success` is 1 with the stored message, or 0 with
/// a description of the error.
#[derive(Clone, Debug)]
pub struct SendResponse {
    pub success: i32,
    pub error: Option<String>,
    pub chat: Option<Message>,
}

pub open spec fn send_error_text(e: SendError) -> Seq<char> {
    match e {
        SendError::EmptySender => "sender and message are both required"@,
        SendError::EmptyMessage => "sender and message are both required"@,
        SendError::TooLong => "message must be at most 500 characters"@,
        SendError::RoomNotFound => "room does not exist"@,
        SendError::IdsExhausted => "message could not be stored"@,
    }
}

impl SendError {
    /// A short description for the client.
    pub fn describe(&self) -> (r: String)
        ensures
            r@ == send_error_text(*self),
    {
        match self {
            SendError::EmptySender => "sender and message are both required".to_string(),
            SendError::EmptyMessage => "sender and message are both required".to_string(),
            SendError::TooLong => "message must be at most 500 characters".to_string(),
            SendError::RoomNotFound => "room does not exist".to_string(),
            SendError::IdsExhausted => "message could not be stored".to_string(),
        }
    }
}

/// Sending: the message is checked and stored, its sender joins the room's
/// participants, and only then is it published. A send that fails changes
/// nothing and publishes nothing.
pub open spec fn send_spec(st: StoreState, h: HubState, req: NewMessageView, now: i64) -> (StoreState, HubState, Result<MessageView, SendError>) {
    let (s1, r) = append_spec(st, req.room_id, req.sender, req.message, now);
    match r {
        Err(e) => (st, h, Err(e)),
        Ok(m) => (add_participant_spec(s1, req.room_id, req.sender).0, publish_spec(h, m), Ok(m)),
    }
}

/// What a response says, as values.
pub open spec fn response_matches(resp: SendResponse, r: Result<MessageView, SendError>) -> bool {
    match r {
        Ok(m) => resp.success == 1 && resp.error is None && (resp.chat matches Some(c) && c@ == m),
        Err(e) => resp.success == 0 && resp.chat is None && (resp.error matches Some(t) && t@ == send_error_text(e)),
    }
}

/// The store and the hub that publishes what the store accepts.
pub struct ChatServer {
    pub store: ChatStore,
    pub hub: Hub,
}

impl ChatServer {
    pub open spec fn server_valid(&self) -> bool {
        valid(self.store@) && hub_valid(self.hub@)
    }

    /// An empty server whose subscribers buffer up to `capacity` messages.
    pub fn new(capacity: usize) -> (r: ChatServer)
        ensures
            r.server_valid(),
            r.store@ == empty_store(),
            r.hub@ == (HubState { subscribers: Seq::empty(), next_id: 0, capacity }),
    {
        ChatServer { store: ChatStore::new(), hub: Hub::new(capacity) }
    }

    /// Sends a message: checks it, stores it, adds the sender to the room's
    /// participants, then publishes it to the open subscriptions.
    pub fn send(&mut self, new_message: &NewMessage, now: i64) -> (r: SendResponse)
        requires
            old(self).server_valid(),
        ensures
            final(self).server_valid(),
            ({
                let (st, h, out) = send_spec(old(self).store@, old(self).hub@, new_message@, now);
                &&& final(self).store@ == st
                &&& final(self).hub@ == h
                &&& response_matches(r, out)
            }),
    {
        match self.store.append(new_message.room_id, new_message.sender.as_str(), new_message.message.as_str(), now) {
            Err(e) => SendResponse { success: 0, error: Some(e.describe()), chat: None },
            Ok(m) => {
                let _ = self.store.add_participant(new_message.room_id, new_message.sender.as_str());
                self.hub.publish(&m);
                SendResponse { success: 1, error: None, chat: Some(m) }
            },
        }
    }
}

} // verus!
