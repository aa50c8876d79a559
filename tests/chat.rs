use chat_core::hub::{Delivery, Hub};
use chat_core::model::{Message, NewRoom, ReadUpdate};
use chat_core::participants::canonical_participants;
use chat_core::service::{ChatServer, NewMessage};
use chat_core::state::{RoomError, SendError};
use chat_core::store::{check_message, ChatStore};
use chat_core::text::{is_blank, text_less};

fn names(v: &[&str]) -> Vec<String> {
    v.iter().map(|s| s.to_string()).collect()
}

fn room_of(v: &[&str]) -> NewRoom {
    NewRoom { id: None, participants: names(v) }
}

fn msg(room_id: i32, sender: &str, message: &str) -> NewMessage {
    NewMessage { sender: sender.to_string(), message: message.to_string(), room_id }
}

fn read(user: &str, id: Option<i64>) -> ReadUpdate {
    ReadUpdate { username: user.to_string(), last_read_id: id }
}

#[test]
fn mark_read_then_new_message_counts_one() {
    let mut server = ChatServer::new(16);
    let room = server.store.find_or_create_room(&room_of(&["alice", "bob"])).unwrap();
    assert_eq!(room.id, 1);
    let mut ids = Vec::new();
    for text in ["one", "two", "three"] {
        let r = server.send(&msg(1, "alice", text), 100);
        assert_eq!(r.success, 1);
        ids.push(r.chat.unwrap().id);
    }
    assert_eq!(ids, vec![1, 2, 3]);
    let marked = server.store.mark_read(1, &read("bob", None), 200).unwrap();
    assert_eq!(marked.last_read_id, Some(3));
    assert_eq!(server.store.unread_count(1, &"bob".to_string()), 0);
    let r = server.send(&msg(1, "alice", "four"), 300);
    assert_eq!(r.chat.unwrap().id, 4);
    assert_eq!(server.store.unread_count(1, &"bob".to_string()), 1);
}

#[test]
fn blank_user_lists_no_rooms() {
    let mut store = ChatStore::new();
    store.find_or_create_room(&room_of(&["alice", "bob"])).unwrap();
    store.find_or_create_room(&room_of(&["", "carol"])).unwrap();
    store.create_room(&room_of(&["dave", "erin"])).unwrap();
    assert!(store.list_rooms_with_unread(&"".to_string()).is_empty());
    assert!(store.list_rooms_with_unread(&"  \t".to_string()).is_empty());
    assert_eq!(store.list_rooms_with_unread(&"alice".to_string()).len(), 1);
}

#[test]
fn repeated_find_or_create_gives_one_room() {
    let mut store = ChatStore::new();
    let a = store.find_or_create_room(&room_of(&["alice", "bob"])).unwrap();
    let b = store.find_or_create_room(&room_of(&["bob", "alice"])).unwrap();
    let c = store.find_or_create_room(&room_of(&["bob", "alice", "bob"])).unwrap();
    assert_eq!(a.id, b.id);
    assert_eq!(a.id, c.id);
    assert_eq!(store.get_rooms().len(), 1);
    assert_eq!(a.participants, names(&["alice", "bob"]));
}

#[test]
fn room_needs_two_distinct_names() {
    let mut store = ChatStore::new();
    assert_eq!(store.find_or_create_room(&room_of(&["alice"])).unwrap_err(), RoomError::InvalidParticipantCount);
    assert_eq!(store.find_or_create_room(&room_of(&["alice", "alice"])).unwrap_err(), RoomError::InvalidParticipantCount);
    assert_eq!(store.create_room(&room_of(&["a", "b", "c"])).unwrap_err(), RoomError::InvalidParticipantCount);
    assert_eq!(store.post_room(&room_of(&[])).unwrap_err(), RoomError::InvalidParticipantCount);
    assert!(store.get_rooms().is_empty());
}

#[test]
fn create_room_always_adds() {
    let mut store = ChatStore::new();
    let a = store.create_room(&room_of(&["zed", "amy"])).unwrap();
    let b = store.post_room(&room_of(&["amy", "zed"])).unwrap();
    assert_eq!(a.id, 1);
    assert_eq!(b.id, 2);
    assert_eq!(a.participants, names(&["amy", "zed"]));
    let found = store.find_or_create_room(&room_of(&["zed", "amy"])).unwrap();
    assert_eq!(found.id, 1);
}

#[test]
fn invalid_messages_are_rejected_and_not_stored() {
    let mut server = ChatServer::new(4);
    server.store.find_or_create_room(&room_of(&["alice", "bob"])).unwrap();
    let sub = server.hub.subscribe(None).unwrap();
    let long: String = std::iter::repeat('x').take(501).collect();
    let cases = [
        (msg(1, "", "hi"), SendError::EmptySender),
        (msg(1, "  ", "hi"), SendError::EmptySender),
        (msg(1, "alice", ""), SendError::EmptyMessage),
        (msg(1, "alice", "\n\u{3000}"), SendError::EmptyMessage),
        (msg(1, "alice", &long), SendError::TooLong),
        (msg(7, "alice", "hi"), SendError::RoomNotFound),
    ];
    for (m, e) in cases.iter() {
        let r = server.send(m, 1);
        assert_eq!(r.success, 0);
        assert!(r.chat.is_none());
        assert_eq!(r.error, Some(e.describe()));
    }
    assert!(server.store.get_chat(1).is_empty());
    assert!(server.hub.next_event(sub).is_none());
}

#[test]
fn length_limit_counts_characters() {
    let at_limit: String = std::iter::repeat('é').take(500).collect();
    assert_eq!(check_message("alice", &at_limit), None);
    let over: String = std::iter::repeat('é').take(501).collect();
    assert_eq!(check_message("alice", &over), Some(SendError::TooLong));
    assert_eq!(check_message(" ", ""), Some(SendError::EmptySender));
}

#[test]
fn error_descriptions() {
    assert_eq!(SendError::TooLong.describe(), "message must be at most 500 characters");
    assert_eq!(SendError::RoomNotFound.describe(), "room does not exist");
    assert_eq!(SendError::EmptySender.describe(), "sender and message are both required");
}

#[test]
fn filtered_subscriber_sees_only_its_room() {
    let mut server = ChatServer::new(16);
    server.store.find_or_create_room(&room_of(&["alice", "bob"])).unwrap();
    server.store.find_or_create_room(&room_of(&["alice", "carol"])).unwrap();
    let only_two = server.hub.subscribe(Some(2)).unwrap();
    let all = server.hub.subscribe(None).unwrap();
    server.send(&msg(1, "alice", "to bob"), 1);
    server.send(&msg(2, "alice", "to carol"), 2);
    server.send(&msg(1, "bob", "back"), 3);
    match server.hub.next_event(only_two) {
        Some(Delivery::Message(m)) => {
            assert_eq!(m.room_id, 2);
            assert_eq!(m.message, "to carol");
        }
        other => panic!("unexpected {:?}", other),
    }
    assert!(server.hub.next_event(only_two).is_none());
    let mut seen = Vec::new();
    while let Some(Delivery::Message(m)) = server.hub.next_event(all) {
        seen.push(m.id);
    }
    assert_eq!(seen, vec![1, 2, 3]);
}

#[test]
fn full_buffer_reports_overrun() {
    let mut hub = Hub::new(2);
    let sub = hub.subscribe(None).unwrap();
    for id in 1..=4 {
        hub.publish(&Message { id, room_id: 1, sender: "a".to_string(), message: "m".to_string(), timestamp: 0 });
    }
    let mut got = Vec::new();
    while let Some(d) = hub.next_event(sub) {
        got.push(match d {
            Delivery::Message(m) => format!("m{}", m.id),
            Delivery::Overrun(n) => format!("lost{}", n),
        });
    }
    assert_eq!(got, vec!["m1", "m2", "lost2"]);
    hub.publish(&Message { id: 5, room_id: 1, sender: "a".to_string(), message: "m".to_string(), timestamp: 0 });
    match hub.next_event(sub) {
        Some(Delivery::Message(m)) => assert_eq!(m.id, 5),
        other => panic!("unexpected {:?}", other),
    }
}

#[test]
fn unsubscribed_gets_nothing() {
    let mut hub = Hub::new(2);
    let a = hub.subscribe(None).unwrap();
    let b = hub.subscribe(Some(1)).unwrap();
    assert_ne!(a, b);
    hub.unsubscribe(a);
    hub.unsubscribe(a);
    hub.publish(&Message { id: 1, room_id: 1, sender: "a".to_string(), message: "m".to_string(), timestamp: 0 });
    assert!(hub.next_event(a).is_none());
    assert!(matches!(hub.next_event(b), Some(Delivery::Message(_))));
}

#[test]
fn deleting_a_room_removes_messages_and_markers() {
    let mut server = ChatServer::new(4);
    server.store.find_or_create_room(&room_of(&["alice", "bob"])).unwrap();
    server.store.find_or_create_room(&room_of(&["alice", "carol"])).unwrap();
    server.send(&msg(1, "alice", "hello"), 1);
    server.send(&msg(2, "alice", "hey"), 1);
    server.store.mark_read(1, &read("bob", None), 2).unwrap();
    server.store.delete_room(1);
    server.store.delete_room(1);
    assert!(server.store.get_chat(1).is_empty());
    assert_eq!(server.store.get_room_by_id(1).unwrap_err(), RoomError::NotFound);
    assert_eq!(server.store.get_chat(2).len(), 1);
    assert_eq!(server.store.mark_read(1, &read("bob", None), 3).unwrap_err(), RoomError::NotFound);
    assert!(server.store.list_rooms_with_unread(&"bob".to_string()).is_empty());
    let again = server.store.find_or_create_room(&room_of(&["alice", "bob"])).unwrap();
    assert_eq!(again.id, 3);
    assert_eq!(server.store.unread_count(3, &"bob".to_string()), 0);
}

#[test]
fn ids_increase_across_rooms() {
    let mut server = ChatServer::new(4);
    server.store.find_or_create_room(&room_of(&["alice", "bob"])).unwrap();
    server.store.find_or_create_room(&room_of(&["alice", "carol"])).unwrap();
    let a = server.send(&msg(1, "alice", "x"), 1).chat.unwrap().id;
    let b = server.send(&msg(2, "alice", "y"), 1).chat.unwrap().id;
    let c = server.send(&msg(1, "bob", "z"), 1).chat.unwrap().id;
    assert!(a < b && b < c);
    let listed: Vec<i64> = server.store.get_chat(1).iter().map(|m| m.id).collect();
    assert_eq!(listed, vec![a, c]);
}

#[test]
fn unread_counts_all_senders_and_markers_upsert() {
    let mut server = ChatServer::new(4);
    server.store.find_or_create_room(&room_of(&["alice", "bob"])).unwrap();
    server.send(&msg(1, "alice", "1"), 1);
    server.send(&msg(1, "bob", "2"), 1);
    server.send(&msg(1, "alice", "3"), 1);
    let bob = "bob".to_string();
    assert_eq!(server.store.unread_count(1, &bob), 3);
    assert_eq!(server.store.mark_read(1, &read("bob", Some(1)), 5).unwrap().last_read_id, Some(1));
    assert_eq!(server.store.unread_count(1, &bob), 2);
    assert_eq!(server.store.mark_read(1, &read("bob", Some(2)), 6).unwrap().last_read_id, Some(2));
    assert_eq!(server.store.unread_count(1, &bob), 1);
    assert_eq!(server.store.count_after(1, Some(0), &Some("alice".to_string())), 1);
    assert_eq!(server.store.count_after(1, None, &None), 3);
    assert_eq!(server.store.count_after(1, Some(3), &None), 0);
    let rooms = server.store.list_rooms_with_unread(&bob);
    assert_eq!(rooms.len(), 1);
    assert_eq!(rooms[0].unread_count, 1);
    assert_eq!(rooms[0].participants, names(&["alice", "bob"]));
}

#[test]
fn mark_read_in_empty_room_records_nothing_read() {
    let mut store = ChatStore::new();
    store.find_or_create_room(&room_of(&["alice", "bob"])).unwrap();
    assert_eq!(store.mark_read(1, &read("bob", None), 1).unwrap().last_read_id, None);
    assert_eq!(store.mark_read(9, &read("bob", None), 1).unwrap_err(), RoomError::NotFound);
}

#[test]
fn sender_joins_participants_once() {
    let mut server = ChatServer::new(4);
    server.store.find_or_create_room(&room_of(&["alice", "bob"])).unwrap();
    server.send(&msg(1, "carol", "hi"), 1);
    server.send(&msg(1, "carol", "again"), 1);
    server.send(&msg(1, "alice", "hey"), 1);
    let room = server.store.get_room_by_id(1).unwrap();
    assert_eq!(room.participants, names(&["alice", "bob", "carol"]));
    assert_eq!(server.store.list_rooms_with_unread(&"carol".to_string()).len(), 1);
}

#[test]
fn updates_only_add_participants() {
    let mut store = ChatStore::new();
    store.find_or_create_room(&room_of(&["alice", "bob"])).unwrap();
    let r = store.update_room(1, &room_of(&["dave", "alice", "dave"])).unwrap();
    assert_eq!(r.participants, names(&["alice", "bob", "dave"]));
    let p = store.put_room(&NewRoom { id: Some(1), participants: names(&["erin"]) }).unwrap();
    assert_eq!(p.participants, names(&["alice", "bob", "dave", "erin"]));
    let created = store.put_room(&room_of(&["x", "y"])).unwrap();
    assert_eq!(created.id, 2);
    assert_eq!(store.update_room(5, &room_of(&["x"])).unwrap_err(), RoomError::NotFound);
    assert_eq!(store.add_participant(5, "x").unwrap_err(), RoomError::NotFound);
    store.add_participant(2, "x").unwrap();
    assert_eq!(store.get_room_by_id(2).unwrap().participants, names(&["x", "y"]));
}

#[test]
fn get_room_by_optional_id() {
    let mut store = ChatStore::new();
    store.find_or_create_room(&room_of(&["alice", "bob"])).unwrap();
    store.find_or_create_room(&room_of(&["carol", "bob"])).unwrap();
    let all = store.get_room(None);
    assert_eq!(all.len(), 2);
    assert_eq!(all[1].id, Some(2));
    assert_eq!(all[1].participants, names(&["bob", "carol"]));
    let one = store.get_room(Some(1));
    assert_eq!(one.len(), 1);
    assert_eq!(one[0].participants, names(&["alice", "bob"]));
    assert!(store.get_room(Some(3)).is_empty());
}

#[test]
fn text_helpers() {
    assert!(is_blank(""));
    assert!(is_blank(" \t\u{a0}\u{2003}"));
    assert!(!is_blank(" a "));
    assert!(text_less("abc", "abd"));
    assert!(text_less("ab", "abc"));
    assert!(!text_less("b", "abc"));
    assert!(!text_less("same", "same"));
    assert_eq!(canonical_participants(&names(&["bob", "alice"])), Some(names(&["alice", "bob"])));
    assert_eq!(canonical_participants(&names(&["b", "a", "b", "a"])), Some(names(&["a", "b"])));
    assert_eq!(canonical_participants(&names(&["a"])), None);
}

#[test]
fn room_is_found_by_its_pair_after_others_join() {
    let mut server = ChatServer::new(4);
    let first = server.store.find_or_create_room(&room_of(&["alice", "bob"])).unwrap();
    let r = server.send(&msg(first.id, "carol", "hello"), 1);
    assert_eq!(r.success, 1);
    server.store.update_room(first.id, &room_of(&["dave"])).unwrap();
    assert_eq!(server.store.get_room_by_id(first.id).unwrap().participants, names(&["alice", "bob", "carol", "dave"]));
    let again = server.store.find_or_create_room(&room_of(&["bob", "alice"])).unwrap();
    assert_eq!(again.id, first.id);
    assert_eq!(again.pair, names(&["alice", "bob"]));
    assert_eq!(server.store.get_rooms().len(), 1);
}

#[test]
fn deleting_a_missing_room_changes_nothing() {
    let mut server = ChatServer::new(4);
    server.store.find_or_create_room(&room_of(&["alice", "bob"])).unwrap();
    server.send(&msg(1, "alice", "hi"), 1);
    server.store.mark_read(1, &read("bob", None), 2).unwrap();
    server.store.delete_room(42);
    assert_eq!(server.store.get_rooms().len(), 1);
    assert_eq!(server.store.get_chat(1).len(), 1);
    assert_eq!(server.store.unread_count(1, &"bob".to_string()), 0);
}
