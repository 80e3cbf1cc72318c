use chat_relay::registry::ChatRoom;
use chat_relay::wire::Timestamp;

fn ts() -> Timestamp {
    Timestamp { year: 2024, month: 1, day: 2, hour: 3, minute: 4, second: 5 }
}

#[test]
fn add_assigns_default_names() {
    let mut room = ChatRoom::new();
    assert_eq!(room.add(1), "User #1");
    assert_eq!(room.add(2), "User #2");
    assert_eq!(room.add(12345), "User #12345");
    assert_eq!(
        room.snapshot_usernames(),
        vec!["User #1".to_string(), "User #2".to_string(), "User #12345".to_string()]
    );
}

#[test]
fn snapshot_tracks_adds_and_removes() {
    let mut room = ChatRoom::new();
    room.add(1);
    room.add(2);
    room.add(3);
    assert_eq!(room.remove(2), Some("User #2".to_string()));
    room.add(4);
    assert_eq!(room.remove(1), Some("User #1".to_string()));
    let mut names = room.snapshot_usernames();
    names.sort();
    assert_eq!(names, vec!["User #3".to_string(), "User #4".to_string()]);
}

#[test]
fn remove_twice_reports_absent() {
    let mut room = ChatRoom::new();
    room.add(1);
    assert_eq!(room.remove(1), Some("User #1".to_string()));
    assert_eq!(room.remove(1), None);
    // a double removal announces nothing
    let ds = room.announce_departure(None, ts());
    assert!(ds.is_empty());
}

#[test]
fn rename_returns_prior_name() {
    let mut room = ChatRoom::new();
    room.add(7);
    assert_eq!(room.rename(7, "Alice".to_string()), Some("User #7".to_string()));
    assert_eq!(room.rename(8, "Ghost".to_string()), None);
    assert_eq!(room.snapshot_usernames(), vec!["Alice".to_string()]);
}

#[test]
fn relay_chat_broadcasts_exact_frame() {
    let mut room = ChatRoom::new();
    room.add(1);
    room.rename(1, "Alice".to_string());
    room.add(2);
    let ds = room.relay_chat(1, "hello".to_string(), ts());
    assert_eq!(ds.len(), 2);
    let expected = "{\"message_type\":\"NewMessage\",\"message\":{\"message\":\"hello\",\
                    \"author\":\"Alice\",\"created_at\":\"2024-01-02T03:04:05\"},\
                    \"users\":null,\"username\":null}";
    assert_eq!(ds[0].target, 1);
    assert_eq!(ds[0].frame, expected);
    assert_eq!(ds[1].target, 2);
    assert_eq!(ds[1].frame, expected);
}

#[test]
fn relay_chat_from_vanished_sender_is_dropped() {
    let mut room = ChatRoom::new();
    room.add(1);
    room.remove(1);
    let ds = room.relay_chat(1, "hello".to_string(), ts());
    assert!(ds.is_empty());
}

#[test]
fn apply_rename_empty_is_silently_ignored() {
    let mut room = ChatRoom::new();
    room.add(1);
    let ds = room.apply_rename(1, "".to_string(), ts());
    assert!(ds.is_empty());
    assert_eq!(room.snapshot_usernames(), vec!["User #1".to_string()]);
}

#[test]
fn apply_rename_announces_change_confirmation_and_roster() {
    let mut room = ChatRoom::new();
    room.add(1);
    room.rename(1, "Alice".to_string());
    let ds = room.apply_rename(1, "Bob".to_string(), ts());
    // one connection: system line to it, unicast confirmation, roster to it
    assert_eq!(ds.len(), 3);
    assert_eq!(ds[0].target, 1);
    assert_eq!(
        ds[0].frame,
        "{\"message_type\":\"NewMessage\",\"message\":{\"message\":\
         \"User Alice changed username to Bob\",\"author\":\"System\",\
         \"created_at\":\"2024-01-02T03:04:05\"},\"users\":null,\"username\":null}"
    );
    assert_eq!(ds[1].target, 1);
    assert_eq!(
        ds[1].frame,
        "{\"message_type\":\"UsernameChange\",\"message\":null,\"users\":null,\
         \"username\":\"Bob\"}"
    );
    assert_eq!(ds[2].target, 1);
    assert_eq!(
        ds[2].frame,
        "{\"message_type\":\"UsersList\",\"message\":null,\"users\":[\"Bob\"],\
         \"username\":null}"
    );
    let names = room.snapshot_usernames();
    assert!(names.contains(&"Bob".to_string()));
    assert!(!names.contains(&"Alice".to_string()));
}

#[test]
fn apply_rename_for_vanished_connection_does_nothing() {
    let mut room = ChatRoom::new();
    room.add(1);
    room.remove(1);
    let ds = room.apply_rename(1, "Bob".to_string(), ts());
    assert!(ds.is_empty());
    assert!(room.snapshot_usernames().is_empty());
}

#[test]
fn roster_after_three_joins() {
    let mut room = ChatRoom::new();
    room.add(1);
    room.add(2);
    room.add(3);
    let ds = room.broadcast_user_list();
    assert_eq!(ds.len(), 3);
    let expected = "{\"message_type\":\"UsersList\",\"message\":null,\
                    \"users\":[\"User #1\",\"User #2\",\"User #3\"],\"username\":null}";
    for (k, d) in ds.iter().enumerate() {
        assert_eq!(d.target, k + 1);
        assert_eq!(d.frame, expected);
    }
}

#[test]
fn roster_after_middle_disconnect() {
    let mut room = ChatRoom::new();
    room.add(1);
    room.add(2);
    room.add(3);
    room.remove(2);
    let ds = room.broadcast_user_list();
    assert_eq!(ds.len(), 2);
    let expected = "{\"message_type\":\"UsersList\",\"message\":null,\
                    \"users\":[\"User #1\",\"User #3\"],\"username\":null}";
    assert_eq!(ds[0].target, 1);
    assert_eq!(ds[1].target, 3);
    assert_eq!(ds[0].frame, expected);
    assert_eq!(ds[1].frame, expected);
}

#[test]
fn identical_broadcasts_are_not_deduplicated() {
    let mut room = ChatRoom::new();
    room.add(1);
    room.add(2);
    let make = || chat_relay::wire::ChatMessages {
        message: "same".to_string(),
        author: "Alice".to_string(),
        created_at: ts(),
    };
    let first = room.broadcast_message(make());
    let second = room.broadcast_message(make());
    assert_eq!(first.len(), 2);
    assert_eq!(second.len(), 2);
    for k in 0..2 {
        assert_eq!(first[k].frame, second[k].frame);
        assert_eq!(first[k].target, second[k].target);
    }
}

#[test]
fn send_username_confirms_to_target_only() {
    let mut room = ChatRoom::new();
    room.add(1);
    room.add(2);
    let ds = room.send_username(2);
    assert_eq!(ds.len(), 1);
    assert_eq!(ds[0].target, 2);
    assert_eq!(
        ds[0].frame,
        "{\"message_type\":\"UsernameChange\",\"message\":null,\"users\":null,\
         \"username\":\"User #2\"}"
    );
    assert!(room.send_username(9).is_empty());
}

#[test]
fn unicast_to_vanished_target_is_swallowed() {
    let room = ChatRoom::new();
    let env = chat_relay::wire::WebSocketMessage {
        message_type: chat_relay::wire::WebSocketMessageType::UsernameChange,
        message: None,
        users: None,
        username: Some("X".to_string()),
    };
    assert!(room.unicast(5, &env).is_empty());
}

#[test]
fn announce_departure_broadcasts_line_and_roster() {
    let mut room = ChatRoom::new();
    room.add(1);
    room.add(2);
    let gone = room.remove(2);
    let ds = room.announce_departure(gone, ts());
    assert_eq!(ds.len(), 2);
    assert_eq!(
        ds[0].frame,
        "{\"message_type\":\"NewMessage\",\"message\":{\"message\":\"User User #2 left\",\
         \"author\":\"System\",\"created_at\":\"2024-01-02T03:04:05\"},\
         \"users\":null,\"username\":null}"
    );
    assert_eq!(
        ds[1].frame,
        "{\"message_type\":\"UsersList\",\"message\":null,\"users\":[\"User #1\"],\
         \"username\":null}"
    );
}
