use chat_relay::codec::encode_message;
use chat_relay::registry::ChatRoom;
use chat_relay::session::connect;
use chat_relay::session::disconnect;
use chat_relay::session::handle_incoming_message;
use chat_relay::wire::ChatMessages;
use chat_relay::wire::Timestamp;
use chat_relay::wire::WebSocketMessage;
use chat_relay::wire::WebSocketMessageType;

fn fixed_ts() -> Timestamp {
    Timestamp { year: 2024, month: 1, day: 2, hour: 3, minute: 4, second: 5 }
}

#[test]
fn connect_registers_and_announces() {
    let mut room = ChatRoom::new();
    let ds = connect(&mut room, 1);
    // arrival line, roster, and the unicast name confirmation
    assert_eq!(ds.len(), 3);
    assert!(ds.iter().all(|d| d.target == 1));
    assert!(ds[0].frame.contains("\"User User #1 arrived\""));
    assert!(ds[0].frame.contains("\"author\":\"System\""));
    assert!(ds[1].frame.contains("\"users\":[\"User #1\"]"));
    assert_eq!(
        ds[2].frame,
        "{\"message_type\":\"UsernameChange\",\"message\":null,\"users\":null,\
         \"username\":\"User #1\"}"
    );
    assert_eq!(room.snapshot_usernames(), vec!["User #1".to_string()]);
}

#[test]
fn disconnect_twice_announces_once() {
    let mut room = ChatRoom::new();
    connect(&mut room, 1);
    connect(&mut room, 2);
    let first = disconnect(&mut room, 2);
    assert!(!first.is_empty());
    let second = disconnect(&mut room, 2);
    assert!(second.is_empty());
    assert_eq!(room.snapshot_usernames(), vec!["User #1".to_string()]);
}

#[test]
fn inbound_chat_post_is_relayed_under_current_name() {
    let mut room = ChatRoom::new();
    room.add(1);
    room.rename(1, "Alice".to_string());
    room.add(2);
    let frame = encode_message(&WebSocketMessage {
        message_type: WebSocketMessageType::NewMessage,
        message: Some(ChatMessages {
            message: "hello".to_string(),
            // client-sent author and timestamp carry no authority
            author: "Mallory".to_string(),
            created_at: fixed_ts(),
        }),
        users: None,
        username: None,
    });
    let ds = handle_incoming_message(&mut room, &frame, 1);
    assert_eq!(ds.len(), 2);
    assert_eq!(ds[0].target, 1);
    assert_eq!(ds[1].target, 2);
    assert!(ds[0].frame.contains("\"message\":\"hello\""));
    assert!(ds[0].frame.contains("\"author\":\"Alice\""));
    assert!(!ds[0].frame.contains("Mallory"));
    assert_eq!(ds[0].frame, ds[1].frame);
}

#[test]
fn inbound_rename_request_is_applied_and_announced() {
    let mut room = ChatRoom::new();
    room.add(1);
    let frame = encode_message(&WebSocketMessage {
        message_type: WebSocketMessageType::UsernameChange,
        message: None,
        users: None,
        username: Some("Bob".to_string()),
    });
    let ds = handle_incoming_message(&mut room, &frame, 1);
    assert_eq!(ds.len(), 3);
    assert!(ds[0].frame.contains("\"User User #1 changed username to Bob\""));
    assert_eq!(
        ds[1].frame,
        "{\"message_type\":\"UsernameChange\",\"message\":null,\"users\":null,\
         \"username\":\"Bob\"}"
    );
    assert!(ds[2].frame.contains("\"users\":[\"Bob\"]"));
    assert_eq!(room.snapshot_usernames(), vec!["Bob".to_string()]);
}

#[test]
fn inbound_empty_rename_is_ignored() {
    let mut room = ChatRoom::new();
    room.add(1);
    let frame = encode_message(&WebSocketMessage {
        message_type: WebSocketMessageType::UsernameChange,
        message: None,
        users: None,
        username: Some("".to_string()),
    });
    let ds = handle_incoming_message(&mut room, &frame, 1);
    assert!(ds.is_empty());
    assert_eq!(room.snapshot_usernames(), vec!["User #1".to_string()]);
}

#[test]
fn malformed_frames_are_ignored_and_session_continues() {
    let mut room = ChatRoom::new();
    room.add(1);
    for bad in ["", "garbage", "{\"message_type\":\"NewMessage\"}", "{}"] {
        let ds = handle_incoming_message(&mut room, bad, 1);
        assert!(ds.is_empty());
    }
    assert_eq!(room.snapshot_usernames(), vec!["User #1".to_string()]);
    // the session can still post afterwards
    let frame = encode_message(&WebSocketMessage {
        message_type: WebSocketMessageType::NewMessage,
        message: Some(ChatMessages {
            message: "still here".to_string(),
            author: String::new(),
            created_at: fixed_ts(),
        }),
        users: None,
        username: None,
    });
    let ds = handle_incoming_message(&mut room, &frame, 1);
    assert_eq!(ds.len(), 1);
    assert!(ds[0].frame.contains("\"still here\""));
}

#[test]
fn three_joins_then_middle_leave_rosters() {
    let mut room = ChatRoom::new();
    connect(&mut room, 1);
    connect(&mut room, 2);
    let ds = connect(&mut room, 3);
    // the roster broadcast of the third join names all three, to each of them
    let roster: Vec<_> = ds
        .iter()
        .filter(|d| d.frame.contains("\"message_type\":\"UsersList\""))
        .collect();
    assert_eq!(roster.len(), 3);
    for d in &roster {
        assert!(d.frame.contains("\"users\":[\"User #1\",\"User #2\",\"User #3\"]"));
    }
    let ds = disconnect(&mut room, 2);
    let roster: Vec<_> = ds
        .iter()
        .filter(|d| d.frame.contains("\"message_type\":\"UsersList\""))
        .collect();
    assert_eq!(roster.len(), 2);
    for d in &roster {
        assert!(d.frame.contains("\"users\":[\"User #1\",\"User #3\"]"));
    }
}

#[test]
fn id_generator_never_reuses() {
    let mut ids = chat_relay::session::IdGenerator::new();
    assert!(ids.has_more());
    let a = ids.fresh();
    let b = ids.fresh();
    let c = ids.fresh();
    assert_eq!((a, b, c), (1, 2, 3));
}
