use chat_relay::codec::decode_message;
use chat_relay::codec::encode_message;
use chat_relay::wire::ChatMessages;
use chat_relay::wire::Timestamp;
use chat_relay::wire::WebSocketMessage;
use chat_relay::wire::WebSocketMessageType;

fn ts() -> Timestamp {
    Timestamp { year: 2024, month: 1, day: 2, hour: 3, minute: 4, second: 5 }
}

fn chat_post(text: &str, author: &str) -> WebSocketMessage {
    WebSocketMessage {
        message_type: WebSocketMessageType::NewMessage,
        message: Some(ChatMessages {
            message: text.to_string(),
            author: author.to_string(),
            created_at: ts(),
        }),
        users: None,
        username: None,
    }
}

#[test]
fn encode_chat_post_is_canonical_json() {
    let frame = encode_message(&chat_post("hello", "Alice"));
    assert_eq!(
        frame,
        "{\"message_type\":\"NewMessage\",\"message\":{\"message\":\"hello\",\
         \"author\":\"Alice\",\"created_at\":\"2024-01-02T03:04:05\"},\
         \"users\":null,\"username\":null}"
    );
}

#[test]
fn encode_escapes_quotes_backslashes_and_controls() {
    let frame = encode_message(&chat_post("a\"b\\c\nd\te\rf\u{7}g", "A"));
    assert_eq!(
        frame,
        "{\"message_type\":\"NewMessage\",\"message\":{\"message\":\
         \"a\\\"b\\\\c\\nd\\te\\rf\\u0007g\",\"author\":\"A\",\
         \"created_at\":\"2024-01-02T03:04:05\"},\"users\":null,\"username\":null}"
    );
}

#[test]
fn encode_roster_keeps_order() {
    let env = WebSocketMessage {
        message_type: WebSocketMessageType::UsersList,
        message: None,
        users: Some(vec!["B".to_string(), "A".to_string()]),
        username: None,
    };
    assert_eq!(
        encode_message(&env),
        "{\"message_type\":\"UsersList\",\"message\":null,\"users\":[\"B\",\"A\"],\
         \"username\":null}"
    );
}

#[test]
fn encode_empty_roster() {
    let env = WebSocketMessage {
        message_type: WebSocketMessageType::UsersList,
        message: None,
        users: Some(Vec::new()),
        username: None,
    };
    assert_eq!(
        encode_message(&env),
        "{\"message_type\":\"UsersList\",\"message\":null,\"users\":[],\"username\":null}"
    );
}

#[test]
fn chat_post_round_trips() {
    let sent = chat_post("he\"ll\\o\n\tworld\u{1}", "Al\"ice");
    let frame = encode_message(&sent);
    let back = decode_message(&frame).expect("canonical frame must decode");
    match back.message_type {
        WebSocketMessageType::NewMessage => {}
        _ => panic!("wrong discriminant"),
    }
    let cm = back.message.expect("chat payload");
    assert_eq!(cm.message, "he\"ll\\o\n\tworld\u{1}");
    assert_eq!(cm.author, "Al\"ice");
    assert_eq!(cm.created_at, ts());
    assert!(back.users.is_none());
    assert!(back.username.is_none());
}

#[test]
fn rename_request_round_trips() {
    let sent = WebSocketMessage {
        message_type: WebSocketMessageType::UsernameChange,
        message: None,
        users: None,
        username: Some("Bo\\b\"".to_string()),
    };
    let frame = encode_message(&sent);
    let back = decode_message(&frame).expect("canonical frame must decode");
    match back.message_type {
        WebSocketMessageType::UsernameChange => {}
        _ => panic!("wrong discriminant"),
    }
    assert_eq!(back.username, Some("Bo\\b\"".to_string()));
    assert!(back.message.is_none());
    assert!(back.users.is_none());
}

#[test]
fn decode_rejects_malformed_text() {
    assert!(decode_message("").is_none());
    assert!(decode_message("not json at all").is_none());
    assert!(decode_message("{\"message_type\":\"Bogus\",\"message\":null,\"users\":null,\"username\":null}").is_none());
    // a truncated chat post
    assert!(decode_message("{\"message_type\":\"NewMessage\",\"message\":{\"message\":\"hi").is_none());
    // an out-of-range calendar field
    assert!(decode_message(
        "{\"message_type\":\"NewMessage\",\"message\":{\"message\":\"hi\",\"author\":\"A\",\
         \"created_at\":\"2024-13-02T03:04:05\"},\"users\":null,\"username\":null}"
    )
    .is_none());
    // trailing garbage after a well-formed frame
    assert!(decode_message(
        "{\"message_type\":\"UsernameChange\",\"message\":null,\"users\":null,\
         \"username\":\"Bob\"}x"
    )
    .is_none());
}

#[test]
fn decode_ignores_roster_frames_from_clients() {
    let env = WebSocketMessage {
        message_type: WebSocketMessageType::UsersList,
        message: None,
        users: Some(vec!["A".to_string()]),
        username: None,
    };
    let frame = encode_message(&env);
    assert!(decode_message(&frame).is_none());
}
