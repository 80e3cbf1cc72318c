//! The wire data model: envelope, chat message and timestamp types.

use vstd::prelude::*;

verus! {

/// Discriminant of the wire envelope.  Exactly one payload field of
/// [`WebSocketMessage`] is meaningfully populated per variant.
#[derive(Clone, Copy, PartialEq, Eq, Structural, Debug)]
pub enum WebSocketMessageType {
    /// A chat line; the `message` payload is populated.
    NewMessage,
    /// A roster update; the `users` payload is populated.
    UsersList,
    /// A display-name confirmation, sent unicast; the `username` payload is
    /// populated.
    UsernameChange,
}

/// A calendar timestamp in UTC at second resolution.
#[derive(Clone, Copy, PartialEq, Eq, Structural, Debug)]
pub struct Timestamp {
    pub year: u32,
    pub month: u32,
    pub day: u32,
    pub hour: u32,
    pub minute: u32,
    pub second: u32,
}

impl Timestamp {
    /// Calendar field ranges; the year is bounded so that the timestamp
    /// always formats as exactly four digits.
    pub open spec fn wf(self) -> bool {
        &&& self.year <= 9999
        &&& 1 <= self.month <= 12
        &&& 1 <= self.day <= 31
        &&& self.hour <= 23
        &&& self.minute <= 59
        &&& self.second <= 59
    }
}

/// One chat line.  The author name is captured when the line is built, so a
/// later rename does not rewrite messages already sent.
pub struct ChatMessages {
    pub message: String,
    pub author: String,
    pub created_at: Timestamp,
}

/// Mathematical image of [`ChatMessages`]: both strings as character
/// sequences.
pub struct ChatMessagesView {
    pub message: Seq<char>,
    pub author: Seq<char>,
    pub created_at: Timestamp,
}

impl View for ChatMessages {
    type V = ChatMessagesView;

    open spec fn view(&self) -> ChatMessagesView {
        ChatMessagesView {
            message: self.message@,
            author: self.author@,
            created_at: self.created_at,
        }
    }
}

/// The wire envelope: a tagged union carrying one of a chat line, a roster
/// snapshot, or a display-name confirmation, discriminated by
/// `message_type`.
pub struct WebSocketMessage {
    pub message_type: WebSocketMessageType,
    pub message: Option<ChatMessages>,
    pub users: Option<Vec<String>>,
    pub username: Option<String>,
}

/// Mathematical image of [`WebSocketMessage`].
pub struct WebSocketMessageView {
    pub message_type: WebSocketMessageType,
    pub message: Option<ChatMessagesView>,
    pub users: Option<Seq<Seq<char>>>,
    pub username: Option<Seq<char>>,
}

impl View for WebSocketMessage {
    type V = WebSocketMessageView;

    open spec fn view(&self) -> WebSocketMessageView {
        WebSocketMessageView {
            message_type: self.message_type,
            message: match self.message {
                Some(m) => Some(m@),
                None => None,
            },
            users: match self.users {
                Some(u) => Some(u.deep_view()),
                None => None,
            },
            username: match self.username {
                Some(u) => Some(u@),
                None => None,
            },
        }
    }
}

/// An envelope is well formed when exactly the payload field selected by its
/// discriminant is populated.
pub open spec fn wf_envelope(m: WebSocketMessageView) -> bool {
    match m.message_type {
        WebSocketMessageType::NewMessage => {
            &&& m.message is Some
            &&& m.users is None
            &&& m.username is None
        },
        WebSocketMessageType::UsersList => {
            &&& m.message is None
            &&& m.users is Some
            &&& m.username is None
        },
        WebSocketMessageType::UsernameChange => {
            &&& m.message is None
            &&& m.users is None
            &&& m.username is Some
        },
    }
}

/// The client-to-server restriction of the envelope: a chat post carries a
/// message (with an in-range timestamp), a rename request carries a
/// username, and nothing else is a client frame.
pub open spec fn wf_client(m: WebSocketMessageView) -> bool {
    match m.message_type {
        WebSocketMessageType::NewMessage => {
            &&& m.message matches Some(cm) && cm.created_at.wf()
            &&& m.users is None
            &&& m.username is None
        },
        WebSocketMessageType::UsersList => false,
        WebSocketMessageType::UsernameChange => {
            &&& m.message is None
            &&& m.users is None
            &&& m.username is Some
        },
    }
}

} // verus!
