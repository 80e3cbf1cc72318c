//! The broadcast engine: semantic operations atop the registry.
//!
//! Each operation builds the envelopes an event calls for and returns the
//! full, ordered sequence of deliveries the transport owes: system chat
//! lines, roster updates and unicast name confirmations.  Operations that
//! stamp a chat line take the capture of the current clock as an argument,
//! so their effect is pinned exactly for every possible reading; the session
//! layer supplies the real clock.

use crate::registry::room_names;
use crate::registry::spec_find;
use crate::registry::spec_set_name;
use crate::registry::ChatRoom;
use crate::registry::ConnView;
use crate::registry::Delivery;
use crate::registry::DeliveryView;
use crate::wire::ChatMessages;
use crate::wire::ChatMessagesView;
use crate::wire::Timestamp;
use crate::wire::WebSocketMessage;
use crate::wire::WebSocketMessageType;
use crate::wire::WebSocketMessageView;
use vstd::prelude::*;

verus! {

// ---------------------------------------------------------------------------
// System chat lines
// ---------------------------------------------------------------------------

/// `User <name> arrived`
pub open spec fn spec_arrival_text(name: Seq<char>) -> Seq<char> {
    "User "@ + name + " arrived"@
}

/// `User <name> left`
pub open spec fn spec_departure_text(name: Seq<char>) -> Seq<char> {
    "User "@ + name + " left"@
}

/// `User <prior> changed username to <requested>`
pub open spec fn spec_rename_text(prior: Seq<char>, requested: Seq<char>) -> Seq<char> {
    "User "@ + prior + " changed username to "@ + requested
}

/// A chat line authored by the server itself.
pub open spec fn spec_system_msg(text: Seq<char>, ts: Timestamp) -> ChatMessagesView {
    ChatMessagesView { message: text, author: "System"@, created_at: ts }
}

// ---------------------------------------------------------------------------
// Envelope shapes
// ---------------------------------------------------------------------------

pub open spec fn spec_new_message_env(m: ChatMessagesView) -> WebSocketMessageView {
    WebSocketMessageView {
        message_type: WebSocketMessageType::NewMessage,
        message: Some(m),
        users: None,
        username: None,
    }
}

pub open spec fn spec_users_env(room: Seq<ConnView>) -> WebSocketMessageView {
    WebSocketMessageView {
        message_type: WebSocketMessageType::UsersList,
        message: None,
        users: Some(room_names(room)),
        username: None,
    }
}

pub open spec fn spec_username_env(name: Seq<char>) -> WebSocketMessageView {
    WebSocketMessageView {
        message_type: WebSocketMessageType::UsernameChange,
        message: None,
        users: None,
        username: Some(name),
    }
}

// ---------------------------------------------------------------------------
// Delivery sequences per operation
// ---------------------------------------------------------------------------

/// The unicast name confirmation owed to `id`: one delivery when it is
/// still registered, none when it has vanished.
pub open spec fn spec_send_username(room: Seq<ConnView>, id: int) -> Seq<DeliveryView> {
    match spec_find(room, id) {
        Some(name) => ChatRoom::spec_unicast(room, id, spec_username_env(name)),
        None => Seq::empty(),
    }
}

/// What a chat post by `id` broadcasts: one `NewMessage` envelope to every
/// connection, authored under `id`'s current display name, or nothing when
/// `id` is no longer registered.
pub open spec fn spec_relay_deliveries(
    room: Seq<ConnView>,
    id: int,
    text: Seq<char>,
    ts: Timestamp,
) -> Seq<DeliveryView> {
    match spec_find(room, id) {
        Some(author) => ChatRoom::spec_broadcast(
            room,
            spec_new_message_env(ChatMessagesView { message: text, author, created_at: ts }),
        ),
        None => Seq::empty(),
    }
}

/// What an arrival announces: the system chat line, then the fresh roster,
/// then the unicast name confirmation to the newcomer.
pub open spec fn spec_arrival_deliveries(room: Seq<ConnView>, id: int, ts: Timestamp) -> Seq<
    DeliveryView,
> {
    match spec_find(room, id) {
        Some(name) => ChatRoom::spec_broadcast(
            room,
            spec_new_message_env(spec_system_msg(spec_arrival_text(name), ts)),
        ) + ChatRoom::spec_broadcast(room, spec_users_env(room)) + spec_send_username(room, id),
        None => Seq::empty(),
    }
}

/// What a departure announces: the system chat line, then the shrunk
/// roster.
pub open spec fn spec_departure_deliveries(
    room: Seq<ConnView>,
    name: Seq<char>,
    ts: Timestamp,
) -> Seq<DeliveryView> {
    ChatRoom::spec_broadcast(room, spec_new_message_env(spec_system_msg(spec_departure_text(name), ts)))
        + ChatRoom::spec_broadcast(room, spec_users_env(room))
}

/// What a successful rename announces, over the already renamed room: the
/// system chat line, the unicast confirmation to the renamed connection,
/// then the updated roster.
pub open spec fn spec_rename_deliveries(
    room: Seq<ConnView>,
    id: int,
    prior: Seq<char>,
    requested: Seq<char>,
    ts: Timestamp,
) -> Seq<DeliveryView> {
    ChatRoom::spec_broadcast(
        room,
        spec_new_message_env(spec_system_msg(spec_rename_text(prior, requested), ts)),
    ) + spec_send_username(room, id) + ChatRoom::spec_broadcast(room, spec_users_env(room))
}

/// The whole effect of a rename request: an empty requested name is
/// silently ignored, a vanished connection is a no-op, and otherwise the
/// registry entry is renamed and the change announced.
pub open spec fn spec_apply_rename_post(
    pre: Seq<ConnView>,
    post: Seq<ConnView>,
    ds: Seq<DeliveryView>,
    id: int,
    requested: Seq<char>,
    ts: Timestamp,
) -> bool {
    if requested.len() == 0 {
        post == pre && ds == Seq::<DeliveryView>::empty()
    } else {
        match spec_find(pre, id) {
            Some(prior) => post == spec_set_name(pre, id, requested) && ds
                == spec_rename_deliveries(post, id, prior, requested, ts),
            None => post == pre && ds == Seq::<DeliveryView>::empty(),
        }
    }
}

// ---------------------------------------------------------------------------
// Exec helpers
// ---------------------------------------------------------------------------

fn system_author() -> (s: String)
    ensures
        s@ == "System"@,
{
    let mut s = String::new();
    s.append("System");
    proof {
        assert(s@ =~= "System"@);
    }
    s
}

fn arrival_text(name: &str) -> (t: String)
    ensures
        t@ == spec_arrival_text(name@),
{
    let mut t = String::new();
    t.append("User ");
    t.append(name);
    t.append(" arrived");
    proof {
        assert(t@ =~= spec_arrival_text(name@));
    }
    t
}

fn departure_text(name: &str) -> (t: String)
    ensures
        t@ == spec_departure_text(name@),
{
    let mut t = String::new();
    t.append("User ");
    t.append(name);
    t.append(" left");
    proof {
        assert(t@ =~= spec_departure_text(name@));
    }
    t
}

fn rename_text(prior: &str, requested: &str) -> (t: String)
    ensures
        t@ == spec_rename_text(prior@, requested@),
{
    let mut t = String::new();
    t.append("User ");
    t.append(prior);
    t.append(" changed username to ");
    t.append(requested);
    proof {
        assert(t@ =~= spec_rename_text(prior@, requested@));
    }
    t
}

/// Concatenates two delivery batches, keeping their order.
fn concat_deliveries(a: Vec<Delivery>, b: Vec<Delivery>) -> (r: Vec<Delivery>)
    ensures
        r.deep_view() == a.deep_view() + b.deep_view(),
{
    let ghost adv = a.deep_view();
    let ghost bdv = b.deep_view();
    let ghost araw = a@;
    let ghost braw = b@;
    let mut r = a;
    let mut rest = b;
    r.append(&mut rest);
    proof {
        assert(r@.len() == araw.len() + braw.len());
        assert forall|k: int| 0 <= k < r.deep_view().len() implies r.deep_view()[k] == (adv
            + bdv)[k] by {
            assert(r.deep_view()[k] == r@[k].deep_view());
            if k < araw.len() {
                assert(r@[k] == araw[k]);
                assert(adv[k] == araw[k].deep_view());
            } else {
                assert(r@[k] == braw[k - araw.len()]);
                assert(bdv[k - araw.len()] == braw[k - araw.len()].deep_view());
            }
        }
        assert(r.deep_view() =~= adv + bdv);
    }
    r
}

// ---------------------------------------------------------------------------
// The operations
// ---------------------------------------------------------------------------

impl ChatRoom {
    /// Broadcasts one chat line to every live connection as a `NewMessage`
    /// envelope.  The registry itself is untouched; identical calls yield
    /// identical delivery batches, so nothing is ever deduplicated.
    pub fn broadcast_message(&self, message: ChatMessages) -> (ds: Vec<Delivery>)
        ensures
            ds.deep_view() == Self::spec_broadcast(self@, spec_new_message_env(message@)),
    {
        let ghost mv = message@;
        let env = WebSocketMessage {
            message_type: WebSocketMessageType::NewMessage,
            message: Some(message),
            users: None,
            username: None,
        };
        proof {
            assert(env@ == spec_new_message_env(mv));
        }
        self.broadcast(&env)
    }

    /// Broadcasts the current roster to every live connection as a
    /// `UsersList` envelope.
    pub fn broadcast_user_list(&self) -> (ds: Vec<Delivery>)
        ensures
            ds.deep_view() == Self::spec_broadcast(self@, spec_users_env(self@)),
    {
        let users = self.snapshot_usernames();
        let env = WebSocketMessage {
            message_type: WebSocketMessageType::UsersList,
            message: None,
            users: Some(users),
            username: None,
        };
        proof {
            assert(env@ == spec_users_env(self@));
        }
        self.broadcast(&env)
    }

    /// Confirms the current display name of `id` to `id` alone, as a
    /// unicast `UsernameChange` envelope; a vanished connection gets
    /// nothing.
    pub fn send_username(&self, id: usize) -> (ds: Vec<Delivery>)
        ensures
            ds.deep_view() == spec_send_username(self@, id as int),
    {
        match self.username_of(id) {
            None => {
                let ds: Vec<Delivery> = Vec::new();
                proof {
                    assert(ds.deep_view() =~= spec_send_username(self@, id as int));
                }
                ds
            },
            Some(name) => {
                let ghost nv = name@;
                let env = WebSocketMessage {
                    message_type: WebSocketMessageType::UsernameChange,
                    message: None,
                    users: None,
                    username: Some(name),
                };
                proof {
                    assert(env@ == spec_username_env(nv));
                }
                self.unicast(id, &env)
            },
        }
    }

    /// Swaps the display name of `id` and, when the entry existed,
    /// broadcasts the system chat line that records the change.  Announcing
    /// the confirmation and the fresh roster is [`ChatRoom::apply_rename`]'s
    /// business.
    pub fn change_username(&mut self, new_username: String, id: usize, now: Timestamp) -> (ds: Vec<
        Delivery,
    >)
        requires
            old(self).wf(),
        ensures
            final(self).wf(),
            match spec_find(old(self)@, id as int) {
                Some(prior) => {
                    &&& final(self)@ == spec_set_name(old(self)@, id as int, new_username@)
                    &&& spec_find(final(self)@, id as int) == Some(new_username@)
                    &&& ds.deep_view() == Self::spec_broadcast(
                        final(self)@,
                        spec_new_message_env(
                            spec_system_msg(spec_rename_text(prior, new_username@), now),
                        ),
                    )
                },
                None => final(self)@ == old(self)@ && ds.deep_view() == Seq::<
                    DeliveryView,
                >::empty(),
            },
    {
        let ghost reqv = new_username@;
        match self.rename(id, new_username.clone()) {
            None => {
                let ds: Vec<Delivery> = Vec::new();
                proof {
                    assert(ds.deep_view() =~= Seq::<DeliveryView>::empty());
                }
                ds
            },
            Some(prior) => {
                let text = rename_text(prior.as_str(), new_username.as_str());
                let msg = ChatMessages { message: text, author: system_author(), created_at: now };
                self.broadcast_message(msg)
            },
        }
    }

    /// Looks up the author's current display name and broadcasts the chat
    /// line under it, stamped `now`; a post from a vanished connection is
    /// dropped.
    pub fn relay_chat(&self, author_id: usize, text: String, now: Timestamp) -> (ds: Vec<Delivery>)
        ensures
            ds.deep_view() == spec_relay_deliveries(self@, author_id as int, text@, now),
    {
        match self.username_of(author_id) {
            None => {
                let ds: Vec<Delivery> = Vec::new();
                proof {
                    assert(ds.deep_view() =~= spec_relay_deliveries(
                        self@,
                        author_id as int,
                        text@,
                        now,
                    ));
                }
                ds
            },
            Some(author) => {
                let msg = ChatMessages { message: text, author, created_at: now };
                self.broadcast_message(msg)
            },
        }
    }

    /// Announces an arrival that has already been registered: the system
    /// chat line, the fresh roster, and the name confirmation to the
    /// newcomer, in that order.
    pub fn announce_arrival(&self, id: usize, now: Timestamp) -> (ds: Vec<Delivery>)
        ensures
            ds.deep_view() == spec_arrival_deliveries(self@, id as int, now),
    {
        match self.username_of(id) {
            None => {
                let ds: Vec<Delivery> = Vec::new();
                proof {
                    assert(ds.deep_view() =~= spec_arrival_deliveries(self@, id as int, now));
                }
                ds
            },
            Some(name) => {
                let text = arrival_text(name.as_str());
                let msg = ChatMessages { message: text, author: system_author(), created_at: now };
                let ds = self.broadcast_message(msg);
                let ds = concat_deliveries(ds, self.broadcast_user_list());
                let ds = concat_deliveries(ds, self.send_username(id));
                ds
            },
        }
    }

    /// Announces a departure: when the removal actually happened (the
    /// removed name is present), the system chat line and the shrunk
    /// roster; a double removal announces nothing.
    pub fn announce_departure(&self, removed_username: Option<String>, now: Timestamp) -> (ds: Vec<
        Delivery,
    >)
        ensures
            ds.deep_view() == match removed_username {
                Some(name) => spec_departure_deliveries(self@, name@, now),
                None => Seq::<DeliveryView>::empty(),
            },
    {
        match removed_username {
            None => {
                let ds: Vec<Delivery> = Vec::new();
                proof {
                    assert(ds.deep_view() =~= Seq::<DeliveryView>::empty());
                }
                ds
            },
            Some(name) => {
                let text = departure_text(name.as_str());
                let msg = ChatMessages { message: text, author: system_author(), created_at: now };
                let ds = self.broadcast_message(msg);
                let ds = concat_deliveries(ds, self.broadcast_user_list());
                ds
            },
        }
    }

    /// The whole effect of a rename request from `id`: an empty requested
    /// name is silently ignored; otherwise the entry is renamed and the
    /// change announced (system chat line, unicast confirmation, fresh
    /// roster).  A request from a vanished connection does nothing.
    pub fn apply_rename(&mut self, id: usize, requested_name: String, now: Timestamp) -> (ds: Vec<
        Delivery,
    >)
        requires
            old(self).wf(),
        ensures
            final(self).wf(),
            spec_apply_rename_post(
                old(self)@,
                final(self)@,
                ds.deep_view(),
                id as int,
                requested_name@,
                now,
            ),
    {
        if requested_name.as_str().is_empty() {
            let ds: Vec<Delivery> = Vec::new();
            proof {
                assert(ds.deep_view() =~= Seq::<DeliveryView>::empty());
            }
            return ds;
        }
        match self.username_of(id) {
            None => {
                let ds: Vec<Delivery> = Vec::new();
                proof {
                    assert(ds.deep_view() =~= Seq::<DeliveryView>::empty());
                }
                ds
            },
            Some(_prior) => {
                let ds = self.change_username(requested_name, id, now);
                let ds = concat_deliveries(ds, self.send_username(id));
                let ds = concat_deliveries(ds, self.broadcast_user_list());
                ds
            },
        }
    }
}

} // verus!
