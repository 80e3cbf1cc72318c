//! The per-session decision logic.
//!
//! A session runs `Connecting -> Active -> Closed`.  The embedding program
//! owns the transport: it accepts the connection, reads inbound frames and
//! performs the returned deliveries.  Every decision — what a handshake, an
//! inbound frame or a disconnect does to the registry and what it sends —
//! is taken here, and here the library reads the wall clock to stamp system
//! chat lines.

use crate::clock::now_timestamp;
use crate::codec::decode_message;
use crate::codec::spec_encode;
use crate::engine::spec_apply_rename_post;
use crate::engine::spec_arrival_deliveries;
use crate::engine::spec_departure_deliveries;
use crate::engine::spec_relay_deliveries;
use crate::registry::has_conn;
use crate::registry::room_names;
use crate::registry::spec_find;
use crate::registry::ChatRoom;
use crate::registry::ConnView;
use crate::registry::Delivery;
use crate::registry::DeliveryView;
use crate::registry::spec_default_name;
use crate::wire::wf_client;
use crate::wire::Timestamp;
use crate::wire::WebSocketMessageType;
use crate::wire::WebSocketMessageView;
use vstd::prelude::*;

verus! {

/// The identifier generator: hands out monotonically increasing session
/// identifiers, so that within one server instance an identifier is never
/// reused.  Instance-scoped on purpose: the server owns one.
pub struct IdGenerator {
    next: usize,
}

impl View for IdGenerator {
    type V = int;

    closed spec fn view(&self) -> int {
        self.next as int
    }
}

impl IdGenerator {
    /// Starts counting at one.
    pub fn new() -> (g: IdGenerator)
        ensures
            g@ == 1,
    {
        IdGenerator { next: 1 }
    }

    /// Whether another identifier can still be drawn on this machine.
    pub fn has_more(&self) -> (r: bool)
        ensures
            r == (self@ < usize::MAX),
    {
        self.next < usize::MAX
    }

    /// Draws the next identifier.  Each draw returns a value strictly
    /// larger than every earlier draw, so identifiers are never reused.
    pub fn fresh(&mut self) -> (id: usize)
        requires
            old(self)@ < usize::MAX,
        ensures
            id as int == old(self)@,
            final(self)@ == old(self)@ + 1,
    {
        let id = self.next;
        self.next = self.next + 1;
        id
    }
}

/// What a completed handshake leaves behind: the newcomer is registered
/// under its default name, and the arrival is announced to the room as it
/// stands with the newcomer included, stamped with one clock reading.
pub open spec fn spec_connect_post(
    pre: Seq<ConnView>,
    post: Seq<ConnView>,
    ds: Seq<DeliveryView>,
    id: int,
    ts: Timestamp,
) -> bool {
    &&& post == pre.push(ConnView { id: id, username: spec_default_name(id as nat) })
    &&& ts.wf()
    &&& ds == spec_arrival_deliveries(post, id, ts)
}

/// What a closed transport leaves behind: the entry is gone and the
/// departure announced over the shrunk room, or — when the identifier was
/// already absent — nothing happened at all.
pub open spec fn spec_disconnect_post(
    pre: Seq<ConnView>,
    post: Seq<ConnView>,
    ds: Seq<DeliveryView>,
    id: int,
    ts: Timestamp,
) -> bool {
    match spec_find(pre, id) {
        Some(name) => {
            &&& ts.wf()
            &&& !has_conn(post, id)
            &&& exists|i: int|
                0 <= i < pre.len() && (#[trigger] pre[i]).id == id && post == pre.remove(i)
            &&& room_names(post).to_multiset() == room_names(pre).to_multiset().remove(name)
            &&& ds == spec_departure_deliveries(post, name, ts)
        },
        None => post == pre && ds == Seq::<DeliveryView>::empty(),
    }
}

/// Completes a handshake: registers `id` under its default display name and
/// announces the arrival (system chat line, fresh roster, unicast name
/// confirmation).  The caller supplies a fresh `id` from its monotonic
/// counter.
pub fn connect(room: &mut ChatRoom, id: usize) -> (ds: Vec<Delivery>)
    requires
        old(room).wf(),
        !has_conn(old(room)@, id as int),
    ensures
        final(room).wf(),
        exists|ts: Timestamp|
            #[trigger] spec_connect_post(old(room)@, final(room)@, ds.deep_view(), id as int, ts),
{
    let ts = now_timestamp();
    let _username = room.add(id);
    let ds = room.announce_arrival(id, ts);
    proof {
        assert(spec_connect_post(old(room)@, room@, ds.deep_view(), id as int, ts));
    }
    ds
}

/// What one well-formed inbound frame does, as a function of the envelope
/// it decodes to and of one clock reading: a chat post is relayed under the
/// poster's current display name, a rename request is applied and
/// announced.  Client-sent author and timestamp carry no authority: the
/// relay stamps its own.
pub open spec fn spec_frame_effect(
    pre: Seq<ConnView>,
    post: Seq<ConnView>,
    ds: Seq<DeliveryView>,
    id: int,
    mv: WebSocketMessageView,
    ts: Timestamp,
) -> bool {
    match mv.message_type {
        WebSocketMessageType::NewMessage => match mv.message {
            Some(cm) => post == pre && ts.wf() && ds == spec_relay_deliveries(
                pre,
                id,
                cm.message,
                ts,
            ),
            None => true,
        },
        WebSocketMessageType::UsernameChange => match mv.username {
            Some(u) => ts.wf() && spec_apply_rename_post(pre, post, ds, id, u, ts),
            None => true,
        },
        WebSocketMessageType::UsersList => true,
    }
}

/// Handles one inbound text frame from `connection_id`: a well-formed chat
/// post is relayed, a well-formed rename request is applied and announced,
/// and anything else — unknown discriminants, missing payloads, malformed
/// text — is ignored: it never ends the session and never touches the
/// registry.
pub fn handle_incoming_message(room: &mut ChatRoom, frame: &str, connection_id: usize) -> (ds: Vec<
    Delivery,
>)
    requires
        old(room).wf(),
    ensures
        final(room).wf(),
        (forall|mv: WebSocketMessageView|
            wf_client(mv) && frame@ == spec_encode(mv) ==> exists|ts: Timestamp|
                #[trigger] spec_frame_effect(
                    old(room)@,
                    final(room)@,
                    ds.deep_view(),
                    connection_id as int,
                    mv,
                    ts,
                )),
        ((forall|mv: WebSocketMessageView| wf_client(mv) ==> frame@ != spec_encode(mv))
            ==> final(room)@ == old(room)@ && ds.deep_view() == Seq::<DeliveryView>::empty()),
{
    match decode_message(frame) {
        None => {
            let ds: Vec<Delivery> = Vec::new();
            proof {
                assert(ds.deep_view() =~= Seq::<DeliveryView>::empty());
            }
            ds
        },
        Some(m) => {
            let ghost menv = m@;
            match m.message_type {
                WebSocketMessageType::NewMessage => {
                    match m.message {
                        Some(cm) => {
                            let ghost text = cm.message@;
                            let ts = now_timestamp();
                            let ds = room.relay_chat(connection_id, cm.message, ts);
                            proof {
                                assert forall|mv: WebSocketMessageView|
                                    wf_client(mv) && frame@ == spec_encode(mv) implies exists|
                                    t2: Timestamp,
                                |
                                    #[trigger] spec_frame_effect(
                                        old(room)@,
                                        room@,
                                        ds.deep_view(),
                                        connection_id as int,
                                        mv,
                                        t2,
                                    ) by {
                                    assert(mv == menv);
                                    assert(spec_frame_effect(
                                        old(room)@,
                                        room@,
                                        ds.deep_view(),
                                        connection_id as int,
                                        mv,
                                        ts,
                                    ));
                                }
                            }
                            ds
                        },
                        None => {
                            proof {
                                assert(false);
                            }
                            Vec::new()
                        },
                    }
                },
                WebSocketMessageType::UsernameChange => {
                    match m.username {
                        Some(requested) => {
                            let ts = now_timestamp();
                            let ds = room.apply_rename(connection_id, requested, ts);
                            proof {
                                assert forall|mv: WebSocketMessageView|
                                    wf_client(mv) && frame@ == spec_encode(mv) implies exists|
                                    t2: Timestamp,
                                |
                                    #[trigger] spec_frame_effect(
                                        old(room)@,
                                        room@,
                                        ds.deep_view(),
                                        connection_id as int,
                                        mv,
                                        t2,
                                    ) by {
                                    assert(mv == menv);
                                    assert(spec_frame_effect(
                                        old(room)@,
                                        room@,
                                        ds.deep_view(),
                                        connection_id as int,
                                        mv,
                                        ts,
                                    ));
                                }
                            }
                            ds
                        },
                        None => {
                            proof {
                                assert(false);
                            }
                            Vec::new()
                        },
                    }
                },
                WebSocketMessageType::UsersList => {
                    proof {
                        assert(false);
                    }
                    Vec::new()
                },
            }
        },
    }
}

/// Ends a session: deregisters `id` and announces the departure (system
/// chat line, shrunk roster).  Closing twice is safe: the second call finds
/// nothing, changes nothing and sends nothing.
pub fn disconnect(room: &mut ChatRoom, id: usize) -> (ds: Vec<Delivery>)
    requires
        old(room).wf(),
    ensures
        final(room).wf(),
        exists|ts: Timestamp|
            #[trigger] spec_disconnect_post(
                old(room)@,
                final(room)@,
                ds.deep_view(),
                id as int,
                ts,
            ),
{
    let ts = now_timestamp();
    let removed = room.remove(id);
    let ds = room.announce_departure(removed, ts);
    proof {
        assert(spec_disconnect_post(old(room)@, room@, ds.deep_view(), id as int, ts));
    }
    ds
}

} // verus!
