//! Laws of the relay, stated and proved once and for all.
//!
//! The roster laws say that the registry tracks membership exactly: over
//! any sequence of additions and removals, the roster
//! ([`ChatRoom::snapshot_usernames`] returns `room_names` of the registry
//! view) is exactly the multiset of display names of the connections added
//! and not yet removed, because each addition inserts exactly one name and
//! each removal removes exactly that connection's name.

use crate::engine::spec_apply_rename_post;
use crate::engine::spec_new_message_env;
use crate::engine::spec_username_env;
use crate::registry::has_conn;
use crate::registry::room_names;
use crate::registry::spec_default_name;
use crate::registry::spec_find;
use crate::registry::spec_set_name;
use crate::registry::wf_room;
use crate::registry::ChatRoom;
use crate::registry::ConnView;
use crate::registry::DeliveryView;
use crate::session::spec_disconnect_post;
use crate::codec::spec_encode;
use crate::wire::ChatMessagesView;
use crate::wire::Timestamp;
use vstd::prelude::*;

verus! {

/// Adding a connection adds exactly its display name to the roster.
pub proof fn lemma_roster_after_add(room: Seq<ConnView>, id: int, name: Seq<char>)
    ensures
        room_names(room.push(ConnView { id, username: name })).to_multiset() == room_names(
            room,
        ).to_multiset().insert(name),
{
    let grown = room.push(ConnView { id, username: name });
    assert(room_names(grown) =~= room_names(room).push(name));
    room_names(room).to_multiset_ensures();
}

/// Removing a connection removes exactly its display name from the roster.
pub proof fn lemma_roster_after_remove(room: Seq<ConnView>, i: int)
    requires
        0 <= i < room.len(),
    ensures
        room_names(room.remove(i)).to_multiset() == room_names(room).to_multiset().remove(
            room[i].username,
        ),
{
    assert(room_names(room.remove(i)) =~= room_names(room).remove(i));
    room_names(room).to_multiset_ensures();
}

/// Disconnecting the same identifier twice in a row: the second call finds
/// the entry absent, changes nothing, and announces nothing — whatever the
/// first call did and whenever each read its clock.
pub proof fn lemma_disconnect_twice(
    pre: Seq<ConnView>,
    mid: Seq<ConnView>,
    post: Seq<ConnView>,
    ds1: Seq<DeliveryView>,
    ds2: Seq<DeliveryView>,
    id: int,
    ts1: Timestamp,
    ts2: Timestamp,
)
    requires
        spec_disconnect_post(pre, mid, ds1, id, ts1),
        spec_disconnect_post(mid, post, ds2, id, ts2),
    ensures
        post == mid,
        (ds2 == Seq::<DeliveryView>::empty()),
{
}

/// A chat post relays exactly one `NewMessage` envelope, carrying the
/// posted text under the author's current display name, to every live
/// connection.
pub proof fn lemma_relay_chat(
    room: Seq<ConnView>,
    id: int,
    author: Seq<char>,
    text: Seq<char>,
    ts: Timestamp,
)
    requires
        spec_find(room, id) == Some(author),
    ensures
        crate::engine::spec_relay_deliveries(room, id, text, ts).len() == room.len(),
        (forall|k: int|
            0 <= k < room.len() ==> #[trigger] crate::engine::spec_relay_deliveries(
                room,
                id,
                text,
                ts,
            )[k] == DeliveryView {
                target: room[k].id,
                frame: spec_encode(
                    spec_new_message_env(
                        ChatMessagesView { message: text, author, created_at: ts },
                    ),
                ),
            }),
{
}

/// A rename request with an empty requested name leaves the registry
/// untouched and produces no deliveries at all.
pub proof fn lemma_empty_rename_ignored(
    pre: Seq<ConnView>,
    post: Seq<ConnView>,
    ds: Seq<DeliveryView>,
    id: int,
    requested: Seq<char>,
    ts: Timestamp,
)
    requires
        spec_apply_rename_post(pre, post, ds, id, requested, ts),
        requested.len() == 0,
    ensures
        post == pre,
        (ds == Seq::<DeliveryView>::empty()),
{
}

/// A successful rename confirms the new name to the renamed connection
/// alone: the one unicast delivery sits between the two broadcasts and
/// targets exactly `id`.
pub proof fn lemma_rename_confirmation(
    pre: Seq<ConnView>,
    post: Seq<ConnView>,
    ds: Seq<DeliveryView>,
    id: int,
    prior: Seq<char>,
    requested: Seq<char>,
    ts: Timestamp,
)
    requires
        wf_room(pre),
        spec_find(pre, id) == Some(prior),
        requested.len() > 0,
        spec_apply_rename_post(pre, post, ds, id, requested, ts),
    ensures
        post == spec_set_name(pre, id, requested),
        ds.len() == 2 * pre.len() + 1,
        (ds[pre.len() as int] == DeliveryView {
            target: id,
            frame: spec_encode(spec_username_env(requested)),
        }),
{
    lemma_set_name_keeps_find(pre, id, requested);
    assert(spec_set_name(pre, id, requested).len() == pre.len());
    assert(room_names(post).len() == post.len());
    let confirmation = crate::engine::spec_send_username(post, id);
    assert(confirmation == seq![
        DeliveryView { target: id, frame: spec_encode(spec_username_env(requested)) },
    ]);
    assert(ds[pre.len() as int] == confirmation[0]);
}

/// Renaming keeps the identifier registered, now under the new name.
pub proof fn lemma_set_name_keeps_find(room: Seq<ConnView>, id: int, name: Seq<char>)
    requires
        has_conn(room, id),
    ensures
        spec_find(spec_set_name(room, id, name), id) == Some(name),
    decreases room.len(),
{
    if room.len() > 0 {
        if room[0].id == id {
            assert(spec_set_name(room, id, name)[0] == ConnView { id, username: name });
        } else {
            lemma_set_name_keeps_find(room.drop_first(), id, name);
            assert(spec_set_name(room, id, name).drop_first() =~= spec_set_name(
                room.drop_first(),
                id,
                name,
            ));
        }
    }
}

/// After a rename away from a display name that exactly one connection
/// held, the roster carries the new name and no longer carries the old
/// one.
pub proof fn lemma_rename_roster(pre: Seq<ConnView>, id: int, prior: Seq<char>, requested: Seq<char>)
    requires
        wf_room(pre),
        spec_find(pre, id) == Some(prior),
        requested != prior,
        room_names(pre).to_multiset().count(prior) == 1,
    ensures
        room_names(spec_set_name(pre, id, requested)).contains(requested),
        !room_names(spec_set_name(pre, id, requested)).contains(prior),
{
    let post = spec_set_name(pre, id, requested);
    crate::registry::lemma_find_some(pre, id);
    let i = choose|i: int|
        0 <= i < pre.len() && (#[trigger] pre[i]).id == id && spec_find(pre, id) == Some(
            pre[i].username,
        );
    assert(room_names(post)[i] == requested);
    assert(room_names(post).contains(requested));
    if room_names(post).contains(prior) {
        let k = choose|k: int| 0 <= k < post.len() && #[trigger] room_names(post)[k] == prior;
        assert(post[k].username == prior);
        assert(pre[k].id != id);
        assert(k != i);
        assert(pre[k].username == prior);
        // two distinct entries would both carry `prior`
        let names = room_names(pre);
        names.to_multiset_ensures();
        assert(names.remove(i).to_multiset() == names.to_multiset().remove(names[i]));
        let k2: int = if k < i {
            k
        } else {
            k - 1
        };
        assert(names.remove(i)[k2] == prior);
        names.remove(i).to_multiset_ensures();
        assert(names.remove(i).contains(prior));
        assert(names.remove(i).to_multiset().count(prior) > 0);
        assert(names[i] == prior);
        assert(names.to_multiset().count(prior) >= 2);
        assert(false);
    }
}

/// One membership operation on the registry, as the session layer performs
/// them: an arrival registers a fresh identifier under its default name, a
/// departure deletes the identifier's entry.
pub enum RegOp {
    Arrive { id: int },
    Depart { id: int },
}

/// The first entry carrying `id` taken out; an absent identifier leaves
/// the room untouched.
pub open spec fn spec_remove_conn(room: Seq<ConnView>, id: int) -> Seq<ConnView>
    decreases room.len(),
{
    if room.len() == 0 {
        room
    } else if room[0].id == id {
        room.drop_first()
    } else {
        seq![room[0]] + spec_remove_conn(room.drop_first(), id)
    }
}

/// What one membership operation does to the room.  An arrival with an
/// identifier already present is a no-op: the session layer never produces
/// one, since identifiers are never reused.
pub open spec fn apply_reg_op(room: Seq<ConnView>, op: RegOp) -> Seq<ConnView> {
    match op {
        RegOp::Arrive { id } => if !has_conn(room, id) {
            room.push(ConnView { id, username: spec_default_name(id as nat) })
        } else {
            room
        },
        RegOp::Depart { id } => spec_remove_conn(room, id),
    }
}

/// A whole history of arrivals and departures, applied in order.
pub open spec fn apply_reg_ops(room: Seq<ConnView>, ops: Seq<RegOp>) -> Seq<ConnView>
    decreases ops.len(),
{
    if ops.len() == 0 {
        room
    } else {
        apply_reg_ops(apply_reg_op(room, ops[0]), ops.drop_first())
    }
}

/// Whether `id` has arrived and not departed since: the last operation
/// naming it decides.
pub open spec fn live_after(ops: Seq<RegOp>, id: int) -> bool
    decreases ops.len(),
{
    if ops.len() == 0 {
        false
    } else {
        match ops.last() {
            RegOp::Arrive { id: id2 } => if id2 == id {
                true
            } else {
                live_after(ops.drop_last(), id)
            },
            RegOp::Depart { id: id2 } => if id2 == id {
                false
            } else {
                live_after(ops.drop_last(), id)
            },
        }
    }
}

/// Applying one more operation is applying it to the result.
proof fn lemma_apply_snoc(room: Seq<ConnView>, ops: Seq<RegOp>, op: RegOp)
    ensures
        apply_reg_ops(room, ops.push(op)) == apply_reg_op(apply_reg_ops(room, ops), op),
    decreases ops.len(),
{
    let grown = ops.push(op);
    assert(grown.len() == ops.len() + 1);
    if ops.len() == 0 {
        assert(grown[0] == op);
        assert(grown.drop_first() =~= Seq::<RegOp>::empty());
        assert(apply_reg_ops(room, grown) == apply_reg_ops(apply_reg_op(room, op), grown.drop_first()));
        assert(apply_reg_ops(room, ops) == room);
    } else {
        assert(grown[0] == ops[0]);
        assert(grown.drop_first() =~= ops.drop_first().push(op));
        lemma_apply_snoc(apply_reg_op(room, ops[0]), ops.drop_first(), op);
        assert(apply_reg_ops(room, grown) == apply_reg_ops(apply_reg_op(room, grown[0]), grown.drop_first()));
        assert(apply_reg_ops(room, ops) == apply_reg_ops(apply_reg_op(room, ops[0]), ops.drop_first()));
    }
}

/// Appending an entry is found only when nothing before it matches.
proof fn lemma_find_push(room: Seq<ConnView>, e: ConnView, id: int)
    ensures
        spec_find(room.push(e), id) == if has_conn(room, id) {
            spec_find(room, id)
        } else if e.id == id {
            Some(e.username)
        } else {
            None::<Seq<char>>
        },
    decreases room.len(),
{
    let grown = room.push(e);
    if room.len() == 0 {
        if e.id != id {
            assert(grown.drop_first() =~= Seq::<ConnView>::empty());
        }
    } else {
        assert(grown[0] == room[0]);
        assert(grown.drop_first() =~= room.drop_first().push(e));
        lemma_find_push(room.drop_first(), e, id);
    }
}

/// What removing one identifier leaves findable.
proof fn lemma_find_remove(room: Seq<ConnView>, id: int, id2: int)
    requires
        wf_room(room),
    ensures
        wf_room(spec_remove_conn(room, id)),
        spec_find(spec_remove_conn(room, id), id2) == if id2 == id {
            None::<Seq<char>>
        } else {
            spec_find(room, id2)
        },
    decreases room.len(),
{
    if room.len() > 0 {
        let rest = room.drop_first();
        assert(forall|k: int| 0 <= k < rest.len() ==> rest[k] == #[trigger] room[k + 1]);
        assert(wf_room(rest));
        if room[0].id == id {
            // the survivors carried other identifiers all along
            if id2 == id {
                crate::registry::lemma_find_none(rest, id);
                assert(forall|k: int| 0 <= k < rest.len() ==> (#[trigger] rest[k]).id != id);
            }
        } else {
            lemma_find_remove(rest, id, id2);
            let shrunk = seq![room[0]] + spec_remove_conn(rest, id);
            assert(shrunk[0] == room[0]);
            assert(shrunk.drop_first() =~= spec_remove_conn(rest, id));
            assert(wf_room(shrunk)) by {
                assert(spec_remove_conn(rest, id).len() <= rest.len()) by {
                    lemma_remove_conn_len(rest, id);
                }
                assert forall|a: int, b: int| 0 <= a < b < shrunk.len() implies shrunk[a].id
                    != shrunk[b].id by {
                    if a == 0 {
                        assert(shrunk[b] == spec_remove_conn(rest, id)[b - 1]);
                        lemma_remove_conn_membership(rest, id, shrunk[b]);
                        let w = choose|w: int|
                            0 <= w < rest.len() && #[trigger] rest[w] == shrunk[b];
                        assert(room[w + 1] == rest[w]);
                    } else {
                        assert(shrunk[a] == spec_remove_conn(rest, id)[a - 1]);
                        assert(shrunk[b] == spec_remove_conn(rest, id)[b - 1]);
                    }
                }
            }
        }
    }
}

/// Removal never grows the room.
proof fn lemma_remove_conn_len(room: Seq<ConnView>, id: int)
    ensures
        spec_remove_conn(room, id).len() <= room.len(),
    decreases room.len(),
{
    if room.len() > 0 && room[0].id != id {
        lemma_remove_conn_len(room.drop_first(), id);
    }
}

/// Every survivor of a removal was in the room.
proof fn lemma_remove_conn_membership(room: Seq<ConnView>, id: int, e: ConnView)
    requires
        spec_remove_conn(room, id).contains(e),
    ensures
        exists|w: int| 0 <= w < room.len() && #[trigger] room[w] == e,
    decreases room.len(),
{
    let shrunk = spec_remove_conn(room, id);
    if room[0].id == id {
        let k = choose|k: int| 0 <= k < shrunk.len() && shrunk[k] == e;
        assert(room[k + 1] == e);
    } else {
        if room[0] == e {
        } else {
            let k = choose|k: int| 0 <= k < shrunk.len() && shrunk[k] == e;
            assert(shrunk[0] == room[0]);
            assert(shrunk.drop_first() =~= spec_remove_conn(room.drop_first(), id));
            assert(spec_remove_conn(room.drop_first(), id)[k - 1] == e);
            assert(spec_remove_conn(room.drop_first(), id).contains(e));
            lemma_remove_conn_membership(room.drop_first(), id, e);
            let w = choose|w: int|
                0 <= w < room.drop_first().len() && #[trigger] room.drop_first()[w] == e;
            assert(room[w + 1] == e);
        }
    }
}

/// The registry tracks membership exactly.  Over any history of arrivals
/// and departures, starting from the empty room: no two entries share an
/// identifier, and an identifier is registered if and only if it has
/// arrived and not departed since — no phantom entries, none lost.  The
/// roster is therefore exactly the multiset of display names of the
/// connections added and not yet removed.
pub proof fn lemma_registry_tracks_membership(ops: Seq<RegOp>)
    ensures
        wf_room(apply_reg_ops(Seq::empty(), ops)),
        forall|id: int|
            #[trigger] has_conn(apply_reg_ops(Seq::empty(), ops), id) <==> live_after(ops, id),
    decreases ops.len(),
{
    if ops.len() == 0 {
    } else {
        let front = ops.drop_last();
        let op = ops.last();
        lemma_registry_tracks_membership(front);
        assert(front.push(op) =~= ops);
        lemma_apply_snoc(Seq::empty(), front, op);
        let mid = apply_reg_ops(Seq::empty(), front);
        let end = apply_reg_op(mid, op);
        match op {
            RegOp::Arrive { id: id2 } => {
                if !has_conn(mid, id2) {
                    let e = ConnView { id: id2, username: spec_default_name(id2 as nat) };
                    assert forall|id: int| #[trigger] has_conn(end, id) <==> live_after(
                        ops,
                        id,
                    ) by {
                        lemma_find_push(mid, e, id);
                        assert(has_conn(mid, id) <==> live_after(front, id));
                    }
                    assert(wf_room(end)) by {
                        crate::registry::lemma_find_none(mid, id2);
                        assert(forall|k: int|
                            0 <= k < end.len() - 1 ==> #[trigger] end[k] == mid[k]);
                        assert(end[end.len() - 1] == e);
                    }
                } else {
                    assert(end == mid);
                    assert forall|id: int| #[trigger] has_conn(end, id) <==> live_after(
                        ops,
                        id,
                    ) by {
                        assert(has_conn(mid, id) <==> live_after(front, id));
                    }
                }
            },
            RegOp::Depart { id: id2 } => {
                assert forall|id: int| #[trigger] has_conn(end, id) <==> live_after(ops, id) by {
                    lemma_find_remove(mid, id2, id);
                    assert(has_conn(mid, id) <==> live_after(front, id));
                }
                lemma_find_remove(mid, id2, id2);
            },
        }
    }
}

/// Broadcasting the identical envelope twice produces two full rounds of
/// deliveries: nothing on the wire is deduplicated.
pub proof fn lemma_broadcast_no_dedup(
    room: Seq<ConnView>,
    env: crate::wire::WebSocketMessageView,
)
    ensures
        (ChatRoom::spec_broadcast(room, env) + ChatRoom::spec_broadcast(room, env)).len() == 2
            * room.len(),
        forall|k: int|
            0 <= k < 2 * room.len() ==> (#[trigger] (ChatRoom::spec_broadcast(room, env)
                + ChatRoom::spec_broadcast(room, env))[k]).frame == spec_encode(env),
{
}

} // verus!
