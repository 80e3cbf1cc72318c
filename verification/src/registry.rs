//! The connection registry: the single source of truth for who is connected
//! and under which display name.
//!
//! The registry also carries the fan-out primitives: [`ChatRoom::broadcast`]
//! serializes an envelope once and produces one delivery per live
//! connection, [`ChatRoom::unicast`] one delivery for a single connection.
//! A [`Delivery`] is a plain value (target connection and encoded frame);
//! performing the sends is the embedding program's job, so one slow or
//! closed transport can be handled there without involving the registry.

use crate::codec::encode_message;
use crate::codec::push_dec;
use crate::codec::spec_dec;
use crate::codec::spec_encode;
use crate::wire::WebSocketMessage;
use vstd::prelude::*;

verus! {

/// One live connection: its identifier and current display name.
pub struct ChatRoomConnection {
    pub id: usize,
    pub username: String,
}

/// Mathematical image of a connection.
pub struct ConnView {
    pub id: int,
    pub username: Seq<char>,
}

impl View for ChatRoomConnection {
    type V = ConnView;

    open spec fn view(&self) -> ConnView {
        ConnView { id: self.id as int, username: self.username@ }
    }
}

impl DeepView for ChatRoomConnection {
    type V = ConnView;

    open spec fn deep_view(&self) -> ConnView {
        self.view()
    }
}

/// One outbound send owed to the transport: the target connection and the
/// frame to hand it.
pub struct Delivery {
    pub target: usize,
    pub frame: String,
}

/// Mathematical image of a delivery.
pub struct DeliveryView {
    pub target: int,
    pub frame: Seq<char>,
}

impl View for Delivery {
    type V = DeliveryView;

    open spec fn view(&self) -> DeliveryView {
        DeliveryView { target: self.target as int, frame: self.frame@ }
    }
}

impl DeepView for Delivery {
    type V = DeliveryView;

    open spec fn deep_view(&self) -> DeliveryView {
        self.view()
    }
}

/// The display names of a room, in registry iteration order.
pub open spec fn room_names(room: Seq<ConnView>) -> Seq<Seq<char>> {
    room.map_values(|c: ConnView| c.username)
}

/// The first entry with the given identifier, if any.  Under
/// [`wf_room`] there is at most one.
pub open spec fn spec_find(room: Seq<ConnView>, id: int) -> Option<Seq<char>>
    decreases room.len(),
{
    if room.len() == 0 {
        None
    } else if room[0].id == id {
        Some(room[0].username)
    } else {
        spec_find(room.drop_first(), id)
    }
}

/// Whether some entry carries the given identifier.
pub open spec fn has_conn(room: Seq<ConnView>, id: int) -> bool {
    spec_find(room, id) is Some
}

/// Identifiers are unique: each entry is one live session.
pub open spec fn wf_room(room: Seq<ConnView>) -> bool {
    forall|i: int, j: int|
        #![trigger room[i], room[j]]
        0 <= i < j < room.len() ==> room[i].id != room[j].id
}

/// The room with the entry for `id` renamed (and untouched when `id` is
/// absent).
pub open spec fn spec_set_name(room: Seq<ConnView>, id: int, name: Seq<char>) -> Seq<ConnView> {
    room.map_values(
        |c: ConnView|
            if c.id == id {
                ConnView { id: c.id, username: name }
            } else {
                c
            },
    )
}

/// Searching below an unmatched prefix searches the suffix.
pub proof fn lemma_find_skip(room: Seq<ConnView>, id: int, i: int)
    requires
        0 <= i <= room.len(),
        forall|k: int| 0 <= k < i ==> #[trigger] room[k].id != id,
    ensures
        spec_find(room, id) == spec_find(room.skip(i), id),
    decreases i,
{
    if i == 0 {
        assert(room.skip(0) =~= room);
    } else {
        lemma_find_skip(room, id, i - 1);
        let tail = room.skip(i - 1);
        assert(tail.len() == room.len() - (i - 1));
        assert(tail[0] == room[i - 1]);
        assert(room[i - 1].id != id);
        assert(tail.drop_first() =~= room.skip(i));
    }
}

/// `spec_find` misses exactly when no entry carries the identifier.
pub proof fn lemma_find_none(room: Seq<ConnView>, id: int)
    ensures
        (spec_find(room, id) is None) <==> (forall|k: int|
            0 <= k < room.len() ==> #[trigger] room[k].id != id),
    decreases room.len(),
{
    if room.len() > 0 {
        lemma_find_none(room.drop_first(), id);
        assert(forall|k: int|
            1 <= k < room.len() ==> room.drop_first()[k - 1] == #[trigger] room[k]);
        if room[0].id != id && (spec_find(room.drop_first(), id) is None) {
            assert(forall|k: int| 0 <= k < room.len() ==> #[trigger] room[k].id != id) by {
                assert(forall|k: int|
                    1 <= k < room.len() ==> #[trigger] room[k].id == room.drop_first()[k - 1].id);
            }
        }
    }
}

/// A hit of `spec_find` names an index that carries it.
pub proof fn lemma_find_some(room: Seq<ConnView>, id: int)
    requires
        spec_find(room, id) is Some,
    ensures
        exists|i: int|
            0 <= i < room.len() && (#[trigger] room[i]).id == id && spec_find(room, id) == Some(
                room[i].username,
            ),
    decreases room.len(),
{
    if room.len() > 0 && room[0].id != id {
        lemma_find_some(room.drop_first(), id);
        let i = choose|i: int|
            0 <= i < room.drop_first().len() && (#[trigger] room.drop_first()[i]).id == id
                && spec_find(room.drop_first(), id) == Some(room.drop_first()[i].username);
        assert(room[i + 1] == room.drop_first()[i]);
    }
}

/// The default display name for a fresh connection: `User #<id>`.
pub open spec fn spec_default_name(id: nat) -> Seq<char> {
    "User #"@ + spec_dec(id)
}

/// The registry of live connections, in insertion order.
pub struct ChatRoom {
    connections: Vec<ChatRoomConnection>,
}

impl View for ChatRoom {
    type V = Seq<ConnView>;

    closed spec fn view(&self) -> Seq<ConnView> {
        self.connections.deep_view()
    }
}

impl ChatRoom {
    /// Identifiers in the room are unique.
    pub open spec fn wf(self) -> bool {
        wf_room(self@)
    }

    /// An empty room.
    pub fn new() -> (r: ChatRoom)
        ensures
            r@ =~= Seq::<ConnView>::empty(),
            r.wf(),
    {
        ChatRoom { connections: Vec::new() }
    }

    /// Whether `id` is currently registered.
    pub fn has_connection(&self, id: usize) -> (r: bool)
        ensures
            r == has_conn(self@, id as int),
    {
        let mut i: usize = 0;
        let n = self.connections.len();
        while i < n
            invariant
                n == self@.len(),
                0 <= i <= n,
                forall|k: int| 0 <= k < i ==> (#[trigger] self@[k]).id != id as int,
            decreases n - i,
        {
            if self.connections[i].id == id {
                proof {
                    lemma_find_skip(self@, id as int, i as int);
                    assert(self@.skip(i as int)[0] == self@[i as int]);
                }
                return true;
            }
            i += 1;
        }
        proof {
            lemma_find_skip(self@, id as int, n as int);
            assert(self@.skip(n as int) =~= Seq::<ConnView>::empty());
        }
        false
    }

    /// The current display name of `id`, if it is registered.
    pub fn username_of(&self, id: usize) -> (r: Option<String>)
        ensures
            match r {
                Some(name) => spec_find(self@, id as int) == Some(name@),
                None => spec_find(self@, id as int) is None,
            },
    {
        let mut i: usize = 0;
        let n = self.connections.len();
        while i < n
            invariant
                n == self@.len(),
                0 <= i <= n,
                forall|k: int| 0 <= k < i ==> (#[trigger] self@[k]).id != id as int,
            decreases n - i,
        {
            if self.connections[i].id == id {
                proof {
                    lemma_find_skip(self@, id as int, i as int);
                    assert(self@.skip(i as int)[0] == self@[i as int]);
                }
                return Some(self.connections[i].username.clone());
            }
            i += 1;
        }
        proof {
            lemma_find_skip(self@, id as int, n as int);
            assert(self@.skip(n as int) =~= Seq::<ConnView>::empty());
        }
        None
    }

    /// Inserts a fresh connection under the default display name
    /// `User #<id>` and returns that name.  The caller draws `id` from a
    /// monotonic counter, so it is always fresh; there is no error case.
    pub fn add(&mut self, id: usize) -> (username: String)
        requires
            old(self).wf(),
            !has_conn(old(self)@, id as int),
        ensures
            final(self).wf(),
            final(self)@ =~= old(self)@.push(
                ConnView { id: id as int, username: spec_default_name(id as nat) },
            ),
            username@ == spec_default_name(id as nat),
            spec_find(final(self)@, id as int) == Some(spec_default_name(id as nat)),
    {
        let mut name = String::new();
        name.append("User #");
        push_dec(&mut name, id);
        let entry = ChatRoomConnection { id, username: name.clone() };
        self.connections.push(entry);
        proof {
            let post = self@;
            let pre = old(self)@;
            assert(post =~= pre.push(
                ConnView { id: id as int, username: spec_default_name(id as nat) },
            ));
            lemma_find_none(pre, id as int);
            assert(forall|k: int| 0 <= k < post.len() - 1 ==> #[trigger] post[k] == pre[k]);
            lemma_find_skip(post, id as int, post.len() - 1);
            assert(post.skip(post.len() - 1)[0] == post[post.len() - 1]);
            assert(wf_room(post));
        }
        name
    }

    /// Deletes the entry for `id` if present and returns the display name
    /// that was removed; removing an absent identifier is a no-op signal,
    /// not an error.
    pub fn remove(&mut self, id: usize) -> (r: Option<String>)
        requires
            old(self).wf(),
        ensures
            final(self).wf(),
            match r {
                Some(name) => {
                    &&& spec_find(old(self)@, id as int) == Some(name@)
                    &&& exists|i: int|
                        0 <= i < old(self)@.len() && (#[trigger] old(self)@[i]).id == id as int
                            && final(self)@ == old(self)@.remove(i)
                    &&& !has_conn(final(self)@, id as int)
                    &&& room_names(final(self)@).to_multiset() == room_names(
                        old(self)@,
                    ).to_multiset().remove(name@)
                },
                None => {
                    &&& final(self)@ == old(self)@
                    &&& !has_conn(old(self)@, id as int)
                },
            },
    {
        let mut i: usize = 0;
        let n = self.connections.len();
        while i < n
            invariant
                n == self@.len(),
                0 <= i <= n,
                self@ == old(self)@,
                old(self).wf(),
                forall|k: int| 0 <= k < i ==> (#[trigger] self@[k]).id != id as int,
            decreases n - i,
        {
            if self.connections[i].id == id {
                let entry = self.connections.remove(i);
                proof {
                    let pre = old(self)@;
                    let post = self@;
                    let ii = i as int;
                    lemma_find_skip(pre, id as int, ii);
                    assert(pre.skip(ii)[0] == pre[ii]);
                    assert(spec_find(pre, id as int) == Some(pre[ii].username));
                    assert(post =~= pre.remove(ii));
                    // uniqueness: every surviving entry has a different id
                    assert forall|k: int| 0 <= k < post.len() implies (#[trigger] post[k]).id
                        != id as int by {
                        if k < ii {
                            assert(post[k] == pre[k]);
                        } else {
                            assert(post[k] == pre[k + 1]);
                            assert(pre[ii].id != pre[k + 1].id);
                        }
                    }
                    lemma_find_none(post, id as int);
                    assert forall|a: int, b: int| 0 <= a < b < post.len() implies post[a].id
                        != post[b].id by {
                        let a2: int = if a < ii {
                            a
                        } else {
                            a + 1
                        };
                        let b2: int = if b < ii {
                            b
                        } else {
                            b + 1
                        };
                        assert(post[a] == pre[a2]);
                        assert(post[b] == pre[b2]);
                        assert(pre[a2].id != pre[b2].id);
                    }
                    assert(wf_room(post));
                    // the roster loses exactly this name
                    assert(room_names(post) =~= room_names(pre).remove(ii));
                    room_names(pre).to_multiset_ensures();
                    assert(room_names(pre)[ii] == entry.username@);
                }
                return Some(entry.username);
            }
            i += 1;
        }
        proof {
            lemma_find_skip(self@, id as int, n as int);
            assert(self@.skip(n as int) =~= Seq::<ConnView>::empty());
        }
        None
    }

    /// Swaps the display name of `id` for `new_name` and returns the prior
    /// name; absent identifiers are left alone.  Announcing the change is
    /// the caller's business.
    pub fn rename(&mut self, id: usize, new_name: String) -> (r: Option<String>)
        requires
            old(self).wf(),
        ensures
            final(self).wf(),
            match r {
                Some(prior) => {
                    &&& spec_find(old(self)@, id as int) == Some(prior@)
                    &&& final(self)@ == spec_set_name(old(self)@, id as int, new_name@)
                    &&& spec_find(final(self)@, id as int) == Some(new_name@)
                },
                None => {
                    &&& final(self)@ == old(self)@
                    &&& !has_conn(old(self)@, id as int)
                },
            },
    {
        let mut i: usize = 0;
        let n = self.connections.len();
        while i < n
            invariant
                n == self@.len(),
                0 <= i <= n,
                self@ == old(self)@,
                old(self).wf(),
                forall|k: int| 0 <= k < i ==> (#[trigger] self@[k]).id != id as int,
            decreases n - i,
        {
            if self.connections[i].id == id {
                let ghost nv = new_name@;
                let prior = self.connections.remove(i);
                self.connections.insert(i, ChatRoomConnection { id, username: new_name });
                proof {
                    let pre = old(self)@;
                    let post = self@;
                    let ii = i as int;
                    let nc = ConnView { id: id as int, username: nv };
                    lemma_find_skip(pre, id as int, ii);
                    assert(pre.skip(ii)[0] == pre[ii]);
                    assert(spec_find(pre, id as int) == Some(prior.username@));
                    assert(post =~= pre.update(ii, nc));
                    assert forall|k: int| 0 <= k < post.len() implies post[k] == spec_set_name(
                        pre,
                        id as int,
                        nv,
                    )[k] by {
                        if k == ii {
                            assert(post[k] == nc);
                        } else {
                            assert(post[k] == pre[k]);
                            assert(pre[ii].id != pre[k].id);
                        }
                    }
                    assert(post =~= spec_set_name(pre, id as int, nv));
                    assert forall|a: int, b: int| 0 <= a < b < post.len() implies post[a].id
                        != post[b].id by {
                        assert(post[a].id == pre[a].id);
                        assert(post[b].id == pre[b].id);
                        assert(pre[a].id != pre[b].id);
                    }
                    assert(wf_room(post));
                    assert forall|k: int| 0 <= k < ii implies (#[trigger] post[k]).id
                        != id as int by {
                        assert(post[k] == pre[k]);
                    }
                    lemma_find_skip(post, id as int, ii);
                    assert(post.skip(ii)[0] == post[ii]);
                }
                return Some(prior.username);
            }
            i += 1;
        }
        proof {
            lemma_find_skip(self@, id as int, n as int);
            assert(self@.skip(n as int) =~= Seq::<ConnView>::empty());
        }
        None
    }

    /// The current display names, in registry iteration order.  Only the
    /// multiset is meaningful to callers: the order is not guaranteed
    /// stable across membership changes.
    pub fn snapshot_usernames(&self) -> (r: Vec<String>)
        ensures
            r.deep_view() == room_names(self@),
    {
        let mut out: Vec<String> = Vec::new();
        let mut i: usize = 0;
        let n = self.connections.len();
        while i < n
            invariant
                n == self@.len(),
                0 <= i <= n,
                out.deep_view() =~= room_names(self@).take(i as int),
            decreases n - i,
        {
            let ghost prev = out.deep_view();
            let ghost prevraw = out@;
            let name = self.connections[i].username.clone();
            let ghost namev = name@;
            out.push(name);
            proof {
                assert(namev == self@[i as int].username);
                assert(room_names(self@).len() == self@.len());
                assert(prev.len() == prevraw.len());
                assert(out@.len() == prevraw.len() + 1);
                assert(prev =~= room_names(self@).take(i as int));
                assert(prev.len() == i as int);
                assert forall|k: int| 0 <= k < out.deep_view().len() implies out.deep_view()[k]
                    == room_names(self@).take(i + 1)[k] by {
                    assert(out.deep_view()[k] == out@[k].deep_view());
                    if k < i {
                        assert(out@[k] == prevraw[k]);
                        assert(prev[k] == prevraw[k].deep_view());
                        assert(out.deep_view()[k] == prev[k]);
                    } else {
                        assert(out@[k].deep_view() == namev);
                    }
                }
                assert(out.deep_view() =~= room_names(self@).take(i + 1));
            }
            i += 1;
        }
        proof {
            assert(room_names(self@).take(n as int) =~= room_names(self@));
        }
        out
    }

    /// One delivery of the serialized envelope to every live connection, in
    /// registry order.
    pub open spec fn spec_broadcast(
        room: Seq<ConnView>,
        env: crate::wire::WebSocketMessageView,
    ) -> Seq<DeliveryView> {
        room.map_values(|c: ConnView| DeliveryView { target: c.id, frame: spec_encode(env) })
    }

    /// One delivery of the serialized envelope to `id` alone if it is still
    /// registered, none otherwise.
    pub open spec fn spec_unicast(
        room: Seq<ConnView>,
        id: int,
        env: crate::wire::WebSocketMessageView,
    ) -> Seq<DeliveryView> {
        if has_conn(room, id) {
            seq![DeliveryView { target: id, frame: spec_encode(env) }]
        } else {
            Seq::empty()
        }
    }

    /// Serializes `env` once and produces one delivery per live connection.
    /// Every recipient of this broadcast round gets the identical frame.
    pub fn broadcast(&self, env: &WebSocketMessage) -> (ds: Vec<Delivery>)
        ensures
            ds.deep_view() == Self::spec_broadcast(self@, env@),
    {
        let frame = encode_message(env);
        let mut out: Vec<Delivery> = Vec::new();
        let mut i: usize = 0;
        let n = self.connections.len();
        while i < n
            invariant
                n == self@.len(),
                0 <= i <= n,
                frame@ == spec_encode(env@),
                out.deep_view() =~= Self::spec_broadcast(self@, env@).take(i as int),
            decreases n - i,
        {
            let ghost prev = out.deep_view();
            let ghost prevraw = out@;
            let f = frame.clone();
            let ghost fv = f@;
            out.push(Delivery { target: self.connections[i].id, frame: f });
            proof {
                assert(fv == spec_encode(env@));
                assert(Self::spec_broadcast(self@, env@).len() == self@.len());
                assert(prev.len() == prevraw.len());
                assert(out@.len() == prevraw.len() + 1);
                assert(prev =~= Self::spec_broadcast(self@, env@).take(i as int));
                assert(prev.len() == i as int);
                assert forall|k: int| 0 <= k < out.deep_view().len() implies out.deep_view()[k]
                    == Self::spec_broadcast(self@, env@).take(i + 1)[k] by {
                    assert(out.deep_view()[k] == out@[k].deep_view());
                    if k < i {
                        assert(out@[k] == prevraw[k]);
                        assert(prev[k] == prevraw[k].deep_view());
                        assert(out.deep_view()[k] == prev[k]);
                    } else {
                        assert(out@[k].deep_view() == DeliveryView {
                            target: self@[i as int].id,
                            frame: fv,
                        });
                    }
                }
                assert(out.deep_view() =~= Self::spec_broadcast(self@, env@).take(i + 1));
            }
            i += 1;
        }
        proof {
            assert(Self::spec_broadcast(self@, env@).take(n as int) =~= Self::spec_broadcast(
                self@,
                env@,
            ));
        }
        out
    }

    /// Serializes `env` and produces the one delivery for `id` if it still
    /// exists; a vanished target yields no delivery at all.
    pub fn unicast(&self, id: usize, env: &WebSocketMessage) -> (ds: Vec<Delivery>)
        ensures
            ds.deep_view() == Self::spec_unicast(self@, id as int, env@),
    {
        let mut out: Vec<Delivery> = Vec::new();
        if self.has_connection(id) {
            let frame = encode_message(env);
            out.push(Delivery { target: id, frame });
            proof {
                assert(out.deep_view() =~= Self::spec_unicast(self@, id as int, env@));
            }
        } else {
            proof {
                assert(out.deep_view() =~= Self::spec_unicast(self@, id as int, env@));
            }
        }
        out
    }
}

} // verus!
