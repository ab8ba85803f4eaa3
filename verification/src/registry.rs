//! The registry of rooms: which rooms there are, who is in which, and which
//! room a new session belongs to. No peer is in two rooms, and none is twice
//! in one.

use crate::ids::{default_room, PeerId, RoomKey, DEFAULT_ROOM};
use crate::room::{
    addressed, addressed_properties, distinct_ids, has_member, member_set, sparing, without,
    without_membership, Audience, Room,
};
use crate::signal::{delivered, notices, Delivery, Peer, SignalingMessage};
use vstd::prelude::*;

verus! {

/// How the registry picks the room of a new session.
#[derive(Clone, Copy, Debug, PartialEq, Eq, Structural)]
pub enum RoomPolicy {
    /// Every session joins the one fixed room.
    Single,
    /// A session joins the room whose key it asks for, and the fixed room
    /// where it asks for none.
    Keyed,
}

/// The room that `policy` gives to a session that asks for `requested`.
pub open spec fn assigned(policy: RoomPolicy, fixed: RoomKey, requested: Option<RoomKey>) -> RoomKey {
    match (policy, requested) {
        (RoomPolicy::Keyed, Some(key)) => key,
        _ => fixed,
    }
}

/// The members of the room `key`, none where there is no such room.
pub open spec fn members(rooms: Map<RoomKey, Seq<Peer>>, key: RoomKey) -> Seq<Peer> {
    if rooms.dom().contains(key) {
        rooms[key]
    } else {
        Seq::empty()
    }
}

/// Whether the peer `id` is a member of some room.
pub open spec fn registered(rooms: Map<RoomKey, Seq<Peer>>, id: PeerId) -> bool {
    exists|key: RoomKey| rooms.dom().contains(key) && has_member(#[trigger] rooms[key], id)
}

/// The invariant of the rooms: within a room no identifier occurs twice, and
/// no identifier occurs in two rooms.
pub open spec fn well_formed(rooms: Map<RoomKey, Seq<Peer>>) -> bool {
    &&& forall|key: RoomKey| rooms.dom().contains(key) ==> distinct_ids(#[trigger] rooms[key])
    &&& forall|a: RoomKey, b: RoomKey, id: PeerId|
        #![trigger has_member(rooms[a], id), has_member(rooms[b], id)]
        rooms.dom().contains(a) && rooms.dom().contains(b) && a != b && has_member(rooms[a], id)
            ==> !has_member(rooms[b], id)
}

/// The rooms after `peer` has asked to join the room `key`. A peer whose
/// identifier is a member of some room already is turned away. Otherwise it
/// comes last in the room, which is made if it was not there.
pub open spec fn joined(rooms: Map<RoomKey, Seq<Peer>>, key: RoomKey, peer: Peer) -> Map<
    RoomKey,
    Seq<Peer>,
> {
    if registered(rooms, peer.id) {
        rooms
    } else {
        rooms.insert(key, members(rooms, key).push(peer))
    }
}

/// The rooms after the peer `id` has left the room `key`. Where there is no
/// such room, or no such member in it, nothing changes.
pub open spec fn left(rooms: Map<RoomKey, Seq<Peer>>, key: RoomKey, id: PeerId) -> Map<
    RoomKey,
    Seq<Peer>,
> {
    if rooms.dom().contains(key) {
        rooms.insert(key, without(rooms[key], id))
    } else {
        rooms
    }
}

/// Joining keeps the invariant of the rooms.
pub proof fn joined_is_well_formed(rooms: Map<RoomKey, Seq<Peer>>, key: RoomKey, peer: Peer)
    requires
        well_formed(rooms),
    ensures
        well_formed(joined(rooms, key, peer)),
{
    if !registered(rooms, peer.id) {
        let before = members(rooms, key);
        let after = before.push(peer);
        let next = joined(rooms, key, peer);
        assert(!has_member(before, peer.id));
        assert(distinct_ids(after)) by {
            assert forall|i: int, j: int| 0 <= i < j < after.len() implies after[i].id
                != after[j].id by {
                if j == before.len() {
                    assert(before[i].id == after[i].id);
                } else {
                    assert(before[i].id != before[j].id);
                }
            }
        }
        assert forall|k: RoomKey| next.dom().contains(k) implies distinct_ids(
            #[trigger] next[k],
        ) by {
            if k != key {
                assert(next[k] == rooms[k]);
            }
        }
        assert forall|a: RoomKey, b: RoomKey, id: PeerId|
            #![trigger has_member(next[a], id), has_member(next[b], id)]
            next.dom().contains(a) && next.dom().contains(b) && a != b && has_member(
                next[a],
                id,
            ) implies !has_member(next[b], id) by {
            member_after_push(before, peer, id);
            if a == key {
                assert(next[b] == rooms[b]);
                if id != peer.id {
                    assert(has_member(before, id));
                    assert(has_member(rooms[a], id));
                }
            } else if b == key {
                assert(next[a] == rooms[a]);
                if has_member(next[b], id) {
                    if id != peer.id {
                        assert(has_member(rooms[b], id));
                    }
                }
            } else {
                assert(next[a] == rooms[a] && next[b] == rooms[b]);
            }
        }
    }
}

/// Membership after a peer has come last.
pub proof fn member_after_push(peers: Seq<Peer>, peer: Peer, id: PeerId)
    ensures
        has_member(peers.push(peer), id) <==> (id == peer.id || has_member(peers, id)),
{
    let after = peers.push(peer);
    if has_member(after, id) {
        let i = choose|i: int| 0 <= i < after.len() && #[trigger] after[i].id == id;
        if i < peers.len() {
            assert(peers[i].id == id);
        }
    }
    if id == peer.id {
        assert(after[peers.len() as int].id == id);
    }
    if has_member(peers, id) {
        let i = choose|i: int| 0 <= i < peers.len() && #[trigger] peers[i].id == id;
        assert(after[i].id == id);
    }
}

/// Leaving keeps the invariant of the rooms.
pub proof fn left_is_well_formed(rooms: Map<RoomKey, Seq<Peer>>, key: RoomKey, id: PeerId)
    requires
        well_formed(rooms),
    ensures
        well_formed(left(rooms, key, id)),
{
    if rooms.dom().contains(key) {
        let next = left(rooms, key, id);
        addressed_properties(rooms[key], Audience::AllBut(id));
        assert forall|k: RoomKey| next.dom().contains(k) implies distinct_ids(
            #[trigger] next[k],
        ) by {
            if k != key {
                assert(next[k] == rooms[k]);
            }
        }
        assert forall|a: RoomKey, b: RoomKey, other: PeerId|
            #![trigger has_member(next[a], other), has_member(next[b], other)]
            next.dom().contains(a) && next.dom().contains(b) && a != b && has_member(
                next[a],
                other,
            ) implies !has_member(next[b], other) by {
            without_membership(rooms[key], id, other);
            if a == key {
                assert(next[b] == rooms[b]);
                assert(has_member(rooms[a], other));
            } else if b == key {
                assert(next[a] == rooms[a]);
                if has_member(next[b], other) {
                    assert(has_member(rooms[b], other));
                }
            } else {
                assert(next[a] == rooms[a] && next[b] == rooms[b]);
            }
        }
    }
}

/// A join or a leave, as the registry is asked for it.
pub enum RoomEvent {
    Join { room: RoomKey, peer: Peer },
    Leave { room: RoomKey, id: PeerId },
}

/// The rooms after one event.
pub open spec fn applied(rooms: Map<RoomKey, Seq<Peer>>, event: RoomEvent) -> Map<
    RoomKey,
    Seq<Peer>,
> {
    match event {
        RoomEvent::Join { room, peer } => joined(rooms, room, peer),
        RoomEvent::Leave { room, id } => left(rooms, room, id),
    }
}

/// The rooms after a sequence of events, taken in their order.
pub open spec fn replayed(start: Map<RoomKey, Seq<Peer>>, events: Seq<RoomEvent>) -> Map<
    RoomKey,
    Seq<Peer>,
>
    decreases events.len(),
{
    if events.len() == 0 {
        start
    } else {
        applied(replayed(start, events.drop_last()), events.last())
    }
}

/// The sessions that are open after a sequence of events, each with the room
/// it is in. A join opens a session unless one with the same identifier is
/// open; a leave ends the session with that identifier if it is open in
/// that room.
pub open spec fn open_sessions(events: Seq<RoomEvent>) -> Map<PeerId, RoomKey>
    decreases events.len(),
{
    if events.len() == 0 {
        Map::empty()
    } else {
        let before = open_sessions(events.drop_last());
        match events.last() {
            RoomEvent::Join { room, peer } => if before.dom().contains(peer.id) {
                before
            } else {
                before.insert(peer.id, room)
            },
            RoomEvent::Leave { room, id } => if before.dom().contains(id) && before[id] == room {
                before.remove(id)
            } else {
                before
            },
        }
    }
}

/// Whether the session `id` is open in the room `room` after the events.
pub open spec fn open_in(events: Seq<RoomEvent>, room: RoomKey, id: PeerId) -> bool {
    open_sessions(events).dom().contains(id) && open_sessions(events)[id] == room
}

/// Rooms in which nobody is.
pub open spec fn vacant(rooms: Map<RoomKey, Seq<Peer>>) -> bool {
    forall|key: RoomKey| rooms.dom().contains(key) ==> (#[trigger] rooms[key]).len() == 0
}

proof fn replay_tracks_sessions(start: Map<RoomKey, Seq<Peer>>, events: Seq<RoomEvent>)
    requires
        vacant(start),
    ensures
        well_formed(replayed(start, events)),
        forall|room: RoomKey, id: PeerId| #[trigger]
            has_member(members(replayed(start, events), room), id) <==> open_in(events, room, id),
    decreases events.len(),
{
    let now = replayed(start, events);
    if events.len() == 0 {
        assert forall|room: RoomKey, id: PeerId| !(#[trigger] has_member(members(now, room), id)) by {}
    } else {
        let earlier = events.drop_last();
        let rooms = replayed(start, earlier);
        let sessions = open_sessions(earlier);
        replay_tracks_sessions(start, earlier);
        match events.last() {
            RoomEvent::Join { room: target, peer } => {
                joined_is_well_formed(rooms, target, peer);
                assert(registered(rooms, peer.id) <==> sessions.dom().contains(peer.id)) by {
                    if registered(rooms, peer.id) {
                        let key = choose|key: RoomKey|
                            rooms.dom().contains(key) && has_member(#[trigger] rooms[key], peer.id);
                        assert(has_member(members(rooms, key), peer.id));
                    }
                    if sessions.dom().contains(peer.id) {
                        let key = sessions[peer.id];
                        assert(open_in(earlier, key, peer.id));
                        assert(has_member(members(rooms, key), peer.id));
                        assert(has_member(rooms[key], peer.id));
                    }
                }
                if !registered(rooms, peer.id) {
                    assert forall|room: RoomKey, id: PeerId| #[trigger]
                        has_member(members(now, room), id) <==> open_in(events, room, id) by {
                        member_after_push(members(rooms, target), peer, id);
                        assert(has_member(members(rooms, room), id) <==> open_in(earlier, room, id));
                        if room != target {
                            assert(members(now, room) == members(rooms, room));
                        }
                    }
                }
            },
            RoomEvent::Leave { room: target, id: gone } => {
                left_is_well_formed(rooms, target, gone);
                assert forall|room: RoomKey, id: PeerId| #[trigger]
                    has_member(members(now, room), id) <==> open_in(events, room, id) by {
                    assert(has_member(members(rooms, room), id) <==> open_in(earlier, room, id));
                    assert(has_member(members(rooms, target), gone) <==> open_in(
                        earlier,
                        target,
                        gone,
                    ));
                    if rooms.dom().contains(target) {
                        if room == target {
                            without_membership(rooms[target], gone, id);
                        } else {
                            assert(members(now, room) == members(rooms, room));
                        }
                    }
                }
            },
        }
    }
}

/// After any sequence of joins and leaves that starts with nobody in any
/// room, the members of a room are the peers whose session is open in that
/// room, and no peer occurs twice, in one room or in two.
pub proof fn members_are_the_open_sessions(
    start: Map<RoomKey, Seq<Peer>>,
    events: Seq<RoomEvent>,
    room: RoomKey,
)
    requires
        vacant(start),
    ensures
        well_formed(replayed(start, events)),
        distinct_ids(members(replayed(start, events), room)),
        member_set(members(replayed(start, events), room)) == Set::new(
            |id: PeerId| open_in(events, room, id),
        ),
{
    replay_tracks_sessions(start, events);
    let now = replayed(start, events);
    assert(member_set(members(now, room)) =~= Set::new(|id: PeerId| open_in(events, room, id)));
}

/// The map that a list of rooms stands for: each room's members under the
/// room's key.
spec fn rooms_map(rooms: Seq<Room>) -> Map<RoomKey, Seq<Peer>>
    decreases rooms.len(),
{
    if rooms.len() == 0 {
        Map::empty()
    } else {
        rooms_map(rooms.drop_last()).insert(rooms.last().spec_key(), rooms.last()@)
    }
}

/// No two rooms of the list share a key.
spec fn distinct_keys(rooms: Seq<Room>) -> bool {
    forall|i: int, j: int|
        0 <= i < j < rooms.len() ==> #[trigger] rooms[i].spec_key() != #[trigger] rooms[j].spec_key()
}

proof fn rooms_map_dom(rooms: Seq<Room>, key: RoomKey)
    ensures
        rooms_map(rooms).dom().contains(key) <==> exists|i: int|
            0 <= i < rooms.len() && #[trigger] rooms[i].spec_key() == key,
    decreases rooms.len(),
{
    if rooms.len() > 0 {
        let rest = rooms.drop_last();
        rooms_map_dom(rest, key);
        if rooms_map(rest).dom().contains(key) {
            let i = choose|i: int| 0 <= i < rest.len() && #[trigger] rest[i].spec_key() == key;
            assert(rooms[i].spec_key() == key);
        }
        if rooms.last().spec_key() == key {
            assert(rooms[rooms.len() - 1].spec_key() == key);
        }
        if exists|i: int| 0 <= i < rooms.len() && #[trigger] rooms[i].spec_key() == key {
            let i = choose|i: int| 0 <= i < rooms.len() && #[trigger] rooms[i].spec_key() == key;
            if i < rest.len() {
                assert(rest[i].spec_key() == key);
            }
        }
    }
}

proof fn rooms_map_at(rooms: Seq<Room>, i: int)
    requires
        distinct_keys(rooms),
        0 <= i < rooms.len(),
    ensures
        rooms_map(rooms).dom().contains(rooms[i].spec_key()),
        rooms_map(rooms)[rooms[i].spec_key()] == rooms[i]@,
    decreases rooms.len(),
{
    let rest = rooms.drop_last();
    if i < rest.len() {
        assert(distinct_keys(rest)) by {
            assert forall|a: int, b: int| 0 <= a < b < rest.len() implies #[trigger] rest[a].spec_key()
                != #[trigger] rest[b].spec_key() by {
                assert(rooms[a].spec_key() != rooms[b].spec_key());
            }
        }
        rooms_map_at(rest, i);
        assert(rest[i] == rooms[i]);
        assert(rooms[i].spec_key() != rooms[rooms.len() - 1].spec_key());
    }
}

proof fn rooms_map_update(rooms: Seq<Room>, i: int, room: Room)
    requires
        distinct_keys(rooms),
        0 <= i < rooms.len(),
        room.spec_key() == rooms[i].spec_key(),
    ensures
        distinct_keys(rooms.update(i, room)),
        rooms_map(rooms.update(i, room)) == rooms_map(rooms).insert(room.spec_key(), room@),
    decreases rooms.len(),
{
    let next = rooms.update(i, room);
    assert(distinct_keys(next)) by {
        assert forall|a: int, b: int| 0 <= a < b < next.len() implies #[trigger] next[a].spec_key()
            != #[trigger] next[b].spec_key() by {
            assert(rooms[a].spec_key() != rooms[b].spec_key());
        }
    }
    let rest = rooms.drop_last();
    if i < rest.len() {
        assert(distinct_keys(rest)) by {
            assert forall|a: int, b: int| 0 <= a < b < rest.len() implies #[trigger] rest[a].spec_key()
                != #[trigger] rest[b].spec_key() by {
                assert(rooms[a].spec_key() != rooms[b].spec_key());
            }
        }
        rooms_map_update(rest, i, room);
        assert(next.drop_last() =~= rest.update(i, room));
        assert(next.last() == rooms.last());
        assert(rooms[i].spec_key() != rooms[rooms.len() - 1].spec_key());
        assert(rooms_map(next) =~= rooms_map(rooms).insert(room.spec_key(), room@));
    } else {
        assert(next.drop_last() =~= rest);
        assert(rooms_map(next) =~= rooms_map(rooms).insert(room.spec_key(), room@));
    }
}

proof fn rooms_map_push(rooms: Seq<Room>, room: Room)
    requires
        distinct_keys(rooms),
        !rooms_map(rooms).dom().contains(room.spec_key()),
    ensures
        distinct_keys(rooms.push(room)),
        rooms_map(rooms.push(room)) == rooms_map(rooms).insert(room.spec_key(), room@),
{
    let next = rooms.push(room);
    assert(next.drop_last() =~= rooms);
    assert forall|a: int, b: int| 0 <= a < b < next.len() implies #[trigger] next[a].spec_key()
        != #[trigger] next[b].spec_key() by {
        if b == rooms.len() {
            rooms_map_dom(rooms, room.spec_key());
            assert(rooms[a].spec_key() != room.spec_key());
        } else {
            assert(rooms[a].spec_key() != rooms[b].spec_key());
        }
    }
}

/// The registry of the relay.
#[derive(Debug)]
pub struct Registry {
    rooms: Vec<Room>,
    policy: RoomPolicy,
    fixed: RoomKey,
}

impl View for Registry {
    type V = Map<RoomKey, Seq<Peer>>;

    closed spec fn view(&self) -> Map<RoomKey, Seq<Peer>> {
        rooms_map(self.rooms@)
    }
}

impl Registry {
    /// The policy by which the registry picks rooms.
    pub closed spec fn policy(&self) -> RoomPolicy {
        self.policy
    }

    /// The key of the fixed room.
    pub closed spec fn fixed_room(&self) -> RoomKey {
        self.fixed
    }

    /// The registry's invariant. It holds of every registry that this module
    /// hands out, and it implies the invariant of the rooms.
    pub closed spec fn wf(&self) -> bool {
        &&& distinct_keys(self.rooms@)
        &&& well_formed(self@)
    }

    /// A well-formed registry holds well-formed rooms.
    pub proof fn wf_rooms(&self)
        requires
            self.wf(),
        ensures
            well_formed(self@),
    {
    }

    /// A registry with the given policy. Its fixed room is there from the
    /// start, and empty.
    pub fn with_policy(policy: RoomPolicy, fixed: RoomKey) -> (registry: Registry)
        ensures
            registry.wf(),
            registry.policy() == policy,
            registry.fixed_room() == fixed,
            registry@ == Map::<RoomKey, Seq<Peer>>::empty().insert(fixed, Seq::empty()),
    {
        let mut rooms: Vec<Room> = Vec::new();
        let room = Room::new(fixed);
        proof {
            rooms_map_push(rooms@, room);
        }
        rooms.push(room);
        let registry = Registry { rooms, policy, fixed };
        proof {
            let map = registry@;
            assert(map =~= Map::<RoomKey, Seq<Peer>>::empty().insert(fixed, Seq::empty()));
            assert forall|key: RoomKey, id: PeerId| map.dom().contains(key) implies !(
            #[trigger] has_member(map[key], id)) by {}
        }
        registry
    }

    /// A registry in which every session joins the default room.
    pub fn new() -> (registry: Registry)
        ensures
            registry.wf(),
            registry.policy() == RoomPolicy::Single,
            registry.fixed_room() == RoomKey(DEFAULT_ROOM),
            registry@ == Map::<RoomKey, Seq<Peer>>::empty().insert(
                RoomKey(DEFAULT_ROOM),
                Seq::empty(),
            ),
    {
        Registry::with_policy(RoomPolicy::Single, default_room())
    }

    /// The room of a new session that asks for `requested`. It depends on
    /// nothing but the policy, so it can be asked before the peer is known
    /// to the registry.
    pub fn assign_room(&self, requested: Option<RoomKey>) -> (key: RoomKey)
        ensures
            key == assigned(self.policy(), self.fixed_room(), requested),
    {
        match self.policy {
            RoomPolicy::Single => self.fixed,
            RoomPolicy::Keyed => match requested {
                Some(key) => key,
                None => self.fixed,
            },
        }
    }

    fn position(&self, key: RoomKey) -> (at: Option<usize>)
        ensures
            match at {
                Some(i) => i < self.rooms@.len() && self.rooms@[i as int].spec_key() == key
                    && self@.dom().contains(key),
                None => !self@.dom().contains(key),
            },
    {
        let mut i: usize = 0;
        while i < self.rooms.len()
            invariant
                i <= self.rooms.len(),
                forall|k: int| 0 <= k < i ==> (#[trigger] self.rooms@[k]).spec_key() != key,
            decreases self.rooms.len() - i,
        {
            if self.rooms[i].key() == key {
                proof {
                    rooms_map_dom(self.rooms@, key);
                }
                return Some(i);
            }
            i += 1;
        }
        proof {
            rooms_map_dom(self.rooms@, key);
        }
        None
    }

    /// Whether there is a room with the key `key`.
    pub fn has_room(&self, key: RoomKey) -> (present: bool)
        ensures
            present == self@.dom().contains(key),
    {
        self.position(key).is_some()
    }

    /// The room in which the peer `id` is a member, if it is in one.
    pub fn room_of(&self, id: PeerId) -> (key: Option<RoomKey>)
        requires
            self.wf(),
        ensures
            key is Some <==> registered(self@, id),
            key matches Some(k) ==> self@.dom().contains(k) && has_member(self@[k], id),
    {
        let mut i: usize = 0;
        while i < self.rooms.len()
            invariant
                self.wf(),
                i <= self.rooms.len(),
                forall|k: int| 0 <= k < i ==> !has_member((#[trigger] self.rooms@[k])@, id),
            decreases self.rooms.len() - i,
        {
            if self.rooms[i].contains(id) {
                proof {
                    rooms_map_at(self.rooms@, i as int);
                }
                return Some(self.rooms[i].key());
            }
            i += 1;
        }
        proof {
            assert forall|key: RoomKey| self@.dom().contains(key) implies !has_member(
                #[trigger] self@[key],
                id,
            ) by {
                rooms_map_dom(self.rooms@, key);
                let k = choose|k: int|
                    0 <= k < self.rooms@.len() && #[trigger] self.rooms@[k].spec_key() == key;
                rooms_map_at(self.rooms@, k);
            }
        }
        None
    }

    /// The members of the room `key` in the order in which they joined, none
    /// where there is no such room.
    pub fn members(&self, key: RoomKey) -> (snapshot: Vec<Peer>)
        requires
            self.wf(),
        ensures
            snapshot@ == members(self@, key),
    {
        match self.position(key) {
            Some(i) => {
                proof {
                    rooms_map_at(self.rooms@, i as int);
                }
                self.rooms[i].members()
            },
            None => Vec::new(),
        }
    }

    /// Puts `peer` into the room `key`, which is made if it was not there.
    /// A peer whose identifier is a member of some room already is turned
    /// away, and the registry stays as it is.
    pub fn join(&mut self, key: RoomKey, peer: Peer) -> (accepted: bool)
        requires
            old(self).wf(),
        ensures
            final(self).wf(),
            final(self).policy() == old(self).policy(),
            final(self).fixed_room() == old(self).fixed_room(),
            accepted == !registered(old(self)@, peer.id),
            final(self)@ == joined(old(self)@, key, peer),
    {
        if self.room_of(peer.id).is_some() {
            return false;
        }
        proof {
            joined_is_well_formed(self@, key, peer);
        }
        match self.position(key) {
            Some(i) => {
                let ghost before = self.rooms@;
                proof {
                    rooms_map_at(before, i as int);
                }
                let mut room = self.rooms.remove(i);
                room.join(peer);
                self.rooms.insert(i, room);
                proof {
                    assert(self.rooms@ =~= before.update(i as int, room));
                    rooms_map_update(before, i as int, room);
                }
            },
            None => {
                let mut room = Room::new(key);
                room.join(peer);
                proof {
                    rooms_map_push(self.rooms@, room);
                    assert(room@ =~= Seq::<Peer>::empty().push(peer));
                }
                self.rooms.push(room);
            },
        }
        true
    }

    /// Takes the peer `id` out of the room `key`. Where there is no such
    /// room, or no such member in it, the registry stays as it is.
    pub fn leave(&mut self, key: RoomKey, id: PeerId) -> (removed: bool)
        requires
            old(self).wf(),
        ensures
            final(self).wf(),
            final(self).policy() == old(self).policy(),
            final(self).fixed_room() == old(self).fixed_room(),
            removed == has_member(members(old(self)@, key), id),
            final(self)@ == left(old(self)@, key, id),
    {
        proof {
            left_is_well_formed(self@, key, id);
        }
        match self.position(key) {
            Some(i) => {
                let ghost before = self.rooms@;
                proof {
                    rooms_map_at(before, i as int);
                }
                let mut room = self.rooms.remove(i);
                let removed = room.leave(id);
                self.rooms.insert(i, room);
                proof {
                    assert(self.rooms@ =~= before.update(i as int, room));
                    rooms_map_update(before, i as int, room);
                }
                removed
            },
            None => false,
        }
    }

    /// The deliveries that bring `message` to `audience` within the room
    /// `key`: one for each member that belongs to the audience, in the order
    /// in which the members joined; none where there is no such room.
    pub fn address(&self, key: RoomKey, message: &SignalingMessage, audience: Audience) -> (out:
        Vec<Delivery>)
        requires
            self.wf(),
        ensures
            delivered(out@) == notices(addressed(members(self@, key), audience), message@),
    {
        match self.position(key) {
            Some(i) => {
                proof {
                    rooms_map_at(self.rooms@, i as int);
                }
                self.rooms[i].address(message, audience)
            },
            None => {
                let out: Vec<Delivery> = Vec::new();
                proof {
                    addressed_properties(Seq::<Peer>::empty(), audience);
                    assert(delivered(out@) =~= notices(
                        addressed(members(self@, key), audience),
                        message@,
                    ));
                }
                out
            },
        }
    }

    /// The deliveries that bring `message` to every member of the room `key`
    /// except `exclude`.
    pub fn broadcast(&self, key: RoomKey, message: &SignalingMessage, exclude: Option<PeerId>) -> (out:
        Vec<Delivery>)
        requires
            self.wf(),
        ensures
            delivered(out@) == notices(
                addressed(members(self@, key), sparing(exclude)),
                message@,
            ),
    {
        match exclude {
            Some(id) => self.address(key, message, Audience::AllBut(id)),
            None => self.address(key, message, Audience::Everyone),
        }
    }
}

} // verus!
