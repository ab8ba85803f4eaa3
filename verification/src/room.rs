//! One room: its members in the order in which they joined, with no
//! identifier twice.

use crate::ids::{PeerId, RoomKey};
use crate::signal::{delivered, notices, Delivery, Notice, Peer, SignalingMessage};
use vstd::prelude::*;

verus! {

/// Whether some peer of `peers` has the identifier `id`.
pub open spec fn has_member(peers: Seq<Peer>, id: PeerId) -> bool {
    exists|i: int| 0 <= i < peers.len() && #[trigger] peers[i].id == id
}

/// No two peers of `peers` share an identifier.
pub open spec fn distinct_ids(peers: Seq<Peer>) -> bool {
    forall|i: int, j: int|
        0 <= i < j < peers.len() ==> #[trigger] peers[i].id != #[trigger] peers[j].id
}

/// The identifiers of the members, as a set.
pub open spec fn member_set(peers: Seq<Peer>) -> Set<PeerId> {
    Set::new(|id: PeerId| has_member(peers, id))
}

/// To whom a message goes.
#[derive(Clone, Copy, Debug, PartialEq, Eq, Structural)]
pub enum Audience {
    /// Every member of the room.
    Everyone,
    /// Every member but the one with this identifier.
    AllBut(PeerId),
    /// The member with this identifier, if there is one.
    Only(PeerId),
}

/// Whether `peer` belongs to `audience`.
pub open spec fn admits(audience: Audience, peer: Peer) -> bool {
    match audience {
        Audience::Everyone => true,
        Audience::AllBut(id) => peer.id != id,
        Audience::Only(id) => peer.id == id,
    }
}

/// The members that belong to `audience`, in the order in which they joined.
pub open spec fn addressed(peers: Seq<Peer>, audience: Audience) -> Seq<Peer> {
    peers.filter(|peer: Peer| admits(audience, peer))
}

/// The members that stay when the peer `id` leaves.
pub open spec fn without(peers: Seq<Peer>, id: PeerId) -> Seq<Peer> {
    addressed(peers, Audience::AllBut(id))
}

/// The audience of a broadcast that spares `exclude`.
pub open spec fn sparing(exclude: Option<PeerId>) -> Audience {
    match exclude {
        Some(id) => Audience::AllBut(id),
        None => Audience::Everyone,
    }
}

/// Every addressed peer is a member and belongs to the audience, every
/// member that belongs to the audience is addressed, and the addressed peers
/// keep the order and the distinctness of the members.
pub proof fn addressed_properties(peers: Seq<Peer>, audience: Audience)
    ensures
        addressed(peers, audience).len() <= peers.len(),
        forall|i: int|
            0 <= i < addressed(peers, audience).len() ==> admits(
                audience,
                #[trigger] addressed(peers, audience)[i],
            ) && peers.contains(addressed(peers, audience)[i]),
        forall|i: int|
            0 <= i < peers.len() && admits(audience, #[trigger] peers[i]) ==> addressed(
                peers,
                audience,
            ).contains(peers[i]),
        distinct_ids(peers) ==> distinct_ids(addressed(peers, audience)),
    decreases peers.len(),
{
    let pred = |peer: Peer| admits(audience, peer);
    let all = addressed(peers, audience);
    if peers.len() > 0 {
        let rest = peers.drop_last();
        let last = peers.last();
        let kept = addressed(rest, audience);
        assert(peers =~= rest.push(last));
        rest.lemma_filter_push(last, pred);
        addressed_properties(rest, audience);
        assert forall|i: int| 0 <= i < all.len() implies admits(audience, #[trigger] all[i])
            && peers.contains(all[i]) by {
            if i < kept.len() {
                assert(rest.contains(kept[i]));
                let k = choose|k: int| 0 <= k < rest.len() && rest[k] == kept[i];
                assert(peers[k] == all[i]);
            } else {
                assert(peers[peers.len() - 1] == all[i]);
            }
        }
        assert forall|i: int| 0 <= i < peers.len() && admits(audience, #[trigger] peers[i])
            implies all.contains(peers[i]) by {
            if i < rest.len() {
                assert(admits(audience, rest[i]));
                assert(kept.contains(rest[i]));
                let k = choose|k: int| 0 <= k < kept.len() && kept[k] == rest[i];
                assert(all[k] == peers[i]);
            } else {
                assert(all[all.len() - 1] == peers[i]);
            }
        }
        if distinct_ids(peers) {
            assert(distinct_ids(rest));
            if admits(audience, last) {
                assert forall|i: int, j: int| 0 <= i < j < all.len() implies all[i].id
                    != all[j].id by {
                    if j == kept.len() {
                        assert(rest.contains(kept[i]));
                        let k = choose|k: int| 0 <= k < rest.len() && rest[k] == kept[i];
                        assert(peers[k].id != peers[peers.len() - 1].id);
                    } else {
                        assert(kept[i].id != kept[j].id);
                    }
                }
            }
        }
    } else {
        reveal(Seq::filter);
    }
}

/// Membership after a peer has left: the peer is gone, and every other
/// identifier is a member exactly if it was one.
pub proof fn without_membership(peers: Seq<Peer>, id: PeerId, other: PeerId)
    ensures
        !has_member(without(peers, id), id),
        other != id ==> (has_member(without(peers, id), other) <==> has_member(peers, other)),
{
    let rest = without(peers, id);
    addressed_properties(peers, Audience::AllBut(id));
    if has_member(rest, id) {
        let i = choose|i: int| 0 <= i < rest.len() && #[trigger] rest[i].id == id;
        assert(admits(Audience::AllBut(id), rest[i]));
    }
    if other != id {
        if has_member(rest, other) {
            let i = choose|i: int| 0 <= i < rest.len() && #[trigger] rest[i].id == other;
            assert(peers.contains(rest[i]));
            let k = choose|k: int| 0 <= k < peers.len() && peers[k] == rest[i];
            assert(peers[k].id == other);
        }
        if has_member(peers, other) {
            let k = choose|k: int| 0 <= k < peers.len() && #[trigger] peers[k].id == other;
            assert(admits(Audience::AllBut(id), peers[k]));
            assert(rest.contains(peers[k]));
            let i = choose|i: int| 0 <= i < rest.len() && rest[i] == peers[k];
            assert(rest[i].id == other);
        }
    }
}

/// Where every member belongs to the audience, all members are addressed.
pub proof fn addressed_whole(peers: Seq<Peer>, audience: Audience)
    requires
        forall|i: int| 0 <= i < peers.len() ==> admits(audience, #[trigger] peers[i]),
    ensures
        addressed(peers, audience) == peers,
    decreases peers.len(),
{
    let pred = |peer: Peer| admits(audience, peer);
    if peers.len() > 0 {
        let rest = peers.drop_last();
        let last = peers.last();
        assert(peers =~= rest.push(last));
        rest.lemma_filter_push(last, pred);
        assert forall|i: int| 0 <= i < rest.len() implies admits(audience, #[trigger] rest[i]) by {
            assert(rest[i] == peers[i]);
        }
        addressed_whole(rest, audience);
        assert(admits(audience, peers[peers.len() - 1]));
    } else {
        reveal(Seq::filter);
    }
}

/// Leaving changes nothing where the peer is no member.
pub proof fn without_stranger(peers: Seq<Peer>, id: PeerId)
    requires
        !has_member(peers, id),
    ensures
        without(peers, id) == peers,
{
    assert forall|i: int| 0 <= i < peers.len() implies admits(
        Audience::AllBut(id),
        #[trigger] peers[i],
    ) by {
        assert(peers[i].id != id);
    }
    addressed_whole(peers, Audience::AllBut(id));
}

/// Among members with distinct identifiers, a message for one peer has one
/// receiver where that peer is a member, and none where it is not.
pub proof fn addressed_only(peers: Seq<Peer>, id: PeerId)
    requires
        distinct_ids(peers),
    ensures
        addressed(peers, Audience::Only(id)).len() == if has_member(peers, id) {
            1nat
        } else {
            0nat
        },
        forall|i: int|
            0 <= i < addressed(peers, Audience::Only(id)).len() ==> (#[trigger] addressed(
                peers,
                Audience::Only(id),
            )[i]).id == id,
{
    let found = addressed(peers, Audience::Only(id));
    addressed_properties(peers, Audience::Only(id));
    assert forall|i: int| 0 <= i < found.len() implies (#[trigger] found[i]).id == id by {
        assert(admits(Audience::Only(id), found[i]));
    }
    if found.len() >= 2 {
        assert(found[0].id != found[1].id);
    }
    if has_member(peers, id) {
        let k = choose|k: int| 0 <= k < peers.len() && #[trigger] peers[k].id == id;
        assert(admits(Audience::Only(id), peers[k]));
        assert(found.contains(peers[k]));
    }
    if found.len() >= 1 {
        assert(peers.contains(found[0]));
        let k = choose|k: int| 0 <= k < peers.len() && peers[k] == found[0];
        assert(peers[k].id == id);
    }
}

/// A room of the relay.
#[derive(Debug)]
pub struct Room {
    key: RoomKey,
    peers: Vec<Peer>,
}

impl View for Room {
    type V = Seq<Peer>;

    closed spec fn view(&self) -> Seq<Peer> {
        self.peers@
    }
}

impl Room {
    /// The key of the room.
    pub closed spec fn spec_key(&self) -> RoomKey {
        self.key
    }

    /// The room's invariant: no identifier occurs twice among its members.
    pub open spec fn wf(&self) -> bool {
        distinct_ids(self@)
    }

    /// An empty room.
    pub fn new(key: RoomKey) -> (room: Room)
        ensures
            room.wf(),
            room.spec_key() == key,
            room@ == Seq::<Peer>::empty(),
    {
        Room { key, peers: Vec::new() }
    }

    /// The key of the room.
    pub fn key(&self) -> (key: RoomKey)
        ensures
            key == self.spec_key(),
    {
        self.key
    }

    /// How many members the room has.
    pub fn len(&self) -> (n: usize)
        ensures
            n == self@.len(),
    {
        self.peers.len()
    }

    /// The member with the identifier `id`, if there is one.
    pub fn find(&self, id: PeerId) -> (found: Option<Peer>)
        ensures
            match found {
                Some(peer) => peer.id == id && self@.contains(peer),
                None => !has_member(self@, id),
            },
    {
        let mut i: usize = 0;
        while i < self.peers.len()
            invariant
                i <= self.peers.len(),
                forall|k: int| 0 <= k < i ==> (#[trigger] self.peers@[k]).id != id,
            decreases self.peers.len() - i,
        {
            if self.peers[i].id == id {
                return Some(self.peers[i]);
            }
            i += 1;
        }
        None
    }

    /// Whether the room has a member with the identifier `id`.
    pub fn contains(&self, id: PeerId) -> (present: bool)
        ensures
            present == has_member(self@, id),
    {
        match self.find(id) {
            Some(peer) => {
                proof {
                    let k = choose|k: int| 0 <= k < self@.len() && self@[k] == peer;
                    assert(self@[k].id == id);
                }
                true
            },
            None => false,
        }
    }

    /// The members, in the order in which they joined.
    pub fn members(&self) -> (snapshot: Vec<Peer>)
        ensures
            snapshot@ == self@,
    {
        let mut snapshot: Vec<Peer> = Vec::new();
        let mut i: usize = 0;
        while i < self.peers.len()
            invariant
                i <= self.peers.len(),
                snapshot@ == self.peers@.take(i as int),
            decreases self.peers.len() - i,
        {
            snapshot.push(self.peers[i]);
            i += 1;
            assert(snapshot@ =~= self.peers@.take(i as int));
        }
        assert(self.peers@.take(i as int) =~= self.peers@);
        snapshot
    }

    /// Adds `peer` behind the members, unless its identifier is taken.
    pub fn join(&mut self, peer: Peer) -> (joined: bool)
        requires
            old(self).wf(),
        ensures
            final(self).wf(),
            final(self).spec_key() == old(self).spec_key(),
            joined == !has_member(old(self)@, peer.id),
            final(self)@ == if joined {
                old(self)@.push(peer)
            } else {
                old(self)@
            },
    {
        if self.contains(peer.id) {
            false
        } else {
            self.peers.push(peer);
            true
        }
    }

    /// Removes the member with the identifier `id`. Where there is none the
    /// room stays as it is.
    pub fn leave(&mut self, id: PeerId) -> (removed: bool)
        requires
            old(self).wf(),
        ensures
            final(self).wf(),
            final(self).spec_key() == old(self).spec_key(),
            removed == has_member(old(self)@, id),
            final(self)@ == without(old(self)@, id),
    {
        let ghost pred = |peer: Peer| admits(Audience::AllBut(id), peer);
        let mut kept: Vec<Peer> = Vec::new();
        let mut removed = false;
        let mut i: usize = 0;
        proof {
            reveal(Seq::filter);
            assert(self.peers@.take(0) =~= Seq::empty());
        }
        while i < self.peers.len()
            invariant
                i <= self.peers.len(),
                pred == |peer: Peer| admits(Audience::AllBut(id), peer),
                kept@ == self.peers@.take(i as int).filter(pred),
                removed == has_member(self.peers@.take(i as int), id),
            decreases self.peers.len() - i,
        {
            let peer = self.peers[i];
            proof {
                self.peers@.lemma_take_succ_push(i as int);
                self.peers@.take(i as int).lemma_filter_push(peer, pred);
                let before = self.peers@.take(i as int);
                let after = self.peers@.take(i + 1);
                if has_member(before, id) {
                    let k = choose|k: int| 0 <= k < before.len() && #[trigger] before[k].id == id;
                    assert(after[k].id == id);
                }
                if peer.id == id {
                    assert(after[i as int].id == id);
                }
                if has_member(after, id) && peer.id != id {
                    let k = choose|k: int| 0 <= k < after.len() && #[trigger] after[k].id == id;
                    assert(before[k].id == id);
                }
            }
            if peer.id == id {
                removed = true;
            } else {
                kept.push(peer);
            }
            i += 1;
        }
        proof {
            assert(self.peers@.take(i as int) =~= self.peers@);
            addressed_properties(self.peers@, Audience::AllBut(id));
        }
        self.peers = kept;
        removed
    }

    /// The deliveries that bring `message` to `audience`: one for each member
    /// that belongs to it, in the order in which the members joined.
    pub fn address(&self, message: &SignalingMessage, audience: Audience) -> (out: Vec<Delivery>)
        ensures
            delivered(out@) == notices(addressed(self@, audience), message@),
    {
        let ghost pred = |peer: Peer| admits(audience, peer);
        let mut out: Vec<Delivery> = Vec::new();
        let mut i: usize = 0;
        proof {
            reveal(Seq::filter);
            assert(self.peers@.take(0) =~= Seq::empty());
            assert(delivered(out@) =~= notices(self.peers@.take(0).filter(pred), message@));
        }
        while i < self.peers.len()
            invariant
                i <= self.peers.len(),
                pred == |peer: Peer| admits(audience, peer),
                delivered(out@) == notices(self.peers@.take(i as int).filter(pred), message@),
            decreases self.peers.len() - i,
        {
            let peer = self.peers[i];
            let wanted = match audience {
                Audience::Everyone => true,
                Audience::AllBut(id) => peer.id != id,
                Audience::Only(id) => peer.id == id,
            };
            let ghost so_far = out@;
            let ghost picked = self.peers@.take(i as int).filter(pred);
            proof {
                self.peers@.lemma_take_succ_push(i as int);
                self.peers@.take(i as int).lemma_filter_push(peer, pred);
            }
            if wanted {
                let next = Delivery { to: peer, message: message.duplicate() };
                out.push(next);
                proof {
                    let notice = Notice { to: peer, message: message@ };
                    assert(delivered(out@) =~= delivered(so_far).push(notice));
                    assert(notices(picked.push(peer), message@) =~= notices(picked, message@).push(
                        notice,
                    ));
                }
            }
            i += 1;
        }
        assert(self.peers@.take(i as int) =~= self.peers@);
        out
    }

    /// The deliveries that bring `message` to every member except `exclude`.
    pub fn broadcast(&self, message: &SignalingMessage, exclude: Option<PeerId>) -> (out: Vec<
        Delivery,
    >)
        ensures
            delivered(out@) == notices(addressed(self@, sparing(exclude)), message@),
    {
        match exclude {
            Some(id) => self.address(message, Audience::AllBut(id)),
            None => self.address(message, Audience::Everyone),
        }
    }
}

} // verus!
