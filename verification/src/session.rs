//! The signaling state machine that the relay runs for each connection:
//! a session is announced to its room, serves requests while it is active,
//! and is taken out of the room when it closes. Each step says which
//! deliveries the transport has to make.

use crate::ids::{PeerId, RoomKey};
use crate::registry::{
    assigned, joined, joined_is_well_formed, left, left_is_well_formed, members, registered,
    well_formed, Registry,
};
use crate::room::{
    addressed, addressed_only, addressed_properties, addressed_whole, admits, distinct_ids,
    has_member, without, without_membership, without_stranger, Audience,
};
use crate::signal::{
    delivered, notices, parse_frame, request_in, Delivery, Notice, Peer, PeerRequest, Request,
    Signal, SignalingMessage,
};
use vstd::prelude::*;

verus! {

/// Where a connection stands.
#[derive(Clone, Copy, Debug, PartialEq, Eq, Structural)]
pub enum Session {
    /// Accepted by the transport, not yet known to any room.
    Connecting,
    /// Announced to the room and a member of it.
    Announced { peer: Peer, room: RoomKey },
    /// Serving requests.
    Active { peer: Peer, room: RoomKey },
    /// Over. Nothing follows.
    Closed,
}

/// What the transport hands over for a connection.
#[derive(Debug, PartialEq, Eq)]
pub enum Inbound {
    /// A well-formed request.
    Request(PeerRequest),
    /// A frame that is no request, on a connection that is still open.
    Malformed,
    /// A transport error after which the connection cannot go on.
    Reset,
    /// The peer has closed the connection.
    Close,
    /// The stream of frames has ended.
    EndOfStream,
}

/// The mathematical value of an [`Inbound`].
pub enum Frame {
    Request(Request),
    Malformed,
    Reset,
    Close,
    EndOfStream,
}

impl View for Inbound {
    type V = Frame;

    open spec fn view(&self) -> Frame {
        match self {
            Inbound::Request(request) => Frame::Request(request@),
            Inbound::Malformed => Frame::Malformed,
            Inbound::Reset => Frame::Reset,
            Inbound::Close => Frame::Close,
            Inbound::EndOfStream => Frame::EndOfStream,
        }
    }
}

/// What the text of a frame amounts to: the request that it holds, and a
/// malformed frame where it holds none.
pub open spec fn frame_in(text: Seq<char>) -> Frame {
    match request_in(text) {
        Some(request) => Frame::Request(request),
        None => Frame::Malformed,
    }
}

/// The outcome of one step: where the session stands, what the rooms hold,
/// and the notices to deliver, in their order.
pub struct Step {
    pub session: Session,
    pub rooms: Map<RoomKey, Seq<Peer>>,
    pub notices: Seq<Notice>,
}

/// A step that changes nothing and delivers nothing.
pub open spec fn idle(session: Session, rooms: Map<RoomKey, Seq<Peer>>) -> Step {
    Step { session, rooms, notices: Seq::empty() }
}

/// The announcement of `peer` to the room `room`. Every member of the room
/// is told of the new peer, then the peer becomes the room's last member.
/// A peer whose identifier is a member of some room already is turned away:
/// its session closes and nobody is told. A session that is past
/// `Connecting` stays as it is.
pub open spec fn announced(
    session: Session,
    rooms: Map<RoomKey, Seq<Peer>>,
    room: RoomKey,
    peer: Peer,
) -> Step {
    if !(session is Connecting) {
        idle(session, rooms)
    } else if registered(rooms, peer.id) {
        idle(Session::Closed, rooms)
    } else {
        Step {
            session: Session::Announced { peer, room },
            rooms: joined(rooms, room, peer),
            notices: notices(members(rooms, room), Signal::NewPeer(peer.id)),
        }
    }
}

/// The departure of the peer `id` from the room `room`: the peer is taken
/// out, and every member that stays is told. Where the peer is no member
/// nothing changes and nobody is told.
pub open spec fn departure(rooms: Map<RoomKey, Seq<Peer>>, room: RoomKey, id: PeerId) -> (
    Map<RoomKey, Seq<Peer>>,
    Seq<Notice>,
) {
    if has_member(members(rooms, room), id) {
        (left(rooms, room, id), notices(without(members(rooms, room), id), Signal::PeerLeft(id)))
    } else {
        (rooms, Seq::empty())
    }
}

/// The close of a session. A session that is a member of a room departs from
/// it. Every session ends `Closed`.
pub open spec fn closed(session: Session, rooms: Map<RoomKey, Seq<Peer>>) -> Step {
    match session {
        Session::Announced { peer, room } | Session::Active { peer, room } => Step {
            session: Session::Closed,
            rooms: departure(rooms, room, peer.id).0,
            notices: departure(rooms, room, peer.id).1,
        },
        Session::Connecting | Session::Closed => idle(Session::Closed, rooms),
    }
}

/// Whether a frame ends the connection.
pub open spec fn ends_connection(frame: Frame) -> bool {
    frame is Reset || frame is Close || frame is EndOfStream
}

/// What a frame does to a session. A frame that ends the connection closes
/// the session. Otherwise a session that is a member of a room is active
/// from then on: a signal goes to its receiver if that peer is a member of
/// the same room, with the session's peer as the sender, and is dropped if
/// not; a keep-alive and a malformed frame do nothing else. A session that
/// is `Connecting` or `Closed` ignores every other frame.
pub open spec fn received(session: Session, rooms: Map<RoomKey, Seq<Peer>>, frame: Frame) -> Step {
    if ends_connection(frame) {
        closed(session, rooms)
    } else {
        match session {
            Session::Announced { peer, room } | Session::Active { peer, room } => match frame {
                Frame::Request(Request::Signal { receiver, payload }) => Step {
                    session: Session::Active { peer, room },
                    rooms,
                    notices: notices(
                        addressed(members(rooms, room), Audience::Only(receiver)),
                        Signal::Signal { sender: peer.id, receiver, payload },
                    ),
                },
                _ => idle(Session::Active { peer, room }, rooms),
            },
            Session::Connecting | Session::Closed => idle(session, rooms),
        }
    }
}

/// When a peer joins a room, every peer that was a member before is told of
/// it exactly once, in the order in which the members joined, and the
/// newcomer is told nothing.
pub proof fn newcomer_is_told_to_the_others(
    rooms: Map<RoomKey, Seq<Peer>>,
    room: RoomKey,
    peer: Peer,
)
    requires
        well_formed(rooms),
        !registered(rooms, peer.id),
    ensures
        ({
            let step = announced(Session::Connecting, rooms, room, peer);
            let before = members(rooms, room);
            &&& step.session == Session::Announced { peer, room }
            &&& well_formed(step.rooms)
            &&& members(step.rooms, room) == before.push(peer)
            &&& distinct_ids(before)
            &&& step.notices.len() == before.len()
            &&& forall|i: int|
                0 <= i < before.len() ==> #[trigger] step.notices[i] == Notice {
                    to: before[i],
                    message: Signal::NewPeer(peer.id),
                }
            &&& forall|i: int|
                0 <= i < step.notices.len() ==> (#[trigger] step.notices[i]).to.id != peer.id
        }),
{
    let step = announced(Session::Connecting, rooms, room, peer);
    let before = members(rooms, room);
    joined_is_well_formed(rooms, room, peer);
    assert(!has_member(before, peer.id));
    assert forall|i: int| 0 <= i < step.notices.len() implies (#[trigger] step.notices[i]).to.id
        != peer.id by {
        assert(before[i].id != peer.id);
    }
}

/// A signal is delivered to its receiver and to nobody else, with the
/// session's peer as the sender, and the rooms stay as they are. Where the
/// receiver is no member of the sender's room, nothing is delivered.
pub proof fn signal_reaches_its_receiver_only(
    rooms: Map<RoomKey, Seq<Peer>>,
    peer: Peer,
    room: RoomKey,
    receiver: PeerId,
    payload: Seq<char>,
)
    requires
        well_formed(rooms),
    ensures
        ({
            let session = Session::Active { peer, room };
            let step = received(
                session,
                rooms,
                Frame::Request(Request::Signal { receiver, payload }),
            );
            &&& step.session == session
            &&& step.rooms == rooms
            &&& step.notices.len() == if has_member(members(rooms, room), receiver) {
                1nat
            } else {
                0nat
            }
            &&& forall|i: int|
                0 <= i < step.notices.len() ==> (#[trigger] step.notices[i]).to.id == receiver
                    && step.notices[i].message == Signal::Signal {
                    sender: peer.id,
                    receiver,
                    payload,
                }
        }),
{
    addressed_only(members(rooms, room), receiver);
}

/// When a member leaves its room, every member that stays is told of it
/// exactly once, in the order in which the members joined, the peer that
/// left is told nothing, and it is a member of no room any more.
pub proof fn departure_is_told_to_the_survivors(
    rooms: Map<RoomKey, Seq<Peer>>,
    room: RoomKey,
    id: PeerId,
)
    requires
        well_formed(rooms),
        has_member(members(rooms, room), id),
    ensures
        ({
            let after = departure(rooms, room, id).0;
            let told = departure(rooms, room, id).1;
            let stay = without(members(rooms, room), id);
            &&& well_formed(after)
            &&& members(after, room) == stay
            &&& !registered(after, id)
            &&& distinct_ids(stay)
            &&& forall|other: PeerId|
                other != id ==> (#[trigger] has_member(stay, other) <==> has_member(
                    members(rooms, room),
                    other,
                ))
            &&& told.len() == stay.len()
            &&& forall|i: int|
                0 <= i < stay.len() ==> #[trigger] told[i] == Notice {
                    to: stay[i],
                    message: Signal::PeerLeft(id),
                }
            &&& forall|i: int| 0 <= i < told.len() ==> (#[trigger] told[i]).to.id != id
        }),
{
    let after = departure(rooms, room, id).0;
    let told = departure(rooms, room, id).1;
    let all = members(rooms, room);
    let stay = without(all, id);
    left_is_well_formed(rooms, room, id);
    addressed_properties(all, Audience::AllBut(id));
    assert forall|other: PeerId| other != id implies (#[trigger] has_member(stay, other)
        <==> has_member(all, other)) by {
        without_membership(all, id, other);
    }
    without_membership(all, id, id);
    assert forall|i: int| 0 <= i < told.len() implies (#[trigger] told[i]).to.id != id by {
        assert(admits(Audience::AllBut(id), stay[i]));
    }
    assert(!registered(after, id)) by {
        if registered(after, id) {
            let key = choose|key: RoomKey|
                after.dom().contains(key) && has_member(#[trigger] after[key], id);
            assert(key != room);
            assert(after[key] == rooms[key]);
            assert(has_member(rooms[room], id));
            assert(has_member(rooms[key], id));
        }
    }
}

/// Nothing can be addressed to a peer that is a member of no room, whatever
/// the room, the audience and the message.
pub proof fn nothing_reaches_a_stranger(
    rooms: Map<RoomKey, Seq<Peer>>,
    room: RoomKey,
    id: PeerId,
    audience: Audience,
    message: Signal,
)
    requires
        !registered(rooms, id),
    ensures
        forall|i: int|
            0 <= i < notices(addressed(members(rooms, room), audience), message).len() ==> (
            #[trigger] notices(addressed(members(rooms, room), audience), message)[i]).to.id != id,
{
    let all = members(rooms, room);
    let picked = addressed(all, audience);
    addressed_properties(all, audience);
    assert forall|i: int| 0 <= i < picked.len() implies (#[trigger] picked[i]).id != id by {
        assert(all.contains(picked[i]));
        let k = choose|k: int| 0 <= k < all.len() && all[k] == picked[i];
        if all[k].id == id {
            assert(has_member(rooms[room], id));
        }
    }
    assert forall|i: int|
        0 <= i < notices(picked, message).len() implies (#[trigger] notices(
        picked,
        message,
    )[i]).to.id != id by {
        assert(picked[i].id != id);
    }
}

/// Leaving twice tells the members once: the second departure of the same
/// peer from the same room changes nothing and tells nobody. So does the
/// second close of a session.
pub proof fn second_departure_is_silent(
    rooms: Map<RoomKey, Seq<Peer>>,
    room: RoomKey,
    id: PeerId,
    session: Session,
)
    ensures
        departure(departure(rooms, room, id).0, room, id) == (
            departure(rooms, room, id).0,
            Seq::<Notice>::empty(),
        ),
        closed(closed(session, rooms).session, closed(session, rooms).rooms) == idle(
            Session::Closed,
            closed(session, rooms).rooms,
        ),
{
    without_membership(members(rooms, room), id, id);
}

impl Inbound {
    /// Takes the text of a frame for what it amounts to.
    pub fn from_text(text: &str) -> (inbound: Inbound)
        ensures
            inbound@ == frame_in(text@),
    {
        match parse_frame(text) {
            Some(request) => Inbound::Request(request),
            None => Inbound::Malformed,
        }
    }

    /// Whether the frame ends the connection.
    pub fn ends_connection(&self) -> (ends: bool)
        ensures
            ends == ends_connection(self@),
    {
        match self {
            Inbound::Reset | Inbound::Close | Inbound::EndOfStream => true,
            _ => false,
        }
    }
}

impl Session {
    /// A session that the transport has just accepted.
    pub fn new() -> (session: Session)
        ensures
            session == Session::Connecting,
    {
        Session::Connecting
    }

    /// Whether the session is over.
    pub fn is_closed(&self) -> (over: bool)
        ensures
            over == (*self is Closed),
    {
        match self {
            Session::Closed => true,
            _ => false,
        }
    }

    /// Announces `peer`, whose session asks for the room `requested`, and
    /// makes it a member of the room that the registry assigns.
    pub fn announce(
        &mut self,
        registry: &mut Registry,
        peer: Peer,
        requested: Option<RoomKey>,
    ) -> (out: Vec<Delivery>)
        requires
            old(registry).wf(),
        ensures
            final(registry).wf(),
            final(registry).policy() == old(registry).policy(),
            final(registry).fixed_room() == old(registry).fixed_room(),
            ({
                let room = assigned(old(registry).policy(), old(registry).fixed_room(), requested);
                let step = announced(*old(self), old(registry)@, room, peer);
                &&& *final(self) == step.session
                &&& final(registry)@ == step.rooms
                &&& delivered(out@) == step.notices
            }),
    {
        let room = registry.assign_room(requested);
        let current = *self;
        match current {
            Session::Connecting => {
                if registry.room_of(peer.id).is_some() {
                    *self = Session::Closed;
                    return nothing();
                }
                let message = SignalingMessage::NewPeer(peer.id);
                let out = registry.address(room, &message, Audience::Everyone);
                proof {
                    addressed_whole(members(registry@, room), Audience::Everyone);
                }
                registry.join(room, peer);
                *self = Session::Announced { peer, room };
                out
            },
            _ => nothing(),
        }
    }

    /// Closes the session: its peer leaves its room, and the members that
    /// stay are told.
    pub fn close(&mut self, registry: &mut Registry) -> (out: Vec<Delivery>)
        requires
            old(registry).wf(),
        ensures
            final(registry).wf(),
            final(registry).policy() == old(registry).policy(),
            final(registry).fixed_room() == old(registry).fixed_room(),
            ({
                let step = closed(*old(self), old(registry)@);
                &&& *final(self) == step.session
                &&& final(registry)@ == step.rooms
                &&& delivered(out@) == step.notices
            }),
    {
        let current = *self;
        let out = match current {
            Session::Announced { peer, room } | Session::Active { peer, room } => depart(
                registry,
                room,
                peer.id,
            ),
            _ => nothing(),
        };
        *self = Session::Closed;
        out
    }

    /// Takes one frame of the connection.
    pub fn receive(&mut self, registry: &mut Registry, inbound: Inbound) -> (out: Vec<Delivery>)
        requires
            old(registry).wf(),
        ensures
            final(registry).wf(),
            final(registry).policy() == old(registry).policy(),
            final(registry).fixed_room() == old(registry).fixed_room(),
            ({
                let step = received(*old(self), old(registry)@, inbound@);
                &&& *final(self) == step.session
                &&& final(registry)@ == step.rooms
                &&& delivered(out@) == step.notices
            }),
    {
        let current = *self;
        match inbound {
            Inbound::Reset | Inbound::Close | Inbound::EndOfStream => self.close(registry),
            Inbound::Request(PeerRequest::Signal { receiver, payload }) => match current {
                Session::Announced { peer, room } | Session::Active { peer, room } => {
                    let message = SignalingMessage::Signal { sender: peer.id, receiver, payload };
                    let out = registry.address(room, &message, Audience::Only(receiver));
                    *self = Session::Active { peer, room };
                    out
                },
                _ => nothing(),
            },
            Inbound::Request(PeerRequest::KeepAlive) | Inbound::Malformed => match current {
                Session::Announced { peer, room } | Session::Active { peer, room } => {
                    *self = Session::Active { peer, room };
                    nothing()
                },
                _ => nothing(),
            },
        }
    }
}

fn nothing() -> (out: Vec<Delivery>)
    ensures
        delivered(out@) == Seq::<Notice>::empty(),
{
    let out: Vec<Delivery> = Vec::new();
    assert(delivered(out@) =~= Seq::<Notice>::empty());
    out
}

/// Takes the peer `id` out of the room `room` and tells the members that
/// stay. Where the peer is no member nothing changes and nobody is told.
pub fn depart(registry: &mut Registry, room: RoomKey, id: PeerId) -> (out: Vec<Delivery>)
    requires
        old(registry).wf(),
    ensures
        final(registry).wf(),
        final(registry).policy() == old(registry).policy(),
        final(registry).fixed_room() == old(registry).fixed_room(),
        final(registry)@ == departure(old(registry)@, room, id).0,
        delivered(out@) == departure(old(registry)@, room, id).1,
{
    let removed = registry.leave(room, id);
    if removed {
        let message = SignalingMessage::PeerLeft(id);
        let out = registry.address(room, &message, Audience::Everyone);
        proof {
            addressed_whole(members(registry@, room), Audience::Everyone);
        }
        out
    } else {
        proof {
            without_stranger(members(old(registry)@, room), id);
            assert(registry@ =~= old(registry)@);
        }
        nothing()
    }
}

} // verus!
