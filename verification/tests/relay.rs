use matchlib::bridge::{send_message, Bridge, PeerState};
use matchlib::ids::{default_room, PeerId, RoomKey};
use matchlib::registry::{Registry, RoomPolicy};
use matchlib::room::{Audience, Room};
use matchlib::session::{depart, Inbound, Session};
use matchlib::signal::{Delivery, Peer, PeerRequest, SignalingMessage};

const A: Peer = Peer { id: PeerId(0xaaaaaaaa_0000_0000_0000_00000000000a), channel: 1 };
const B: Peer = Peer { id: PeerId(0xbbbbbbbb_0000_0000_0000_00000000000b), channel: 2 };
const C: Peer = Peer { id: PeerId(0xcccccccc_0000_0000_0000_00000000000c), channel: 3 };
const LOBBY: RoomKey = RoomKey(7);
const ATTIC: RoomKey = RoomKey(8);

fn new_peer(to: Peer, who: Peer) -> Delivery {
    Delivery { to, message: SignalingMessage::NewPeer(who.id) }
}

fn peer_left(to: Peer, who: Peer) -> Delivery {
    Delivery { to, message: SignalingMessage::PeerLeft(who.id) }
}

fn signal(receiver: Peer, payload: &str) -> Inbound {
    Inbound::Request(PeerRequest::Signal { receiver: receiver.id, payload: payload.to_string() })
}

fn admitted(registry: &mut Registry, peer: Peer) -> Session {
    let mut session = Session::new();
    session.announce(registry, peer, None);
    session
}

#[test]
fn room_keeps_join_order_and_refuses_a_second_join() {
    let mut room = Room::new(LOBBY);
    assert_eq!(room.key(), LOBBY);
    assert!(room.join(B));
    assert!(room.join(A));
    assert!(!room.join(Peer { id: B.id, channel: 99 }));
    assert_eq!(room.members(), vec![B, A]);
    assert_eq!(room.len(), 2);
    assert!(room.contains(A.id));
    assert!(!room.contains(C.id));
    assert_eq!(room.find(B.id), Some(B));
    assert_eq!(room.find(C.id), None);
}

#[test]
fn room_leave_is_idempotent() {
    let mut room = Room::new(LOBBY);
    room.join(A);
    room.join(B);
    room.join(C);
    assert!(room.leave(B.id));
    assert_eq!(room.members(), vec![A, C]);
    assert!(!room.leave(B.id));
    assert_eq!(room.members(), vec![A, C]);
}

#[test]
fn room_addresses_each_audience() {
    let mut room = Room::new(LOBBY);
    room.join(A);
    room.join(B);
    room.join(C);
    let message = SignalingMessage::KeepAlive;
    let keep = |to: Peer| Delivery { to, message: SignalingMessage::KeepAlive };
    assert_eq!(room.address(&message, Audience::Everyone), vec![keep(A), keep(B), keep(C)]);
    assert_eq!(room.address(&message, Audience::AllBut(B.id)), vec![keep(A), keep(C)]);
    assert_eq!(room.address(&message, Audience::Only(C.id)), vec![keep(C)]);
    assert_eq!(room.address(&message, Audience::Only(PeerId(5))), vec![]);
    assert_eq!(room.broadcast(&message, Some(A.id)), vec![keep(B), keep(C)]);
    assert_eq!(room.broadcast(&message, None), vec![keep(A), keep(B), keep(C)]);
}

#[test]
fn new_registry_has_the_default_room() {
    let registry = Registry::new();
    assert!(registry.has_room(default_room()));
    assert!(!registry.has_room(LOBBY));
    assert!(registry.members(default_room()).is_empty());
    assert_eq!(registry.assign_room(None), default_room());
    assert_eq!(registry.assign_room(Some(LOBBY)), default_room());
}

#[test]
fn keyed_registry_routes_by_the_requested_key() {
    let registry = Registry::with_policy(RoomPolicy::Keyed, LOBBY);
    assert_eq!(registry.assign_room(None), LOBBY);
    assert_eq!(registry.assign_room(Some(ATTIC)), ATTIC);
    let single = Registry::with_policy(RoomPolicy::Single, LOBBY);
    assert_eq!(single.assign_room(Some(ATTIC)), LOBBY);
}

#[test]
fn members_follow_joins_and_leaves() {
    let mut registry = Registry::with_policy(RoomPolicy::Keyed, LOBBY);
    assert!(registry.join(LOBBY, A));
    assert!(registry.join(ATTIC, B));
    assert!(registry.join(LOBBY, C));
    assert_eq!(registry.members(LOBBY), vec![A, C]);
    assert_eq!(registry.members(ATTIC), vec![B]);
    assert!(registry.leave(LOBBY, A.id));
    assert_eq!(registry.members(LOBBY), vec![C]);
    assert!(registry.join(ATTIC, A));
    assert_eq!(registry.members(ATTIC), vec![B, A]);
    assert!(registry.leave(ATTIC, B.id));
    assert!(registry.leave(ATTIC, A.id));
    assert!(registry.leave(LOBBY, C.id));
    assert!(registry.members(LOBBY).is_empty());
    assert!(registry.members(ATTIC).is_empty());
    assert!(registry.has_room(ATTIC));
}

#[test]
fn no_peer_is_in_two_rooms_or_twice_in_one() {
    let mut registry = Registry::with_policy(RoomPolicy::Keyed, LOBBY);
    assert!(registry.join(LOBBY, A));
    assert!(!registry.join(LOBBY, A));
    assert!(!registry.join(ATTIC, A));
    assert!(!registry.join(ATTIC, Peer { id: A.id, channel: 77 }));
    assert_eq!(registry.members(LOBBY), vec![A]);
    assert!(registry.members(ATTIC).is_empty());
    assert!(!registry.has_room(ATTIC));
    assert_eq!(registry.room_of(A.id), Some(LOBBY));
    assert_eq!(registry.room_of(B.id), None);
}

#[test]
fn leave_of_a_stranger_or_of_an_unknown_room_is_a_no_op() {
    let mut registry = Registry::new();
    registry.join(default_room(), A);
    assert!(!registry.leave(default_room(), B.id));
    assert!(!registry.leave(ATTIC, A.id));
    assert!(!registry.has_room(ATTIC));
    assert_eq!(registry.members(default_room()), vec![A]);
}

#[test]
fn broadcast_spares_the_excluded_peer() {
    let mut registry = Registry::new();
    registry.join(default_room(), A);
    registry.join(default_room(), B);
    registry.join(default_room(), C);
    let message = SignalingMessage::PeerLeft(PeerId(42));
    let left = |to: Peer| Delivery { to, message: SignalingMessage::PeerLeft(PeerId(42)) };
    assert_eq!(registry.broadcast(default_room(), &message, None), vec![left(A), left(B), left(C)]);
    assert_eq!(
        registry.broadcast(default_room(), &message, Some(B.id)),
        vec![left(A), left(C)]
    );
    assert_eq!(registry.broadcast(ATTIC, &message, None), vec![]);
    assert_eq!(
        registry.address(default_room(), &message, Audience::Only(C.id)),
        vec![left(C)]
    );
}

#[test]
fn newcomer_is_announced_to_the_members_only() {
    let mut registry = Registry::new();
    admitted(&mut registry, B);
    admitted(&mut registry, C);
    let mut session = Session::new();
    let out = session.announce(&mut registry, A, None);
    assert_eq!(out, vec![new_peer(B, A), new_peer(C, A)]);
    assert_eq!(session, Session::Announced { peer: A, room: default_room() });
    assert_eq!(registry.members(default_room()), vec![B, C, A]);
}

#[test]
fn first_peer_is_announced_to_nobody() {
    let mut registry = Registry::new();
    let mut session = Session::new();
    assert_eq!(session, Session::Connecting);
    assert!(session.announce(&mut registry, A, None).is_empty());
    assert_eq!(registry.members(default_room()), vec![A]);
}

#[test]
fn announcement_stays_within_the_room() {
    let mut registry = Registry::with_policy(RoomPolicy::Keyed, LOBBY);
    let mut first = Session::new();
    first.announce(&mut registry, A, Some(ATTIC));
    let mut second = Session::new();
    let out = second.announce(&mut registry, B, None);
    assert!(out.is_empty());
    let mut third = Session::new();
    let out = third.announce(&mut registry, C, Some(ATTIC));
    assert_eq!(out, vec![new_peer(A, C)]);
    assert_eq!(third, Session::Announced { peer: C, room: ATTIC });
    assert_eq!(registry.members(ATTIC), vec![A, C]);
    assert_eq!(registry.members(LOBBY), vec![B]);
}

#[test]
fn peer_with_a_taken_identifier_is_turned_away() {
    let mut registry = Registry::new();
    admitted(&mut registry, B);
    admitted(&mut registry, A);
    let mut session = Session::new();
    let out = session.announce(&mut registry, Peer { id: A.id, channel: 50 }, None);
    assert!(out.is_empty());
    assert_eq!(session, Session::Closed);
    assert!(session.is_closed());
    assert_eq!(registry.members(default_room()), vec![B, A]);
}

#[test]
fn second_announcement_of_a_session_is_ignored() {
    let mut registry = Registry::new();
    admitted(&mut registry, B);
    let mut session = admitted(&mut registry, A);
    let out = session.announce(&mut registry, C, None);
    assert!(out.is_empty());
    assert_eq!(session, Session::Announced { peer: A, room: default_room() });
    assert_eq!(registry.members(default_room()), vec![B, A]);
}

#[test]
fn signal_goes_to_its_receiver_only() {
    let mut registry = Registry::new();
    let mut a = admitted(&mut registry, A);
    admitted(&mut registry, B);
    admitted(&mut registry, C);
    let out = a.receive(&mut registry, signal(C, "\"offer\""));
    assert_eq!(
        out,
        vec![Delivery {
            to: C,
            message: SignalingMessage::Signal {
                sender: A.id,
                receiver: C.id,
                payload: "\"offer\"".to_string(),
            },
        }]
    );
    assert_eq!(a, Session::Active { peer: A, room: default_room() });
    assert_eq!(registry.members(default_room()), vec![A, B, C]);
}

#[test]
fn signal_to_an_absent_peer_is_dropped() {
    let mut registry = Registry::new();
    let mut a = admitted(&mut registry, A);
    admitted(&mut registry, B);
    let out = a.receive(&mut registry, signal(C, "\"offer\""));
    assert!(out.is_empty());
    assert_eq!(a, Session::Active { peer: A, room: default_room() });
    assert_eq!(registry.members(default_room()), vec![A, B]);
}

#[test]
fn signal_does_not_cross_rooms() {
    let mut registry = Registry::with_policy(RoomPolicy::Keyed, LOBBY);
    let mut a = Session::new();
    a.announce(&mut registry, A, Some(LOBBY));
    let mut b = Session::new();
    b.announce(&mut registry, B, Some(ATTIC));
    assert!(a.receive(&mut registry, signal(B, "1")).is_empty());
    assert!(b.receive(&mut registry, signal(A, "2")).is_empty());
}

#[test]
fn keep_alive_and_malformed_frames_change_nothing() {
    let mut registry = Registry::new();
    let mut a = admitted(&mut registry, A);
    admitted(&mut registry, B);
    assert!(a.receive(&mut registry, Inbound::Request(PeerRequest::KeepAlive)).is_empty());
    assert_eq!(a, Session::Active { peer: A, room: default_room() });
    assert!(a.receive(&mut registry, Inbound::Malformed).is_empty());
    assert_eq!(a, Session::Active { peer: A, room: default_room() });
    assert_eq!(registry.members(default_room()), vec![A, B]);
}

#[test]
fn departure_is_told_to_the_survivors_only() {
    let mut registry = Registry::new();
    admitted(&mut registry, A);
    let mut b = admitted(&mut registry, B);
    let mut c = admitted(&mut registry, C);
    let out = b.receive(&mut registry, Inbound::Close);
    assert_eq!(out, vec![peer_left(A, B), peer_left(C, B)]);
    assert_eq!(b, Session::Closed);
    assert_eq!(registry.members(default_room()), vec![A, C]);
    assert_eq!(registry.room_of(B.id), None);
    assert!(c.receive(&mut registry, signal(B, "\"late\"")).is_empty());
    let told = registry.broadcast(default_room(), &SignalingMessage::KeepAlive, None);
    assert!(told.iter().all(|delivery| delivery.to.id != B.id));
}

#[test]
fn every_ending_frame_closes_the_session() {
    for ending in [Inbound::Reset, Inbound::Close, Inbound::EndOfStream] {
        let mut registry = Registry::new();
        admitted(&mut registry, A);
        let mut b = admitted(&mut registry, B);
        let out = b.receive(&mut registry, ending);
        assert_eq!(out, vec![peer_left(A, B)]);
        assert!(b.is_closed());
        assert_eq!(registry.members(default_room()), vec![A]);
    }
}

#[test]
fn leaving_twice_is_told_once() {
    let mut registry = Registry::new();
    admitted(&mut registry, A);
    admitted(&mut registry, B);
    admitted(&mut registry, C);
    let first = depart(&mut registry, default_room(), B.id);
    assert_eq!(first, vec![peer_left(A, B), peer_left(C, B)]);
    let second = depart(&mut registry, default_room(), B.id);
    assert!(second.is_empty());
    assert_eq!(registry.members(default_room()), vec![A, C]);
}

#[test]
fn closing_twice_is_told_once() {
    let mut registry = Registry::new();
    admitted(&mut registry, A);
    let mut b = admitted(&mut registry, B);
    assert_eq!(b.close(&mut registry), vec![peer_left(A, B)]);
    assert!(b.close(&mut registry).is_empty());
    assert!(b.receive(&mut registry, Inbound::EndOfStream).is_empty());
    assert_eq!(registry.members(default_room()), vec![A]);
}

#[test]
fn closed_session_ignores_every_frame() {
    let mut registry = Registry::new();
    admitted(&mut registry, A);
    let mut b = admitted(&mut registry, B);
    b.close(&mut registry);
    assert!(b.receive(&mut registry, signal(A, "\"ghost\"")).is_empty());
    assert!(b.receive(&mut registry, Inbound::Malformed).is_empty());
    assert!(b.announce(&mut registry, B, None).is_empty());
    assert_eq!(b, Session::Closed);
    assert_eq!(registry.members(default_room()), vec![A]);
}

#[test]
fn connecting_session_serves_no_request() {
    let mut registry = Registry::new();
    admitted(&mut registry, A);
    let mut session = Session::new();
    assert!(session.receive(&mut registry, signal(A, "\"early\"")).is_empty());
    assert_eq!(session, Session::Connecting);
    assert!(session.receive(&mut registry, Inbound::Reset).is_empty());
    assert_eq!(session, Session::Closed);
    assert_eq!(registry.members(default_room()), vec![A]);
}

#[test]
fn depart_from_an_unknown_room_is_silent() {
    let mut registry = Registry::new();
    admitted(&mut registry, A);
    assert!(depart(&mut registry, ATTIC, A.id).is_empty());
    assert_eq!(registry.members(default_room()), vec![A]);
}

#[test]
fn signaling_message_duplicate_equals_the_original() {
    let message =
        SignalingMessage::Signal { sender: A.id, receiver: B.id, payload: "[1,2,3]".to_string() };
    assert_eq!(message.duplicate(), message);
    assert_eq!(SignalingMessage::NewPeer(A.id).duplicate(), SignalingMessage::NewPeer(A.id));
    assert_eq!(SignalingMessage::KeepAlive.duplicate(), SignalingMessage::KeepAlive);
}

#[test]
fn two_bridges_meet_through_the_relay() {
    let ann = Peer { id: PeerId(0x00000001_0000_0000_0000_000000000000), channel: 1 };
    let ben = Peer { id: PeerId(0x00000002_0000_0000_0000_000000000000), channel: 2 };
    let mut registry = Registry::new();

    let mut first = Session::new();
    assert!(first.announce(&mut registry, ann, None).is_empty());
    let mut second = Session::new();
    let told = second.announce(&mut registry, ben, None);
    assert_eq!(told, vec![new_peer(ann, ben)]);
    assert!(told.iter().all(|delivery| delivery.to != ben));

    let mut bridge1 = Bridge::new();
    let mut bridge2 = Bridge::new();
    let greeting = bridge1.tick(&vec![(ben.id, PeerState::Connected)], &vec![], Some(ann.id), &vec![ben.id]);
    assert_eq!(greeting.len(), 1);

    send_message(&mut bridge1, "hi".to_string());
    let sent = bridge1.tick(&vec![], &vec![], Some(ann.id), &vec![ben.id]);
    assert_eq!(sent.len(), 1);
    assert_eq!(sent[0].to, ben.id);
    assert_eq!(bridge1.history, vec!["00000: hi".to_string()]);

    let before = bridge2.history.len();
    let arrived = vec![(ann.id, sent[0].packet.clone())];
    let out = bridge2.tick(&vec![], &arrived, Some(ben.id), &vec![ann.id]);
    assert!(out.is_empty());
    assert_eq!(bridge2.history.len(), before + 1);
    assert_eq!(bridge2.history[before], "00000: hi");
}

#[test]
fn members_are_the_open_sessions_after_any_sequence() {
    let rooms = [LOBBY, ATTIC, RoomKey(9)];
    let mut registry = Registry::with_policy(RoomPolicy::Keyed, LOBBY);
    let mut open: Vec<Option<RoomKey>> = vec![None; 6];
    let mut state: u64 = 0x2545f4914f6cdd1d;
    for _ in 0..2000 {
        state = state.wrapping_mul(6364136223846793005).wrapping_add(1442695040888963407);
        let who = ((state >> 33) % 6) as usize;
        let room = rooms[((state >> 40) % 3) as usize];
        let joins = (state >> 50) % 2 == 0;
        let peer = Peer { id: PeerId(who as u128 + 100), channel: who as u64 };
        if joins {
            let accepted = registry.join(room, peer);
            assert_eq!(accepted, open[who].is_none());
            if accepted {
                open[who] = Some(room);
            }
        } else {
            let removed = registry.leave(room, peer.id);
            assert_eq!(removed, open[who] == Some(room));
            if removed {
                open[who] = None;
            }
        }
        for key in rooms {
            let members = registry.members(key);
            for (index, member) in members.iter().enumerate() {
                assert_eq!(open[member.channel as usize], Some(key));
                assert!(members[..index].iter().all(|other| other.id != member.id));
            }
            let expected = open.iter().filter(|room| **room == Some(key)).count();
            assert_eq!(members.len(), expected);
        }
        for who in 0..6 {
            assert_eq!(registry.room_of(PeerId(who as u128 + 100)), open[who]);
        }
    }
}
