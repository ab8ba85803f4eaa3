use matchlib::bridge::{
    clear_history, get_history, keep_running, send_message, Bridge, Outgoing, PeerState, Wake,
    TICK_MILLIS,
};
use matchlib::chat::Message;
use matchlib::ids::PeerId;

const ME: PeerId = PeerId(0x11111111_0000_0000_0000_000000000001);
const BOB: PeerId = PeerId(0xb0b00000_0000_0000_0000_000000000002);
const CAROL: PeerId = PeerId(0xca401000_0000_0000_0000_000000000003);

fn text(s: &str) -> Message {
    Message::Message(s.to_string())
}

#[test]
fn new_bridge_is_empty() {
    let bridge = Bridge::new();
    assert!(bridge.queue.is_empty());
    assert!(bridge.history.is_empty());
    assert!(get_history(&bridge).is_empty());
}

#[test]
fn send_message_queues_a_text_action() {
    let mut bridge = Bridge::new();
    send_message(&mut bridge, "one".to_string());
    send_message(&mut bridge, "two".to_string());
    assert_eq!(bridge.queue, vec![text("one"), text("two")]);
    assert!(bridge.history.is_empty());
}

#[test]
fn enqueue_keeps_the_order() {
    let mut bridge = Bridge::new();
    bridge.enqueue(Message::Join);
    bridge.enqueue(text("x"));
    bridge.enqueue(Message::Leave);
    assert_eq!(bridge.queue, vec![Message::Join, text("x"), Message::Leave]);
}

#[test]
fn get_history_copies_the_lines() {
    let mut bridge = Bridge::new();
    bridge.history.push("first".to_string());
    bridge.history.push("second".to_string());
    assert_eq!(get_history(&bridge), vec!["first".to_string(), "second".to_string()]);
    assert_eq!(bridge.history.len(), 2);
}

#[test]
fn clear_history_leaves_the_queue() {
    let mut bridge = Bridge::new();
    send_message(&mut bridge, "kept".to_string());
    bridge.history.push("gone".to_string());
    clear_history(&mut bridge);
    assert!(get_history(&bridge).is_empty());
    assert_eq!(bridge.queue, vec![text("kept")]);
}

#[test]
fn connected_peer_is_greeted() {
    let mut bridge = Bridge::new();
    let out = bridge.peers_changed(&vec![(BOB, PeerState::Connected)]);
    assert_eq!(out, vec![Outgoing { to: BOB, packet: vec![0, 0, 0, 0] }]);
    assert!(bridge.history.is_empty());
}

#[test]
fn disconnected_peer_gets_a_line() {
    let mut bridge = Bridge::new();
    let out = bridge.peers_changed(&vec![(BOB, PeerState::Disconnected)]);
    assert!(out.is_empty());
    assert_eq!(bridge.history, vec!["b0b00 left".to_string()]);
}

#[test]
fn reports_are_taken_in_their_order() {
    let mut bridge = Bridge::new();
    bridge.history.push("earlier".to_string());
    let out = bridge.peers_changed(&vec![
        (CAROL, PeerState::Connected),
        (BOB, PeerState::Disconnected),
        (BOB, PeerState::Connected),
        (CAROL, PeerState::Disconnected),
    ]);
    assert_eq!(
        out,
        vec![
            Outgoing { to: CAROL, packet: Message::Join.encode() },
            Outgoing { to: BOB, packet: Message::Join.encode() },
        ]
    );
    assert_eq!(
        bridge.history,
        vec!["earlier".to_string(), "b0b00 left".to_string(), "ca401 left".to_string()]
    );
}

#[test]
fn packets_become_lines() {
    let mut bridge = Bridge::new();
    bridge.packets_received(&vec![
        (BOB, Message::Join.encode()),
        (CAROL, text("hello").encode()),
        (BOB, Message::Leave.encode()),
    ]);
    assert_eq!(
        bridge.history,
        vec!["b0b00 joined".to_string(), "ca401: hello".to_string(), "b0b00 left".to_string()]
    );
}

#[test]
fn undecodable_packet_is_dropped() {
    let mut bridge = Bridge::new();
    send_message(&mut bridge, "waiting".to_string());
    bridge.packets_received(&vec![
        (BOB, vec![9, 9, 9, 9]),
        (BOB, vec![]),
        (CAROL, text("still here").encode()),
        (BOB, vec![2, 0, 0, 0, 1, 0, 0, 0, 0, 0, 0, 0, 0xff]),
    ]);
    assert_eq!(bridge.history, vec!["ca401: still here".to_string()]);
    assert_eq!(bridge.queue, vec![text("waiting")]);
}

#[test]
fn flush_is_first_in_first_out() {
    let mut bridge = Bridge::new();
    send_message(&mut bridge, "m1".to_string());
    send_message(&mut bridge, "m2".to_string());
    send_message(&mut bridge, "m3".to_string());
    let out = bridge.flush(Some(ME), &vec![BOB, CAROL]);
    assert_eq!(
        bridge.history,
        vec!["11111: m1".to_string(), "11111: m2".to_string(), "11111: m3".to_string()]
    );
    assert_eq!(
        out,
        vec![
            Outgoing { to: BOB, packet: text("m1").encode() },
            Outgoing { to: CAROL, packet: text("m1").encode() },
            Outgoing { to: BOB, packet: text("m2").encode() },
            Outgoing { to: CAROL, packet: text("m2").encode() },
            Outgoing { to: BOB, packet: text("m3").encode() },
            Outgoing { to: CAROL, packet: text("m3").encode() },
        ]
    );
    assert!(bridge.queue.is_empty());
}

#[test]
fn flush_without_peers_still_writes_the_history() {
    let mut bridge = Bridge::new();
    send_message(&mut bridge, "alone".to_string());
    let out = bridge.flush(Some(ME), &vec![]);
    assert!(out.is_empty());
    assert_eq!(bridge.history, vec!["11111: alone".to_string()]);
    assert!(bridge.queue.is_empty());
}

#[test]
fn flush_before_the_session_has_an_identifier_holds_the_queue() {
    let mut bridge = Bridge::new();
    send_message(&mut bridge, "early".to_string());
    let out = bridge.flush(None, &vec![BOB]);
    assert!(out.is_empty());
    assert!(bridge.history.is_empty());
    assert_eq!(bridge.queue, vec![text("early")]);
    let later = bridge.flush(Some(ME), &vec![BOB]);
    assert_eq!(later, vec![Outgoing { to: BOB, packet: text("early").encode() }]);
    assert!(bridge.queue.is_empty());
}

#[test]
fn flush_sends_every_kind_of_action() {
    let mut bridge = Bridge::new();
    bridge.enqueue(Message::Join);
    bridge.enqueue(Message::Leave);
    let out = bridge.flush(Some(ME), &vec![BOB]);
    assert_eq!(
        out,
        vec![
            Outgoing { to: BOB, packet: vec![0, 0, 0, 0] },
            Outgoing { to: BOB, packet: vec![1, 0, 0, 0] },
        ]
    );
    assert_eq!(bridge.history, vec!["11111 joined".to_string(), "11111 left".to_string()]);
}

#[test]
fn empty_flush_does_nothing() {
    let mut bridge = Bridge::new();
    bridge.history.push("kept".to_string());
    let out = bridge.flush(Some(ME), &vec![BOB, CAROL]);
    assert!(out.is_empty());
    assert_eq!(bridge.history, vec!["kept".to_string()]);
}

#[test]
fn tick_runs_the_three_steps_in_order() {
    let mut bridge = Bridge::new();
    send_message(&mut bridge, "mine".to_string());
    let out = bridge.tick(
        &vec![(BOB, PeerState::Connected), (CAROL, PeerState::Disconnected)],
        &vec![(BOB, text("theirs").encode()), (BOB, vec![7])],
        Some(ME),
        &vec![BOB],
    );
    assert_eq!(
        out,
        vec![
            Outgoing { to: BOB, packet: Message::Join.encode() },
            Outgoing { to: BOB, packet: text("mine").encode() },
        ]
    );
    assert_eq!(
        bridge.history,
        vec!["ca401 left".to_string(), "b0b00: theirs".to_string(), "11111: mine".to_string()]
    );
    assert!(bridge.queue.is_empty());
}

#[test]
fn tick_without_identifier_keeps_the_queue() {
    let mut bridge = Bridge::new();
    send_message(&mut bridge, "held".to_string());
    let out = bridge.tick(&vec![(BOB, PeerState::Connected)], &vec![], None, &vec![BOB]);
    assert_eq!(out, vec![Outgoing { to: BOB, packet: Message::Join.encode() }]);
    assert!(bridge.history.is_empty());
    assert_eq!(bridge.queue, vec![text("held")]);
}

#[test]
fn idle_tick_changes_nothing() {
    let mut bridge = Bridge::new();
    let out = bridge.tick(&vec![], &vec![], Some(ME), &vec![BOB]);
    assert!(out.is_empty());
    assert!(bridge.history.is_empty());
    assert!(bridge.queue.is_empty());
}

#[test]
fn loop_goes_on_after_an_interval_only() {
    assert!(keep_running(Wake::Interval));
    assert!(!keep_running(Wake::TransportEnded));
    assert_eq!(TICK_MILLIS, 100);
}

#[test]
fn flush_keeps_the_order_of_a_long_queue() {
    let mut bridge = Bridge::new();
    let peers: Vec<PeerId> = (0..7).map(|n| PeerId(n + 1000)).collect();
    let texts: Vec<String> = (0..25).map(|n| format!("line {n}")).collect();
    for line in &texts {
        send_message(&mut bridge, line.clone());
    }
    let out = bridge.flush(Some(ME), &peers);
    assert_eq!(out.len(), texts.len() * peers.len());
    assert_eq!(bridge.history.len(), texts.len());
    for (i, line) in texts.iter().enumerate() {
        assert_eq!(bridge.history[i], format!("11111: {line}"));
        for (j, peer) in peers.iter().enumerate() {
            let packet = &out[i * peers.len() + j];
            assert_eq!(packet.to, *peer);
            assert_eq!(Message::decode(&packet.packet), Some(text(line)));
        }
    }
}
