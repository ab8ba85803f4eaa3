//! The client bridge: the queue of actions that the host wants sent, the
//! history that the host reads, and the decisions of one turn of the polling
//! loop. The loop itself, and the transport it polls, belong to the caller.

use crate::chat::{chat_line, decoding, encoding, push_all, ChatAction, Message};
use crate::ids::PeerId;
use vstd::prelude::*;

verus! {

/// Milliseconds between two turns of the polling loop.
pub const TICK_MILLIS: u64 = 100;

/// What the transport reports of a peer since the last turn.
#[derive(Clone, Copy, Debug, PartialEq, Eq, Structural)]
pub enum PeerState {
    Connected,
    Disconnected,
}

/// Why the polling loop woke up.
#[derive(Clone, Copy, Debug, PartialEq, Eq, Structural)]
pub enum Wake {
    /// The polling interval has elapsed.
    Interval,
    /// The transport's own task has ended.
    TransportEnded,
}

/// One packet to hand to the transport.
#[derive(Debug, PartialEq, Eq)]
pub struct Outgoing {
    pub to: PeerId,
    pub packet: Vec<u8>,
}

/// The state that the host and the polling loop share.
#[derive(Debug)]
pub struct Bridge {
    /// Actions that wait for the next turn, oldest first.
    pub queue: Vec<Message>,
    /// The lines shown to the host, oldest first.
    pub history: Vec<String>,
}

/// The mathematical value of a [`Bridge`].
pub struct BridgeView {
    pub queue: Seq<ChatAction>,
    pub history: Seq<Seq<char>>,
}

/// The texts of a sequence of lines.
pub open spec fn lines(history: Seq<String>) -> Seq<Seq<char>> {
    history.map_values(|line: String| line@)
}

/// The values of a sequence of queued actions.
pub open spec fn queued(queue: Seq<Message>) -> Seq<ChatAction> {
    queue.map_values(|m: Message| m@)
}

/// Receiver and bytes of each packet of a sequence.
pub open spec fn sent(out: Seq<Outgoing>) -> Seq<(PeerId, Seq<u8>)> {
    out.map_values(|o: Outgoing| (o.to, o.packet@))
}

impl View for Bridge {
    type V = BridgeView;

    open spec fn view(&self) -> BridgeView {
        BridgeView { queue: queued(self.queue@), history: lines(self.history@) }
    }
}

/// The greeting owed for one report: a `Join` to a peer that has connected.
pub open spec fn greeting() -> spec_fn((PeerId, PeerState)) -> Option<(PeerId, Seq<u8>)> {
    |change: (PeerId, PeerState)|
        if change.1 == PeerState::Connected {
            Some((change.0, encoding(ChatAction::Join)))
        } else {
            None
        }
}

/// The history line owed for one report: that of a `Leave` for a peer that has
/// disconnected.
pub open spec fn departure() -> spec_fn((PeerId, PeerState)) -> Option<Seq<char>> {
    |change: (PeerId, PeerState)|
        if change.1 == PeerState::Disconnected {
            Some(chat_line(ChatAction::Leave, change.0))
        } else {
            None
        }
}

/// The history line owed for one packet: that of the action it holds, with
/// the sender as author, and none where the packet holds no action.
pub open spec fn hearing() -> spec_fn((PeerId, Vec<u8>)) -> Option<Seq<char>> {
    |packet: (PeerId, Vec<u8>)|
        match decoding(packet.1@) {
            Some(action) => Some(chat_line(action, packet.0)),
            None => None,
        }
}

/// The greetings owed for a list of reports, in the order of the reports.
pub open spec fn greetings(changes: Seq<(PeerId, PeerState)>) -> Seq<(PeerId, Seq<u8>)> {
    changes.filter_map(greeting())
}

/// The history lines owed for a list of reports, in the order of the reports.
pub open spec fn departures(changes: Seq<(PeerId, PeerState)>) -> Seq<Seq<char>> {
    changes.filter_map(departure())
}

/// The history lines owed for a list of packets, in the order of the packets.
pub open spec fn heard(packets: Seq<(PeerId, Vec<u8>)>) -> Seq<Seq<char>> {
    packets.filter_map(hearing())
}

/// The history lines of the host's own actions, in the order of the queue.
pub open spec fn authored(queue: Seq<ChatAction>, me: PeerId) -> Seq<Seq<char>> {
    queue.map_values(|action: ChatAction| chat_line(action, me))
}

/// The packets that carry one action to every peer of `peers`, in their order.
pub open spec fn copies(action: ChatAction, peers: Seq<PeerId>) -> Seq<(PeerId, Seq<u8>)> {
    peers.map_values(|peer: PeerId| (peer, encoding(action)))
}

/// The packets that carry every action of the queue to every peer: all
/// copies of the first action, then all of the second, and so on.
pub open spec fn fan_out(queue: Seq<ChatAction>, peers: Seq<PeerId>) -> Seq<(PeerId, Seq<u8>)> {
    queue.flat_map(|action: ChatAction| copies(action, peers))
}

/// The queue after a flush: empty once the session has an identifier, as it
/// was before that.
pub open spec fn queue_after(queue: Seq<ChatAction>, me: Option<PeerId>) -> Seq<ChatAction> {
    if me is Some {
        Seq::empty()
    } else {
        queue
    }
}

/// The history lines that a flush adds.
pub open spec fn flushed_lines(queue: Seq<ChatAction>, me: Option<PeerId>) -> Seq<Seq<char>> {
    match me {
        Some(id) => authored(queue, id),
        None => Seq::empty(),
    }
}

/// The packets that a flush hands out.
pub open spec fn flushed_packets(queue: Seq<ChatAction>, me: Option<PeerId>, peers: Seq<PeerId>) -> Seq<
    (PeerId, Seq<u8>),
> {
    if me is Some {
        fan_out(queue, peers)
    } else {
        Seq::empty()
    }
}

/// The packets of a flush have one copy for every action and peer.
pub proof fn fan_out_len(queue: Seq<ChatAction>, peers: Seq<PeerId>)
    ensures
        fan_out(queue, peers).len() == queue.len() * peers.len(),
    decreases queue.len(),
{
    if queue.len() > 0 {
        let rest = queue.drop_last();
        assert(queue =~= rest.push(queue.last()));
        rest.lemma_flat_map_push(|action: ChatAction| copies(action, peers), queue.last());
        fan_out_len(rest, peers);
        assert((rest.len() + 1) * peers.len() == rest.len() * peers.len() + peers.len())
            by (nonlinear_arith);
        assert(fan_out(queue, peers).len() == fan_out(rest, peers).len() + peers.len());
    } else {
        assert(queue.map_values(|action: ChatAction| copies(action, peers)).len() == 0);
    }
}

/// A flush keeps the order of the queue. The `i`-th line that it adds to the
/// history is that of the `i`-th queued action. Its packets come in blocks of
/// one per connected peer, the `i`-th block carries the `i`-th action, and
/// within a block the peers come in their own order: no packet of a later
/// action precedes one of an earlier action.
pub proof fn flush_is_fifo(
    queue: Seq<ChatAction>,
    me: PeerId,
    peers: Seq<PeerId>,
    i: int,
    j: int,
)
    requires
        0 <= i < queue.len(),
        0 <= j < peers.len(),
    ensures
        authored(queue, me).len() == queue.len(),
        authored(queue, me)[i] == chat_line(queue[i], me),
        fan_out(queue, peers).len() == queue.len() * peers.len(),
        0 <= i * peers.len() + j < fan_out(queue, peers).len(),
        fan_out(queue, peers)[i * peers.len() + j] == (peers[j], encoding(queue[i])),
    decreases queue.len(),
{
    let n = peers.len() as int;
    let rest = queue.drop_last();
    let last = queue.last();
    fan_out_len(queue, peers);
    fan_out_len(rest, peers);
    assert(queue =~= rest.push(last));
    rest.lemma_flat_map_push(|action: ChatAction| copies(action, peers), last);
    assert(fan_out(queue, peers) == fan_out(rest, peers) + copies(last, peers));
    assert(i * n >= 0) by (nonlinear_arith)
        requires
            i >= 0,
            n >= 0,
    ;
    if i < rest.len() {
        flush_is_fifo(rest, me, peers, i, j);
        assert(i * n + j < rest.len() * n) by (nonlinear_arith)
            requires
                0 <= i < rest.len(),
                0 <= j < n,
        ;
    } else {
        assert(i * n + j == rest.len() * n + j);
        assert(copies(last, peers)[j] == (peers[j], encoding(last)));
    }
}

/// Whether the polling loop goes on after it woke up: it does after an
/// interval, and ends for good once the transport has ended.
pub fn keep_running(wake: Wake) -> (go_on: bool)
    ensures
        go_on == (wake == Wake::Interval),
{
    match wake {
        Wake::Interval => true,
        Wake::TransportEnded => false,
    }
}

/// Queues a text message of the host for the next turn.
pub fn send_message(bridge: &mut Bridge, message: String)
    ensures
        final(bridge)@.queue == old(bridge)@.queue.push(ChatAction::Message(message@)),
        final(bridge)@.history == old(bridge)@.history,
{
    bridge.enqueue(Message::Message(message));
}

/// The lines of the history, oldest first.
pub fn get_history(bridge: &Bridge) -> (collected: Vec<String>)
    ensures
        lines(collected@) == bridge@.history,
{
    let mut collected: Vec<String> = Vec::new();
    let mut i: usize = 0;
    while i < bridge.history.len()
        invariant
            i <= bridge.history.len(),
            lines(collected@) == lines(bridge.history@.take(i as int)),
        decreases bridge.history.len() - i,
    {
        let ghost before = collected@;
        let line = bridge.history[i].clone();
        collected.push(line);
        proof {
            bridge.history@.lemma_take_succ_push(i as int);
            assert(lines(collected@) =~= lines(before).push(line@));
            assert(lines(bridge.history@.take(i + 1)) =~= lines(
                bridge.history@.take(i as int),
            ).push(line@));
        }
        i += 1;
    }
    assert(bridge.history@.take(i as int) =~= bridge.history@);
    collected
}

/// Empties the history.
pub fn clear_history(bridge: &mut Bridge)
    ensures
        final(bridge)@.history == Seq::<Seq<char>>::empty(),
        final(bridge)@.queue == old(bridge)@.queue,
{
    bridge.history.clear();
    assert(lines(bridge.history@) =~= Seq::<Seq<char>>::empty());
}

impl Bridge {
    /// A bridge with nothing queued and an empty history.
    pub fn new() -> (bridge: Bridge)
        ensures
            bridge@.queue == Seq::<ChatAction>::empty(),
            bridge@.history == Seq::<Seq<char>>::empty(),
    {
        let bridge = Bridge { queue: Vec::new(), history: Vec::new() };
        assert(queued(bridge.queue@) =~= Seq::<ChatAction>::empty());
        assert(lines(bridge.history@) =~= Seq::<Seq<char>>::empty());
        bridge
    }

    /// Queues an action behind those that wait already.
    pub fn enqueue(&mut self, action: Message)
        ensures
            final(self)@.queue == old(self)@.queue.push(action@),
            final(self)@.history == old(self)@.history,
    {
        self.queue.push(action);
        assert(queued(self.queue@) =~= queued(old(self).queue@).push(action@));
    }

    /// First step of a turn: takes the transport's reports on peers. Each peer
    /// that has connected is owed a greeting, which is returned; each peer
    /// that has disconnected gets a line in the history.
    pub fn peers_changed(&mut self, changes: &Vec<(PeerId, PeerState)>) -> (out: Vec<Outgoing>)
        ensures
            sent(out@) == greetings(changes@),
            final(self)@.history == old(self)@.history + departures(changes@),
            final(self)@.queue == old(self)@.queue,
    {
        let mut out: Vec<Outgoing> = Vec::new();
        let mut i: usize = 0;
        assert(changes@.take(0) =~= Seq::empty());
        while i < changes.len()
            invariant
                i <= changes.len(),
                sent(out@) == greetings(changes@.take(i as int)),
                lines(self.history@) == lines(old(self).history@) + departures(
                    changes@.take(i as int),
                ),
                self.queue == old(self).queue,
            decreases changes.len() - i,
        {
            let peer = changes[i].0;
            let ghost before_history = self.history@;
            match changes[i].1 {
                PeerState::Connected => {
                    let packet = Message::Join.encode();
                    out.push(Outgoing { to: peer, packet });
                },
                PeerState::Disconnected => {
                    let line = Message::Leave.to_chat_message(peer);
                    self.history.push(line);
                },
            }
            proof {
                changes@.lemma_filter_map_take_succ(greeting(), i as int);
                changes@.lemma_filter_map_take_succ(departure(), i as int);
                assert(sent(out@) =~= greetings(changes@.take(i + 1)));
                if changes@[i as int].1 == PeerState::Disconnected {
                    assert(lines(self.history@) =~= lines(before_history).push(
                        chat_line(ChatAction::Leave, peer),
                    ));
                }
                assert(lines(self.history@) =~= lines(old(self).history@) + departures(
                    changes@.take(i + 1),
                ));
            }
            i += 1;
        }
        assert(changes@.take(i as int) =~= changes@);
        out
    }

    /// Second step of a turn: takes the packets that have arrived. Each one
    /// that holds an action gets a line in the history; any other is dropped.
    pub fn packets_received(&mut self, packets: &Vec<(PeerId, Vec<u8>)>)
        ensures
            final(self)@.history == old(self)@.history + heard(packets@),
            final(self)@.queue == old(self)@.queue,
    {
        let mut i: usize = 0;
        assert(packets@.take(0) =~= Seq::empty());
        while i < packets.len()
            invariant
                i <= packets.len(),
                lines(self.history@) == lines(old(self).history@) + heard(packets@.take(i as int)),
                self.queue == old(self).queue,
            decreases packets.len() - i,
        {
            let peer = packets[i].0;
            let ghost before = self.history@;
            match Message::decode(packets[i].1.as_slice()) {
                Some(message) => {
                    let line = message.to_chat_message(peer);
                    self.history.push(line);
                    proof {
                        assert(hearing()(packets@[i as int]) == Some(line@));
                        assert(lines(self.history@) =~= lines(before).push(line@));
                    }
                },
                None => {
                    assert(hearing()(packets@[i as int]) is None);
                },
            }
            proof {
                packets@.lemma_filter_map_take_succ(hearing(), i as int);
                assert(lines(self.history@) =~= lines(old(self).history@) + heard(
                    packets@.take(i + 1),
                ));
            }
            i += 1;
        }
        assert(packets@.take(i as int) =~= packets@);
    }

    /// Third step of a turn: empties the queue, oldest action first. Each
    /// action gets a line in the history with the host as author, and one
    /// packet for every connected peer. While the session has no identifier
    /// yet (`me` is `None`) the queue is kept as it is.
    pub fn flush(&mut self, me: Option<PeerId>, connected: &Vec<PeerId>) -> (out: Vec<Outgoing>)
        ensures
            sent(out@) == flushed_packets(old(self)@.queue, me, connected@),
            final(self)@.history == old(self)@.history + flushed_lines(old(self)@.queue, me),
            final(self)@.queue == queue_after(old(self)@.queue, me),
    {
        let mut out: Vec<Outgoing> = Vec::new();
        let id = match me {
            Some(id) => id,
            None => {
                assert(sent(out@) =~= Seq::empty());
                assert(lines(self.history@) =~= lines(self.history@) + Seq::empty());
                return out;
            },
        };
        let ghost all = queued(self.queue@);
        let mut i: usize = 0;
        assert(all.take(0) =~= Seq::empty());
        assert(sent(out@) =~= fan_out(all.take(0), connected@));
        assert(lines(self.history@) =~= lines(self.history@) + authored(all.take(0), id));
        while i < self.queue.len()
            invariant
                i <= self.queue.len(),
                self.queue == old(self).queue,
                all == queued(self.queue@),
                sent(out@) == fan_out(all.take(i as int), connected@),
                lines(self.history@) == lines(old(self).history@) + authored(all.take(i as int), id),
            decreases self.queue.len() - i,
        {
            let line = self.queue[i].to_chat_message(id);
            let packet = self.queue[i].encode();
            let ghost action = all[i as int];
            let ghost history_before = self.history@;
            self.history.push(line);
            proof {
                assert(action == self.queue@[i as int]@);
                assert(lines(self.history@) =~= lines(history_before).push(chat_line(action, id)));
                assert(authored(all.take(i + 1), id) =~= authored(all.take(i as int), id).push(
                    chat_line(action, id),
                ));
            }
            let ghost before = out@;
            let mut j: usize = 0;
            while j < connected.len()
                invariant
                    j <= connected.len(),
                    packet@ == encoding(action),
                    sent(out@) == sent(before) + copies(action, connected@.take(j as int)),
                decreases connected.len() - j,
            {
                let ghost so_far = out@;
                let mut copy: Vec<u8> = Vec::new();
                push_all(&mut copy, packet.as_slice());
                let next = Outgoing { to: connected[j], packet: copy };
                out.push(next);
                proof {
                    connected@.lemma_take_succ_push(j as int);
                    assert(sent(out@) =~= sent(so_far).push((connected@[j as int], encoding(action))));
                    assert(copies(action, connected@.take(j + 1)) =~= copies(
                        action,
                        connected@.take(j as int),
                    ).push((connected@[j as int], encoding(action))));
                }
                j += 1;
            }
            proof {
                assert(connected@.take(j as int) =~= connected@);
                assert(all.take(i + 1) =~= all.take(i as int).push(action));
                all.take(i as int).lemma_flat_map_push(
                    |action: ChatAction| copies(action, connected@),
                    action,
                );
                assert(lines(self.history@) =~= lines(old(self).history@) + authored(
                    all.take(i + 1),
                    id,
                ));
            }
            i += 1;
        }
        assert(all.take(i as int) =~= all);
        self.queue.clear();
        assert(queued(self.queue@) =~= Seq::<ChatAction>::empty());
        out
    }

    /// One whole turn on a snapshot of what the transport reports: the three
    /// steps in their order. The packets returned are the greetings, then
    /// those of the flush.
    pub fn tick(
        &mut self,
        changes: &Vec<(PeerId, PeerState)>,
        packets: &Vec<(PeerId, Vec<u8>)>,
        me: Option<PeerId>,
        connected: &Vec<PeerId>,
    ) -> (out: Vec<Outgoing>)
        ensures
            sent(out@) == greetings(changes@) + flushed_packets(old(self)@.queue, me, connected@),
            final(self)@.history == old(self)@.history + departures(changes@) + heard(packets@)
                + flushed_lines(old(self)@.queue, me),
            final(self)@.queue == queue_after(old(self)@.queue, me),
    {
        let mut out = self.peers_changed(changes);
        self.packets_received(packets);
        let ghost greeted = out@;
        let mut flushed = self.flush(me, connected);
        let ghost handed = flushed@;
        out.append(&mut flushed);
        assert(sent(out@) =~= sent(greeted) + sent(handed));
        out
    }
}

} // verus!
