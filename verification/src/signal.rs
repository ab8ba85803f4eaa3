//! The messages of the signaling protocol, and the deliveries that the relay
//! asks its transport to make.

use crate::ids::{hyphenated, PeerId};
use vstd::prelude::*;
use vstd::string::*;

verus! {

/// A member of a room: its identifier and the handle of the channel that
/// leads to its session. The relay carries the handle and never reads it.
#[derive(Clone, Copy, Debug, PartialEq, Eq, Structural)]
pub struct Peer {
    pub id: PeerId,
    pub channel: u64,
}

/// A message of the signaling protocol.
#[derive(Debug, PartialEq, Eq)]
pub enum SignalingMessage {
    /// A peer has joined the room.
    NewPeer(PeerId),
    /// A peer has left the room.
    PeerLeft(PeerId),
    /// A handshake payload on its way from one peer to another. The payload
    /// is JSON text that the relay carries and never reads.
    Signal { sender: PeerId, receiver: PeerId, payload: String },
    /// Traffic that only keeps an idle connection open.
    KeepAlive,
}

/// The mathematical value of a [`SignalingMessage`].
pub enum Signal {
    NewPeer(PeerId),
    PeerLeft(PeerId),
    Signal { sender: PeerId, receiver: PeerId, payload: Seq<char> },
    KeepAlive,
}

impl View for SignalingMessage {
    type V = Signal;

    open spec fn view(&self) -> Signal {
        match self {
            SignalingMessage::NewPeer(id) => Signal::NewPeer(*id),
            SignalingMessage::PeerLeft(id) => Signal::PeerLeft(*id),
            SignalingMessage::Signal { sender, receiver, payload } => Signal::Signal {
                sender: *sender,
                receiver: *receiver,
                payload: payload@,
            },
            SignalingMessage::KeepAlive => Signal::KeepAlive,
        }
    }
}

/// What a peer asks of the relay. The sender of a signal is the peer that
/// asks.
#[derive(Debug, PartialEq, Eq)]
pub enum PeerRequest {
    Signal { receiver: PeerId, payload: String },
    KeepAlive,
}

/// The mathematical value of a [`PeerRequest`].
pub enum Request {
    Signal { receiver: PeerId, payload: Seq<char> },
    KeepAlive,
}

impl View for PeerRequest {
    type V = Request;

    open spec fn view(&self) -> Request {
        match self {
            PeerRequest::Signal { receiver, payload } => Request::Signal {
                receiver: *receiver,
                payload: payload@,
            },
            PeerRequest::KeepAlive => Request::KeepAlive,
        }
    }
}

/// The request that the text of a frame holds, as the parser of
/// `matchbox_protocol` reads it, and `None` where it holds none.
pub uninterp spec fn request_in(text: Seq<char>) -> Option<Request>;

/// Reads a request with `FromStr` of `matchbox_protocol::JsonPeerRequest`,
/// which parses the text as JSON. Trusted: what comes back depends on the
/// text alone. The payload is handed on as the text that `Display` of
/// `serde_json::Value` writes for the `data` member.
#[verifier::external_body]
pub(crate) fn parse_frame(text: &str) -> (request: Option<PeerRequest>)
    ensures
        match request {
            Some(r) => request_in(text@) == Some(r@),
            None => request_in(text@) is None,
        },
{
    match text.parse::<matchbox_protocol::JsonPeerRequest>() {
        Ok(matchbox_protocol::PeerRequest::Signal { receiver, data }) => Some(
            PeerRequest::Signal {
                receiver: PeerId(receiver.0.as_u128()),
                payload: data.to_string(),
            },
        ),
        Ok(matchbox_protocol::PeerRequest::KeepAlive) => Some(PeerRequest::KeepAlive),
        Err(_) => None,
    }
}

/// The text of the frame that carries a message: one JSON value without
/// white space. A peer stands as the hyphenated text of its identifier, and
/// the payload of a signal stands as it is.
pub open spec fn wire_text(message: Signal) -> Seq<char> {
    match message {
        Signal::NewPeer(id) => "{\"NewPeer\":\""@ + hyphenated(id.0) + "\"}"@,
        Signal::PeerLeft(id) => "{\"PeerLeft\":\""@ + hyphenated(id.0) + "\"}"@,
        Signal::Signal { sender, receiver, payload } => "{\"Signal\":{\"sender\":\""@
            + hyphenated(sender.0) + "\",\"receiver\":\""@ + hyphenated(receiver.0)
            + "\",\"data\":"@ + payload + "}}"@,
        Signal::KeepAlive => "\"KeepAlive\""@,
    }
}

/// One message for the transport to put on one member's channel.
#[derive(Debug, PartialEq, Eq)]
pub struct Delivery {
    pub to: Peer,
    pub message: SignalingMessage,
}

/// The mathematical value of a [`Delivery`].
pub struct Notice {
    pub to: Peer,
    pub message: Signal,
}

impl View for Delivery {
    type V = Notice;

    open spec fn view(&self) -> Notice {
        Notice { to: self.to, message: self.message@ }
    }
}

/// The values of a sequence of deliveries, in the same order.
pub open spec fn delivered(out: Seq<Delivery>) -> Seq<Notice> {
    out.map_values(|d: Delivery| d@)
}

/// One notice with `message` for every peer of `peers`, in their order.
pub open spec fn notices(peers: Seq<Peer>, message: Signal) -> Seq<Notice> {
    peers.map_values(|peer: Peer| Notice { to: peer, message })
}

impl SignalingMessage {
    /// A copy of the message.
    pub fn duplicate(&self) -> (copy: SignalingMessage)
        ensures
            copy@ == self@,
    {
        match self {
            SignalingMessage::NewPeer(id) => SignalingMessage::NewPeer(*id),
            SignalingMessage::PeerLeft(id) => SignalingMessage::PeerLeft(*id),
            SignalingMessage::Signal { sender, receiver, payload } => SignalingMessage::Signal {
                sender: *sender,
                receiver: *receiver,
                payload: payload.clone(),
            },
            SignalingMessage::KeepAlive => SignalingMessage::KeepAlive,
        }
    }

    /// The text of the frame that carries the message.
    pub fn frame_text(&self) -> (text: String)
        ensures
            text@ == wire_text(self@),
    {
        match self {
            SignalingMessage::NewPeer(id) => {
                let mut text = String::from_str("{\"NewPeer\":\"");
                text.append(id.text().as_str());
                text.append("\"}");
                text
            },
            SignalingMessage::PeerLeft(id) => {
                let mut text = String::from_str("{\"PeerLeft\":\"");
                text.append(id.text().as_str());
                text.append("\"}");
                text
            },
            SignalingMessage::Signal { sender, receiver, payload } => {
                let mut text = String::from_str("{\"Signal\":{\"sender\":\"");
                text.append(sender.text().as_str());
                text.append("\",\"receiver\":\"");
                text.append(receiver.text().as_str());
                text.append("\",\"data\":");
                text.append(payload.as_str());
                text.append("}}");
                text
            },
            SignalingMessage::KeepAlive => String::from_str("\"KeepAlive\""),
        }
    }
}


} // verus!
