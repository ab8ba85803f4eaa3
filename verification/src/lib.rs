//! Signaling for peer-to-peer chat: the relay that lets peers find each
//! other, and the bridge that sits between a host page and its socket.
//!
//! The relay side is [`registry`], [`room`], [`session`] and [`signal`]: who
//! is in which room, what each connection may do next, and which messages go
//! to whom. The bridge side is [`bridge`] and [`chat`]: the queue and the
//! history that the host sees, and the envelope of a chat action. [`ids`]
//! and [`config`] serve both.
//!
//! Nothing here touches the network. Every step takes what the transport
//! reports and returns what the transport has to send.

pub mod bridge;
pub mod chat;
pub mod config;
pub mod ids;
pub mod registry;
pub mod room;
pub mod session;
pub mod signal;
