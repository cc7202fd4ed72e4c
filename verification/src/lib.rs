//! Core of a real-time multiplayer session server.
//!
//! The library holds the verified session logic: the message model, the wire
//! codec for the datagram transport, the connection registry with its
//! reliability layer (sequence numbers, acknowledgements, retransmission,
//! liveness timeout, broadcast fan-out), and the dispatcher that turns an
//! inbound message into state mutations and outbound effects.
//!
//! Everything that touches the outside world — sockets, timers, the durable
//! store — lives in the surrounding host program, which feeds the core plain
//! values (endpoints, identities, milliseconds) and carries out the effect
//! lists the core hands back.

pub mod message;

pub mod codec;

pub mod persist;

pub mod udp_server;

pub mod client;

pub mod game;
