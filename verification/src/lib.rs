//! Core of a client-server state replication engine for real-time
//! multiplayer simulations: tick-based time synchronization, message
//! framing and channel multiplexing, input buffering, snapshot
//! replication into confirmed/predicted timelines, rollback decisions,
//! and entity interpolation.
//!
//! The transport itself (UDP, WebTransport, WebSocket) is out of scope:
//! this crate sees it as a pair of byte-datagram send/recv endpoints and
//! only produces and consumes the datagram payloads.
pub mod ack;
pub mod bytes;
pub mod channel;
pub mod clock;
pub mod config;
pub mod connection;
pub mod delta;
pub mod fragment;
pub mod hex;
pub mod input;
pub mod interp;
pub mod message;
pub mod packet;
pub mod pump;
pub mod sender;
pub mod tick;
pub mod timeline;
