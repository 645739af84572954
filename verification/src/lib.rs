//! Verified core of a rendezvous service for peer-to-peer file syncing:
//! the messages that clients, the rendezvous server and peers exchange,
//! the server's registry of connected clients, the per-connection line
//! reader, the client's session decisions and the peer directory.

pub mod messages;
pub mod registry;
pub mod broker;
pub mod connection;
pub mod session;
pub mod directory;
pub mod peers;
pub mod framing;
pub mod addressing;
