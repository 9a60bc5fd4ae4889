//! Peer-assisted image sharing: reliable datagram transport, low-nibble
//! steganography with an access-control metadata row, load-aware leader
//! election, a gossiped directory of service, and per-viewer view budgets.
//!
//! The modules here hold the protocol and data logic; socket and file
//! handling lives outside the library and exchanges plain values with it.

pub mod bytes;
pub mod client;
pub mod codec;
pub mod directory;
pub mod election;
pub mod fetch;
pub mod messages;
pub mod server;
pub mod transport;
pub mod views;
