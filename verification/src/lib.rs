//! The core of a small event-broadcast service, with the sockets left out.
//!
//! Peers exchange [`models::Event`]s as length-prefixed frames over byte
//! streams.  This crate holds everything about that exchange that can be
//! decided without touching a socket: the frame codec, the per-connection
//! reassembly of frames from partial reads, the registry of live
//! connections, the bounded queue that merges inbound events, and the
//! server's bookkeeping around them.  The embedding program owns the
//! sockets and the tasks; it hands bytes and outcomes in and carries frames
//! and decisions out.
//!
//! Every function here is verified against its contract, and the properties
//! that tie the functions together (round trip, reassembly from partial
//! reads, fan-out, pruning, queue order) are stated as proof functions next
//! to the code they are about.
pub mod bus;
pub mod client;
pub mod codec;
pub mod models;
pub mod registry;
pub mod server;
