//! Core of a real-time chat relay.
//!
//! Clients connect over a persistent bidirectional channel, pick or change a
//! display name, post text messages, and see a live roster of connected
//! users.  This crate is the server core: the connection registry, the
//! broadcast engine that fans envelopes out to every live connection, the
//! per-session dispatch logic, and the wire codec.  Actual transport I/O is
//! left to the embedding program; every operation here returns the exact
//! sequence of deliveries (target connection and encoded frame) that the
//! transport must perform.

pub mod clock;
pub mod codec;
pub mod engine;
pub mod laws;
pub mod registry;
pub mod session;
pub mod wire;
