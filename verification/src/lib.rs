//! Verified core of a multi-room chat service.
//!
//! The crate models the real-time distribution core of the service: a
//! rotating single-use session-token protocol, a per-user broadcast bus
//! with bounded channels and lag recovery, room-scoped fan-out of events,
//! stream sessions that replay a backlog before tailing live events, and
//! the client-side reconnect controller.

pub mod auth;
pub mod bus;
pub mod client;
pub mod datetime;
pub mod events;
pub mod fanout;
pub mod handlers;
pub mod numfmt;
pub mod session;
pub mod store;
pub mod wire;
