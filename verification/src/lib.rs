//! Core of a broadcast relay: which of the watched descriptors a readiness
//! wait reported, which connections are registered, and what the relay does
//! with each thing that happens on a socket.
//!
//! Nothing here touches a socket. A caller performs the waits, accepts, reads
//! and writes, and hands their outcomes to these types as plain values.
//!
//! - [`select`]: the walk over the ready descriptors of one wait.
//! - [`registry`]: the open connections, keyed by descriptor.
//! - [`server`]: the dispatcher, from events to actions.
//! - [`pass`]: laws on one pass of the loop over the ready descriptors.

pub mod pass;
pub mod registry;
pub mod select;
pub mod server;
