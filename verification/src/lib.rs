//! Core logic of a gRPC gateway that routes calls to backend services,
//! including backends that reach the gateway through reverse (tunneled)
//! bidirectional streams.
//!
//! The crate holds the gateway's decision and bookkeeping logic: the service
//! registry, the reverse-connection manager with its service pools, pending
//! table and streaming reassembly, the event bus, the forward connection
//! pool's bookkeeping, the router's path handling, and the wire codec for
//! the tunnel's framed messages. Network transport, clocks and channels live
//! outside; functions here take timestamps and freshly minted identifiers as
//! arguments, or return the actions that the surrounding runtime performs.

pub mod config;
pub mod messages;
pub mod codec;
pub mod table;
pub mod ids;
pub mod liveness;
pub mod registry;
pub mod connection;
pub mod service_pool;
pub mod events;
pub mod manager;
pub mod router;
pub mod service;
pub mod client_pool;
