//! A non-blocking TCP reactor core: the per-connection state machine that
//! drives partial reads and writes across readiness ticks, the listener that
//! mints connection ids, a caller-driven client reactor, and the HTTP /
//! WebSocket protocol layer on top.  Socket and multiplexer calls live with
//! the embedding program; this crate holds the decisions and the wire logic.

pub mod bytestream;
pub mod http;
pub mod websocket;
pub mod protocol;
pub mod connection;
pub mod server;
pub mod client;
