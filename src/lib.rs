//! A bridge between WebSocket clients and a plain TCP upstream.
//!
//! The library holds the decisions of the bridge: the per-connection
//! non-blocking read and write state machine, the frame codec, the registry
//! of connection pairs with its reactor step, and the per-pair task step of
//! the asynchronous variant. Sockets, polling and the handshake stay with the
//! caller, which feeds the outcome of each I/O call in and performs the
//! actions that come back.
pub mod codec;
pub mod connection;
pub mod registry;
pub mod session;
pub mod laws;
