//! A reverse proxy for the Minecraft protocol that routes each connection by
//! the server domain the client names in its handshake.
//!
//! - `varint`, `buffer`, `serialization`: the wire codec and the byte sink.
//! - `stream`: the receive buffer of a connection, its refills and frames.
//! - `packets`: packets as ordered fields, and whole frames.
//! - `routing`: the configuration and the choice of a backend.
//! - `upstream`: the backends whose addresses were resolved.
//! - `connection`: the decisions of one connection, from handshake to forwarding.

pub mod buffer;
pub mod connection;
pub mod packets;
pub mod routing;
pub mod serialization;
pub mod stream;
pub mod upstream;
pub mod varint;
