//! HTTP/3 building blocks for small systems: QUIC packet construction, a TLS 1.3
//! record layer, Ed25519 certificates, loss-recovery bookkeeping, server-sent
//! events and the HTTP/3 client and server front ends.
//!
//! Every state machine is free of I/O: bytes go in, bytes come out, events are
//! polled. Cryptography and the TLS handshake are reached through the traits of
//! [`crypto`] and [`tls`].

pub mod buf;
pub mod bytes;
pub mod connection;
pub mod crypto;
pub mod error;
pub mod fixed;
pub mod frame;
pub mod h3;
pub mod http;
pub mod packet;
pub mod tcp_tls;
pub mod tls;
pub mod transport;
pub mod varint;

pub use connection::handshake_pool::{HandshakeContext, HandshakePool};
pub use connection::io::QuicStreamIoBufs;
pub use connection::{Connection, ConnectionId, ConnectionState, Transmit};
pub use http::server_conn::{HttpEvent, HttpServerConn};
pub use tls::Role;
pub use transport::Instant;
