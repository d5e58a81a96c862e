//! Unified HTTP server connection trait.
//!
//! [`HttpServerConn`] provides a protocol-agnostic interface over HTTP server
//! connections. This enables a connection manager to handle all protocols
//! through a single event loop.

use vstd::prelude::*;

use crate::error::Error;

verus! {

/// Unified event from any HTTP protocol.
#[derive(Debug, Clone, Copy, PartialEq, Eq, Structural)]
pub enum HttpEvent {
    /// Connection/settings exchange complete.
    Connected,
    /// Headers received on a stream.
    Headers(u64),
    /// Body data available on a stream.
    Data(u64),
    /// Stream finished (FIN / END_STREAM received).
    Finished(u64),
    /// Peer reset a stream.
    StreamReset { stream_id: u64, error_code: u64 },
    /// Peer sent GOAWAY or CONNECTION_CLOSE.
    GoAway { error_code: u64 },
    /// A timeout fired.
    Timeout,
}

/// HTTP server connections.
///
/// Covers HTTP application-layer methods only. Transport I/O (feed_data,
/// poll_output, recv, poll_transmit) differs between TCP and UDP and is
/// handled by the connection manager.
pub trait HttpServerConn {
    /// The connection is well-formed. Every method keeps it so.
    spec fn ready(&self) -> bool;

    /// The event that is next when `room` bytes of scratch space are there.
    spec fn next_event(&self, room: nat) -> Option<HttpEvent>;

    /// Whether `after` is this connection with that event taken off.
    spec fn event_taken(&self, room: nat, after: &Self) -> bool;

    /// Poll for the next HTTP event.
    ///
    /// `scratch` is a caller-provided buffer for temporary stream reads,
    /// avoiding internal stack allocations. Only used by H3 connections;
    /// TCP-based protocols may ignore it.
    fn poll_event(&mut self, scratch: &mut [u8]) -> (r: Option<HttpEvent>)
        requires
            old(self).ready(),
        ensures
            final(self).ready(),
            final(scratch)@.len() == old(scratch)@.len(),
            r == old(self).next_event(old(scratch)@.len()),
            old(self).event_taken(old(scratch)@.len(), final(self)),
    ;

    /// Read decoded headers for a stream: name and value of each.
    fn recv_headers(&mut self, stream_id: u64) -> (r: Result<Vec<(Vec<u8>, Vec<u8>)>, Error>)
        requires
            old(self).ready(),
        ensures
            final(self).ready(),
    ;

    /// Read body data from a stream. Returns `(bytes_read, fin)`.
    fn recv_body(&mut self, stream_id: u64, buf: &mut [u8]) -> (r: Result<(usize, bool), Error>)
        requires
            old(self).ready(),
        ensures
            final(self).ready(),
            final(buf)@.len() == old(buf)@.len(),
    ;

    /// Send response headers on a stream.
    fn send_response(
        &mut self,
        stream_id: u64,
        status: u16,
        headers: &[(&[u8], &[u8])],
        end_stream: bool,
    ) -> (r: Result<(), Error>)
        requires
            old(self).ready(),
        ensures
            final(self).ready(),
    ;

    /// Send body data on a stream. Returns bytes written.
    fn send_body(&mut self, stream_id: u64, data: &[u8], end_stream: bool) -> (r: Result<
        usize,
        Error,
    >)
        requires
            old(self).ready(),
        ensures
            final(self).ready(),
    ;

    /// Whether the connection is established (handshake/settings complete).
    fn is_established(&self) -> (r: bool)
        requires
            self.ready(),
    ;

    /// Whether the connection is closed.
    fn is_closed(&self) -> (r: bool)
        requires
            self.ready(),
    ;

    /// Feed encrypted TCP data into the connection (TLS + HTTP processing).
    ///
    /// Only meaningful for TCP-based connections. H3 connections return `Ok(())`
    /// (they use UDP via the manager).
    fn tcp_feed_data(&mut self, data: &[u8]) -> (r: Result<(), Error>)
        requires
            old(self).ready(),
        ensures
            final(self).ready(),
    ;

    /// Pull outgoing encrypted TCP data.
    ///
    /// Only meaningful for TCP-based connections. H3 connections return `None`.
    fn tcp_poll_output<'a>(&mut self, buf: &'a mut [u8]) -> (r: Option<&'a [u8]>)
        requires
            old(self).ready(),
        ensures
            final(self).ready(),
    ;
}

} // verus!
