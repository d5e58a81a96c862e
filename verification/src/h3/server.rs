//! HTTP/3 server API.
//!
//! Wraps a QUIC [`Connection`] as an HTTP/3 server capable of receiving
//! requests and sending responses.

use vstd::prelude::*;

use crate::connection;
use crate::connection::handshake_pool::HandshakePool;
use crate::connection::{ConnModel, Connection, ConnectionState, Transmit};
use crate::crypto::CryptoProvider;
use crate::error::Error;
use crate::fixed;
use crate::h3::connection as h3;
use crate::h3::connection::{H3Connection, H3Model, Sizes};
use crate::h3::qpack;
use crate::h3::stream::{H3Event, SegmentModel};
use crate::http::server_conn::HttpEvent;
use crate::http::status;
use crate::http::StatusCode;
use crate::transport::Instant;
use crate::varint;

verus! {

/// `:status`
pub open spec fn status_name() -> Seq<u8> {
    seq![0x3au8, 0x73, 0x74, 0x61, 0x74, 0x75, 0x73]
}

/// The fields of a response: the status first, then the others.
pub open spec fn response_fields(status: u16, headers: Seq<(Seq<u8>, Seq<u8>)>) -> Seq<
    (Seq<u8>, Seq<u8>),
> {
    seq![(status_name(), status::status_bytes(status))] + headers
}

/// What sending a response does.
pub open spec fn responded<C: CryptoProvider>(
    m: H3Model<C>,
    sizes: Sizes,
    stream_id: u64,
    status: u16,
    headers: Seq<(Seq<u8>, Seq<u8>)>,
    end_stream: bool,
) -> (H3Model<C>, Result<(), Error>) {
    if 1 + headers.len() > fixed::HEADER_CAP {
        (m, Err(Error::TooManyHeaders))
    } else {
        h3::headers_sent(m, sizes, stream_id, response_fields(status, headers), end_stream)
    }
}

/// The event of the unified interface that stands for an HTTP/3 event. The
/// stream ID of a GOAWAY is no error code.
pub open spec fn mapped(ev: H3Event) -> HttpEvent {
    match ev {
        H3Event::Connected => HttpEvent::Connected,
        H3Event::Headers(s) => HttpEvent::Headers(s),
        H3Event::Data(s) => HttpEvent::Data(s),
        H3Event::Finished(s) => HttpEvent::Finished(s),
        H3Event::GoAway(_) => HttpEvent::GoAway { error_code: 0 },
        H3Event::StreamReset { stream_id, error_code } => HttpEvent::StreamReset {
            stream_id,
            error_code,
        },
        H3Event::ConnectionClose { error_code } => HttpEvent::GoAway { error_code },
    }
}

/// Maps an HTTP/3 event to the unified interface.
pub fn map_h3_event(ev: H3Event) -> (r: HttpEvent)
    ensures
        r == mapped(ev),
{
    match ev {
        H3Event::Connected => HttpEvent::Connected,
        H3Event::Headers(s) => HttpEvent::Headers(s),
        H3Event::Data(s) => HttpEvent::Data(s),
        H3Event::Finished(s) => HttpEvent::Finished(s),
        H3Event::GoAway(_) => HttpEvent::GoAway { error_code: 0 },
        H3Event::StreamReset { stream_id, error_code } => HttpEvent::StreamReset {
            stream_id,
            error_code,
        },
        H3Event::ConnectionClose { error_code } => HttpEvent::GoAway { error_code },
    }
}

/// An HTTP/3 server built on top of a QUIC connection.
pub struct H3Server<
    C: CryptoProvider,
    const MAX_STREAMS: usize,
    const SENT_PER_SPACE: usize,
    const MAX_CIDS: usize,
    const STREAM_BUF: usize,
    const SEND_QUEUE: usize,
    const H3_HDR_BUF: usize,
    const H3_DATA_BUF: usize,
> {
    pub inner: H3Connection<
        C,
        MAX_STREAMS,
        SENT_PER_SPACE,
        MAX_CIDS,
        STREAM_BUF,
        SEND_QUEUE,
        H3_HDR_BUF,
        H3_DATA_BUF,
    >,
}

impl<
    C: CryptoProvider,
    const MAX_STREAMS: usize,
    const SENT_PER_SPACE: usize,
    const MAX_CIDS: usize,
    const STREAM_BUF: usize,
    const SEND_QUEUE: usize,
    const H3_HDR_BUF: usize,
    const H3_DATA_BUF: usize,
> View for H3Server<
    C,
    MAX_STREAMS,
    SENT_PER_SPACE,
    MAX_CIDS,
    STREAM_BUF,
    SEND_QUEUE,
    H3_HDR_BUF,
    H3_DATA_BUF,
> {
    type V = H3Model<C>;

    open spec fn view(&self) -> H3Model<C> {
        self.inner@
    }
}

impl<
    C: CryptoProvider,
    const MAX_STREAMS: usize,
    const SENT_PER_SPACE: usize,
    const MAX_CIDS: usize,
    const STREAM_BUF: usize,
    const SEND_QUEUE: usize,
    const H3_HDR_BUF: usize,
    const H3_DATA_BUF: usize,
> H3Server<
    C,
    MAX_STREAMS,
    SENT_PER_SPACE,
    MAX_CIDS,
    STREAM_BUF,
    SEND_QUEUE,
    H3_HDR_BUF,
    H3_DATA_BUF,
> {
    /// The sizes of this connection.
    pub open spec fn sizes() -> Sizes {
        H3Connection::<
            C,
            MAX_STREAMS,
            SENT_PER_SPACE,
            MAX_CIDS,
            STREAM_BUF,
            SEND_QUEUE,
            H3_HDR_BUF,
            H3_DATA_BUF,
        >::sizes()
    }

    /// Wrap a QUIC connection as an HTTP/3 server.
    pub fn new(quic: Connection<C, MAX_STREAMS, SENT_PER_SPACE, MAX_CIDS>) -> (r: Self)
        requires
            quic.wf(),
            H3_HDR_BUF <= varint::MAX_VARINT,
            STREAM_BUF <= varint::MAX_VARINT,
        ensures
            r.inner.wf(),
            r.inner.quic == quic,
            r@ == (H3Model {
                quic: quic@,
                queue: Seq::empty(),
                streams: Seq::empty(),
                events: Seq::empty(),
                inbox: Seq::empty(),
            }),
    {
        H3Server { inner: H3Connection::new(quic) }
    }

    /// Send response headers on a request stream.
    ///
    /// Encodes the `:status` pseudo-header plus any additional headers.
    pub fn send_response(
        &mut self,
        stream_id: u64,
        status: u16,
        headers: &[(&[u8], &[u8])],
        end_stream: bool,
    ) -> (r: Result<(), Error>)
        requires
            old(self).inner.wf(),
        ensures
            final(self).inner.wf(),
            (final(self)@, r) == responded(
                old(self)@,
                Self::sizes(),
                stream_id,
                status,
                qpack::fields_of(headers@),
                end_stream,
            ),
    {
        if headers.len() > 19 {
            return Err(Error::TooManyHeaders);
        }
        let name: [u8; 7] = [0x3au8, 0x73, 0x74, 0x61, 0x74, 0x75, 0x73];
        let digits = StatusCode(status).to_bytes();
        let mut all = fixed::headers_new();
        let _ = fixed::headers_push(&mut all, (name.as_slice(), digits.as_slice()));
        let ghost first = response_fields(status, Seq::empty());
        proof {
            assert(name@ =~= status_name());
            assert(fixed::headers(all) =~= first);
        }
        let ghost extra = qpack::fields_of(headers@);
        let mut i: usize = 0;
        while i < headers.len()
            invariant
                i <= headers@.len() <= 19,
                first.len() == 1,
                extra == qpack::fields_of(headers@),
                fixed::headers(all) =~= first + extra.take(i as int),
            decreases headers@.len() - i,
        {
            let _ = fixed::headers_push(&mut all, headers[i]);
            i = i + 1;
        }
        proof {
            assert(extra.take(i as int) =~= extra);
            assert(first + extra =~= response_fields(status, extra));
        }
        self.inner.send_headers(stream_id, fixed::headers_slice(&all), end_stream)
    }

    /// Poll for HTTP/3 events.
    ///
    /// Before polling, this processes what the transport received.
    /// `scratch` is a caller-provided buffer for reading stream data. Should be
    /// at least MTU-sized.
    pub fn poll_event(&mut self, scratch: &mut [u8]) -> (r: Option<H3Event>)
        requires
            old(self).inner.wf(),
        ensures
            final(self).inner.wf(),
            final(scratch)@.len() == old(scratch)@.len(),
            (final(self)@, r) == h3::next_polled(
                old(self)@,
                Self::sizes(),
                true,
                old(scratch)@.len(),
            ),
    {
        let _ = self.inner.process_quic_events(true, scratch);
        self.inner.poll_event()
    }

    /// Takes bytes of a stream that the transport received, in order.
    pub fn stream_received(&mut self, stream_id: u64, data: &[u8], fin: bool)
        requires
            old(self).inner.wf(),
        ensures
            final(self).inner.wf(),
            final(self)@ == (H3Model {
                inbox: old(self)@.inbox.push(SegmentModel { stream_id, data: data@, fin }),
                ..old(self)@
            }),
    {
        self.inner.stream_received(stream_id, data, fin);
    }

    /// Takes note of an event of the transport.
    pub fn transport_event(&mut self, event: H3Event)
        requires
            old(self).inner.wf(),
        ensures
            final(self).inner.wf(),
            final(self)@ == (H3Model { events: old(self)@.events.push(event), ..old(self)@ }),
    {
        self.inner.transport_event(event);
    }

    /// Read request headers for a stream (after receiving `H3Event::Headers`):
    /// name and value of each.
    pub fn recv_headers(&mut self, stream_id: u64) -> (r: Result<Vec<(Vec<u8>, Vec<u8>)>, Error>)
        requires
            old(self).inner.wf(),
        ensures
            final(self).inner.wf(),
            final(self)@ == old(self)@,
            match h3::headers_read(old(self)@, stream_id) {
                Ok(fields) => r matches Ok(list) && qpack::owned_fields(list@) == fields,
                Err(e) => r matches Err(f) && f == e,
            },
    {
        self.inner.recv_headers(stream_id)
    }

    /// Read request body data from a stream.
    pub fn recv_body(&mut self, stream_id: u64, buf: &mut [u8]) -> (r: Result<
        (usize, bool),
        Error,
    >)
        requires
            old(self).inner.wf(),
        ensures
            final(self).inner.wf(),
            final(buf)@.len() == old(buf)@.len(),
            ({
                let (m, res) = h3::body_read(
                    old(self)@,
                    Self::sizes(),
                    stream_id,
                    old(buf)@.len() as int,
                );
                &&& final(self)@ == m
                &&& match res {
                    Ok((b, last)) => r == Ok::<(usize, bool), Error>((b.len() as usize, last))
                        && final(buf)@ == b + old(buf)@.skip(b.len() as int),
                    Err(e) => r == Err::<(usize, bool), Error>(e) && final(buf)@ == old(buf)@,
                }
            }),
    {
        self.inner.recv_body(stream_id, buf)
    }

    /// Send response body data on a stream.
    pub fn send_body(&mut self, stream_id: u64, data: &[u8], end_stream: bool) -> (r: Result<
        usize,
        Error,
    >)
        requires
            old(self).inner.wf(),
        ensures
            final(self).inner.wf(),
            (final(self)@, r) == h3::data_sent(
                old(self)@,
                Self::sizes(),
                stream_id,
                data@,
                end_stream,
            ),
    {
        self.inner.send_data(stream_id, data, end_stream)
    }

    /// Whether the QUIC handshake is complete and the connection is established.
    pub fn is_established(&self) -> (r: bool)
        ensures
            r == (self@.quic.state == ConnectionState::Active),
    {
        self.inner.quic.is_established()
    }

    /// Whether the connection is closed.
    pub fn is_closed(&self) -> (r: bool)
        ensures
            r == (self@.quic.state == ConnectionState::Closed),
    {
        self.inner.quic.is_closed()
    }

    /// Initiate connection close.
    pub fn close(&mut self, error_code: u64, reason: &[u8])
        requires
            old(self).inner.wf(),
        ensures
            final(self).inner.wf(),
            final(self)@ == (H3Model {
                quic: connection::closing(old(self)@.quic, error_code, reason@),
                ..old(self)@
            }),
    {
        let ghost m = self@;
        self.inner.quic.close(error_code, reason);
        assert(self@.streams =~= m.streams);
        assert(self@.inbox =~= m.inbox);
    }

    /// Build the next outgoing UDP datagram.
    pub fn poll_transmit<'a, const SLOTS: usize, const CRYPTO_BUF: usize>(
        &mut self,
        buf: &'a mut [u8],
        now: Instant,
        pool: &mut HandshakePool<C, SLOTS, CRYPTO_BUF>,
    ) -> (r: Option<Transmit<'a>>)
        requires
            old(self).inner.wf(),
            old(self).inner.quic.numbers_left(),
            old(pool).wf(),
            old(self).inner.quic.slot_ok(old(pool)),
        ensures
            final(self).inner.wf(),
            final(pool).wf(),
            final(self).inner.quic.slot_ok(final(pool)),
            ({
                let p = connection::poll::polled(
                    old(self)@.quic,
                    old(self)@.queue,
                    old(pool)@,
                    old(buf)@.len() as int,
                    CRYPTO_BUF as int,
                    now,
                );
                &&& final(self)@ == (H3Model { quic: p.conn, queue: p.queue, ..old(self)@ })
                &&& final(pool)@ == p.pool
                &&& match p.datagram {
                    Some(d) => r matches Some(t) && t.data@ == d,
                    None => r is None,
                }
            }),
            final(buf)@.len() == old(buf)@.len(),
            old(self)@.quic.state == ConnectionState::Closed ==> final(buf)@ == old(buf)@,
    {
        self.inner.poll_transmit(buf, now, pool)
    }

    /// Force-release the handshake pool slot if one is held.
    ///
    /// Called by the connection manager when a new connection fails after
    /// `Connection::server()` claimed a slot (e.g. malformed initial datagram).
    /// Without this, the slot leaks since `Connection` has no `Drop` impl.
    pub fn release_handshake_slot<const SLOTS: usize, const CRYPTO_BUF: usize>(
        &mut self,
        pool: &mut HandshakePool<C, SLOTS, CRYPTO_BUF>,
    )
        requires
            old(self).inner.wf(),
            old(pool).wf(),
            old(self).inner.quic.slot_ok(old(pool)),
        ensures
            final(self).inner.wf(),
            final(pool).wf(),
            final(self).inner.quic.slot_ok(final(pool)),
            final(self)@ == (H3Model {
                quic: ConnModel { slot: None, ..old(self)@.quic },
                ..old(self)@
            }),
            final(pool)@ == (match old(self)@.quic.slot {
                Some(slot) => old(pool)@.update(slot as int, None),
                None => old(pool)@,
            }),
    {
        let ghost m = self@;
        match self.inner.quic.handshake_slot {
            Some(slot) => {
                pool.release(slot);
                self.inner.quic.handshake_slot = None;
            },
            None => {},
        }
        assert(self@.streams =~= m.streams);
    }
}

} // verus!
