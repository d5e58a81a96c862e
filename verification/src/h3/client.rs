//! HTTP/3 client API.
//!
//! Wraps a QUIC [`Connection`] as an HTTP/3 client capable of sending requests
//! and receiving responses.

use vstd::prelude::*;
use vstd::string::StringSliceAdditionalSpecFns;

use crate::connection;
use crate::connection::handshake_pool::HandshakePool;
use crate::connection::{Connection, ConnectionState, Transmit};
use crate::crypto::CryptoProvider;
use crate::error::Error;
use crate::fixed;
use crate::h3::connection as h3;
use crate::h3::connection::{H3Connection, H3Model, Sizes};
use crate::h3::qpack;
use crate::h3::stream;
use crate::h3::stream::{H3Event, RequestStreamState, SegmentModel};
use crate::transport::Instant;
use crate::varint;

verus! {

/// `:method`
pub open spec fn method_name() -> Seq<u8> {
    seq![0x3au8, 0x6d, 0x65, 0x74, 0x68, 0x6f, 0x64]
}

/// `:scheme`
pub open spec fn scheme_name() -> Seq<u8> {
    seq![0x3au8, 0x73, 0x63, 0x68, 0x65, 0x6d, 0x65]
}

/// `https`
pub open spec fn https() -> Seq<u8> {
    seq![0x68u8, 0x74, 0x74, 0x70, 0x73]
}

/// `:authority`
pub open spec fn authority_name() -> Seq<u8> {
    seq![0x3au8, 0x61, 0x75, 0x74, 0x68, 0x6f, 0x72, 0x69, 0x74, 0x79]
}

/// `:path`
pub open spec fn path_name() -> Seq<u8> {
    seq![0x3au8, 0x70, 0x61, 0x74, 0x68]
}

/// The fields of a request: pseudo-headers first, then the others.
pub open spec fn request_fields(
    method: Seq<u8>,
    path: Seq<u8>,
    authority: Seq<u8>,
    headers: Seq<(Seq<u8>, Seq<u8>)>,
) -> Seq<(Seq<u8>, Seq<u8>)> {
    seq![
        (method_name(), method),
        (scheme_name(), https()),
        (authority_name(), authority),
        (path_name(), path),
    ] + headers
}

/// What sending a request does. A stream that was opened stays open even if its
/// headers could not be sent.
pub open spec fn requested<C: CryptoProvider>(
    m: H3Model<C>,
    sizes: Sizes,
    method: Seq<u8>,
    path: Seq<u8>,
    authority: Seq<u8>,
    headers: Seq<(Seq<u8>, Seq<u8>)>,
    end_stream: bool,
) -> (H3Model<C>, Result<u64, Error>) {
    if 4 + headers.len() > fixed::HEADER_CAP {
        (m, Err(Error::TooManyHeaders))
    } else {
        match connection::stream_opened(m.quic, sizes.max_streams) {
            (_, Err(e)) => (m, Err(e)),
            (quic, Ok(id)) => match h3::headers_sent(
                H3Model { quic, ..m },
                sizes,
                id,
                request_fields(method, path, authority, headers),
                end_stream,
            ) {
                (m2, Err(e)) => (m2, Err(e)),
                (m2, Ok(_)) => (
                    if m2.streams.len() < sizes.max_streams {
                        H3Model { streams: m2.streams.push(stream::fresh_stream(id)), ..m2 }
                    } else {
                        m2
                    },
                    Ok(id),
                ),
            },
        }
    }
}

/// An HTTP/3 client built on top of a QUIC connection.
pub struct H3Client<
    C: CryptoProvider,
    const MAX_STREAMS: usize,
    const SENT_PER_SPACE: usize,
    const MAX_CIDS: usize,
    const STREAM_BUF: usize,
    const SEND_QUEUE: usize,
    const H3_HDR_BUF: usize,
    const H3_DATA_BUF: usize,
> {
    pub inner: H3Connection<
        C,
        MAX_STREAMS,
        SENT_PER_SPACE,
        MAX_CIDS,
        STREAM_BUF,
        SEND_QUEUE,
        H3_HDR_BUF,
        H3_DATA_BUF,
    >,
}

impl<
    C: CryptoProvider,
    const MAX_STREAMS: usize,
    const SENT_PER_SPACE: usize,
    const MAX_CIDS: usize,
    const STREAM_BUF: usize,
    const SEND_QUEUE: usize,
    const H3_HDR_BUF: usize,
    const H3_DATA_BUF: usize,
> View for H3Client<
    C,
    MAX_STREAMS,
    SENT_PER_SPACE,
    MAX_CIDS,
    STREAM_BUF,
    SEND_QUEUE,
    H3_HDR_BUF,
    H3_DATA_BUF,
> {
    type V = H3Model<C>;

    open spec fn view(&self) -> H3Model<C> {
        self.inner@
    }
}

impl<
    C: CryptoProvider,
    const MAX_STREAMS: usize,
    const SENT_PER_SPACE: usize,
    const MAX_CIDS: usize,
    const STREAM_BUF: usize,
    const SEND_QUEUE: usize,
    const H3_HDR_BUF: usize,
    const H3_DATA_BUF: usize,
> H3Client<
    C,
    MAX_STREAMS,
    SENT_PER_SPACE,
    MAX_CIDS,
    STREAM_BUF,
    SEND_QUEUE,
    H3_HDR_BUF,
    H3_DATA_BUF,
> {
    /// The sizes of this connection.
    pub open spec fn sizes() -> Sizes {
        H3Connection::<
            C,
            MAX_STREAMS,
            SENT_PER_SPACE,
            MAX_CIDS,
            STREAM_BUF,
            SEND_QUEUE,
            H3_HDR_BUF,
            H3_DATA_BUF,
        >::sizes()
    }

    /// Wrap a QUIC connection as an HTTP/3 client.
    pub fn new(quic: Connection<C, MAX_STREAMS, SENT_PER_SPACE, MAX_CIDS>) -> (r: Self)
        requires
            quic.wf(),
            H3_HDR_BUF <= varint::MAX_VARINT,
            STREAM_BUF <= varint::MAX_VARINT,
        ensures
            r.inner.wf(),
            r.inner.quic == quic,
            r@ == (H3Model {
                quic: quic@,
                queue: Seq::empty(),
                streams: Seq::empty(),
                events: Seq::empty(),
                inbox: Seq::empty(),
            }),
    {
        H3Client { inner: H3Connection::new(quic) }
    }

    /// Send an HTTP request. Returns the request stream ID.
    ///
    /// Encodes pseudo-headers (`:method`, `:scheme`, `:authority`, `:path`)
    /// plus any additional headers using QPACK, wraps in a HEADERS frame, and
    /// sends on a new bidirectional stream.
    pub fn send_request(
        &mut self,
        method: &str,
        path: &str,
        authority: &str,
        headers: &[(&[u8], &[u8])],
        end_stream: bool,
    ) -> (r: Result<u64, Error>)
        requires
            old(self).inner.wf(),
        ensures
            final(self).inner.wf(),
            (final(self)@, r) == requested(
                old(self)@,
                Self::sizes(),
                method.spec_bytes(),
                path.spec_bytes(),
                authority.spec_bytes(),
                qpack::fields_of(headers@),
                end_stream,
            ),
    {
        if headers.len() > 16 {
            return Err(Error::TooManyHeaders);
        }
        let ghost m0 = self@;
        let stream_id = match self.inner.quic.open_stream() {
            Ok(id) => id,
            Err(e) => {
                assert(self@.streams =~= m0.streams);
                return Err(e);
            },
        };
        assert(self@.streams =~= m0.streams);
        let n1: [u8; 7] = [0x3au8, 0x6d, 0x65, 0x74, 0x68, 0x6f, 0x64];
        let n2: [u8; 7] = [0x3au8, 0x73, 0x63, 0x68, 0x65, 0x6d, 0x65];
        let v2: [u8; 5] = [0x68u8, 0x74, 0x74, 0x70, 0x73];
        let n3: [u8; 10] = [0x3au8, 0x61, 0x75, 0x74, 0x68, 0x6f, 0x72, 0x69, 0x74, 0x79];
        let n4: [u8; 5] = [0x3au8, 0x70, 0x61, 0x74, 0x68];
        let mut all = fixed::headers_new();
        let _ = fixed::headers_push(&mut all, (n1.as_slice(), method.as_bytes()));
        let _ = fixed::headers_push(&mut all, (n2.as_slice(), v2.as_slice()));
        let _ = fixed::headers_push(&mut all, (n3.as_slice(), authority.as_bytes()));
        let _ = fixed::headers_push(&mut all, (n4.as_slice(), path.as_bytes()));
        let ghost pseudo = request_fields(
            method.spec_bytes(),
            path.spec_bytes(),
            authority.spec_bytes(),
            Seq::empty(),
        );
        proof {
            assert(n1@ =~= method_name());
            assert(n2@ =~= scheme_name());
            assert(v2@ =~= https());
            assert(n3@ =~= authority_name());
            assert(n4@ =~= path_name());
            assert(fixed::headers(all) =~= pseudo);
        }
        let ghost extra = qpack::fields_of(headers@);
        let mut i: usize = 0;
        while i < headers.len()
            invariant
                i <= headers@.len() <= 16,
                pseudo.len() == 4,
                extra == qpack::fields_of(headers@),
                fixed::headers(all) =~= pseudo + extra.take(i as int),
            decreases headers@.len() - i,
        {
            let _ = fixed::headers_push(&mut all, headers[i]);
            i = i + 1;
        }
        proof {
            assert(extra.take(i as int) =~= extra);
            assert(pseudo + extra =~= request_fields(
                method.spec_bytes(),
                path.spec_bytes(),
                authority.spec_bytes(),
                extra,
            ));
        }
        match self.inner.send_headers(stream_id, fixed::headers_slice(&all), end_stream) {
            Ok(()) => {},
            Err(e) => {
                return Err(e);
            },
        }
        if self.inner.request_streams.len() < MAX_STREAMS {
            let ghost before = self@.streams;
            self.inner.request_streams.push(RequestStreamState::new(stream_id));
            assert(self@.streams =~= before.push(stream::fresh_stream(stream_id)));
        }
        Ok(stream_id)
    }

    /// Poll for HTTP/3 events.
    ///
    /// Before polling, this processes what the transport received.
    /// `scratch` is a caller-provided buffer for reading stream data. Should be
    /// at least MTU-sized.
    pub fn poll_event(&mut self, scratch: &mut [u8]) -> (r: Option<H3Event>)
        requires
            old(self).inner.wf(),
        ensures
            final(self).inner.wf(),
            final(scratch)@.len() == old(scratch)@.len(),
            (final(self)@, r) == h3::next_polled(
                old(self)@,
                Self::sizes(),
                false,
                old(scratch)@.len(),
            ),
    {
        let _ = self.inner.process_quic_events(false, scratch);
        self.inner.poll_event()
    }

    /// Takes bytes of a stream that the transport received, in order.
    pub fn stream_received(&mut self, stream_id: u64, data: &[u8], fin: bool)
        requires
            old(self).inner.wf(),
        ensures
            final(self).inner.wf(),
            final(self)@ == (H3Model {
                inbox: old(self)@.inbox.push(SegmentModel { stream_id, data: data@, fin }),
                ..old(self)@
            }),
    {
        self.inner.stream_received(stream_id, data, fin);
    }

    /// Takes note of an event of the transport.
    pub fn transport_event(&mut self, event: H3Event)
        requires
            old(self).inner.wf(),
        ensures
            final(self).inner.wf(),
            final(self)@ == (H3Model { events: old(self)@.events.push(event), ..old(self)@ }),
    {
        self.inner.transport_event(event);
    }

    /// Read response headers for a stream (after receiving `H3Event::Headers`):
    /// name and value of each.
    pub fn recv_headers(&mut self, stream_id: u64) -> (r: Result<Vec<(Vec<u8>, Vec<u8>)>, Error>)
        requires
            old(self).inner.wf(),
        ensures
            final(self).inner.wf(),
            final(self)@ == old(self)@,
            match h3::headers_read(old(self)@, stream_id) {
                Ok(fields) => r matches Ok(list) && qpack::owned_fields(list@) == fields,
                Err(e) => r matches Err(f) && f == e,
            },
    {
        self.inner.recv_headers(stream_id)
    }

    /// Read response body data from a stream.
    pub fn recv_body(&mut self, stream_id: u64, buf: &mut [u8]) -> (r: Result<
        (usize, bool),
        Error,
    >)
        requires
            old(self).inner.wf(),
        ensures
            final(self).inner.wf(),
            final(buf)@.len() == old(buf)@.len(),
            ({
                let (m, res) = h3::body_read(
                    old(self)@,
                    Self::sizes(),
                    stream_id,
                    old(buf)@.len() as int,
                );
                &&& final(self)@ == m
                &&& match res {
                    Ok((b, last)) => r == Ok::<(usize, bool), Error>((b.len() as usize, last))
                        && final(buf)@ == b + old(buf)@.skip(b.len() as int),
                    Err(e) => r == Err::<(usize, bool), Error>(e) && final(buf)@ == old(buf)@,
                }
            }),
    {
        self.inner.recv_body(stream_id, buf)
    }

    /// Send request body data on a stream.
    pub fn send_body(&mut self, stream_id: u64, data: &[u8], end_stream: bool) -> (r: Result<
        usize,
        Error,
    >)
        requires
            old(self).inner.wf(),
        ensures
            final(self).inner.wf(),
            (final(self)@, r) == h3::data_sent(
                old(self)@,
                Self::sizes(),
                stream_id,
                data@,
                end_stream,
            ),
    {
        self.inner.send_data(stream_id, data, end_stream)
    }

    /// Whether the QUIC handshake is complete and the connection is established.
    pub fn is_established(&self) -> (r: bool)
        ensures
            r == (self@.quic.state == ConnectionState::Active),
    {
        self.inner.quic.is_established()
    }

    /// Whether the connection is closed.
    pub fn is_closed(&self) -> (r: bool)
        ensures
            r == (self@.quic.state == ConnectionState::Closed),
    {
        self.inner.quic.is_closed()
    }

    /// Initiate connection close.
    pub fn close(&mut self, error_code: u64, reason: &[u8])
        requires
            old(self).inner.wf(),
        ensures
            final(self).inner.wf(),
            final(self)@ == (H3Model {
                quic: connection::closing(old(self)@.quic, error_code, reason@),
                ..old(self)@
            }),
    {
        let ghost m = self@;
        self.inner.quic.close(error_code, reason);
        assert(self@.streams =~= m.streams);
        assert(self@.inbox =~= m.inbox);
    }

    /// Build the next outgoing UDP datagram.
    pub fn poll_transmit<'a, const SLOTS: usize, const CRYPTO_BUF: usize>(
        &mut self,
        buf: &'a mut [u8],
        now: Instant,
        pool: &mut HandshakePool<C, SLOTS, CRYPTO_BUF>,
    ) -> (r: Option<Transmit<'a>>)
        requires
            old(self).inner.wf(),
            old(self).inner.quic.numbers_left(),
            old(pool).wf(),
            old(self).inner.quic.slot_ok(old(pool)),
        ensures
            final(self).inner.wf(),
            final(pool).wf(),
            final(self).inner.quic.slot_ok(final(pool)),
            ({
                let p = connection::poll::polled(
                    old(self)@.quic,
                    old(self)@.queue,
                    old(pool)@,
                    old(buf)@.len() as int,
                    CRYPTO_BUF as int,
                    now,
                );
                &&& final(self)@ == (H3Model { quic: p.conn, queue: p.queue, ..old(self)@ })
                &&& final(pool)@ == p.pool
                &&& match p.datagram {
                    Some(d) => r matches Some(t) && t.data@ == d,
                    None => r is None,
                }
            }),
            final(buf)@.len() == old(buf)@.len(),
            old(self)@.quic.state == ConnectionState::Closed ==> final(buf)@ == old(buf)@,
    {
        self.inner.poll_transmit(buf, now, pool)
    }
}

} // verus!
