//! HTTP/3 clients and servers behind the unified connection interface.

use vstd::prelude::*;

use crate::connection::ConnectionState;
use crate::crypto::CryptoProvider;
use crate::error::Error;
use crate::h3::client::H3Client;
use crate::h3::connection as h3;
use crate::h3::exchange;
use crate::h3::qpack;
use crate::h3::server;
use crate::h3::server::{map_h3_event, H3Server};
use crate::h3::stream;
use crate::http::server_conn::{HttpEvent, HttpServerConn};
use crate::varint;

verus! {

impl<
    C: CryptoProvider,
    const MAX_STREAMS: usize,
    const SENT_PER_SPACE: usize,
    const MAX_CIDS: usize,
    const STREAM_BUF: usize,
    const SEND_QUEUE: usize,
    const H3_HDR_BUF: usize,
    const H3_DATA_BUF: usize,
> HttpServerConn for H3Client<
    C,
    MAX_STREAMS,
    SENT_PER_SPACE,
    MAX_CIDS,
    STREAM_BUF,
    SEND_QUEUE,
    H3_HDR_BUF,
    H3_DATA_BUF,
> {
    open spec fn ready(&self) -> bool {
        self.inner.wf()
    }

    open spec fn next_event(&self, room: nat) -> Option<HttpEvent> {
        match h3::next_polled(self@, Self::sizes(), false, room).1 {
            Some(e) => Some(server::mapped(e)),
            None => None,
        }
    }

    open spec fn event_taken(&self, room: nat, after: &Self) -> bool {
        after@ == h3::next_polled(self@, Self::sizes(), false, room).0
    }

    fn poll_event(&mut self, scratch: &mut [u8]) -> (r: Option<HttpEvent>)
    {
        match H3Client::poll_event(self, scratch) {
            Some(e) => Some(map_h3_event(e)),
            None => None,
        }
    }

    fn recv_headers(&mut self, stream_id: u64) -> (r: Result<Vec<(Vec<u8>, Vec<u8>)>, Error>)
        ensures
            final(self)@ == old(self)@,
            match h3::headers_read(old(self)@, stream_id) {
                Ok(fields) => r matches Ok(list) && qpack::owned_fields(list@) == fields,
                Err(e) => r matches Err(f) && f == e,
            },
    {
        H3Client::recv_headers(self, stream_id)
    }

    fn recv_body(&mut self, stream_id: u64, buf: &mut [u8]) -> (r: Result<(usize, bool), Error>)
        ensures
            ({
                let (m, res) = h3::body_read(
                    old(self)@,
                    Self::sizes(),
                    stream_id,
                    old(buf)@.len() as int,
                );
                &&& final(self)@ == m
                &&& match res {
                    Ok((b, last)) => r == Ok::<(usize, bool), Error>((b.len() as usize, last))
                        && final(buf)@ == b + old(buf)@.skip(b.len() as int),
                    Err(e) => r == Err::<(usize, bool), Error>(e) && final(buf)@ == old(buf)@,
                }
            }),
    {
        H3Client::recv_body(self, stream_id, buf)
    }

    /// A client sends no responses.
    fn send_response(
        &mut self,
        _stream_id: u64,
        _status: u16,
        _headers: &[(&[u8], &[u8])],
        _end_stream: bool,
    ) -> (r: Result<(), Error>)
        ensures
            r == Err::<(), Error>(Error::InvalidState),
            final(self)@ == old(self)@,
    {
        Err(Error::InvalidState)
    }

    fn send_body(&mut self, stream_id: u64, data: &[u8], end_stream: bool) -> (r: Result<
        usize,
        Error,
    >)
        ensures
            (final(self)@, r) == h3::data_sent(
                old(self)@,
                Self::sizes(),
                stream_id,
                data@,
                end_stream,
            ),
    {
        H3Client::send_body(self, stream_id, data, end_stream)
    }

    fn is_established(&self) -> (r: bool)
        ensures
            r == (self@.quic.state == ConnectionState::Active),
    {
        H3Client::is_established(self)
    }

    fn is_closed(&self) -> (r: bool)
        ensures
            r == (self@.quic.state == ConnectionState::Closed),
    {
        H3Client::is_closed(self)
    }

    /// HTTP/3 runs over UDP.
    fn tcp_feed_data(&mut self, _data: &[u8]) -> (r: Result<(), Error>)
        ensures
            r == Ok::<(), Error>(()),
            final(self)@ == old(self)@,
    {
        Ok(())
    }

    /// HTTP/3 runs over UDP.
    fn tcp_poll_output<'a>(&mut self, _buf: &'a mut [u8]) -> (r: Option<&'a [u8]>)
        ensures
            r is None,
            final(self)@ == old(self)@,
    {
        None
    }
}

impl<
    C: CryptoProvider,
    const MAX_STREAMS: usize,
    const SENT_PER_SPACE: usize,
    const MAX_CIDS: usize,
    const STREAM_BUF: usize,
    const SEND_QUEUE: usize,
    const H3_HDR_BUF: usize,
    const H3_DATA_BUF: usize,
> HttpServerConn for H3Server<
    C,
    MAX_STREAMS,
    SENT_PER_SPACE,
    MAX_CIDS,
    STREAM_BUF,
    SEND_QUEUE,
    H3_HDR_BUF,
    H3_DATA_BUF,
> {
    open spec fn ready(&self) -> bool {
        self.inner.wf()
    }

    open spec fn next_event(&self, room: nat) -> Option<HttpEvent> {
        match h3::next_polled(self@, Self::sizes(), true, room).1 {
            Some(e) => Some(server::mapped(e)),
            None => None,
        }
    }

    open spec fn event_taken(&self, room: nat, after: &Self) -> bool {
        after@ == h3::next_polled(self@, Self::sizes(), true, room).0
    }

    fn poll_event(&mut self, scratch: &mut [u8]) -> (r: Option<HttpEvent>)
    {
        match H3Server::poll_event(self, scratch) {
            Some(e) => Some(map_h3_event(e)),
            None => None,
        }
    }

    fn recv_headers(&mut self, stream_id: u64) -> (r: Result<Vec<(Vec<u8>, Vec<u8>)>, Error>)
        ensures
            final(self)@ == old(self)@,
            match h3::headers_read(old(self)@, stream_id) {
                Ok(fields) => r matches Ok(list) && qpack::owned_fields(list@) == fields,
                Err(e) => r matches Err(f) && f == e,
            },
    {
        H3Server::recv_headers(self, stream_id)
    }

    fn recv_body(&mut self, stream_id: u64, buf: &mut [u8]) -> (r: Result<(usize, bool), Error>)
        ensures
            ({
                let (m, res) = h3::body_read(
                    old(self)@,
                    Self::sizes(),
                    stream_id,
                    old(buf)@.len() as int,
                );
                &&& final(self)@ == m
                &&& match res {
                    Ok((b, last)) => r == Ok::<(usize, bool), Error>((b.len() as usize, last))
                        && final(buf)@ == b + old(buf)@.skip(b.len() as int),
                    Err(e) => r == Err::<(usize, bool), Error>(e) && final(buf)@ == old(buf)@,
                }
            }),
    {
        H3Server::recv_body(self, stream_id, buf)
    }

    fn send_response(
        &mut self,
        stream_id: u64,
        status: u16,
        headers: &[(&[u8], &[u8])],
        end_stream: bool,
    ) -> (r: Result<(), Error>)
        ensures
            (final(self)@, r) == server::responded(
                old(self)@,
                Self::sizes(),
                stream_id,
                status,
                qpack::fields_of(headers@),
                end_stream,
            ),
    {
        H3Server::send_response(self, stream_id, status, headers, end_stream)
    }

    fn send_body(&mut self, stream_id: u64, data: &[u8], end_stream: bool) -> (r: Result<
        usize,
        Error,
    >)
        ensures
            (final(self)@, r) == h3::data_sent(
                old(self)@,
                Self::sizes(),
                stream_id,
                data@,
                end_stream,
            ),
    {
        H3Server::send_body(self, stream_id, data, end_stream)
    }

    fn is_established(&self) -> (r: bool)
        ensures
            r == (self@.quic.state == ConnectionState::Active),
    {
        H3Server::is_established(self)
    }

    fn is_closed(&self) -> (r: bool)
        ensures
            r == (self@.quic.state == ConnectionState::Closed),
    {
        H3Server::is_closed(self)
    }

    /// HTTP/3 runs over UDP.
    fn tcp_feed_data(&mut self, _data: &[u8]) -> (r: Result<(), Error>)
        ensures
            r == Ok::<(), Error>(()),
            final(self)@ == old(self)@,
    {
        Ok(())
    }

    /// HTTP/3 runs over UDP.
    fn tcp_poll_output<'a>(&mut self, _buf: &'a mut [u8]) -> (r: Option<&'a [u8]>)
        ensures
            r is None,
            final(self)@ == old(self)@,
    {
        None
    }
}

/// Law: where nothing is left to process, the next event of a client is the oldest
/// one that waits, and it is taken off; and bytes of a stream that the client did
/// not open bring no event.
pub proof fn law_client_events<
    C: CryptoProvider,
    const MAX_STREAMS: usize,
    const SENT_PER_SPACE: usize,
    const MAX_CIDS: usize,
    const STREAM_BUF: usize,
    const SEND_QUEUE: usize,
    const H3_HDR_BUF: usize,
    const H3_DATA_BUF: usize,
>(
    c: H3Client<
        C,
        MAX_STREAMS,
        SENT_PER_SPACE,
        MAX_CIDS,
        STREAM_BUF,
        SEND_QUEUE,
        H3_HDR_BUF,
        H3_DATA_BUF,
    >,
    after: H3Client<
        C,
        MAX_STREAMS,
        SENT_PER_SPACE,
        MAX_CIDS,
        STREAM_BUF,
        SEND_QUEUE,
        H3_HDR_BUF,
        H3_DATA_BUF,
    >,
    room: nat,
)
    ensures
        c@.inbox.len() == 0 && c@.events.len() == 0 ==> c.next_event(room) is None,
        c@.inbox.len() == 0 && c@.events.len() > 0 ==> c.next_event(room) == Some(
            server::mapped(c@.events[0]),
        ),
        c@.inbox.len() == 0 && c@.events.len() > 0 && c.event_taken(room, &after) ==> after@.events
            == c@.events.drop_first() && after@.streams == c@.streams && after@.quic == c@.quic
            && after@.queue == c@.queue,
        c@.inbox.len() == 1 && c@.streams.len() == 0 && c@.events.len() == 0 && c@.inbox[0].data.len()
            <= room ==> c.next_event(room) is None,
{
    reveal_with_fuel(h3::processed, 2);
}

/// Law: where nothing is left to process, the next event of a server is the oldest
/// one that waits, and it is taken off; and the header fields of a request on a new
/// stream are reported as such.
pub proof fn law_server_events<
    C: CryptoProvider,
    const MAX_STREAMS: usize,
    const SENT_PER_SPACE: usize,
    const MAX_CIDS: usize,
    const STREAM_BUF: usize,
    const SEND_QUEUE: usize,
    const H3_HDR_BUF: usize,
    const H3_DATA_BUF: usize,
>(
    s: H3Server<
        C,
        MAX_STREAMS,
        SENT_PER_SPACE,
        MAX_CIDS,
        STREAM_BUF,
        SEND_QUEUE,
        H3_HDR_BUF,
        H3_DATA_BUF,
    >,
    after: H3Server<
        C,
        MAX_STREAMS,
        SENT_PER_SPACE,
        MAX_CIDS,
        STREAM_BUF,
        SEND_QUEUE,
        H3_HDR_BUF,
        H3_DATA_BUF,
    >,
    room: nat,
    id: u64,
    payload: Seq<u8>,
)
    ensures
        s@.inbox.len() == 0 && s@.events.len() == 0 ==> s.next_event(room) is None,
        s@.inbox.len() == 0 && s@.events.len() > 0 ==> s.next_event(room) == Some(
            server::mapped(s@.events[0]),
        ),
        s@.inbox.len() == 0 && s@.events.len() > 0 && s.event_taken(room, &after) ==> after@.events
            == s@.events.drop_first() && after@.streams == s@.streams && after@.quic == s@.quic
            && after@.queue == s@.queue,
        s@.inbox.len() == 1 && s@.streams.len() == 0 && s@.events.len() == 0
            && s@.quic.streams.len() == 0 && MAX_STREAMS > 0 && id % 4 == 0 && s@.inbox[0].stream_id
            == id && s@.inbox[0].data == stream::h3_frame(1, payload) && s@.inbox[0].data.len()
            <= room && payload.len() <= H3_HDR_BUF && payload.len() <= varint::MAX_VARINT
            ==> s.next_event(room) == Some(HttpEvent::Headers(id)),
{
    reveal_with_fuel(h3::processed, 2);
    let m = s@;
    if m.inbox.len() == 1 && m.streams.len() == 0 && m.events.len() == 0 && m.quic.streams.len()
        == 0 && MAX_STREAMS > 0 && id % 4 == 0 && m.inbox[0].stream_id == id && m.inbox[0].data
        == stream::h3_frame(1, payload) && m.inbox[0].data.len() <= room && payload.len()
        <= H3_HDR_BUF && payload.len() <= varint::MAX_VARINT {
        let seg = m.inbox[0];
        let n = seg.data.len() as int;
        assert(seg.data.take(n) =~= seg.data);
        let fed = stream::with_bytes(stream::fresh_stream(id), seg.data, seg.fin);
        assert(fed.pending =~= stream::h3_frame(1, payload) + Seq::<u8>::empty());
        exchange::law_large_section_is_refused(
            fed,
            payload,
            Seq::empty(),
            H3_HDR_BUF as int,
            H3_DATA_BUF as int,
        );
        assert(h3::inbox_after(m.inbox, n).len() == 0);
        let pushed = m.streams.push(stream::fresh_stream(id));
        assert(pushed[0] == stream::fresh_stream(id));
    }
}

} // verus!
