//! What a request and its response say to the other side.

use vstd::prelude::*;
use vstd::string::StringSliceAdditionalSpecFns;

use crate::bytes;
use crate::connection;
use crate::connection::ConnectionState;
use crate::crypto::CryptoProvider;
use crate::error::Error;
use crate::h3::client;
use crate::h3::connection as h3;
use crate::h3::connection::{H3Model, Sizes};
use crate::h3::delivery;
use crate::h3::pieces;
use crate::h3::qpack;
use crate::h3::server;
use crate::h3::stream;
use crate::h3::stream::H3Event;
use crate::varint;

verus! {

/// Whether a field is the given name and value.
pub open spec fn is_field(field: (Seq<u8>, Seq<u8>), name: &str, value: Seq<u8>) -> bool {
    field.0 == name.spec_bytes() && field.1 == value
}

/// Whether the fields behind position `from` are the given ones, each once and in
/// order.
pub open spec fn given_behind(
    fields: Seq<(Seq<u8>, Seq<u8>)>,
    from: int,
    headers: Seq<(&[u8], &[u8])>,
) -> bool {
    &&& fields.len() == from + headers.len()
    &&& forall|i: int|
        0 <= i < headers.len() ==> (#[trigger] fields[from + i]).0 == headers[i].0@ && fields[from
            + i].1 == headers[i].1@
}

/// The names and the scheme, spelled out.
proof fn lemma_names()
    ensures
        client::method_name() == ":method".spec_bytes(),
        client::scheme_name() == ":scheme".spec_bytes(),
        client::https() == "https".spec_bytes(),
        client::authority_name() == ":authority".spec_bytes(),
        client::path_name() == ":path".spec_bytes(),
        server::status_name() == ":status".spec_bytes(),
{
    reveal_strlit(":method");
    reveal_strlit(":scheme");
    reveal_strlit("https");
    reveal_strlit(":authority");
    reveal_strlit(":path");
    reveal_strlit(":status");
    bytes::lemma_ascii(":method", client::method_name());
    bytes::lemma_ascii(":scheme", client::scheme_name());
    bytes::lemma_ascii("https", client::https());
    bytes::lemma_ascii(":authority", client::authority_name());
    bytes::lemma_ascii(":path", client::path_name());
    bytes::lemma_ascii(":status", server::status_name());
}

/// Whether some fields are those of a request: `:method`, `:scheme` (which is
/// `https`), `:authority` and `:path`, and then the given headers.
pub open spec fn says_request(
    fields: Seq<(Seq<u8>, Seq<u8>)>,
    method: &str,
    path: &str,
    authority: &str,
    headers: Seq<(&[u8], &[u8])>,
) -> bool {
    &&& given_behind(fields, 4, headers)
    &&& is_field(fields[0], ":method", method.spec_bytes())
    &&& is_field(fields[1], ":scheme", "https".spec_bytes())
    &&& is_field(fields[2], ":authority", authority.spec_bytes())
    &&& is_field(fields[3], ":path", path.spec_bytes())
}

/// Whether some fields are those of a response: `:status` with three decimal
/// digits, and then the given headers.
pub open spec fn says_response(
    fields: Seq<(Seq<u8>, Seq<u8>)>,
    status: u16,
    headers: Seq<(&[u8], &[u8])>,
) -> bool {
    &&& given_behind(fields, 1, headers)
    &&& fields[0].0 == ":status".spec_bytes()
    &&& fields[0].1.len() == 3
    &&& forall|i: int| 0 <= i < 3 ==> 0x30 <= #[trigger] fields[0].1[i] <= 0x39
    &&& status <= 999 ==> status == 100 * (fields[0].1[0] - 0x30) + 10 * (fields[0].1[1] - 0x30) + (
    fields[0].1[2] - 0x30)
}

/// Law: the fields of a request are the caller's: the four pseudo-headers with
/// the method, the scheme, the authority and the path, and behind them each header
/// once and in order.
pub proof fn law_request_fields(
    method: &str,
    path: &str,
    authority: &str,
    headers: Seq<(&[u8], &[u8])>,
)
    ensures
        says_request(
            client::request_fields(
                method.spec_bytes(),
                path.spec_bytes(),
                authority.spec_bytes(),
                qpack::fields_of(headers),
            ),
            method,
            path,
            authority,
            headers,
        ),
{
    lemma_names();
    let fields = client::request_fields(
        method.spec_bytes(),
        path.spec_bytes(),
        authority.spec_bytes(),
        qpack::fields_of(headers),
    );
    assert forall|i: int| 0 <= i < headers.len() implies (#[trigger] fields[4 + i]).0
        == headers[i].0@ && fields[4 + i].1 == headers[i].1@ by {
        assert(fields[4 + i] == qpack::fields_of(headers)[i]);
    }
}

/// Law: the fields of a response are the server's: the status, and behind it each
/// header once and in order.
pub proof fn law_response_fields(status: u16, headers: Seq<(&[u8], &[u8])>)
    ensures
        says_response(
            server::response_fields(status, qpack::fields_of(headers)),
            status,
            headers,
        ),
{
    lemma_names();
    let fields = server::response_fields(status, qpack::fields_of(headers));
    assert forall|i: int| 0 <= i < headers.len() implies (#[trigger] fields[1 + i]).0
        == headers[i].0@ && fields[1 + i].1 == headers[i].1@ by {
        assert(fields[1 + i] == qpack::fields_of(headers)[i]);
    }
    assert(fields[0].1 == crate::http::status::status_bytes(status));
}

/// Law: what the server reads for a request that was sent is what the caller
/// gave: method, `https`, authority and path as pseudo-headers, and then the
/// caller's headers, each once and in order. It is reported once, followed by the
/// end of the stream if the request ended it.
pub proof fn law_request_says_what_was_given<C: CryptoProvider>(
    from: H3Model<C>,
    from_sizes: Sizes,
    method: &str,
    path: &str,
    authority: &str,
    headers: Seq<(&[u8], &[u8])>,
    end_stream: bool,
    id: u64,
    to: H3Model<C>,
    sizes: Sizes,
    room: nat,
)
    requires
        0 <= from_sizes.stream_buf <= usize::MAX,
        from_sizes.hdr_buf <= varint::MAX_VARINT,
        client::requested(
            from,
            from_sizes,
            method.spec_bytes(),
            path.spec_bytes(),
            authority.spec_bytes(),
            qpack::fields_of(headers),
            end_stream,
        ).1 == Ok::<u64, Error>(id),
        delivery::bytes_for(to.inbox, id) == client::requested(
            from,
            from_sizes,
            method.spec_bytes(),
            path.spec_bytes(),
            authority.spec_bytes(),
            qpack::fields_of(headers),
            end_stream,
        ).0.queue.last().data,
        room > 0,
        delivery::orderly(to.inbox, id),
        delivery::end_for(to.inbox, id) == end_stream,
        to.inbox.len() > 0,
        to.inbox[0].stream_id == id,
        id % 4 == 0,
        h3::slot_of(to.streams, id, 0) == to.streams.len(),
        connection::stream_accepted(to.quic, sizes.max_streams, id).1 is Ok,
        from_sizes.hdr_buf <= sizes.hdr_buf,
    ensures
        ({
            let (after, r) = h3::processed(to, sizes, true, room);
            let new = after.events.skip(to.events.len() as int);
            &&& r is Ok ==> ({
                &&& h3::headers_read(after, id) matches Ok(fields)
                &&& says_request(fields, method, path, authority, headers)
            })
            &&& r is Ok ==> pieces::milestones(new, id) == (if end_stream {
                seq![H3Event::Headers(id), H3Event::Finished(id)]
            } else {
                seq![H3Event::Headers(id)]
            })
            &&& (forall|k: int|
                0 <= k < to.inbox.len() ==> (#[trigger] to.inbox[k]).stream_id == id) ==> r is Ok
        }),
{
    delivery::law_request_is_read(
        from,
        from_sizes,
        method.spec_bytes(),
        path.spec_bytes(),
        authority.spec_bytes(),
        qpack::fields_of(headers),
        end_stream,
        id,
        to,
        sizes,
        room,
    );
    law_request_fields(method, path, authority, headers);
    assert(delivery::header_milestones(id, end_stream) =~= (if end_stream {
        seq![H3Event::Headers(id), H3Event::Finished(id)]
    } else {
        seq![H3Event::Headers(id)]
    }));
}

/// Law: what the client reads for a response that was sent is what the server
/// gave: the status, and then the headers, each once and in order. It is reported
/// once, followed by the end of the stream if the response ended it.
pub proof fn law_response_says_what_was_given<C: CryptoProvider>(
    from: H3Model<C>,
    from_sizes: Sizes,
    id: u64,
    status: u16,
    headers: Seq<(&[u8], &[u8])>,
    end_stream: bool,
    to: H3Model<C>,
    sizes: Sizes,
    room: nat,
)
    requires
        0 <= from_sizes.stream_buf <= usize::MAX,
        from_sizes.hdr_buf <= varint::MAX_VARINT,
        server::responded(
            from,
            from_sizes,
            id,
            status,
            qpack::fields_of(headers),
            end_stream,
        ).1 is Ok,
        delivery::bytes_for(to.inbox, id) == server::responded(
            from,
            from_sizes,
            id,
            status,
            qpack::fields_of(headers),
            end_stream,
        ).0.queue.last().data,
        room > 0,
        delivery::orderly(to.inbox, id),
        delivery::end_for(to.inbox, id) == end_stream,
        h3::slot_of(to.streams, id, 0) < to.streams.len(),
        to.streams[h3::slot_of(to.streams, id, 0)] == stream::fresh_stream(id),
        from_sizes.hdr_buf <= sizes.hdr_buf,
    ensures
        ({
            let (after, r) = h3::processed(to, sizes, false, room);
            let new = after.events.skip(to.events.len() as int);
            &&& r is Ok ==> ({
                &&& h3::headers_read(after, id) matches Ok(fields)
                &&& says_response(fields, status, headers)
            })
            &&& r is Ok ==> pieces::milestones(new, id) == (if end_stream {
                seq![H3Event::Headers(id), H3Event::Finished(id)]
            } else {
                seq![H3Event::Headers(id)]
            })
            &&& (forall|k: int|
                0 <= k < to.inbox.len() ==> (#[trigger] to.inbox[k]).stream_id == id) ==> r is Ok
        }),
{
    delivery::law_response_is_read(
        from,
        from_sizes,
        id,
        status,
        qpack::fields_of(headers),
        end_stream,
        to,
        sizes,
        room,
    );
    law_response_fields(status, headers);
    assert(delivery::header_milestones(id, end_stream) =~= (if end_stream {
        seq![H3Event::Headers(id), H3Event::Finished(id)]
    } else {
        seq![H3Event::Headers(id)]
    }));
}

/// Law: a list of fields that was read is what its caller holds: names and values
/// as they stand, in order.
pub proof fn law_fields_are_handed_out(list: Seq<(Vec<u8>, Vec<u8>)>)
    ensures
        qpack::owned_fields(list).len() == list.len(),
        forall|i: int|
            0 <= i < list.len() ==> (#[trigger] qpack::owned_fields(list)[i]).0 == list[i].0@
                && qpack::owned_fields(list)[i].1 == list[i].1@,
{
}

/// Law: reading a body makes progress and ends where the body ends. What is handed
/// out is the front of what waits, as much as there is room for; the end is
/// reported exactly when the stream is over and nothing of its body is left; no
/// other stream is touched; and an unknown stream is an error.
pub proof fn law_reading_a_body<C: CryptoProvider>(
    m: H3Model<C>,
    sizes: Sizes,
    id: u64,
    cap: int,
)
    requires
        cap >= 0,
    ensures
        ({
            let i = h3::slot_of(m.streams, id, 0);
            let (after, r) = h3::body_read(m, sizes, id, cap);
            &&& i >= m.streams.len() ==> after == m && r == Err::<(Seq<u8>, bool), Error>(
                Error::UnknownStream,
            )
            &&& 0 <= i < m.streams.len() ==> ({
                let waiting = m.streams[i].body;
                &&& r matches Ok((data, end))
                &&& data.len() <= waiting.len()
                &&& data == waiting.take(data.len() as int)
                &&& data.len() == cap || data.len() == waiting.len()
                &&& data.len() <= cap
                &&& end <==> after.streams[i].ended && after.streams[i].body.len() == 0
                &&& after.streams.len() == m.streams.len()
                &&& forall|j: int|
                    0 <= j < m.streams.len() && j != i ==> #[trigger] after.streams[j]
                        == m.streams[j]
                &&& after.queue == m.queue
                &&& after.inbox == m.inbox
                &&& after.quic == m.quic
            })
        }),
{
}

/// Law: reading headers changes nothing and gives what was received: an error for
/// an unknown stream, a wait as long as there are none, an error for a section
/// that cannot be read.
pub proof fn law_reading_headers<C: CryptoProvider>(m: H3Model<C>, id: u64)
    ensures
        ({
            let i = h3::slot_of(m.streams, id, 0);
            let r = h3::headers_read(m, id);
            &&& i >= m.streams.len() ==> r == Err::<Seq<(Seq<u8>, Seq<u8>)>, Error>(
                Error::UnknownStream,
            )
            &&& 0 <= i < m.streams.len() && m.streams[i].block is None ==> r == Err::<
                Seq<(Seq<u8>, Seq<u8>)>,
                Error,
            >(Error::WouldBlock)
            &&& 0 <= i < m.streams.len() ==> (m.streams[i].block matches Some(b) ==> match qpack::decoded(b) {
                Some(fields) => r == Ok::<Seq<(Seq<u8>, Seq<u8>)>, Error>(fields),
                None => r == Err::<Seq<(Seq<u8>, Seq<u8>)>, Error>(Error::InvalidState),
            })
        }),
{
}

/// Law: events are handed out one by one, the oldest first, and each once.
pub proof fn law_events_in_order<C: CryptoProvider>(m: H3Model<C>)
    ensures
        ({
            let (after, e) = h3::event_polled(m);
            &&& m.events.len() == 0 ==> e is None && after == m
            &&& m.events.len() > 0 ==> {
                &&& e == Some(m.events[0])
                &&& seq![m.events[0]] + after.events == m.events
                &&& after == (H3Model { events: after.events, ..m })
            }
        }),
{
    if m.events.len() > 0 {
        assert(seq![m.events[0]] + m.events.drop_first() =~= m.events);
    }
}

/// Whether a stream can take `n` more bytes in one piece: it is known, not
/// finished, has that much of its limit left, and the connection is open and has a
/// place in its queue.
pub open spec fn can_take<C: CryptoProvider>(m: H3Model<C>, sizes: Sizes, id: u64, n: int) -> bool {
    let i = connection::position(m.quic.streams, id, 0);
    let s = m.quic.streams[i];
    &&& m.quic.state == ConnectionState::Handshaking || m.quic.state == ConnectionState::Active
    &&& 0 <= i < m.quic.streams.len()
    &&& !s.fin_sent
    &&& m.queue.len() < sizes.send_queue
    &&& n <= sizes.stream_buf
    &&& s.send_offset + n <= s.send_limit
}

/// Law: headers are sent whenever the stream can take them whole: then they are
/// queued as one HEADERS frame.
pub proof fn law_headers_are_sent_if_they_fit<C: CryptoProvider>(
    m: H3Model<C>,
    sizes: Sizes,
    id: u64,
    fields: Seq<(Seq<u8>, Seq<u8>)>,
    end_stream: bool,
)
    requires
        0 <= sizes.stream_buf <= usize::MAX,
        qpack::section(fields).len() <= sizes.hdr_buf,
        can_take(m, sizes, id, h3::headers_frame(fields).len() as int),
    ensures
        h3::headers_sent(m, sizes, id, fields, end_stream).1 is Ok,
{
}

/// Law: body bytes are taken whole whenever the stream can take them with their
/// frame; they are refused for a closed connection, an unknown or a finished
/// stream, and have to wait for a place in the queue.
pub proof fn law_body_is_sent_if_it_fits<C: CryptoProvider>(
    m: H3Model<C>,
    sizes: Sizes,
    id: u64,
    data: Seq<u8>,
    end_stream: bool,
)
    requires
        0 <= sizes.stream_buf <= usize::MAX,
    ensures
        ({
            let r = h3::data_sent(m, sizes, id, data, end_stream).1;
            let i = connection::position(m.quic.streams, id, 0);
            let open = m.quic.state == ConnectionState::Handshaking || m.quic.state
                == ConnectionState::Active;
            &&& can_take(
                m,
                sizes,
                id,
                (1 + varint::varint_size(data.len() as int) + data.len()) as int,
            ) ==> r == Ok::<usize, Error>(data.len() as usize)
            &&& !open ==> r == Err::<usize, Error>(Error::InvalidState)
            &&& open && i == m.quic.streams.len() ==> r == Err::<usize, Error>(
                Error::UnknownStream,
            )
            &&& open && 0 <= i < m.quic.streams.len() && m.quic.streams[i].fin_sent ==> r == Err::<
                usize,
                Error,
            >(Error::InvalidState)
            &&& open && 0 <= i < m.quic.streams.len() && !m.quic.streams[i].fin_sent
                && m.queue.len() >= sizes.send_queue ==> r == Err::<usize, Error>(Error::WouldBlock)
        }),
{
    connection::lemma_position_bounds(m.quic.streams, id, 0);
}

/// Law: bytes of a stream that carries no request change nothing. For a client
/// that is every stream it did not open; for a server, every one whose number is
/// not a multiple of four.
pub proof fn law_other_streams_are_passed_over<C: CryptoProvider>(
    m: H3Model<C>,
    sizes: Sizes,
    id: u64,
    data: Seq<u8>,
    fin: bool,
)
    requires
        forall|j: int| 0 <= j < m.streams.len() ==> (#[trigger] m.streams[j]).stream_id != id,
    ensures
        h3::stream_fed(m, sizes, false, id, data, fin) == (m, Ok::<(), Error>(())),
        id % 4 != 0 ==> h3::stream_fed(m, sizes, true, id, data, fin) == (m, Ok::<(), Error>(())),
{
    h3::lemma_slot(m.streams, id, 0, m.streams.len() as int);
}

/// Law: bytes of a stream concern that stream alone: the others stay as they are,
/// nothing is sent, and what is reported is about it.
pub proof fn law_streams_do_not_mix<C: CryptoProvider>(
    m: H3Model<C>,
    sizes: Sizes,
    is_server: bool,
    id: u64,
    data: Seq<u8>,
    fin: bool,
)
    ensures
        ({
            let (after, r) = h3::stream_fed(m, sizes, is_server, id, data, fin);
            &&& after.queue == m.queue
            &&& after.inbox == m.inbox
            &&& after.streams.len() >= m.streams.len()
            &&& forall|j: int|
                0 <= j < m.streams.len() && (#[trigger] m.streams[j]).stream_id != id
                    ==> after.streams[j] == m.streams[j]
            &&& after.events.len() >= m.events.len()
            &&& after.events.take(m.events.len() as int) == m.events
        }),
{
    let i = h3::slot_of(m.streams, id, 0);
    lemma_slot_is_there(m.streams, id, 0);
    let (after, r) = h3::stream_fed(m, sizes, is_server, id, data, fin);
    assert(after.events.take(m.events.len() as int) =~= m.events);
}

/// A stream that is found is the one looked for.
proof fn lemma_slot_is_there(streams: Seq<stream::StreamModel>, id: u64, i: int)
    requires
        0 <= i <= streams.len(),
    ensures
        i <= h3::slot_of(streams, id, i) <= streams.len(),
        h3::slot_of(streams, id, i) < streams.len() ==> streams[h3::slot_of(
            streams,
            id,
            i,
        )].stream_id == id,
    decreases streams.len() - i,
{
    if i < streams.len() && streams[i].stream_id != id {
        lemma_slot_is_there(streams, id, i + 1);
    }
}

/// Law: the first field section of a stream stays. Whatever comes behind it,
/// trailers too, is no second one and is not reported as headers.
pub proof fn law_first_section_stays(s: stream::StreamModel, hdr_cap: int, data_cap: int)
    requires
        s.block is Some,
    ensures
        ({
            let (t, events, r) = stream::advanced(s, hdr_cap, data_cap);
            &&& t.block == s.block
            &&& r is Ok
            &&& t.stream_id == s.stream_id
            &&& t.fin == s.fin
            &&& forall|j: int|
                0 <= j < events.len() ==> (#[trigger] events[j] == H3Event::Data(s.stream_id)
                    || events[j] == H3Event::Finished(s.stream_id))
        }),
    decreases stream::work(s),
{
    stream::lemma_step_works(s, hdr_cap, data_cap);
    match stream::step(s, hdr_cap, data_cap) {
        stream::Step::Go(t, ev) => {
            law_first_section_stays(t, hdr_cap, data_cap);
        },
        _ => {},
    }
}

/// Law: a field section larger than there is room for is refused as soon as its
/// length is known, with the length that it has; one that fits is taken.
pub proof fn law_large_section_is_refused(
    s: stream::StreamModel,
    payload: Seq<u8>,
    tail: Seq<u8>,
    hdr_cap: int,
    data_cap: int,
)
    requires
        s.inside == stream::Inside::Nothing,
        s.block is None,
        payload.len() <= varint::MAX_VARINT,
        payload.len() <= usize::MAX,
        s.pending == stream::h3_frame(1, payload) + tail,
    ensures
        payload.len() > hdr_cap ==> stream::advanced(s, hdr_cap, data_cap) == (
            s,
            Seq::<H3Event>::empty(),
            Err::<(), Error>(Error::BufferTooSmall { needed: payload.len() as usize }),
        ),
        payload.len() <= hdr_cap ==> ({
            let (t, events, r) = stream::advanced(s, hdr_cap, data_cap);
            &&& t.block == Some(payload)
            &&& r is Ok
            &&& events.len() > 0 && events[0] == H3Event::Headers(s.stream_id)
        }),
{
    pieces::lemma_frame_header(1, payload, tail);
    match stream::header_at(s.pending) {
        Some((kind, len, n)) => {
            let behind = s.pending.skip(n);
            assert(behind.len() == s.pending.len() - n);
            assert(s.pending.subrange(n, n + len) =~= behind.take(len));
            assert(behind.take(len) =~= payload);
            if payload.len() <= hdr_cap {
                let t = stream::StreamModel {
                    pending: s.pending.skip(n + len),
                    block: Some(s.pending.subrange(n, n + len)),
                    ..s
                };
                law_first_section_stays(t, hdr_cap, data_cap);
            }
        },
        None => {},
    }
}

/// Law: a client listens for the response: after a request its stream is known,
/// as one on which nothing was received, as long as there is room for one more.
pub proof fn law_request_awaits_response<C: CryptoProvider>(
    m: H3Model<C>,
    sizes: Sizes,
    method: Seq<u8>,
    path: Seq<u8>,
    authority: Seq<u8>,
    headers: Seq<(Seq<u8>, Seq<u8>)>,
    end_stream: bool,
)
    requires
        m.streams.len() < sizes.max_streams,
    ensures
        ({
            let (after, r) = client::requested(
                m,
                sizes,
                method,
                path,
                authority,
                headers,
                end_stream,
            );
            &&& r matches Ok(id) ==> {
                &&& after.streams.len() == m.streams.len() + 1
                &&& after.streams.drop_last() == m.streams
                &&& after.streams.last().stream_id == id
                &&& after.streams.last().pending.len() == 0
                &&& after.streams.last().body.len() == 0
                &&& after.streams.last().block is None
                &&& !after.streams.last().fin && !after.streams.last().ended
                &&& after.streams.last().inside == stream::Inside::Nothing
            }
            &&& r is Err ==> after.streams == m.streams && after.queue == m.queue
            &&& after.events == m.events && after.inbox == m.inbox
        }),
{
    let (after, r) = client::requested(m, sizes, method, path, authority, headers, end_stream);
    if r is Ok {
        assert(after.streams.drop_last() =~= m.streams);
    }
}

} // verus!
