//! What the two ends of an HTTP/3 exchange promise together.

use vstd::prelude::*;

use crate::connection;
use crate::crypto::CryptoProvider;
use crate::error::Error;
use crate::h3::client;
use crate::h3::connection as h3;
use crate::h3::connection::{H3Model, Sizes};
use crate::h3::qpack;
use crate::h3::stream;
use crate::h3::stream::{H3Event, Inside, SegmentModel, StreamModel};
use crate::varint;

verus! {

/// Continuation bytes hold their value.
proof fn lemma_continuation_roundtrip(pre: Seq<u8>, v: nat, rest: Seq<u8>)
    ensures
        qpack::continued(pre + qpack::continuation(v) + rest, pre.len() as int) == Some(
            (v, (pre + qpack::continuation(v)).len() as int),
        ),
    decreases v,
{
    let c = qpack::continuation(v);
    let block = pre + c + rest;
    let n = pre.len() as int;
    if v < 128 {
        assert(block[n] == v as u8);
    } else {
        let first = (128 + v % 128) as u8;
        let tail = qpack::continuation(v / 128);
        assert(c == seq![first] + tail);
        let pre2 = pre.push(first);
        assert(block =~= pre2 + tail + rest);
        lemma_continuation_roundtrip(pre2, v / 128, rest);
        assert(block[n] == first);
    }
}

/// A string behind its length is read back.
proof fn lemma_string_roundtrip(pre: Seq<u8>, tag: u8, limit: nat, s: Seq<u8>, rest: Seq<u8>)
    requires
        limit > 0,
        tag + limit <= 255,
    ensures
        ({
            let block = pre + qpack::prefixed(tag, limit, s.len()) + s + rest;
            let n = pre.len() as int;
            let low = (block[n] - tag) as nat;
            &&& n < block.len()
            &&& block[n] >= tag
            &&& block[n] - tag <= limit
            &&& qpack::string_at(block, n, low, limit) == Some(
                (s, (pre + qpack::prefixed(tag, limit, s.len()) + s).len() as int),
            )
        }),
{
    let p = qpack::prefixed(tag, limit, s.len());
    let block = pre + p + s + rest;
    let n = pre.len() as int;
    let start = (pre + p).len() as int;
    assert(block.subrange(start, start + s.len()) =~= s);
    assert(block[n] == p[0]);
    if s.len() >= limit {
        let v = (s.len() - limit) as nat;
        let first = (tag + limit) as u8;
        let pre2 = pre.push(first);
        assert(p == seq![first] + qpack::continuation(v));
        lemma_continuation_roundtrip(pre2, v, s + rest);
        assert(block =~= pre2 + qpack::continuation(v) + (s + rest));
        assert((pre2 + qpack::continuation(v)).len() == start);
    }
}

/// A field line is read back.
proof fn lemma_line_roundtrip(pre: Seq<u8>, name: Seq<u8>, value: Seq<u8>, rest: Seq<u8>)
    ensures
        qpack::line_at(pre + qpack::field_line(name, value) + rest, pre.len() as int) == Some(
            ((name, value), (pre + qpack::field_line(name, value)).len() as int),
        ),
{
    let line = qpack::field_line(name, value);
    let block = pre + line + rest;
    let n = pre.len() as int;
    let p1 = qpack::prefixed(0x20, 7, name.len());
    let p2 = qpack::prefixed(0, 127, value.len());
    lemma_string_roundtrip(pre, 0x20, 7, name, p2 + value + rest);
    assert(block =~= pre + p1 + name + (p2 + value + rest));
    let mid = pre + p1 + name;
    lemma_string_roundtrip(mid, 0, 127, value, rest);
    assert(block =~= mid + p2 + value + rest);
    let b = block[n];
    assert(0x20 <= b <= 0x27);
    assert(b / 8 % 2 == 0 && b % 8 == b - 0x20);
    let m = mid.len() as int;
    assert(block[m] - 0 == block[m]);
    assert(block[m] % 128 == block[m]);
    assert((mid + p2 + value).len() == (pre + line).len());
}

/// A line in front of lines that are read back.
proof fn lemma_lines_step(
    before: Seq<u8>,
    name: Seq<u8>,
    value: Seq<u8>,
    rest: Seq<u8>,
    tail: Seq<(Seq<u8>, Seq<u8>)>,
)
    requires
        ({
            let done = before + qpack::field_line(name, value);
            qpack::lines_from(done + rest, done.len() as int) == Some(tail)
        }),
    ensures
        qpack::lines_from(before + qpack::field_line(name, value) + rest, before.len() as int)
            == Some(seq![(name, value)] + tail),
{
    let line = qpack::field_line(name, value);
    lemma_line_roundtrip(before, name, value, rest);
    assert(qpack::prefixed(0x20, 7, name.len()).len() > 0);
    assert(line.len() > 0);
}

/// Field lines are read back, whatever stands in front of them.
proof fn lemma_lines_roundtrip(
    pre: Seq<u8>,
    fields: Seq<(Seq<u8>, Seq<u8>)>,
    rest: Seq<u8>,
    tail: Seq<(Seq<u8>, Seq<u8>)>,
)
    requires
        ({
            let done = pre + qpack::field_lines(fields);
            qpack::lines_from(done + rest, done.len() as int) == Some(tail)
        }),
    ensures
        qpack::lines_from(pre + qpack::field_lines(fields) + rest, pre.len() as int) == Some(
            fields + tail,
        ),
    decreases fields.len(),
{
    if fields.len() == 0 {
        assert(pre + qpack::field_lines(fields) =~= pre);
        assert(fields + tail =~= tail);
    } else {
        let init = fields.drop_last();
        let name = fields.last().0;
        let value = fields.last().1;
        let line = qpack::field_line(name, value);
        let before = pre + qpack::field_lines(init);
        assert(qpack::field_lines(fields) == qpack::field_lines(init) + line);
        lemma_assoc(pre, qpack::field_lines(init), line, rest);
        lemma_lines_step(before, name, value, rest, tail);
        let more = seq![(name, value)] + tail;
        lemma_lines_roundtrip(pre, init, line + rest, more);
        assert(init + more =~= fields + tail);
    }
}

/// Joining is associative.
proof fn lemma_assoc(a: Seq<u8>, b: Seq<u8>, c: Seq<u8>, d: Seq<u8>)
    ensures
        a + (b + c) == a + b + c,
        a + b + (c + d) == a + b + c + d,
{
    assert(a + (b + c) =~= a + b + c);
    assert(a + b + (c + d) =~= a + b + c + d);
}

/// Law: decoding an encoded field section gives the fields back, in order.
pub proof fn law_section_roundtrip(fields: Seq<(Seq<u8>, Seq<u8>)>)
    ensures
        qpack::decoded(qpack::section(fields)) == Some(fields),
{
    let pre = seq![0u8, 0u8];
    let none = Seq::<u8>::empty();
    let no_fields = Seq::<(Seq<u8>, Seq<u8>)>::empty();
    let block = qpack::section(fields);
    assert(block + none =~= block);
    assert(qpack::lines_from(block, block.len() as int) == Some(no_fields));
    lemma_lines_roundtrip(pre, fields, none, no_fields);
    assert(fields + no_fields =~= fields);
}

/// The header of a frame is read back.
proof fn lemma_header_roundtrip(kind: u64, payload: Seq<u8>)
    requires
        kind <= varint::MAX_VARINT,
        payload.len() <= varint::MAX_VARINT,
    ensures
        ({
            let frame = stream::h3_frame(kind, payload);
            &&& stream::header_at(frame) matches Some((k, len, n))
            &&& k == kind
            &&& len == payload.len()
            &&& n + len == frame.len()
            &&& frame.skip(n) == payload
            &&& frame.subrange(n, n + len) == payload
        }),
{
    let frame = stream::h3_frame(kind, payload);
    let a = varint::varint_bytes(kind as int);
    let b = varint::varint_bytes(payload.len() as int);
    varint::lemma_varint_len(kind as int);
    varint::lemma_varint_len(payload.len() as int);
    varint::law_varint_roundtrip(kind as int, b + payload);
    assert(frame =~= a + (b + payload));
    varint::law_varint_roundtrip(payload.len() as int, payload);
    assert(frame.skip(a.len() as int) =~= b + payload);
    let n = (a.len() + b.len()) as int;
    assert(frame.skip(n) =~= payload);
    assert(frame.subrange(n, n + payload.len()) =~= payload);
}

/// The end of a stream is reported once everything before it was taken.
proof fn lemma_drained(s: StreamModel, hdr_cap: int, data_cap: int)
    requires
        s.pending.len() == 0,
        s.inside == Inside::Nothing,
    ensures
        stream::advanced(s, hdr_cap, data_cap) == (
            StreamModel { ended: s.ended || s.fin, ..s },
            if s.fin && !s.ended {
                seq![H3Event::Finished(s.stream_id)]
            } else {
                Seq::empty()
            },
            Ok::<(), Error>(()),
        ),
{
    reveal_with_fuel(stream::advanced, 2);
    assert(stream::header_at(s.pending) is None);
    assert(seq![H3Event::Finished(s.stream_id)] + Seq::<H3Event>::empty() =~= seq![
        H3Event::Finished(s.stream_id),
    ]);
}

/// Law: the fields that one side sends are the fields that the other side
/// reads. The frame is taken whole, reported once, and the end of the stream is
/// reported behind it.
pub proof fn law_headers_roundtrip(
    id: u64,
    fields: Seq<(Seq<u8>, Seq<u8>)>,
    fin: bool,
    hdr_cap: int,
    data_cap: int,
)
    requires
        qpack::section(fields).len() <= hdr_cap,
        qpack::section(fields).len() <= varint::MAX_VARINT,
    ensures
        ({
            let (s, evs, r) = stream::advanced(
                stream::with_bytes(stream::fresh_stream(id), h3::headers_frame(fields), fin),
                hdr_cap,
                data_cap,
            );
            &&& r == Ok::<(), Error>(())
            &&& s.block matches Some(b)
            &&& qpack::decoded(b) == Some(fields)
            &&& s.pending.len() == 0
            &&& s.ended == fin
            &&& evs == seq![H3Event::Headers(id)] + (if fin {
                seq![H3Event::Finished(id)]
            } else {
                Seq::empty()
            })
        }),
{
    let block = qpack::section(fields);
    let frame = h3::headers_frame(fields);
    let s0 = stream::with_bytes(stream::fresh_stream(id), frame, fin);
    law_section_roundtrip(fields);
    lemma_header_roundtrip(stream::HEADERS_FRAME, block);
    assert(s0.pending =~= frame);
    let s1 = StreamModel { pending: Seq::empty(), block: Some(block), ..s0 };
    assert(frame.skip(frame.len() as int) =~= Seq::<u8>::empty());
    assert(stream::step(s0, hdr_cap, data_cap) == stream::Step::Go(
        s1,
        Some(H3Event::Headers(id)),
    ));
    lemma_drained(s1, hdr_cap, data_cap);
}

/// Law: what one side sends as body is what the other side reads, as long as it
/// fits what the stream holds.
pub proof fn law_body_roundtrip(
    s: StreamModel,
    payload: Seq<u8>,
    fin: bool,
    hdr_cap: int,
    data_cap: int,
)
    requires
        s.pending.len() == 0,
        s.inside == Inside::Nothing,
        payload.len() > 0,
        payload.len() <= varint::MAX_VARINT,
        s.body.len() + payload.len() <= data_cap,
    ensures
        ({
            let (t, evs, r) = stream::advanced(
                stream::with_bytes(s, stream::h3_frame(stream::DATA_FRAME, payload), fin),
                hdr_cap,
                data_cap,
            );
            &&& r == Ok::<(), Error>(())
            &&& t.body == s.body + payload
            &&& t.pending.len() == 0
            &&& t.inside == Inside::Nothing
            &&& t.block == s.block
            &&& t.ended == (s.ended || s.fin || fin)
        }),
{
    let frame = stream::h3_frame(stream::DATA_FRAME, payload);
    let s0 = stream::with_bytes(s, frame, fin);
    assert(s0.pending =~= frame);
    lemma_header_roundtrip(stream::DATA_FRAME, payload);
    let len = payload.len() as u64;
    let s1 = StreamModel { pending: payload, inside: Inside::Data(len), ..s0 };
    assert(stream::step(s0, hdr_cap, data_cap) == stream::Step::Go(s1, None));
    let s2 = StreamModel {
        pending: Seq::empty(),
        inside: Inside::Data(0),
        body: s.body + payload,
        ..s0
    };
    assert(payload.take(len as int) =~= payload);
    assert(payload.skip(len as int) =~= Seq::<u8>::empty());
    assert(stream::step(s1, hdr_cap, data_cap) == stream::Step::Go(
        s2,
        Some(H3Event::Data(s.stream_id)),
    ));
    let s3 = StreamModel { inside: Inside::Nothing, ..s2 };
    assert(stream::step(s2, hdr_cap, data_cap) == stream::Step::Go(s3, None));
    lemma_drained(s3, hdr_cap, data_cap);
    let end = stream::advanced(s3, hdr_cap, data_cap);
    assert(stream::advanced(s2, hdr_cap, data_cap).0 == end.0);
    assert(stream::advanced(s2, hdr_cap, data_cap).2 == end.2);
    assert(stream::advanced(s1, hdr_cap, data_cap).0 == end.0);
    assert(stream::advanced(s1, hdr_cap, data_cap).2 == end.2);
}

/// What a step does not change, all steps do not change.
proof fn lemma_advanced_keeps(s: StreamModel, hdr_cap: int, data_cap: int)
    ensures
        stream::advanced(s, hdr_cap, data_cap).0.stream_id == s.stream_id,
    decreases stream::work(s),
{
    stream::lemma_step_works(s, hdr_cap, data_cap);
    match stream::step(s, hdr_cap, data_cap) {
        stream::Step::Go(t, _) => {
            lemma_advanced_keeps(t, hdr_cap, data_cap);
        },
        _ => {},
    }
}

/// Law: what a read gives back of a write. When the bytes that a client queued
/// for its request come to a server that has nothing else to do, polling the
/// server reports the headers, and reading them gives the client's fields.
pub proof fn law_request_reaches_server<C: CryptoProvider>(
    m: H3Model<C>,
    sizes: Sizes,
    id: u64,
    fields: Seq<(Seq<u8>, Seq<u8>)>,
    fin: bool,
    room: nat,
)
    requires
        m.events.len() == 0,
        m.inbox == seq![SegmentModel { stream_id: id, data: h3::headers_frame(fields), fin }],
        h3::slot_of(m.streams, id, 0) == m.streams.len(),
        id % 4 == 0,
        connection::stream_accepted(m.quic, sizes.max_streams, id).1 is Ok,
        qpack::section(fields).len() <= sizes.hdr_buf,
        qpack::section(fields).len() <= varint::MAX_VARINT,
        h3::headers_frame(fields).len() <= room,
    ensures
        ({
            let (after, ev) = h3::next_polled(m, sizes, true, room);
            &&& ev == Some(H3Event::Headers(id))
            &&& h3::headers_read(after, id) == Ok::<Seq<(Seq<u8>, Seq<u8>)>, Error>(fields)
            &&& after.inbox.len() == 0
        }),
{
    let frame = h3::headers_frame(fields);
    let n = frame.len() as int;
    let i = m.streams.len() as int;
    law_headers_roundtrip(id, fields, fin, sizes.hdr_buf, sizes.data_buf);
    let (s, evs, r) = stream::advanced(
        stream::with_bytes(stream::fresh_stream(id), frame, fin),
        sizes.hdr_buf,
        sizes.data_buf,
    );
    lemma_advanced_keeps(
        stream::with_bytes(stream::fresh_stream(id), frame, fin),
        sizes.hdr_buf,
        sizes.data_buf,
    );
    assert(frame.take(n) =~= frame);
    assert(h3::inbox_after(m.inbox, n) =~= Seq::<SegmentModel>::empty());
    let m0 = H3Model { inbox: h3::inbox_after(m.inbox, n), ..m };
    let (m1, r1) = h3::stream_fed(m0, sizes, true, id, frame.take(n), fin);
    assert(m1.streams =~= m.streams.push(s));
    assert(m1.events =~= evs);
    assert(h3::processed(m1, sizes, true, room) == (m1, Ok::<(), Error>(())));
    assert(h3::processed(m, sizes, true, room) == (m1, Ok::<(), Error>(())));
    h3::lemma_no_slot(m.streams, id, 0);
    assert forall|j: int| 0 <= j < i implies (#[trigger] m1.streams[j]).stream_id != id by {
        assert(m1.streams[j] == m.streams[j]);
    }
    h3::lemma_slot(m1.streams, id, 0, i);
}

/// Law: with room to read, polling leaves nothing unread unless a stream
/// refuses its bytes.
pub proof fn law_polling_reads_everything<C: CryptoProvider>(
    m: H3Model<C>,
    sizes: Sizes,
    is_server: bool,
    room: nat,
)
    requires
        room > 0,
    ensures
        ({
            let (after, r) = h3::processed(m, sizes, is_server, room);
            r is Ok ==> after.inbox.len() == 0
        }),
    decreases h3::backlog(m.inbox),
{
    if m.inbox.len() > 0 {
        let seg = m.inbox[0];
        let n = connection::least(seg.data.len() as int, room as int);
        h3::lemma_backlog(m.inbox, n);
        let (m1, r) = h3::stream_fed(
            H3Model { inbox: h3::inbox_after(m.inbox, n), ..m },
            sizes,
            is_server,
            seg.stream_id,
            seg.data.take(n),
            seg.fin && n == seg.data.len(),
        );
        if r is Ok {
            law_polling_reads_everything(m1, sizes, is_server, room);
        }
    }
}

/// Law: body bytes that do not fit wait; none is lost, doubled or moved.
pub proof fn law_body_waits(s: StreamModel, left: u64, hdr_cap: int, data_cap: int)
    requires
        s.inside == Inside::Data(left),
        s.pending.len() <= left,
    ensures
        ({
            let (t, _, r) = stream::advanced(s, hdr_cap, data_cap);
            &&& r == Ok::<(), Error>(())
            &&& t.body + t.pending == s.body + s.pending
            &&& t.pending.len() > 0 ==> t.body.len() >= data_cap
        }),
    decreases stream::work(s),
{
    stream::lemma_step_works(s, hdr_cap, data_cap);
    if left == 0 {
        let t = StreamModel { inside: Inside::Nothing, ..s };
        assert(stream::step(s, hdr_cap, data_cap) == stream::Step::Go(t, None));
        lemma_drained(t, hdr_cap, data_cap);
    } else {
        let n = stream::least3(s.pending.len() as int, left as int, data_cap - s.body.len());
        if n > 0 {
            let t = StreamModel {
                pending: s.pending.skip(n),
                body: s.body + s.pending.take(n),
                inside: Inside::Data((left - n) as u64),
                ..s
            };
            assert(stream::step(s, hdr_cap, data_cap) == stream::Step::Go(
                t,
                Some(H3Event::Data(s.stream_id)),
            ));
            law_body_waits(t, (left - n) as u64, hdr_cap, data_cap);
            assert(t.body + t.pending =~= s.body + s.pending);
        }
    }
}

/// Law: a HEADERS frame is queued whole, as one entry, or nothing changes.
pub proof fn law_headers_all_or_nothing<C: CryptoProvider>(
    m: H3Model<C>,
    sizes: Sizes,
    id: u64,
    fields: Seq<(Seq<u8>, Seq<u8>)>,
    end_stream: bool,
)
    requires
        0 <= sizes.stream_buf <= usize::MAX,
    ensures
        ({
            let (after, r) = h3::headers_sent(m, sizes, id, fields, end_stream);
            match r {
                Ok(_) => after.queue.len() == m.queue.len() + 1 && after.queue.drop_last()
                    == m.queue && after.queue.last().stream_id == id && after.queue.last().data
                    == h3::headers_frame(fields) && after.queue.last().fin == end_stream,
                Err(_) => after == m,
            }
        }),
{
    let (after, r) = h3::headers_sent(m, sizes, id, fields, end_stream);
    let frame = h3::headers_frame(fields);
    if r is Ok {
        assert(frame.take(frame.len() as int) =~= frame);
        assert(after.queue.drop_last() =~= m.queue);
    }
}

/// Law: what is sent as body goes out as one DATA frame with a front part of
/// it, and the stream ends only with the last byte.
pub proof fn law_data_goes_out_in_order<C: CryptoProvider>(
    m: H3Model<C>,
    sizes: Sizes,
    id: u64,
    data: Seq<u8>,
    end_stream: bool,
)
    requires
        0 <= sizes.stream_buf <= varint::MAX_VARINT,
        sizes.stream_buf <= usize::MAX,
        data.len() <= usize::MAX,
    ensures
        ({
            let (after, r) = h3::data_sent(m, sizes, id, data, end_stream);
            match r {
                Ok(n) => n <= data.len() && (data.len() > 0 ==> n > 0) && after.queue.len()
                    == m.queue.len() + 1 && after.queue.drop_last() == m.queue
                    && after.queue.last().stream_id == id && after.queue.last().data
                    == stream::h3_frame(
                    stream::DATA_FRAME,
                    data.take(n as int),
                ) && after.queue.last().fin == (end_stream && n == data.len()),
                Err(_) => after == m,
            }
        }),
{
    let (after, r) = h3::data_sent(m, sizes, id, data, end_stream);
    match connection::stream_space(m.quic, m.queue, sizes.stream_buf, sizes.send_queue, id) {
        Ok(room) => {
            match h3::data_fit(data.len() as int, room as int) {
                Some(n) => {
                    let frame = stream::h3_frame(stream::DATA_FRAME, data.take(n));
                    varint::lemma_varint_len(0);
                    varint::lemma_varint_len(n);
                    assert(frame.len() <= room);
                    assert(frame.take(frame.len() as int) =~= frame);
                    assert(after.queue.drop_last() =~= m.queue);
                },
                None => {},
            }
        },
        Err(_) => {},
    }
}

/// Law: a request with too many fields changes nothing, and one that goes
/// through is carried by a new stream whose first bytes are its fields.
pub proof fn law_request_opens_a_stream<C: CryptoProvider>(
    m: H3Model<C>,
    sizes: Sizes,
    method: Seq<u8>,
    path: Seq<u8>,
    authority: Seq<u8>,
    headers: Seq<(Seq<u8>, Seq<u8>)>,
    end_stream: bool,
)
    requires
        0 <= sizes.stream_buf <= usize::MAX,
    ensures
        ({
            let (after, r) = client::requested(
                m,
                sizes,
                method,
                path,
                authority,
                headers,
                end_stream,
            );
            &&& headers.len() > 16 ==> r == Err::<u64, Error>(Error::TooManyHeaders) && after == m
            &&& r matches Ok(id) ==> {
                &&& id == m.quic.next_stream_id
                &&& after.quic.next_stream_id == id + 4
                &&& after.quic.streams.len() == m.quic.streams.len() + 1
                &&& after.queue.last().stream_id == id
                &&& after.queue.last().data == h3::headers_frame(
                    client::request_fields(method, path, authority, headers),
                )
            }
        }),
{
    let (quic, r) = connection::stream_opened(m.quic, sizes.max_streams);
    match r {
        Ok(id) => {
            connection::lemma_position_bounds(quic.streams, id, 0);
            law_headers_all_or_nothing(
                H3Model { quic, ..m },
                sizes,
                id,
                client::request_fields(method, path, authority, headers),
                end_stream,
            );
        },
        Err(_) => {},
    }
}

} // verus!
