//! What one end of an HTTP/3 connection sends, the other end reads, however the
//! transport cuts it and whatever else it delivers.

use vstd::prelude::*;

use crate::connection;
use crate::connection::handshake_pool::CtxModel;
use crate::connection::{ending, poll, ConnectionState};
use crate::crypto::CryptoProvider;
use crate::error::Error;
use crate::frame;
use crate::h3::client;
use crate::h3::connection as h3;
use crate::h3::connection::{H3Model, Sizes};
use crate::h3::laws;
use crate::h3::pieces;
use crate::h3::qpack;
use crate::h3::server;
use crate::h3::stream;
use crate::h3::stream::{H3Event, SegmentModel, Step, StreamModel};
use crate::transport::Instant;
use crate::varint;

verus! {

/// Whether some bytes of a stream are in the inbox, or its end.
pub open spec fn expects(inbox: Seq<SegmentModel>, id: u64) -> bool {
    exists|k: int| 0 <= k < inbox.len() && (#[trigger] inbox[k]).stream_id == id
}

/// The bytes of a stream in the inbox.
pub open spec fn bytes_for(inbox: Seq<SegmentModel>, id: u64) -> Seq<u8>
    decreases inbox.len(),
{
    if inbox.len() == 0 {
        Seq::empty()
    } else if inbox[0].stream_id == id {
        inbox[0].data + bytes_for(inbox.drop_first(), id)
    } else {
        bytes_for(inbox.drop_first(), id)
    }
}

/// Whether the end of a stream is in the inbox.
pub open spec fn end_for(inbox: Seq<SegmentModel>, id: u64) -> bool
    decreases inbox.len(),
{
    inbox.len() > 0 && ((inbox[0].stream_id == id && inbox[0].fin) || end_for(
        inbox.drop_first(),
        id,
    ))
}

/// Whether nothing of a stream follows its end.
pub open spec fn orderly(inbox: Seq<SegmentModel>, id: u64) -> bool
    decreases inbox.len(),
{
    inbox.len() == 0 || (if inbox[0].stream_id == id && inbox[0].fin {
        !expects(inbox.drop_first(), id)
    } else {
        orderly(inbox.drop_first(), id)
    })
}

/// Nothing is expected of a stream that the inbox does not mention.
proof fn lemma_nothing_for(inbox: Seq<SegmentModel>, id: u64)
    requires
        !expects(inbox, id),
    ensures
        bytes_for(inbox, id) == Seq::<u8>::empty(),
        !end_for(inbox, id),
        orderly(inbox, id),
        inbox.len() > 0 ==> inbox[0].stream_id != id && !expects(inbox.drop_first(), id),
    decreases inbox.len(),
{
    if inbox.len() > 0 {
        let rest = inbox.drop_first();
        assert(inbox[0].stream_id != id);
        assert forall|k: int| 0 <= k < rest.len() implies (#[trigger] rest[k]).stream_id != id by {
            assert(rest[k] == inbox[k + 1]);
        }
        lemma_nothing_for(rest, id);
    }
}

/// Taking `n` bytes of the first segment, which belongs to the stream.
proof fn lemma_own_taken(inbox: Seq<SegmentModel>, id: u64, n: int)
    requires
        inbox.len() > 0,
        inbox[0].stream_id == id,
        0 <= n <= inbox[0].data.len(),
        orderly(inbox, id),
    ensures
        ({
            let rest = h3::inbox_after(inbox, n);
            let last = inbox[0].fin && n == inbox[0].data.len();
            &&& bytes_for(inbox, id) == inbox[0].data.take(n) + bytes_for(rest, id)
            &&& end_for(inbox, id) == (last || end_for(rest, id))
            &&& orderly(rest, id)
            &&& last ==> !expects(rest, id)
            &&& (forall|k: int|
                0 <= k < inbox.len() ==> (#[trigger] inbox[k]).stream_id == id) ==> (forall|k: int|
                0 <= k < rest.len() ==> (#[trigger] rest[k]).stream_id == id)
        }),
{
    let seg = inbox[0];
    let rest = h3::inbox_after(inbox, n);
    let tail = inbox.drop_first();
    assert(forall|k: int| 0 <= k < tail.len() ==> tail[k] == inbox[k + 1]);
    if n == seg.data.len() {
        assert(seg.data.take(n) =~= seg.data);
        if seg.fin {
            lemma_nothing_for(tail, id);
        }
    } else {
        assert(rest.drop_first() =~= tail);
        assert(seg.data.take(n) + (seg.data.skip(n) + bytes_for(tail, id)) =~= seg.data + bytes_for(
            tail,
            id,
        ));
        assert forall|k: int| 0 <= k < rest.len() implies (#[trigger] rest[k]).stream_id
            == inbox[k].stream_id by {}
    }
}

/// Taking `n` bytes of the first segment, which belongs to another stream.
proof fn lemma_other_taken(inbox: Seq<SegmentModel>, id: u64, n: int)
    requires
        inbox.len() > 0,
        inbox[0].stream_id != id,
        0 <= n <= inbox[0].data.len(),
    ensures
        ({
            let rest = h3::inbox_after(inbox, n);
            &&& bytes_for(inbox, id) == bytes_for(rest, id)
            &&& end_for(inbox, id) == end_for(rest, id)
            &&& orderly(inbox, id) == orderly(rest, id)
            &&& expects(inbox, id) == expects(rest, id)
        }),
{
    let rest = h3::inbox_after(inbox, n);
    let tail = inbox.drop_first();
    assert(forall|k: int| 0 <= k < tail.len() ==> tail[k] == inbox[k + 1]);
    if n < inbox[0].data.len() {
        assert(rest.drop_first() =~= tail);
        assert(forall|k: int| 0 < k < rest.len() ==> rest[k] == inbox[k]);
        if expects(inbox, id) {
            let k = choose|k: int| 0 <= k < inbox.len() && (#[trigger] inbox[k]).stream_id == id;
            assert(rest[k].stream_id == id);
        }
        if expects(rest, id) {
            let k = choose|k: int| 0 <= k < rest.len() && (#[trigger] rest[k]).stream_id == id;
            assert(inbox[k].stream_id == id);
        }
    } else {
        if expects(inbox, id) {
            let k = choose|k: int| 0 <= k < inbox.len() && (#[trigger] inbox[k]).stream_id == id;
            assert(tail[k - 1].stream_id == id);
        }
        if expects(rest, id) {
            let k = choose|k: int| 0 <= k < rest.len() && (#[trigger] rest[k]).stream_id == id;
            assert(inbox[k + 1].stream_id == id);
        }
    }
}

/// After all possible steps there is none.
proof fn lemma_advanced_rests(s: StreamModel, hdr_cap: int, data_cap: int)
    ensures
        ({
            let (t, _, r) = stream::advanced(s, hdr_cap, data_cap);
            &&& r is Ok ==> stream::step(t, hdr_cap, data_cap) is Stop
            &&& t.stream_id == s.stream_id
        }),
    decreases stream::work(s),
{
    stream::lemma_step_works(s, hdr_cap, data_cap);
    match stream::step(s, hdr_cap, data_cap) {
        Step::Go(t, _) => {
            lemma_advanced_rests(t, hdr_cap, data_cap);
        },
        _ => {},
    }
}

/// A stream reports no milestone of another stream.
proof fn lemma_no_milestones(s: StreamModel, id: u64, hdr_cap: int, data_cap: int)
    requires
        s.stream_id != id,
    ensures
        pieces::milestones(stream::advanced(s, hdr_cap, data_cap).1, id) == Seq::<
            H3Event,
        >::empty(),
    decreases stream::work(s),
{
    reveal_with_fuel(pieces::milestones, 2);
    stream::lemma_step_works(s, hdr_cap, data_cap);
    match stream::step(s, hdr_cap, data_cap) {
        Step::Go(t, ev) => {
            lemma_no_milestones(t, id, hdr_cap, data_cap);
            let rest = stream::advanced(t, hdr_cap, data_cap).1;
            pieces::lemma_milestones_add(stream::reported(ev), rest, id);
            match ev {
                Some(e) => {
                    assert(stream::reported(ev).drop_first() =~= Seq::<H3Event>::empty());
                },
                None => {},
            }
            assert(Seq::<H3Event>::empty() + Seq::<H3Event>::empty() =~= Seq::<H3Event>::empty());
        },
        _ => {},
    }
}

/// Whether, from `m` to `after`, the stream at `i` became `t` and reported the
/// milestones `ms`, behind the events that were already there.
pub open spec fn delivered<C: CryptoProvider>(
    m: H3Model<C>,
    after: H3Model<C>,
    i: int,
    id: u64,
    t: StreamModel,
    ms: Seq<H3Event>,
) -> bool {
    &&& 0 <= i < after.streams.len()
    &&& after.streams[i] == t
    &&& h3::slot_of(after.streams, id, 0) == i
    &&& after.events.len() >= m.events.len()
    &&& after.events.take(m.events.len() as int) == m.events
    &&& pieces::milestones(after.events.skip(m.events.len() as int), id) == ms
}

/// What one segment does, followed by what the others do.
proof fn lemma_delivered_on<C: CryptoProvider>(
    m: H3Model<C>,
    m1: H3Model<C>,
    after: H3Model<C>,
    i: int,
    id: u64,
    t: StreamModel,
    e1: Seq<H3Event>,
    ms: Seq<H3Event>,
)
    requires
        m1.events == m.events + e1,
        delivered(m1, after, i, id, t, ms),
    ensures
        delivered(m, after, i, id, t, pieces::milestones(e1, id) + ms),
{
    let n = m.events.len() as int;
    let n1 = m1.events.len() as int;
    assert(after.events.take(n) =~= after.events.take(n1).take(n));
    assert(m1.events.take(n) =~= m.events);
    assert(after.events.skip(n) =~= e1 + after.events.skip(n1)) by {
        assert(after.events =~= after.events.take(n1) + after.events.skip(n1));
    }
    pieces::lemma_milestones_add(e1, after.events.skip(n1), id);
}

/// A segment of another stream leaves a stream alone.
proof fn lemma_other_fed<C: CryptoProvider>(
    m: H3Model<C>,
    sizes: Sizes,
    is_server: bool,
    other: u64,
    data: Seq<u8>,
    fin: bool,
    id: u64,
    i: int,
)
    requires
        other != id,
        0 <= i < m.streams.len(),
        h3::slot_of(m.streams, id, 0) == i,
    ensures
        ({
            let m1 = h3::stream_fed(m, sizes, is_server, other, data, fin).0;
            &&& i < m1.streams.len()
            &&& m1.streams[i] == m.streams[i]
            &&& h3::slot_of(m1.streams, id, 0) == i
            &&& m1.inbox == m.inbox
            &&& exists|e: Seq<H3Event>|
                m1.events == #[trigger] (m.events + e) && pieces::milestones(e, id) == Seq::<
                    H3Event,
                >::empty()
        }),
{
    let none = Seq::<H3Event>::empty();
    let j = h3::slot_of(m.streams, other, 0);
    let (m1, _) = h3::stream_fed(m, sizes, is_server, other, data, fin);
    lemma_slot_facts(m.streams, id, 0);
    lemma_slot_facts(m.streams, other, 0);
    assert(m.events + none =~= m.events);
    assert(pieces::milestones(none, id) == none);
    if j < m.streams.len() {
        let w = stream::with_bytes(m.streams[j], data, fin);
        lemma_advanced_rests(w, sizes.hdr_buf, sizes.data_buf);
        lemma_no_milestones(w, id, sizes.hdr_buf, sizes.data_buf);
        let e = stream::advanced(w, sizes.hdr_buf, sizes.data_buf).1;
        assert(m1.events == m.events + e);
        assert forall|k: int| 0 <= k < i implies (#[trigger] m1.streams[k]).stream_id != id by {}
        h3::lemma_slot(m1.streams, id, 0, i);
    } else if is_server && other % 4 == 0 {
        match connection::stream_accepted(m.quic, sizes.max_streams, other) {
            (quic, Ok(_)) => {
                let w = stream::with_bytes(stream::fresh_stream(other), data, fin);
                let more = m.streams.push(stream::fresh_stream(other));
                assert(more[j] == stream::fresh_stream(other));
                lemma_advanced_rests(w, sizes.hdr_buf, sizes.data_buf);
                lemma_no_milestones(w, id, sizes.hdr_buf, sizes.data_buf);
                let e = stream::advanced(w, sizes.hdr_buf, sizes.data_buf).1;
                assert(m1.events == m.events + e);
                assert forall|k: int| 0 <= k < i implies (#[trigger] m1.streams[k]).stream_id
                    != id by {
                    assert(m1.streams[k] == m.streams[k]);
                }
                h3::lemma_slot(m1.streams, id, 0, i);
            },
            (_, Err(_)) => {},
        }
    }
}

/// Where a stream is found.
proof fn lemma_slot_facts(streams: Seq<StreamModel>, id: u64, from: int)
    requires
        0 <= from <= streams.len(),
    ensures
        ({
            let i = h3::slot_of(streams, id, from);
            &&& from <= i <= streams.len()
            &&& i < streams.len() ==> streams[i].stream_id == id
            &&& forall|j: int| from <= j < i ==> (#[trigger] streams[j]).stream_id != id
        }),
    decreases streams.len() - from,
{
    if from < streams.len() && streams[from].stream_id != id {
        lemma_slot_facts(streams, id, from + 1);
    }
}

/// Bytes of other streams leave a stream alone.
proof fn lemma_untouched<C: CryptoProvider>(
    m: H3Model<C>,
    sizes: Sizes,
    is_server: bool,
    room: nat,
    id: u64,
    i: int,
)
    requires
        0 <= i < m.streams.len(),
        h3::slot_of(m.streams, id, 0) == i,
        !expects(m.inbox, id),
    ensures
        delivered(
            m,
            h3::processed(m, sizes, is_server, room).0,
            i,
            id,
            m.streams[i],
            Seq::empty(),
        ),
        m.inbox.len() == 0 ==> h3::processed(m, sizes, is_server, room).1 is Ok,
    decreases h3::backlog(m.inbox),
{
    let n0 = m.events.len() as int;
    let none = Seq::<H3Event>::empty();
    assert(m.events.take(n0) =~= m.events);
    assert(m.events.skip(n0) =~= none);
    assert(pieces::milestones(none, id) == none);
    assert(delivered(m, m, i, id, m.streams[i], none));
    if m.inbox.len() > 0 && (room > 0 || m.inbox[0].data.len() == 0) {
        let seg = m.inbox[0];
        let n = connection::least(seg.data.len() as int, room as int);
        h3::lemma_backlog(m.inbox, n);
        lemma_nothing_for(m.inbox, id);
        lemma_other_taken(m.inbox, id, n);
        let m0 = H3Model { inbox: h3::inbox_after(m.inbox, n), ..m };
        let piece = seg.data.take(n);
        let last = seg.fin && n == seg.data.len();
        let (m1, r1) = h3::stream_fed(m0, sizes, is_server, seg.stream_id, piece, last);
        lemma_other_fed(m0, sizes, is_server, seg.stream_id, piece, last, id, i);
        let e = choose|e: Seq<H3Event>|
            m1.events == #[trigger] (m0.events + e) && pieces::milestones(e, id) == none;
        assert(none + none =~= none);
        if r1 is Ok {
            lemma_untouched(m1, sizes, is_server, room, id, i);
            let after = h3::processed(m1, sizes, is_server, room).0;
            lemma_delivered_on(m, m1, after, i, id, m.streams[i], e, none);
        } else {
            let n1 = m1.events.len() as int;
            assert(m1.events.take(n1) =~= m1.events);
            assert(m1.events.skip(n1) =~= none);
            assert(delivered(m1, m1, i, id, m.streams[i], none));
            lemma_delivered_on(m, m1, m1, i, id, m.streams[i], e, none);
        }
    }
}

/// Law: processing the inbox brings a stream to where all its bytes at once would
/// bring it, with its headers and its end reported once, whatever room there is,
/// however the bytes are cut, and whatever comes in between for other streams.
/// If nothing comes for other streams, processing succeeds.
pub proof fn law_inbox_reaches_its_stream<C: CryptoProvider>(
    m: H3Model<C>,
    sizes: Sizes,
    is_server: bool,
    room: nat,
    id: u64,
    i: int,
)
    requires
        room > 0,
        0 <= i < m.streams.len(),
        h3::slot_of(m.streams, id, 0) == i,
        !m.streams[i].fin,
        stream::step(m.streams[i], sizes.hdr_buf, sizes.data_buf) is Stop,
        orderly(m.inbox, id),
        stream::advanced(
            stream::with_bytes(m.streams[i], bytes_for(m.inbox, id), end_for(m.inbox, id)),
            sizes.hdr_buf,
            sizes.data_buf,
        ).2 is Ok,
    ensures
        ({
            let (t, e, _) = stream::advanced(
                stream::with_bytes(m.streams[i], bytes_for(m.inbox, id), end_for(m.inbox, id)),
                sizes.hdr_buf,
                sizes.data_buf,
            );
            let (after, r) = h3::processed(m, sizes, is_server, room);
            &&& r is Ok ==> delivered(m, after, i, id, t, pieces::milestones(e, id))
            &&& (forall|k: int|
                0 <= k < m.inbox.len() ==> (#[trigger] m.inbox[k]).stream_id == id) ==> r is Ok
        }),
    decreases h3::backlog(m.inbox),
{
    let s = m.streams[i];
    let (hc, dc) = (sizes.hdr_buf, sizes.data_buf);
    let (t, e, _) = stream::advanced(
        stream::with_bytes(s, bytes_for(m.inbox, id), end_for(m.inbox, id)),
        hc,
        dc,
    );
    let none = Seq::<H3Event>::empty();
    lemma_slot_facts(m.streams, id, 0);
    if !expects(m.inbox, id) {
        lemma_nothing_for(m.inbox, id);
        lemma_untouched(m, sizes, is_server, room, id, i);
        assert(stream::with_bytes(s, Seq::empty(), false) =~= s) by {
            assert(s.pending + Seq::<u8>::empty() =~= s.pending);
        }
        assert(t == s && e == none);
    } else {
        let seg = m.inbox[0];
        let n = connection::least(seg.data.len() as int, room as int);
        h3::lemma_backlog(m.inbox, n);
        let rest = h3::inbox_after(m.inbox, n);
        let m0 = H3Model { inbox: rest, ..m };
        let piece = seg.data.take(n);
        let last = seg.fin && n == seg.data.len();
        let (m1, r1) = h3::stream_fed(m0, sizes, is_server, seg.stream_id, piece, last);
        let after = h3::processed(m1, sizes, is_server, room).0;
        if seg.stream_id == id {
            lemma_own_taken(m.inbox, id, n);
            lemma_own_step(m, sizes, is_server, id, i, piece, last, rest);
            if last {
                lemma_nothing_for(rest, id);
                lemma_untouched(m1, sizes, is_server, room, id, i);
                assert(piece + Seq::<u8>::empty() =~= piece);
                if forall|k: int| 0 <= k < m.inbox.len() ==> (#[trigger] m.inbox[k]).stream_id
                    == id {
                    if rest.len() > 0 {
                        assert(rest[0].stream_id == id);
                    }
                }
                lemma_delivered_on(m, m1, after, i, id, t, e, none);
                assert(pieces::milestones(e, id) + none =~= pieces::milestones(e, id));
            } else {
                law_inbox_reaches_its_stream(m1, sizes, is_server, room, id, i);
                let e1 = stream::advanced(stream::with_bytes(s, piece, false), hc, dc).1;
                let s1 = m1.streams[i];
                let e2 = stream::advanced(
                    stream::with_bytes(s1, bytes_for(rest, id), end_for(rest, id)),
                    hc,
                    dc,
                ).1;
                pieces::lemma_milestones_add(e1, e2, id);
                if h3::processed(m1, sizes, is_server, room).1 is Ok {
                    lemma_delivered_on(
                        m,
                        m1,
                        after,
                        i,
                        id,
                        t,
                        e1,
                        pieces::milestones(e2, id),
                    );
                }
            }
        } else {
            lemma_other_taken(m.inbox, id, n);
            lemma_other_fed(m0, sizes, is_server, seg.stream_id, piece, last, id, i);
            let e0 = choose|x: Seq<H3Event>|
                m1.events == #[trigger] (m0.events + x) && pieces::milestones(x, id) == none;
            if r1 is Ok {
                law_inbox_reaches_its_stream(m1, sizes, is_server, room, id, i);
                if h3::processed(m1, sizes, is_server, room).1 is Ok {
                    let ms = pieces::milestones(e, id);
                    lemma_delivered_on(m, m1, after, i, id, t, e0, ms);
                    assert(none + ms =~= ms);
                }
            }
        }
    }
}

/// What a piece of a stream's own bytes does.
proof fn lemma_own_step<C: CryptoProvider>(
    m: H3Model<C>,
    sizes: Sizes,
    is_server: bool,
    id: u64,
    i: int,
    piece: Seq<u8>,
    last: bool,
    rest: Seq<SegmentModel>,
)
    requires
        0 <= i < m.streams.len(),
        h3::slot_of(m.streams, id, 0) == i,
        !m.streams[i].fin,
        bytes_for(m.inbox, id) == piece + bytes_for(rest, id),
        end_for(m.inbox, id) == (last || end_for(rest, id)),
        last ==> !expects(rest, id),
        stream::advanced(
            stream::with_bytes(m.streams[i], bytes_for(m.inbox, id), end_for(m.inbox, id)),
            sizes.hdr_buf,
            sizes.data_buf,
        ).2 is Ok,
    ensures
        ({
            let (hc, dc) = (sizes.hdr_buf, sizes.data_buf);
            let s = m.streams[i];
            let m0 = H3Model { inbox: rest, ..m };
            let (m1, r1) = h3::stream_fed(m0, sizes, is_server, id, piece, last);
            let (s1, e1, _) = stream::advanced(stream::with_bytes(s, piece, last), hc, dc);
            let (t, e, _) = stream::advanced(
                stream::with_bytes(s, bytes_for(m.inbox, id), end_for(m.inbox, id)),
                hc,
                dc,
            );
            let (s2, e2, r2) = stream::advanced(
                stream::with_bytes(s1, bytes_for(rest, id), end_for(rest, id)),
                hc,
                dc,
            );
            &&& r1 is Ok
            &&& m1.inbox == rest
            &&& m1.events == m.events + e1
            &&& i < m1.streams.len()
            &&& m1.streams[i] == s1
            &&& h3::slot_of(m1.streams, id, 0) == i
            &&& stream::step(s1, hc, dc) is Stop
            &&& last ==> s1 == t && e1 == e
            &&& !last ==> !s1.fin && s2 == t && r2 is Ok && pieces::milestones(e1 + e2, id)
                == pieces::milestones(e, id)
        }),
{
    let (hc, dc) = (sizes.hdr_buf, sizes.data_buf);
    let s = m.streams[i];
    let w = stream::with_bytes(s, piece, last);
    let m0 = H3Model { inbox: rest, ..m };
    let m1 = h3::stream_fed(m0, sizes, is_server, id, piece, last).0;
    lemma_slot_facts(m.streams, id, 0);
    lemma_advanced_rests(w, hc, dc);
    if last {
        lemma_nothing_for(rest, id);
        assert(piece + Seq::<u8>::empty() =~= piece);
    } else {
        pieces::law_bytes_in_two_pieces(
            s,
            piece,
            bytes_for(rest, id),
            end_for(rest, id),
            hc,
            dc,
        );
        pieces::lemma_more_bytes(w, bytes_for(rest, id), end_for(rest, id), hc, dc);
    }
    assert forall|k: int| 0 <= k < i implies (#[trigger] m1.streams[k]).stream_id != id by {
        assert(m1.streams[k] == m.streams[k]);
    }
    h3::lemma_slot(m1.streams, id, 0, i);
}

/// What can still be read of a stream's body from what came so far: what waits to
/// be read, and the payload of the DATA frames in the bytes not yet understood
/// and not yet processed.
pub open spec fn readable<C: CryptoProvider>(m: H3Model<C>, id: u64) -> Seq<u8> {
    let s = m.streams[h3::slot_of(m.streams, id, 0)];
    s.body + pieces::data_in(s.inside, s.pending + bytes_for(m.inbox, id))
}

/// Law: processing the inbox, with any room, loses, doubles or moves nothing of a
/// stream's body, even where it ends because a stream refuses its bytes.
pub proof fn law_processing_keeps_body<C: CryptoProvider>(
    m: H3Model<C>,
    sizes: Sizes,
    is_server: bool,
    room: nat,
    id: u64,
)
    requires
        h3::slot_of(m.streams, id, 0) < m.streams.len(),
    ensures
        ({
            let after = h3::processed(m, sizes, is_server, room).0;
            &&& h3::slot_of(after.streams, id, 0) == h3::slot_of(m.streams, id, 0)
            &&& h3::slot_of(m.streams, id, 0) < after.streams.len()
            &&& readable(after, id) == readable(m, id)
        }),
    decreases h3::backlog(m.inbox),
{
    let i = h3::slot_of(m.streams, id, 0);
    lemma_slot_facts(m.streams, id, 0);
    if m.inbox.len() > 0 && (room > 0 || m.inbox[0].data.len() == 0) {
        let seg = m.inbox[0];
        let n = connection::least(seg.data.len() as int, room as int);
        h3::lemma_backlog(m.inbox, n);
        let rest = h3::inbox_after(m.inbox, n);
        let m0 = H3Model { inbox: rest, ..m };
        let piece = seg.data.take(n);
        let last = seg.fin && n == seg.data.len();
        let (m1, r1) = h3::stream_fed(m0, sizes, is_server, seg.stream_id, piece, last);
        if seg.stream_id == id {
            let w = stream::with_bytes(m.streams[i], piece, last);
            lemma_own_bytes(m.inbox, id, n);
            lemma_advanced_rests(w, sizes.hdr_buf, sizes.data_buf);
            pieces::lemma_advanced_conserves(
                w,
                bytes_for(rest, id),
                sizes.hdr_buf,
                sizes.data_buf,
            );
            assert(w.pending + bytes_for(rest, id) =~= m.streams[i].pending + bytes_for(
                m.inbox,
                id,
            ));
            assert forall|k: int| 0 <= k < i implies (#[trigger] m1.streams[k]).stream_id != id by {
                assert(m1.streams[k] == m.streams[k]);
            }
            h3::lemma_slot(m1.streams, id, 0, i);
        } else {
            lemma_other_taken(m.inbox, id, n);
            lemma_other_fed(m0, sizes, is_server, seg.stream_id, piece, last, id, i);
        }
        assert(readable(m1, id) == readable(m, id));
        if r1 is Ok {
            law_processing_keeps_body(m1, sizes, is_server, room, id);
        }
    }
}

/// The bytes of a stream are the taken ones and those left.
proof fn lemma_own_bytes(inbox: Seq<SegmentModel>, id: u64, n: int)
    requires
        inbox.len() > 0,
        inbox[0].stream_id == id,
        0 <= n <= inbox[0].data.len(),
    ensures
        bytes_for(inbox, id) == inbox[0].data.take(n) + bytes_for(h3::inbox_after(inbox, n), id),
{
    let seg = inbox[0];
    let rest = h3::inbox_after(inbox, n);
    let tail = inbox.drop_first();
    if n == seg.data.len() {
        assert(seg.data.take(n) =~= seg.data);
    } else {
        assert(rest.drop_first() =~= tail);
        assert(seg.data.take(n) + (seg.data.skip(n) + bytes_for(tail, id)) =~= seg.data + bytes_for(
            tail,
            id,
        ));
    }
}

/// Law: reading a body, in portions of any size, hands out the front of what can
/// be read and keeps the rest.
pub proof fn law_reading_keeps_body<C: CryptoProvider>(
    m: H3Model<C>,
    sizes: Sizes,
    id: u64,
    cap: int,
)
    requires
        h3::slot_of(m.streams, id, 0) < m.streams.len(),
        cap >= 0,
    ensures
        ({
            let (after, r) = h3::body_read(m, sizes, id, cap);
            &&& h3::slot_of(after.streams, id, 0) == h3::slot_of(m.streams, id, 0)
            &&& r matches Ok((data, _)) && data.len() <= cap && data + readable(after, id)
                == readable(m, id)
        }),
{
    let i = h3::slot_of(m.streams, id, 0);
    lemma_slot_facts(m.streams, id, 0);
    let s = m.streams[i];
    let (t, data) = stream::body_taken(s, cap, sizes.hdr_buf, sizes.data_buf);
    let w = StreamModel { body: s.body.skip(data.len() as int), ..s };
    let more = bytes_for(m.inbox, id);
    pieces::lemma_advanced_conserves(w, more, sizes.hdr_buf, sizes.data_buf);
    lemma_advanced_rests(w, sizes.hdr_buf, sizes.data_buf);
    let after = h3::body_read(m, sizes, id, cap).0;
    assert forall|k: int| 0 <= k < i implies (#[trigger] after.streams[k]).stream_id != id by {
        assert(after.streams[k] == m.streams[k]);
    }
    h3::lemma_slot(after.streams, id, 0, i);
    let ahead = pieces::data_in(s.inside, s.pending + more);
    assert(data + s.body.skip(data.len() as int) =~= s.body);
    assert(data + (w.body + ahead) =~= data + w.body + ahead);
}

/// The milestones of a message that consists of its headers.
pub open spec fn header_milestones(id: u64, fin: bool) -> Seq<H3Event> {
    seq![H3Event::Headers(id)] + (if fin {
        seq![H3Event::Finished(id)]
    } else {
        Seq::empty()
    })
}

/// Law: header fields that one side sends are what the other side reads on the
/// same stream, however the frame is cut, whatever room there is for reading and
/// whatever else comes in between; and they are reported once, behind the events
/// that were already waiting.
pub proof fn law_headers_reach_reader<C: CryptoProvider>(
    m: H3Model<C>,
    sizes: Sizes,
    is_server: bool,
    room: nat,
    id: u64,
    fields: Seq<(Seq<u8>, Seq<u8>)>,
    fin: bool,
)
    requires
        room > 0,
        h3::slot_of(m.streams, id, 0) < m.streams.len(),
        m.streams[h3::slot_of(m.streams, id, 0)] == stream::fresh_stream(id),
        orderly(m.inbox, id),
        bytes_for(m.inbox, id) == h3::headers_frame(fields),
        end_for(m.inbox, id) == fin,
        qpack::section(fields).len() <= sizes.hdr_buf,
        qpack::section(fields).len() <= varint::MAX_VARINT,
    ensures
        ({
            let (after, r) = h3::processed(m, sizes, is_server, room);
            let new = after.events.skip(m.events.len() as int);
            &&& r is Ok ==> h3::headers_read(after, id) == Ok::<Seq<(Seq<u8>, Seq<u8>)>, Error>(
                fields,
            )
            &&& r is Ok ==> pieces::milestones(new, id) == header_milestones(id, fin)
            &&& (forall|k: int|
                0 <= k < m.inbox.len() ==> (#[trigger] m.inbox[k]).stream_id == id) ==> r is Ok
        }),
{
    let i = h3::slot_of(m.streams, id, 0);
    lemma_slot_facts(m.streams, id, 0);
    laws::law_headers_roundtrip(id, fields, fin, sizes.hdr_buf, sizes.data_buf);
    assert(stream::header_at(Seq::<u8>::empty()) is None);
    law_inbox_reaches_its_stream(m, sizes, is_server, room, id, i);
    let e = header_milestones(id, fin);
    reveal_with_fuel(pieces::milestones, 3);
    assert(e.drop_first() =~= (if fin {
        seq![H3Event::Finished(id)]
    } else {
        Seq::empty()
    }));
    if fin {
        assert(e.drop_first().drop_first() =~= Seq::<H3Event>::empty());
    }
    assert(pieces::milestones(e, id) =~= e);
}

/// A server that first hears of a stream takes note of it, then goes on as if it
/// had known it.
proof fn lemma_first_bytes<C: CryptoProvider>(
    m: H3Model<C>,
    sizes: Sizes,
    room: nat,
    id: u64,
)
    requires
        room > 0,
        m.inbox.len() > 0,
        m.inbox[0].stream_id == id,
        id % 4 == 0,
        h3::slot_of(m.streams, id, 0) == m.streams.len(),
        connection::stream_accepted(m.quic, sizes.max_streams, id).1 is Ok,
    ensures
        ({
            let known = H3Model {
                quic: connection::stream_accepted(m.quic, sizes.max_streams, id).0,
                streams: m.streams.push(stream::fresh_stream(id)),
                ..m
            };
            &&& h3::processed(m, sizes, true, room) == h3::processed(known, sizes, true, room)
            &&& h3::slot_of(known.streams, id, 0) == m.streams.len()
        }),
{
    let known = H3Model {
        quic: connection::stream_accepted(m.quic, sizes.max_streams, id).0,
        streams: m.streams.push(stream::fresh_stream(id)),
        ..m
    };
    let i = m.streams.len() as int;
    h3::lemma_no_slot(m.streams, id, 0);
    assert forall|j: int| 0 <= j < i implies (#[trigger] known.streams[j]).stream_id != id by {
        assert(known.streams[j] == m.streams[j]);
    }
    h3::lemma_slot(known.streams, id, 0, i);
    let seg = m.inbox[0];
    let n = connection::least(seg.data.len() as int, room as int);
    h3::lemma_backlog(m.inbox, n);
    let rest = h3::inbox_after(m.inbox, n);
    let last = seg.fin && n == seg.data.len();
    assert(h3::stream_fed(
        H3Model { inbox: rest, ..m },
        sizes,
        true,
        id,
        seg.data.take(n),
        last,
    ) == h3::stream_fed(
        H3Model { inbox: rest, ..known },
        sizes,
        true,
        id,
        seg.data.take(n),
        last,
    ));
}

/// Law: what a read gives back of a write, from client to server. The fields of a
/// request that a client sent are what the server reads, on a stream that it has
/// not heard of before, in whatever pieces they come.
pub proof fn law_request_is_read<C: CryptoProvider>(
    from: H3Model<C>,
    from_sizes: Sizes,
    method: Seq<u8>,
    path: Seq<u8>,
    authority: Seq<u8>,
    headers: Seq<(Seq<u8>, Seq<u8>)>,
    end_stream: bool,
    id: u64,
    to: H3Model<C>,
    sizes: Sizes,
    room: nat,
)
    requires
        0 <= from_sizes.stream_buf <= usize::MAX,
        from_sizes.hdr_buf <= varint::MAX_VARINT,
        client::requested(
            from,
            from_sizes,
            method,
            path,
            authority,
            headers,
            end_stream,
        ).1 == Ok::<u64, Error>(id),
        bytes_for(to.inbox, id) == client::requested(
            from,
            from_sizes,
            method,
            path,
            authority,
            headers,
            end_stream,
        ).0.queue.last().data,
        room > 0,
        orderly(to.inbox, id),
        end_for(to.inbox, id) == end_stream,
        to.inbox.len() > 0,
        to.inbox[0].stream_id == id,
        id % 4 == 0,
        h3::slot_of(to.streams, id, 0) == to.streams.len(),
        connection::stream_accepted(to.quic, sizes.max_streams, id).1 is Ok,
        qpack::section(client::request_fields(method, path, authority, headers)).len()
            <= sizes.hdr_buf,
    ensures
        ({
            let fields = client::request_fields(method, path, authority, headers);
            let (after, r) = h3::processed(to, sizes, true, room);
            let new = after.events.skip(to.events.len() as int);
            &&& r is Ok ==> h3::headers_read(after, id) == Ok::<Seq<(Seq<u8>, Seq<u8>)>, Error>(
                fields,
            )
            &&& r is Ok ==> pieces::milestones(new, id) == header_milestones(id, end_stream)
            &&& (forall|k: int|
                0 <= k < to.inbox.len() ==> (#[trigger] to.inbox[k]).stream_id == id) ==> r is Ok
        }),
{
    let fields = client::request_fields(method, path, authority, headers);
    laws::law_request_opens_a_stream(
        from,
        from_sizes,
        method,
        path,
        authority,
        headers,
        end_stream,
    );
    lemma_first_bytes(to, sizes, room, id);
    let known = H3Model {
        quic: connection::stream_accepted(to.quic, sizes.max_streams, id).0,
        streams: to.streams.push(stream::fresh_stream(id)),
        ..to
    };
    law_headers_reach_reader(known, sizes, true, room, id, fields, end_stream);
}

/// Law: what a read gives back of a write, from server to client. The fields of a
/// response that a server sent, the status first, are what the client reads on
/// the stream of its request, in whatever pieces they come.
pub proof fn law_response_is_read<C: CryptoProvider>(
    from: H3Model<C>,
    from_sizes: Sizes,
    id: u64,
    status: u16,
    headers: Seq<(Seq<u8>, Seq<u8>)>,
    end_stream: bool,
    to: H3Model<C>,
    sizes: Sizes,
    room: nat,
)
    requires
        0 <= from_sizes.stream_buf <= usize::MAX,
        from_sizes.hdr_buf <= varint::MAX_VARINT,
        server::responded(from, from_sizes, id, status, headers, end_stream).1 is Ok,
        bytes_for(to.inbox, id) == server::responded(
            from,
            from_sizes,
            id,
            status,
            headers,
            end_stream,
        ).0.queue.last().data,
        room > 0,
        orderly(to.inbox, id),
        end_for(to.inbox, id) == end_stream,
        h3::slot_of(to.streams, id, 0) < to.streams.len(),
        to.streams[h3::slot_of(to.streams, id, 0)] == stream::fresh_stream(id),
        qpack::section(server::response_fields(status, headers)).len() <= sizes.hdr_buf,
    ensures
        ({
            let fields = server::response_fields(status, headers);
            let (after, r) = h3::processed(to, sizes, false, room);
            let new = after.events.skip(to.events.len() as int);
            &&& fields[0] == (server::status_name(), crate::http::status::status_bytes(status))
            &&& fields.drop_first() == headers
            &&& r is Ok ==> h3::headers_read(after, id) == Ok::<Seq<(Seq<u8>, Seq<u8>)>, Error>(
                fields,
            )
            &&& r is Ok ==> pieces::milestones(new, id) == header_milestones(id, end_stream)
            &&& (forall|k: int|
                0 <= k < to.inbox.len() ==> (#[trigger] to.inbox[k]).stream_id == id) ==> r is Ok
        }),
{
    let fields = server::response_fields(status, headers);
    assert(fields.drop_first() =~= headers);
    laws::law_headers_all_or_nothing(from, from_sizes, id, fields, end_stream);
    law_headers_reach_reader(to, sizes, false, room, id, fields, end_stream);
}

/// What polling an HTTP/3 connection for a datagram does to it, and the datagram.
pub open spec fn transmitted<C: CryptoProvider>(
    m: H3Model<C>,
    pool: Seq<Option<CtxModel<C>>>,
    cap: int,
    crypto_cap: int,
    now: Instant,
) -> (H3Model<C>, Option<Seq<u8>>) {
    let p = poll::polled(m.quic, m.queue, pool, cap, crypto_cap, now);
    (H3Model { quic: p.conn, queue: p.queue, ..m }, p.datagram)
}

/// Law: closing sends exactly one more datagram. The first poll after it yields
/// the one that carries CONNECTION_CLOSE, and the connection is closed then; no
/// later poll yields anything or changes the connection, which stays closed.
pub proof fn law_close_is_sent_once<C: CryptoProvider>(
    m0: H3Model<C>,
    code: u64,
    reason: Seq<u8>,
    pool: Seq<Option<CtxModel<C>>>,
    cap: int,
    crypto_cap: int,
    now: Instant,
    later_pool: Seq<Option<CtxModel<C>>>,
    later_cap: int,
    later: Instant,
)
    requires
        m0.quic.state != ConnectionState::Closed,
        m0.quic.remote_cid.len() <= 20,
        m0.quic.local_cid.len() <= 20,
        poll::prepared(connection::closing(m0.quic, code, reason), pool).2,
        frame::fitted(
            frame::close_parts(false, code, 0, reason),
            poll::CLOSE_FRAME_CAP as int,
        ) is Some,
        cap >= ending::CLOSE_ROOM,
        ({
            let ready = poll::prepared(connection::closing(m0.quic, code, reason), pool).0;
            poll::close_level(ready) matches Some(level) && ending::level_seals(ready, level)
        }),
    ensures
        ({
            let m = H3Model { quic: connection::closing(m0.quic, code, reason), ..m0 };
            let (m1, d) = transmitted(m, pool, cap, crypto_cap, now);
            &&& d is Some
            &&& m1.quic.state == ConnectionState::Closed
            &&& transmitted(m1, later_pool, later_cap, crypto_cap, later) == (m1, None::<Seq<u8>>)
        }),
{
    ending::law_close_is_sent_once(
        m0.quic,
        code,
        reason,
        m0.queue,
        pool,
        cap,
        crypto_cap,
        now,
        m0.queue,
        later_pool,
        later_cap,
        later,
    );
}

} // verus!
