//! What the packets of a connection tell the peer.

use vstd::prelude::*;

use crate::bytes;
use crate::connection::ack;
use crate::connection::handshake_pool::CtxModel;
use crate::connection::io::EntryModel;
use crate::connection::peer;
use crate::connection::reading::{self, Told};
use crate::connection::recv_pn;
use crate::connection::{frames, laws, transmit, ConnModel};
use crate::crypto::{self, Aead, CryptoProvider, HeaderProtection, KeyModel, Level};
use crate::frame;
use crate::tls::{Role, TlsSession};
use crate::transport::flow_control::RecvWindow;
use crate::transport::stream::StreamState;
use crate::transport::Instant;
use crate::varint;

verus! {

/// Some frames in front of others.
pub open spec fn before(first: Seq<Told>, rest: Option<Seq<Told>>) -> Option<Seq<Told>> {
    match rest {
        Some(more) => Some(first + more),
        None => None,
    }
}

/// Queued stream data, as told.
pub open spec fn streams_told(entries: Seq<EntryModel>) -> Seq<Told> {
    Seq::new(entries.len(), |i: int| Told::Stream(entries[i]))
}

proof fn lemma_before(a: Seq<Told>, b: Seq<Told>, rest: Option<Seq<Told>>)
    ensures
        before(a, before(b, rest)) == before(a + b, rest),
        before(Seq::empty(), rest) == rest,
{
    match rest {
        Some(more) => {
            assert(a + (b + more) =~= a + b + more);
            assert(Seq::<Told>::empty() + more =~= more);
        },
        None => {},
    }
}

/// A frame that is read in front of others.
pub proof fn lemma_one(b: Seq<u8>, t: Told, rest: Seq<u8>)
    requires
        b.len() > 0,
        b[0] != 0,
        reading::told_at(b + rest) == Some((t, b.len() as int)),
    ensures
        reading::told_by(b + rest) == before(seq![t], reading::told_by(rest)),
{
    reveal(reading::told_by);
    let s = b + rest;
    assert(s[0] == b[0]);
    assert(s.skip(b.len() as int) =~= rest);
}

/// Padding tells nothing.
pub proof fn lemma_padding(n: nat)
    ensures
        reading::told_by(bytes::zeros(n)) == Some(Seq::<Told>::empty()),
    decreases n,
{
    reveal(reading::told_by);
    if n > 0 {
        assert(bytes::zeros(n).skip(1) =~= bytes::zeros((n - 1) as nat));
        lemma_padding((n - 1) as nat);
    }
}

/// STREAM frames tell the entries that left the queue.
proof fn lemma_streams(queue: Seq<EntryModel>, room: int, rest: Seq<u8>)
    requires
        forall|i: int| 0 <= i < queue.len() ==> (#[trigger] queue[i]).data.len() <= u64::MAX,
    ensures
        ({
            let (b, n) = frames::stream_frames(queue, room);
            &&& n <= queue.len()
            &&& reading::told_by(b + rest) == before(
                streams_told(queue.take(n as int)),
                reading::told_by(rest),
            )
        }),
    decreases queue.len(),
{
    reveal(reading::told_at);
    let (b, n) = frames::stream_frames(queue, room);
    let after = reading::told_by(rest);
    if n == 0 {
        assert(b + rest =~= rest);
        assert(streams_told(queue.take(0)) =~= Seq::<Told>::empty());
        lemma_before(Seq::empty(), Seq::empty(), after);
    } else {
        let e = queue[0];
        let first = frame::stream_parts(e.stream_id, e.offset, e.data, e.fin).encoding()->0;
        let tail = queue.drop_first();
        let (more, k) = frames::stream_frames(tail, room - first.len());
        assert(b == first + more);
        assert(b + rest =~= first + (more + rest));
        assert forall|i: int| 0 <= i < tail.len() implies (#[trigger] tail[i]).data.len()
            <= u64::MAX by {
            assert(tail[i] == queue[i + 1]);
        }
        lemma_streams(tail, room - first.len(), rest);
        peer::law_stream_frame_roundtrip(e, more + rest);
        assert(first[0] == frame::stream_parts(e.stream_id, e.offset, e.data, e.fin).kind);
        assert((first + (more + rest))[0] == first[0]);
        lemma_one(first, Told::Stream(e), more + rest);
        lemma_before(seq![Told::Stream(e)], streams_told(tail.take(k as int)), after);
        assert(seq![Told::Stream(e)] + streams_told(tail.take(k as int)) =~= streams_told(
            queue.take(n as int),
        ));
    }
}

/// Whether a higher limit was advertised for a window: what was consumed and the
/// size of the window together, which is more than before; and at most half of the
/// window was left.
pub open spec fn raised(old_window: RecvWindow, new_window: RecvWindow) -> bool {
    &&& new_window.consumed == old_window.consumed
    &&& new_window.size == old_window.size
    &&& new_window.limit > old_window.limit
    &&& new_window.limit == (if old_window.consumed + old_window.size <= u64::MAX {
        old_window.consumed + old_window.size
    } else {
        u64::MAX as int
    })
    &&& old_window.limit - old_window.consumed <= old_window.size / 2
}

/// Whether a stream is as it was, or had its limit raised.
pub open spec fn same_or_raised(a: StreamState, b: StreamState) -> bool {
    a == b || (raised(a.recv, b.recv) && b == StreamState { recv: b.recv, ..a })
}

/// The stream limits that changed, from position `i` on.
pub open spec fn limits_told(old_streams: Seq<StreamState>, new_streams: Seq<StreamState>, i: int) -> Seq<
    Told,
>
    decreases old_streams.len() - i,
{
    if i < 0 || i >= old_streams.len() {
        Seq::empty()
    } else if new_streams[i].recv.limit != old_streams[i].recv.limit {
        seq![Told::MaxStreamData(new_streams[i].id as int, new_streams[i].recv.limit as int)]
            + limits_told(old_streams, new_streams, i + 1)
    } else {
        limits_told(old_streams, new_streams, i + 1)
    }
}

proof fn lemma_limits_told(
    a: Seq<StreamState>,
    b: Seq<StreamState>,
    after: Seq<StreamState>,
    i: int,
)
    requires
        a.len() == b.len(),
        0 <= i,
        forall|j: int| i <= j < a.len() ==> #[trigger] a[j] == b[j],
    ensures
        limits_told(a, after, i) == limits_told(b, after, i),
    decreases a.len() - i,
{
    if i < a.len() {
        assert(a[i] == b[i]);
        lemma_limits_told(a, b, after, i + 1);
    }
}

/// MAX_STREAM_DATA frames tell exactly the limits that were raised.
proof fn lemma_windows(streams: Seq<StreamState>, i: int, room: int, rest: Seq<u8>)
    requires
        0 <= i <= streams.len(),
    ensures
        ({
            let (after, b) = frames::window_frames(streams, i, room);
            &&& after.len() == streams.len()
            &&& forall|j: int| 0 <= j < i ==> #[trigger] after[j] == streams[j]
            &&& forall|j: int|
                i <= j < streams.len() ==> same_or_raised(#[trigger] streams[j], after[j])
            &&& reading::told_by(b + rest) == before(
                limits_told(streams, after, i),
                reading::told_by(rest),
            )
        }),
    decreases streams.len() - i,
{
    let (after, b) = frames::window_frames(streams, i, room);
    let told = reading::told_by(rest);
    assert(Seq::<u8>::empty() + rest =~= rest);
    lemma_before(Seq::empty(), Seq::empty(), told);
    if i < streams.len() {
        if !streams[i].recv.due() {
            lemma_windows(streams, i + 1, room, rest);
        } else {
            let id = streams[i].id;
            let max = streams[i].recv.full_limit();
            let parts = frame::max_stream_data_parts(id, max);
            match frame::fitted(parts, room) {
                Some(first) => {
                    let next = crate::transport::stream::renewed_at(streams, i);
                    let (after1, more) = frames::window_frames(next, i + 1, room - first.len());
                    lemma_windows(next, i + 1, room - first.len(), rest);
                    assert(parts.head[0] <= varint::MAX_VARINT && parts.head[1]
                        <= varint::MAX_VARINT);
                    reading::law_max_stream_data_tells(id, max, more + rest);
                    assert(b + rest =~= first + (more + rest));
                    assert(first[0] == 0x11);
                    let t = Told::MaxStreamData(id as int, max as int);
                    lemma_one(first, t, more + rest);
                    lemma_limits_told(next, streams, after1, i + 1);
                    assert(after1[i] == next[i]);
                    lemma_before(seq![t], limits_told(streams, after1, i + 1), told);
                    assert forall|j: int| i <= j < streams.len() implies same_or_raised(
                        #[trigger] streams[j],
                        after[j],
                    ) by {
                        if j > i {
                            assert(next[j] == streams[j]);
                        }
                    }
                },
                None => {
                    lemma_nothing_raised(streams, i);
                },
            }
        }
    }
}

proof fn lemma_nothing_raised(streams: Seq<StreamState>, i: int)
    requires
        0 <= i,
    ensures
        limits_told(streams, streams, i) == Seq::<Told>::empty(),
    decreases streams.len() - i,
{
    if i < streams.len() {
        lemma_nothing_raised(streams, i + 1);
    }
}

/// The frame that acknowledges, if one was due and no longer is.
pub open spec fn ack_told<C: CryptoProvider>(m: ConnModel<C>, after: ConnModel<C>, level: Level) -> Seq<
    Told,
> {
    let i = crypto::level_number(level);
    if m.ack_due[i] && !after.ack_due[i] {
        seq![
            Told::Ack(
                reading::highest(m.received[i], 1 + ack::sent_pairs(m.received[i]).len()),
            ),
        ]
    } else {
        Seq::empty()
    }
}

/// Whether what was received at a level can be acknowledged.
pub open spec fn ack_ready<C: CryptoProvider>(m: ConnModel<C>, level: Level) -> bool {
    let i = crypto::level_number(level);
    &&& m.ack_due.len() == 3
    &&& recv_pn::ranges_wf(m.received[i])
    &&& m.received[i].len() > 0 ==> m.received[i].last().1 <= 0x3fff_ffff_ffff_ffff
}

proof fn lemma_ack<C: CryptoProvider>(m: ConnModel<C>, level: Level, room: int, rest: Seq<u8>)
    requires
        ack_ready(m, level),
    ensures
        ({
            let i = crypto::level_number(level);
            let (after, b) = ack::ack_part(m, level, room);
            &&& after == (ConnModel { ack_due: after.ack_due, ..m })
            &&& after.ack_due == m.ack_due || after.ack_due == m.ack_due.update(i, false)
            &&& reading::told_by(b + rest) == before(
                ack_told(m, after, level),
                reading::told_by(rest),
            )
            &&& b.len() <= 289
            &&& m.ack_due[i] && m.received[i].len() > 0 && room >= 289 ==> !after.ack_due[i]
        }),
{
    let i = crypto::level_number(level);
    let (after, b) = ack::ack_part(m, level, room);
    let ranges = m.received[i];
    lemma_before(Seq::empty(), Seq::empty(), reading::told_by(rest));
    assert(Seq::<u8>::empty() + rest =~= rest);
    if m.ack_due[i] && ranges.len() > 0 {
        reading::law_ack_tells(ranges, rest);
        match ack::ack_frame(ranges, room) {
            Some(e) => {
                assert(e[0] == 0x02);
                lemma_one(
                    e,
                    Told::Ack(reading::highest(ranges, 1 + ack::sent_pairs(ranges).len())),
                    rest,
                );
            },
            None => {},
        }
    }
}

/// What a connection with the limits of `m` tells with a packet after which it has
/// those of `after`: what changed.
pub open spec fn control_told<C: CryptoProvider>(m: ConnModel<C>, after: ConnModel<C>) -> Seq<Told> {
    (if m.role == Role::Server && m.handshake_done_due {
        seq![Told::HandshakeDone]
    } else {
        Seq::<Told>::empty()
    }) + (if m.path_response is Some && after.path_response is None {
        seq![Told::PathResponse(m.path_response->0@)]
    } else {
        Seq::<Told>::empty()
    }) + ack_told(m, after, Level::Application) + (if after.flow.recv.limit != m.flow.recv.limit {
        seq![Told::MaxData(after.flow.recv.limit as int)]
    } else {
        Seq::<Told>::empty()
    }) + limits_told(m.streams, after.streams, 0)
}

/// PATH_RESPONSE.
proof fn lemma_path<C: CryptoProvider>(m: ConnModel<C>, room: int, rest: Seq<u8>)
    ensures
        ({
            let (after, b) = frames::path_part(m, room);
            &&& after == (ConnModel { path_response: after.path_response, ..m })
            &&& reading::told_by(b + rest) == before(
                if m.path_response is Some && after.path_response is None {
                    seq![Told::PathResponse(m.path_response->0@)]
                } else {
                    Seq::<Told>::empty()
                },
                reading::told_by(rest),
            )
            &&& b.len() <= 9
            &&& after.path_response == m.path_response || after.path_response is None
            &&& room >= 9 ==> after.path_response is None
        }),
{
    lemma_before(Seq::empty(), Seq::empty(), reading::told_by(rest));
    assert(Seq::<u8>::empty() + rest =~= rest);
    match m.path_response {
        Some(data) => {
            reading::law_path_response_tells(data@, rest);
            let e = frame::path_response_parts(data@).encoding()->0;
            assert(e[0] == 0x1b);
            lemma_one(e, Told::PathResponse(data@), rest);
        },
        None => {},
    }
}

/// HANDSHAKE_DONE.
proof fn lemma_done<C: CryptoProvider>(m: ConnModel<C>, room: int, rest: Seq<u8>)
    requires
        room >= 1,
    ensures
        ({
            let b = frames::done_part(m, room);
            &&& reading::told_by(b + rest) == before(
                if m.role == Role::Server && m.handshake_done_due {
                    seq![Told::HandshakeDone]
                } else {
                    Seq::<Told>::empty()
                },
                reading::told_by(rest),
            )
            &&& b.len() == if m.role == Role::Server && m.handshake_done_due {
                1int
            } else {
                0int
            }
        }),
{
    lemma_before(Seq::empty(), Seq::empty(), reading::told_by(rest));
    assert(Seq::<u8>::empty() + rest =~= rest);
    reading::law_handshake_done_tells(rest);
    let e = frame::handshake_done_parts().encoding()->0;
    assert(e[0] == 0x1e);
    lemma_one(e, Told::HandshakeDone, rest);
}

/// Law: MAX_DATA goes out exactly when the limit of the connection is raised, and
/// tells the limit that is recorded: what was consumed and the size of the window
/// together, which is more than was advertised before. With room for it, it goes
/// out as soon as at most half of the window is left.
pub proof fn law_max_data_raises_the_limit<C: CryptoProvider>(
    m: ConnModel<C>,
    room: int,
    rest: Seq<u8>,
)
    ensures
        ({
            let (after, b) = frames::max_data_part(m, room);
            let w = m.flow.recv;
            let v = after.flow.recv;
            &&& after == (ConnModel { flow: after.flow, ..m })
            &&& v == w || raised(w, v)
            &&& v == w <==> b.len() == 0
            &&& reading::told_by(b + rest) == before(
                if v.limit != w.limit {
                    seq![Told::MaxData(v.limit as int)]
                } else {
                    Seq::<Told>::empty()
                },
                reading::told_by(rest),
            )
            &&& b.len() <= 9
            &&& room >= 9 && w.limit < w.consumed + w.size <= 0x3fff_ffff_ffff_ffff && w.limit
                - w.consumed <= w.size / 2 ==> v.limit == w.consumed + w.size
        }),
{
    lemma_before(Seq::empty(), Seq::empty(), reading::told_by(rest));
    assert(Seq::<u8>::empty() + rest =~= rest);
    let max = m.flow.recv.full_limit();
    let parts = frame::max_data_parts(max);
    assert(parts.head[0] == max);
    if max <= varint::MAX_VARINT {
        reading::law_max_data_tells(max, rest);
        let e = parts.encoding()->0;
        assert(e[0] == 0x10);
        lemma_one(e, Told::MaxData(max as int), rest);
    }
}

/// What the frames that are not congestion-controlled change.
proof fn lemma_control_changes<C: CryptoProvider>(m: ConnModel<C>, room: int)
    requires
        room >= 1,
        ack_ready(m, Level::Application),
    ensures
        ({
            let after = frames::control_part(m, room).0;
            &&& after == (ConnModel {
                path_response: after.path_response,
                ack_due: after.ack_due,
                flow: after.flow,
                streams: after.streams,
                ..m
            })
            &&& after.ack_due == m.ack_due || after.ack_due == m.ack_due.update(2, false)
            &&& after.path_response == m.path_response || after.path_response is None
            &&& after.flow.recv == m.flow.recv || raised(m.flow.recv, after.flow.recv)
            &&& after.streams.len() == m.streams.len()
            &&& forall|j: int|
                0 <= j < m.streams.len() ==> same_or_raised(#[trigger] m.streams[j], after.streams[j])
            &&& room >= 308 ==> {
                &&& after.path_response is None
                &&& m.ack_due[2] && m.received[2].len() > 0 ==> !after.ack_due[2]
                &&& ({
                    let w = m.flow.recv;
                    w.limit < w.consumed + w.size <= 0x3fff_ffff_ffff_ffff && w.limit - w.consumed
                        <= w.size / 2 ==> after.flow.recv.limit == w.consumed + w.size
                })
            }
        }),
{
    reveal(frames::control_part);
    let none = Seq::<u8>::empty();
    let done = frames::done_part(m, room);
    let (m1, path) = frames::path_part(m, room - done.len());
    let b1 = done + path;
    let (m2, ack) = ack::ack_part(m1, Level::Application, room - b1.len());
    let b2 = b1 + ack;
    let (m3, max) = frames::max_data_part(m2, room - b2.len());
    let b3 = b2 + max;
    lemma_done(m, room, none);
    lemma_path(m, room - done.len(), none);
    lemma_ack(m1, Level::Application, room - b1.len(), none);
    law_max_data_raises_the_limit(m2, room - b2.len(), none);
    lemma_windows(m3.streams, 0, room - b3.len(), none);
}

/// Five kinds of frames, one after the other.
proof fn lemma_five(
    s: Seq<Seq<u8>>,
    a: Seq<Seq<Told>>,
    rest: Seq<u8>,
)
    requires
        s.len() == 5,
        a.len() == 5,
        reading::told_by(s[4] + rest) == before(a[4], reading::told_by(rest)),
        reading::told_by(s[3] + (s[4] + rest)) == before(a[3], reading::told_by(s[4] + rest)),
        reading::told_by(s[2] + (s[3] + (s[4] + rest))) == before(
            a[2],
            reading::told_by(s[3] + (s[4] + rest)),
        ),
        reading::told_by(s[1] + (s[2] + (s[3] + (s[4] + rest)))) == before(
            a[1],
            reading::told_by(s[2] + (s[3] + (s[4] + rest))),
        ),
        reading::told_by(s[0] + (s[1] + (s[2] + (s[3] + (s[4] + rest))))) == before(
            a[0],
            reading::told_by(s[1] + (s[2] + (s[3] + (s[4] + rest)))),
        ),
    ensures
        reading::told_by(s[0] + s[1] + s[2] + s[3] + s[4] + rest) == before(
            a[0] + a[1] + a[2] + a[3] + a[4],
            reading::told_by(rest),
        ),
{
    let t = reading::told_by(rest);
    lemma_before(a[3], a[4], t);
    lemma_before(a[2], a[3] + a[4], t);
    lemma_before(a[1], a[2] + (a[3] + a[4]), t);
    lemma_before(a[0], a[1] + (a[2] + (a[3] + a[4])), t);
    assert(a[0] + (a[1] + (a[2] + (a[3] + a[4]))) =~= a[0] + a[1] + a[2] + a[3] + a[4]);
    assert(s[0] + s[1] + s[2] + s[3] + s[4] + rest =~= s[0] + (s[1] + (s[2] + (s[3] + (s[4]
        + rest)))));
}

/// The frames of a short packet that are not congestion-controlled tell exactly
/// what changed.
proof fn lemma_control<C: CryptoProvider>(m: ConnModel<C>, room: int, rest: Seq<u8>)
    requires
        room >= 1,
        ack_ready(m, Level::Application),
    ensures
        ({
            let (after, b) = frames::control_part(m, room);
            reading::told_by(b + rest) == before(control_told(m, after), reading::told_by(rest))
        }),
{
    reveal(frames::control_part);
    let done = frames::done_part(m, room);
    let (m1, path) = frames::path_part(m, room - done.len());
    let b1 = done + path;
    let (m2, ack) = ack::ack_part(m1, Level::Application, room - b1.len());
    let b2 = b1 + ack;
    let (m3, max) = frames::max_data_part(m2, room - b2.len());
    let b3 = b2 + max;
    let (m4, windows) = frames::window_part(m3, room - b3.len());
    let r4 = windows + rest;
    let r3 = max + r4;
    let r2 = ack + r3;
    let r1 = path + r2;
    lemma_done(m, room, r1);
    lemma_path(m, room - done.len(), r2);
    lemma_ack(m1, Level::Application, room - b1.len(), r3);
    law_max_data_raises_the_limit(m2, room - b2.len(), r4);
    lemma_windows(m3.streams, 0, room - b3.len(), rest);
    let a0 = if m.role == Role::Server && m.handshake_done_due {
        seq![Told::HandshakeDone]
    } else {
        Seq::<Told>::empty()
    };
    let a1 = if m.path_response is Some && m1.path_response is None {
        seq![Told::PathResponse(m.path_response->0@)]
    } else {
        Seq::<Told>::empty()
    };
    let a2 = ack_told(m1, m2, Level::Application);
    let a3 = if m3.flow.recv.limit != m2.flow.recv.limit {
        seq![Told::MaxData(m3.flow.recv.limit as int)]
    } else {
        Seq::<Told>::empty()
    };
    let a4 = limits_told(m3.streams, m4.streams, 0);
    lemma_five(seq![done, path, ack, max, windows], seq![a0, a1, a2, a3, a4], rest);
    assert(control_told(m, m4) == a0 + a1 + a2 + a3 + a4);
}

/// Law: what the peer reads out of a 1-RTT packet is what the connection takes for
/// told: HANDSHAKE_DONE while a server owes it, the answer to a challenge, the
/// packets received, the limits that were raised, each with its new value, and the
/// stream data that left the queue, in order; and nothing else.
pub proof fn law_short_packet_tells<C: CryptoProvider, B: Aead, HQ: HeaderProtection>(
    m: ConnModel<C>,
    queue: Seq<EntryModel>,
    cap: int,
    now: Instant,
    recv: KeyModel<B, HQ>,
    expected: int,
)
    requires
        m.next_pn.len() == 3,
        m.number_left(Level::Application),
        m.keys.application matches Some(k) && peer::matching(k, recv),
        peer::recoverable(
            m.pn(Level::Application) as int,
            m.pn_len(Level::Application),
            expected,
        ),
        ack_ready(m, Level::Application),
        forall|i: int| 0 <= i < queue.len() ==> (#[trigger] queue[i]).data.len() <= u64::MAX,
        transmit::short_step(m, queue, cap, now).2 is Some,
    ensures
        ({
            let (after, left, pkt) = transmit::short_step(m, queue, cap, now);
            let n = queue.len() - left.len();
            &&& n >= 0 && left == queue.skip(n)
            &&& peer::opened_packet(
                recv,
                pkt->0,
                1 + m.remote_cid.len() as int,
                false,
                expected,
            ) matches Some((pn, header, payload))
            &&& pn == m.pn(Level::Application)
            &&& reading::told_by(payload) == Some(
                control_told(m, after) + streams_told(queue.take(n)),
            )
            &&& after.handshake_done_due == (m.handshake_done_due && m.role != Role::Server)
            &&& after.flow.recv == m.flow.recv || raised(m.flow.recv, after.flow.recv)
            &&& after.streams.len() == m.streams.len()
            &&& forall|j: int|
                0 <= j < m.streams.len() ==> same_or_raised(#[trigger] m.streams[j], after.streams[j])
        }),
{
    reveal(transmit::short_step);
    let pn_len = m.pn_len(Level::Application) as int;
    let room = cap - (1 + m.remote_cid.len() + pn_len);
    let (m1, control) = frames::control_part(m, room);
    let (queue1, streams) = frames::stream_part(m1, queue, room - control.len());
    let budget = crate::connection::least(
        m1.congestion.available() as usize as int,
        room - control.len(),
    );
    let n = frames::stream_frames(queue, budget).1 as int;
    let all = control + streams;
    let pad = bytes::zeros(transmit::sample_padding(all.len() as int, pn_len) as nat);
    lemma_padding(transmit::sample_padding(all.len() as int, pn_len) as nat);
    lemma_streams(queue, budget, pad);
    lemma_control(m, room, streams + pad);
    lemma_control_changes(m, room);
    lemma_done(m, room, Seq::empty());
    assert(all + pad =~= control + (streams + pad));
    let s = streams_told(queue.take(n));
    assert(s + Seq::<Told>::empty() =~= s);
    peer::law_short_packet_roundtrip(m1, recv, all, cap, expected);
    let (after, left, pkt) = transmit::short_step(m, queue, cap, now);
    assert(queue.len() - left.len() == n);
    assert(control_told(m, m1) == control_told(m, after));
}

/// Law: with room for them, nothing that is due is held back from a 1-RTT packet:
/// not the answer to a challenge, not the acknowledgment of what was received, not
/// a higher limit of the connection.
pub proof fn law_short_packet_holds_nothing_back<C: CryptoProvider>(
    m: ConnModel<C>,
    queue: Seq<EntryModel>,
    cap: int,
    now: Instant,
)
    requires
        m.next_pn.len() == 3,
        m.number_left(Level::Application),
        ack_ready(m, Level::Application),
        cap >= 340 + m.remote_cid.len(),
    ensures
        ({
            let after = transmit::short_step(m, queue, cap, now).0;
            let w = m.flow.recv;
            &&& after.path_response is None
            &&& m.ack_due[2] && m.received[2].len() > 0 ==> !after.ack_due[2]
            &&& w.limit < w.consumed + w.size <= 0x3fff_ffff_ffff_ffff && w.limit - w.consumed
                <= w.size / 2 ==> after.flow.recv.limit == w.consumed + w.size
        }),
{
    reveal(transmit::short_step);
    let pn_len = m.pn_len(Level::Application) as int;
    let room = cap - (1 + m.remote_cid.len() + pn_len);
    lemma_control_changes(m, room);
}

/// The handshake bytes that a packet at `level` tells: those between what was sent
/// of the level's stream before and after.
pub open spec fn crypto_told<C: CryptoProvider>(
    slot: Option<usize>,
    pool: Seq<Option<CtxModel<C>>>,
    after: Seq<Option<CtxModel<C>>>,
    level: Level,
) -> Seq<Told> {
    let t = crypto::level_number(level);
    match slot {
        None => Seq::empty(),
        Some(s) => {
            let from = (pool[s as int]->0).sent[t];
            let to = (after[s as int]->0).sent[t];
            if from < to {
                seq![
                    Told::Crypto(
                        from as int,
                        (after[s as int]->0).pending[t].subrange(from as int, to as int),
                    ),
                ]
            } else {
                Seq::empty()
            }
        },
    }
}

/// Whether a handshake slot is in use and no more was sent than there is.
pub open spec fn slot_ready<C: CryptoProvider>(
    slot: Option<usize>,
    pool: Seq<Option<CtxModel<C>>>,
    crypto_cap: int,
) -> bool {
    slot matches Some(s) ==> {
        &&& s < pool.len()
        &&& pool[s as int] matches Some(c)
        &&& c.sent.len() == 3
        &&& c.pending.len() == 3
        &&& crypto_cap <= u64::MAX
        &&& forall|t: int|
            0 <= t < 3 ==> #[trigger] c.sent[t] <= c.pending[t].len() && c.pending[t].len()
                <= u64::MAX
    }
}

/// Law: the handshake bytes in a packet are those of the level's stream that
/// follow what was sent of it; and the stream only ever grows, by what the engine
/// hands out for that level, once all of it was sent.
pub proof fn law_crypto_part_tells<C: CryptoProvider>(
    slot: Option<usize>,
    pool: Seq<Option<CtxModel<C>>>,
    level: Level,
    room: int,
    crypto_cap: int,
    rest: Seq<u8>,
)
    requires
        slot_ready(slot, pool, crypto_cap),
    ensures
        ({
            let t = crypto::level_number(level);
            let (after, b) = frames::crypto_part(slot, pool, level, room, crypto_cap);
            &&& reading::told_by(b + rest) == before(
                crypto_told(slot, pool, after, level),
                reading::told_by(rest),
            )
            &&& b.len() > 0 <==> crypto_told(slot, pool, after, level).len() > 0
            &&& after.len() == pool.len()
            &&& slot matches Some(s) ==> ({
                let c = pool[s as int]->0;
                &&& after[s as int] matches Some(d)
                &&& c.sent[t] <= d.sent[t] <= d.pending[t].len()
                &&& forall|i: int| 0 <= i < 3 && i != t ==> #[trigger] d.sent[i] == c.sent[i]
                &&& c.sent[t] < c.pending[t].len() ==> d.pending == c.pending && d.tls == c.tls
                &&& c.sent[t] == c.pending[t].len() ==> ({
                    let (tls, out) = c.tls.write_step(2048);
                    &&& d.tls == tls
                    &&& out is Err ==> d.pending == c.pending
                    &&& out matches Ok((data, l)) ==> ({
                        let i = crypto::level_number(l);
                        &&& d.pending.len() == 3
                        &&& forall|j: int| 0 <= j < 3 && j != i ==> #[trigger] d.pending[j] == c.pending[j]
                        &&& c.pending[i].len() + data.len() <= crypto_cap ==> d.pending[i]
                            == c.pending[i] + data
                    })
                })
                &&& room > 33 && c.sent[t] < d.pending[t].len() <= 0x3fff_ffff_ffff_ffff
                    ==> c.sent[t] < d.sent[t]
            })
        }),
{
    lemma_before(Seq::empty(), Seq::empty(), reading::told_by(rest));
    assert(Seq::<u8>::empty() + rest =~= rest);
    match slot {
        None => {},
        Some(s) => {
            let t = crypto::level_number(level);
            let c = pool[s as int]->0;
            let staged = frames::staged(c, level, crypto_cap);
            let (d, b) = frames::crypto_frame_step(staged, level, room);
            assert(c.sent[t] <= c.pending[t].len());
            lemma_staged(c, level, crypto_cap);
            let unsent = staged.pending[t].len() - c.sent[t];
            let len = crate::connection::least(room - 33, unsent);
            let after = frames::crypto_part(slot, pool, level, room, crypto_cap).0;
            assert(after[s as int] == Some(d));
            if unsent > 0 && room > 33 {
                let data = staged.pending[t].subrange(c.sent[t] as int, c.sent[t] + len);
                reading::law_crypto_tells(c.sent[t], data, rest);
                let parts = frame::crypto_parts(c.sent[t], data);
                lemma_crypto_size(c.sent[t], data);
                match frame::fitted(parts, room) {
                    Some(e) => {
                        assert(e[0] == 0x06);
                        lemma_one(e, Told::Crypto(c.sent[t] as int, data), rest);
                    },
                    None => {},
                }
            }
        },
    }
}

proof fn lemma_crypto_size(offset: u64, data: Seq<u8>)
    requires
        data.len() <= u64::MAX,
    ensures
        frame::crypto_parts(offset, data).encoding() matches Some(e) ==> e.len() <= 17 + data.len(),
        offset + data.len() <= varint::MAX_VARINT ==> frame::crypto_parts(
            offset,
            data,
        ).encoding() is Some,
{
    let parts = frame::crypto_parts(offset, data);
    reveal_with_fuel(frame::varints, 3);
    varint::lemma_varint_len(offset as int);
    varint::lemma_varint_len(data.len() as u64 as int);
    assert(parts.head.drop_last() =~= seq![offset]);
    assert(seq![offset].drop_last() =~= Seq::<u64>::empty());
    if offset + data.len() <= varint::MAX_VARINT {
        assert(frame::encodable(parts.head));
    }
}

/// What taking output from the engine changes.
proof fn lemma_staged<C: CryptoProvider>(c: CtxModel<C>, level: Level, crypto_cap: int)
    requires
        c.sent.len() == 3,
        c.pending.len() == 3,
        crypto_cap <= u64::MAX,
        forall|t: int|
            0 <= t < 3 ==> #[trigger] c.sent[t] <= c.pending[t].len() && c.pending[t].len()
                <= u64::MAX,
    ensures
        ({
            let d = frames::staged(c, level, crypto_cap);
            &&& d.sent == c.sent
            &&& d.pending.len() == 3
            &&& forall|t: int|
                0 <= t < 3 ==> #[trigger] d.pending[t].len() >= c.pending[t].len() && d.pending[t].len()
                    <= u64::MAX
        }),
{
    let d = frames::staged(c, level, crypto_cap);
    assert forall|t: int| 0 <= t < 3 implies #[trigger] d.pending[t].len() >= c.pending[t].len()
        && d.pending[t].len() <= u64::MAX by {
        assert(c.sent[t] <= c.pending[t].len());
    }
}

/// Law: what the peer reads out of an Initial packet is the acknowledgment that
/// was due and the handshake bytes that count as sent with it, and nothing else.
pub proof fn law_initial_packet_tells<C: CryptoProvider, B: Aead, HQ: HeaderProtection>(
    m: ConnModel<C>,
    pool: Seq<Option<CtxModel<C>>>,
    cap: int,
    crypto_cap: int,
    now: Instant,
    recv: KeyModel<B, HQ>,
    expected: int,
)
    requires
        m.next_pn.len() == 3,
        m.number_left(Level::Initial),
        m.keys.initial matches Some(k) && peer::matching(k, recv),
        peer::recoverable(m.pn(Level::Initial) as int, m.pn_len(Level::Initial), expected),
        ack_ready(m, Level::Initial),
        slot_ready(m.slot, pool, crypto_cap),
        transmit::initial_step(m, pool, cap, crypto_cap, now).2 is Some,
    ensures
        ({
            let (after, pool1, pkt) = transmit::initial_step(m, pool, cap, crypto_cap, now);
            exists|at: int| #[trigger]
                tells(
                    peer::opened_packet(recv, pkt->0, at, true, expected),
                    m.pn(Level::Initial) as int,
                    ack_told(m, after, Level::Initial) + crypto_told(
                        m.slot,
                        pool,
                        pool1,
                        Level::Initial,
                    ),
                )
        }),
{
    reveal(transmit::initial_step);
    let pn_len = m.pn_len(Level::Initial) as int;
    let reserve = 16 + m.remote_cid.len() + m.local_cid.len() + pn_len;
    let (m1, ack) = ack::ack_part(m, Level::Initial, cap - reserve);
    let (pool1, data) = if cap >= crate::packet::MIN_INITIAL_PACKET_SIZE {
        frames::crypto_part(m.slot, pool, Level::Initial, cap - reserve - ack.len(), crypto_cap)
    } else {
        (pool, Seq::empty())
    };
    let all = ack + data;
    let pad_to_min = m.role == Role::Client || data.len() > 0;
    let pad = transmit::initial_padding(
        m.remote_cid.len() as int,
        m.local_cid.len() as int,
        pn_len,
        all.len() as int,
        pad_to_min,
    );
    let zeros = bytes::zeros(pad as nat);
    lemma_padding(pad as nat);
    lemma_ack(m, Level::Initial, cap - reserve, data + zeros);
    if cap >= crate::packet::MIN_INITIAL_PACKET_SIZE {
        law_crypto_part_tells(
            m.slot,
            pool,
            Level::Initial,
            cap - reserve - ack.len(),
            crypto_cap,
            zeros,
        );
    } else {
        assert(data + zeros =~= zeros);
        lemma_before(Seq::empty(), Seq::empty(), reading::told_by(zeros));
    }
    assert(all + zeros =~= ack + (data + zeros));
    let (after, p1, pkt) = transmit::initial_step(m, pool, cap, crypto_cap, now);
    let a = ack_told(m, after, Level::Initial);
    let b = crypto_told(m.slot, pool, p1, Level::Initial);
    assert(a == ack_told(m, m1, Level::Initial));
    assert(a + (b + Seq::<Told>::empty()) =~= a + b);
    peer::law_initial_packet_roundtrip(m, recv, all, pad_to_min, cap, expected);
    let header = transmit::next_initial_header(m, (all + zeros).len() as int);
    let at = header.len() - pn_len;
    assert(tells(
        peer::opened_packet(recv, pkt->0, at, true, expected),
        m.pn(Level::Initial) as int,
        a + b,
    ));
}

/// Whether an opened packet has a number and tells something.
pub open spec fn tells(
    opened: Option<(int, Seq<u8>, Seq<u8>)>,
    pn: int,
    told: Seq<Told>,
) -> bool {
    opened matches Some((n, header, payload)) && n == pn && reading::told_by(payload) == Some(told)
}

/// Law: what the peer reads out of a Handshake packet is the acknowledgment that
/// was due and the handshake bytes that count as sent with it, and nothing else.
pub proof fn law_handshake_packet_tells<C: CryptoProvider, B: Aead, HQ: HeaderProtection>(
    m: ConnModel<C>,
    pool: Seq<Option<CtxModel<C>>>,
    cap: int,
    crypto_cap: int,
    now: Instant,
    recv: KeyModel<B, HQ>,
    expected: int,
)
    requires
        m.next_pn.len() == 3,
        m.number_left(Level::Handshake),
        m.keys.handshake matches Some(k) && peer::matching(k, recv),
        peer::recoverable(m.pn(Level::Handshake) as int, m.pn_len(Level::Handshake), expected),
        ack_ready(m, Level::Handshake),
        slot_ready(m.slot, pool, crypto_cap),
        transmit::handshake_step(m, pool, cap, crypto_cap, now).2 is Some,
    ensures
        ({
            let (after, pool1, pkt) = transmit::handshake_step(m, pool, cap, crypto_cap, now);
            exists|at: int| #[trigger]
                tells(
                    peer::opened_packet(recv, pkt->0, at, true, expected),
                    m.pn(Level::Handshake) as int,
                    ack_told(m, after, Level::Handshake) + crypto_told(
                        m.slot,
                        pool,
                        pool1,
                        Level::Handshake,
                    ),
                )
        }),
{
    reveal(transmit::handshake_step);
    let none = Seq::<u8>::empty();
    let pn_len = m.pn_len(Level::Handshake) as int;
    let reserve = 15 + m.remote_cid.len() + m.local_cid.len() + pn_len;
    let (m1, ack) = ack::ack_part(m, Level::Handshake, cap - reserve);
    let (pool1, data) = frames::crypto_part(
        m.slot,
        pool,
        Level::Handshake,
        cap - reserve - ack.len(),
        crypto_cap,
    );
    let all = ack + data;
    lemma_padding(0);
    assert(bytes::zeros(0) =~= none);
    lemma_ack(m, Level::Handshake, cap - reserve, data + none);
    law_crypto_part_tells(
        m.slot,
        pool,
        Level::Handshake,
        cap - reserve - ack.len(),
        crypto_cap,
        none,
    );
    assert(all =~= ack + (data + none));
    let (after, p1, pkt) = transmit::handshake_step(m, pool, cap, crypto_cap, now);
    let a = ack_told(m, after, Level::Handshake);
    let b = crypto_told(m.slot, pool, p1, Level::Handshake);
    assert(a == ack_told(m, m1, Level::Handshake));
    assert(a + (b + Seq::<Told>::empty()) =~= a + b);
    peer::law_handshake_packet_roundtrip(m, recv, all, cap, expected);
    let header = transmit::next_handshake_header(m, all.len() as int);
    let at = header.len() - pn_len;
    assert(tells(
        peer::opened_packet(recv, pkt->0, at, true, expected),
        m.pn(Level::Handshake) as int,
        a + b,
    ));
}

/// Law: stream data stays within the congestion window: what a packet carries of
/// it is no more than the window has room for, and it leaves the queue from the
/// front.
pub proof fn law_stream_data_within_window<C: CryptoProvider>(
    m: ConnModel<C>,
    queue: Seq<EntryModel>,
    room: int,
)
    requires
        room >= 0,
    ensures
        ({
            let (left, b) = frames::stream_part(m, queue, room);
            &&& b.len() > 0 ==> m.congestion.in_flight + b.len() <= m.congestion.window
            &&& b.len() <= room
            &&& left.len() <= queue.len()
            &&& left == queue.skip(queue.len() - left.len())
        }),
{
    let avail = m.congestion.available();
    let budget = crate::connection::least(avail as usize as int, room);
    laws::law_stream_frames_are_a_prefix(queue, budget);
    if avail <= usize::MAX {
        assert(avail as usize == avail);
    } else {
        assert(avail as usize <= usize::MAX);
    }
}

/// Law: a packet that was sent is accounted for: its number is used up, it is
/// recorded under that number with its level, time and size and counts as in
/// flight, if the tracker has room; the congestion controller counts its bytes;
/// and only one that elicits an acknowledgment restarts the loss timer.
pub proof fn law_sent_packet_is_accounted_for<C: CryptoProvider>(
    m: ConnModel<C>,
    level: Level,
    size: nat,
    eliciting: bool,
    now: Instant,
)
    requires
        m.next_pn.len() == 3,
        m.number_left(level),
        size <= u16::MAX,
    ensures
        ({
            let after = m.after_sending(level, size, eliciting, now);
            &&& after.pn(level) == m.pn(level) + 1
            &&& forall|l: Level| l != level ==> #[trigger] after.pn(l) == m.pn(l)
            &&& m.sent.len() < m.sent_cap ==> {
                &&& after.sent.len() == m.sent.len() + 1
                &&& after.sent.drop_last() == m.sent
                &&& after.sent.last().pn == m.pn(level)
                &&& after.sent.last().level == level
                &&& after.sent.last().time_sent == now
                &&& after.sent.last().size == size
                &&& after.sent.last().ack_eliciting == eliciting
                &&& after.sent.last().in_flight
            }
            &&& m.sent.len() >= m.sent_cap ==> after.sent == m.sent
            &&& m.congestion.in_flight + size <= u64::MAX ==> after.congestion.in_flight
                == m.congestion.in_flight + size
            &&& after.congestion.window == m.congestion.window
            &&& !eliciting ==> after.loss == m.loss
            &&& eliciting && level == Level::Initial ==> after.loss.initial == Some(now)
                && after.loss.handshake == m.loss.handshake && after.loss.application
                == m.loss.application
            &&& eliciting && level == Level::Handshake ==> after.loss.handshake == Some(now)
                && after.loss.initial == m.loss.initial && after.loss.application
                == m.loss.application
            &&& eliciting && level == Level::Application ==> after.loss.application == Some(now)
                && after.loss.initial == m.loss.initial && after.loss.handshake == m.loss.handshake
            &&& after.keys.packets_encrypted == m.keys.packets_encrypted + if level
                == Level::Application {
                1int
            } else {
                0int
            }
        }),
{
    let after = m.after_sending(level, size, eliciting, now);
    if m.sent.len() < m.sent_cap {
        assert(after.sent.drop_last() =~= m.sent);
    }
    assert forall|l: Level| l != level implies #[trigger] after.pn(l) == m.pn(l) by {
        assert(crypto::level_number(l) != crypto::level_number(level));
    }
}

} // verus!
