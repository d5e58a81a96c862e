//! The frames that go into packets.

use vstd::prelude::*;

use crate::bytes;
use crate::connection::ack;
use crate::connection::handshake_pool::{CtxModel, HandshakeContext, HandshakePool};
use crate::connection::io::{EntryModel, QuicStreamIoBufs};
use crate::connection::{self, ConnModel, Connection};
use crate::crypto::{self, CryptoProvider, Level};
use crate::frame::{self, CryptoFrame, Frame, FrameParts, MaxStreamDataFrame, StreamFrame};
use crate::tls::{Role, TlsSession};
use crate::transport::stream::{self, StreamState};

verus! {

/// How much TLS output is taken from the engine at a time.
pub const TLS_CHUNK: usize = 2048;

/// Room that a CRYPTO frame leaves: worst-case frame overhead (type, offset,
/// length) and the packet's AEAD tag.
pub const CRYPTO_FRAME_OVERHEAD: usize = 33;

/// When all of a level's stream was sent, the engine is asked for more. What it
/// produces joins the stream of the level it names, if that stream has room for
/// it in `cap` bytes.
pub open spec fn staged<C: CryptoProvider>(ctx: CtxModel<C>, level: Level, cap: int) -> CtxModel<C> {
    let t = crypto::level_number(level);
    if ctx.sent[t] == ctx.pending[t].len() {
        let (tls, out) = ctx.tls.write_step(TLS_CHUNK as nat);
        match out {
            Ok((data, l)) => if data.len() > 0 {
                let i = crypto::level_number(l);
                CtxModel {
                    tls,
                    pending: if ctx.pending[i].len() + data.len() <= cap {
                        ctx.pending.update(i, ctx.pending[i] + data)
                    } else {
                        ctx.pending
                    },
                    pending_level: ctx.pending_level.update(i, l),
                    ..ctx
                }
            } else {
                CtxModel { tls, ..ctx }
            },
            Err(_) => CtxModel { tls, ..ctx },
        }
    } else {
        ctx
    }
}

/// The CRYPTO frame for the unsent part of a level's stream: as long a prefix as
/// fits. Returns the state with that prefix counted as sent, and the frame.
pub open spec fn crypto_frame_step<C: CryptoProvider>(
    ctx: CtxModel<C>,
    level: Level,
    room: int,
) -> (CtxModel<C>, Seq<u8>) {
    let t = crypto::level_number(level);
    let offset = ctx.sent[t];
    let unsent = ctx.pending[t].len() - offset;
    let len = connection::least(room - CRYPTO_FRAME_OVERHEAD, unsent);
    if unsent == 0 || room <= CRYPTO_FRAME_OVERHEAD {
        (ctx, Seq::empty())
    } else {
        let data = ctx.pending[t].subrange(offset as int, offset + len);
        match frame::fitted(frame::crypto_parts(offset, data), room) {
            Some(b) => (
                CtxModel { sent: ctx.sent.update(t, (offset + len) as u64), ..ctx },
                b,
            ),
            None => (ctx, Seq::empty()),
        }
    }
}

/// What the TLS engine of a connection contributes to a packet at `level`.
pub open spec fn crypto_part<C: CryptoProvider>(
    slot: Option<usize>,
    pool: Seq<Option<CtxModel<C>>>,
    level: Level,
    room: int,
    cap: int,
) -> (Seq<Option<CtxModel<C>>>, Seq<u8>) {
    match slot {
        Some(s) => {
            let (ctx, b) = crypto_frame_step(staged(pool[s as int]->0, level, cap), level, room);
            (pool.update(s as int, Some(ctx)), b)
        },
        None => (pool, Seq::empty()),
    }
}

impl<C: CryptoProvider, const CRYPTO_BUF: usize> HandshakeContext<C, CRYPTO_BUF> {
    /// Takes the engine's next output when all of a level's stream was sent.
    fn stage(&mut self, level: Level)
        requires
            old(self).wf(),
        ensures
            final(self).wf(),
            final(self)@ == staged(old(self)@, level, CRYPTO_BUF as int),
    {
        let tidx = crypto::level_index(level);
        assert(self@.pending[tidx as int] == self.pending_crypto@[tidx as int]@);
        if self.crypto_send_offset[tidx] == self.pending_crypto[tidx].len() as u64 {
            let ghost before = self@;
            let mut tls_buf: [u8; 2048] = [0u8; 2048];
            let out = self.tls.write_handshake(&mut tls_buf);
            match out {
                Ok((tls_len, tls_level)) => {
                    if tls_len > 0 {
                        let lidx = crypto::level_index(tls_level);
                        let ghost bufs = self.pending_crypto@;
                        let data = tls_buf.as_slice().split_at(tls_len).0;
                        let _ = self.pending_crypto[lidx].extend_from_slice(data);
                        self.pending_crypto_level[lidx] = tls_level;
                        proof {
                            assert(before.pending[lidx as int] == bufs[lidx as int]@);
                            assert(self@.pending =~= staged(before, level, CRYPTO_BUF as int).pending);
                        }
                    }
                },
                Err(_) => {},
            }
        }
    }

    /// Writes the CRYPTO frame for the unsent part of a level's stream.
    fn write_crypto_frame(&mut self, level: Level, buf: &mut [u8]) -> (n: usize)
        requires
            old(self).wf(),
        ensures
            final(self).wf(),
            final(buf)@.len() == old(buf)@.len(),
            ({
                let (ctx, b) = crypto_frame_step(old(self)@, level, old(buf)@.len() as int);
                final(self)@ == ctx && n == b.len() && final(buf)@ == b + old(buf)@.skip(
                    b.len() as int,
                )
            }),
    {
        let tidx = crypto::level_index(level);
        assert(self@.pending[tidx as int] == self.pending_crypto@[tidx as int]@);
        assert(self.pending_crypto@[tidx as int].wf());
        let offset = self.crypto_send_offset[tidx];
        let unsent = self.pending_crypto[tidx].len() - offset as usize;
        assert(Seq::<u8>::empty() + buf@.skip(0) =~= buf@);
        if unsent == 0 {
            return 0;
        }
        if buf.len() <= CRYPTO_FRAME_OVERHEAD {
            return 0;
        }
        let mut send_len = buf.len() - CRYPTO_FRAME_OVERHEAD;
        if unsent < send_len {
            send_len = unsent;
        }
        let start = offset as usize;
        let encoded = {
            let all = self.pending_crypto[tidx].as_slice();
            let crypto = Frame::Crypto(
                CryptoFrame { offset, data: &all[start..start + send_len] },
            );
            frame::encode(&crypto, buf)
        };
        match encoded {
            Ok(written) => {
                self.crypto_send_offset[tidx] = offset + send_len as u64;
                written
            },
            Err(_) => 0,
        }
    }
}

/// The STREAM frames for queued entries: whole entries from the first on, while
/// at least 16 bytes are left and the next one fits. Returns the frames and how
/// many entries they hold.
pub open spec fn stream_frames(queue: Seq<EntryModel>, room: int) -> (Seq<u8>, nat)
    decreases queue.len(),
{
    if queue.len() == 0 || room < 16 {
        (Seq::empty(), 0)
    } else {
        let e = queue[0];
        match frame::fitted(frame::stream_parts(e.stream_id, e.offset, e.data, e.fin), room) {
            Some(b) => {
                let (rest, n) = stream_frames(queue.drop_first(), room - b.len());
                (b + rest, n + 1)
            },
            None => (Seq::empty(), 0),
        }
    }
}

/// The MAX_STREAM_DATA frames for the streams at or behind position `i` whose
/// window is due, in order, until one does not fit. Returns the streams with
/// what was advertised, and the frames.
pub open spec fn window_frames(streams: Seq<StreamState>, i: int, room: int) -> (
    Seq<StreamState>,
    Seq<u8>,
)
    decreases streams.len() - i,
{
    if i < 0 || i >= streams.len() {
        (streams, Seq::empty())
    } else if !streams[i].recv.due() {
        window_frames(streams, i + 1, room)
    } else {
        match frame::fitted(
            frame::max_stream_data_parts(streams[i].id, streams[i].recv.full_limit()),
            room,
        ) {
            Some(b) => {
                let (after, rest) = window_frames(
                    stream::renewed_at(streams, i),
                    i + 1,
                    room - b.len(),
                );
                (after, b + rest)
            },
            None => (streams, Seq::empty()),
        }
    }
}

proof fn lemma_window_skip(streams: Seq<StreamState>, i: int, j: int, room: int)
    requires
        0 <= i <= j <= streams.len(),
        forall|k: int| i <= k < j ==> !(#[trigger] streams[k]).recv.due(),
    ensures
        window_frames(streams, i, room) == window_frames(streams, j, room),
    decreases j - i,
{
    if i < j {
        lemma_window_skip(streams, i + 1, j, room);
    }
}

/// The bytes of a frame that fits, or none.
pub open spec fn fitted_or_empty(parts: FrameParts, room: int) -> Seq<u8> {
    match frame::fitted(parts, room) {
        Some(b) => b,
        None => Seq::empty(),
    }
}

/// HANDSHAKE_DONE, which a server sends once after the handshake.
pub open spec fn done_part<C: CryptoProvider>(m: ConnModel<C>, room: int) -> Seq<u8> {
    if m.role == Role::Server && m.handshake_done_due {
        fitted_or_empty(frame::handshake_done_parts(), room)
    } else {
        Seq::empty()
    }
}

/// PATH_RESPONSE for a pending challenge; one that does not fit stays pending.
pub open spec fn path_part<C: CryptoProvider>(m: ConnModel<C>, room: int) -> (ConnModel<C>, Seq<u8>) {
    match m.path_response {
        Some(data) => match frame::fitted(frame::path_response_parts(data@), room) {
            Some(b) => (ConnModel { path_response: None, ..m }, b),
            None => (m, Seq::empty()),
        },
        None => (m, Seq::empty()),
    }
}

/// MAX_DATA when the connection's window is due; the higher limit is committed
/// with the frame.
pub open spec fn max_data_part<C: CryptoProvider>(m: ConnModel<C>, room: int) -> (
    ConnModel<C>,
    Seq<u8>,
) {
    if m.flow.recv.due() {
        match frame::fitted(frame::max_data_parts(m.flow.recv.full_limit()), room) {
            Some(b) => (
                ConnModel {
                    flow: crate::transport::flow_control::FlowControl {
                        recv: m.flow.recv.renewed(),
                    },
                    ..m
                },
                b,
            ),
            None => (m, Seq::empty()),
        }
    } else {
        (m, Seq::empty())
    }
}

/// MAX_STREAM_DATA for the streams whose window is due.
pub open spec fn window_part<C: CryptoProvider>(m: ConnModel<C>, room: int) -> (
    ConnModel<C>,
    Seq<u8>,
) {
    let (after, b) = window_frames(m.streams, 0, room);
    (ConnModel { streams: after, ..m }, b)
}

/// The frames of a short packet that are not congestion-controlled, in order.
#[verifier::opaque]
pub open spec fn control_part<C: CryptoProvider>(m: ConnModel<C>, room: int) -> (
    ConnModel<C>,
    Seq<u8>,
) {
    let done = done_part(m, room);
    let (m1, path) = path_part(m, room - done.len());
    let b1 = done + path;
    let (m2, ack) = ack::ack_part(m1, Level::Application, room - b1.len());
    let b2 = b1 + ack;
    let (m3, max_data) = max_data_part(m2, room - b2.len());
    let b3 = b2 + max_data;
    let (m4, windows) = window_part(m3, room - b3.len());
    (m4, b3 + windows)
}

/// The ACK frame among the frames that are not congestion-controlled. All the
/// others elicit an acknowledgment.
#[verifier::opaque]
pub open spec fn control_ack<C: CryptoProvider>(m: ConnModel<C>, room: int) -> Seq<u8> {
    let done = done_part(m, room);
    let (m1, path) = path_part(m, room - done.len());
    ack::ack_part(m1, Level::Application, room - (done + path).len()).1
}

/// STREAM frames from the queue, within the congestion window.
pub open spec fn stream_part<C: CryptoProvider>(
    m: ConnModel<C>,
    queue: Seq<EntryModel>,
    room: int,
) -> (Seq<EntryModel>, Seq<u8>) {
    let budget = connection::least(m.congestion.available() as usize as int, room);
    let (b, n) = stream_frames(queue, budget);
    (queue.skip(n as int), b)
}

/// Bytes written behind what is already there.
proof fn lemma_append(base: Seq<u8>, done: Seq<u8>, b: Seq<u8>, before: Seq<u8>, after: Seq<u8>)
    requires
        done.len() + b.len() <= base.len(),
        before == done + base.skip(done.len() as int),
        after == before.take(done.len() as int) + (b + before.skip(done.len() as int).skip(
            b.len() as int,
        )),
    ensures
        after == (done + b) + base.skip((done + b).len() as int),
{
    assert(before.take(done.len() as int) =~= done);
    assert(before.skip(done.len() as int) =~= base.skip(done.len() as int));
    assert(after =~= (done + b) + base.skip((done + b).len() as int));
}

impl<
    C: CryptoProvider,
    const MAX_STREAMS: usize,
    const SENT_PER_SPACE: usize,
    const MAX_CIDS: usize,
> Connection<C, MAX_STREAMS, SENT_PER_SPACE, MAX_CIDS> {
    /// Write pending TLS handshake data as a CRYPTO frame. Returns the bytes
    /// written.
    ///
    /// The engine hands out each flight exactly once, so everything goes through
    /// the per-level streams of the handshake slot. A stream is kept whole until
    /// the slot is released: anything past the send offset is unsent, and
    /// rewinding the offset retransmits a lost flight.
    pub fn write_tls_crypto_data<const SLOTS: usize, const CRYPTO_BUF: usize>(
        &mut self,
        target_level: Level,
        buf: &mut [u8],
        pool: &mut HandshakePool<C, SLOTS, CRYPTO_BUF>,
    ) -> (n: usize)
        requires
            old(pool).wf(),
            old(self).slot_ok(old(pool)),
        ensures
            *final(self) == *old(self),
            final(pool).wf(),
            final(self).slot_ok(final(pool)),
            final(buf)@.len() == old(buf)@.len(),
            ({
                let (p, b) = crypto_part(
                    old(self)@.slot,
                    old(pool)@,
                    target_level,
                    old(buf)@.len() as int,
                    CRYPTO_BUF as int,
                );
                final(pool)@ == p && n == b.len() && final(buf)@ == b + old(buf)@.skip(
                    b.len() as int,
                )
            }),
    {
        let slot = match self.handshake_slot {
            Some(s) => s,
            None => {
                assert(Seq::<u8>::empty() + buf@.skip(0) =~= buf@);
                return 0;
            },
        };
        let ghost p0 = pool@;
        let ctx = pool.get_mut(slot);
        ctx.stage(target_level);
        ctx.write_crypto_frame(target_level, buf)
    }

    /// Build STREAM frames from pending send data; the entries that were sent
    /// leave the queue.
    pub fn build_stream_frames<const STREAM_BUF: usize, const SEND_QUEUE: usize>(
        &mut self,
        sio: &mut QuicStreamIoBufs<STREAM_BUF, SEND_QUEUE>,
        buf: &mut [u8],
    ) -> (total: usize)
        ensures
            *final(self) == *old(self),
            final(buf)@.len() == old(buf)@.len(),
            ({
                let (b, n) = stream_frames(old(sio)@, old(buf)@.len() as int);
                total == b.len() && final(buf)@ == b + old(buf)@.skip(b.len() as int) && final(
                    sio)@ == old(sio)@.skip(n as int)
            }),
    {
        let ghost base = buf@;
        let ghost queue = sio@;
        let mut total: usize = 0;
        let mut idx: usize = 0;
        proof {
            assert(queue.skip(0) =~= queue);
            assert(base.take(0) =~= Seq::<u8>::empty());
            let (b, n) = stream_frames(queue, base.len() as int);
            assert(Seq::<u8>::empty() + b =~= b);
        }
        while idx < sio.send_queue.len()
            invariant_except_break
                ({
                    let (b, n) = stream_frames(queue.skip(idx as int), base.len() - total);
                    stream_frames(queue, base.len() as int) == (buf@.take(total as int) + b, (idx
                        + n) as nat)
                }),
            invariant
                sio@ == queue,
                sio.send_queue@.len() == queue.len(),
                idx <= queue.len(),
                total <= buf@.len(),
                buf@.len() == base.len(),
                buf@.skip(total as int) == base.skip(total as int),
            ensures
                stream_frames(queue, base.len() as int) == (buf@.take(total as int), idx as nat),
            decreases queue.len() - idx,
        {
            let remaining = buf.len() - total;
            let ghost rest = queue.skip(idx as int);
            assert(rest[0] == queue[idx as int]);
            assert(rest.drop_first() =~= queue.skip(idx + 1));
            assert(buf@.take(total as int) + Seq::<u8>::empty() =~= buf@.take(total as int));
            if remaining < 16 {
                break;
            }
            let entry = &sio.send_queue[idx];
            assert(entry@ == queue[idx as int]);
            let stream_frame = Frame::Stream(
                StreamFrame {
                    stream_id: entry.stream_id,
                    offset: entry.offset,
                    data: entry.data.as_slice(),
                    fin: entry.fin,
                },
            );
            let ghost old_buf = buf@;
            let encoded = {
                let (_, tail) = buf.split_at_mut(total);
                frame::encode(&stream_frame, tail)
            };
            match encoded {
                Ok(written) => {
                    proof {
                        let b = frame::fitted(
                            frame::stream_parts(
                                rest[0].stream_id,
                                rest[0].offset,
                                rest[0].data,
                                rest[0].fin,
                            ),
                            base.len() - total,
                        )->0;
                        let (more, n) = stream_frames(
                            rest.drop_first(),
                            base.len() - total - b.len(),
                        );
                        assert(buf@ =~= old_buf.take(total as int) + b + old_buf.skip(
                            total + b.len(),
                        ));
                        assert(buf@.take(total + b.len()) =~= old_buf.take(total as int) + b);
                        assert(buf@.skip(total + b.len()) =~= old_buf.skip(total + b.len()));
                        bytes::lemma_skip_eq(old_buf, base, total as int, total + b.len());
                        assert(old_buf.take(total as int) + (b + more) =~= buf@.take(
                            total + b.len(),
                        ) + more);
                    }
                    total = total + written;
                    idx = idx + 1;
                    if idx == sio.send_queue.len() {
                        assert(queue.skip(idx as int).len() == 0);
                        assert(buf@.take(total as int) + Seq::<u8>::empty() =~= buf@.take(
                            total as int,
                        ));
                    }
                },
                Err(_) => {
                    assert(buf@ =~= old_buf);
                    break;
                },
            }
        }
        assert(buf@ =~= buf@.take(total as int) + base.skip(total as int));
        sio.drop_front(idx);
        total
    }

    /// Write MAX_STREAM_DATA frames for the streams whose window is due. Each
    /// emitted frame commits the higher limit; a full buffer defers the rest.
    pub(crate) fn build_window_frames(&mut self, buf: &mut [u8]) -> (total: usize)
        requires
            old(self).wf(),
        ensures
            final(self).wf(),
            final(buf)@.len() == old(buf)@.len(),
            ({
                let (after, b) = window_frames(old(self)@.streams, 0, old(buf)@.len() as int);
                final(self)@ == (ConnModel { streams: after, ..old(self)@ }) && total == b.len()
                    && final(buf)@ == b + old(buf)@.skip(b.len() as int)
            }),
            final(self).same_base(old(self)),
    {
        let ghost base = buf@;
        let ghost m0 = self@;
        let ghost mut at: int = 0;
        let cap = buf.len();
        let mut total: usize = 0;
        proof {
            assert(base.take(0) =~= Seq::<u8>::empty());
            let (after, b) = window_frames(m0.streams, 0, base.len() as int);
            assert(Seq::<u8>::empty() + b =~= b);
        }
        loop
            invariant_except_break
                0 <= at <= self.streams@.len(),
                forall|k: int| 0 <= k < at ==> !(#[trigger] self.streams@[k]).recv.due(),
                ({
                    let (after, b) = window_frames(self.streams@, at, base.len() - total);
                    window_frames(m0.streams, 0, base.len() as int) == (after, buf@.take(
                        total as int,
                    ) + b)
                }),
            invariant
                self.wf(),
                self@ == (ConnModel { streams: self.streams@, ..m0 }),
                self.same_base(old(self)),
                cap == base.len(),
                total <= cap,
                buf@.len() == base.len(),
                buf@.skip(total as int) == base.skip(total as int),
            ensures
                window_frames(m0.streams, 0, base.len() as int) == (self.streams@, buf@.take(
                    total as int,
                )),
            decreases self.streams@.len() - at,
        {
            let ghost ss = self.streams@;
            let ghost d = stream::first_due(ss, 0);
            let ghost b_done = buf@.take(total as int);
            proof {
                stream::lemma_first_due(ss, 0);
                if d < at {
                    assert(!ss[d].recv.due());
                }
                lemma_window_skip(ss, at, d, base.len() - total);
                assert(b_done + Seq::<u8>::empty() =~= b_done);
            }
            let (sid, new_max) = match self.streams.should_send_max_stream_data() {
                Some(pair) => pair,
                None => {
                    break;
                },
            };
            let msd = Frame::MaxStreamData(
                MaxStreamDataFrame { stream_id: sid, max_data: new_max },
            );
            let encoded = {
                let (_, tail) = buf.split_at_mut(total);
                frame::encode(&msd, tail)
            };
            match encoded {
                Ok(written) => {
                    let ghost old_skip = base.skip(total as int);
                    self.streams.mark_max_stream_data_sent(sid);
                    proof {
                        assert(ss[d].id == sid);
                        assert(self.streams@ == stream::renewed_at(ss, d));
                        let b = frame::fitted(
                            frame::max_stream_data_parts(sid, new_max),
                            base.len() - total,
                        )->0;
                        let (after, more) = window_frames(
                            self.streams@,
                            d + 1,
                            base.len() - total - b.len(),
                        );
                        assert(buf@.take(total + b.len()) =~= b_done + b);
                        assert(buf@.skip(total + b.len()) =~= old_skip.skip(b.len() as int));
                        assert(old_skip.skip(b.len() as int) =~= base.skip(total + b.len()));
                        assert(window_frames(ss, d, base.len() - total) == (after, b + more));
                        assert(b_done + (b + more) =~= buf@.take(total + b.len()) + more);
                        assert(written == b.len());
                        assert(stream::distinct_ids(self.streams@)) by {
                            assert forall|i: int, j: int|
                                0 <= i < j < self.streams@.len() implies (
                            #[trigger] self.streams@[i]).id != (
                            #[trigger] self.streams@[j]).id by {
                                assert(ss[i].id != ss[j].id);
                            }
                        }
                        assert forall|k: int| 0 <= k < d + 1 implies !(
                        #[trigger] self.streams@[k]).recv.due() by {
                            if k < d {
                                assert(self.streams@[k] == ss[k]);
                            }
                        }
                        at = d + 1;
                    }
                    total = total + written;
                },
                Err(_) => {
                    assert(buf@.take(total as int) =~= b_done);
                    break;
                },
            }
        }
        assert(buf@ =~= buf@.take(total as int) + base.skip(total as int));
        total
    }

    /// Writes HANDSHAKE_DONE if it is due.
    fn write_done_part(&self, buf: &mut [u8]) -> (n: usize)
        ensures
            final(buf)@.len() == old(buf)@.len(),
            ({
                let b = done_part(self@, old(buf)@.len() as int);
                n == b.len() && b.len() <= old(buf)@.len() && final(buf)@ == b + old(buf)@.skip(
                    b.len() as int,
                )
            }),
    {
        let cap = buf.len();
        assert(Seq::<u8>::empty() + buf@.skip(0) =~= buf@);
        if self.role == Role::Server && self.need_handshake_done {
            match frame::encode(&Frame::HandshakeDone, buf) {
                Ok(written) => written,
                Err(_) => 0,
            }
        } else {
            0
        }
    }

    /// Writes PATH_RESPONSE for a pending challenge.
    fn write_path_part(&mut self, buf: &mut [u8]) -> (n: usize)
        requires
            old(self).wf(),
        ensures
            final(self).wf(),
            final(buf)@.len() == old(buf)@.len(),
            final(self).same_base(old(self)),
            ({
                let (m, b) = path_part(old(self)@, old(buf)@.len() as int);
                final(self)@ == m && n == b.len() && b.len() <= old(buf)@.len() && final(buf)@ == b
                    + old(buf)@.skip(b.len() as int)
            }),
    {
        let cap = buf.len();
        assert(Seq::<u8>::empty() + buf@.skip(0) =~= buf@);
        match self.pending_path_response {
            Some(challenge_data) => {
                match frame::encode(&Frame::PathResponse(challenge_data), buf) {
                    Ok(written) => {
                        self.pending_path_response = None;
                        written
                    },
                    Err(_) => 0,
                }
            },
            None => 0,
        }
    }

    /// Writes MAX_DATA if the connection's window is due.
    fn write_max_data_part(&mut self, buf: &mut [u8]) -> (n: usize)
        requires
            old(self).wf(),
        ensures
            final(self).wf(),
            final(buf)@.len() == old(buf)@.len(),
            final(self).same_base(old(self)),
            ({
                let (m, b) = max_data_part(old(self)@, old(buf)@.len() as int);
                final(self)@ == m && n == b.len() && b.len() <= old(buf)@.len() && final(buf)@ == b
                    + old(buf)@.skip(b.len() as int)
            }),
    {
        let cap = buf.len();
        assert(Seq::<u8>::empty() + buf@.skip(0) =~= buf@);
        match self.flow_control.should_send_max_data() {
            Some(new_max) => {
                match frame::encode(&Frame::MaxData(new_max), buf) {
                    Ok(written) => {
                        self.flow_control.max_data_sent();
                        written
                    },
                    Err(_) => 0,
                }
            },
            None => 0,
        }
    }

    /// Writes the frames of a short packet that are not congestion-controlled.
    /// Returns their length, and the length of the ACK frame among them.
    pub(crate) fn write_control_part(&mut self, buf: &mut [u8]) -> (r: (usize, usize))
        requires
            old(self).wf(),
        ensures
            final(self).wf(),
            final(buf)@.len() == old(buf)@.len(),
            final(self).same_base(old(self)),
            ({
                let (m, b) = control_part(old(self)@, old(buf)@.len() as int);
                final(self)@ == m && r.0 == b.len() && b.len() <= old(buf)@.len() && final(buf)@
                    == b + old(buf)@.skip(b.len() as int)
            }),
            r.1 == control_ack(old(self)@, old(buf)@.len() as int).len(),
            r.1 <= r.0,
    {
        reveal(control_part);
        reveal(control_ack);
        let ghost base = buf@;
        let ghost m0 = self@;
        let cap = buf.len();
        let ghost room = cap as int;

        let mut n = self.write_done_part(buf);
        let ghost done = done_part(m0, room);
        let ghost s0 = buf@;

        let step = {
            let (_, tail) = buf.split_at_mut(n);
            self.write_path_part(tail)
        };
        let ghost path = path_part(m0, room - done.len()).1;
        let ghost m1 = self@;
        let ghost b1 = done + path;
        proof {
            lemma_append(base, done, path, s0, buf@);
        }
        n = n + step;
        let ghost s1 = buf@;

        let ack_len = {
            let (_, tail) = buf.split_at_mut(n);
            self.write_ack_part(Level::Application, tail)
        };
        let ghost ack = ack::ack_part(m1, Level::Application, room - b1.len()).1;
        let ghost m2 = self@;
        let ghost b2 = b1 + ack;
        proof {
            lemma_append(base, b1, ack, s1, buf@);
        }
        n = n + ack_len;
        let ghost s2 = buf@;

        let step = {
            let (_, tail) = buf.split_at_mut(n);
            self.write_max_data_part(tail)
        };
        let ghost max_data = max_data_part(m2, room - b2.len()).1;
        let ghost m3 = self@;
        let ghost b3 = b2 + max_data;
        proof {
            lemma_append(base, b2, max_data, s2, buf@);
        }
        n = n + step;
        let ghost s3 = buf@;

        let step = {
            let (_, tail) = buf.split_at_mut(n);
            self.build_window_frames(tail)
        };
        let ghost windows = window_part(m3, room - b3.len()).1;
        proof {
            lemma_append(base, b3, windows, s3, buf@);
        }
        (n + step, ack_len)
    }

    /// Writes STREAM frames from the queue, within the congestion window.
    pub(crate) fn write_stream_part<const STREAM_BUF: usize, const SEND_QUEUE: usize>(
        &mut self,
        sio: &mut QuicStreamIoBufs<STREAM_BUF, SEND_QUEUE>,
        buf: &mut [u8],
    ) -> (n: usize)
        ensures
            *final(self) == *old(self),
            final(buf)@.len() == old(buf)@.len(),
            ({
                let (q, b) = stream_part(old(self)@, old(sio)@, old(buf)@.len() as int);
                final(sio)@ == q && n == b.len() && b.len() <= old(buf)@.len() && final(buf)@ == b
                    + old(buf)@.skip(b.len() as int)
            }),
    {
        let ghost base = buf@;
        let cap = buf.len();
        let mut budget = self.congestion.available_window() as usize;
        if budget > cap {
            budget = cap;
        }
        assert(budget == connection::least(
            self@.congestion.available() as usize as int,
            cap as int,
        ));
        if budget == 0 {
            proof {
                assert(sio@.skip(0) =~= sio@);
                assert(Seq::<u8>::empty() + buf@.skip(0) =~= buf@);
                assert(stream_frames(sio@, 0) == (Seq::<u8>::empty(), 0nat));
            }
            return 0;
        }
        let n = {
            let (head, _) = buf.split_at_mut(budget);
            self.build_stream_frames(sio, head)
        };
        proof {
            let b = stream_frames(old(sio)@, budget as int).0;
            assert(buf@ =~= b + base.skip(b.len() as int));
        }
        n
    }
}

} // verus!
