//! What holds of the transmit path as a whole.

use vstd::prelude::*;

use crate::bytes;
use crate::connection::handshake_pool::CtxModel;
use crate::connection::io::EntryModel;
use crate::connection::{self, ConnModel, ConnectionState};
use crate::connection::{ack, frames, poll, protect, recv_pn, transmit};
use crate::crypto::{self, Aead, CryptoProvider, HeaderProtection, Level, TAG_LEN};
use crate::error::Error;
use crate::frame;
use crate::packet::{self, MIN_INITIAL_PACKET_SIZE};
use crate::tls::{Role, TlsSession};
use crate::transport::recovery;
use crate::transport::Instant;
use crate::varint;

verus! {

/// A closed connection sends nothing, and polling it changes nothing.
pub proof fn law_closed_sends_nothing<C: CryptoProvider>(
    m: ConnModel<C>,
    queue: Seq<EntryModel>,
    pool: Seq<Option<CtxModel<C>>>,
    cap: int,
    crypto_cap: int,
    now: Instant,
)
    requires
        m.state == ConnectionState::Closed,
    ensures
        poll::polled(m, queue, pool, cap, crypto_cap, now) == (poll::Polled {
            conn: m,
            queue,
            pool,
            datagram: None,
        }),
{
}

/// A server that has received nothing, and generally an unvalidated connection
/// that has used up three times what it received, sends nothing, and polling it
/// changes nothing.
pub proof fn law_amplification_blocks<C: CryptoProvider>(
    m: ConnModel<C>,
    queue: Seq<EntryModel>,
    pool: Seq<Option<CtxModel<C>>>,
    cap: int,
    crypto_cap: int,
    now: Instant,
)
    requires
        !m.address_validated,
        m.bytes_sent >= 3 * m.bytes_received,
    ensures
        poll::polled(m, queue, pool, cap, crypto_cap, now) == (poll::Polled {
            conn: m,
            queue,
            pool,
            datagram: None,
        }),
{
}

/// What a short packet leaves alone.
proof fn lemma_short_keeps<C: CryptoProvider>(
    m: ConnModel<C>,
    queue: Seq<EntryModel>,
    cap: int,
    now: Instant,
)
    requires
        m.next_pn.len() == 3,
        m.number_left(Level::Application),
    ensures
        ({
            let (r, _, pkt) = transmit::short_step(m, queue, cap, now);
            &&& r == (ConnModel {
                next_pn: r.next_pn,
                ack_due: r.ack_due,
                sent: r.sent,
                loss: r.loss,
                congestion: r.congestion,
                path_response: r.path_response,
                flow: r.flow,
                streams: r.streams,
                handshake_done_due: r.handshake_done_due,
                keys: r.keys,
                ..m
            })
            &&& r.next_pn.len() == 3
            &&& r.pn(Level::Application) == m.pn(Level::Application) + (if pkt is Some {
                1int
            } else {
                0int
            })
            &&& r.pn(Level::Initial) == m.pn(Level::Initial)
            &&& r.pn(Level::Handshake) == m.pn(Level::Handshake)
        }),
{
    reveal(transmit::short_step);
    reveal(frames::control_part);
}

/// What a datagram leaves alone.
proof fn lemma_coalesced_keeps<C: CryptoProvider>(
    m: ConnModel<C>,
    queue: Seq<EntryModel>,
    pool: Seq<Option<CtxModel<C>>>,
    cap: int,
    crypto_cap: int,
    now: Instant,
)
    requires
        m.next_pn.len() == 3,
        m.number_left(Level::Initial),
        m.number_left(Level::Handshake),
        m.number_left(Level::Application),
    ensures
        ({
            let r = poll::coalesced(m, queue, pool, cap, crypto_cap, now).conn;
            &&& r.state == m.state
            &&& r.role == m.role
            &&& r.address_validated == m.address_validated
            &&& r.bytes_sent == m.bytes_sent
            &&& r.bytes_received == m.bytes_received
            &&& r.close_frame == m.close_frame
            &&& r.next_pn.len() == 3
            &&& m.pn(Level::Initial) <= r.pn(Level::Initial) <= m.pn(Level::Initial) + 1
            &&& m.pn(Level::Handshake) <= r.pn(Level::Handshake) <= m.pn(Level::Handshake) + 1
            &&& m.pn(Level::Application) <= r.pn(Level::Application) <= m.pn(Level::Application) + 1
        }),
{
    reveal(poll::coalesced);
    let (m1, p1, k1) = poll::try_initial(m, pool, cap, crypto_cap, now);
    transmit::lemma_initial_keeps(m, pool, cap, crypto_cap, now);
    let b1 = poll::packet_bytes(k1);
    let (m2, p2, k2) = poll::try_handshake(m1, p1, cap - b1.len(), crypto_cap, now);
    transmit::lemma_handshake_keeps(m1, p1, cap - b1.len(), crypto_cap, now);
    let b2 = b1 + poll::packet_bytes(k2);
    let (m3, p3) = connection::released(m2, p2);
    lemma_short_keeps(m3, queue, cap - b2.len(), now);
}

/// Until the peer's address is validated, every datagram other than the one that
/// closes the connection stays, together with all that was sent before, within
/// three times of what was received; and it is counted, as far as the counter goes.
pub proof fn law_three_times_limit<C: CryptoProvider>(
    m: ConnModel<C>,
    queue: Seq<EntryModel>,
    pool: Seq<Option<CtxModel<C>>>,
    cap: int,
    crypto_cap: int,
    now: Instant,
)
    requires
        m.next_pn.len() == 3,
        m.number_left(Level::Initial),
        m.number_left(Level::Handshake),
        m.number_left(Level::Application),
        !m.address_validated,
        m.close_frame is None,
    ensures
        ({
            let p = poll::polled(m, queue, pool, cap, crypto_cap, now);
            &&& p.conn.bytes_received == m.bytes_received
            &&& p.datagram matches Some(d) ==> {
                &&& m.bytes_sent + d.len() <= 3 * m.bytes_received
                &&& m.bytes_sent + d.len() <= usize::MAX ==> p.conn.bytes_sent == m.bytes_sent
                    + d.len()
                &&& m.bytes_sent + d.len() > usize::MAX ==> p.conn.bytes_sent == usize::MAX
            }
            &&& p.datagram is None ==> p.conn.bytes_sent == m.bytes_sent
            &&& p.conn.address_validated == m.address_validated
            &&& p.conn.close_frame == m.close_frame
            &&& p.conn.next_pn.len() == 3
        }),
{
    let (m1, pool1, go_on) = poll::prepared(m, pool);
    if go_on {
        lemma_coalesced_keeps(m1, queue, pool1, cap, crypto_cap, now);
    }
}

/// The datagram that carries CONNECTION_CLOSE is the last one: afterwards the
/// connection is closed.
pub proof fn law_close_is_final<C: CryptoProvider>(
    m: ConnModel<C>,
    queue: Seq<EntryModel>,
    pool: Seq<Option<CtxModel<C>>>,
    cap: int,
    crypto_cap: int,
    now: Instant,
)
    requires
        m.close_frame is Some,
        m.state != ConnectionState::Closed,
        m.may_send(1),
        m.keys.has(Level::Initial) || m.keys.has(Level::Handshake) || m.keys.has(
            Level::Application,
        ),
    ensures
        poll::polled(m, queue, pool, cap, crypto_cap, now).conn.state == ConnectionState::Closed,
        poll::polled(m, queue, pool, cap, crypto_cap, now).queue == queue,
{
    reveal(poll::close_step);
}

/// Polling uses up at most one packet number per level, and never reuses one.
pub proof fn law_packet_numbers_advance<C: CryptoProvider>(
    m: ConnModel<C>,
    queue: Seq<EntryModel>,
    pool: Seq<Option<CtxModel<C>>>,
    cap: int,
    crypto_cap: int,
    now: Instant,
    level: Level,
)
    requires
        m.next_pn.len() == 3,
        m.number_left(Level::Initial),
        m.number_left(Level::Handshake),
        m.number_left(Level::Application),
    ensures
        ({
            let p = poll::polled(m, queue, pool, cap, crypto_cap, now);
            m.pn(level) <= p.conn.pn(level) <= m.pn(level) + 1
        }),
{
    let (m1, pool1, go_on) = poll::prepared(m, pool);
    if go_on {
        if m1.close_frame is Some {
            reveal(poll::close_step);
        } else {
            lemma_coalesced_keeps(m1, queue, pool1, cap, crypto_cap, now);
        }
    }
}

/// An Initial packet is numbered with the next number of its level, and the
/// tracker, if it has room, records it under that number.
pub proof fn law_initial_is_recorded<C: CryptoProvider>(
    m: ConnModel<C>,
    pool: Seq<Option<CtxModel<C>>>,
    cap: int,
    crypto_cap: int,
    now: Instant,
)
    requires
        m.next_pn.len() == 3,
        m.number_left(Level::Initial),
        m.sent.len() < m.sent_cap,
        transmit::initial_step(m, pool, cap, crypto_cap, now).2 is Some,
    ensures
        ({
            let r = transmit::initial_step(m, pool, cap, crypto_cap, now).0;
            &&& r.pn(Level::Initial) == m.pn(Level::Initial) + 1
            &&& r.sent.len() == m.sent.len() + 1
            &&& r.sent.last().pn == m.pn(Level::Initial)
            &&& r.sent.last().level == Level::Initial
            &&& r.sent.last().time_sent == now
        }),
{
    reveal(transmit::initial_step);
}

/// A server's Initial that carries an ACK alone is not padded, is recorded as one
/// that elicits no acknowledgment, and leaves the loss timer alone.
pub proof fn law_initial_ack_is_quiet<C: CryptoProvider>(
    m: ConnModel<C>,
    pool: Seq<Option<CtxModel<C>>>,
    cap: int,
    crypto_cap: int,
    now: Instant,
)
    requires
        m.next_pn.len() == 3,
        m.number_left(Level::Initial),
        m.role == Role::Server,
        transmit::initial_step(m, pool, cap, crypto_cap, now).2 is Some,
        ({
            let reserve = 16 + m.remote_cid.len() + m.local_cid.len() + m.pn_len(Level::Initial);
            let ack = ack::ack_part(m, Level::Initial, cap - reserve).1;
            cap < MIN_INITIAL_PACKET_SIZE || frames::crypto_part(
                m.slot,
                pool,
                Level::Initial,
                cap - reserve - ack.len(),
                crypto_cap,
            ).1.len() == 0
        }),
    ensures
        ({
            let (r, _, pkt) = transmit::initial_step(m, pool, cap, crypto_cap, now);
            let reserve = 16 + m.remote_cid.len() + m.local_cid.len() + m.pn_len(Level::Initial);
            let ack = ack::ack_part(m, Level::Initial, cap - reserve).1;
            &&& pkt == transmit::initial_packet(m, ack, false, cap)
            &&& r.loss == m.loss
            &&& m.sent.len() < m.sent_cap ==> !r.sent.last().ack_eliciting
        }),
{
    reveal(transmit::initial_step);
    let reserve = 16 + m.remote_cid.len() + m.local_cid.len() + m.pn_len(Level::Initial);
    let ack = ack::ack_part(m, Level::Initial, cap - reserve).1;
    assert(ack + Seq::<u8>::empty() =~= ack);
    if cap >= MIN_INITIAL_PACKET_SIZE {
        let data = frames::crypto_part(
            m.slot,
            pool,
            Level::Initial,
            cap - reserve - ack.len(),
            crypto_cap,
        ).1;
        assert(data =~= Seq::<u8>::empty());
    }
}

/// A Handshake packet that carries an ACK alone is recorded as one that elicits
/// no acknowledgment, and leaves the loss timer alone.
pub proof fn law_handshake_ack_is_quiet<C: CryptoProvider>(
    m: ConnModel<C>,
    pool: Seq<Option<CtxModel<C>>>,
    cap: int,
    crypto_cap: int,
    now: Instant,
)
    requires
        m.next_pn.len() == 3,
        m.number_left(Level::Handshake),
        transmit::handshake_step(m, pool, cap, crypto_cap, now).2 is Some,
        ({
            let reserve = 15 + m.remote_cid.len() + m.local_cid.len() + m.pn_len(
                Level::Handshake,
            );
            let ack = ack::ack_part(m, Level::Handshake, cap - reserve).1;
            frames::crypto_part(
                m.slot,
                pool,
                Level::Handshake,
                cap - reserve - ack.len(),
                crypto_cap,
            ).1.len() == 0
        }),
    ensures
        ({
            let r = transmit::handshake_step(m, pool, cap, crypto_cap, now).0;
            &&& r.loss == m.loss
            &&& m.sent.len() < m.sent_cap ==> !r.sent.last().ack_eliciting
        }),
{
    reveal(transmit::handshake_step);
}

/// A short packet elicits an acknowledgment and restarts the loss timer if and
/// only if it carries something besides an ACK.
pub proof fn law_short_ack_is_quiet<C: CryptoProvider>(
    m: ConnModel<C>,
    queue: Seq<EntryModel>,
    cap: int,
    now: Instant,
)
    requires
        m.next_pn.len() == 3,
        m.number_left(Level::Application),
        transmit::short_step(m, queue, cap, now).2 is Some,
    ensures
        ({
            let r = transmit::short_step(m, queue, cap, now).0;
            let room = cap - 1 - m.remote_cid.len() - m.pn_len(Level::Application);
            let (m1, control) = frames::control_part(m, room);
            let streams = frames::stream_part(m1, queue, room - control.len()).1;
            let more = control.len() + streams.len() > frames::control_ack(m, room).len();
            &&& more ==> r.loss == m.loss.sent(Level::Application, now)
            &&& !more ==> r.loss == m.loss
            &&& m.sent.len() < m.sent_cap ==> r.sent.last().ack_eliciting == more
        }),
{
    reveal(transmit::short_step);
    reveal(frames::control_part);
}

/// Whether an AEAD appends exactly a tag of the usual length.
pub open spec fn tag_is_appended<A: Aead>(aead: A) -> bool {
    forall|nonce: Seq<u8>, aad: Seq<u8>, plaintext: Seq<u8>, room: nat|
        (#[trigger] aead.sealed(nonce, aad, plaintext, room)) matches Ok(ct) ==> ct.len()
            == plaintext.len() + TAG_LEN
}

/// With an AEAD that appends its tag, a packet is as long as its parts.
proof fn lemma_protected_len<A: Aead, HP: crypto::HeaderProtection>(
    keys: crypto::KeyModel<A, HP>,
    header: Seq<u8>,
    pn: u64,
    pn_len: int,
    is_long: bool,
    payload: Seq<u8>,
)
    requires
        tag_is_appended(keys.aead),
    ensures
        protect::protected(keys, header, pn, pn_len, is_long, payload) matches Ok(p) ==> p.len()
            == header.len() + payload.len() + TAG_LEN,
{
    reveal(protect::protected);
}

/// A client's Initial packets, and a server's with CRYPTO data, are never below
/// the minimum size.
pub proof fn law_initial_min_size<C: CryptoProvider>(
    m: ConnModel<C>,
    frames: Seq<u8>,
    cap: int,
)
    requires
        m.keys.initial matches Some(k) && tag_is_appended(k.aead),
    ensures
        transmit::initial_packet(m, frames, true, cap) matches Some(p) ==> p.len()
            >= MIN_INITIAL_PACKET_SIZE,
{
    let k = m.keys.initial->0;
    let pn_len = m.pn_len(Level::Initial) as int;
    let pad = transmit::initial_padding(
        m.remote_cid.len() as int,
        m.local_cid.len() as int,
        pn_len,
        frames.len() as int,
        true,
    );
    let payload = frames + bytes::zeros(pad as nat);
    let header = transmit::next_initial_header(m, payload.len() as int);
    bytes::lemma_be_bytes_len(m.pn(Level::Initial) as nat, pn_len as nat);
    lemma_protected_len(k, header, m.pn(Level::Initial), pn_len, true, payload);
    packet::lemma_header_lens(
        m.remote_cid,
        m.local_cid,
        Seq::empty(),
        pn_len,
        pn_len + payload.len() + TAG_LEN,
    );
}

/// Header protection leaves the form bit of the first byte alone: a long header
/// stays a long header, a short one a short one.
pub proof fn law_form_bit_survives(
    pkt: Seq<u8>,
    pn_offset: int,
    pn_len: int,
    is_long: bool,
    mask: Seq<u8>,
)
    requires
        pkt.len() > 0,
    ensures
        (protect::masked(pkt, pn_offset, pn_len, is_long, mask)[0] & 0x80) == (pkt[0] & 0x80),
{
    let b = pkt[0];
    let k = mask[0];
    assert(((b ^ (k & 0x0f)) & 0x80) == (b & 0x80)) by (bit_vector);
    assert(((b ^ (k & 0x1f)) & 0x80) == (b & 0x80)) by (bit_vector);
}

/// Initial packets go out with a long header, 1-RTT packets with a short one.
pub proof fn law_header_forms<C: CryptoProvider>(
    m: ConnModel<C>,
    frames: Seq<u8>,
    pad_to_min: bool,
    cap: int,
)
    ensures
        transmit::initial_packet(m, frames, pad_to_min, cap) matches Some(p) ==> p.len() > 0 && (
        p[0] & 0x80) == 0x80,
        transmit::short_packet(m, frames, cap) matches Some(p) ==> p.len() > 0 && (p[0] & 0x80)
            == 0,
{
    reveal(protect::protected);
    reveal(packet::initial_header);
    reveal(packet::long_header_start);
    let n = m.pn_len(Level::Initial);
    let i = (0xc0 + n - 1) as u8;
    assert((i & 0x80) == 0x80) by (bit_vector)
        requires
            0xc0 <= i <= 0xc3,
    ;
    let a = m.pn_len(Level::Application);
    let j = (0x40 + 4 * (m.keys.phase % 2) + a - 1) as u8;
    assert((j & 0x80) == 0) by (bit_vector)
        requires
            j < 0x80,
    ;
    bytes::lemma_be_bytes_len(m.pn(Level::Initial) as nat, n);
    bytes::lemma_be_bytes_len(m.pn(Level::Application) as nat, a);
    assert forall|pkt: Seq<u8>, o: int, l: int, is_long: bool, mask: Seq<u8>| pkt.len()
        > 0 implies (#[trigger] protect::masked(pkt, o, l, is_long, mask)[0] & 0x80) == (pkt[0]
        & 0x80) by {
        law_form_bit_survives(pkt, o, l, is_long, mask);
    }
}

/// Applying the same mask again removes header protection.
pub proof fn law_mask_is_involution(
    pkt: Seq<u8>,
    pn_offset: int,
    pn_len: int,
    is_long: bool,
    mask: Seq<u8>,
)
    requires
        1 <= pn_offset,
    ensures
        protect::masked(
            protect::masked(pkt, pn_offset, pn_len, is_long, mask),
            pn_offset,
            pn_len,
            is_long,
            mask,
        ) == pkt,
{
    assert forall|a: u8, b: u8| #[trigger] ((a ^ b) ^ b) == a by {
        assert(((a ^ b) ^ b) == a) by (bit_vector);
    }
    let once = protect::masked(pkt, pn_offset, pn_len, is_long, mask);
    let twice = protect::masked(once, pn_offset, pn_len, is_long, mask);
    assert forall|i: int| 0 <= i < pkt.len() implies #[trigger] twice[i] == pkt[i] by {
        let a = pkt[i];
        if i == 0 {
            let b = mask[0] & if is_long {
                0x0fu8
            } else {
                0x1fu8
            };
            assert(((a ^ b) ^ b) == a);
        } else if pn_offset <= i < pn_offset + pn_len {
            let b = mask[1 + i - pn_offset];
            assert(((a ^ b) ^ b) == a);
        }
    }
    assert(twice =~= pkt);
}

/// When the congestion window is full no stream data is sent and the queue stays
/// as it is.
pub proof fn law_full_window_holds_stream_data<C: CryptoProvider>(
    m: ConnModel<C>,
    queue: Seq<EntryModel>,
    room: int,
)
    requires
        m.congestion.in_flight >= m.congestion.window,
        room >= 0,
    ensures
        frames::stream_part(m, queue, room) == (queue, Seq::<u8>::empty()),
{
    assert(queue.skip(0) =~= queue);
}

/// Stream data leaves the queue from its front, in whole entries, and only
/// together with the frames that carry it.
pub proof fn law_stream_frames_are_a_prefix(queue: Seq<EntryModel>, room: int)
    ensures
        frames::stream_frames(queue, room).1 <= queue.len(),
        room >= 0 ==> frames::stream_frames(queue, room).0.len() <= room,
        frames::stream_frames(queue, room).0.len() == 0 <==> frames::stream_frames(queue, room).1
            == 0,
    decreases queue.len(),
{
    if queue.len() > 0 && room >= 16 {
        let e = queue[0];
        match frame::fitted(
            frame::stream_parts(e.stream_id, e.offset, e.data, e.fin),
            room,
        ) {
            Some(b) => {
                law_stream_frames_are_a_prefix(queue.drop_first(), room - b.len());
            },
            None => {},
        }
    }
}

/// A rewind makes the whole CRYPTO stream of every level unsent again, and loses
/// none of it.
pub proof fn law_rewind_resends_everything<C: CryptoProvider>(
    m: ConnModel<C>,
    pool: Seq<Option<CtxModel<C>>>,
    slot: usize,
)
    requires
        m.rewind_pending,
        m.slot == Some(slot),
        slot < pool.len(),
        pool[slot as int] is Some,
    ensures
        ({
            let (m1, pool1) = poll::with_rewind(m, pool);
            &&& !m1.rewind_pending
            &&& pool1[slot as int] matches Some(ctx) && ctx.pending == (
            pool[slot as int]->0).pending && ctx.tls == (pool[slot as int]->0).tls && ctx.sent
                == seq![0u64, 0u64, 0u64]
        }),
{
}

/// CRYPTO data goes out in order and without gaps: a frame starts where the last
/// one ended, and the streams themselves do not change.
pub proof fn law_crypto_is_contiguous<C: CryptoProvider>(
    ctx: CtxModel<C>,
    level: Level,
    room: int,
)
    requires
        ctx.sent.len() == 3,
        ctx.pending.len() == 3,
        ctx.sent[crypto::level_number(level)] <= ctx.pending[crypto::level_number(level)].len()
            <= u64::MAX,
    ensures
        ({
            let t = crypto::level_number(level);
            let (after, b) = frames::crypto_frame_step(ctx, level, room);
            &&& after.pending == ctx.pending
            &&& ctx.sent[t] <= after.sent[t] <= ctx.pending[t].len()
            &&& b.len() > 0 <==> after.sent[t] > ctx.sent[t]
            &&& b.len() > 0 ==> frame::crypto_parts(
                ctx.sent[t],
                ctx.pending[t].subrange(ctx.sent[t] as int, after.sent[t] as int),
            ).encoding() == Some(b)
        }),
{
}

/// What an ACK frame says is what was received: reading its gap/range pairs back
/// gives the received ranges, highest first.
pub proof fn law_ack_roundtrip(ranges: Seq<(u64, u64)>)
    requires
        recv_pn::ranges_wf(ranges),
        ranges.len() > 0,
    ensures
        recovery::described_ranges(
            ranges.last().1,
            (ranges.last().1 - ranges.last().0) as u64,
            ack::ack_pairs(ranges, ranges.len() - 1),
        ) == ranges.reverse(),
{
    let n = ranges.len() - 1;
    lemma_lower_ranges(ranges, n);
    let got = recovery::described_ranges(
        ranges.last().1,
        (ranges.last().1 - ranges.last().0) as u64,
        ack::ack_pairs(ranges, n),
    );
    assert(got =~= ranges.reverse());
}

proof fn lemma_lower_ranges(ranges: Seq<(u64, u64)>, i: int)
    requires
        recv_pn::ranges_wf(ranges),
        0 <= i < ranges.len(),
    ensures
        recovery::lower_ranges(ranges[i].0, ack::ack_pairs(ranges, i)) == ranges.take(i).reverse(),
    decreases i,
{
    let pairs = ack::ack_pairs(ranges, i);
    if i == 0 {
        assert(ranges.take(0).reverse() =~= Seq::<(u64, u64)>::empty());
    } else {
        lemma_lower_ranges(ranges, i - 1);
        assert(ranges[i - 1].1 + 1 < ranges[i].0);
        assert(pairs.drop_first() =~= ack::ack_pairs(ranges, i - 1));
        assert(ranges.take(i).reverse() =~= seq![ranges[i - 1]] + ranges.take(i - 1).reverse());
    }
}

/// The count field of an ACK frame is the number of pairs it carries.
pub proof fn law_ack_counts_its_pairs(ranges: Seq<(u64, u64)>)
    ensures
        frame::varint_count(ack::pairs_bytes(ack::sent_pairs(ranges))) / 2 == ack::sent_pairs(
            ranges,
        ).len(),
{
    let pairs = ack::ack_pairs(ranges, ranges.len() - 1);
    lemma_fitting_pairs(pairs, ack::ACK_PAIRS_CAP as int);
    lemma_pairs_count(ack::sent_pairs(ranges), Seq::empty());
    assert(ack::pairs_bytes(ack::sent_pairs(ranges)) + Seq::<u8>::empty() =~= ack::pairs_bytes(
        ack::sent_pairs(ranges),
    ));
}

/// The pairs that fit are encodable.
proof fn lemma_fitting_pairs(pairs: Seq<(u64, u64)>, room: int)
    ensures
        ack::pairs_that_fit(pairs, room) <= pairs.len(),
        forall|j: int|
            0 <= j < ack::pairs_that_fit(pairs, room) ==> (#[trigger] pairs[j]).0
                <= varint::MAX_VARINT && pairs[j].1 <= varint::MAX_VARINT,
    decreases pairs.len(),
{
    if pairs.len() > 0 {
        let rest = pairs.drop_first();
        let next = room - ack::pair_bytes(pairs[0]).len();
        lemma_fitting_pairs(rest, next);
        assert forall|j: int| 0 <= j < ack::pairs_that_fit(pairs, room) implies (
        #[trigger] pairs[j]).0 <= varint::MAX_VARINT && pairs[j].1 <= varint::MAX_VARINT by {
            if j > 0 {
                assert(pairs[j] == rest[j - 1]);
            }
        }
    }
}

proof fn lemma_pairs_count(pairs: Seq<(u64, u64)>, tail: Seq<u8>)
    requires
        forall|j: int|
            0 <= j < pairs.len() ==> (#[trigger] pairs[j]).0 <= varint::MAX_VARINT && pairs[j].1
                <= varint::MAX_VARINT,
    ensures
        frame::varint_count(ack::pairs_bytes(pairs) + tail) == 2 * pairs.len()
            + frame::varint_count(tail),
    decreases pairs.len(),
{
    if pairs.len() == 0 {
        assert(ack::pairs_bytes(pairs) + tail =~= tail);
    } else {
        let last = pairs.last();
        let b = varint::varint_bytes(last.1 as int);
        let more = ack::pair_bytes(last) + tail;
        lemma_pairs_count(pairs.drop_last(), more);
        assert(ack::pairs_bytes(pairs) + tail =~= ack::pairs_bytes(pairs.drop_last()) + more);
        lemma_count_step(last.0, b + tail);
        lemma_count_step(last.1, tail);
        assert(more =~= varint::varint_bytes(last.0 as int) + (b + tail));
    }
}

proof fn lemma_count_step(v: u64, tail: Seq<u8>)
    requires
        v <= varint::MAX_VARINT,
    ensures
        frame::varint_count(varint::varint_bytes(v as int) + tail) == 1 + frame::varint_count(tail),
{
    let s = varint::varint_bytes(v as int) + tail;
    varint::lemma_varint_len(v as int);
    varint::law_varint_roundtrip(v as int, tail);
    let n = varint::varint_size(v as int);
    assert(s.skip(n as int) =~= tail);
}

/// Law: stream data is queued in order and without a gap. What is taken of some
/// data is its front, queued behind everything else under the stream's offset,
/// which advances by as much; the stream ends with the last byte of data that was
/// to end it; no other stream changes.
pub proof fn law_stream_data_is_queued<C: CryptoProvider>(
    m: ConnModel<C>,
    queue: Seq<EntryModel>,
    entry_cap: int,
    queue_cap: int,
    id: u64,
    data: Seq<u8>,
    fin: bool,
)
    requires
        0 <= entry_cap <= usize::MAX,
        data.len() <= usize::MAX,
        connection::stream_sent(m, queue, entry_cap, queue_cap, id, data, fin).2 is Ok,
    ensures
        ({
            let i = connection::position(m.streams, id, 0);
            let s = m.streams[i];
            let (after, queue1, r) = connection::stream_sent(
                m,
                queue,
                entry_cap,
                queue_cap,
                id,
                data,
                fin,
            );
            let n = r->Ok_0;
            &&& 0 <= i < m.streams.len() && s.id == id
            &&& n <= data.len()
            &&& n <= entry_cap
            &&& n > 0 ==> s.send_offset + n <= s.send_limit
            &&& n == data.len() || n == entry_cap || s.send_offset + n == s.send_limit
            &&& data.len() > 0 ==> n > 0
            &&& queue1.len() == queue.len() + 1 && queue1.drop_last() == queue
            &&& queue1.last().stream_id == id
            &&& queue1.last().offset == s.send_offset
            &&& queue1.last().data == data.take(n as int)
            &&& queue1.last().fin == (fin && n == data.len())
            &&& after.streams.len() == m.streams.len()
            &&& after.streams[i].send_offset == s.send_offset + n
            &&& after.streams[i].fin_sent == (fin && n == data.len())
            &&& forall|j: int|
                0 <= j < m.streams.len() && j != i ==> #[trigger] after.streams[j] == m.streams[j]
        }),
{
    connection::lemma_position_bounds(m.streams, id, 0);
    let (after, queue1, r) = connection::stream_sent(
        m,
        queue,
        entry_cap,
        queue_cap,
        id,
        data,
        fin,
    );
    assert(queue1.drop_last() =~= queue);
    lemma_position(m.streams, id, 0);
}

proof fn lemma_position(streams: Seq<crate::transport::stream::StreamState>, id: u64, i: int)
    requires
        0 <= i,
    ensures
        connection::position(streams, id, i) < streams.len() ==> streams[connection::position(
            streams,
            id,
            i,
        )].id == id,
    decreases streams.len() - i,
{
    if i < streams.len() && streams[i].id != id {
        lemma_position(streams, id, i + 1);
    }
}

/// Law: streams are numbered in steps of four, a client's from 0 and a server's
/// from 1 on; a new one starts at offset zero with its whole window, and the
/// others stay as they are.
pub proof fn law_streams_are_numbered<C: CryptoProvider>(m: ConnModel<C>, max_streams: int)
    ensures
        ({
            let (after, r) = connection::stream_opened(m, max_streams);
            &&& r is Err ==> after == m
            &&& m.streams.len() >= max_streams ==> r is Err
            &&& r matches Ok(id) ==> {
                &&& id == m.next_stream_id
                &&& after.next_stream_id == id + 4
                &&& after.streams.len() == m.streams.len() + 1
                &&& after.streams.drop_last() == m.streams
                &&& after.streams.last().id == id
                &&& after.streams.last().send_offset == 0
                &&& !after.streams.last().fin_sent
                &&& after.streams.last().recv.consumed == 0
                &&& after.streams.last().recv.limit == after.streams.last().recv.size
                &&& forall|j: int| 0 <= j < m.streams.len() ==> (#[trigger] m.streams[j]).id != id
            }
        }),
{
    let (after, r) = connection::stream_opened(m, max_streams);
    if r is Ok {
        assert(after.streams.drop_last() =~= m.streams);
        lemma_absent(m.streams, m.next_stream_id, 0);
    }
}

proof fn lemma_absent(streams: Seq<crate::transport::stream::StreamState>, id: u64, i: int)
    requires
        0 <= i,
        connection::position(streams, id, i) >= streams.len(),
    ensures
        forall|j: int| i <= j < streams.len() ==> (#[trigger] streams[j]).id != id,
    decreases streams.len() - i,
{
    if i < streams.len() {
        lemma_absent(streams, id, i + 1);
    }
}

/// Law: how a connection starts. A client's address counts as validated, a
/// server's peer has to prove its own; nothing was sent or received; packet numbers
/// start at zero at every level; a server owes HANDSHAKE_DONE.
pub proof fn law_start<C: CryptoProvider>(
    crypto: C,
    role: Role,
    remote: Seq<u8>,
    local: Seq<u8>,
    slot: usize,
    sent_cap: nat,
)
    ensures
        ({
            let m = connection::start_model(crypto, role, remote, local, slot, sent_cap);
            &&& m.address_validated <==> role == Role::Client
            &&& m.handshake_done_due <==> role == Role::Server
            &&& m.bytes_sent == 0 && m.bytes_received == 0
            &&& forall|l: Level| #[trigger] m.pn(l) == 0
            &&& m.state == ConnectionState::Handshaking
            &&& m.remote_cid == remote && m.local_cid == local
            &&& m.next_stream_id == if role == Role::Client {
                0int
            } else {
                1int
            }
            &&& m.streams.len() == 0 && m.sent.len() == 0
            &&& m.congestion.in_flight == 0
            &&& m.flow.recv.consumed == 0 && m.flow.recv.limit == m.flow.recv.size
            &&& m.close_frame is None
        }),
{
}

/// Law: a datagram is its packets, one after the other: an Initial packet, a
/// Handshake packet and a 1-RTT packet, as far as there are keys and anything to
/// send.
pub proof fn law_datagram_is_its_packets<C: CryptoProvider>(
    m: ConnModel<C>,
    queue: Seq<EntryModel>,
    pool: Seq<Option<CtxModel<C>>>,
    cap: int,
    crypto_cap: int,
    now: Instant,
)
    ensures
        ({
            let p = poll::coalesced(m, queue, pool, cap, crypto_cap, now);
            let (m1, p1, k1) = if m.keys.initial is Some {
                transmit::initial_step(m, pool, cap, crypto_cap, now)
            } else {
                (m, pool, None)
            };
            let n1 = match k1 {
                Some(b) => b,
                None => Seq::empty(),
            };
            let (m2, p2, k2) = if m1.keys.handshake is Some {
                transmit::handshake_step(m1, p1, cap - n1.len(), crypto_cap, now)
            } else {
                (m1, p1, None)
            };
            let n2 = match k2 {
                Some(b) => b,
                None => Seq::empty(),
            };
            let (m3, p3) = connection::released(m2, p2);
            let (m4, q4, k4) = if m3.keys.application is Some {
                transmit::short_step(m3, queue, cap - (n1 + n2).len(), now)
            } else {
                (m3, queue, None)
            };
            let n4 = match k4 {
                Some(b) => b,
                None => Seq::empty(),
            };
            &&& p.conn == m4 && p.queue == q4 && p.pool == p3
            &&& p.datagram matches Some(d) ==> d.len() > 0 && d == n1 + n2 + n4
            &&& p.datagram is None ==> (n1 + n2 + n4).len() == 0
        }),
{
    reveal(poll::coalesced);
}

/// Law: the handshake state of an established connection is given back once the
/// engine is done and everything it had to say was sent, and not before.
pub proof fn law_handshake_state_is_released<C: CryptoProvider>(
    m: ConnModel<C>,
    pool: Seq<Option<CtxModel<C>>>,
    slot: usize,
)
    requires
        m.slot == Some(slot),
        slot < pool.len(),
        pool[slot as int] is Some,
    ensures
        ({
            let c = pool[slot as int]->0;
            let (after, pool1) = connection::released(m, pool);
            let over = m.state == ConnectionState::Active && c.tls.complete() && (forall|t: int|
                0 <= t < 3 ==> #[trigger] c.sent[t] == c.pending[t].len());
            &&& over ==> after.slot is None && pool1[slot as int] is None
            &&& !over ==> after == m && pool1 == pool
            &&& pool1.len() == pool.len()
            &&& forall|j: int| 0 <= j < pool.len() && j != slot ==> #[trigger] pool1[j] == pool[j]
        }),
{
    let c = pool[slot as int]->0;
    if c.all_sent() {
        assert forall|t: int| 0 <= t < 3 implies #[trigger] c.sent[t] == c.pending[t].len() by {
            assert(t == 0 || t == 1 || t == 2);
        }
    } else {
        if forall|t: int| 0 <= t < 3 ==> #[trigger] c.sent[t] == c.pending[t].len() {
            assert(c.sent[0] == c.pending[0].len() && c.sent[1] == c.pending[1].len() && c.sent[2]
                == c.pending[2].len());
        }
    }
}

/// Law: an Initial packet that has to be large is: every one of a client, and every
/// one of a server that carries CRYPTO data, has at least 1200 bytes.
pub proof fn law_initial_is_padded<C: CryptoProvider>(
    m: ConnModel<C>,
    pool: Seq<Option<CtxModel<C>>>,
    cap: int,
    crypto_cap: int,
    now: Instant,
)
    requires
        m.keys.initial matches Some(k) && tag_is_appended(k.aead),
    ensures
        ({
            let (after, pool2, pkt) = transmit::initial_step(m, pool, cap, crypto_cap, now);
            &&& m.role == Role::Client && pkt is Some ==> (pkt->0).len() >= 1200
            &&& m.slot matches Some(s) ==> (pkt is Some && 0 <= s < pool.len() && (
            pool2[s as int]->0).sent[0] != (pool[s as int]->0).sent[0] ==> (pkt->0).len() >= 1200)
        }),
{
    reveal(transmit::initial_step);
    let pn_len = m.pn_len(Level::Initial) as int;
    let reserve = 16 + m.remote_cid.len() + m.local_cid.len() + pn_len;
    if cap >= reserve + 32 {
        let (m1, ack) = ack::ack_part(m, Level::Initial, cap - reserve);
        let (pool1, data) = if cap >= MIN_INITIAL_PACKET_SIZE {
            frames::crypto_part(m.slot, pool, Level::Initial, cap - reserve - ack.len(), crypto_cap)
        } else {
            (pool, Seq::empty())
        };
        law_initial_min_size(m, ack + data, cap);
    }
}

/// Law: a connection closes at the highest level that it has keys for.
pub proof fn law_close_goes_highest<C: CryptoProvider>(m: ConnModel<C>)
    ensures
        m.keys.application is Some ==> poll::close_level(m) == Some(Level::Application),
        m.keys.application is None && m.keys.handshake is Some ==> poll::close_level(m) == Some(
            Level::Handshake,
        ),
        m.keys.application is None && m.keys.handshake is None && m.keys.initial is Some
            ==> poll::close_level(m) == Some(Level::Initial),
        m.keys.application is None && m.keys.handshake is None && m.keys.initial is None
            ==> poll::close_level(m) is None,
{
}

/// Law: no key seals more than 8388608 packets. Before the next one is sent the
/// key is replaced: the other key phase begins, its count starts anew, and the
/// keys of the other levels stay. Where that fails the connection is closed and
/// sends nothing. A key below the limit is kept.
pub proof fn law_worn_key_is_replaced<C: CryptoProvider>(
    m: ConnModel<C>,
    queue: Seq<EntryModel>,
    pool: Seq<Option<CtxModel<C>>>,
    cap: int,
    crypto_cap: int,
    now: Instant,
)
    requires
        m.state != ConnectionState::Closed,
        m.may_send(1),
    ensures
        ({
            let (ready, pool2, go_on) = poll::prepared(m, pool);
            let after = poll::polled(m, queue, pool, cap, crypto_cap, now);
            &&& m.keys.packets_encrypted < 8388608 ==> go_on && ready.keys == m.keys
            &&& m.keys.packets_encrypted >= 8388608 && go_on ==> {
                &&& ready.keys.packets_encrypted == 0
                &&& ready.keys.phase <= 1
                &&& m.keys.phase <= 1 ==> ready.keys.phase == 1 - m.keys.phase
                &&& ready.keys.initial == m.keys.initial
                &&& ready.keys.handshake == m.keys.handshake
                &&& ready.keys.application matches Some(k) && m.keys.application matches Some(k0)
                    && k.header_protection == k0.header_protection
            }
            &&& go_on <==> (m.keys.packets_encrypted < 8388608 || m.keys.updated(m.crypto) is Ok)
            &&& !go_on ==> after.datagram is None && after.conn.state == ConnectionState::Closed
        }),
{
}

/// Law: the windows that a connection starts with. It may receive 262144 bytes,
/// and a stream 65536 each way; ten packets of 1200 bytes may be in flight, and
/// nothing limits the growth of that yet. Nothing is owed but, by a server,
/// HANDSHAKE_DONE. A client has its Initial keys and no others.
pub proof fn law_starting_windows<C: CryptoProvider>(
    crypto: C,
    role: Role,
    remote: Seq<u8>,
    local: Seq<u8>,
    slot: usize,
    sent_cap: nat,
    keys: crypto::KeyModel<C::InitialAead, C::InitialHeaderProtection>,
    id: u64,
)
    ensures
        ({
            let m = connection::start_model(crypto, role, remote, local, slot, sent_cap);
            let c = connection::client_model(crypto, remote, local, slot, sent_cap, keys);
            let s = connection::new_stream(id);
            &&& m.flow.recv.size == 262144
            &&& s.id == id && s.send_limit == 65536 && s.recv.size == 65536 && s.recv.limit == 65536
            &&& m.congestion.window == 10 * 1200
            &&& m.congestion.threshold == u64::MAX
            &&& m.slot == Some(slot) && m.role == role && m.sent_cap == sent_cap
            &&& m.crypto == crypto
            &&& m.path_response is None && !m.rewind_pending
            &&& m.ack_due.len() == 3 && m.received.len() == 3 && m.largest_recv_pn.len() == 3
            &&& forall|t: int|
                0 <= t < 3 ==> !(#[trigger] m.ack_due[t]) && m.received[t].len() == 0
                    && m.largest_recv_pn[t] is None
            &&& m.keys.initial is None && m.keys.handshake is None && m.keys.application is None
            &&& m.keys.phase == 0 && m.keys.packets_encrypted == 0
            &&& c.keys.initial == Some(keys)
            &&& c.keys.handshake is None && c.keys.application is None
            &&& c.role == Role::Client && c.address_validated
            &&& c == (ConnModel {
                keys: c.keys,
                ..connection::start_model(crypto, Role::Client, remote, local, slot, sent_cap)
            })
        }),
{
}

/// Law: the room that a stream reports is the room that it has. Data of up to that
/// length is taken whole, longer data up to it, and where no room is reported no
/// data is taken, for the same reason.
pub proof fn law_reported_room_is_there<C: CryptoProvider>(
    m: ConnModel<C>,
    queue: Seq<EntryModel>,
    entry_cap: int,
    queue_cap: int,
    id: u64,
    data: Seq<u8>,
    fin: bool,
)
    requires
        0 <= entry_cap <= usize::MAX,
        data.len() <= usize::MAX,
        data.len() > 0,
    ensures
        ({
            let (after, queue1, r) = connection::stream_sent(
                m,
                queue,
                entry_cap,
                queue_cap,
                id,
                data,
                fin,
            );
            match connection::stream_space(m, queue, entry_cap, queue_cap, id) {
                Ok(room) => {
                    &&& room > 0 && data.len() <= room ==> r == Ok::<usize, Error>(
                        data.len() as usize,
                    )
                    &&& room > 0 && data.len() > room ==> r == Ok::<usize, Error>(room)
                    &&& room == 0 ==> r == Err::<usize, Error>(Error::WouldBlock)
                },
                Err(e) => r == Err::<usize, Error>(e),
            }
        }),
{
}

/// Law: when stream data is refused. A connection that is closing or over takes
/// none, nor does a stream that is not known or was ended; a full queue has the
/// caller try again. What is refused changes nothing.
pub proof fn law_stream_data_is_refused<C: CryptoProvider>(
    m: ConnModel<C>,
    queue: Seq<EntryModel>,
    entry_cap: int,
    queue_cap: int,
    id: u64,
    data: Seq<u8>,
    fin: bool,
)
    requires
        0 <= entry_cap <= usize::MAX,
        data.len() <= usize::MAX,
    ensures
        ({
            let (after, queue1, r) = connection::stream_sent(
                m,
                queue,
                entry_cap,
                queue_cap,
                id,
                data,
                fin,
            );
            let over = m.state != ConnectionState::Handshaking && m.state
                != ConnectionState::Active;
            &&& r is Err ==> after == m && queue1 == queue
            &&& over ==> r == Err::<usize, Error>(Error::InvalidState)
            &&& !over && (forall|j: int|
                0 <= j < m.streams.len() ==> (#[trigger] m.streams[j]).id != id) ==> r == Err::<
                usize,
                Error,
            >(Error::UnknownStream)
            &&& forall|j: int|
                0 <= j < m.streams.len() && (#[trigger] m.streams[j]).id == id && (forall|i: int|
                    0 <= i < j ==> (#[trigger] m.streams[i]).id != id) && !over ==> {
                    &&& m.streams[j].fin_sent ==> r == Err::<usize, Error>(Error::InvalidState)
                    &&& !m.streams[j].fin_sent && queue.len() >= queue_cap ==> r == Err::<
                        usize,
                        Error,
                    >(Error::WouldBlock)
                    &&& !m.streams[j].fin_sent && queue.len() < queue_cap && data.len() == 0
                        ==> r == Ok::<usize, Error>(0)
                    &&& !m.streams[j].fin_sent && queue.len() < queue_cap && entry_cap > 0
                        && m.streams[j].send_offset < m.streams[j].send_limit ==> r is Ok
                }
        }),
{
    if forall|j: int| 0 <= j < m.streams.len() ==> (#[trigger] m.streams[j]).id != id {
        lemma_position_at(m.streams, id, 0, m.streams.len() as int);
    }
    assert forall|j: int|
        0 <= j < m.streams.len() && (#[trigger] m.streams[j]).id == id && (forall|i: int|
            0 <= i < j ==> (#[trigger] m.streams[i]).id != id) implies connection::position(
        m.streams,
        id,
        0,
    ) == j by {
        lemma_position_at(m.streams, id, 0, j);
    }
}

/// A stream is found where it stands first.
proof fn lemma_position_at(
    streams: Seq<crate::transport::stream::StreamState>,
    id: u64,
    i: int,
    at: int,
)
    requires
        0 <= i <= at <= streams.len(),
        at < streams.len() ==> streams[at].id == id,
        forall|j: int| i <= j < at ==> (#[trigger] streams[j]).id != id,
    ensures
        connection::position(streams, id, i) == at,
    decreases at - i,
{
    if i < at {
        assert(streams[i].id != id);
        lemma_position_at(streams, id, i + 1, at);
    }
}

/// Law: a stream of the peer is taken note of once, while there is room for one
/// more; it starts fresh and the others stay as they are.
pub proof fn law_stream_is_accepted_once<C: CryptoProvider>(
    m: ConnModel<C>,
    max_streams: int,
    id: u64,
)
    ensures
        ({
            let (after, r) = connection::stream_accepted(m, max_streams, id);
            let new = forall|j: int| 0 <= j < m.streams.len() ==> (#[trigger] m.streams[j]).id != id;
            &&& r is Ok <==> new && m.streams.len() < max_streams
            &&& r is Err ==> r == Err::<(), Error>(Error::StreamLimit) && after == m
            &&& r is Ok ==> {
                &&& after.streams.drop_last() == m.streams
                &&& after.streams.last().id == id
                &&& after.streams.last().send_offset == 0 && !after.streams.last().fin_sent
                &&& after.streams.last().recv.consumed == 0
                &&& after.next_stream_id == m.next_stream_id
                &&& connection::stream_accepted(after, max_streams, id).1 is Err
            }
        }),
{
    let (after, r) = connection::stream_accepted(m, max_streams, id);
    connection::lemma_position_bounds(m.streams, id, 0);
    if connection::position(m.streams, id, 0) >= m.streams.len() {
        lemma_absent(m.streams, id, 0);
    } else {
        assert(m.streams[connection::position(m.streams, id, 0)].id == id);
    }
    if r is Ok {
        assert(after.streams.drop_last() =~= m.streams);
        assert forall|j: int| 0 <= j < m.streams.len() implies (#[trigger] after.streams[j]).id
            != id by {
            assert(after.streams[j] == m.streams[j]);
        }
        lemma_position_at(after.streams, id, 0, m.streams.len() as int);
    }
}

/// Law: a packet is long enough to take the sample for header protection, which
/// starts four bytes behind the start of the packet number; padding is added only
/// where it is not, and no more than needed.
pub proof fn law_sample_is_there(frame_len: int, pn_len: int)
    requires
        0 <= frame_len,
        1 <= pn_len <= 4,
    ensures
        ({
            let pad = transmit::sample_padding(frame_len, pn_len);
            &&& pad >= 0
            &&& pn_len + frame_len + pad >= 4
            &&& pad > 0 ==> pn_len + frame_len + pad == 4
        }),
{
}

/// Law: a packet that does not fit is refused, with the room that was missing for
/// it; so is one that there is no key for. One that fits is protected under its
/// number.
pub proof fn law_packet_fits_or_is_refused<A: Aead, HP: HeaderProtection>(
    keys: Option<crypto::KeyModel<A, HP>>,
    header: Seq<u8>,
    pn_bytes: Seq<u8>,
    pn: u64,
    is_long: bool,
    payload: Seq<u8>,
    cap: int,
)
    requires
        header.len() + pn_bytes.len() + payload.len() + 16 <= usize::MAX,
    ensures
        ({
            let total = header.len() + pn_bytes.len() + payload.len() + 16;
            let r = transmit::framed(keys, header, pn_bytes, pn, is_long, payload, cap);
            &&& total > cap ==> (r matches Err(Error::BufferTooSmall { .. }))
            &&& total > cap && header.len() + pn_bytes.len() <= cap ==> r == Err::<Seq<u8>, Error>(
                Error::BufferTooSmall { needed: total as usize },
            )
            &&& total <= cap && keys is None ==> r == Err::<Seq<u8>, Error>(Error::Crypto)
            &&& total <= cap && keys is Some ==> r == protect::protected(
                keys->0,
                header + pn_bytes,
                pn,
                pn_bytes.len() as int,
                is_long,
                payload,
            )
        }),
{
}

/// Law: what header protection changes: the low four bits of the first byte of a
/// long header or the low five of a short one, by the first byte of the mask, and
/// the bytes of the packet number, each by the next byte of it; nothing else.
pub proof fn law_mask_form(
    pkt: Seq<u8>,
    pn_offset: int,
    pn_len: int,
    is_long: bool,
    mask: Seq<u8>,
)
    requires
        1 <= pn_offset,
        pkt.len() > 0,
    ensures
        ({
            let out = protect::masked(pkt, pn_offset, pn_len, is_long, mask);
            &&& out.len() == pkt.len()
            &&& is_long ==> (out[0] ^ pkt[0]) == mask[0] % 16
            &&& !is_long ==> (out[0] ^ pkt[0]) == mask[0] % 32
            &&& forall|i: int|
                0 <= i < pn_len && pn_offset + i < pkt.len() ==> (#[trigger] out[pn_offset + i])
                    ^ pkt[pn_offset + i] == mask[1 + i]
            &&& forall|i: int|
                1 <= i < pkt.len() && !(pn_offset <= i < pn_offset + pn_len)
                    ==> #[trigger] out[i] == pkt[i]
        }),
{
    let out = protect::masked(pkt, pn_offset, pn_len, is_long, mask);
    assert forall|a: u8, b: u8| #[trigger] (a ^ b) ^ a == b by {
        assert((a ^ b) ^ a == b) by (bit_vector);
    }
    let k = mask[0];
    assert(k & 0x0f == k % 16) by (bit_vector);
    assert(k & 0x1f == k % 32) by (bit_vector);
    assert forall|i: int| 0 <= i < pn_len && pn_offset + i < pkt.len() implies (
    #[trigger] out[pn_offset + i]) ^ pkt[pn_offset + i] == mask[1 + i] by {
        let a = pkt[pn_offset + i];
        assert(out[pn_offset + i] == a ^ mask[1 + i]);
        assert((a ^ mask[1 + i]) ^ a == mask[1 + i]);
    }
}

} // verus!
