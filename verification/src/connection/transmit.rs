//! Transmit path: build frames, encrypt packets, emit datagrams.

use vstd::prelude::*;

use crate::bytes;
use crate::connection::handshake_pool::{CtxModel, HandshakePool};
use crate::connection::io::{EntryModel, QuicStreamIoBufs};
use crate::connection::{ack, frames, protect};
use crate::connection::{ConnModel, Connection};
use crate::crypto::{
    self, Aead, CryptoProvider, DirectionalKeys, HeaderProtection, KeyModel, Level, TAG_LEN,
};
use crate::error::Error;
use crate::packet::{self, MIN_INITIAL_PACKET_SIZE};
use crate::tls::Role;
use crate::transport::recovery::SentPacket;
use crate::transport::Instant;
use crate::varint;

verus! {

/// The padding of an Initial packet: what an unpadded packet lacks to the
/// minimum size.
pub open spec fn initial_padding(
    dcid_len: int,
    scid_len: int,
    pn_len: int,
    frame_len: int,
    pad_to_min: bool,
) -> int {
    let payload_length = pn_len + frame_len + TAG_LEN;
    let unpadded = 8 + dcid_len + scid_len + varint::varint_size(payload_length) + payload_length;
    if pad_to_min && unpadded < MIN_INITIAL_PACKET_SIZE {
        MIN_INITIAL_PACKET_SIZE - unpadded
    } else {
        0
    }
}

/// The header of the next Initial packet, packet number included.
pub open spec fn next_initial_header<C: CryptoProvider>(m: ConnModel<C>, padded_len: int) -> Seq<
    u8,
> {
    let pn_len = m.pn_len(Level::Initial) as int;
    packet::initial_header(
        m.remote_cid,
        m.local_cid,
        Seq::empty(),
        pn_len,
        pn_len + padded_len + TAG_LEN,
    ) + m.pn_bytes(Level::Initial)
}

/// The header of the next Handshake packet, packet number included.
pub open spec fn next_handshake_header<C: CryptoProvider>(m: ConnModel<C>, padded_len: int) -> Seq<
    u8,
> {
    let pn_len = m.pn_len(Level::Handshake) as int;
    packet::handshake_header(
        m.remote_cid,
        m.local_cid,
        pn_len,
        pn_len + padded_len + TAG_LEN,
    ) + m.pn_bytes(Level::Handshake)
}

/// The header of the next short packet, packet number included: the first byte
/// carries the fixed bit, the key phase and the length of the packet number.
pub open spec fn next_short_header<C: CryptoProvider>(m: ConnModel<C>) -> Seq<u8> {
    let pn_len = m.pn_len(Level::Application) as int;
    packet::short_header(
        m.remote_cid,
        (0x40 + 4 * (m.keys.phase % 2) + pn_len - 1) as u8,
    ) + m.pn_bytes(Level::Application)
}

/// The connection after an attempt to send a packet at `level`: if there is a
/// packet it counts as sent. It elicits an acknowledgment if it carries anything
/// besides an ACK and padding.
pub open spec fn settled<C: CryptoProvider>(
    m: ConnModel<C>,
    level: Level,
    pkt: Option<Seq<u8>>,
    eliciting: bool,
    now: Instant,
) -> ConnModel<C> {
    match pkt {
        Some(p) => m.after_sending(level, p.len(), eliciting, now),
        None => m,
    }
}

/// The Initial packet that carries `frames`, in `cap` bytes.
pub open spec fn initial_packet<C: CryptoProvider>(
    m: ConnModel<C>,
    frames: Seq<u8>,
    pad_to_min: bool,
    cap: int,
) -> Option<Seq<u8>> {
    let pn_len = m.pn_len(Level::Initial) as int;
    let pad = initial_padding(
        m.remote_cid.len() as int,
        m.local_cid.len() as int,
        pn_len,
        frames.len() as int,
        pad_to_min,
    );
    let payload = frames + bytes::zeros(pad as nat);
    if pn_len + payload.len() + TAG_LEN > varint::MAX_VARINT {
        None
    } else {
        protect::sealed_packet(
            m.keys.initial,
            next_initial_header(m, payload.len() as int),
            m.pn(Level::Initial),
            pn_len,
            true,
            payload,
            cap,
        )
    }
}

/// The next Initial packet in `cap` bytes: a pending ACK, then CRYPTO data (only
/// if a minimum-size packet fits, since ack-eliciting Initials are padded to
/// that size), then padding on the client and wherever there is CRYPTO data.
#[verifier::opaque]
pub open spec fn initial_step<C: CryptoProvider>(
    m: ConnModel<C>,
    pool: Seq<Option<CtxModel<C>>>,
    cap: int,
    crypto_cap: int,
    now: Instant,
) -> (ConnModel<C>, Seq<Option<CtxModel<C>>>, Option<Seq<u8>>) {
    let pn_len = m.pn_len(Level::Initial) as int;
    let reserve = 16 + m.remote_cid.len() + m.local_cid.len() + pn_len;
    if cap < reserve + 32 {
        (m, pool, None)
    } else {
        let (m1, ack) = ack::ack_part(m, Level::Initial, cap - reserve);
        let (pool1, data) = if cap >= MIN_INITIAL_PACKET_SIZE {
            frames::crypto_part(m.slot, pool, Level::Initial, cap - reserve - ack.len(), crypto_cap)
        } else {
            (pool, Seq::empty())
        };
        let frames = ack + data;
        if frames.len() == 0 {
            (m1, pool1, None)
        } else {
            let pad_to_min = m.role == Role::Client || data.len() > 0;
            let pkt = initial_packet(m, frames, pad_to_min, cap);
            (settled(m1, Level::Initial, pkt, data.len() > 0, now), pool1, pkt)
        }
    }
}

/// The next Handshake packet in `cap` bytes: a pending ACK, then CRYPTO data.
#[verifier::opaque]
pub open spec fn handshake_step<C: CryptoProvider>(
    m: ConnModel<C>,
    pool: Seq<Option<CtxModel<C>>>,
    cap: int,
    crypto_cap: int,
    now: Instant,
) -> (ConnModel<C>, Seq<Option<CtxModel<C>>>, Option<Seq<u8>>) {
    let pn_len = m.pn_len(Level::Handshake) as int;
    let reserve = 15 + m.remote_cid.len() + m.local_cid.len() + pn_len;
    if cap < reserve + 32 {
        (m, pool, None)
    } else {
        let (m1, ack) = ack::ack_part(m, Level::Handshake, cap - reserve);
        let (pool1, data) = frames::crypto_part(
            m.slot,
            pool,
            Level::Handshake,
            cap - reserve - ack.len(),
            crypto_cap,
        );
        let frames = ack + data;
        if frames.len() == 0 {
            (m1, pool1, None)
        } else {
            let pkt = if pn_len + frames.len() + TAG_LEN > varint::MAX_VARINT {
                None
            } else {
                protect::sealed_packet(
                    m.keys.handshake,
                    next_handshake_header(m, frames.len() as int),
                    m.pn(Level::Handshake),
                    pn_len,
                    true,
                    frames,
                    cap,
                )
            };
            (settled(m1, Level::Handshake, pkt, data.len() > 0, now), pool1, pkt)
        }
    }
}

/// The padding of an Initial packet.
fn compute_initial_padding(
    dcid_len: usize,
    scid_len: usize,
    pn_len: usize,
    frame_len: usize,
    pad_to_min: bool,
) -> (pad: usize)
    requires
        dcid_len <= 20,
        scid_len <= 20,
        1 <= pn_len <= 4,
        pn_len + frame_len + TAG_LEN <= usize::MAX,
    ensures
        pad == initial_padding(
            dcid_len as int,
            scid_len as int,
            pn_len as int,
            frame_len as int,
            pad_to_min,
        ),
        pad <= MIN_INITIAL_PACKET_SIZE,
        pad > 0 ==> frame_len < MIN_INITIAL_PACKET_SIZE,
{
    let payload_length: usize = pn_len + frame_len + TAG_LEN;
    if payload_length >= MIN_INITIAL_PACKET_SIZE {
        return 0;
    }
    let unpadded: usize = 8 + dcid_len + scid_len + varint::varint_len(payload_length as u64)
        + payload_length;
    if pad_to_min && unpadded < MIN_INITIAL_PACKET_SIZE {
        MIN_INITIAL_PACKET_SIZE - unpadded
    } else {
        0
    }
}

/// Padding so that a packet is long enough for the header-protection sample.
pub open spec fn sample_padding(frame_len: int, pn_len: int) -> int {
    if frame_len + pn_len < 4 {
        4 - frame_len - pn_len
    } else {
        0
    }
}

/// The short packet that carries `frames`, in `cap` bytes.
pub open spec fn short_packet<C: CryptoProvider>(m: ConnModel<C>, frames: Seq<u8>, cap: int) -> Option<
    Seq<u8>,
> {
    let pn_len = m.pn_len(Level::Application) as int;
    protect::sealed_packet(
        m.keys.application,
        next_short_header(m),
        m.pn(Level::Application),
        pn_len,
        false,
        frames + bytes::zeros(sample_padding(frames.len() as int, pn_len) as nat),
        cap,
    )
}

/// The next short packet in `cap` bytes.
#[verifier::opaque]
pub open spec fn short_step<C: CryptoProvider>(
    m: ConnModel<C>,
    queue: Seq<EntryModel>,
    cap: int,
    now: Instant,
) -> (ConnModel<C>, Seq<EntryModel>, Option<Seq<u8>>) {
    let pn_len = m.pn_len(Level::Application) as int;
    let start = 1 + m.remote_cid.len() + pn_len;
    if cap < start + 32 {
        (m, queue, None)
    } else {
        let room = cap - start;
        let (m1, control) = frames::control_part(m, room);
        let (queue1, streams) = frames::stream_part(m1, queue, room - control.len());
        let frames = control + streams;
        if frames.len() == 0 {
            (m1, queue1, None)
        } else {
            let pkt = short_packet(m1, frames, cap);
            let m2 = if pkt is Some && frames::done_part(m, room).len() > 0 {
                ConnModel { handshake_done_due: false, ..m1 }
            } else {
                m1
            };
            let eliciting = frames.len() > frames::control_ack(m, room).len();
            (settled(m2, Level::Application, pkt, eliciting, now), queue1, pkt)
        }
    }
}

impl<
    C: CryptoProvider,
    const MAX_STREAMS: usize,
    const SENT_PER_SPACE: usize,
    const MAX_CIDS: usize,
> Connection<C, MAX_STREAMS, SENT_PER_SPACE, MAX_CIDS> {
    /// Counts a packet as sent.
    fn commit_sent(&mut self, level: Level, total: usize, eliciting: bool, now: Instant)
        requires
            old(self).wf(),
            old(self)@.number_left(level),
        ensures
            final(self).wf(),
            final(self)@ == old(self)@.after_sending(level, total as nat, eliciting, now),
            final(self).handshake_slot == old(self).handshake_slot,
    {
        let idx = crypto::level_index(level);
        let pn = self.next_pn[idx];
        self.next_pn[idx] = pn + 1;
        match level {
            Level::Application => {
                self.keys.key_update.packets_encrypted = self.keys.key_update.packets_encrypted + 1;
            },
            _ => {},
        }
        let _ = self.sent_tracker.on_packet_sent(
            SentPacket {
                pn,
                level,
                time_sent: now,
                size: total as u16,
                ack_eliciting: eliciting,
                in_flight: true,
            },
        );
        if eliciting {
            self.loss_detector.on_ack_eliciting_sent(level, now);
        }
        self.congestion.on_packet_sent(total as u64);
    }

    /// The first local connection ID; empty if there is none.
    fn local_cid_slice(&self) -> (r: &[u8])
        requires
            self.wf(),
        ensures
            r@ == self@.local_cid,
            r@.len() <= 20,
    {
        if self.local_cids.len() == 0 {
            let r: &[u8] = &[];
            assert(r@ =~= Seq::<u8>::empty());
            r
        } else {
            assert(self.local_cids@[0].wf());
            self.local_cids[0].as_slice()
        }
    }

    /// Writes the frames of a long-header packet at `buf[at..]`: a pending ACK,
    /// then CRYPTO data if `with_crypto`. Returns both lengths.
    fn write_long_frames<const SLOTS: usize, const CRYPTO_BUF: usize>(
        &mut self,
        level: Level,
        buf: &mut [u8],
        at: usize,
        with_crypto: bool,
        pool: &mut HandshakePool<C, SLOTS, CRYPTO_BUF>,
    ) -> (r: (usize, usize))
        requires
            old(self).wf(),
            old(pool).wf(),
            old(self).slot_ok(old(pool)),
            at <= old(buf)@.len(),
        ensures
            final(self).wf(),
            final(pool).wf(),
            final(self).slot_ok(final(pool)),
            final(self).same_base(old(self)),
            final(buf)@.len() == old(buf)@.len(),
            ({
                let room = old(buf)@.len() - at;
                let (m, ack) = ack::ack_part(old(self)@, level, room);
                let (p, data) = if with_crypto {
                    frames::crypto_part(
                        old(self)@.slot,
                        old(pool)@,
                        level,
                        room - ack.len(),
                        CRYPTO_BUF as int,
                    )
                } else {
                    (old(pool)@, Seq::empty())
                };
                &&& final(self)@ == m
                &&& final(pool)@ == p
                &&& r.0 == ack.len()
                &&& r.1 == data.len()
                &&& at + r.0 + r.1 <= old(buf)@.len()
                &&& final(buf)@.subrange(at as int, at + r.0 + r.1) == ack + data
            }),
    {
        let ghost base = buf@;
        let cap = buf.len();
        let ack_len = {
            let (_, tail) = buf.split_at_mut(at);
            self.write_ack_part(level, tail)
        };
        let ghost ack = ack::ack_part(old(self)@, level, cap - at).1;
        let ghost s1 = buf@;
        assert(s1 =~= base.take(at as int) + ack + base.skip(at + ack_len));
        if !with_crypto {
            assert(ack + Seq::<u8>::empty() =~= ack);
            assert(buf@.subrange(at as int, at + ack_len) =~= ack);
            return (ack_len, 0);
        }
        let crypto_len = {
            let (_, tail) = buf.split_at_mut(at + ack_len);
            self.write_tls_crypto_data(level, tail, pool)
        };
        proof {
            let data = frames::crypto_part(
                old(self)@.slot,
                old(pool)@,
                level,
                cap - at - ack.len(),
                CRYPTO_BUF as int,
            ).1;
            assert(buf@.subrange(at as int, at + ack_len + crypto_len) =~= ack + data);
        }
        (ack_len, crypto_len)
    }

    /// Completes an Initial packet whose frames were built at `buf[at..]`, past
    /// any possible header.
    fn finish_initial(
        &mut self,
        buf: &mut [u8],
        at: usize,
        frame_len: usize,
        eliciting: bool,
        pad_to_min: bool,
        now: Instant,
    ) -> (r: Option<usize>)
        requires
            old(self).wf(),
            old(self)@.number_left(Level::Initial),
            at == 16 + old(self)@.remote_cid.len() + old(self)@.local_cid.len() + old(
                self)@.pn_len(Level::Initial),
            at + frame_len <= old(buf)@.len(),
        ensures
            final(self).wf(),
            final(self).handshake_slot == old(self).handshake_slot,
            final(buf)@.len() == old(buf)@.len(),
            ({
                let frames = old(buf)@.subrange(at as int, at + frame_len);
                let pkt = initial_packet(
                    old(self)@,
                    frames,
                    pad_to_min,
                    old(buf)@.len() as int,
                );
                &&& final(self)@ == settled(old(self)@, Level::Initial, pkt, eliciting, now)
                &&& match pkt {
                    Some(b) => r == Some(b.len() as usize) && b.len() <= old(buf)@.len() && final(
                        buf)@.take(b.len() as int) == b,
                    None => r is None,
                }
            }),
    {
        let ghost m0 = self@;
        let cap = buf.len();
        let pn = self.next_pn[0];
        let largest_acked = self.largest_recv_pn[0].unwrap_or(0);
        let pn_len = packet::pn_length(pn, largest_acked);
        let dcid_len = self.remote_cid.len as usize;
        let scid_len = self.local_cid_slice().len();
        let ghost frames = buf@.subrange(at as int, at + frame_len);
        let pad = compute_initial_padding(dcid_len, scid_len, pn_len, frame_len, pad_to_min);
        let payload_length = pn_len + frame_len + pad + TAG_LEN;
        let header_len: usize = 8 + dcid_len + scid_len + varint::varint_len(payload_length as u64);
        let ghost header = packet::initial_header(
            m0.remote_cid,
            m0.local_cid,
            Seq::empty(),
            pn_len as int,
            payload_length as int,
        );
        proof {
            packet::lemma_header_lens(
                m0.remote_cid,
                m0.local_cid,
                Seq::empty(),
                pn_len as int,
                payload_length as int,
            );
        }
        let token: &[u8] = &[];
        assert(token@ =~= Seq::<u8>::empty());
        let encoded = packet::encode_initial_header(
            self.remote_cid.as_slice(),
            self.local_cid_slice(),
            token,
            pn_len,
            payload_length,
            buf,
        );
        match encoded {
            Ok(_) => {},
            Err(_) => {
                return None;
            },
        }
        proof {
            assert(buf@.subrange(at as int, at + frame_len) =~= frames);
            assert(buf@.take(header_len as int) =~= header);
        }
        let result = protect::seal_built(
            buf,
            header_len,
            pn,
            largest_acked,
            at,
            frame_len,
            pad,
            true,
            self.keys.initial_send.as_ref(),
        );
        match result {
            Some(total) => {
                self.commit_sent(Level::Initial, total, eliciting, now);
            },
            None => {},
        }
        result
    }

    /// Build an Initial packet if there's something to send at this level.
    ///
    /// Frames are written at a reserved offset, past any possible header, and
    /// moved into place once the header size is known.
    pub fn build_initial_packet<const SLOTS: usize, const CRYPTO_BUF: usize>(
        &mut self,
        buf: &mut [u8],
        now: Instant,
        pool: &mut HandshakePool<C, SLOTS, CRYPTO_BUF>,
    ) -> (r: Option<usize>)
        requires
            old(self).wf(),
            old(self)@.number_left(Level::Initial),
            old(pool).wf(),
            old(self).slot_ok(old(pool)),
        ensures
            final(self).wf(),
            final(pool).wf(),
            final(self).slot_ok(final(pool)),
            final(buf)@.len() == old(buf)@.len(),
            ({
                let (m, p, pkt) = initial_step(
                    old(self)@,
                    old(pool)@,
                    old(buf)@.len() as int,
                    CRYPTO_BUF as int,
                    now,
                );
                &&& final(self)@ == m
                &&& final(pool)@ == p
                &&& match pkt {
                    Some(b) => r == Some(b.len() as usize) && b.len() <= old(buf)@.len() && final(
                        buf)@.take(b.len() as int) == b,
                    None => r is None,
                }
            }),
    {
        reveal(initial_step);
        let ghost m0 = self@;
        let level = Level::Initial;
        let pn = self.next_pn[0];
        let largest_acked = self.largest_recv_pn[0].unwrap_or(0);
        let pn_len = packet::pn_length(pn, largest_acked);
        let dcid_len = self.remote_cid.len as usize;
        let scid_len = self.local_cid_slice().len();
        let reserve: usize = 16 + dcid_len + scid_len + pn_len;
        let cap = buf.len();
        if cap < reserve + 32 {
            return None;
        }
        // An undersized buffer must not consume crypto stream data that it
        // cannot send; an ACK-only Initial may still go out.
        let (ack_len, crypto_len) = self.write_long_frames(
            level,
            buf,
            reserve,
            cap >= MIN_INITIAL_PACKET_SIZE,
            pool,
        );
        let frame_len = ack_len + crypto_len;
        if frame_len == 0 {
            return None;
        }
        let pad_to_min = self.role == Role::Client || crypto_len > 0;
        proof {
            let frames = buf@.subrange(reserve as int, reserve + frame_len);
            assert(initial_packet(self@, frames, pad_to_min, cap as int) == initial_packet(
                m0,
                frames,
                pad_to_min,
                cap as int,
            ));
        }
        self.finish_initial(buf, reserve, frame_len, crypto_len > 0, pad_to_min, now)
    }

    /// Build a Handshake packet if there's something to send at this level.
    ///
    /// Frames are written at a reserved offset, past any possible header, and
    /// moved into place once the header size is known.
    #[verifier::rlimit(30)]
    pub fn build_handshake_packet<const SLOTS: usize, const CRYPTO_BUF: usize>(
        &mut self,
        buf: &mut [u8],
        now: Instant,
        pool: &mut HandshakePool<C, SLOTS, CRYPTO_BUF>,
    ) -> (r: Option<usize>)
        requires
            old(self).wf(),
            old(self)@.number_left(Level::Handshake),
            old(pool).wf(),
            old(self).slot_ok(old(pool)),
        ensures
            final(self).wf(),
            final(pool).wf(),
            final(self).slot_ok(final(pool)),
            final(buf)@.len() == old(buf)@.len(),
            ({
                let (m, p, pkt) = handshake_step(
                    old(self)@,
                    old(pool)@,
                    old(buf)@.len() as int,
                    CRYPTO_BUF as int,
                    now,
                );
                &&& final(self)@ == m
                &&& final(pool)@ == p
                &&& match pkt {
                    Some(b) => r == Some(b.len() as usize) && b.len() <= old(buf)@.len() && final(
                        buf)@.take(b.len() as int) == b,
                    None => r is None,
                }
            }),
    {
        reveal(handshake_step);
        let ghost m0 = self@;
        let level = Level::Handshake;
        let pn = self.next_pn[1];
        let largest_acked = self.largest_recv_pn[1].unwrap_or(0);
        let pn_len = packet::pn_length(pn, largest_acked);
        let dcid_len = self.remote_cid.len as usize;
        let scid_len = self.local_cid_slice().len();
        let reserve: usize = 15 + dcid_len + scid_len + pn_len;
        let cap = buf.len();
        if cap < reserve + 32 {
            return None;
        }
        let (ack_len, crypto_len) = self.write_long_frames(level, buf, reserve, true, pool);
        let frame_len = ack_len + crypto_len;
        let ghost frames = buf@.subrange(reserve as int, reserve + frame_len);
        if frame_len == 0 {
            return None;
        }
        proof {
            bytes::lemma_be_bytes_len(pn as nat, pn_len as nat);
            packet::lemma_header_lens(
                m0.remote_cid,
                m0.local_cid,
                Seq::empty(),
                pn_len as int,
                pn_len + frame_len + TAG_LEN,
            );
            assert(frames + bytes::zeros(0) =~= frames);
        }
        if frame_len > usize::MAX - 20 {
            return None;
        }
        let payload_length = pn_len + frame_len + TAG_LEN;
        let header_len: usize = 7 + dcid_len + scid_len + varint::varint_len(payload_length as u64);
        let ghost header = packet::handshake_header(
            m0.remote_cid,
            m0.local_cid,
            pn_len as int,
            payload_length as int,
        );
        assert(header.len() == header_len);
        let encoded = packet::encode_handshake_header(
            self.remote_cid.as_slice(),
            self.local_cid_slice(),
            pn_len,
            payload_length,
            buf,
        );
        match encoded {
            Ok(_) => {},
            Err(_) => {
                return None;
            },
        }
        proof {
            assert(buf@.subrange(reserve as int, reserve + frame_len) =~= frames);
            assert(buf@.take(header_len as int) =~= header);
        }
        let result = protect::seal_built(
            buf,
            header_len,
            pn,
            largest_acked,
            reserve,
            frame_len,
            0,
            true,
            self.keys.send_keys(level),
        );
        match result {
            Some(total) => {
                self.commit_sent(level, total, crypto_len > 0, now);
            },
            None => {},
        }
        result
    }

    /// Completes a short packet whose frames were built at the payload offset.
    fn finish_short(
        &mut self,
        buf: &mut [u8],
        frame_len: usize,
        sends_done: bool,
        eliciting: bool,
        now: Instant,
    ) -> (r: Option<usize>)
        requires
            old(self).wf(),
            old(self)@.number_left(Level::Application),
            1 + old(self)@.remote_cid.len() + old(self)@.pn_len(Level::Application) + frame_len
                <= old(buf)@.len(),
        ensures
            final(self).wf(),
            final(self).handshake_slot == old(self).handshake_slot,
            final(buf)@.len() == old(buf)@.len(),
            ({
                let m = old(self)@;
                let at = 1 + m.remote_cid.len() + m.pn_len(Level::Application);
                let pkt = short_packet(
                    m,
                    old(buf)@.subrange(at as int, at + frame_len),
                    old(buf)@.len() as int,
                );
                let m1 = if pkt is Some && sends_done {
                    ConnModel { handshake_done_due: false, ..m }
                } else {
                    m
                };
                &&& final(self)@ == settled(m1, Level::Application, pkt, eliciting, now)
                &&& match pkt {
                    Some(b) => r == Some(b.len() as usize) && b.len() <= old(buf)@.len() && final(
                        buf)@.take(b.len() as int) == b,
                    None => r is None,
                }
            }),
    {
        let ghost m0 = self@;
        let cap = buf.len();
        let level = Level::Application;
        let pn = self.next_pn[2];
        let largest_acked = self.largest_recv_pn[2].unwrap_or(0);
        let pn_len = packet::pn_length(pn, largest_acked);
        let pn_offset: usize = 1 + self.remote_cid.len as usize;
        let payload_start: usize = pn_offset + pn_len;
        let ghost frames = buf@.subrange(payload_start as int, payload_start + frame_len);
        let pad: usize = if frame_len < 4 && frame_len + pn_len < 4 {
            4 - frame_len - pn_len
        } else {
            0
        };
        let first_byte: u8 = 0x40 + 4 * (self.keys.key_phase() % 2) + (pn_len as u8 - 1);
        let encoded = packet::encode_short_header(self.remote_cid.as_slice(), first_byte, buf);
        match encoded {
            Ok(_) => {},
            Err(_) => {
                return None;
            },
        }
        proof {
            assert(buf@.subrange(payload_start as int, payload_start + frame_len) =~= frames);
            assert(buf@.take(pn_offset as int) =~= packet::short_header(
                m0.remote_cid,
                first_byte,
            ));
        }
        let result = protect::seal_built(
            buf,
            pn_offset,
            pn,
            largest_acked,
            payload_start,
            frame_len,
            pad,
            false,
            self.keys.send_keys(level),
        );
        match result {
            Some(total) => {
                if sends_done {
                    self.need_handshake_done = false;
                }
                self.commit_sent(level, total, eliciting, now);
            },
            None => {},
        }
        result
    }

    /// Build a short (1-RTT) packet if there's something to send.
    ///
    /// Frames are written directly at the payload offset, since the size of a
    /// short header is known beforehand. Only new stream data is
    /// congestion-controlled; ACK and control frames are exempt, so that a
    /// connection whose window is full still makes progress.
    pub fn build_short_packet<const STREAM_BUF: usize, const SEND_QUEUE: usize>(
        &mut self,
        sio: &mut QuicStreamIoBufs<STREAM_BUF, SEND_QUEUE>,
        buf: &mut [u8],
        now: Instant,
    ) -> (r: Option<usize>)
        requires
            old(self).wf(),
            old(self)@.number_left(Level::Application),
        ensures
            final(self).wf(),
            final(buf)@.len() == old(buf)@.len(),
            final(self).handshake_slot == old(self).handshake_slot,
            ({
                let (m, q, pkt) = short_step(
                    old(self)@,
                    old(sio)@,
                    old(buf)@.len() as int,
                    now,
                );
                &&& final(self)@ == m
                &&& final(sio)@ == q
                &&& match pkt {
                    Some(b) => r == Some(b.len() as usize) && b.len() <= old(buf)@.len() && final(
                        buf)@.take(b.len() as int) == b,
                    None => r is None,
                }
            }),
    {
        reveal(short_step);
        let ghost m0 = self@;
        let ghost base = buf@;
        let level = Level::Application;
        let pn = self.next_pn[2];
        let largest_acked = self.largest_recv_pn[2].unwrap_or(0);
        let pn_len = packet::pn_length(pn, largest_acked);
        let dcid_len = self.remote_cid.len as usize;
        let pn_offset: usize = 1 + dcid_len;
        let payload_start: usize = pn_offset + pn_len;
        let cap = buf.len();
        if cap < payload_start + 32 {
            return None;
        }
        let sending_handshake_done = self.role == Role::Server && self.need_handshake_done;
        let ghost room = cap - payload_start;
        proof {
            assert(sending_handshake_done == (frames::done_part(m0, room).len() > 0));
        }
        let (control_len, ack_len) = {
            let (_, tail) = buf.split_at_mut(payload_start);
            self.write_control_part(tail)
        };
        let ghost control = frames::control_part(m0, room).1;
        let ghost m1 = self@;
        let ghost s1 = buf@;
        let stream_len = {
            let (_, tail) = buf.split_at_mut(payload_start + control_len);
            self.write_stream_part(sio, tail)
        };
        let ghost streams = frames::stream_part(m1, old(sio)@, room - control.len()).1;
        let frame_len = control_len + stream_len;
        let ghost frames = control + streams;
        proof {
            assert(s1 =~= base.take(payload_start as int) + control + base.skip(
                payload_start + control_len,
            ));
            assert(buf@.subrange(payload_start as int, payload_start + frame_len) =~= frames);
        }
        if frame_len == 0 {
            return None;
        }
        self.finish_short(buf, frame_len, sending_handshake_done, frame_len > ack_len, now)
    }
}

/// A packet with the given frames, or the reason why there is none: the packet
/// number, then the whole packet, must fit into `cap` bytes, and there must be
/// keys.
pub open spec fn framed<A: Aead, HP: HeaderProtection>(
    keys: Option<KeyModel<A, HP>>,
    header: Seq<u8>,
    pn_bytes: Seq<u8>,
    pn: u64,
    is_long: bool,
    payload: Seq<u8>,
    cap: int,
) -> Result<Seq<u8>, Error> {
    let start = header.len() + pn_bytes.len();
    let total = start + payload.len() + TAG_LEN;
    if header.len() > cap {
        Err(Error::BufferTooSmall { needed: header.len() as usize })
    } else if start > cap {
        Err(Error::BufferTooSmall { needed: pn_bytes.len() as usize })
    } else if total > cap {
        Err(Error::BufferTooSmall { needed: total as usize })
    } else {
        match keys {
            Some(k) => protect::protected(
                k,
                header + pn_bytes,
                pn,
                pn_bytes.len() as int,
                is_long,
                payload,
            ),
            None => Err(Error::Crypto),
        }
    }
}

/// The Initial packet that carries CONNECTION_CLOSE.
pub open spec fn closing_initial<C: CryptoProvider, A: Aead, HP: HeaderProtection>(
    m: ConnModel<C>,
    frames: Seq<u8>,
    pad_to_min: bool,
    keys: KeyModel<A, HP>,
    cap: int,
) -> Result<Seq<u8>, Error> {
    let pn_len = m.pn_len(Level::Initial) as int;
    let pad = initial_padding(
        m.remote_cid.len() as int,
        m.local_cid.len() as int,
        pn_len,
        frames.len() as int,
        pad_to_min,
    );
    let payload_length = pn_len + frames.len() + pad + TAG_LEN;
    if payload_length > varint::MAX_VARINT {
        Err(Error::InvalidVarint)
    } else {
        framed(
            Some(keys),
            packet::initial_header(
                m.remote_cid,
                m.local_cid,
                Seq::empty(),
                pn_len,
                payload_length,
            ),
            m.pn_bytes(Level::Initial),
            m.pn(Level::Initial),
            true,
            frames + bytes::zeros(pad as nat),
            cap,
        )
    }
}

/// The Handshake or short packet that carries CONNECTION_CLOSE.
pub open spec fn closing_packet<C: CryptoProvider>(
    m: ConnModel<C>,
    level: Level,
    frames: Seq<u8>,
    cap: int,
) -> Result<Seq<u8>, Error> {
    let pn_len = m.pn_len(level) as int;
    let payload = frames + bytes::zeros(
        sample_padding(frames.len() as int, pn_len) as nat,
    );
    match level {
        Level::Initial => Err(Error::InvalidState),
        Level::Handshake => if pn_len + payload.len() + TAG_LEN > varint::MAX_VARINT {
            Err(Error::InvalidVarint)
        } else {
            framed(
                m.keys.handshake,
                packet::handshake_header(
                    m.remote_cid,
                    m.local_cid,
                    pn_len,
                    pn_len + payload.len() + TAG_LEN,
                ),
                m.pn_bytes(level),
                m.pn(level),
                true,
                payload,
                cap,
            )
        },
        Level::Application => framed(
            m.keys.application,
            packet::short_header(
                m.remote_cid,
                (0x40 + 4 * (m.keys.phase % 2) + pn_len - 1) as u8,
            ),
            m.pn_bytes(level),
            m.pn(level),
            false,
            payload,
            cap,
        ),
    }
}

/// The connection after an attempt to send a packet at `level`.
pub open spec fn settled_result<C: CryptoProvider>(
    m: ConnModel<C>,
    level: Level,
    pkt: Result<Seq<u8>, Error>,
    now: Instant,
) -> ConnModel<C> {
    match pkt {
        Ok(p) => m.after_sending(level, p.len(), true, now),
        Err(_) => m,
    }
}

/// Completes a packet whose header is at the front of `out`: packet number,
/// frames, padding, encryption.
fn seal_frames<A: Aead, HP: HeaderProtection>(
    out: &mut [u8],
    header_len: usize,
    pn: u64,
    largest_acked: u64,
    frames: &[u8],
    pad: usize,
    is_long: bool,
    keys: Option<&DirectionalKeys<A, HP>>,
) -> (r: Result<usize, Error>)
    requires
        1 <= header_len <= old(out)@.len(),
        header_len <= 100,
        frames@.len() + pad + 200 <= usize::MAX,
    ensures
        final(out)@.len() == old(out)@.len(),
        match framed(
            protect::keys_view(keys),
            old(out)@.take(header_len as int),
            packet::pn_bytes(pn as int, largest_acked as int),
            pn,
            is_long,
            frames@ + bytes::zeros(pad as nat),
            old(out)@.len() as int,
        ) {
            Ok(b) => r == Ok::<usize, Error>(b.len() as usize) && b.len() <= old(out)@.len()
                && final(out)@.take(b.len() as int) == b,
            Err(e) => r == Err::<usize, Error>(e),
        },
{
    let ghost base = out@;
    let ghost header = base.take(header_len as int);
    let ghost pnb = packet::pn_bytes(pn as int, largest_acked as int);
    let ghost payload = frames@ + bytes::zeros(pad as nat);
    let cap = out.len();
    let frame_len = frames.len();
    let pn_len = packet::pn_length(pn, largest_acked);
    proof {
        bytes::lemma_be_bytes_len(pn as nat, pn_len as nat);
    }
    let pn_written = {
        let (_, tail) = out.split_at_mut(header_len);
        packet::encode_pn(pn, largest_acked, tail)
    };
    match pn_written {
        Ok(_) => {},
        Err(e) => {
            return Err(e);
        },
    }
    let ghost s1 = out@;
    assert(s1 =~= header + pnb + base.skip(header_len + pn_len));
    let payload_start = header_len + pn_len;
    let total = payload_start + frame_len + pad + TAG_LEN;
    if total > cap {
        return Err(Error::BufferTooSmall { needed: total });
    }
    bytes::copy_at(out, payload_start, frames);
    bytes::fill_zero(out, payload_start + frame_len, payload_start + frame_len + pad);
    proof {
        assert(out@.take(payload_start as int) =~= header + pnb);
        assert(out@.subrange(payload_start as int, payload_start + frame_len + pad) =~= payload);
    }
    match keys {
        Some(k) => protect::encrypt_and_protect(
            out,
            header_len,
            payload_start,
            frame_len + pad,
            pn,
            pn_len,
            is_long,
            k,
        ),
        None => Err(Error::Crypto),
    }
}

impl<
    C: CryptoProvider,
    const MAX_STREAMS: usize,
    const SENT_PER_SPACE: usize,
    const MAX_CIDS: usize,
> Connection<C, MAX_STREAMS, SENT_PER_SPACE, MAX_CIDS> {
    /// Build and encrypt an Initial packet with proper padding.
    ///
    /// Used only for CONNECTION_CLOSE at Initial level. Normal Initial
    /// packets are built in place by `build_initial_packet`.
    pub fn build_and_encrypt_initial_packet<A: Aead, HP: HeaderProtection>(
        &mut self,
        payload_frames: &[u8],
        pad_to_min: bool,
        out: &mut [u8],
        now: Instant,
        send: &DirectionalKeys<A, HP>,
    ) -> (r: Result<usize, Error>)
        requires
            old(self).wf(),
            old(self)@.number_left(Level::Initial),
            payload_frames@.len() + 2000 <= usize::MAX,
        ensures
            final(self).wf(),
            final(self).handshake_slot == old(self).handshake_slot,
            final(out)@.len() == old(out)@.len(),
            ({
                let pkt = closing_initial(
                    old(self)@,
                    payload_frames@,
                    pad_to_min,
                    send@,
                    old(out)@.len() as int,
                );
                &&& final(self)@ == settled_result(old(self)@, Level::Initial, pkt, now)
                &&& match pkt {
                    Ok(b) => r == Ok::<usize, Error>(b.len() as usize) && b.len() <= old(
                        out)@.len() && final(out)@.take(b.len() as int) == b,
                    Err(e) => r == Err::<usize, Error>(e),
                }
            }),
    {
        let ghost m0 = self@;
        let cap = out.len();
        let pn = self.next_pn[0];
        let largest_acked = self.largest_recv_pn[0].unwrap_or(0);
        let pn_len = packet::pn_length(pn, largest_acked);
        let dcid_len = self.remote_cid.len as usize;
        let scid_len = self.local_cid_slice().len();
        let frame_len = payload_frames.len();
        let pad = compute_initial_padding(dcid_len, scid_len, pn_len, frame_len, pad_to_min);
        let payload_length = pn_len + frame_len + pad + TAG_LEN;
        proof {
            packet::lemma_header_lens(
                m0.remote_cid,
                m0.local_cid,
                Seq::empty(),
                pn_len as int,
                payload_length as int,
            );
        }
        let token: &[u8] = &[];
        assert(token@ =~= Seq::<u8>::empty());
        let encoded = packet::encode_initial_header(
            self.remote_cid.as_slice(),
            self.local_cid_slice(),
            token,
            pn_len,
            payload_length,
            out,
        );
        let header_len = match encoded {
            Ok(n) => n,
            Err(e) => {
                return Err(e);
            },
        };
        assert(out@.take(header_len as int) =~= packet::initial_header(
            m0.remote_cid,
            m0.local_cid,
            Seq::empty(),
            pn_len as int,
            payload_length as int,
        ));
        let result = seal_frames(
            out,
            header_len,
            pn,
            largest_acked,
            payload_frames,
            pad,
            true,
            Some(send),
        );
        match result {
            Ok(total) => {
                self.commit_sent(Level::Initial, total, true, now);
            },
            Err(_) => {},
        }
        result
    }

    /// Build, encrypt, and apply header protection for a Handshake or short packet.
    ///
    /// Used only for CONNECTION_CLOSE. Normal packets are built in place
    /// by `build_handshake_packet` / `build_short_packet`.
    pub fn build_and_encrypt_packet(
        &mut self,
        level: Level,
        payload_frames: &[u8],
        out: &mut [u8],
        now: Instant,
    ) -> (r: Result<usize, Error>)
        requires
            old(self).wf(),
            old(self)@.number_left(level),
            payload_frames@.len() + 2000 <= usize::MAX,
        ensures
            final(self).wf(),
            final(self).handshake_slot == old(self).handshake_slot,
            final(out)@.len() == old(out)@.len(),
            ({
                let pkt = closing_packet(
                    old(self)@,
                    level,
                    payload_frames@,
                    old(out)@.len() as int,
                );
                &&& final(self)@ == settled_result(old(self)@, level, pkt, now)
                &&& match pkt {
                    Ok(b) => r == Ok::<usize, Error>(b.len() as usize) && b.len() <= old(
                        out)@.len() && final(out)@.take(b.len() as int) == b,
                    Err(e) => r == Err::<usize, Error>(e),
                }
            }),
    {
        let ghost m0 = self@;
        let cap = out.len();
        let idx = crypto::level_index(level);
        let pn = self.next_pn[idx];
        let largest_acked = self.largest_recv_pn[idx].unwrap_or(0);
        let pn_len = packet::pn_length(pn, largest_acked);
        let frame_len = payload_frames.len();
        let pad: usize = if frame_len < 4 && frame_len + pn_len < 4 {
            4 - frame_len - pn_len
        } else {
            0
        };
        let (encoded, is_long) = match level {
            Level::Handshake => {
                let payload_length = pn_len + frame_len + pad + TAG_LEN;
                proof {
                    packet::lemma_header_lens(
                        m0.remote_cid,
                        m0.local_cid,
                        Seq::empty(),
                        pn_len as int,
                        payload_length as int,
                    );
                }
                (
                    packet::encode_handshake_header(
                        self.remote_cid.as_slice(),
                        self.local_cid_slice(),
                        pn_len,
                        payload_length,
                        out,
                    ),
                    true,
                )
            },
            Level::Application => {
                let first_byte: u8 = 0x40 + 4 * (self.keys.key_phase() % 2) + (pn_len as u8 - 1);
                (packet::encode_short_header(self.remote_cid.as_slice(), first_byte, out), false)
            },
            Level::Initial => {
                return Err(Error::InvalidState);
            },
        };
        let header_len = match encoded {
            Ok(n) => n,
            Err(e) => {
                return Err(e);
            },
        };
        proof {
            let header = if level == Level::Handshake {
                packet::handshake_header(
                    m0.remote_cid,
                    m0.local_cid,
                    pn_len as int,
                    pn_len + frame_len + pad + TAG_LEN,
                )
            } else {
                packet::short_header(
                    m0.remote_cid,
                    (0x40 + 4 * (m0.keys.phase % 2) + pn_len - 1) as u8,
                )
            };
            assert(out@.take(header_len as int) =~= header);
        }
        let result = seal_frames(
            out,
            header_len,
            pn,
            largest_acked,
            payload_frames,
            pad,
            is_long,
            self.keys.send_keys(level),
        );
        match result {
            Ok(total) => {
                self.commit_sent(level, total, true, now);
            },
            Err(_) => {},
        }
        result
    }
}

/// An Initial packet uses up one packet number of its own level and nothing of
/// the other levels.
pub proof fn lemma_initial_keeps<C: CryptoProvider>(
    m: ConnModel<C>,
    pool: Seq<Option<CtxModel<C>>>,
    cap: int,
    crypto_cap: int,
    now: Instant,
)
    requires
        m.next_pn.len() == 3,
        m.number_left(Level::Initial),
    ensures
        ({
            let (r, _, pkt) = initial_step(m, pool, cap, crypto_cap, now);
            &&& r == (ConnModel {
                next_pn: r.next_pn,
                ack_due: r.ack_due,
                sent: r.sent,
                loss: r.loss,
                congestion: r.congestion,
                ..m
            })
            &&& r.next_pn.len() == 3
            &&& r.pn(Level::Initial) == m.pn(Level::Initial) + (if pkt is Some {
                1int
            } else {
                0int
            })
            &&& r.pn(Level::Handshake) == m.pn(Level::Handshake)
            &&& r.pn(Level::Application) == m.pn(Level::Application)
        }),
{
    reveal(initial_step);
}

/// A Handshake packet uses up one packet number of its own level and nothing of
/// the other levels.
pub proof fn lemma_handshake_keeps<C: CryptoProvider>(
    m: ConnModel<C>,
    pool: Seq<Option<CtxModel<C>>>,
    cap: int,
    crypto_cap: int,
    now: Instant,
)
    requires
        m.next_pn.len() == 3,
        m.number_left(Level::Handshake),
    ensures
        ({
            let (r, _, pkt) = handshake_step(m, pool, cap, crypto_cap, now);
            &&& r == (ConnModel {
                next_pn: r.next_pn,
                ack_due: r.ack_due,
                sent: r.sent,
                loss: r.loss,
                congestion: r.congestion,
                ..m
            })
            &&& r.next_pn.len() == 3
            &&& r.pn(Level::Handshake) == m.pn(Level::Handshake) + (if pkt is Some {
                1int
            } else {
                0int
            })
            &&& r.pn(Level::Initial) == m.pn(Level::Initial)
            &&& r.pn(Level::Application) == m.pn(Level::Application)
        }),
{
    reveal(handshake_step);
}

} // verus!
