//! Datagrams: what a connection sends next.

use vstd::prelude::*;

use crate::connection::handshake_pool::{CtxModel, HandshakePool};
use crate::connection::io::{EntryModel, QuicStreamIoBufs};
use crate::connection::transmit;
use crate::connection::{self, ConnModel, Connection, ConnectionState, Transmit};
use crate::crypto::{CryptoProvider, Level};
use crate::error::Error;
use crate::frame::{self, ConnectionCloseFrame, Frame};
use crate::tls::Role;
use crate::transport::Instant;

verus! {

/// What polling for a datagram changes and gives.
#[verifier::ext_equal]
#[verifier::reject_recursive_types(C)]
pub struct Polled<C: CryptoProvider> {
    pub conn: ConnModel<C>,
    pub queue: Seq<EntryModel>,
    pub pool: Seq<Option<CtxModel<C>>>,
    pub datagram: Option<Seq<u8>>,
}

/// How much of CONNECTION_CLOSE is carried.
pub const CLOSE_FRAME_CAP: usize = 128;

/// The highest level that packets can be sent at.
pub open spec fn close_level<C: CryptoProvider>(m: ConnModel<C>) -> Option<Level> {
    if m.keys.has(Level::Application) {
        Some(Level::Application)
    } else if m.keys.has(Level::Handshake) {
        Some(Level::Handshake)
    } else if m.keys.has(Level::Initial) {
        Some(Level::Initial)
    } else {
        None
    }
}

/// The packet that carries CONNECTION_CLOSE at `level`.
pub open spec fn close_packet<C: CryptoProvider>(
    m: ConnModel<C>,
    level: Level,
    frames: Seq<u8>,
    cap: int,
) -> Result<Seq<u8>, Error> {
    if level == Level::Initial {
        transmit::closing_initial(m, frames, m.role == Role::Client, m.keys.initial->0, cap)
    } else {
        transmit::closing_packet(m, level, frames, cap)
    }
}

/// Sending CONNECTION_CLOSE at the highest level available. Whether or not a
/// packet could be made, the connection is closed afterwards; only without any
/// keys it stays as it is.
#[verifier::opaque]
pub open spec fn close_step<C: CryptoProvider>(
    m: ConnModel<C>,
    code: u64,
    reason: Seq<u8>,
    cap: int,
    now: Instant,
) -> (ConnModel<C>, Option<Seq<u8>>) {
    match close_level(m) {
        Some(level) => match frame::fitted(
            frame::close_parts(false, code, 0, reason),
            CLOSE_FRAME_CAP as int,
        ) {
            Some(f) => {
                let pkt = close_packet(m, level, f, cap);
                let m1 = transmit::settled_result(m, level, pkt, now);
                (
                    ConnModel { state: ConnectionState::Closed, ..m1 },
                    match pkt {
                        Ok(p) => Some(p),
                        Err(_) => None,
                    },
                )
            },
            None => (ConnModel { state: ConnectionState::Closed, ..m }, None),
        },
        None => (m, None),
    }
}

/// The connection with a usable application key: an exhausted one is replaced;
/// `None` if that fails.
pub open spec fn with_fresh_keys<C: CryptoProvider>(m: ConnModel<C>) -> Option<ConnModel<C>> {
    if m.keys.exhausted() {
        match m.keys.updated(m.crypto) {
            Ok(keys) => Some(ConnModel { keys, ..m }),
            Err(_) => None,
        }
    } else {
        Some(m)
    }
}

/// A pending rewind makes the handshake flights unsent again.
pub open spec fn with_rewind<C: CryptoProvider>(
    m: ConnModel<C>,
    pool: Seq<Option<CtxModel<C>>>,
) -> (ConnModel<C>, Seq<Option<CtxModel<C>>>) {
    if m.rewind_pending {
        (
            ConnModel { rewind_pending: false, ..m },
            match m.slot {
                Some(s) => pool.update(s as int, Some((pool[s as int]->0).rewound())),
                None => pool,
            },
        )
    } else {
        (m, pool)
    }
}

/// The bytes of a packet, if there is one.
pub open spec fn packet_bytes(pkt: Option<Seq<u8>>) -> Seq<u8> {
    match pkt {
        Some(p) => p,
        None => Seq::empty(),
    }
}

/// The Initial packet, if there are keys for it.
pub open spec fn try_initial<C: CryptoProvider>(
    m: ConnModel<C>,
    pool: Seq<Option<CtxModel<C>>>,
    cap: int,
    crypto_cap: int,
    now: Instant,
) -> (ConnModel<C>, Seq<Option<CtxModel<C>>>, Option<Seq<u8>>) {
    if m.keys.has(Level::Initial) {
        transmit::initial_step(m, pool, cap, crypto_cap, now)
    } else {
        (m, pool, None)
    }
}

/// The Handshake packet, if there are keys for it.
pub open spec fn try_handshake<C: CryptoProvider>(
    m: ConnModel<C>,
    pool: Seq<Option<CtxModel<C>>>,
    cap: int,
    crypto_cap: int,
    now: Instant,
) -> (ConnModel<C>, Seq<Option<CtxModel<C>>>, Option<Seq<u8>>) {
    if m.keys.has(Level::Handshake) {
        transmit::handshake_step(m, pool, cap, crypto_cap, now)
    } else {
        (m, pool, None)
    }
}

/// The short packet, if there are keys for it.
pub open spec fn try_short<C: CryptoProvider>(
    m: ConnModel<C>,
    queue: Seq<EntryModel>,
    cap: int,
    now: Instant,
) -> (ConnModel<C>, Seq<EntryModel>, Option<Seq<u8>>) {
    if m.keys.has(Level::Application) {
        transmit::short_step(m, queue, cap, now)
    } else {
        (m, queue, None)
    }
}

/// One datagram of up to `cap` bytes: Initial, Handshake and short packet, in
/// this order, as far as each has something to send. Between the last two the
/// handshake slot is freed if nothing needs it any more.
#[verifier::opaque]
pub open spec fn coalesced<C: CryptoProvider>(
    m: ConnModel<C>,
    queue: Seq<EntryModel>,
    pool: Seq<Option<CtxModel<C>>>,
    cap: int,
    crypto_cap: int,
    now: Instant,
) -> Polled<C> {
    let (m1, p1, k1) = try_initial(m, pool, cap, crypto_cap, now);
    let b1 = packet_bytes(k1);
    let (m2, p2, k2) = try_handshake(m1, p1, cap - b1.len(), crypto_cap, now);
    let b2 = b1 + packet_bytes(k2);
    let (m3, p3) = connection::released(m2, p2);
    let (m4, q4, k4) = try_short(m3, queue, cap - b2.len(), now);
    let b4 = b2 + packet_bytes(k4);
    Polled {
        conn: m4,
        queue: q4,
        pool: p3,
        datagram: if b4.len() > 0 {
            Some(b4)
        } else {
            None
        },
    }
}

/// The anti-amplification limit on a finished datagram: one that exceeds it is
/// not sent, one within it is counted.
pub open spec fn limited<C: CryptoProvider>(p: Polled<C>) -> Polled<C> {
    match p.datagram {
        Some(d) => if !p.conn.may_send(d.len() as int) {
            Polled { datagram: None, ..p }
        } else if p.conn.address_validated {
            p
        } else {
            Polled {
                conn: ConnModel {
                    bytes_sent: if p.conn.bytes_sent + d.len() <= usize::MAX {
                        (p.conn.bytes_sent + d.len()) as usize
                    } else {
                        usize::MAX
                    },
                    ..p.conn
                },
                ..p
            }
        },
        None => p,
    }
}

/// What happens before anything is written: a closed connection and one at its
/// anti-amplification limit send nothing, an exhausted key is replaced (or the
/// connection closed), a pending rewind is carried out. The flag says whether to
/// go on.
pub open spec fn prepared<C: CryptoProvider>(m: ConnModel<C>, pool: Seq<Option<CtxModel<C>>>) -> (
    ConnModel<C>,
    Seq<Option<CtxModel<C>>>,
    bool,
) {
    if m.state == ConnectionState::Closed || !m.may_send(1) {
        (m, pool, false)
    } else {
        match with_fresh_keys(m) {
            Some(m1) => {
                let (m2, pool2) = with_rewind(m1, pool);
                (m2, pool2, true)
            },
            None => (ConnModel { state: ConnectionState::Closed, ..m }, pool, false),
        }
    }
}

/// What polling for a datagram of up to `cap` bytes does.
pub open spec fn polled<C: CryptoProvider>(
    m: ConnModel<C>,
    queue: Seq<EntryModel>,
    pool: Seq<Option<CtxModel<C>>>,
    cap: int,
    crypto_cap: int,
    now: Instant,
) -> Polled<C> {
    let (m1, pool1, go_on) = prepared(m, pool);
    if !go_on {
        Polled { conn: m1, queue, pool: pool1, datagram: None }
    } else {
        match m1.close_frame {
            Some((code, reason)) => {
                let (m2, datagram) = close_step(m1, code, reason, cap, now);
                Polled { conn: m2, queue, pool: pool1, datagram }
            },
            None => limited(coalesced(m1, queue, pool1, cap, crypto_cap, now)),
        }
    }
}

impl<
    C: CryptoProvider,
    const MAX_STREAMS: usize,
    const SENT_PER_SPACE: usize,
    const MAX_CIDS: usize,
> Connection<C, MAX_STREAMS, SENT_PER_SPACE, MAX_CIDS> {
    /// Sends CONNECTION_CLOSE at the highest level available.
    fn send_close(&mut self, error_code: u64, reason: &[u8], buf: &mut [u8], now: Instant) -> (r:
        Option<usize>)
        requires
            old(self).wf(),
            old(self).numbers_left(),
        ensures
            final(self).wf(),
            final(self).handshake_slot == old(self).handshake_slot,
            final(buf)@.len() == old(buf)@.len(),
            ({
                let (m, d) = close_step(
                    old(self)@,
                    error_code,
                    reason@,
                    old(buf)@.len() as int,
                    now,
                );
                &&& final(self)@ == m
                &&& match d {
                    Some(b) => r == Some(b.len() as usize) && b.len() <= old(buf)@.len() && final(
                        buf)@.take(b.len() as int) == b,
                    None => r is None,
                }
            }),
    {
        reveal(close_step);
        let cap = buf.len();
        let level = if self.keys.has_send_keys(Level::Application) {
            Level::Application
        } else if self.keys.has_send_keys(Level::Handshake) {
            Level::Handshake
        } else if self.keys.has_send_keys(Level::Initial) {
            Level::Initial
        } else {
            return None;
        };
        let mut frame_buf: [u8; 128] = [0u8; 128];
        let close_frame = Frame::ConnectionClose(
            ConnectionCloseFrame { is_application: false, error_code, frame_type: 0, reason },
        );
        let mut sent: Option<usize> = None;
        match frame::encode(&close_frame, &mut frame_buf) {
            Ok(frame_len) => {
                let frames = frame_buf.as_slice().split_at(frame_len).0;
                assert(frames@ =~= frame::fitted(
                    frame::close_parts(false, error_code, 0, reason@),
                    128,
                )->0);
                let result = match level {
                    Level::Initial => {
                        let is_client = self.role == Role::Client;
                        let ghost m0 = self@;
                        let send = self.keys.initial_send.take();
                        let r = match &send {
                            Some(k) => self.build_and_encrypt_initial_packet(
                                frames,
                                is_client,
                                buf,
                                now,
                                k,
                            ),
                            None => Err(Error::Crypto),
                        };
                        self.keys.initial_send = send;
                        r
                    },
                    _ => self.build_and_encrypt_packet(level, frames, buf, now),
                };
                match result {
                    Ok(pkt_len) => {
                        sent = Some(pkt_len);
                    },
                    Err(_) => {},
                }
            },
            Err(_) => {},
        }
        self.state = ConnectionState::Closed;
        sent
    }

    /// Writes the Initial packet, if there is something to send.
    fn send_initial<const SLOTS: usize, const CRYPTO_BUF: usize>(
        &mut self,
        buf: &mut [u8],
        now: Instant,
        pool: &mut HandshakePool<C, SLOTS, CRYPTO_BUF>,
    ) -> (n: usize)
        requires
            old(self).wf(),
            old(self)@.number_left(Level::Initial),
            old(pool).wf(),
            old(self).slot_ok(old(pool)),
        ensures
            final(self).wf(),
            final(pool).wf(),
            final(self).slot_ok(final(pool)),
            final(buf)@.len() == old(buf)@.len(),
            ({
                let (m, p, pkt) = try_initial(
                    old(self)@,
                    old(pool)@,
                    old(buf)@.len() as int,
                    CRYPTO_BUF as int,
                    now,
                );
                &&& final(self)@ == m
                &&& final(pool)@ == p
                &&& n == packet_bytes(pkt).len()
                &&& n <= old(buf)@.len()
                &&& final(buf)@.take(n as int) == packet_bytes(pkt)
            }),
    {
        let cap = buf.len();
        assert(buf@.take(0) =~= Seq::<u8>::empty());
        if self.keys.has_send_keys(Level::Initial) {
            match self.build_initial_packet(buf, now, pool) {
                Some(pkt_len) => pkt_len,
                None => {
                    assert(buf@.take(0) =~= Seq::<u8>::empty());
                    0
                },
            }
        } else {
            0
        }
    }

    /// Writes the Handshake packet, if there is something to send.
    fn send_handshake<const SLOTS: usize, const CRYPTO_BUF: usize>(
        &mut self,
        buf: &mut [u8],
        now: Instant,
        pool: &mut HandshakePool<C, SLOTS, CRYPTO_BUF>,
    ) -> (n: usize)
        requires
            old(self).wf(),
            old(self)@.number_left(Level::Handshake),
            old(pool).wf(),
            old(self).slot_ok(old(pool)),
        ensures
            final(self).wf(),
            final(pool).wf(),
            final(self).slot_ok(final(pool)),
            final(buf)@.len() == old(buf)@.len(),
            ({
                let (m, p, pkt) = try_handshake(
                    old(self)@,
                    old(pool)@,
                    old(buf)@.len() as int,
                    CRYPTO_BUF as int,
                    now,
                );
                &&& final(self)@ == m
                &&& final(pool)@ == p
                &&& n == packet_bytes(pkt).len()
                &&& n <= old(buf)@.len()
                &&& final(buf)@.take(n as int) == packet_bytes(pkt)
            }),
    {
        let cap = buf.len();
        assert(buf@.take(0) =~= Seq::<u8>::empty());
        if self.keys.has_send_keys(Level::Handshake) {
            match self.build_handshake_packet(buf, now, pool) {
                Some(pkt_len) => pkt_len,
                None => {
                    assert(buf@.take(0) =~= Seq::<u8>::empty());
                    0
                },
            }
        } else {
            0
        }
    }

    /// Writes the short packet, if there is something to send.
    fn send_short<const STREAM_BUF: usize, const SEND_QUEUE: usize>(
        &mut self,
        sio: &mut QuicStreamIoBufs<STREAM_BUF, SEND_QUEUE>,
        buf: &mut [u8],
        now: Instant,
    ) -> (n: usize)
        requires
            old(self).wf(),
            old(self)@.number_left(Level::Application),
        ensures
            final(self).wf(),
            final(self).handshake_slot == old(self).handshake_slot,
            final(buf)@.len() == old(buf)@.len(),
            ({
                let (m, q, pkt) = try_short(old(self)@, old(sio)@, old(buf)@.len() as int, now);
                &&& final(self)@ == m
                &&& final(sio)@ == q
                &&& n == packet_bytes(pkt).len()
                &&& n <= old(buf)@.len()
                &&& final(buf)@.take(n as int) == packet_bytes(pkt)
            }),
    {
        let cap = buf.len();
        assert(buf@.take(0) =~= Seq::<u8>::empty());
        if self.keys.has_send_keys(Level::Application) {
            match self.build_short_packet(sio, buf, now) {
                Some(pkt_len) => pkt_len,
                None => {
                    assert(buf@.take(0) =~= Seq::<u8>::empty());
                    0
                },
            }
        } else {
            0
        }
    }

    /// Writes the packets of one datagram and returns their total length.
    fn coalesce<
        const SLOTS: usize,
        const CRYPTO_BUF: usize,
        const STREAM_BUF: usize,
        const SEND_QUEUE: usize,
    >(
        &mut self,
        sio: &mut QuicStreamIoBufs<STREAM_BUF, SEND_QUEUE>,
        buf: &mut [u8],
        now: Instant,
        pool: &mut HandshakePool<C, SLOTS, CRYPTO_BUF>,
    ) -> (total: usize)
        requires
            old(self).wf(),
            old(self).numbers_left(),
            old(pool).wf(),
            old(self).slot_ok(old(pool)),
        ensures
            final(self).wf(),
            final(pool).wf(),
            final(self).slot_ok(final(pool)),
            final(buf)@.len() == old(buf)@.len(),
            ({
                let p = coalesced(
                    old(self)@,
                    old(sio)@,
                    old(pool)@,
                    old(buf)@.len() as int,
                    CRYPTO_BUF as int,
                    now,
                );
                &&& final(self)@ == p.conn
                &&& final(sio)@ == p.queue
                &&& final(pool)@ == p.pool
                &&& match p.datagram {
                    Some(b) => total == b.len() && total > 0 && b.len() <= old(buf)@.len()
                        && final(buf)@.take(total as int) == b,
                    None => total == 0,
                }
            }),
    {
        reveal(coalesced);
        let ghost m0 = self@;
        let ghost p0 = pool@;
        let cap = buf.len();

        // TLS ClientHello/ServerHello in CRYPTO frames, ACKs.
        let n1 = self.send_initial(buf, now, pool);
        let ghost (m1, p1, k1) = try_initial(m0, p0, cap as int, CRYPTO_BUF as int, now);
        let ghost b1 = packet_bytes(k1);
        let ghost s1 = buf@;
        proof {
            transmit::lemma_initial_keeps(m0, p0, cap as int, CRYPTO_BUF as int, now);
        }

        // TLS handshake messages in CRYPTO frames, ACKs.
        let n2 = {
            let (_, tail) = buf.split_at_mut(n1);
            self.send_handshake(tail, now, pool)
        };
        let ghost (m2, p2, k2) = try_handshake(m1, p1, cap - b1.len(), CRYPTO_BUF as int, now);
        let ghost b2 = b1 + packet_bytes(k2);
        let ghost s2 = buf@;
        proof {
            transmit::lemma_handshake_keeps(m1, p1, cap - b1.len(), CRYPTO_BUF as int, now);
            assert(s2.take(n1 as int) =~= s1.take(n1 as int));
            assert(s2.skip(n1 as int).take(n2 as int) =~= packet_bytes(k2));
            lemma_two_parts(s1, s2, b1, packet_bytes(k2));
        }

        // The engine may be complete now: a client's Finished is flushed here.
        self.maybe_release_handshake_slot(pool);

        // STREAM frames, ACKs, HANDSHAKE_DONE and other control frames.
        let n3 = {
            let (_, tail) = buf.split_at_mut(n1 + n2);
            self.send_short(sio, tail, now)
        };
        proof {
            let (m3, _) = connection::released(m2, p2);
            let k3 = try_short(m3, old(sio)@, cap - b2.len(), now).2;
            assert(buf@.take(n1 + n2) =~= s2.take(n1 + n2));
            assert(buf@.skip(n1 + n2).take(n3 as int) =~= packet_bytes(k3));
            lemma_two_parts(s2, buf@, b2, packet_bytes(k3));
        }
        n1 + n2 + n3
    }

    /// Checks whether anything may be sent and gets keys and handshake state
    /// ready for it.
    fn prepare<const SLOTS: usize, const CRYPTO_BUF: usize>(
        &mut self,
        pool: &mut HandshakePool<C, SLOTS, CRYPTO_BUF>,
    ) -> (go_on: bool)
        requires
            old(self).wf(),
            old(self).numbers_left(),
            old(pool).wf(),
            old(self).slot_ok(old(pool)),
        ensures
            final(self).wf(),
            final(self).numbers_left(),
            final(pool).wf(),
            final(self).slot_ok(final(pool)),
            (final(self)@, final(pool)@, go_on) == prepared(old(self)@, old(pool)@),
    {
        if self.state == ConnectionState::Closed {
            return false;
        }
        if !self.address_validated && !self.amplification_allows(1) {
            return false;
        }
        // An exhausted key must not be used again: update it or close.
        if self.keys.needs_key_update() {
            match self.keys.perform_key_update(&self.crypto) {
                Ok(()) => {},
                Err(_) => {
                    self.state = ConnectionState::Closed;
                    return false;
                },
            }
        }
        // Unacknowledged handshake flights are rebuilt below. Levels whose keys
        // were dropped no longer transmit, and the peer discards duplicate CRYPTO
        // ranges, so rewinding everything still retained is safe.
        if self.crypto_rewind_pending {
            self.crypto_rewind_pending = false;
            match self.handshake_slot {
                Some(slot) => {
                    let ctx = pool.get_mut(slot);
                    ctx.crypto_send_offset = [0u64, 0u64, 0u64];
                    assert(ctx@.sent =~= seq![0u64, 0u64, 0u64]);
                },
                None => {},
            }
        }
        true
    }

    /// Build the next outgoing UDP datagram. Returns `None` if nothing to send.
    ///
    /// The `pool` provides access to the shared handshake state for sending TLS
    /// CRYPTO frames. For post-handshake connections, only application-level
    /// frames are sent.
    pub fn poll_transmit<
        'a,
        const SLOTS: usize,
        const CRYPTO_BUF: usize,
        const STREAM_BUF: usize,
        const SEND_QUEUE: usize,
    >(
        &mut self,
        sio: &mut QuicStreamIoBufs<STREAM_BUF, SEND_QUEUE>,
        buf: &'a mut [u8],
        now: Instant,
        pool: &mut HandshakePool<C, SLOTS, CRYPTO_BUF>,
    ) -> (r: Option<Transmit<'a>>)
        requires
            old(self).wf(),
            old(self).numbers_left(),
            old(pool).wf(),
            old(self).slot_ok(old(pool)),
        ensures
            final(self).wf(),
            final(pool).wf(),
            final(self).slot_ok(final(pool)),
            ({
                let p = polled(
                    old(self)@,
                    old(sio)@,
                    old(pool)@,
                    old(buf)@.len() as int,
                    CRYPTO_BUF as int,
                    now,
                );
                &&& final(self)@ == p.conn
                &&& final(sio)@ == p.queue
                &&& final(pool)@ == p.pool
                &&& match p.datagram {
                    Some(d) => r matches Some(t) && t.data@ == d,
                    None => r is None,
                }
            }),
            final(buf)@.len() == old(buf)@.len(),
            !prepared(old(self)@, old(pool)@).2 ==> final(buf)@ == old(buf)@,
            old(self)@.state == ConnectionState::Closed ==> final(buf)@ == old(buf)@,
    {
        let cap = buf.len();
        if !self.prepare(pool) {
            return None;
        }
        match &self.close_frame {
            Some((error_code, reason)) => {
                let error_code = *error_code;
                let reason = crate::bytes::to_vec(reason.as_slice());
                match self.send_close(error_code, reason.as_slice(), buf, now) {
                    Some(total) => {
                        assert(buf@.subrange(0, total as int) =~= buf@.take(total as int));
                        return Some(Transmit { data: &buf[0..total] });
                    },
                    None => {
                        return None;
                    },
                }
            },
            None => {},
        }
        let total = self.coalesce(sio, buf, now, pool);
        if total == 0 {
            return None;
        }
        if !self.address_validated {
            if !self.amplification_allows(total) {
                return None;
            }
            self.anti_amplification_bytes_sent = self.anti_amplification_bytes_sent.saturating_add(
                total,
            );
        }
        assert(buf@.subrange(0, total as int) =~= buf@.take(total as int));
        Some(Transmit { data: &buf[0..total] })
    }
}

/// Bytes written behind the first ones.
proof fn lemma_two_parts(before: Seq<u8>, after: Seq<u8>, first: Seq<u8>, second: Seq<u8>)
    requires
        first.len() <= before.len(),
        before.take(first.len() as int) == first,
        after.len() == before.len(),
        after.take(first.len() as int) == before.take(first.len() as int),
        first.len() + second.len() <= before.len(),
        after.skip(first.len() as int).take(second.len() as int) == second,
    ensures
        after.take((first + second).len() as int) == first + second,
{
    assert(after.take((first + second).len() as int) =~= after.take(first.len() as int)
        + after.skip(first.len() as int).take(second.len() as int));
}

} // verus!
