//! QUIC connections.

use vstd::prelude::*;

use crate::bytes;
use crate::crypto::{self, CryptoProvider, DirectionalKeys, KeyModel, Level};
use crate::error::Error;
use crate::packet;
use crate::tls::{Role, TlsSession};
use crate::transport::congestion::CongestionController;
use crate::transport::flow_control::{FlowControl, RecvWindow};
use crate::transport::loss::LossDetector;
use crate::transport::recovery::{SentPacket, SentPacketTracker};
use crate::transport::stream::{self, StreamMap, StreamState};
use crate::transport::Instant;

use handshake_pool::{CtxModel, HandshakePool};
use io::{EntryModel, QuicStreamIoBufs, SendEntry};
use keys::{ConnectionKeys, KeysModel};
use recv_pn::RecvPnTracker;

pub mod ack;
pub mod ending;
pub mod frames;
pub mod handshake_pool;
pub mod headers;
pub mod io;
pub mod keys;
pub mod laws;
pub mod peer;
pub mod poll;
pub mod protect;
pub mod reading;
pub mod recv_pn;
pub mod telling;
pub mod transmit;

verus! {

/// A connection ID of at most 20 bytes.
#[derive(Debug, Clone, Copy)]
pub struct ConnectionId {
    pub bytes: [u8; 20],
    pub len: u8,
}

impl View for ConnectionId {
    type V = Seq<u8>;

    open spec fn view(&self) -> Seq<u8> {
        self.bytes@.take(self.len as int)
    }
}

impl ConnectionId {
    /// The length is within the array.
    pub open spec fn wf(&self) -> bool {
        self.len <= 20
    }

    /// The ID made of the given bytes.
    pub fn from_slice(id: &[u8]) -> (r: Option<Self>)
        ensures
            match r {
                Some(c) => c.wf() && c@ == id@,
                None => id@.len() > 20,
            },
    {
        if id.len() > 20 {
            return None;
        }
        let mut b: [u8; 20] = [0u8; 20];
        bytes::copy_at(&mut b, 0, id);
        let r = ConnectionId { bytes: b, len: id.len() as u8 };
        assert(r@ =~= id@);
        Some(r)
    }

    /// The bytes of the ID.
    pub fn as_slice(&self) -> (r: &[u8])
        requires
            self.wf(),
        ensures
            r@ == self@,
    {
        self.bytes.as_slice().split_at(self.len as usize).0
    }
}

/// Where a connection stands.
#[derive(Debug, Clone, Copy, PartialEq, Eq, Structural)]
pub enum ConnectionState {
    Handshaking,
    Active,
    Closing,
    Draining,
    Closed,
}

/// A datagram to send.
pub struct Transmit<'a> {
    pub data: &'a [u8],
}

/// The receive window of a new connection.
pub const CONNECTION_WINDOW: u64 = 262144;

/// The receive window of a new stream, and how much may be sent on it at first.
pub const STREAM_WINDOW: u64 = 65536;

/// A QUIC connection.
pub struct Connection<
    C: CryptoProvider,
    const MAX_STREAMS: usize,
    const SENT_PER_SPACE: usize,
    const MAX_CIDS: usize,
> {
    pub crypto: C,
    pub state: ConnectionState,
    pub role: Role,
    pub address_validated: bool,
    pub anti_amplification_bytes_received: usize,
    pub anti_amplification_bytes_sent: usize,
    pub keys: ConnectionKeys<C>,
    pub next_pn: [u64; 3],
    pub largest_recv_pn: [Option<u64>; 3],
    pub ack_eliciting_received: [bool; 3],
    pub recv_pn_tracker: [RecvPnTracker; 3],
    pub remote_cid: ConnectionId,
    pub local_cids: Vec<ConnectionId>,
    pub close_frame: Option<(u64, Vec<u8>)>,
    pub handshake_slot: Option<usize>,
    pub crypto_rewind_pending: bool,
    pub need_handshake_done: bool,
    pub pending_path_response: Option<[u8; 8]>,
    pub flow_control: FlowControl,
    pub streams: StreamMap,
    pub next_stream_id: u64,
    pub sent_tracker: SentPacketTracker<SENT_PER_SPACE>,
    pub loss_detector: LossDetector,
    pub congestion: CongestionController,
}

/// What a [`Connection`] holds.
#[verifier::ext_equal]
#[verifier::reject_recursive_types(C)]
pub struct ConnModel<C: CryptoProvider> {
    pub crypto: C,
    pub state: ConnectionState,
    pub role: Role,
    pub address_validated: bool,
    pub bytes_received: usize,
    pub bytes_sent: usize,
    pub keys: KeysModel<C>,
    pub next_pn: Seq<u64>,
    pub largest_recv_pn: Seq<Option<u64>>,
    pub ack_due: Seq<bool>,
    pub received: Seq<Seq<(u64, u64)>>,
    pub remote_cid: Seq<u8>,
    /// The first local connection ID; empty if there is none.
    pub local_cid: Seq<u8>,
    pub close_frame: Option<(u64, Seq<u8>)>,
    pub slot: Option<usize>,
    pub rewind_pending: bool,
    pub handshake_done_due: bool,
    pub path_response: Option<[u8; 8]>,
    pub flow: FlowControl,
    pub streams: Seq<StreamState>,
    pub next_stream_id: u64,
    pub sent: Seq<SentPacket>,
    pub sent_cap: nat,
    pub loss: LossDetector,
    pub congestion: CongestionController,
}

/// Whether `n` more bytes keep what was sent within three times of what was
/// received.
pub open spec fn within_three_times(sent: int, received: int, n: int) -> bool {
    sent + n <= 3 * received
}

impl<C: CryptoProvider> ConnModel<C> {
    /// The packet number that peers know of at a level.
    pub open spec fn largest_known(self, level: Level) -> u64 {
        match self.largest_recv_pn[crypto::level_number(level)] {
            Some(pn) => pn,
            None => 0,
        }
    }

    /// The next packet number of a level.
    pub open spec fn pn(self, level: Level) -> u64 {
        self.next_pn[crypto::level_number(level)]
    }

    /// Whether a packet can be numbered (and, at the application level, counted)
    /// at a level.
    pub open spec fn number_left(self, level: Level) -> bool {
        &&& self.pn(level) < u64::MAX
        &&& level == Level::Application ==> self.keys.packets_encrypted < u64::MAX
    }

    /// The length of the next packet number of a level.
    pub open spec fn pn_len(self, level: Level) -> nat {
        packet::pn_size(self.pn(level) as int, self.largest_known(level) as int)
    }

    /// The encoding of the next packet number of a level.
    pub open spec fn pn_bytes(self, level: Level) -> Seq<u8> {
        packet::pn_bytes(self.pn(level) as int, self.largest_known(level) as int)
    }

    /// Whether the anti-amplification limit leaves room for `n` more bytes.
    pub open spec fn may_send(self, n: int) -> bool {
        self.address_validated || within_three_times(
            self.bytes_sent as int,
            self.bytes_received as int,
            n,
        )
    }

    /// A packet of `size` bytes was sent at `level`: its number is used up, and
    /// it is tracked (if the tracker has room) and counted as in flight. Only one
    /// that elicits an acknowledgment restarts the loss timer.
    pub open spec fn after_sending(
        self,
        level: Level,
        size: nat,
        eliciting: bool,
        now: Instant,
    ) -> ConnModel<C> {
        let pkt = SentPacket {
            pn: self.pn(level),
            level,
            time_sent: now,
            size: size as u16,
            ack_eliciting: eliciting,
            in_flight: true,
        };
        ConnModel {
            next_pn: self.next_pn.update(
                crypto::level_number(level),
                (self.pn(level) + 1) as u64,
            ),
            sent: if self.sent.len() < self.sent_cap {
                self.sent.push(pkt)
            } else {
                self.sent
            },
            loss: if eliciting {
                self.loss.sent(level, now)
            } else {
                self.loss
            },
            congestion: self.congestion.sent(size as u64),
            keys: if level == Level::Application {
                self.keys.counted()
            } else {
                self.keys
            },
            ..self
        }
    }
}

impl<
    C: CryptoProvider,
    const MAX_STREAMS: usize,
    const SENT_PER_SPACE: usize,
    const MAX_CIDS: usize,
> View for Connection<C, MAX_STREAMS, SENT_PER_SPACE, MAX_CIDS> {
    type V = ConnModel<C>;

    open spec fn view(&self) -> ConnModel<C> {
        ConnModel {
            crypto: self.crypto,
            state: self.state,
            role: self.role,
            address_validated: self.address_validated,
            bytes_received: self.anti_amplification_bytes_received,
            bytes_sent: self.anti_amplification_bytes_sent,
            keys: self.keys@,
            next_pn: self.next_pn@,
            largest_recv_pn: self.largest_recv_pn@,
            ack_due: self.ack_eliciting_received@,
            received: seq![
                self.recv_pn_tracker@[0].ranges@,
                self.recv_pn_tracker@[1].ranges@,
                self.recv_pn_tracker@[2].ranges@,
            ],
            remote_cid: self.remote_cid@,
            local_cid: if self.local_cids@.len() == 0 {
                Seq::empty()
            } else {
                self.local_cids@[0]@
            },
            close_frame: match self.close_frame {
                Some((code, reason)) => Some((code, reason@)),
                None => None,
            },
            slot: self.handshake_slot,
            rewind_pending: self.crypto_rewind_pending,
            handshake_done_due: self.need_handshake_done,
            path_response: self.pending_path_response,
            flow: self.flow_control,
            streams: self.streams@,
            next_stream_id: self.next_stream_id,
            sent: self.sent_tracker@,
            sent_cap: SENT_PER_SPACE as nat,
            loss: self.loss_detector,
            congestion: self.congestion,
        }
    }
}

impl<
    C: CryptoProvider,
    const MAX_STREAMS: usize,
    const SENT_PER_SPACE: usize,
    const MAX_CIDS: usize,
> Connection<C, MAX_STREAMS, SENT_PER_SPACE, MAX_CIDS> {
    /// The internal invariant.
    pub open spec fn wf(&self) -> bool {
        &&& self.remote_cid.wf()
        &&& forall|i: int| 0 <= i < self.local_cids@.len() ==> (#[trigger] self.local_cids@[i]).wf()
        &&& forall|i: int| 0 <= i < 3 ==> (#[trigger] self.recv_pn_tracker@[i]).wf()
        &&& stream::distinct_ids(self.streams@)
        &&& self.keys@.secret.len() <= 48
        &&& SENT_PER_SPACE < usize::MAX
    }

    /// No packet number space and no key counter is used up.
    pub open spec fn numbers_left(&self) -> bool {
        &&& self@.number_left(Level::Initial)
        &&& self@.number_left(Level::Handshake)
        &&& self@.number_left(Level::Application)
    }

    /// What writing frames leaves alone: addressing, keys, packet numbers, role
    /// and handshake slot.
    pub open spec fn same_base(&self, other: &Self) -> bool {
        &&& self.next_pn == other.next_pn
        &&& self.largest_recv_pn == other.largest_recv_pn
        &&& self.keys == other.keys
        &&& self.remote_cid == other.remote_cid
        &&& self.local_cids == other.local_cids
        &&& self.role == other.role
        &&& self.need_handshake_done == other.need_handshake_done
        &&& self.handshake_slot == other.handshake_slot
    }

    /// The handshake slot, if the connection has one, is in use.
    pub open spec fn slot_ok<const SLOTS: usize, const CRYPTO_BUF: usize>(
        &self,
        pool: &HandshakePool<C, SLOTS, CRYPTO_BUF>,
    ) -> bool {
        self.handshake_slot matches Some(s) ==> pool.occupied(s as int)
    }

    fn start(crypto: C, role: Role, remote_cid: ConnectionId, local_cid: ConnectionId, slot: usize) -> (r:
        Self)
        requires
            remote_cid.wf(),
            local_cid.wf(),
            SENT_PER_SPACE < usize::MAX,
        ensures
            r.wf(),
            r@ == start_model(
                crypto,
                role,
                remote_cid@,
                local_cid@,
                slot,
                SENT_PER_SPACE as nat,
            ),
    {
        let mut local_cids: Vec<ConnectionId> = Vec::new();
        local_cids.push(local_cid);
        let r = Connection {
            crypto,
            state: ConnectionState::Handshaking,
            role,
            address_validated: role == Role::Client,
            anti_amplification_bytes_received: 0,
            anti_amplification_bytes_sent: 0,
            keys: ConnectionKeys::new(),
            next_pn: [0u64, 0u64, 0u64],
            largest_recv_pn: [None, None, None],
            ack_eliciting_received: [false, false, false],
            recv_pn_tracker: [RecvPnTracker::new(), RecvPnTracker::new(), RecvPnTracker::new()],
            remote_cid,
            local_cids,
            close_frame: None,
            handshake_slot: Some(slot),
            crypto_rewind_pending: false,
            need_handshake_done: role == Role::Server,
            pending_path_response: None,
            flow_control: FlowControl::new(CONNECTION_WINDOW),
            streams: StreamMap::new(),
            next_stream_id: if role == Role::Client {
                0
            } else {
                1
            },
            sent_tracker: SentPacketTracker::new(),
            loss_detector: LossDetector::new(),
            congestion: CongestionController::new(),
        };
        proof {
            assert(r@.next_pn =~= seq![0u64, 0u64, 0u64]);
            assert(r@.largest_recv_pn =~= seq![None::<u64>, None::<u64>, None::<u64>]);
            assert(r@.ack_due =~= seq![false, false, false]);
        }
        r
    }

    /// A client connection: the engine goes into a slot of the pool, and the
    /// Initial keys are known from the start. `None` if the pool is full.
    pub fn client<const SLOTS: usize, const CRYPTO_BUF: usize>(
        crypto: C,
        tls: C::Tls,
        initial_keys: DirectionalKeys<C::InitialAead, C::InitialHeaderProtection>,
        remote_cid: ConnectionId,
        local_cid: ConnectionId,
        pool: &mut HandshakePool<C, SLOTS, CRYPTO_BUF>,
    ) -> (r: Option<Self>)
        requires
            remote_cid.wf(),
            local_cid.wf(),
            old(pool).wf(),
            SENT_PER_SPACE < usize::MAX,
        ensures
            final(pool).wf(),
            match r {
                Some(c) => {
                    &&& c.wf() && c.numbers_left() && c.slot_ok(final(pool))
                    &&& c.handshake_slot matches Some(slot) && old(pool)@[slot as int] is None
                        && final(pool)@ == old(pool)@.update(
                        slot as int,
                        Some(handshake_pool::fresh::<C>(tls)),
                    ) && c@ == client_model(
                        crypto,
                        remote_cid@,
                        local_cid@,
                        slot,
                        SENT_PER_SPACE as nat,
                        initial_keys@,
                    )
                },
                None => final(pool)@ == old(pool)@ && forall|j: int|
                    0 <= j < old(pool)@.len() ==> (#[trigger] old(pool)@[j]) is Some,
            },
    {
        match pool.claim(tls) {
            Some(slot) => {
                let mut c = Self::start(crypto, Role::Client, remote_cid, local_cid, slot);
                proof {
                    pool.lemma_occupied(slot as int);
                    assert(c.next_pn@ == c@.next_pn);
                }
                c.keys.initial_send = Some(initial_keys);
                Some(c)
            },
            None => None,
        }
    }

    /// A server connection, which learns its Initial keys from the client.
    /// `None` if the pool is full.
    pub fn server<const SLOTS: usize, const CRYPTO_BUF: usize>(
        crypto: C,
        tls: C::Tls,
        remote_cid: ConnectionId,
        local_cid: ConnectionId,
        pool: &mut HandshakePool<C, SLOTS, CRYPTO_BUF>,
    ) -> (r: Option<Self>)
        requires
            remote_cid.wf(),
            local_cid.wf(),
            old(pool).wf(),
            SENT_PER_SPACE < usize::MAX,
        ensures
            final(pool).wf(),
            match r {
                Some(c) => {
                    &&& c.wf() && c.numbers_left() && c.slot_ok(final(pool))
                    &&& c.handshake_slot matches Some(slot) && old(pool)@[slot as int] is None
                        && final(pool)@ == old(pool)@.update(
                        slot as int,
                        Some(handshake_pool::fresh::<C>(tls)),
                    ) && c@ == start_model(
                        crypto,
                        Role::Server,
                        remote_cid@,
                        local_cid@,
                        slot,
                        SENT_PER_SPACE as nat,
                    )
                },
                None => final(pool)@ == old(pool)@ && forall|j: int|
                    0 <= j < old(pool)@.len() ==> (#[trigger] old(pool)@[j]) is Some,
            },
    {
        match pool.claim(tls) {
            Some(slot) => {
                let c = Self::start(crypto, Role::Server, remote_cid, local_cid, slot);
                proof {
                    pool.lemma_occupied(slot as int);
                    assert(c.next_pn@ == c@.next_pn);
                }
                Some(c)
            },
            None => None,
        }
    }

    /// Where the connection stands.
    pub fn state(&self) -> (r: ConnectionState)
        ensures
            r == self.state,
    {
        self.state
    }

    /// Whether the handshake is done and the connection open.
    pub fn is_established(&self) -> (r: bool)
        ensures
            r == (self.state == ConnectionState::Active),
    {
        self.state == ConnectionState::Active
    }

    /// Whether the connection is over.
    pub fn is_closed(&self) -> (r: bool)
        ensures
            r == (self.state == ConnectionState::Closed),
    {
        self.state == ConnectionState::Closed
    }

    /// Starts closing: the next datagram carries CONNECTION_CLOSE. A connection
    /// that is over stays as it is.
    pub fn close(&mut self, error_code: u64, reason: &[u8])
        requires
            old(self).wf(),
        ensures
            final(self).wf(),
            final(self)@ == closing(old(self)@, error_code, reason@),
    {
        if self.state != ConnectionState::Closed {
            self.close_frame = Some((error_code, bytes::to_vec(reason)));
            self.state = ConnectionState::Closing;
        }
    }

    /// Records a received packet number.
    pub fn track_received_pn(&mut self, level: Level, pn: u64)
        requires
            old(self).wf(),
        ensures
            final(self).wf(),
            final(self)@ == (ConnModel { received: final(self)@.received, ..old(self)@ }),
            ({
                let i = crypto::level_number(level);
                let before = old(self)@.received[i];
                let after = final(self)@.received[i];
                &&& forall|j: int|
                    0 <= j < 3 && j != i ==> #[trigger] final(self)@.received[j] == old(
                        self)@.received[j]
                &&& forall|x: u64| #[trigger]
                    recv_pn::holds(after, x) == recv_pn::remembered(before, pn, x)
            }),
    {
        let idx = crypto::level_index(level);
        self.recv_pn_tracker[idx].track(pn);
    }

    /// Whether the anti-amplification limit (three times what was received)
    /// leaves room for `n` more bytes.
    pub fn amplification_allows(&self, n: usize) -> (r: bool)
        ensures
            r == within_three_times(
                self.anti_amplification_bytes_sent as int,
                self.anti_amplification_bytes_received as int,
                n as int,
            ),
    {
        self.anti_amplification_bytes_sent as u128 + n as u128 <= 3
            * self.anti_amplification_bytes_received as u128
    }

    /// Frees the handshake slot once the connection is established, the engine
    /// is done and everything it produced was sent.
    pub fn maybe_release_handshake_slot<const SLOTS: usize, const CRYPTO_BUF: usize>(
        &mut self,
        pool: &mut HandshakePool<C, SLOTS, CRYPTO_BUF>,
    )
        requires
            old(self).wf(),
            old(pool).wf(),
            old(self).slot_ok(old(pool)),
        ensures
            final(self).wf(),
            final(pool).wf(),
            final(self).slot_ok(final(pool)),
            (final(self)@, final(pool)@) == released(old(self)@, old(pool)@),
    {
        let slot = match self.handshake_slot {
            Some(s) => s,
            None => {
                return ;
            },
        };
        if self.state != ConnectionState::Active {
            return ;
        }
        let done = match &pool.slots[slot] {
            Some(ctx) => ctx.tls.is_complete() && ctx.all_sent(),
            None => false,
        };
        assert(pool@[slot as int] == Some(pool.slots@[slot as int]->0@));
        if done {
            pool.release(slot);
            self.handshake_slot = None;
        }
    }

    /// Opens a stream and returns its ID.
    pub fn open_stream(&mut self) -> (r: Result<u64, Error>)
        requires
            old(self).wf(),
        ensures
            final(self).wf(),
            (final(self)@, r) == stream_opened(old(self)@, MAX_STREAMS as int),
    {
        let id = self.next_stream_id;
        if id > u64::MAX - 4 {
            return Err(Error::StreamLimit);
        }
        match self.accept_stream(id) {
            Ok(()) => {
                self.next_stream_id = id + 4;
                Ok(id)
            },
            Err(e) => Err(e),
        }
    }

    /// Takes note of a stream that the peer opened.
    pub fn accept_stream(&mut self, id: u64) -> (r: Result<(), Error>)
        requires
            old(self).wf(),
        ensures
            final(self).wf(),
            final(self).next_stream_id == old(self).next_stream_id,
            (final(self)@, r) == stream_accepted(old(self)@, MAX_STREAMS as int, id),
    {
        if self.streams.entries.len() >= MAX_STREAMS {
            return Err(Error::StreamLimit);
        }
        match self.streams.find(id) {
            Some(i) => {
                proof {
                    lemma_position(self@.streams, id, 0, i as int);
                }
                return Err(Error::StreamLimit);
            },
            None => {
                proof {
                    lemma_position_none(self@.streams, id, 0);
                }
            },
        }
        self.streams.entries.push(
            StreamState {
                id,
                send_offset: 0,
                send_limit: STREAM_WINDOW,
                fin_sent: false,
                recv: RecvWindow { limit: STREAM_WINDOW, consumed: 0, size: STREAM_WINDOW },
            },
        );
        Ok(())
    }

    /// How many bytes [`Self::stream_send`] would take at most.
    pub fn stream_room<const STREAM_BUF: usize, const SEND_QUEUE: usize>(
        &self,
        sio: &QuicStreamIoBufs<STREAM_BUF, SEND_QUEUE>,
        stream_id: u64,
    ) -> (r: Result<usize, Error>)
        requires
            self.wf(),
        ensures
            r == stream_space(self@, sio@, STREAM_BUF as int, SEND_QUEUE as int, stream_id),
    {
        if self.state != ConnectionState::Handshaking && self.state != ConnectionState::Active {
            return Err(Error::InvalidState);
        }
        let i = match self.streams.find(stream_id) {
            Some(i) => i,
            None => {
                proof {
                    lemma_position_none(self@.streams, stream_id, 0);
                }
                return Err(Error::UnknownStream);
            },
        };
        proof {
            lemma_position(self@.streams, stream_id, 0, i as int);
        }
        let s = self.streams.entries[i];
        if s.fin_sent {
            return Err(Error::InvalidState);
        }
        assert(sio@.len() == sio.send_queue@.len());
        if sio.send_queue.len() >= SEND_QUEUE {
            return Err(Error::WouldBlock);
        }
        let window = s.send_limit.saturating_sub(s.send_offset);
        if STREAM_BUF as u64 > window {
            Ok(window as usize)
        } else {
            Ok(STREAM_BUF)
        }
    }

    /// Queues data for a stream: as much as one queue entry and the stream's
    /// limit take. Returns how much was taken; the end of the stream is recorded
    /// once all of the data is taken.
    pub fn stream_send<const STREAM_BUF: usize, const SEND_QUEUE: usize>(
        &mut self,
        sio: &mut QuicStreamIoBufs<STREAM_BUF, SEND_QUEUE>,
        stream_id: u64,
        data: &[u8],
        fin: bool,
    ) -> (r: Result<usize, Error>)
        requires
            old(self).wf(),
        ensures
            final(self).wf(),
            ({
                let (m, q, res) = stream_sent(
                    old(self)@,
                    old(sio)@,
                    STREAM_BUF as int,
                    SEND_QUEUE as int,
                    stream_id,
                    data@,
                    fin,
                );
                final(self)@ == m && final(sio)@ == q && r == res
            }),
    {
        if self.state != ConnectionState::Handshaking && self.state != ConnectionState::Active {
            return Err(Error::InvalidState);
        }
        let i = match self.streams.find(stream_id) {
            Some(i) => i,
            None => {
                proof {
                    lemma_position_none(self@.streams, stream_id, 0);
                }
                return Err(Error::UnknownStream);
            },
        };
        proof {
            lemma_position(self@.streams, stream_id, 0, i as int);
        }
        let mut s = self.streams.entries[i];
        if s.fin_sent {
            return Err(Error::InvalidState);
        }
        let window = s.send_limit.saturating_sub(s.send_offset);
        let mut n = data.len();
        if n > STREAM_BUF {
            n = STREAM_BUF;
        }
        if n as u64 > window {
            n = window as usize;
        }
        assert(sio@.len() == sio.send_queue@.len());
        if sio.send_queue.len() >= SEND_QUEUE || (n == 0 && data.len() > 0) {
            return Err(Error::WouldBlock);
        }
        let whole = n == data.len();
        let entry = SendEntry {
            stream_id,
            offset: s.send_offset,
            data: bytes::to_vec(data.split_at(n).0),
            fin: fin && whole,
        };
        let ghost q0 = sio@;
        let ghost e = entry@;
        sio.send_queue.push(entry);
        assert(sio@ =~= q0.push(e));
        s.send_offset = s.send_offset + n as u64;
        s.fin_sent = fin && whole;
        self.streams.entries[i] = s;
        Ok(n)
    }
}

/// A connection at its start.
pub open spec fn start_model<C: CryptoProvider>(
    crypto: C,
    role: Role,
    remote_cid: Seq<u8>,
    local_cid: Seq<u8>,
    slot: usize,
    sent_cap: nat,
) -> ConnModel<C> {
    ConnModel {
        crypto,
        state: ConnectionState::Handshaking,
        role,
        address_validated: role == Role::Client,
        bytes_received: 0,
        bytes_sent: 0,
        keys: KeysModel {
            initial: None,
            handshake: None,
            application: None,
            packets_encrypted: 0,
            phase: 0,
            secret: Seq::empty(),
        },
        next_pn: seq![0u64, 0u64, 0u64],
        largest_recv_pn: seq![None::<u64>, None::<u64>, None::<u64>],
        ack_due: seq![false, false, false],
        received: seq![Seq::empty(), Seq::empty(), Seq::empty()],
        remote_cid,
        local_cid,
        close_frame: None,
        slot: Some(slot),
        rewind_pending: false,
        handshake_done_due: role == Role::Server,
        path_response: None,
        flow: FlowControl {
            recv: RecvWindow {
                limit: CONNECTION_WINDOW,
                consumed: 0,
                size: CONNECTION_WINDOW,
            },
        },
        streams: Seq::empty(),
        next_stream_id: if role == Role::Client {
            0
        } else {
            1
        },
        sent: Seq::empty(),
        sent_cap,
        loss: LossDetector { initial: None, handshake: None, application: None },
        congestion: CongestionController {
            window: crate::transport::congestion::INITIAL_WINDOW,
            threshold: u64::MAX,
            in_flight: 0,
        },
    }
}

/// A client connection at its start: the Initial keys are known.
pub open spec fn client_model<C: CryptoProvider>(
    crypto: C,
    remote_cid: Seq<u8>,
    local_cid: Seq<u8>,
    slot: usize,
    sent_cap: nat,
    initial_keys: KeyModel<C::InitialAead, C::InitialHeaderProtection>,
) -> ConnModel<C> {
    let m = start_model(crypto, Role::Client, remote_cid, local_cid, slot, sent_cap);
    ConnModel { keys: KeysModel { initial: Some(initial_keys), ..m.keys }, ..m }
}

/// The handshake slot is freed once nothing needs it.
pub open spec fn released<C: CryptoProvider>(
    m: ConnModel<C>,
    pool: Seq<Option<CtxModel<C>>>,
) -> (ConnModel<C>, Seq<Option<CtxModel<C>>>) {
    match m.slot {
        Some(s) => if m.state == ConnectionState::Active && (pool[s as int]->0).finished() {
            (ConnModel { slot: None, ..m }, pool.update(s as int, None))
        } else {
            (m, pool)
        },
        None => (m, pool),
    }
}

/// The position of a stream at or behind `i`; the length if it is unknown.
pub open spec fn position(streams: Seq<StreamState>, id: u64, i: int) -> int
    decreases streams.len() - i,
{
    if i < 0 || i >= streams.len() {
        streams.len() as int
    } else if streams[i].id == id {
        i
    } else {
        position(streams, id, i + 1)
    }
}

proof fn lemma_position(streams: Seq<StreamState>, id: u64, i: int, at: int)
    requires
        0 <= i <= at < streams.len(),
        streams[at].id == id,
        forall|j: int| i <= j < at ==> (#[trigger] streams[j]).id != id,
    ensures
        position(streams, id, i) == at,
    decreases at - i,
{
    if i < at {
        lemma_position(streams, id, i + 1, at);
    }
}

/// The position of a stream lies within the list or at its end.
pub proof fn lemma_position_bounds(streams: Seq<StreamState>, id: u64, i: int)
    requires
        0 <= i <= streams.len(),
    ensures
        i <= position(streams, id, i) <= streams.len(),
        position(streams, id, i) < streams.len() ==> streams[position(streams, id, i)].id == id,
    decreases streams.len() - i,
{
    if i < streams.len() && streams[i].id != id {
        lemma_position_bounds(streams, id, i + 1);
    }
}

proof fn lemma_position_none(streams: Seq<StreamState>, id: u64, i: int)
    requires
        0 <= i <= streams.len(),
        forall|j: int| i <= j < streams.len() ==> (#[trigger] streams[j]).id != id,
    ensures
        position(streams, id, i) == streams.len(),
    decreases streams.len() - i,
{
    if i < streams.len() {
        lemma_position_none(streams, id, i + 1);
    }
}

/// The smaller of two numbers.
pub open spec fn least(a: int, b: int) -> int {
    if a < b {
        a
    } else {
        b
    }
}

/// A connection that starts to close. One that is over stays as it is.
pub open spec fn closing<C: CryptoProvider>(
    m: ConnModel<C>,
    error_code: u64,
    reason: Seq<u8>,
) -> ConnModel<C> {
    if m.state == ConnectionState::Closed {
        m
    } else {
        ConnModel {
            state: ConnectionState::Closing,
            close_frame: Some((error_code, reason)),
            ..m
        }
    }
}

/// A stream at its start.
pub open spec fn new_stream(id: u64) -> StreamState {
    StreamState {
        id,
        send_offset: 0,
        send_limit: STREAM_WINDOW,
        fin_sent: false,
        recv: RecvWindow { limit: STREAM_WINDOW, consumed: 0, size: STREAM_WINDOW },
    }
}

/// What taking note of a stream does: it is refused when there are as many as
/// there may be, or when it is known already.
pub open spec fn stream_accepted<C: CryptoProvider>(m: ConnModel<C>, max_streams: int, id: u64) -> (
    ConnModel<C>,
    Result<(), Error>,
) {
    if m.streams.len() >= max_streams || position(m.streams, id, 0) < m.streams.len() {
        (m, Err(Error::StreamLimit))
    } else {
        (ConnModel { streams: m.streams.push(new_stream(id)), ..m }, Ok(()))
    }
}

/// What opening a stream does.
pub open spec fn stream_opened<C: CryptoProvider>(m: ConnModel<C>, max_streams: int) -> (
    ConnModel<C>,
    Result<u64, Error>,
) {
    let id = m.next_stream_id;
    if id > u64::MAX - 4 {
        (m, Err(Error::StreamLimit))
    } else {
        match stream_accepted(m, max_streams, id).1 {
            Ok(_) => (
                ConnModel {
                    next_stream_id: (id + 4) as u64,
                    ..stream_accepted(m, max_streams, id).0
                },
                Ok(id),
            ),
            Err(e) => (m, Err(e)),
        }
    }
}

/// How many bytes can be queued for a stream in one piece.
pub open spec fn stream_space<C: CryptoProvider>(
    m: ConnModel<C>,
    queue: Seq<EntryModel>,
    entry_cap: int,
    queue_cap: int,
    id: u64,
) -> Result<usize, Error> {
    let i = position(m.streams, id, 0);
    let s = m.streams[i];
    let window = crate::transport::congestion::minus(s.send_limit, s.send_offset);
    if m.state != ConnectionState::Handshaking && m.state != ConnectionState::Active {
        Err(Error::InvalidState)
    } else if i == m.streams.len() {
        Err(Error::UnknownStream)
    } else if s.fin_sent {
        Err(Error::InvalidState)
    } else if queue.len() >= queue_cap {
        Err(Error::WouldBlock)
    } else {
        Ok(least(entry_cap, window as int) as usize)
    }
}

/// What queueing stream data does.
pub open spec fn stream_sent<C: CryptoProvider>(
    m: ConnModel<C>,
    queue: Seq<EntryModel>,
    entry_cap: int,
    queue_cap: int,
    id: u64,
    data: Seq<u8>,
    fin: bool,
) -> (ConnModel<C>, Seq<EntryModel>, Result<usize, Error>) {
    let i = position(m.streams, id, 0);
    let s = m.streams[i];
    let window = crate::transport::congestion::minus(s.send_limit, s.send_offset);
    let n = least(least(data.len() as int, entry_cap), window as int);
    let ends = fin && n == data.len();
    if m.state != ConnectionState::Handshaking && m.state != ConnectionState::Active {
        (m, queue, Err(Error::InvalidState))
    } else if i == m.streams.len() {
        (m, queue, Err(Error::UnknownStream))
    } else if s.fin_sent {
        (m, queue, Err(Error::InvalidState))
    } else if queue.len() >= queue_cap || (n == 0 && data.len() > 0) {
        (m, queue, Err(Error::WouldBlock))
    } else {
        (
            ConnModel {
                streams: m.streams.update(
                    i,
                    StreamState {
                        send_offset: (s.send_offset + n) as u64,
                        fin_sent: ends,
                        ..s
                    },
                ),
                ..m
            },
            queue.push(
                EntryModel {
                    stream_id: id,
                    offset: s.send_offset,
                    data: data.take(n),
                    fin: ends,
                },
            ),
            Ok(n as usize),
        )
    }
}

} // verus!
