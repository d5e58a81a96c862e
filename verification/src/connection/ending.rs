//! How a connection ends, and what a run of polls sends.

use vstd::prelude::*;

use crate::bytes;
use crate::connection::handshake_pool::CtxModel;
use crate::connection::io::EntryModel;
use crate::connection::laws;
use crate::connection::{self, poll, protect, transmit};
use crate::connection::{ConnModel, ConnectionState};
use crate::crypto::{Aead, CryptoProvider, HeaderProtection, KeyModel, Level, TAG_LEN};
use crate::error::Error;
use crate::frame;
use crate::packet;
use crate::transport::Instant;
use crate::varint;

verus! {

/// Whether an AEAD seals whatever it is given, and appends exactly a tag.
pub open spec fn always_seals<A: Aead>(aead: A) -> bool {
    &&& laws::tag_is_appended(aead)
    &&& forall|nonce: Seq<u8>, aad: Seq<u8>, plaintext: Seq<u8>, room: nat|
        (#[trigger] aead.sealed(nonce, aad, plaintext, room)) is Ok
}

/// Whether the keys of a level seal whatever they are given.
pub open spec fn level_seals<C: CryptoProvider>(m: ConnModel<C>, level: Level) -> bool {
    match level {
        Level::Initial => m.keys.initial matches Some(k) && always_seals(k.aead),
        Level::Handshake => m.keys.handshake matches Some(k) && always_seals(k.aead),
        Level::Application => m.keys.application matches Some(k) && always_seals(k.aead),
    }
}

/// A buffer of this size holds any datagram that closes a connection.
pub const CLOSE_ROOM: usize = 1300;

/// A packet with room for it and keys that seal is made.
proof fn lemma_framed<A: Aead, HP: HeaderProtection>(
    k: KeyModel<A, HP>,
    header: Seq<u8>,
    pn_bytes: Seq<u8>,
    pn: u64,
    is_long: bool,
    payload: Seq<u8>,
    cap: int,
)
    requires
        always_seals(k.aead),
        header.len() + pn_bytes.len() + payload.len() + TAG_LEN <= cap,
        pn_bytes.len() + payload.len() >= 4,
    ensures
        transmit::framed(Some(k), header, pn_bytes, pn, is_long, payload, cap) is Ok,
{
    reveal(protect::protected);
    let h = header + pn_bytes;
    let room = payload.len() + TAG_LEN as nat;
    let sealed = k.aead.sealed(crate::crypto::nonce_for(k.iv, pn), h, payload, room);
    assert(sealed is Ok);
    assert(sealed->Ok_0.len() == payload.len() + TAG_LEN);
}

/// A CONNECTION_CLOSE frame takes at least four bytes.
proof fn lemma_close_frame(code: u64, reason: Seq<u8>)
    ensures
        frame::close_parts(false, code, 0, reason).encoding() matches Some(b) ==> b.len() >= 4,
{
    let head = seq![code, 0u64, reason.len() as u64];
    reveal_with_fuel(frame::varints, 4);
    varint::lemma_varint_len(code as int);
    varint::lemma_varint_len(0);
    varint::lemma_varint_len(reason.len() as u64 as int);
}

/// The datagram that closes a connection is made.
proof fn lemma_close_packet<C: CryptoProvider>(m: ConnModel<C>, level: Level, f: Seq<u8>, cap: int)
    requires
        4 <= f.len() <= poll::CLOSE_FRAME_CAP,
        m.remote_cid.len() <= 20,
        m.local_cid.len() <= 20,
        level_seals(m, level),
        cap >= CLOSE_ROOM,
    ensures
        poll::close_packet(m, level, f, cap) is Ok,
{
    let pn_len = m.pn_len(level) as int;
    bytes::lemma_be_bytes_len(m.pn(level) as nat, pn_len as nat);
    match level {
        Level::Initial => {
            let pad = transmit::initial_padding(
                m.remote_cid.len() as int,
                m.local_cid.len() as int,
                pn_len,
                f.len() as int,
                m.role == crate::tls::Role::Client,
            );
            let payload = f + bytes::zeros(pad as nat);
            let payload_length = pn_len + f.len() + pad + TAG_LEN;
            packet::lemma_header_lens(
                m.remote_cid,
                m.local_cid,
                Seq::empty(),
                pn_len,
                payload_length,
            );
            let header = packet::initial_header(
                m.remote_cid,
                m.local_cid,
                Seq::empty(),
                pn_len,
                payload_length,
            );
            assert(payload_length <= 1400);
            lemma_framed(
                m.keys.initial->0,
                header,
                m.pn_bytes(level),
                m.pn(level),
                true,
                payload,
                cap,
            );
        },
        Level::Handshake => {
            let payload = f + bytes::zeros(
                transmit::sample_padding(f.len() as int, pn_len) as nat,
            );
            let payload_length = pn_len + payload.len() + TAG_LEN;
            packet::lemma_header_lens(
                m.remote_cid,
                m.local_cid,
                Seq::empty(),
                pn_len,
                payload_length,
            );
            let header = packet::handshake_header(
                m.remote_cid,
                m.local_cid,
                pn_len,
                payload_length,
            );
            lemma_framed(
                m.keys.handshake->0,
                header,
                m.pn_bytes(level),
                m.pn(level),
                true,
                payload,
                cap,
            );
        },
        Level::Application => {
            let payload = f + bytes::zeros(
                transmit::sample_padding(f.len() as int, pn_len) as nat,
            );
            let header = packet::short_header(
                m.remote_cid,
                (0x40 + 4 * (m.keys.phase % 2) + pn_len - 1) as u8,
            );
            lemma_framed(
                m.keys.application->0,
                header,
                m.pn_bytes(level),
                m.pn(level),
                false,
                payload,
                cap,
            );
        },
    }
}

/// Closing a connection that has keys sends one more datagram, the one that
/// carries CONNECTION_CLOSE, and that is the last: the connection is closed
/// afterwards, every later poll yields nothing, and it stays closed.
///
/// The frame must fit what is carried of it, the buffer must be large enough, and
/// the keys of the highest level must seal.
pub proof fn law_close_is_sent_once<C: CryptoProvider>(
    m0: ConnModel<C>,
    code: u64,
    reason: Seq<u8>,
    queue: Seq<EntryModel>,
    pool: Seq<Option<CtxModel<C>>>,
    cap: int,
    crypto_cap: int,
    now: Instant,
    later_queue: Seq<EntryModel>,
    later_pool: Seq<Option<CtxModel<C>>>,
    later_cap: int,
    later: Instant,
)
    requires
        m0.state != ConnectionState::Closed,
        m0.remote_cid.len() <= 20,
        m0.local_cid.len() <= 20,
        poll::prepared(connection::closing(m0, code, reason), pool).2,
        frame::fitted(
            frame::close_parts(false, code, 0, reason),
            poll::CLOSE_FRAME_CAP as int,
        ) is Some,
        cap >= CLOSE_ROOM,
        ({
            let ready = poll::prepared(connection::closing(m0, code, reason), pool).0;
            poll::close_level(ready) matches Some(level) && level_seals(ready, level)
        }),
    ensures
        ({
            let m = connection::closing(m0, code, reason);
            let p = poll::polled(m, queue, pool, cap, crypto_cap, now);
            let ready = poll::prepared(m, pool).0;
            let level = poll::close_level(ready)->0;
            let f = frame::fitted(
                frame::close_parts(false, code, 0, reason),
                poll::CLOSE_FRAME_CAP as int,
            )->0;
            &&& p.datagram matches Some(d) && poll::close_packet(ready, level, f, cap) == Ok::<
                Seq<u8>,
                Error,
            >(d)
            &&& p.conn.state == ConnectionState::Closed
            &&& p.queue == queue
            &&& poll::polled(p.conn, later_queue, later_pool, later_cap, crypto_cap, later) == (
            poll::Polled {
                conn: p.conn,
                queue: later_queue,
                pool: later_pool,
                datagram: None,
            })
        }),
{
    reveal(poll::close_step);
    let m = connection::closing(m0, code, reason);
    let ready = poll::prepared(m, pool).0;
    let level = poll::close_level(ready)->0;
    let f = frame::fitted(
        frame::close_parts(false, code, 0, reason),
        poll::CLOSE_FRAME_CAP as int,
    )->0;
    lemma_close_frame(code, reason);
    assert(ready.remote_cid == m0.remote_cid && ready.local_cid == m0.local_cid);
    assert(ready.close_frame == m.close_frame);
    lemma_close_packet(ready, level, f, cap);
    let p = poll::polled(m, queue, pool, cap, crypto_cap, now);
    laws::law_closed_sends_nothing(
        p.conn,
        later_queue,
        later_pool,
        later_cap,
        crypto_cap,
        later,
    );
}

/// A CONNECTION_CLOSE that does not fit what is carried of it, as one with a long
/// reason, is not sent: the connection is closed without a datagram.
pub proof fn law_unfit_close_is_silent<C: CryptoProvider>(
    m: ConnModel<C>,
    code: u64,
    reason: Seq<u8>,
    queue: Seq<EntryModel>,
    pool: Seq<Option<CtxModel<C>>>,
    cap: int,
    crypto_cap: int,
    now: Instant,
)
    requires
        m.close_frame == Some((code, reason)),
        poll::prepared(m, pool).2,
        poll::close_level(poll::prepared(m, pool).0) is Some,
        frame::fitted(
            frame::close_parts(false, code, 0, reason),
            poll::CLOSE_FRAME_CAP as int,
        ) is None,
    ensures
        ({
            let p = poll::polled(m, queue, pool, cap, crypto_cap, now);
            &&& p.datagram is None
            &&& p.conn == (ConnModel {
                state: ConnectionState::Closed,
                ..poll::prepared(m, pool).0
            })
            &&& p.queue == queue
        }),
{
    reveal(poll::close_step);
}

/// A poll in a run: what arrived from the peer since the last one, what is queued
/// then, and the poll itself.
#[verifier::ext_equal]
#[verifier::reject_recursive_types(C)]
pub struct Turn<C: CryptoProvider> {
    pub received: nat,
    pub queue: Seq<EntryModel>,
    pub pool: Seq<Option<CtxModel<C>>>,
    pub cap: int,
    pub now: Instant,
}

/// The connection with more bytes received.
pub open spec fn with_received<C: CryptoProvider>(m: ConnModel<C>, n: nat) -> ConnModel<C> {
    ConnModel { bytes_received: (m.bytes_received + n) as usize, ..m }
}

/// How many bytes a run of polls sends.
pub open spec fn sent_in_run<C: CryptoProvider>(
    m: ConnModel<C>,
    turns: Seq<Turn<C>>,
    crypto_cap: int,
) -> nat
    decreases turns.len(),
{
    if turns.len() == 0 {
        0
    } else {
        let t = turns[0];
        let p = poll::polled(
            with_received(m, t.received),
            t.queue,
            t.pool,
            t.cap,
            crypto_cap,
            t.now,
        );
        poll::packet_bytes(p.datagram).len() + sent_in_run(p.conn, turns.drop_first(), crypto_cap)
    }
}

/// How many bytes are received in a run.
pub open spec fn received_in_run<C: CryptoProvider>(turns: Seq<Turn<C>>) -> nat
    decreases turns.len(),
{
    if turns.len() == 0 {
        0
    } else {
        turns[0].received + received_in_run(turns.drop_first())
    }
}

/// Whether packets can be numbered all through a run.
pub open spec fn numbers_last<C: CryptoProvider>(
    m: ConnModel<C>,
    turns: Seq<Turn<C>>,
    crypto_cap: int,
) -> bool
    decreases turns.len(),
{
    turns.len() == 0 || ({
        let t = turns[0];
        let p = poll::polled(
            with_received(m, t.received),
            t.queue,
            t.pool,
            t.cap,
            crypto_cap,
            t.now,
        );
        &&& m.number_left(Level::Initial)
        &&& m.number_left(Level::Handshake)
        &&& m.number_left(Level::Application)
        &&& numbers_last(p.conn, turns.drop_first(), crypto_cap)
    })
}

/// Before the peer's address is validated, a run of polls of any length, with
/// whatever arriving in between, never sends more than three times of what was
/// received, counting from the first byte. The datagram that closes a connection
/// is exempt.
pub proof fn law_three_times_in_all<C: CryptoProvider>(
    m: ConnModel<C>,
    turns: Seq<Turn<C>>,
    crypto_cap: int,
)
    requires
        m.next_pn.len() == 3,
        numbers_last(m, turns, crypto_cap),
        !m.address_validated,
        m.close_frame is None,
        m.bytes_sent <= 3 * m.bytes_received,
        3 * (m.bytes_received + received_in_run(turns)) <= usize::MAX,
    ensures
        m.bytes_sent + sent_in_run(m, turns, crypto_cap) <= 3 * (m.bytes_received
            + received_in_run(turns)),
    decreases turns.len(),
{
    if turns.len() > 0 {
        let t = turns[0];
        let m1 = with_received(m, t.received);
        let p = poll::polled(m1, t.queue, t.pool, t.cap, crypto_cap, t.now);
        laws::law_three_times_limit(m1, t.queue, t.pool, t.cap, crypto_cap, t.now);
        law_three_times_in_all(p.conn, turns.drop_first(), crypto_cap);
    }
}

} // verus!
