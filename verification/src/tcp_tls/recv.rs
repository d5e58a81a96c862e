//! Receiving: records are decrypted in place inside the receive buffer.

use vstd::prelude::*;

use crate::buf::{Buf, BufModel};
use crate::bytes;
use crate::crypto::{self, Aead, CryptoProvider, Level};
use crate::error::Error;
use crate::tcp_tls::connection::{
    self, ConnState, RecordKey, TlsConnection, TlsEvent, TlsModel,
};
use crate::tcp_tls::io::{self, TlsIo};
use crate::tcp_tls::record::{self, ContentType, RECORD_HEADER_LEN};
use crate::tls::TlsSession;

verus! {

/// What becomes of one complete record.
#[verifier::reject_recursive_types(C)]
pub enum RecordStep<C: CryptoProvider> {
    /// The record is done with; `app` is the application data it carried, and
    /// `check` says whether the engine may have learned something.
    Next { conn: TlsModel<C>, app: Option<Seq<u8>>, check: bool },
    /// The record was an alert: it is done with, and so is this round.
    Stop { conn: TlsModel<C>, result: Result<(), Error> },
    /// The record cannot be accepted. It stays where it is; `touched` says
    /// whether its bytes were worked on.
    Fail { conn: TlsModel<C>, error: Error, touched: bool },
}

/// Handshake bytes go to the engine.
pub open spec fn read_step<C: CryptoProvider>(
    m: TlsModel<C>,
    level: Level,
    data: Seq<u8>,
    touched: bool,
) -> RecordStep<C> {
    let (engine, r) = m.engine.read_step(level, data);
    let m1 = TlsModel { engine, ..m };
    match r {
        Ok(()) => RecordStep::Next { conn: m1, app: None, check: true },
        Err(_) => RecordStep::Fail { conn: m1, error: Error::Tls, touched },
    }
}

/// An alert: level and description.
pub open spec fn alert_step<C: CryptoProvider>(m: TlsModel<C>, data: Seq<u8>, touched: bool) -> RecordStep<
    C,
> {
    if data.len() < 2 {
        RecordStep::Fail { conn: m, error: Error::Tls, touched }
    } else {
        let (conn, result) = m.alerted(data[1]);
        RecordStep::Stop { conn, result }
    }
}

/// What a protected record holds: its data and inner content type.
pub open spec fn unprotected<A: Aead>(
    key: RecordKey<A>,
    seq: u64,
    header: Seq<u8>,
    payload: Seq<u8>,
) -> Result<Seq<u8>, Error> {
    key.aead.opened(crypto::nonce_for(key.iv, seq), header, payload)
}

/// A protected record during the handshake.
pub open spec fn encrypted_handshake_step<C: CryptoProvider>(
    m: TlsModel<C>,
    header: Seq<u8>,
    payload: Seq<u8>,
) -> RecordStep<C> {
    match m.hs_recv {
        None => RecordStep::Fail { conn: m, error: Error::Tls, touched: false },
        Some(k) => match unprotected(k, m.hs_recv_seq, header, payload) {
            Err(e) => RecordStep::Fail { conn: m, error: e, touched: true },
            Ok(pt) => {
                let m1 = TlsModel { hs_recv_seq: (m.hs_recv_seq + 1) as u64, ..m };
                match record::inner_content(pt) {
                    Err(e) => RecordStep::Fail { conn: m1, error: e, touched: true },
                    Ok((n, inner)) => match inner {
                        ContentType::Handshake => read_step(
                            m1,
                            Level::Handshake,
                            pt.take(n as int),
                            true,
                        ),
                        ContentType::Alert => alert_step(m1, pt.take(n as int), true),
                        _ => RecordStep::Fail { conn: m1, error: Error::Tls, touched: true },
                    },
                }
            },
        },
    }
}

/// A protected record after the handshake. The sequence number advances only
/// with a record that could be opened.
pub open spec fn app_record_step<C: CryptoProvider>(
    m: TlsModel<C>,
    header: Seq<u8>,
    payload: Seq<u8>,
) -> RecordStep<C> {
    match m.app_recv {
        None => RecordStep::Fail { conn: m, error: Error::Tls, touched: false },
        Some(k) => match unprotected(k, m.recv_seq, header, payload) {
            Err(e) => RecordStep::Fail { conn: m, error: e, touched: true },
            Ok(pt) => {
                let m1 = TlsModel { recv_seq: (m.recv_seq + 1) as u64, ..m };
                match record::inner_content(pt) {
                    Err(e) => RecordStep::Fail { conn: m1, error: e, touched: true },
                    Ok((n, inner)) => match inner {
                        ContentType::ApplicationData => RecordStep::Next {
                            conn: m1,
                            app: Some(pt.take(n as int)),
                            check: false,
                        },
                        ContentType::Alert => alert_step(m1, pt.take(n as int), true),
                        ContentType::Handshake => RecordStep::Next {
                            conn: m1,
                            app: None,
                            check: false,
                        },
                        _ => RecordStep::Fail { conn: m1, error: Error::Tls, touched: true },
                    },
                }
            },
        },
    }
}

/// One complete record.
#[verifier::opaque]
pub open spec fn record_step<C: CryptoProvider>(
    m: TlsModel<C>,
    ct: ContentType,
    header: Seq<u8>,
    payload: Seq<u8>,
) -> RecordStep<C> {
    let ignored = RecordStep::Next { conn: m, app: None, check: false };
    let refused = RecordStep::Fail { conn: m, error: Error::Tls, touched: false };
    match m.state {
        ConnState::Handshake => match ct {
            ContentType::Handshake => read_step(m, Level::Initial, payload, false),
            ContentType::ChangeCipherSpec => ignored,
            ContentType::Alert => alert_step(m, payload, false),
            ContentType::ApplicationData => refused,
        },
        ConnState::HandshakeEncrypted => match ct {
            ContentType::ApplicationData => encrypted_handshake_step(m, header, payload),
            ContentType::ChangeCipherSpec => ignored,
            ContentType::Handshake => read_step(m, Level::Initial, payload, false),
            ContentType::Alert => refused,
        },
        ConnState::Active => match ct {
            ContentType::ApplicationData => app_record_step(m, header, payload),
            ContentType::ChangeCipherSpec => ignored,
            _ => refused,
        },
        ConnState::Closing => ignored,
        ConnState::Closed => ignored,
    }
}

/// What a round of received records comes to.
#[verifier::ext_equal]
#[verifier::reject_recursive_types(C)]
pub struct Received<C: CryptoProvider> {
    pub conn: TlsModel<C>,
    /// Application data, in order.
    pub plain: Seq<u8>,
    /// Received bytes that are still to be processed.
    pub rest: Seq<u8>,
    /// Whether those bytes are still as they were received.
    pub intact: bool,
    pub result: Result<(), Error>,
}

/// The application data of a step, as bytes.
pub open spec fn app_bytes(app: Option<Seq<u8>>) -> Seq<u8> {
    match app {
        Some(d) => d,
        None => Seq::empty(),
    }
}

/// The connection after a step that goes on: an event announces application
/// data, and what the engine learned is taken over.
pub open spec fn after_next<C: CryptoProvider>(
    conn: TlsModel<C>,
    app: Option<Seq<u8>>,
    check: bool,
) -> (TlsModel<C>, Result<(), Error>) {
    let m = match app {
        Some(_) => conn.raise(TlsEvent::AppData),
        None => conn,
    };
    if check {
        m.checked()
    } else {
        (m, Ok(()))
    }
}

/// What comes of the bytes at the front.
#[verifier::reject_recursive_types(C)]
pub enum Round<C: CryptoProvider> {
    /// Nothing more can be done with what is there.
    Done { outcome: Received<C> },
    /// A record was dealt with; it carried `app`, and `rest` follows it.
    More { conn: TlsModel<C>, app: Seq<u8>, rest: Seq<u8> },
}

/// A record that was handled, with what follows it.
pub open spec fn settled<C: CryptoProvider>(
    step: RecordStep<C>,
    cipher: Seq<u8>,
    rest: Seq<u8>,
) -> Round<C> {
    match step {
        RecordStep::Fail { conn, error, touched } => Round::Done {
            outcome: Received {
                conn,
                plain: Seq::empty(),
                rest: cipher,
                intact: !touched,
                result: Err(error),
            },
        },
        RecordStep::Stop { conn, result } => Round::Done {
            outcome: Received { conn, plain: Seq::empty(), rest, intact: true, result },
        },
        RecordStep::Next { conn, app, check } => {
            let (m1, r) = after_next(conn, app, check);
            match r {
                Ok(()) => Round::More { conn: m1, app: app_bytes(app), rest },
                Err(e) => Round::Done {
                    outcome: Received {
                        conn: m1,
                        plain: app_bytes(app),
                        rest,
                        intact: true,
                        result: Err(e),
                    },
                },
            }
        },
    }
}

/// The record at the front of the received bytes, if it is complete. One that
/// can never fit into a buffer of `cap` bytes fails at once.
pub open spec fn round<C: CryptoProvider>(m: TlsModel<C>, cipher: Seq<u8>, cap: int) -> Round<C> {
    let stay = Received {
        conn: m,
        plain: Seq::empty(),
        rest: cipher,
        intact: true,
        result: Ok(()),
    };
    if cipher.len() < RECORD_HEADER_LEN {
        Round::Done { outcome: stay }
    } else {
        match record::header_at(cipher) {
            Err(e) => Round::Done { outcome: Received { result: Err(e), ..stay } },
            Ok(hdr) => {
                let total = RECORD_HEADER_LEN + hdr.length;
                if total > cap {
                    Round::Done {
                        outcome: Received {
                            result: Err(Error::BufferTooSmall { needed: total as usize }),
                            ..stay
                        },
                    }
                } else if cipher.len() < total {
                    Round::Done { outcome: stay }
                } else {
                    settled(
                        record_step(
                            m,
                            hdr.content_type,
                            cipher.take(RECORD_HEADER_LEN as int),
                            cipher.subrange(RECORD_HEADER_LEN as int, total),
                        ),
                        cipher,
                        cipher.skip(total),
                    )
                }
            },
        }
    }
}

/// Processing of received bytes, record by record, until a record is incomplete,
/// an alert arrives or something fails.
pub open spec fn received<C: CryptoProvider>(m: TlsModel<C>, cipher: Seq<u8>, cap: int) -> Received<C>
    decreases cipher.len(),
{
    match round(m, cipher, cap) {
        Round::Done { outcome } => outcome,
        Round::More { conn, app, rest } => if rest.len() < cipher.len() {
            let more = received(conn, rest, cap);
            Received { plain: app + more.plain, ..more }
        } else {
            Received { conn, plain: app, rest, intact: true, result: Ok(()) }
        },
    }
}

/// What became of one complete record.
enum Processed {
    Next { app_len: Option<usize>, check: bool },
    Stop { result: Result<(), Error> },
    Fail { error: Error },
}

/// Removes `buf[start..end]`, shifting everything after `end` down.
fn remove_range<const BUF: usize>(buf: &mut Buf<BUF>, start: usize, end: usize)
    requires
        io::plain_buf(old(buf)),
        start <= end <= old(buf)@.len(),
    ensures
        io::plain_buf(final(buf)),
        final(buf)@ == old(buf)@.take(start as int) + old(buf)@.skip(end as int),
{
    let len = buf.len();
    let ghost before = buf@;
    bytes::copy_within(buf.as_mut_slice(), end, len, start);
    buf.truncate(len - (end - start));
    assert(buf@ =~= before.take(start as int) + before.skip(end as int));
}

impl<C: CryptoProvider> TlsConnection<C> {
    /// Feeds handshake bytes to the engine.
    fn read_handshake_bytes(&mut self, level: Level, data: &[u8]) -> (r: Processed)
        ensures
            match r {
                Processed::Next { app_len, check } => app_len is None && check && read_step(
                    old(self)@,
                    level,
                    data@,
                    true,
                ) == (RecordStep::Next { conn: final(self)@, app: None, check: true }),
                Processed::Stop { .. } => false,
                Processed::Fail { error } => forall|touched: bool| #[trigger]
                    read_step(old(self)@, level, data@, touched) == (RecordStep::Fail {
                        conn: final(self)@,
                        error,
                        touched,
                    }),
            },
    {
        match self.engine.read_handshake(level, data) {
            Ok(()) => Processed::Next { app_len: None, check: true },
            Err(_) => Processed::Fail { error: Error::Tls },
        }
    }

    /// Reacts to an alert record.
    fn read_alert(&mut self, data: &[u8]) -> (r: Processed)
        ensures
            match r {
                Processed::Next { .. } => false,
                Processed::Stop { result } => forall|touched: bool| #[trigger]
                    alert_step(old(self)@, data@, touched) == (RecordStep::Stop {
                        conn: final(self)@,
                        result,
                    }),
                Processed::Fail { error } => forall|touched: bool| #[trigger]
                    alert_step(old(self)@, data@, touched) == (RecordStep::Fail {
                        conn: final(self)@,
                        error,
                        touched,
                    }),
            },
    {
        if data.len() < 2 {
            return Processed::Fail { error: Error::Tls };
        }
        let result = self.handle_alert_desc(data[1]);
        Processed::Stop { result }
    }

    /// Handles a protected record during the handshake.
    fn process_encrypted_handshake(&mut self, header: &[u8; 5], payload: &mut [u8]) -> (r: Processed)
        requires
            old(self).hs_recv_seq < u64::MAX,
        ensures
            final(payload)@.len() == old(payload)@.len(),
            match encrypted_handshake_step(old(self)@, header@, old(payload)@) {
                RecordStep::Next { conn, app, check } => final(self)@ == conn && app is None && (
                r matches Processed::Next { app_len, check: c } && app_len is None && c == check),
                RecordStep::Stop { conn, result } => final(self)@ == conn && (
                r matches Processed::Stop { result: q } && q == result),
                RecordStep::Fail { conn, error, touched } => final(self)@ == conn && (
                r matches Processed::Fail { error: e } && e == error) && (!touched ==> final(
                    payload)@ == old(payload)@),
            },
    {
        let opened = match &self.hs_recv {
            Some(keys) => {
                let nonce = crypto::build_nonce(&keys.iv, self.hs_recv_seq);
                let len = payload.len();
                let ghost whole = payload@;
                assert(whole.take(len as int) =~= whole);
                keys.aead.open_in_place(&nonce, header.as_slice(), payload, len)
            },
            None => {
                return Processed::Fail { error: Error::Tls };
            },
        };
        let plain_len = match opened {
            Ok(n) => n,
            Err(error) => {
                return Processed::Fail { error };
            },
        };
        self.hs_recv_seq = self.hs_recv_seq + 1;
        let (data_len, inner) = match record::find_inner_content_type(
            &payload[0..plain_len],
        ) {
            Ok(found) => found,
            Err(error) => {
                return Processed::Fail { error };
            },
        };
        assert(payload@.subrange(0, plain_len as int) =~= payload@.take(plain_len as int));
        assert(payload@.subrange(0, data_len as int) =~= payload@.take(plain_len as int).take(
            data_len as int,
        ));
        match inner {
            ContentType::Handshake => self.read_handshake_bytes(
                Level::Handshake,
                &payload[0..data_len],
            ),
            ContentType::Alert => self.read_alert(&payload[0..data_len]),
            _ => Processed::Fail { error: Error::Tls },
        }
    }

    /// Handles a protected record after the handshake; application data is left
    /// at the front of `payload`.
    fn process_app_record(&mut self, header: &[u8; 5], payload: &mut [u8]) -> (r: Processed)
        requires
            old(self).recv_seq < u64::MAX,
        ensures
            final(payload)@.len() == old(payload)@.len(),
            match app_record_step(old(self)@, header@, old(payload)@) {
                RecordStep::Next { conn, app, check } => final(self)@ == conn && (
                r matches Processed::Next { app_len, check: c } && c == check && match app {
                    Some(d) => app_len == Some(d.len() as usize) && d.len() <= final(
                        payload)@.len() && final(payload)@.take(d.len() as int) == d,
                    None => app_len is None,
                }),
                RecordStep::Stop { conn, result } => final(self)@ == conn && (
                r matches Processed::Stop { result: q } && q == result),
                RecordStep::Fail { conn, error, touched } => final(self)@ == conn && (
                r matches Processed::Fail { error: e } && e == error) && (!touched ==> final(
                    payload)@ == old(payload)@),
            },
    {
        let opened = match &self.app_recv {
            Some(keys) => {
                let nonce = crypto::build_nonce(&keys.iv, self.recv_seq);
                let len = payload.len();
                let ghost whole = payload@;
                assert(whole.take(len as int) =~= whole);
                keys.aead.open_in_place(&nonce, header.as_slice(), payload, len)
            },
            None => {
                return Processed::Fail { error: Error::Tls };
            },
        };
        let plain_len = match opened {
            Ok(n) => n,
            Err(error) => {
                return Processed::Fail { error };
            },
        };
        self.recv_seq = self.recv_seq + 1;
        let (data_len, inner) = match record::find_inner_content_type(
            &payload[0..plain_len],
        ) {
            Ok(found) => found,
            Err(error) => {
                return Processed::Fail { error };
            },
        };
        assert(payload@.subrange(0, plain_len as int) =~= payload@.take(plain_len as int));
        assert(payload@.take(data_len as int) =~= payload@.take(plain_len as int).take(
            data_len as int,
        ));
        assert(payload@.subrange(0, data_len as int) =~= payload@.take(data_len as int));
        match inner {
            ContentType::ApplicationData => Processed::Next {
                app_len: Some(data_len),
                check: false,
            },
            ContentType::Alert => self.read_alert(&payload[0..data_len]),
            ContentType::Handshake => Processed::Next { app_len: None, check: false },
            _ => Processed::Fail { error: Error::Tls },
        }
    }

    /// Handles one complete record.
    fn process_record(&mut self, ct: ContentType, header: &[u8; 5], payload: &mut [u8]) -> (r:
        Processed)
        requires
            old(self).recv_seq < u64::MAX,
            old(self).hs_recv_seq < u64::MAX,
        ensures
            final(payload)@.len() == old(payload)@.len(),
            match record_step(old(self)@, ct, header@, old(payload)@) {
                RecordStep::Next { conn, app, check } => final(self)@ == conn && (
                r matches Processed::Next { app_len, check: c } && c == check && match app {
                    Some(d) => app_len == Some(d.len() as usize) && d.len() <= final(
                        payload)@.len() && final(payload)@.take(d.len() as int) == d,
                    None => app_len is None,
                }),
                RecordStep::Stop { conn, result } => final(self)@ == conn && (
                r matches Processed::Stop { result: q } && q == result),
                RecordStep::Fail { conn, error, touched } => final(self)@ == conn && (
                r matches Processed::Fail { error: e } && e == error) && (!touched ==> final(
                    payload)@ == old(payload)@),
            },
    {
        reveal(record_step);
        match self.state {
            ConnState::Handshake => match ct {
                ContentType::Handshake => self.read_handshake_bytes(Level::Initial, payload),
                ContentType::ChangeCipherSpec => Processed::Next { app_len: None, check: false },
                ContentType::Alert => self.read_alert(payload),
                ContentType::ApplicationData => Processed::Fail { error: Error::Tls },
            },
            ConnState::HandshakeEncrypted => match ct {
                ContentType::ApplicationData => self.process_encrypted_handshake(header, payload),
                ContentType::ChangeCipherSpec => Processed::Next { app_len: None, check: false },
                ContentType::Handshake => self.read_handshake_bytes(Level::Initial, payload),
                ContentType::Alert => Processed::Fail { error: Error::Tls },
            },
            ConnState::Active => match ct {
                ContentType::ApplicationData => self.process_app_record(header, payload),
                ContentType::ChangeCipherSpec => Processed::Next { app_len: None, check: false },
                _ => Processed::Fail { error: Error::Tls },
            },
            ConnState::Closing => Processed::Next { app_len: None, check: false },
            ConnState::Closed => Processed::Next { app_len: None, check: false },
        }
    }
}

/// Whether `more` further records can be numbered in both directions of
/// receiving.
pub open spec fn recv_numbers_left<C: CryptoProvider>(m: TlsModel<C>, more: int) -> bool {
    m.recv_seq + more <= u64::MAX && m.hs_recv_seq + more <= u64::MAX
}

/// Taking over what the engine learned never raises the receive sequence
/// numbers.
proof fn lemma_checked_numbers<C: CryptoProvider>(m: TlsModel<C>)
    ensures
        m.checked().0.recv_seq <= m.recv_seq,
        m.checked().0.hs_recv_seq <= m.hs_recv_seq,
{
    let m1 = TlsModel {
        peer_limit: match m.engine.peer_limit() {
            Some(l) => l,
            None => m.peer_limit,
        },
        ..m
    };
    lemma_installed_numbers(m1);
}

proof fn lemma_installed_numbers<C: CryptoProvider>(m: TlsModel<C>)
    ensures
        m.all_installed().0.recv_seq <= m.recv_seq,
        m.all_installed().0.hs_recv_seq <= m.hs_recv_seq,
    decreases m.engine.keys_pending(),
{
    let (engine, keys) = m.engine.keys_step();
    let m0 = TlsModel { engine, ..m };
    match keys {
        Some(k) => {
            let (m1, r) = m0.installed(k);
            if r is Ok && m1.engine.keys_pending() < m.engine.keys_pending() {
                lemma_installed_numbers(m1);
            }
        },
        None => {},
    }
}

/// A record that goes on raises the sequence numbers by at most one.
proof fn lemma_next_numbers<C: CryptoProvider>(
    m: TlsModel<C>,
    ct: ContentType,
    header: Seq<u8>,
    payload: Seq<u8>,
)
    requires
        recv_numbers_left(m, 1),
    ensures
        record_step(m, ct, header, payload) matches RecordStep::Next { conn, app, check } ==> {
            let m1 = after_next(conn, app, check).0;
            m1.recv_seq <= m.recv_seq + 1 && m1.hs_recv_seq <= m.hs_recv_seq + 1
        },
{
    reveal(record_step);
    match record_step(m, ct, header, payload) {
        RecordStep::Next { conn, app, check } => {
            let raised = match app {
                Some(_) => conn.raise(TlsEvent::AppData),
                None => conn,
            };
            lemma_checked_numbers(raised);
        },
        _ => {},
    }
}

impl<C: CryptoProvider> TlsConnection<C> {
    /// Closes the gap that a handled record leaves, and takes over what the
    /// engine learned. `Some` ends the round.
    fn finish_record<const BUF: usize>(
        &mut self,
        recv: &mut Buf<BUF>,
        plain: &mut usize,
        total: usize,
        processed: Processed,
        Ghost(step): Ghost<RecordStep<C>>,
        Ghost(before): Ghost<Seq<u8>>,
    ) -> (r: Option<Result<(), Error>>)
        requires
            io::plain_buf(old(recv)),
            5 <= total,
            *old(plain) + total <= old(recv)@.len(),
            before.len() == old(recv)@.len(),
            before.take(*old(plain) as int) == old(recv)@.take(*old(plain) as int),
            before.skip(*old(plain) + total) == old(recv)@.skip(*old(plain) + total),
            match step {
                RecordStep::Next { conn, app, check } => old(self)@ == conn && (
                processed matches Processed::Next { app_len, check: c } && c == check && match app {
                    Some(d) => app_len == Some(d.len() as usize) && d.len() <= total - 5
                        && d.len() <= usize::MAX && old(recv)@.subrange(
                        *old(plain) + 5,
                        *old(plain) + 5 + d.len(),
                    ) == d,
                    None => app_len is None,
                }),
                RecordStep::Stop { conn, result } => old(self)@ == conn && (
                processed matches Processed::Stop { result: q } && q == result),
                RecordStep::Fail { conn, error, touched } => old(self)@ == conn && (
                processed matches Processed::Fail { error: e } && e == error) && (!touched ==> old(
                    recv)@ == before),
            },
        ensures
            io::plain_buf(final(recv)),
            match settled(step, before.skip(*old(plain) as int), before.skip(*old(plain) + total)) {
                Round::Done { outcome } => {
                    &&& r == Some(outcome.result)
                    &&& final(self)@ == outcome.conn
                    &&& *final(plain) == *old(plain) + outcome.plain.len()
                    &&& final(recv)@.len() == *final(plain) + outcome.rest.len()
                    &&& final(recv)@.take(*final(plain) as int) == before.take(
                        *old(plain) as int,
                    ) + outcome.plain
                    &&& outcome.intact ==> final(recv)@.skip(*final(plain) as int) == outcome.rest
                },
                Round::More { conn, app, rest } => {
                    &&& r is None
                    &&& final(self)@ == conn
                    &&& *final(plain) == *old(plain) + app.len()
                    &&& final(recv)@.len() == *final(plain) + rest.len()
                    &&& final(recv)@.take(*final(plain) as int) == before.take(
                        *old(plain) as int,
                    ) + app
                    &&& final(recv)@.skip(*final(plain) as int) == rest
                },
            },
    {
        let off = *plain;
        let len = recv.len();
        let ps = off + RECORD_HEADER_LEN;
        let ghost mid = recv@;
        proof {
            assert(before.take(off as int) + Seq::<u8>::empty() =~= before.take(off as int));
        }
        match processed {
            Processed::Fail { error } => {
                assert(before.skip(off as int).len() == before.len() - off);
                Some(Err(error))
            },
            Processed::Stop { result } => {
                remove_range(recv, off, off + total);
                proof {
                    assert(recv@.take(off as int) =~= before.take(off as int));
                    assert(recv@.skip(off as int) =~= before.skip(off + total));
                }
                Some(result)
            },
            Processed::Next { app_len, check } => {
                match app_len {
                    Some(data_len) => {
                        // Compact the plaintext down over the record header, then
                        // close the gap left by tag, content type and padding so
                        // that trailing ciphertext stays contiguous.
                        let ghost data = mid.subrange(ps as int, ps + data_len);
                        bytes::copy_within(recv.as_mut_slice(), ps, ps + data_len, off);
                        let ghost moved = recv@;
                        remove_range(recv, off + data_len, off + total);
                        *plain = off + data_len;
                        self.raise(TlsEvent::AppData);
                        proof {
                            assert(moved.take(off + data_len) =~= before.take(off as int) + data);
                            assert(moved.skip(off + total) =~= before.skip(off + total));
                            assert(recv@.take(off + data_len) =~= before.take(off as int) + data);
                            assert(recv@.skip(off + data_len) =~= before.skip(off + total));
                        }
                    },
                    None => {
                        remove_range(recv, off, off + total);
                        proof {
                            assert(recv@.take(off as int) =~= before.take(off as int));
                            assert(recv@.skip(off as int) =~= before.skip(off + total));
                        }
                    },
                }
                if check {
                    match self.check_keys() {
                        Ok(()) => None,
                        Err(e) => Some(Err(e)),
                    }
                } else {
                    None
                }
            },
        }
    }

    /// Deals with the record at the front of the ciphertext, if it is complete.
    /// `Some` ends the round.
    fn process_one<const BUF: usize>(&mut self, recv: &mut Buf<BUF>, plain: &mut usize) -> (r:
        Option<Result<(), Error>>)
        requires
            io::plain_buf(old(recv)),
            *old(plain) <= old(recv)@.len(),
            recv_numbers_left(old(self)@, old(recv)@.len() - *old(plain)),
        ensures
            io::plain_buf(final(recv)),
            match round(old(self)@, old(recv)@.skip(*old(plain) as int), BUF as int) {
                Round::Done { outcome } => {
                    &&& r == Some(outcome.result)
                    &&& final(self)@ == outcome.conn
                    &&& *final(plain) == *old(plain) + outcome.plain.len()
                    &&& final(recv)@.len() == *final(plain) + outcome.rest.len()
                    &&& final(recv)@.take(*final(plain) as int) == old(recv)@.take(
                        *old(plain) as int,
                    ) + outcome.plain
                    &&& outcome.intact ==> final(recv)@.skip(*final(plain) as int) == outcome.rest
                },
                Round::More { conn, app, rest } => {
                    &&& r is None
                    &&& final(self)@ == conn
                    &&& *final(plain) == *old(plain) + app.len()
                    &&& final(recv)@.len() == *final(plain) + rest.len()
                    &&& final(recv)@.take(*final(plain) as int) == old(recv)@.take(
                        *old(plain) as int,
                    ) + app
                    &&& final(recv)@.skip(*final(plain) as int) == rest
                    &&& rest.len() + 5 <= old(recv)@.len() - *old(plain)
                    &&& recv_numbers_left(conn, rest.len() as int)
                },
            },
    {
        let off = *plain;
        let len = recv.len();
        let ghost before = recv@;
        let ghost m = self@;
        let ghost c = before.skip(off as int);
        assert(before.take(off as int) + Seq::<u8>::empty() =~= before.take(off as int));
        if len - off < RECORD_HEADER_LEN {
            return Some(Ok(()));
        }
        let mut header: [u8; 5] = [0u8; 5];
        bytes::copy_at(&mut header, 0, &recv.as_slice()[off..off + RECORD_HEADER_LEN]);
        assert(header@ =~= c.take(5));
        let decoded = record::decode_record_header(header.as_slice());
        assert(record::header_at(header@) == record::header_at(c));
        let hdr = match decoded {
            Ok(h) => h,
            Err(e) => {
                return Some(Err(e));
            },
        };
        let payload_len = hdr.length as usize;
        let total = RECORD_HEADER_LEN + payload_len;
        // A record larger than the receive buffer can never be assembled: fail
        // fast instead of waiting for bytes that will not be taken.
        if total > BUF {
            return Some(Err(Error::BufferTooSmall { needed: total }));
        }
        if len - off < total {
            return Some(Ok(()));
        }
        let ps = off + RECORD_HEADER_LEN;
        let ghost payload0 = c.subrange(5, total as int);
        let ghost step = record_step(m, hdr.content_type, header@, payload0);
        let ghost payload1: Seq<u8>;
        let processed = {
            let whole = recv.as_mut_slice();
            let (_, tail) = whole.split_at_mut(ps);
            let (payload, _) = tail.split_at_mut(payload_len);
            assert(payload@ =~= payload0);
            let p = self.process_record(hdr.content_type, &header, payload);
            proof {
                payload1 = payload@;
            }
            p
        };
        let ghost mid = recv@;
        proof {
            assert(mid.subrange(ps as int, ps + payload_len) =~= payload1);
            assert(mid.len() == before.len());
            assert(mid.take(off as int) =~= before.take(off as int));
            assert(mid.skip(off + total) =~= before.skip(off + total));
            assert(c.skip(total as int) =~= before.skip(off + total));
            lemma_next_numbers(m, hdr.content_type, header@, payload0);
            match step {
                RecordStep::Next { app: Some(d), .. } => {
                    assert(mid.subrange(ps as int, ps + d.len()) =~= payload1.take(
                        d.len() as int,
                    ));
                },
                RecordStep::Fail { touched: false, .. } => {
                    assert(mid =~= mid.take(ps as int) + mid.subrange(
                        ps as int,
                        ps + payload_len,
                    ) + mid.skip(ps + payload_len));
                    assert(before =~= before.take(ps as int) + payload0 + before.skip(
                        ps + payload_len,
                    ));
                    assert(mid.take(ps as int) =~= before.take(ps as int));
                },
                _ => {},
            }
        }
        self.finish_record(recv, plain, total, processed, Ghost(step), Ghost(before))
    }

    /// Process received TLS records from the receive buffer.
    ///
    /// `*plain` is the boundary between decrypted application plaintext
    /// (`recv[..*plain]`, kept for the app) and raw ciphertext
    /// (`recv[*plain..]`, zero or more records, possibly a partial one at the
    /// end). Each complete record is taken from the ciphertext region:
    /// application data is decrypted in place and compacted down onto the end of
    /// the plaintext region (advancing `*plain`); every other record is handled
    /// and removed. `*plain` is kept correct on every return path.
    pub fn process_recv<const BUF: usize>(&mut self, recv: &mut Buf<BUF>, plain: &mut usize) -> (r:
        Result<(), Error>)
        requires
            io::plain_buf(old(recv)),
            *old(plain) <= old(recv)@.len(),
            recv_numbers_left(old(self)@, old(recv)@.len() - *old(plain)),
        ensures
            io::plain_buf(final(recv)),
            ({
                let want = received(old(self)@, old(recv)@.skip(*old(plain) as int), BUF as int);
                &&& final(self)@ == want.conn
                &&& r == want.result
                &&& *final(plain) == *old(plain) + want.plain.len()
                &&& final(recv)@.len() == *final(plain) + want.rest.len()
                &&& final(recv)@.take(*final(plain) as int) == old(recv)@.take(*old(plain) as int)
                    + want.plain
                &&& want.intact ==> final(recv)@.skip(*final(plain) as int) == want.rest
            }),
    {
        let ghost head = recv@.take(*plain as int);
        let ghost want = received(self@, recv@.skip(*plain as int), BUF as int);
        let ghost mut acc: Seq<u8> = Seq::empty();
        proof {
            assert(acc + want.plain =~= want.plain);
            assert(head + acc =~= head);
        }
        loop
            invariant
                io::plain_buf(recv),
                *plain <= recv@.len(),
                recv@.take(*plain as int) == head + acc,
                *plain == head.len() + acc.len(),
                head == old(recv)@.take(*old(plain) as int),
                *old(plain) <= old(recv)@.len(),
                want == received(old(self)@, old(recv)@.skip(*old(plain) as int), BUF as int),
                recv_numbers_left(self@, recv@.len() - *plain),
                ({
                    let cur = received(self@, recv@.skip(*plain as int), BUF as int);
                    want == (Received { plain: acc + cur.plain, ..cur })
                }),
            decreases recv@.len() - *plain,
        {
            let ghost c = recv@.skip(*plain as int);
            let ghost m = self@;
            let ended = self.process_one(recv, plain);
            proof {
                match round(m, c, BUF as int) {
                    Round::Done { outcome } => {
                        assert(head + acc + outcome.plain =~= head + (acc + outcome.plain));
                    },
                    Round::More { conn, app, rest } => {
                        let more = received(conn, rest, BUF as int);
                        assert(head + acc + app =~= head + (acc + app));
                        assert(acc + (app + more.plain) =~= (acc + app) + more.plain);
                        acc = acc + app;
                    },
                }
            }
            match ended {
                Some(result) => {
                    return result;
                },
                None => {},
            }
        }
    }
}

/// What feeding network data comes to, for a receive buffer that shows decrypted
/// data and hides received bytes: the new bytes join the hidden ones, and all of
/// them are processed. If they do not fit, nothing but the engine's record size
/// limit changes.
pub open spec fn fed<C: CryptoProvider>(m: TlsModel<C>, b: BufModel, data: Seq<u8>, cap: int) -> Received<
    C,
> {
    let m1 = m.with_limit(cap);
    if b.size() + data.len() > cap {
        Received {
            conn: m1,
            plain: Seq::empty(),
            rest: b.hidden,
            intact: true,
            result: Err(Error::BufferTooSmall { needed: (b.size() + data.len()) as usize }),
        }
    } else {
        received(m1, b.hidden + data, cap)
    }
}

impl<C: CryptoProvider> TlsConnection<C> {
    /// Feed raw TCP data into the connection.
    ///
    /// Records are decrypted **in place** inside `io.recv_buf`: between calls
    /// the buffer's visible contents are exactly the decrypted plaintext ready
    /// for the application, while any remaining ciphertext (a partial trailing
    /// record, or records left unprocessed after an alert) is parked as a hidden
    /// tail. That holds on every exit.
    pub fn feed_data<const BUF: usize>(&mut self, io: &mut TlsIo<'_, BUF>, data: &[u8]) -> (r:
        Result<(), Error>)
        requires
            old(io).recv_buf.wf(),
            old(io).recv_buf.model().size() + data@.len() <= usize::MAX,
            recv_numbers_left(old(self)@, BUF as int),
        ensures
            final(io).recv_buf.wf(),
            *final(final(io).recv_buf) == *final(old(io).recv_buf),
            final(io).send_buf == old(io).send_buf,
            final(io).app_send_buf == old(io).app_send_buf,
            ({
                let want = fed(old(self)@, old(io).recv_buf.model(), data@, BUF as int);
                &&& final(self)@ == want.conn
                &&& r == want.result
                &&& final(io).recv_buf@ == old(io).recv_buf@ + want.plain
                &&& final(io).recv_buf.hidden_tail().len() == want.rest.len()
                &&& want.intact ==> final(io).recv_buf.hidden_tail() == want.rest
            }),
    {
        self.engine.set_local_record_size_limit(connection::local_record_size_limit::<BUF>());
        let ghost model = io.recv_buf.model();
        let ghost m1 = self@;
        let mut plain = io.recv_buf.len();
        let _ = io.recv_buf.unhide_tail();
        let ghost all = io.recv_buf@;
        proof {
            io.recv_buf.lemma_bounds();
            assert(all.take(plain as int) =~= model.visible);
            assert(all.skip(plain as int) =~= model.hidden);
        }
        let result = self.feed_revealed(io, data, &mut plain);
        let len = io.recv_buf.len();
        let ghost after = io.recv_buf@;
        io.recv_buf.hide_tail(len - plain);
        proof {
            let want = fed(old(self)@, model, data@, BUF as int);
            assert(after.take(len - (len - plain)) =~= after.take(plain as int));
            assert(after.skip(len - (len - plain)) =~= after.skip(plain as int));
            assert(after.skip(plain as int) + Seq::<u8>::empty() =~= after.skip(plain as int));
            assert(model.visible + Seq::<u8>::empty() =~= model.visible);
        }
        result
    }

    /// Body of `feed_data` running with the ciphertext tail revealed.
    fn feed_revealed<const BUF: usize>(
        &mut self,
        io: &mut TlsIo<'_, BUF>,
        data: &[u8],
        plain: &mut usize,
    ) -> (r: Result<(), Error>)
        requires
            io::plain_buf(old(io).recv_buf),
            *old(plain) <= old(io).recv_buf@.len(),
            old(io).recv_buf@.len() + data@.len() <= usize::MAX,
            recv_numbers_left(old(self)@, BUF as int),
        ensures
            io::plain_buf(final(io).recv_buf),
            *final(final(io).recv_buf) == *final(old(io).recv_buf),
            final(io).send_buf == old(io).send_buf,
            final(io).app_send_buf == old(io).app_send_buf,
            *final(plain) <= final(io).recv_buf@.len(),
            ({
                let have = old(io).recv_buf@;
                let after = final(io).recv_buf@;
                if have.len() + data@.len() > BUF {
                    &&& r == Err::<(), Error>(
                        Error::BufferTooSmall { needed: (have.len() + data@.len()) as usize },
                    )
                    &&& final(self)@ == old(self)@
                    &&& after == have
                    &&& *final(plain) == *old(plain)
                } else {
                    let want = received(
                        old(self)@,
                        have.skip(*old(plain) as int) + data@,
                        BUF as int,
                    );
                    &&& final(self)@ == want.conn
                    &&& r == want.result
                    &&& *final(plain) == *old(plain) + want.plain.len()
                    &&& after.len() == *final(plain) + want.rest.len()
                    &&& after.take(*final(plain) as int) == have.take(*old(plain) as int)
                        + want.plain
                    &&& want.intact ==> after.skip(*final(plain) as int) == want.rest
                }
            }),
    {
        let have = io.recv_buf.len();
        proof {
            io.recv_buf.lemma_bounds();
        }
        if have + data.len() > BUF {
            return Err(Error::BufferTooSmall { needed: have + data.len() });
        }
        let ghost before = io.recv_buf@;
        let _ = io.recv_buf.extend_from_slice(data);
        proof {
            let p = *plain as int;
            assert(io.recv_buf@.take(p) =~= before.take(p));
            assert(io.recv_buf@.skip(p) =~= before.skip(p) + data@);
        }
        self.process_recv(io.recv_buf, plain)
    }
}

} // verus!
