//! TLS 1.3 connection state machine over TCP.
//!
//! Bytes go in with `feed_data`, come out with `poll_output`, and events are
//! polled with `poll_event`.

use vstd::prelude::*;

use crate::buf::BufExt;
use crate::bytes;
use crate::crypto::key_schedule;
use crate::crypto::{Aead, CryptoProvider, Level};
use crate::error::Error;
use crate::fixed;
use crate::tcp_tls::io::{self, TlsIo};
use crate::tls::{DerivedKeys, TlsSession};

verus! {

/// Events produced by TlsConnection.
#[derive(Debug, Clone, Copy, PartialEq, Eq, Structural)]
pub enum TlsEvent {
    /// TLS handshake is complete; application data can now flow.
    HandshakeComplete,
    /// Application data is available (call `recv_app_data`).
    AppData,
    /// Peer sent a close_notify alert.
    PeerClosed,
}

/// Connection state.
#[derive(Debug, Clone, Copy, PartialEq, Eq, Structural)]
pub enum ConnState {
    /// TLS handshake in progress (plaintext records).
    Handshake,
    /// Handshake in progress, ServerHello received, handshake records encrypted.
    HandshakeEncrypted,
    /// Handshake complete, application data flowing.
    Active,
    /// close_notify sent or received.
    Closing,
    /// Connection fully closed.
    Closed,
}

/// AEAD + IV for one direction.
pub struct DirectionalRecordKeys<A: Aead> {
    pub aead: A,
    pub iv: [u8; 12],
}

/// What [`DirectionalRecordKeys`] hold.
#[verifier::ext_equal]
#[verifier::reject_recursive_types(A)]
pub struct RecordKey<A> {
    pub aead: A,
    pub iv: Seq<u8>,
}

impl<A: Aead> View for DirectionalRecordKeys<A> {
    type V = RecordKey<A>;

    open spec fn view(&self) -> RecordKey<A> {
        RecordKey { aead: self.aead, iv: self.iv@ }
    }
}

/// What optional keys hold.
pub open spec fn key_view<A: Aead>(k: Option<DirectionalRecordKeys<A>>) -> Option<RecordKey<A>> {
    match k {
        Some(d) => Some(d@),
        None => None,
    }
}

/// The record size limit that stands for "no limit".
pub const NO_RECORD_LIMIT: u16 = 16385;

/// TLS 1.3 connection state machine.
///
/// I/O buffers are **not** owned by this struct; callers provide them via
/// [`TlsIo`] on every method that touches network or application data.
pub struct TlsConnection<C: CryptoProvider> {
    pub provider: C,
    pub engine: C::Tls,
    pub state: ConnState,
    /// How much of the send buffer was handed out.
    pub send_offset: usize,
    pub hs_send: Option<DirectionalRecordKeys<C::Aead>>,
    pub hs_recv: Option<DirectionalRecordKeys<C::Aead>>,
    pub app_send: Option<DirectionalRecordKeys<C::Aead>>,
    pub app_recv: Option<DirectionalRecordKeys<C::Aead>>,
    pub send_seq: u64,
    pub recv_seq: u64,
    pub hs_send_seq: u64,
    pub hs_recv_seq: u64,
    /// The most plaintext-plus-content-type bytes per record that the peer
    /// receives; "no limit" until the peer advertises one during the handshake.
    pub peer_record_limit: u16,
    pub events: heapless::Deque<TlsEvent, 8>,
    pub engine_output_pending: bool,
    /// Whether ChangeCipherSpec (for middlebox compatibility) was sent.
    pub ccs_sent: bool,
}

/// What a [`TlsConnection`] holds.
#[verifier::ext_equal]
#[verifier::reject_recursive_types(C)]
pub struct TlsModel<C: CryptoProvider> {
    pub provider: C,
    pub engine: C::Tls,
    pub state: ConnState,
    pub send_offset: usize,
    pub hs_send: Option<RecordKey<C::Aead>>,
    pub hs_recv: Option<RecordKey<C::Aead>>,
    pub app_send: Option<RecordKey<C::Aead>>,
    pub app_recv: Option<RecordKey<C::Aead>>,
    pub send_seq: u64,
    pub recv_seq: u64,
    pub hs_send_seq: u64,
    pub hs_recv_seq: u64,
    pub peer_limit: u16,
    pub events: Seq<TlsEvent>,
    pub output_pending: bool,
    pub ccs_sent: bool,
}

impl<C: CryptoProvider> View for TlsConnection<C> {
    type V = TlsModel<C>;

    open spec fn view(&self) -> TlsModel<C> {
        TlsModel {
            provider: self.provider,
            engine: self.engine,
            state: self.state,
            send_offset: self.send_offset,
            hs_send: key_view(self.hs_send),
            hs_recv: key_view(self.hs_recv),
            app_send: key_view(self.app_send),
            app_recv: key_view(self.app_recv),
            send_seq: self.send_seq,
            recv_seq: self.recv_seq,
            hs_send_seq: self.hs_send_seq,
            hs_recv_seq: self.hs_recv_seq,
            peer_limit: self.peer_record_limit,
            events: fixed::events(self.events),
            output_pending: self.engine_output_pending,
            ccs_sent: self.ccs_sent,
        }
    }
}

/// The cipher and IV for a traffic secret.
pub open spec fn key_for_secret<C: CryptoProvider>(provider: C, secret: Seq<u8>) -> Result<
    RecordKey<C::Aead>,
    Error,
> {
    match key_schedule::record_keys::<C::Hkdf>(secret, provider.key_size()) {
        Ok((key, iv)) => match provider.aead_for(key) {
            Ok(aead) => Ok(RecordKey { aead, iv }),
            Err(e) => Err(e),
        },
        Err(e) => Err(e),
    }
}

impl<C: CryptoProvider> TlsModel<C> {
    /// A fresh connection.
    pub open spec fn fresh(provider: C, engine: C::Tls) -> TlsModel<C> {
        TlsModel {
            provider,
            engine,
            state: ConnState::Handshake,
            send_offset: 0,
            hs_send: None,
            hs_recv: None,
            app_send: None,
            app_recv: None,
            send_seq: 0,
            recv_seq: 0,
            hs_send_seq: 0,
            hs_recv_seq: 0,
            peer_limit: NO_RECORD_LIMIT,
            events: Seq::empty(),
            output_pending: true,
            ccs_sent: false,
        }
    }

    /// An event was raised; when the queue is full it is dropped.
    pub open spec fn raise(self, e: TlsEvent) -> TlsModel<C> {
        TlsModel {
            events: if self.events.len() < fixed::EVENT_CAP {
                self.events.push(e)
            } else {
                self.events
            },
            ..self
        }
    }

    /// The engine was told the record size limit that follows from a receive
    /// buffer of `buf` bytes.
    pub open spec fn with_limit(self, buf: int) -> TlsModel<C> {
        TlsModel { engine: self.engine.limit_step(local_limit(buf)), ..self }
    }

    /// Traffic secrets were installed, the sending direction first: those of the
    /// handshake start record encryption with fresh sequence numbers; Initial
    /// secrets do not occur in TLS over TCP. If the receiving key cannot be made,
    /// the sending one stays.
    pub open spec fn installed(self, keys: DerivedKeys) -> (TlsModel<C>, Result<(), Error>) {
        let send = key_for_secret(self.provider, keys.send_secret@.take(keys.secret_len as int));
        let recv = key_for_secret(self.provider, keys.recv_secret@.take(keys.secret_len as int));
        match keys.level {
            Level::Initial => (self, Ok(())),
            Level::Handshake => match send {
                Ok(s) => match recv {
                    Ok(r) => (
                        TlsModel {
                            hs_send: Some(s),
                            hs_recv: Some(r),
                            hs_send_seq: 0,
                            hs_recv_seq: 0,
                            state: ConnState::HandshakeEncrypted,
                            output_pending: true,
                            ..self
                        },
                        Ok(()),
                    ),
                    Err(e) => (TlsModel { hs_send: Some(s), ..self }, Err(e)),
                },
                Err(e) => (self, Err(e)),
            },
            Level::Application => match send {
                Ok(s) => match recv {
                    Ok(r) => (
                        TlsModel {
                            app_send: Some(s),
                            app_recv: Some(r),
                            output_pending: true,
                            ..self
                        },
                        Ok(()),
                    ),
                    Err(e) => (TlsModel { app_send: Some(s), ..self }, Err(e)),
                },
                Err(e) => (self, Err(e)),
            },
        }
    }

    /// All secrets that the engine has ready were installed, until one fails.
    pub open spec fn all_installed(self) -> (TlsModel<C>, Result<(), Error>)
        decreases self.engine.keys_pending(),
    {
        let (engine, keys) = self.engine.keys_step();
        let m = TlsModel { engine, ..self };
        match keys {
            Some(k) => {
                let (m1, r) = m.installed(k);
                match r {
                    Ok(()) => if m1.engine.keys_pending() < self.engine.keys_pending() {
                        m1.all_installed()
                    } else {
                        (m1, Ok(()))
                    },
                    Err(e) => (m1, Err(e)),
                }
            },
            None => (m, Ok(())),
        }
    }

    /// The handshake is over: application data flows with fresh sequence numbers
    /// and the handshake keys are gone.
    pub open spec fn activated(self) -> TlsModel<C> {
        if self.engine.complete() && self.state != ConnState::Active {
            TlsModel {
                state: ConnState::Active,
                send_seq: 0,
                recv_seq: 0,
                engine: self.engine.shrink_step(),
                hs_send: None,
                hs_recv: None,
                ..self
            }.raise(TlsEvent::HandshakeComplete)
        } else {
            self
        }
    }

    /// What the engine learned was taken over: the peer's record size limit, new
    /// keys, the end of the handshake.
    pub open spec fn checked(self) -> (TlsModel<C>, Result<(), Error>) {
        let m = TlsModel {
            peer_limit: match self.engine.peer_limit() {
                Some(l) => l,
                None => self.peer_limit,
            },
            ..self
        };
        let (m1, r) = m.all_installed();
        match r {
            Ok(()) => (m1.activated(), Ok(())),
            Err(e) => (m1, Err(e)),
        }
    }

    /// An alert arrived: close_notify starts closing, anything else ends the
    /// connection.
    pub open spec fn alerted(self, desc: u8) -> (TlsModel<C>, Result<(), Error>) {
        if desc == 0 {
            (
                TlsModel { state: ConnState::Closing, ..self }.raise(TlsEvent::PeerClosed),
                Ok(()),
            )
        } else {
            (TlsModel { state: ConnState::Closed, ..self }, Err(Error::Tls))
        }
    }

    /// The most plaintext per outgoing record: the peer's limit counts the
    /// content-type byte; at least one byte, at most what TLS 1.3 allows.
    pub open spec fn plaintext_cap(self) -> int {
        if self.peer_limit <= 2 {
            1
        } else if self.peer_limit > 16385 {
            16384
        } else {
            self.peer_limit - 1
        }
    }
}

/// The record size limit to advertise for a receive buffer of `buf` bytes: a
/// margin of 64 bytes covers header, content type and tag; the result stays in
/// the legal range.
pub open spec fn local_limit(buf: int) -> u16 {
    if buf < 128 {
        64
    } else if buf > 16449 {
        16385
    } else {
        (buf - 64) as u16
    }
}

/// The record size limit to advertise.
pub fn local_record_size_limit<const BUF: usize>() -> (r: u16)
    ensures
        r == local_limit(BUF as int),
{
    if BUF < 128 {
        64
    } else if BUF > 16449 {
        16385
    } else {
        (BUF - 64) as u16
    }
}

impl<C: CryptoProvider> TlsConnection<C> {
    /// Create a new client-side TLS connection.
    pub fn new_client(
        provider: C,
        config: <C::Tls as TlsSession>::ClientConfig,
        secret: [u8; 32],
        random: [u8; 32],
    ) -> (r: Self)
        ensures
            r@ == TlsModel::<C>::fresh(provider, C::Tls::tcp_client(config, secret@, random@)),
    {
        let engine = C::Tls::new_tcp_client(config, secret, random);
        Self::new(provider, engine)
    }

    /// Create a new server-side TLS connection.
    pub fn new_server(
        provider: C,
        config: <C::Tls as TlsSession>::ServerConfig,
        secret: [u8; 32],
        random: [u8; 32],
    ) -> (r: Self)
        ensures
            r@ == TlsModel::<C>::fresh(provider, C::Tls::tcp_server(config, secret@, random@)),
    {
        let engine = C::Tls::new_tcp_server(config, secret, random);
        Self::new(provider, engine)
    }

    fn new(provider: C, engine: C::Tls) -> (r: Self)
        ensures
            r@ == TlsModel::<C>::fresh(provider, engine),
    {
        TlsConnection {
            provider,
            engine,
            state: ConnState::Handshake,
            send_offset: 0,
            hs_send: None,
            hs_recv: None,
            app_send: None,
            app_recv: None,
            send_seq: 0,
            recv_seq: 0,
            hs_send_seq: 0,
            hs_recv_seq: 0,
            peer_record_limit: NO_RECORD_LIMIT,
            events: fixed::events_new(),
            engine_output_pending: true,
            ccs_sent: false,
        }
    }

    /// Poll for the next TLS event.
    pub fn poll_event(&mut self) -> (r: Option<TlsEvent>)
        ensures
            r == (if old(self)@.events.len() > 0 {
                Some(old(self)@.events[0])
            } else {
                None::<TlsEvent>
            }),
            final(self)@ == (TlsModel {
                events: if old(self)@.events.len() > 0 {
                    old(self)@.events.drop_first()
                } else {
                    old(self)@.events
                },
                ..old(self)@
            }),
    {
        fixed::events_pop_front(&mut self.events)
    }

    /// Read decrypted application data (the visible plaintext prefix of
    /// `io.recv_buf`): as much as `buf` holds. `WouldBlock` if there is none.
    pub fn recv_app_data<const BUF: usize>(
        &mut self,
        io: &mut TlsIo<'_, BUF>,
        buf: &mut [u8],
    ) -> (r: Result<usize, Error>)
        requires
            old(io).recv_buf.wf(),
        ensures
            *final(self) == *old(self),
            final(io).recv_buf.wf(),
            *final(final(io).recv_buf) == *final(old(io).recv_buf),
            final(io).send_buf == old(io).send_buf,
            final(io).app_send_buf == old(io).app_send_buf,
            final(buf)@.len() == old(buf)@.len(),
            ({
                let have = old(io).recv_buf@;
                let n = if have.len() < old(buf)@.len() {
                    have.len()
                } else {
                    old(buf)@.len()
                };
                if have.len() == 0 {
                    r == Err::<usize, Error>(Error::WouldBlock) && final(buf)@ == old(buf)@
                        && final(io).recv_buf.model() == old(io).recv_buf.model()
                } else {
                    r == Ok::<usize, Error>(n as usize) && final(buf)@ == have.take(n as int)
                        + old(buf)@.skip(n as int) && final(io).recv_buf.model() == old(
                        io).recv_buf.model().drain_front(n as int)
                }
            }),
    {
        if io.recv_buf.is_empty() {
            return Err(Error::WouldBlock);
        }
        let have = io.recv_buf.len();
        let room = buf.len();
        let n = if have < room {
            have
        } else {
            room
        };
        bytes::copy_at(buf, 0, io.recv_buf.as_slice().split_at(n).0);
        assert(buf@ =~= old(io).recv_buf@.take(n as int) + old(buf)@.skip(n as int));
        io.recv_buf.buf_drain_front(n);
        Ok(n)
    }

    /// Queue application data for encryption and sending.
    pub fn send_app_data<const BUF: usize>(&mut self, io: &mut TlsIo<'_, BUF>, data: &[u8]) -> (r:
        Result<usize, Error>)
        requires
            io::plain_buf(old(io).app_send_buf),
            old(io).app_send_buf@.len() + data@.len() <= usize::MAX,
        ensures
            *final(self) == *old(self),
            io::plain_buf(final(io).app_send_buf),
            *final(final(io).app_send_buf) == *final(old(io).app_send_buf),
            final(io).send_buf == old(io).send_buf,
            final(io).recv_buf == old(io).recv_buf,
            r == (if old(self).state != ConnState::Active {
                Err::<usize, Error>(Error::InvalidState)
            } else if old(io).app_send_buf@.len() + data@.len() > BUF {
                Err::<usize, Error>(
                    Error::BufferTooSmall {
                        needed: (old(io).app_send_buf@.len() + data@.len()) as usize,
                    },
                )
            } else {
                Ok::<usize, Error>(data@.len() as usize)
            }),
            final(io).app_send_buf@ == (if r is Ok {
                old(io).app_send_buf@ + data@
            } else {
                old(io).app_send_buf@
            }),
    {
        if self.state != ConnState::Active {
            return Err(Error::InvalidState);
        }
        match io.app_send_buf.buf_extend_from_slice(data) {
            Ok(()) => Ok(data.len()),
            Err(e) => Err(e),
        }
    }

    /// Get the negotiated ALPN protocol, if any.
    pub fn alpn(&self) -> (r: Option<&[u8]>)
        ensures
            match self@.engine.alpn_name() {
                Some(name) => r matches Some(s) && s@ == name,
                None => r is None,
            },
    {
        self.engine.alpn()
    }

    /// Whether the connection is active (handshake complete, not closed).
    pub fn is_active(&self) -> (r: bool)
        ensures
            r == (self.state == ConnState::Active),
    {
        self.state == ConnState::Active
    }

    /// Whether the connection is closed.
    pub fn is_closed(&self) -> (r: bool)
        ensures
            r == (self.state == ConnState::Closed || self.state == ConnState::Closing),
    {
        self.state == ConnState::Closed || self.state == ConnState::Closing
    }

    /// Raises an event; when the queue is full it is dropped.
    pub(crate) fn raise(&mut self, e: TlsEvent)
        ensures
            final(self)@ == old(self)@.raise(e),
    {
        let _ = fixed::events_push_back(&mut self.events, e);
    }

    /// Takes over what the engine learned.
    pub fn check_keys(&mut self) -> (r: Result<(), Error>)
        ensures
            (final(self)@, r) == old(self)@.checked(),
    {
        match self.engine.peer_record_size_limit() {
            Some(limit) => {
                self.peer_record_limit = limit;
            },
            None => {},
        }
        let ghost start = self@;
        loop
            invariant_except_break
                self@.all_installed() == start.all_installed(),
            invariant
                start == (TlsModel {
                    peer_limit: match old(self)@.engine.peer_limit() {
                        Some(l) => l,
                        None => old(self)@.peer_limit,
                    },
                    ..old(self)@
                }),
            ensures
                (self@, Ok::<(), Error>(())) == start.all_installed(),
            decreases self.engine.keys_pending(),
        {
            let ghost before = self@;
            match self.engine.derived_keys() {
                Some(keys) => {
                    match self.install_keys(keys) {
                        Ok(()) => {},
                        Err(e) => {
                            return Err(e);
                        },
                    }
                },
                None => {
                    break;
                },
            }
        }
        if self.engine.is_complete() && self.state != ConnState::Active {
            self.state = ConnState::Active;
            self.send_seq = 0;
            self.recv_seq = 0;
            self.engine.shrink_post_handshake();
            self.hs_send = None;
            self.hs_recv = None;
            self.raise(TlsEvent::HandshakeComplete);
        }
        Ok(())
    }

    /// The cipher and IV for a traffic secret.
    fn derive_record_keys(&self, secret: &[u8]) -> (r: Result<DirectionalRecordKeys<C::Aead>, Error>)
        ensures
            match key_for_secret(self.provider, secret@) {
                Ok(k) => r matches Ok(d) && d@ == k,
                Err(e) => r == Err::<DirectionalRecordKeys<C::Aead>, Error>(e),
            },
    {
        let hkdf = C::Hkdf::default();
        let key_len = self.provider.key_len();
        let mut key_buf: [u8; 32] = [0u8; 32];
        let mut iv: [u8; 12] = [0u8; 12];
        let whole: &mut [u8] = &mut key_buf;
        let (key, _) = whole.split_at_mut(key_len);
        match key_schedule::derive_tls_record_keys(&hkdf, secret, key, &mut iv) {
            Ok(()) => {},
            Err(e) => {
                return Err(e);
            },
        }
        match self.provider.aead(key) {
            Ok(aead) => Ok(DirectionalRecordKeys { aead, iv }),
            Err(e) => Err(e),
        }
    }

    /// Installs the keys for newly derived traffic secrets.
    pub fn install_keys(&mut self, keys: DerivedKeys) -> (r: Result<(), Error>)
        requires
            keys.secret_len <= 48,
        ensures
            (final(self)@, r) == old(self)@.installed(keys),
            final(self).engine == old(self).engine,
    {
        let send_secret = keys.send_secret.as_slice().split_at(keys.secret_len).0;
        let recv_secret = keys.recv_secret.as_slice().split_at(keys.secret_len).0;
        match keys.level {
            Level::Handshake => {
                match self.derive_record_keys(send_secret) {
                    Ok(k) => {
                        self.hs_send = Some(k);
                    },
                    Err(e) => {
                        return Err(e);
                    },
                }
                match self.derive_record_keys(recv_secret) {
                    Ok(k) => {
                        self.hs_recv = Some(k);
                    },
                    Err(e) => {
                        return Err(e);
                    },
                }
                self.hs_send_seq = 0;
                self.hs_recv_seq = 0;
                self.state = ConnState::HandshakeEncrypted;
                self.engine_output_pending = true;
            },
            Level::Application => {
                match self.derive_record_keys(send_secret) {
                    Ok(k) => {
                        self.app_send = Some(k);
                    },
                    Err(e) => {
                        return Err(e);
                    },
                }
                match self.derive_record_keys(recv_secret) {
                    Ok(k) => {
                        self.app_recv = Some(k);
                    },
                    Err(e) => {
                        return Err(e);
                    },
                }
                self.engine_output_pending = true;
            },
            Level::Initial => {},
        }
        Ok(())
    }

    /// Reacts to an alert of the peer.
    pub fn handle_alert_desc(&mut self, desc: u8) -> (r: Result<(), Error>)
        ensures
            (final(self)@, r) == old(self)@.alerted(desc),
    {
        if desc == 0 {
            self.state = ConnState::Closing;
            self.raise(TlsEvent::PeerClosed);
            Ok(())
        } else {
            self.state = ConnState::Closed;
            Err(Error::Tls)
        }
    }

    /// Max plaintext bytes per outgoing protected record under the peer's limit
    /// (the advertised value counts the inner content-type byte), never exceeding
    /// the TLS 1.3 maximum of 16384 and never below 1.
    pub fn peer_plaintext_cap(&self) -> (n: usize)
        ensures
            n == self@.plaintext_cap(),
            1 <= n <= 16384,
    {
        if self.peer_record_limit <= 2 {
            1
        } else if self.peer_record_limit > 16385 {
            16384
        } else {
            self.peer_record_limit as usize - 1
        }
    }
}

} // verus!
