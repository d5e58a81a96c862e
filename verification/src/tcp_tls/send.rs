//! Sending: records are encrypted in place inside the send buffer.

use vstd::prelude::*;

use crate::buf::{Buf, BufExt};
use crate::bytes;
use crate::crypto::{self, Aead, CryptoProvider, Level, TAG_LEN};
use crate::error::Error;
use crate::tcp_tls::connection::{self, ConnState, TlsConnection, TlsModel};
use crate::tcp_tls::io::{self, TlsIo};
use crate::tcp_tls::record::{self, ContentType, MAX_PLAINTEXT, RECORD_HEADER_LEN};
use crate::tls::TlsSession;

verus! {

/// The protected record for `data`: the content type goes inside, behind the
/// data; outside every protected record is application data. The header is the
/// associated data.
pub open spec fn sealed_record<A: Aead>(
    aead: A,
    nonce: Seq<u8>,
    data: Seq<u8>,
    inner: ContentType,
) -> Result<Seq<u8>, Error> {
    let len = data.len() + 1 + TAG_LEN as nat;
    let header = record::header_bytes(ContentType::ApplicationData, len as u16);
    match aead.sealed(nonce, header, data.push(record::content_code(inner)), len) {
        Ok(ct) => Ok(header + ct),
        Err(e) => Err(e),
    }
}

/// The room that a protected record needs.
pub open spec fn record_room(data: Seq<u8>) -> nat {
    RECORD_HEADER_LEN as nat + data.len() + 1 + TAG_LEN as nat
}

/// The send buffer, of `cap` bytes, with a protected record for `data` behind
/// what it holds; an error if the record does not fit or cannot be sealed.
pub open spec fn with_record<A: Aead>(
    send: Seq<u8>,
    aead: A,
    nonce: Seq<u8>,
    data: Seq<u8>,
    inner: ContentType,
    cap: int,
) -> Result<Seq<u8>, Error> {
    let needed = send.len() + record_room(data);
    if needed > cap {
        Err(Error::BufferTooSmall { needed: needed as usize })
    } else {
        match sealed_record(aead, nonce, data, inner) {
            Ok(r) => Ok(send + r),
            Err(e) => Err(e),
        }
    }
}

/// Encrypt a TLS record directly into `send_buf`, avoiding any large temporary.
///
/// Writes a complete TLS record: 5-byte header, then the sealed data and inner
/// content type. On an error no record was emitted: no part of one stays in the
/// buffer, since the sequence number advances only with a committed record.
pub fn encrypt_into<A: Aead, const BUF: usize>(
    data: &[u8],
    inner_ct: ContentType,
    aead: &A,
    nonce: &[u8; 12],
    send_buf: &mut Buf<BUF>,
) -> (r: Result<(), Error>)
    requires
        io::plain_buf(old(send_buf)),
        data@.len() <= MAX_PLAINTEXT,
        old(send_buf)@.len() + record_room(data@) <= usize::MAX,
    ensures
        io::plain_buf(final(send_buf)),
        match with_record(old(send_buf)@, *aead, nonce@, data@, inner_ct, BUF as int) {
            Ok(s) => r == Ok::<(), Error>(()) && final(send_buf)@ == s,
            Err(e) => r == Err::<(), Error>(e) && final(send_buf)@ == old(send_buf)@,
        },
{
    let ghost before = send_buf@;
    let start = send_buf.len();
    let inner_len = data.len() + 1;
    let outer_payload_len = inner_len + TAG_LEN;
    let total_needed = RECORD_HEADER_LEN + outer_payload_len;
    if start + total_needed > BUF {
        return Err(Error::BufferTooSmall { needed: start + total_needed });
    }
    let header = record::encode_record_header(
        ContentType::ApplicationData,
        outer_payload_len as u16,
    );
    let _ = send_buf.extend_from_slice(header.as_slice());
    let enc_start = send_buf.len();
    let _ = send_buf.extend_from_slice(data);
    let _ = send_buf.push(inner_ct.to_byte());
    let tag: [u8; 16] = [0u8; 16];
    let _ = send_buf.extend_from_slice(tag.as_slice());
    let ghost inner = data@.push(record::content_code(inner_ct));
    let ghost filled = send_buf@;
    assert(filled =~= before + header@ + inner + tag@);
    let sealed = {
        let whole = send_buf.as_mut_slice();
        let (_, area) = whole.split_at_mut(enc_start);
        assert(area@.take(inner_len as int) =~= inner);
        assert(area@.len() == outer_payload_len);
        aead.seal_in_place(nonce, header.as_slice(), area, inner_len)
    };
    match sealed {
        Ok(ct_len) => {
            send_buf.truncate(enc_start + ct_len);
            proof {
                let ct = aead.sealed(nonce@, header@, inner, outer_payload_len as nat)->Ok_0;
                assert(send_buf@ =~= before + (header@ + ct));
            }
            Ok(())
        },
        Err(e) => {
            send_buf.truncate(start);
            assert(send_buf@ =~= before);
            Err(e)
        },
    }
}

/// A protected record was sent with the handshake or the application key. The
/// sequence number advances only together with a record in the buffer.
pub open spec fn record_sent<C: CryptoProvider>(
    m: TlsModel<C>,
    send: Seq<u8>,
    data: Seq<u8>,
    inner: ContentType,
    use_hs_keys: bool,
    cap: int,
) -> (TlsModel<C>, Seq<u8>, Result<(), Error>) {
    let key = if use_hs_keys {
        m.hs_send
    } else {
        m.app_send
    };
    let seq = if use_hs_keys {
        m.hs_send_seq
    } else {
        m.send_seq
    };
    match key {
        Some(k) => match with_record(
            send,
            k.aead,
            crypto::nonce_for(k.iv, seq),
            data,
            inner,
            cap,
        ) {
            Ok(s) => (
                if use_hs_keys {
                    TlsModel { hs_send_seq: (seq + 1) as u64, ..m }
                } else {
                    TlsModel { send_seq: (seq + 1) as u64, ..m }
                },
                s,
                Ok(()),
            ),
            Err(e) => (m, send, Err(e)),
        },
        None => (m, send, Err(Error::Tls)),
    }
}

/// A plaintext record in the send buffer: header, then data, each if it fits.
pub open spec fn plaintext_record(send: Seq<u8>, ct: ContentType, data: Seq<u8>, cap: int) -> Seq<
    u8,
> {
    let header = record::header_bytes(ct, data.len() as u16);
    if send.len() + header.len() <= cap {
        io::queued(send + header, data, cap)
    } else {
        send
    }
}

/// The ChangeCipherSpec record.
pub open spec fn ccs_record() -> Seq<u8> {
    seq![20u8, 3u8, 3u8, 0u8, 1u8, 1u8]
}

/// Handshake records were sent one after the other; one that fails is left out.
pub open spec fn all_sent<C: CryptoProvider>(
    m: TlsModel<C>,
    send: Seq<u8>,
    parts: Seq<Seq<u8>>,
    cap: int,
) -> (TlsModel<C>, Seq<u8>)
    decreases parts.len(),
{
    if parts.len() == 0 {
        (m, send)
    } else {
        let (m1, send1, _) = record_sent(m, send, parts[0], ContentType::Handshake, true, cap);
        all_sent(m1, send1, parts.drop_first(), cap)
    }
}

/// Handshake output was sent: in plaintext at first, then, behind one
/// ChangeCipherSpec, in protected records that respect the peer's limit.
pub open spec fn flight_sent<C: CryptoProvider>(
    m: TlsModel<C>,
    send: Seq<u8>,
    data: Seq<u8>,
    level: Level,
    cap: int,
) -> (TlsModel<C>, Seq<u8>) {
    match level {
        Level::Initial => (m, plaintext_record(send, ContentType::Handshake, data, cap)),
        Level::Handshake => all_sent(
            TlsModel { ccs_sent: true, ..m },
            if m.ccs_sent {
                send
            } else {
                io::queued(send, ccs_record(), cap)
            },
            record::fragments(data, 0, m.plaintext_cap()),
            cap,
        ),
        Level::Application => (m, send),
    }
}

/// How much handshake output is taken from the engine at a time.
pub const ENGINE_CHUNK: usize = 2048;

/// All output that the engine has was sent, until it has none or fails.
pub open spec fn engine_drained<C: CryptoProvider>(m: TlsModel<C>, send: Seq<u8>, cap: int) -> (
    TlsModel<C>,
    Seq<u8>,
)
    decreases m.engine.output_pending(),
{
    let (engine, out) = m.engine.write_step(ENGINE_CHUNK as nat);
    let m1 = TlsModel { engine, ..m };
    match out {
        Ok((data, level)) => if data.len() == 0 {
            (m1, send)
        } else {
            let (m2, send2) = flight_sent(m1, send, data, level, cap);
            if m2.engine.output_pending() < m.engine.output_pending() {
                engine_drained(m2, send2, cap)
            } else {
                (m2, send2)
            }
        },
        Err(_) => (m1, send),
    }
}

/// Pending handshake output was sent and what the engine learned taken over.
pub open spec fn engine_flushed<C: CryptoProvider>(m: TlsModel<C>, send: Seq<u8>, cap: int) -> (
    TlsModel<C>,
    Seq<u8>,
) {
    if m.output_pending {
        let (m1, send1) = engine_drained(m, send, cap);
        (TlsModel { output_pending: false, ..m1.checked().0 }, send1)
    } else {
        (m, send)
    }
}

/// What is left of application data, and the send buffer, once as many records
/// as fit were sent.
pub open spec fn app_drained<C: CryptoProvider>(
    m: TlsModel<C>,
    app: Seq<u8>,
    send: Seq<u8>,
    cap: int,
) -> (TlsModel<C>, Seq<u8>, Seq<u8>)
    decreases app.len(),
{
    let n = if app.len() < m.plaintext_cap() {
        app.len() as int
    } else {
        m.plaintext_cap()
    };
    if app.len() == 0 {
        (m, app, send)
    } else {
        let (m1, send1, r) = record_sent(
            m,
            send,
            app.take(n),
            ContentType::ApplicationData,
            false,
            cap,
        );
        match r {
            Ok(()) => app_drained(m1, app.skip(n), send1, cap),
            Err(_) => (m, app, send),
        }
    }
}

/// Queued application data was sent, as far as it fits, on an active connection.
pub open spec fn app_flushed<C: CryptoProvider>(
    m: TlsModel<C>,
    app: Seq<u8>,
    send: Seq<u8>,
    cap: int,
) -> (TlsModel<C>, Seq<u8>, Seq<u8>) {
    if m.state == ConnState::Active {
        app_drained(m, app, send, cap)
    } else {
        (m, app, send)
    }
}

/// What polling for output comes to.
#[verifier::ext_equal]
#[verifier::reject_recursive_types(C)]
pub struct Output<C: CryptoProvider> {
    pub conn: TlsModel<C>,
    pub app: Seq<u8>,
    pub send: Seq<u8>,
    pub bytes: Option<Seq<u8>>,
}

/// The next bytes of the send buffer, at most `room`; once all were handed out
/// the buffer is empty again.
pub open spec fn handed_out<C: CryptoProvider>(
    m: TlsModel<C>,
    app: Seq<u8>,
    send: Seq<u8>,
    room: int,
) -> Output<C> {
    if m.send_offset >= send.len() {
        Output { conn: m, app, send, bytes: None }
    } else {
        let avail = send.len() - m.send_offset;
        let n = if avail < room {
            avail
        } else {
            room
        };
        let end = m.send_offset + n;
        Output {
            conn: TlsModel {
                send_offset: if end >= send.len() {
                    0
                } else {
                    end as usize
                },
                ..m
            },
            app,
            send: if end >= send.len() {
                Seq::empty()
            } else {
                send
            },
            bytes: Some(send.subrange(m.send_offset as int, end)),
        }
    }
}

/// What polling for output comes to: handshake output and application data are
/// encrypted into the send buffer, then its next bytes are handed out.
pub open spec fn output<C: CryptoProvider>(
    m: TlsModel<C>,
    app: Seq<u8>,
    send: Seq<u8>,
    room: int,
    cap: int,
) -> Output<C> {
    let (m1, send1) = engine_flushed(m.with_limit(cap), send, cap);
    let (m2, app2, send2) = app_flushed(m1, app, send1, cap);
    handed_out(m2, app2, send2, room)
}

/// Whether `more` further records can be numbered in both directions of sending.
pub open spec fn send_numbers_left<C: CryptoProvider>(m: TlsModel<C>, more: int) -> bool {
    m.send_seq + more <= u64::MAX && m.hs_send_seq + more <= u64::MAX
}

impl<C: CryptoProvider> TlsConnection<C> {
    /// Sends one protected record.
    pub fn encrypt_and_send<const BUF: usize>(
        &mut self,
        send_buf: &mut Buf<BUF>,
        data: &[u8],
        inner_ct: ContentType,
        use_hs_keys: bool,
    ) -> (r: Result<(), Error>)
        requires
            io::plain_buf(old(send_buf)),
            data@.len() <= MAX_PLAINTEXT,
            old(send_buf)@.len() + record_room(data@) <= usize::MAX,
            old(self).hs_send_seq < u64::MAX,
            old(self).send_seq < u64::MAX,
        ensures
            io::plain_buf(final(send_buf)),
            (final(self)@, final(send_buf)@, r) == record_sent(
                old(self)@,
                old(send_buf)@,
                data@,
                inner_ct,
                use_hs_keys,
                BUF as int,
            ),
            final(self).engine == old(self).engine,
            r is Ok ==> final(send_buf)@.len() >= old(send_buf)@.len() + 5,
            r is Err ==> final(self)@ == old(self)@ && final(send_buf)@ == old(send_buf)@,
    {
        if use_hs_keys {
            let sent = match &self.hs_send {
                Some(keys) => {
                    let nonce = crypto::build_nonce(&keys.iv, self.hs_send_seq);
                    encrypt_into(data, inner_ct, &keys.aead, &nonce, send_buf)
                },
                None => Err(Error::Tls),
            };
            if sent.is_ok() {
                self.hs_send_seq = self.hs_send_seq + 1;
            }
            sent
        } else {
            let sent = match &self.app_send {
                Some(keys) => {
                    let nonce = crypto::build_nonce(&keys.iv, self.send_seq);
                    encrypt_into(data, inner_ct, &keys.aead, &nonce, send_buf)
                },
                None => Err(Error::Tls),
            };
            if sent.is_ok() {
                self.send_seq = self.send_seq + 1;
            }
            sent
        }
    }

    /// Sends one plaintext record: header, then data.
    pub fn wrap_plaintext_record<const BUF: usize>(
        &mut self,
        send_buf: &mut Buf<BUF>,
        ct: ContentType,
        data: &[u8],
    ) -> (r: Result<(), Error>)
        requires
            io::plain_buf(old(send_buf)),
            data@.len() <= 0xffff,
            old(send_buf)@.len() + data@.len() + 5 <= usize::MAX,
        ensures
            *final(self) == *old(self),
            io::plain_buf(final(send_buf)),
            final(send_buf)@ == plaintext_record(old(send_buf)@, ct, data@, BUF as int),
            r == (if old(send_buf)@.len() + 5 > BUF {
                Err::<(), Error>(
                    Error::BufferTooSmall { needed: (old(send_buf)@.len() + 5) as usize },
                )
            } else if old(send_buf)@.len() + 5 + data@.len() > BUF {
                Err::<(), Error>(
                    Error::BufferTooSmall {
                        needed: (old(send_buf)@.len() + 5 + data@.len()) as usize,
                    },
                )
            } else {
                Ok::<(), Error>(())
            }),
    {
        let header = record::encode_record_header(ct, data.len() as u16);
        match io::queue_send(send_buf, header.as_slice()) {
            Ok(()) => {},
            Err(e) => {
                return Err(e);
            },
        }
        io::queue_send(send_buf, data)
    }

    /// Sends an alert, protected once the connection is active.
    fn send_alert<const BUF: usize>(&mut self, send_buf: &mut Buf<BUF>, level: u8, desc: u8) -> (r:
        Result<(), Error>)
        requires
            io::plain_buf(old(send_buf)),
            old(send_buf)@.len() + 100 <= usize::MAX,
            old(self).hs_send_seq < u64::MAX,
            old(self).send_seq < u64::MAX,
        ensures
            io::plain_buf(final(send_buf)),
            (final(self)@, final(send_buf)@, r) == alert_sent(
                old(self)@,
                old(send_buf)@,
                level,
                desc,
                BUF as int,
            ),
    {
        let alert_data: [u8; 2] = [level, desc];
        assert(alert_data@ =~= seq![level, desc]);
        if self.state == ConnState::Active {
            self.encrypt_and_send(send_buf, alert_data.as_slice(), ContentType::Alert, false)
        } else {
            let header = record::encode_record_header(ContentType::Alert, 2);
            let all: [u8; 7] = [
                header[0],
                header[1],
                header[2],
                header[3],
                header[4],
                level,
                desc,
            ];
            assert(all@ =~= record::header_bytes(ContentType::Alert, 2) + seq![level, desc]);
            io::queue_send(send_buf, all.as_slice())
        }
    }

    /// Initiate a graceful close (send close_notify). A connection that is
    /// closing or closed stays as it is.
    pub fn close<const BUF: usize>(&mut self, io: &mut TlsIo<'_, BUF>) -> (r: Result<(), Error>)
        requires
            io::plain_buf(old(io).send_buf),
            old(io).send_buf@.len() + 100 <= usize::MAX,
            old(self).hs_send_seq < u64::MAX,
            old(self).send_seq < u64::MAX,
        ensures
            io::plain_buf(final(io).send_buf),
            *final(final(io).send_buf) == *final(old(io).send_buf),
            final(io).recv_buf == old(io).recv_buf,
            final(io).app_send_buf == old(io).app_send_buf,
            (final(self)@, final(io).send_buf@, r) == closed(
                old(self)@,
                old(io).send_buf@,
                BUF as int,
            ),
    {
        if self.state == ConnState::Closed || self.state == ConnState::Closing {
            return Ok(());
        }
        match self.send_alert(io.send_buf, 1, 0) {
            Ok(()) => {},
            Err(e) => {
                return Err(e);
            },
        }
        self.state = ConnState::Closing;
        Ok(())
    }
}

/// An alert was sent: protected on an active connection, in plaintext before.
pub open spec fn alert_sent<C: CryptoProvider>(
    m: TlsModel<C>,
    send: Seq<u8>,
    level: u8,
    desc: u8,
    cap: int,
) -> (TlsModel<C>, Seq<u8>, Result<(), Error>) {
    let data = seq![level, desc];
    if m.state == ConnState::Active {
        record_sent(m, send, data, ContentType::Alert, false, cap)
    } else {
        let r = record::header_bytes(ContentType::Alert, 2) + data;
        (
            m,
            io::queued(send, r, cap),
            if send.len() + r.len() <= cap {
                Ok(())
            } else {
                Err(Error::BufferTooSmall { needed: (send.len() + r.len()) as usize })
            },
        )
    }
}

/// A graceful close was initiated: once close_notify is in the send buffer the
/// connection is closing.
pub open spec fn closed<C: CryptoProvider>(m: TlsModel<C>, send: Seq<u8>, cap: int) -> (
    TlsModel<C>,
    Seq<u8>,
    Result<(), Error>,
) {
    if m.state == ConnState::Closed || m.state == ConnState::Closing {
        (m, send, Ok(()))
    } else {
        let (m1, send1, r) = alert_sent(m, send, 1, 0, cap);
        match r {
            Ok(()) => (TlsModel { state: ConnState::Closing, ..m1 }, send1, Ok(())),
            Err(e) => (m1, send1, Err(e)),
        }
    }
}

/// Sending two lists of records is sending the first, then the second.
proof fn lemma_all_sent_add<C: CryptoProvider>(
    m: TlsModel<C>,
    send: Seq<u8>,
    a: Seq<Seq<u8>>,
    b: Seq<Seq<u8>>,
    cap: int,
)
    ensures
        all_sent(m, send, a + b, cap) == all_sent(
            all_sent(m, send, a, cap).0,
            all_sent(m, send, a, cap).1,
            b,
            cap,
        ),
    decreases a.len(),
{
    if a.len() == 0 {
        assert(a + b =~= b);
    } else {
        let (m1, send1, _) = record_sent(m, send, a[0], ContentType::Handshake, true, cap);
        lemma_all_sent_add(m1, send1, a.drop_first(), b, cap);
        assert((a + b).drop_first() =~= a.drop_first() + b);
    }
}

/// Sending one record.
proof fn lemma_one_sent<C: CryptoProvider>(
    m: TlsModel<C>,
    send: Seq<u8>,
    data: Seq<u8>,
    cap: int,
)
    ensures
        ({
            let (m1, send1, _) = record_sent(m, send, data, ContentType::Handshake, true, cap);
            all_sent(m, send, seq![data], cap) == (m1, send1)
        }),
{
    reveal_with_fuel(all_sent, 2);
    assert(seq![data].drop_first() =~= Seq::<Seq<u8>>::empty());
}

impl<C: CryptoProvider> TlsConnection<C> {
    /// Whether there are sequence numbers for every record that the room left in
    /// a send buffer can take.
    spec fn numbers_for_room<const BUF: usize>(&self, send_buf: &Buf<BUF>) -> bool {
        &&& self.hs_send_seq + (BUF - send_buf@.len()) <= u64::MAX
        &&& self.send_seq + (BUF - send_buf@.len()) <= u64::MAX
    }

    /// Sends handshake data in protected records; numbers are left for the room
    /// that remains.
    fn send_handshake_record<const BUF: usize>(&mut self, send_buf: &mut Buf<BUF>, data: &[u8])
        requires
            io::plain_buf(old(send_buf)),
            data@.len() <= MAX_PLAINTEXT,
            old(send_buf)@.len() + record_room(data@) <= usize::MAX,
            old(self).numbers_for_room(old(send_buf)),
        ensures
            io::plain_buf(final(send_buf)),
            ({
                let (m, send, _) = record_sent(
                    old(self)@,
                    old(send_buf)@,
                    data@,
                    ContentType::Handshake,
                    true,
                    BUF as int,
                );
                final(self)@ == m && final(send_buf)@ == send
            }),
            final(self).engine == old(self).engine,
            final(self).numbers_for_room(final(send_buf)),
    {
        proof {
            send_buf.lemma_bounds();
        }
        let used = send_buf.len();
        // Without room no record can be made, whatever the sequence number.
        if BUF - used < RECORD_HEADER_LEN + data.len() + 1 + TAG_LEN {
            return ;
        }
        let _ = self.encrypt_and_send(send_buf, data, ContentType::Handshake, true);
        proof {
            send_buf.lemma_bounds();
        }
    }

    /// Sends a handshake message that is longer than a record, in pieces.
    fn send_chunks<const BUF: usize>(&mut self, send_buf: &mut Buf<BUF>, data: &[u8], cap: usize)
        requires
            io::plain_buf(old(send_buf)),
            1 <= cap <= MAX_PLAINTEXT,
            BUF + 20000 <= usize::MAX,
            old(self).numbers_for_room(old(send_buf)),
        ensures
            io::plain_buf(final(send_buf)),
            (final(self)@, final(send_buf)@) == all_sent(
                old(self)@,
                old(send_buf)@,
                record::chunks(data@, cap as int),
                BUF as int,
            ),
            final(self).engine == old(self).engine,
            final(self).numbers_for_room(final(send_buf)),
    {
        let ghost want = all_sent(
            self@,
            send_buf@,
            record::chunks(data@, cap as int),
            BUF as int,
        );
        let mut at: usize = 0;
        assert(data@.skip(0) =~= data@);
        while at < data.len()
            invariant
                at <= data@.len(),
                1 <= cap <= MAX_PLAINTEXT,
                BUF + 20000 <= usize::MAX,
                io::plain_buf(send_buf),
                self.engine == old(self).engine,
                self.numbers_for_room(send_buf),
                want == all_sent(
                    self@,
                    send_buf@,
                    record::chunks(data@.skip(at as int), cap as int),
                    BUF as int,
                ),
            decreases data@.len() - at,
        {
            let left = data.len() - at;
            let n = if left < cap {
                left
            } else {
                cap
            };
            let ghost rest = data@.skip(at as int);
            let ghost m = self@;
            let ghost send = send_buf@;
            proof {
                send_buf.lemma_bounds();
                assert(data@.subrange(at as int, at + n) =~= rest.take(n as int));
                assert(data@.skip(at + n) =~= rest.skip(n as int));
                let parts = record::chunks(rest, cap as int);
                if left <= cap {
                    assert(rest.take(n as int) =~= rest);
                    assert(parts.drop_first() =~= record::chunks(rest.skip(n as int), cap as int));
                } else {
                    assert(parts.drop_first() =~= record::chunks(rest.skip(n as int), cap as int));
                }
                assert(parts[0] == rest.take(n as int));
            }
            self.send_handshake_record(send_buf, &data[at..at + n]);
            at = at + n;
        }
        assert(data@.skip(at as int).len() == 0);
    }

    /// Sends a handshake flight in protected records. The peer's record size
    /// limit applies to every one of them; record boundaries coincide with
    /// message boundaries where possible, so that minimal receivers need no
    /// reassembly across records.
    fn send_flight<const BUF: usize>(&mut self, send_buf: &mut Buf<BUF>, flight: &[u8], cap: usize)
        requires
            io::plain_buf(old(send_buf)),
            1 <= cap <= MAX_PLAINTEXT,
            BUF + 20000 <= usize::MAX,
            old(self).numbers_for_room(old(send_buf)),
        ensures
            io::plain_buf(final(send_buf)),
            (final(self)@, final(send_buf)@) == all_sent(
                old(self)@,
                old(send_buf)@,
                record::fragments(flight@, 0, cap as int),
                BUF as int,
            ),
            final(self).engine == old(self).engine,
            final(self).numbers_for_room(final(send_buf)),
    {
        let ghost want = all_sent(
            self@,
            send_buf@,
            record::fragments(flight@, 0, cap as int),
            BUF as int,
        );
        let n = flight.len();
        let mut start: usize = 0;
        while start < n
            invariant
                n == flight@.len(),
                start <= n,
                1 <= cap <= MAX_PLAINTEXT,
                BUF + 20000 <= usize::MAX,
                io::plain_buf(send_buf),
                self.engine == old(self).engine,
                self.numbers_for_room(send_buf),
                want == all_sent(
                    self@,
                    send_buf@,
                    record::fragments(flight@, start as int, cap as int),
                    BUF as int,
                ),
            decreases n - start,
        {
            // Greedily pack whole messages while they fit.
            let mut end = start;
            let mut packing = true;
            while packing && end < n
                invariant
                    n == flight@.len(),
                    start <= end <= n,
                    end - start <= cap,
                    packing ==> record::packed_end(
                        flight@,
                        start as int,
                        start as int,
                        cap as int,
                    ) == record::packed_end(flight@, start as int, end as int, cap as int),
                    !packing ==> record::packed_end(
                        flight@,
                        start as int,
                        start as int,
                        cap as int,
                    ) == end,
                decreases n - end, packing as int,
            {
                let msg_end = record::handshake_msg_end(flight, end);
                if msg_end - start > cap {
                    packing = false;
                } else {
                    end = msg_end;
                }
            }
            let ghost m = self@;
            let ghost send = send_buf@;
            proof {
                send_buf.lemma_bounds();
                assert(record::packed_end(flight@, start as int, start as int, cap as int) == end);
            }
            if end == start {
                // A single message exceeds the limit: cut it across records.
                let msg_end = record::handshake_msg_end(flight, start);
                self.send_chunks(send_buf, &flight[start..msg_end], cap);
                proof {
                    lemma_all_sent_add(
                        m,
                        send,
                        record::chunks(
                            flight@.subrange(start as int, msg_end as int),
                            cap as int,
                        ),
                        record::fragments(flight@, msg_end as int, cap as int),
                        BUF as int,
                    );
                }
                start = msg_end;
            } else {
                self.send_handshake_record(send_buf, &flight[start..end]);
                proof {
                    let piece = flight@.subrange(start as int, end as int);
                    lemma_one_sent(m, send, piece, BUF as int);
                    lemma_all_sent_add(
                        m,
                        send,
                        seq![piece],
                        record::fragments(flight@, end as int, cap as int),
                        BUF as int,
                    );
                }
                start = end;
            }
        }
    }
}

/// Taking over what the engine learned never raises the send sequence numbers.
proof fn lemma_checked_send_numbers<C: CryptoProvider>(m: TlsModel<C>)
    ensures
        m.checked().0.send_seq <= m.send_seq,
        m.checked().0.hs_send_seq <= m.hs_send_seq,
        m.checked().0.send_offset == m.send_offset,
{
    let m1 = TlsModel {
        peer_limit: match m.engine.peer_limit() {
            Some(l) => l,
            None => m.peer_limit,
        },
        ..m
    };
    lemma_installed_send_numbers(m1);
}

proof fn lemma_installed_send_numbers<C: CryptoProvider>(m: TlsModel<C>)
    ensures
        m.all_installed().0.send_seq <= m.send_seq,
        m.all_installed().0.hs_send_seq <= m.hs_send_seq,
        m.all_installed().0.send_offset == m.send_offset,
    decreases m.engine.keys_pending(),
{
    let (engine, keys) = m.engine.keys_step();
    let m0 = TlsModel { engine, ..m };
    match keys {
        Some(k) => {
            let (m1, r) = m0.installed(k);
            if r is Ok && m1.engine.keys_pending() < m.engine.keys_pending() {
                lemma_installed_send_numbers(m1);
            }
        },
        None => {},
    }
}

impl<C: CryptoProvider> TlsConnection<C> {
    /// Sends one piece of handshake output at its level.
    fn send_engine_output<const BUF: usize>(
        &mut self,
        send_buf: &mut Buf<BUF>,
        data: &[u8],
        level: Level,
    )
        requires
            io::plain_buf(old(send_buf)),
            data@.len() <= ENGINE_CHUNK,
            BUF + 20000 <= usize::MAX,
            old(self).numbers_for_room(old(send_buf)),
        ensures
            io::plain_buf(final(send_buf)),
            (final(self)@, final(send_buf)@) == flight_sent(
                old(self)@,
                old(send_buf)@,
                data@,
                level,
                BUF as int,
            ),
            final(self).engine == old(self).engine,
            final(self).numbers_for_room(final(send_buf)),
    {
        proof {
            send_buf.lemma_bounds();
        }
        match level {
            Level::Initial => {
                let _ = self.wrap_plaintext_record(send_buf, ContentType::Handshake, data);
                proof {
                    send_buf.lemma_bounds();
                }
            },
            Level::Handshake => {
                let cap = self.peer_plaintext_cap();
                if !self.ccs_sent {
                    let ccs: [u8; 6] = [20u8, 3u8, 3u8, 0u8, 1u8, 1u8];
                    assert(ccs@ =~= ccs_record());
                    let _ = io::queue_send(send_buf, ccs.as_slice());
                    self.ccs_sent = true;
                    proof {
                        send_buf.lemma_bounds();
                    }
                }
                self.send_flight(send_buf, data, cap);
            },
            Level::Application => {},
        }
    }

    /// Sends pending handshake output.
    pub fn flush_engine_output<const BUF: usize>(&mut self, send_buf: &mut Buf<BUF>)
        requires
            io::plain_buf(old(send_buf)),
            BUF + 20000 <= usize::MAX,
            send_numbers_left(old(self)@, BUF as int),
        ensures
            io::plain_buf(final(send_buf)),
            (final(self)@, final(send_buf)@) == engine_flushed(
                old(self)@,
                old(send_buf)@,
                BUF as int,
            ),
            final(self).send_seq + (BUF - final(send_buf)@.len()) <= u64::MAX,
    {
        proof {
            send_buf.lemma_bounds();
        }
        if !self.engine_output_pending {
            return ;
        }
        let ghost want = engine_drained(self@, send_buf@, BUF as int);
        let mut buf: [u8; 2048] = [0u8; 2048];
        loop
            invariant_except_break
                want == engine_drained(self@, send_buf@, BUF as int),
            invariant
                io::plain_buf(send_buf),
                BUF + 20000 <= usize::MAX,
                self.numbers_for_room(send_buf),
            ensures
                want == (self@, send_buf@),
            decreases self.engine.output_pending(),
        {
            let ghost m = self@;
            let out = self.engine.write_handshake(&mut buf);
            let (n, level) = match out {
                Ok(pair) => pair,
                Err(_) => {
                    break;
                },
            };
            if n == 0 {
                break;
            }
            let data = buf.as_slice().split_at(n).0;
            self.send_engine_output(send_buf, data, level);
        }
        proof {
            lemma_checked_send_numbers(self@);
            send_buf.lemma_bounds();
        }
        let _ = self.check_keys();
        self.engine_output_pending = false;
    }

    /// Sends queued application data in records, as far as they fit into the
    /// send buffer.
    pub fn flush_app_send<const BUF: usize>(
        &mut self,
        app_send_buf: &mut Buf<BUF>,
        send_buf: &mut Buf<BUF>,
    )
        requires
            io::plain_buf(old(send_buf)),
            io::plain_buf(old(app_send_buf)),
            BUF + 20000 <= usize::MAX,
            old(self).send_seq + (BUF - old(send_buf)@.len()) <= u64::MAX,
        ensures
            io::plain_buf(final(send_buf)),
            io::plain_buf(final(app_send_buf)),
            (final(self)@, final(app_send_buf)@, final(send_buf)@) == app_flushed(
                old(self)@,
                old(app_send_buf)@,
                old(send_buf)@,
                BUF as int,
            ),
    {
        if self.state != ConnState::Active {
            return ;
        }
        let ghost want = app_drained(self@, app_send_buf@, send_buf@, BUF as int);
        let cap = self.peer_plaintext_cap();
        loop
            invariant_except_break
                want == app_drained(self@, app_send_buf@, send_buf@, BUF as int),
            invariant
                io::plain_buf(send_buf),
                io::plain_buf(app_send_buf),
                1 <= cap <= MAX_PLAINTEXT,
                cap == self@.plaintext_cap(),
                BUF + 20000 <= usize::MAX,
                self.send_seq + (BUF - send_buf@.len()) <= u64::MAX,
            ensures
                want == (self@, app_send_buf@, send_buf@),
            decreases app_send_buf@.len(),
        {
            proof {
                send_buf.lemma_bounds();
            }
            let have = app_send_buf.len();
            if have == 0 {
                break;
            }
            let chunk_len = if have < cap {
                have
            } else {
                cap
            };
            let sent = match &self.app_send {
                Some(keys) => {
                    let nonce = crypto::build_nonce(&keys.iv, self.send_seq);
                    let chunk = app_send_buf.as_slice().split_at(chunk_len).0;
                    encrypt_into(chunk, ContentType::ApplicationData, &keys.aead, &nonce, send_buf)
                },
                None => {
                    break;
                },
            };
            match sent {
                Ok(()) => {},
                Err(_) => {
                    // The record was not emitted: the sequence number must not be
                    // consumed, or every later record desyncs the peer's nonce.
                    break;
                },
            }
            proof {
                send_buf.lemma_bounds();
            }
            self.send_seq = self.send_seq + 1;
            app_send_buf.buf_drain_front(chunk_len);
        }
    }

    /// Pull the next chunk of outgoing TCP data.
    pub fn poll_output<'a, const BUF: usize>(
        &mut self,
        io: &mut TlsIo<'_, BUF>,
        buf: &'a mut [u8],
    ) -> (r: Option<&'a [u8]>)
        requires
            io::plain_buf(old(io).send_buf),
            io::plain_buf(old(io).app_send_buf),
            BUF + 20000 <= usize::MAX,
            send_numbers_left(old(self)@, BUF as int),
        ensures
            io::plain_buf(final(io).send_buf),
            io::plain_buf(final(io).app_send_buf),
            *final(final(io).send_buf) == *final(old(io).send_buf),
            *final(final(io).app_send_buf) == *final(old(io).app_send_buf),
            final(io).recv_buf == old(io).recv_buf,
            ({
                let o = output(
                    old(self)@,
                    old(io).app_send_buf@,
                    old(io).send_buf@,
                    old(buf)@.len() as int,
                    BUF as int,
                );
                &&& final(self)@ == o.conn
                &&& final(io).app_send_buf@ == o.app
                &&& final(io).send_buf@ == o.send
                &&& match o.bytes {
                    Some(b) => r matches Some(s) && s@ == b,
                    None => r is None,
                }
            }),
    {
        self.engine.set_local_record_size_limit(connection::local_record_size_limit::<BUF>());
        self.flush_engine_output(io.send_buf);
        self.flush_app_send(io.app_send_buf, io.send_buf);
        let len = io.send_buf.len();
        if self.send_offset >= len {
            return None;
        }
        let avail = len - self.send_offset;
        let room = buf.len();
        let n = if avail < room {
            avail
        } else {
            room
        };
        let start = self.send_offset;
        let ghost send = io.send_buf@;
        bytes::copy_at(buf, 0, &io.send_buf.as_slice()[start..start + n]);
        self.send_offset = start + n;
        if self.send_offset >= len {
            io.send_buf.clear();
            self.send_offset = 0;
        }
        assert(buf@.subrange(0, n as int) =~= send.subrange(start as int, start + n));
        Some(&buf[0..n])
    }
}

} // verus!
