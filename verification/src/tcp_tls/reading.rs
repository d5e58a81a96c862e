//! What a connection makes of the records it receives.

use vstd::prelude::*;

use crate::crypto::{self, Aead, CryptoProvider, Hkdf, Level};
use crate::error::Error;
use crate::tcp_tls::connection::{ConnState, RecordKey, TlsEvent, TlsModel};
use crate::tcp_tls::record;
use crate::tcp_tls::recv::{self, Received, Round};
use crate::tls::{DerivedKeys, TlsSession};

verus! {

/// Whether `header` is the header of a record of type `kind` that carries
/// `payload`.
pub open spec fn heads(header: Seq<u8>, kind: u8, payload: Seq<u8>) -> bool {
    &&& header.len() == 5
    &&& header[0] == kind
    &&& header[3] * 256 + header[4] == payload.len()
    &&& payload.len() <= 16640
}

/// Whether a record opens to `content` of the inner type `kind`, whatever padding
/// it has.
pub open spec fn opens_to<A: Aead>(
    key: Option<RecordKey<A>>,
    seq: u64,
    header: Seq<u8>,
    payload: Seq<u8>,
    content: Seq<u8>,
    kind: u8,
    padding: nat,
) -> bool {
    &&& key matches Some(k)
    &&& kind != 0
    &&& content.len() < usize::MAX
    &&& k.aead.opened(crypto::nonce_for(k.iv, seq), header, payload) == Ok::<Seq<u8>, Error>(
        content + seq![kind] + Seq::new(padding, |i: int| 0u8),
    )
}

/// An event behind the others; up to eight wait.
pub open spec fn with_event(events: Seq<TlsEvent>, e: TlsEvent) -> Seq<TlsEvent> {
    if events.len() < 8 {
        events.push(e)
    } else {
        events
    }
}

/// The inner content of a record that opens is what was put in.
proof fn lemma_inner(content: Seq<u8>, kind: u8, padding: nat)
    requires
        kind != 0,
        content.len() < usize::MAX,
    ensures
        record::inner_content(content + seq![kind] + Seq::new(padding, |i: int| 0u8)) == (
        match record::content_of(kind) {
            Some(ct) => Ok::<(usize, record::ContentType), Error>((content.len() as usize, ct)),
            None => Err::<(usize, record::ContentType), Error>(Error::Tls),
        }),
        (content + seq![kind] + Seq::new(padding, |i: int| 0u8)).take(content.len() as int)
            == content,
{
    let pt = content + seq![kind] + Seq::new(padding, |i: int| 0u8);
    lemma_trimmed(pt, content.len() as int + 1, pt.len() as int);
    assert(pt.take(content.len() as int) =~= content);
}

proof fn lemma_trimmed(s: Seq<u8>, end: int, n: int)
    requires
        0 < end <= n <= s.len(),
        s[end - 1] != 0,
        forall|i: int| end <= i < n ==> #[trigger] s[i] == 0,
    ensures
        record::trimmed_len(s, n) == end,
    decreases n - end,
{
    if n > end {
        lemma_trimmed(s, end, n - 1);
    }
}

/// Where the record at the front ends.
proof fn lemma_cut(header: Seq<u8>, payload: Seq<u8>, rest: Seq<u8>)
    requires
        header.len() == 5,
    ensures
        ({
            let all = header + payload + rest;
            &&& all.take(5) == header
            &&& all.subrange(5, 5 + payload.len() as int) == payload
            &&& all.skip(5 + payload.len() as int) == rest
            &&& forall|i: int| 0 <= i < 5 ==> #[trigger] all[i] == header[i]
        }),
{
    let all = header + payload + rest;
    assert(all.take(5) =~= header);
    assert(all.subrange(5, 5 + payload.len() as int) =~= payload);
    assert(all.skip(5 + payload.len() as int) =~= rest);
}

/// Law: on an active connection a protected record is taken by its inner type.
/// Application data (23) goes to the application, with an event. A handshake
/// message (22) is taken silently: no data, no event. An alert (21) ends the
/// round: close_notify starts closing and is reported, any other closes the
/// connection with an error. Everything else is refused. Each counts as one more
/// record received.
pub proof fn law_protected_record<C: CryptoProvider>(
    m: TlsModel<C>,
    header: Seq<u8>,
    payload: Seq<u8>,
    rest: Seq<u8>,
    content: Seq<u8>,
    kind: u8,
    padding: nat,
    cap: int,
)
    requires
        m.state == ConnState::Active,
        m.recv_seq < u64::MAX,
        heads(header, 23, payload),
        5 + payload.len() <= cap,
        opens_to(m.app_recv, m.recv_seq, header, payload, content, kind, padding),
    ensures
        ({
            let all = header + payload + rest;
            let got = recv::round(m, all, cap);
            let next = TlsModel { recv_seq: (m.recv_seq + 1) as u64, ..m };
            &&& kind == 23 ==> got == (Round::More {
                conn: TlsModel { events: with_event(m.events, TlsEvent::AppData), ..next },
                app: content,
                rest,
            })
            &&& kind == 22 ==> got == (Round::More { conn: next, app: Seq::empty(), rest })
            &&& kind == 21 && content.len() >= 2 && content[1] == 0 ==> got == (Round::Done {
                outcome: Received {
                    conn: TlsModel {
                        state: ConnState::Closing,
                        events: with_event(m.events, TlsEvent::PeerClosed),
                        ..next
                    },
                    plain: Seq::empty(),
                    rest,
                    intact: true,
                    result: Ok::<(), Error>(()),
                },
            })
            &&& kind == 21 && content.len() >= 2 && content[1] != 0 ==> got == (Round::Done {
                outcome: Received {
                    conn: TlsModel { state: ConnState::Closed, ..next },
                    plain: Seq::empty(),
                    rest,
                    intact: true,
                    result: Err::<(), Error>(Error::Tls),
                },
            })
            &&& (kind < 21 || kind > 23 || (kind == 21 && content.len() < 2)) ==> got == (
            Round::Done {
                outcome: Received {
                    conn: next,
                    plain: Seq::empty(),
                    rest: all,
                    intact: false,
                    result: Err::<(), Error>(Error::Tls),
                },
            })
        }),
{
    reveal(recv::record_step);
    lemma_cut(header, payload, rest);
    lemma_inner(content, kind, padding);
}

/// Law: what an active connection does with records that are not protected, or
/// that it cannot open. ChangeCipherSpec (20) is passed over; other plain records
/// are refused; one that does not open is an error, and changes nothing.
pub proof fn law_other_records_when_active<C: CryptoProvider>(
    m: TlsModel<C>,
    header: Seq<u8>,
    payload: Seq<u8>,
    rest: Seq<u8>,
    kind: u8,
    cap: int,
)
    requires
        m.state == ConnState::Active,
        heads(header, kind, payload),
        5 + payload.len() <= cap,
    ensures
        ({
            let all = header + payload + rest;
            let got = recv::round(m, all, cap);
            &&& kind == 20 ==> got == (Round::More { conn: m, app: Seq::<u8>::empty(), rest })
            &&& kind != 20 && kind != 23 ==> (got matches Round::Done { outcome }
                && outcome.result == Err::<(), Error>(Error::Tls) && outcome.conn == m
                && outcome.plain.len() == 0 && outcome.rest == all && outcome.intact)
            &&& kind == 23 ==> (m.app_recv matches Some(k) ==> (k.aead.opened(
                crypto::nonce_for(k.iv, m.recv_seq),
                header,
                payload,
            ) matches Err(e) ==> (got matches Round::Done { outcome } && outcome.result == Err::<
                (),
                Error,
            >(e) && outcome.conn == m && outcome.plain.len() == 0 && outcome.rest == all)))
        }),
{
    reveal(recv::record_step);
    lemma_cut(header, payload, rest);
}

/// Law: while the handshake goes on, nothing is handed to the application. Plain
/// handshake records go to the engine as they are; protected ones, once there are
/// keys, go to it with their content if that is a handshake message. Then what the
/// engine learned is taken over. ChangeCipherSpec is passed over; what the engine
/// refuses is an error.
pub proof fn law_records_during_handshake<C: CryptoProvider>(
    m: TlsModel<C>,
    header: Seq<u8>,
    payload: Seq<u8>,
    rest: Seq<u8>,
    kind: u8,
    content: Seq<u8>,
    inner: u8,
    padding: nat,
    cap: int,
)
    requires
        m.state == ConnState::Handshake || m.state == ConnState::HandshakeEncrypted,
        m.hs_recv_seq < u64::MAX,
        heads(header, kind, payload),
        5 + payload.len() <= cap,
    ensures
        ({
            let all = header + payload + rest;
            let got = recv::round(m, all, cap);
            &&& got matches Round::More { app, .. } ==> app.len() == 0
            &&& got matches Round::Done { outcome } ==> outcome.plain.len() == 0
            &&& kind == 20 ==> got == (Round::More { conn: m, app: Seq::<u8>::empty(), rest })
            &&& kind == 22 ==> ({
                let (engine, r) = m.engine.read_step(Level::Initial, payload);
                &&& r is Ok && TlsModel { engine, ..m }.checked().1 is Ok ==> got == (Round::More {
                    conn: TlsModel { engine, ..m }.checked().0,
                    app: Seq::<u8>::empty(),
                    rest,
                })
                &&& r is Err ==> (got matches Round::Done { outcome } && outcome.result == Err::<
                    (),
                    Error,
                >(Error::Tls) && outcome.rest == all)
            })
            &&& kind == 23 && m.state == ConnState::Handshake ==> (got matches Round::Done {
                outcome,
            } && outcome.result == Err::<(), Error>(Error::Tls) && outcome.conn == m)
            &&& kind == 23 && m.state == ConnState::HandshakeEncrypted && inner == 22 && opens_to(
                m.hs_recv,
                m.hs_recv_seq,
                header,
                payload,
                content,
                inner,
                padding,
            ) ==> ({
                let (engine, r) = m.engine.read_step(Level::Handshake, content);
                let next = TlsModel { engine, hs_recv_seq: (m.hs_recv_seq + 1) as u64, ..m };
                &&& r is Ok && next.checked().1 is Ok ==> got == (Round::More {
                    conn: next.checked().0,
                    app: Seq::<u8>::empty(),
                    rest,
                })
                &&& r is Err ==> (got matches Round::Done { outcome } && outcome.result == Err::<
                    (),
                    Error,
                >(Error::Tls) && outcome.rest == all)
            })
            &&& kind == 23 && m.state == ConnState::HandshakeEncrypted && inner == 23 && opens_to(
                m.hs_recv,
                m.hs_recv_seq,
                header,
                payload,
                content,
                inner,
                padding,
            ) ==> (got matches Round::Done { outcome } && outcome.result == Err::<(), Error>(
                Error::Tls,
            ))
        }),
{
    reveal(recv::record_step);
    lemma_cut(header, payload, rest);
    if inner != 0 && content.len() < usize::MAX {
        lemma_inner(content, inner, padding);
    }
}

/// What an application is owed of the records in `s`: the contents of those that
/// open to application data, one after the other, up to the first record that is
/// incomplete or ends the round. `seq` is the number of the next protected record.
pub open spec fn owed<A: Aead>(key: Option<RecordKey<A>>, seq: int, s: Seq<u8>, cap: int) -> Seq<u8>
    decreases s.len(),
{
    if s.len() < 5 {
        Seq::empty()
    } else {
        let n = s[3] * 256 + s[4];
        if n > 16640 || 5 + n > cap || 5 + n > s.len() {
            Seq::empty()
        } else if s[0] == 20 {
            owed(key, seq, s.skip(5 + n), cap)
        } else if s[0] != 23 || key is None {
            Seq::empty()
        } else {
            let k = key->0;
            match k.aead.opened(crypto::nonce_for(k.iv, seq as u64), s.take(5), s.subrange(5, 5 + n)) {
                Err(_) => Seq::empty(),
                Ok(pt) => {
                    let end = content_end(pt);
                    if end < 0 {
                        Seq::empty()
                    } else if pt[end] == 23 {
                        pt.take(end) + owed(key, seq + 1, s.skip(5 + n), cap)
                    } else if pt[end] == 22 {
                        owed(key, seq + 1, s.skip(5 + n), cap)
                    } else {
                        Seq::empty()
                    }
                },
            }
        }
    }
}

/// Where the content of an opened record ends: at its last byte that is not zero,
/// which is the inner type. Negative if there is none.
pub open spec fn content_end(pt: Seq<u8>) -> int
    decreases pt.len(),
{
    if pt.len() == 0 {
        -1
    } else if pt.last() != 0 {
        pt.len() - 1
    } else {
        content_end(pt.drop_last())
    }
}

proof fn lemma_content_end(s: Seq<u8>, n: int)
    requires
        0 <= n <= s.len(),
    ensures
        record::trimmed_len(s, n) == content_end(s.take(n)) + 1,
        -1 <= content_end(s.take(n)) < n || n == 0,
        content_end(s.take(n)) >= 0 ==> s[content_end(s.take(n))] != 0,
    decreases n,
{
    if n > 0 {
        assert(s.take(n).last() == s[n - 1]);
        assert(s.take(n).drop_last() =~= s.take(n - 1));
        lemma_content_end(s, n - 1);
    }
}

/// Law: what an active connection hands to the application of received bytes is
/// exactly the contents of the records that carry application data, in order.
pub proof fn law_application_gets_its_data<C: CryptoProvider>(m: TlsModel<C>, s: Seq<u8>, cap: int)
    requires
        m.state == ConnState::Active,
        m.recv_seq + s.len() <= u64::MAX,
        cap < usize::MAX,
        forall|k: RecordKey<C::Aead>, n: Seq<u8>, a: Seq<u8>, c: Seq<u8>|
            (#[trigger] k.aead.opened(n, a, c)) matches Ok(pt) ==> pt.len() <= usize::MAX,
    ensures
        recv::received(m, s, cap).plain == owed(m.app_recv, m.recv_seq as int, s, cap),
    decreases s.len(),
{
    reveal(recv::record_step);
    let none = Seq::<u8>::empty();
    if s.len() >= 5 {
        let n = s[3] * 256 + s[4];
        if n <= 16640 && 5 + n <= cap && 5 + n <= s.len() {
            let rest = s.skip(5 + n);
            if s[0] == 20 {
                law_application_gets_its_data(m, rest, cap);
                let more = recv::received(m, rest, cap);
                assert(none + more.plain =~= more.plain);
            } else if s[0] == 23 && m.app_recv is Some {
                let k = m.app_recv->0;
                match k.aead.opened(
                    crypto::nonce_for(k.iv, m.recv_seq),
                    s.take(5),
                    s.subrange(5, 5 + n),
                ) {
                    Err(_) => {},
                    Ok(pt) => {
                        lemma_content_end(pt, pt.len() as int);
                        assert(pt.take(pt.len() as int) =~= pt);
                        let end = content_end(pt);
                        let next = TlsModel { recv_seq: (m.recv_seq + 1) as u64, ..m };
                        if end >= 0 && pt[end] == 23 {
                            let told = next.raise(TlsEvent::AppData);
                            law_application_gets_its_data(told, rest, cap);
                            assert(recv::round(m, s, cap) == (Round::More {
                                conn: told,
                                app: pt.take(end),
                                rest,
                            }));
                        } else if end >= 0 && pt[end] == 22 {
                            law_application_gets_its_data(next, rest, cap);
                            let more = recv::received(next, rest, cap);
                            assert(none + more.plain =~= more.plain);
                            assert(recv::round(m, s, cap) == (Round::More {
                                conn: next,
                                app: none,
                                rest,
                            }));
                        }
                    },
                }
            }
        }
    }
}

/// Whether a key is made of a traffic secret: the key and the IV that HKDF-Expand
/// gives for the labels `key` and `iv`.
pub open spec fn made_of<C: CryptoProvider>(
    provider: C,
    key: Option<RecordKey<C::Aead>>,
    secret: Seq<u8>,
) -> bool {
    let n = provider.key_size();
    &&& key matches Some(k)
    &&& <C::Hkdf as Hkdf>::expanded(secret, crypto::laws::label_info("key", n), n) matches Ok(bytes)
    &&& provider.aead_for(bytes) == Ok::<C::Aead, Error>(k.aead)
    &&& <C::Hkdf as Hkdf>::expanded(secret, crypto::laws::label_info("iv", 12), 12) == Ok::<
        Seq<u8>,
        Error,
    >(k.iv)
}

/// Law: secrets go to their level and direction. Those of the handshake start
/// protected handshake records, with records counted from zero; those of the
/// application are kept for later; nothing else of the connection changes, but
/// that output may be pending.
pub proof fn law_secrets_are_installed<C: CryptoProvider>(m: TlsModel<C>, keys: DerivedKeys)
    requires
        keys.secret_len <= 48,
        m.provider.key_size() <= 32,
        m.installed(keys).1 is Ok,
    ensures
        ({
            let after = m.installed(keys).0;
            let n = keys.secret_len as int;
            &&& keys.level == Level::Handshake ==> {
                &&& made_of(m.provider, after.hs_send, keys.send_secret@.take(n))
                &&& made_of(m.provider, after.hs_recv, keys.recv_secret@.take(n))
                &&& after == (TlsModel {
                    hs_send: after.hs_send,
                    hs_recv: after.hs_recv,
                    hs_send_seq: 0,
                    hs_recv_seq: 0,
                    state: ConnState::HandshakeEncrypted,
                    output_pending: true,
                    ..m
                })
            }
            &&& keys.level == Level::Application ==> {
                &&& made_of(m.provider, after.app_send, keys.send_secret@.take(n))
                &&& made_of(m.provider, after.app_recv, keys.recv_secret@.take(n))
                &&& after == (TlsModel {
                    app_send: after.app_send,
                    app_recv: after.app_recv,
                    output_pending: true,
                    ..m
                })
            }
            &&& keys.level == Level::Initial ==> after == m
        }),
{
    let n = keys.secret_len as int;
    crypto::laws::law_record_keys::<C::Hkdf>(keys.send_secret@.take(n), m.provider.key_size());
    crypto::laws::law_record_keys::<C::Hkdf>(keys.recv_secret@.take(n), m.provider.key_size());
}

/// Law: the handshake ends once. When the engine is done, the connection turns
/// active: records are counted from zero in both directions, the handshake keys
/// are gone, and it is reported. A connection that is active stays as it is.
pub proof fn law_handshake_ends_once<C: CryptoProvider>(m: TlsModel<C>)
    ensures
        ({
            let after = m.activated();
            &&& m.engine.complete() && m.state != ConnState::Active ==> {
                &&& after.state == ConnState::Active
                &&& after.send_seq == 0 && after.recv_seq == 0
                &&& after.hs_send is None && after.hs_recv is None
                &&& after.app_send == m.app_send && after.app_recv == m.app_recv
                &&& after.events == with_event(m.events, TlsEvent::HandshakeComplete)
            }
            &&& !m.engine.complete() || m.state == ConnState::Active ==> after == m
        }),
{
}

/// Law: the peer's record size limit is taken over as soon as the engine knows it,
/// and kept otherwise. Together with its content type a record that is sent stays
/// within it.
pub proof fn law_peer_limit_is_respected<C: CryptoProvider>(m: TlsModel<C>)
    ensures
        m.engine.peer_limit() matches Some(l) ==> m.checked().0.peer_limit == l,
        m.engine.peer_limit() is None ==> m.checked().0.peer_limit == m.peer_limit,
{
    let start = TlsModel {
        peer_limit: match m.engine.peer_limit() {
            Some(l) => l,
            None => m.peer_limit,
        },
        ..m
    };
    lemma_limit_stays(start);
}

proof fn lemma_limit_stays<C: CryptoProvider>(m: TlsModel<C>)
    ensures
        m.all_installed().0.peer_limit == m.peer_limit,
    decreases m.engine.keys_pending(),
{
    let (engine, keys) = m.engine.keys_step();
    let m0 = TlsModel { engine, ..m };
    match keys {
        Some(k) => {
            let (m1, r) = m0.installed(k);
            if r is Ok && m1.engine.keys_pending() < m.engine.keys_pending() {
                lemma_limit_stays(m1);
            }
        },
        None => {},
    }
}

/// Law: alerts during the handshake. In the clear they count only as long as
/// records are in the clear; then under the handshake key. close_notify starts
/// closing and is reported; any other ends the connection with an error; one that
/// is too short is refused.
pub proof fn law_alerts_during_handshake<C: CryptoProvider>(
    m: TlsModel<C>,
    header: Seq<u8>,
    payload: Seq<u8>,
    rest: Seq<u8>,
    content: Seq<u8>,
    padding: nat,
    cap: int,
)
    requires
        m.hs_recv_seq < u64::MAX,
        header.len() == 5,
        5 + payload.len() <= cap,
    ensures
        ({
            let got = recv::round(m, header + payload + rest, cap);
            let closing = |c: TlsModel<C>|
                Round::Done {
                    outcome: Received {
                        conn: TlsModel {
                            state: ConnState::Closing,
                            events: with_event(m.events, TlsEvent::PeerClosed),
                            ..c
                        },
                        plain: Seq::empty(),
                        rest,
                        intact: true,
                        result: Ok::<(), Error>(()),
                    },
                };
            let closed = |c: TlsModel<C>|
                Round::Done {
                    outcome: Received {
                        conn: TlsModel { state: ConnState::Closed, ..c },
                        plain: Seq::empty(),
                        rest,
                        intact: true,
                        result: Err::<(), Error>(Error::Tls),
                    },
                };
            let next = TlsModel { hs_recv_seq: (m.hs_recv_seq + 1) as u64, ..m };
            &&& heads(header, 21, payload) && m.state == ConnState::Handshake ==> {
                &&& payload.len() >= 2 && payload[1] == 0 ==> got == closing(m)
                &&& payload.len() >= 2 && payload[1] != 0 ==> got == closed(m)
                &&& payload.len() < 2 ==> (got matches Round::Done { outcome } && outcome.result
                    == Err::<(), Error>(Error::Tls) && outcome.conn == m)
            }
            &&& heads(header, 21, payload) && m.state == ConnState::HandshakeEncrypted ==> (
            got matches Round::Done { outcome } && outcome.result == Err::<(), Error>(Error::Tls)
                && outcome.conn == m)
            &&& heads(header, 23, payload) && m.state == ConnState::HandshakeEncrypted && opens_to(
                m.hs_recv,
                m.hs_recv_seq,
                header,
                payload,
                content,
                21,
                padding,
            ) ==> {
                &&& content.len() >= 2 && content[1] == 0 ==> got == closing(next)
                &&& content.len() >= 2 && content[1] != 0 ==> got == closed(next)
            }
        }),
{
    reveal(recv::record_step);
    lemma_cut(header, payload, rest);
    if content.len() < usize::MAX {
        lemma_inner(content, 21, padding);
    }
}

/// Law: all secrets that the engine has ready are installed, in order, each once.
pub proof fn law_all_secrets_are_installed<C: CryptoProvider>(m: TlsModel<C>)
    ensures
        ({
            let (engine, keys) = m.engine.keys_step();
            let m0 = TlsModel { engine, ..m };
            &&& keys is None ==> m.all_installed() == (m0, Ok::<(), Error>(()))
            &&& keys matches Some(k) ==> ({
                let (m1, r) = m0.installed(k);
                &&& m1.engine == engine
                &&& r is Err ==> m.all_installed() == (m1, r)
                &&& r is Ok && engine.keys_pending() < m.engine.keys_pending()
                    ==> m.all_installed() == m1.all_installed()
            })
        }),
{
}

/// Law: a record that is not complete waits as it is; one that can never fit into
/// the buffer, or has a type or a length that does not exist, is refused.
pub proof fn law_incomplete_records_wait<C: CryptoProvider>(m: TlsModel<C>, s: Seq<u8>, cap: int)
    ensures
        ({
            let n = s[3] * 256 + s[4];
            let known = 20 <= s[0] <= 23 && n <= 16640;
            let got = recv::round(m, s, cap);
            &&& s.len() < 5 ==> (got matches Round::Done { outcome } && outcome.result == Ok::<
                (),
                Error,
            >(()) && outcome.conn == m && outcome.rest == s && outcome.plain.len() == 0)
            &&& s.len() >= 5 && !known ==> (got matches Round::Done { outcome } && outcome.result
                == Err::<(), Error>(Error::Tls) && outcome.conn == m && outcome.rest == s)
            &&& s.len() >= 5 && known && 5 + n > cap ==> (got matches Round::Done { outcome }
                && outcome.result == Err::<(), Error>(Error::BufferTooSmall { needed: (5 + n) as usize })
                && outcome.conn == m && outcome.rest == s)
            &&& s.len() >= 5 && known && 5 + n <= cap && s.len() < 5 + n ==> (
            got matches Round::Done { outcome } && outcome.result == Ok::<(), Error>(())
                && outcome.conn == m && outcome.rest == s && outcome.plain.len() == 0)
        }),
{
}

} // verus!
