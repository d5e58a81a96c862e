//! What holds of the record layer as a whole.

use vstd::prelude::*;

use crate::buf::BufModel;
use crate::bytes;
use crate::crypto::{self, Aead, CryptoProvider, TAG_LEN};
use crate::error::Error;
use crate::tcp_tls::connection::{self, ConnState, RecordKey, TlsEvent, TlsModel};
use crate::tcp_tls::record::{self, ContentType, RECORD_HEADER_LEN};
use crate::tcp_tls::recv::{self, Received, RecordStep, Round};
use crate::tcp_tls::send;
use crate::tcp_tls::split;
use crate::tls::TlsSession;

verus! {

/// The sequence number advances by one with a record in the send buffer, and
/// stays, with the buffer unchanged, when no record was made.
pub proof fn law_sequence_follows_records<C: CryptoProvider>(
    m: TlsModel<C>,
    send_bytes: Seq<u8>,
    data: Seq<u8>,
    inner: ContentType,
    cap: int,
)
    requires
        m.send_seq < u64::MAX,
    ensures
        ({
            let (m1, s1, r) = send::record_sent(m, send_bytes, data, inner, false, cap);
            &&& r is Ok ==> m1.send_seq == m.send_seq + 1 && s1.len() >= send_bytes.len()
                + RECORD_HEADER_LEN && s1.take(send_bytes.len() as int) == send_bytes
            &&& r is Err ==> m1 == m && s1 == send_bytes
        }),
{
    let (m1, s1, r) = send::record_sent(m, send_bytes, data, inner, false, cap);
    if r is Ok {
        assert(s1.take(send_bytes.len() as int) =~= send_bytes);
    }
}

/// Outgoing records respect the peer's limit: with the content type they hold at
/// most what the peer takes, and never more than TLS 1.3 allows.
pub proof fn law_plaintext_cap<C: CryptoProvider>(m: TlsModel<C>)
    ensures
        1 <= m.plaintext_cap() <= 16384,
        m.peer_limit >= 2 ==> m.plaintext_cap() + 1 <= m.peer_limit,
{
}

/// The limit that is advertised is legal, and a record of that size fits into
/// the receive buffer, with header and tag.
pub proof fn law_advertised_limit_fits(buf: int)
    requires
        buf >= 128,
    ensures
        ({
            let limit = crate::tcp_tls::connection::local_limit(buf);
            &&& 64 <= limit <= 16385
            &&& RECORD_HEADER_LEN + limit + TAG_LEN <= buf
        }),
{
}

/// Once closing or closed, received records change nothing and yield nothing.
pub proof fn law_closed_ignores_records<C: CryptoProvider>(
    m: TlsModel<C>,
    ct: ContentType,
    header: Seq<u8>,
    payload: Seq<u8>,
)
    requires
        m.state == ConnState::Closing || m.state == ConnState::Closed,
    ensures
        recv::record_step(m, ct, header, payload) == (RecordStep::Next {
            conn: m,
            app: None,
            check: false,
        }),
{
    reveal(recv::record_step);
}

/// A refused request to close leaves the connection open; a carried-out one is
/// final: closing again changes nothing.
pub proof fn law_close_is_idempotent<C: CryptoProvider>(m: TlsModel<C>, send_bytes: Seq<u8>, cap: int)
    ensures
        ({
            let (m1, s1, r) = send::closed(m, send_bytes, cap);
            &&& r is Ok ==> send::closed(m1, s1, cap) == (m1, s1, Ok::<(), Error>(()))
            &&& r is Err ==> m1.state == m.state
        }),
{
}

/// Whether the receiving key undoes what the sending key does: whatever one
/// seals, the other opens, and sealing adds exactly a tag.
pub open spec fn opens_what_is_sealed<A: Aead>(sender: RecordKey<A>, receiver: RecordKey<A>) -> bool {
    &&& sender.iv == receiver.iv
    &&& forall|nonce: Seq<u8>, aad: Seq<u8>, plaintext: Seq<u8>, room: nat|
        (#[trigger] sender.aead.sealed(nonce, aad, plaintext, room)) matches Ok(ct) ==> {
            &&& ct.len() == plaintext.len() + TAG_LEN
            &&& receiver.aead.opened(nonce, aad, ct) == Ok::<Seq<u8>, Error>(plaintext)
        }
}

/// The connection that received one more record of application data.
pub open spec fn after_app_record<C: CryptoProvider>(m: TlsModel<C>) -> TlsModel<C> {
    TlsModel { recv_seq: (m.recv_seq + 1) as u64, ..m }.raise(TlsEvent::AppData)
}

/// A record that one side seals is, on the other side, exactly the data that
/// went in: the receiver takes it off the front of what it has and goes on with
/// what follows.
pub proof fn law_record_roundtrip<C: CryptoProvider>(
    key: RecordKey<C::Aead>,
    seq: u64,
    data: Seq<u8>,
    rcv: TlsModel<C>,
    rest: Seq<u8>,
    cap: int,
)
    requires
        rcv.state == ConnState::Active,
        rcv.app_recv matches Some(k) && opens_what_is_sealed(key, k),
        rcv.recv_seq == seq,
        data.len() <= 16384,
        send::record_room(data) <= cap,
        send::sealed_record(
            key.aead,
            crypto::nonce_for(key.iv, seq),
            data,
            ContentType::ApplicationData,
        ) is Ok,
    ensures
        ({
            let rec = send::sealed_record(
                key.aead,
                crypto::nonce_for(key.iv, seq),
                data,
                ContentType::ApplicationData,
            )->Ok_0;
            &&& rec.len() == send::record_room(data)
            &&& recv::round(rcv, rec + rest, cap) == (Round::More {
                conn: after_app_record(rcv),
                app: data,
                rest,
            })
        }),
{
    reveal(recv::record_step);
    let nonce = crypto::nonce_for(key.iv, seq);
    let len = data.len() + 1 + TAG_LEN as nat;
    let header = record::header_bytes(ContentType::ApplicationData, len as u16);
    let inner = data.push(record::content_code(ContentType::ApplicationData));
    let ct = key.aead.sealed(nonce, header, inner, len)->Ok_0;
    let rec = header + ct;
    let all = rec + rest;
    assert(header.len() == 5);
    assert(ct.len() == len);
    assert(all =~= header + (ct + rest));
    record::law_header_roundtrip(ContentType::ApplicationData, len as u16, ct + rest);
    assert(all.take(5) =~= header);
    assert(all.subrange(5, 5 + len as int) =~= ct);
    assert(all.skip(5 + len as int) =~= rest);
    record::law_inner_content_roundtrip(data, ContentType::ApplicationData, 0);
    assert(inner + bytes::zeros(0) =~= inner);
    assert(inner.take(data.len() as int) =~= data);
}

/// What a read gives back of a write: application data that one side encrypted
/// arrives on the other side unchanged and in order. Of the data queued on the
/// sender, what was put into records (all but what is left) is what the receiver
/// hands to its application, with nothing left undecrypted.
pub proof fn law_app_data_roundtrip<C: CryptoProvider>(
    snd: TlsModel<C>,
    app: Seq<u8>,
    before: Seq<u8>,
    cap: int,
    rcv: TlsModel<C>,
    recv_cap: int,
)
    requires
        snd.app_send matches Some(s) && (rcv.app_recv matches Some(k) && opens_what_is_sealed(
            s,
            k,
        )),
        rcv.state == ConnState::Active,
        rcv.recv_seq == snd.send_seq,
        snd.send_seq + app.len() <= u64::MAX,
        recv_cap >= RECORD_HEADER_LEN + snd.plaintext_cap() + 1 + TAG_LEN,
    ensures
        ({
            let (snd1, left, after) = send::app_drained(snd, app, before, cap);
            let got = recv::received(rcv, after.skip(before.len() as int), recv_cap);
            &&& after.len() >= before.len()
            &&& after.take(before.len() as int) == before
            &&& got.result is Ok
            &&& got.rest.len() == 0
            &&& got.plain + left == app
            &&& got.conn.recv_seq == snd1.send_seq
            &&& split::alert_free(rcv, after.skip(before.len() as int), recv_cap)
        }),
    decreases app.len(),
{
    let n = if app.len() < snd.plaintext_cap() {
        app.len() as int
    } else {
        snd.plaintext_cap()
    };
    let key = snd.app_send->0;
    let (snd1, left, after) = send::app_drained(snd, app, before, cap);
    let chunk = app.take(n);
    let nonce = crypto::nonce_for(key.iv, snd.send_seq);
    let (m1, send1, r) = send::record_sent(
        snd,
        before,
        chunk,
        ContentType::ApplicationData,
        false,
        cap,
    );
    if app.len() == 0 || r is Err {
        assert(after == before);
        assert(after.skip(before.len() as int).len() == 0);
        assert(after.take(before.len() as int) =~= before);
        assert(Seq::<u8>::empty() + left =~= app);
    } else {
        let rec = send::sealed_record(
            key.aead,
            nonce,
            chunk,
            ContentType::ApplicationData,
        )->Ok_0;
        assert(send1 == before + rec);
        let rcv1 = after_app_record(rcv);
        law_app_data_roundtrip(m1, app.skip(n), send1, cap, rcv1, recv_cap);
        let tail = after.skip(send1.len() as int);
        assert(after.take(before.len() as int) =~= after.take(send1.len() as int).take(
            before.len() as int,
        ));
        assert(send1.take(before.len() as int) =~= before);
        assert(after.skip(before.len() as int) =~= rec + tail) by {
            assert(after =~= after.take(send1.len() as int) + tail);
            assert(send1.skip(before.len() as int) =~= rec);
        }
        law_record_roundtrip(key, snd.send_seq, chunk, rcv, tail, recv_cap);
        let more = recv::received(rcv1, tail, recv_cap);
        assert(recv::received(rcv, rec + tail, recv_cap) == (Received {
            plain: chunk + more.plain,
            ..more
        }));
        assert(chunk + more.plain + left =~= chunk + (more.plain + left));
        assert(chunk + app.skip(n) =~= app);
    }
}

/// What a read gives back of a write, however the network cuts it: the records
/// made of queued application data, fed to the other side in any pieces, are all
/// accepted, and what that side shows its application grows by exactly the data
/// that was put into them.
pub proof fn law_app_data_in_pieces<C: CryptoProvider>(
    snd: TlsModel<C>,
    app: Seq<u8>,
    before: Seq<u8>,
    cap: int,
    rcv: TlsModel<C>,
    b: BufModel,
    pieces: Seq<Seq<u8>>,
    recv_cap: int,
)
    requires
        snd.app_send matches Some(s) && (rcv.app_recv matches Some(k) && opens_what_is_sealed(
            s,
            k,
        )),
        rcv.state == ConnState::Active,
        rcv.recv_seq == snd.send_seq,
        snd.send_seq + app.len() <= u64::MAX,
        recv_cap >= RECORD_HEADER_LEN + snd.plaintext_cap() + 1 + TAG_LEN,
        b.hidden.len() == 0,
        pieces.len() > 0,
        bytes::joined(pieces) == send::app_drained(snd, app, before, cap).2.skip(
            before.len() as int,
        ),
        b.visible.len() + bytes::joined(pieces).len() <= recv_cap,
        split::remembers_limit::<C::Tls>(connection::local_limit(recv_cap)),
        split::opens_in_place::<C::Aead>(),
    ensures
        ({
            let left = send::app_drained(snd, app, before, cap).1;
            let (_, after, ok) = split::fed_in_pieces(rcv, b, pieces, recv_cap);
            &&& ok
            &&& after.hidden.len() == 0
            &&& after.visible + left == b.visible + app
        }),
{
    let told = rcv.with_limit(recv_cap);
    law_app_data_roundtrip(snd, app, before, cap, told, recv_cap);
    let left = send::app_drained(snd, app, before, cap).1;
    let all = bytes::joined(pieces);
    assert(b.hidden + all =~= all);
    split::law_any_split(rcv, b, pieces, recv_cap);
    let got = recv::received(told, all, recv_cap);
    assert(b.visible + got.plain + left =~= b.visible + (got.plain + left));
}

/// Records that are sent follow what the send buffer held.
proof fn lemma_all_sent_appends<C: CryptoProvider>(
    m: TlsModel<C>,
    send_bytes: Seq<u8>,
    parts: Seq<Seq<u8>>,
    cap: int,
)
    ensures
        ({
            let (m1, s1) = send::all_sent(m, send_bytes, parts, cap);
            &&& m1.ccs_sent == m.ccs_sent
            &&& s1.len() >= send_bytes.len()
            &&& s1.take(send_bytes.len() as int) == send_bytes
        }),
    decreases parts.len(),
{
    if parts.len() == 0 {
        assert(send_bytes.take(send_bytes.len() as int) =~= send_bytes);
    } else {
        let (m1, s1, _) = send::record_sent(
            m,
            send_bytes,
            parts[0],
            ContentType::Handshake,
            true,
            cap,
        );
        lemma_all_sent_appends(m1, s1, parts.drop_first(), cap);
        let end = send::all_sent(m1, s1, parts.drop_first(), cap).1;
        assert(s1.take(send_bytes.len() as int) =~= send_bytes);
        assert(end.take(send_bytes.len() as int) =~= end.take(s1.len() as int).take(
            send_bytes.len() as int,
        ));
    }
}

/// ChangeCipherSpec goes out once in a connection's life: a fresh connection has
/// not sent it; the first protected flight puts it in front of its records; every
/// later one consists of its records alone, and plaintext flights never carry it.
pub proof fn law_change_cipher_spec_once<C: CryptoProvider>(
    m: TlsModel<C>,
    send_bytes: Seq<u8>,
    data: Seq<u8>,
    cap: int,
)
    requires
        send_bytes.len() + send::ccs_record().len() <= cap,
    ensures
        ({
            let (m1, s1) = send::flight_sent(m, send_bytes, data, crypto::Level::Handshake, cap);
            let parts = record::fragments(data, 0, m.plaintext_cap());
            &&& m1.ccs_sent
            &&& !m.ccs_sent ==> s1.len() >= send_bytes.len() + 6 && s1.take(
                send_bytes.len() as int + 6,
            ) == send_bytes + send::ccs_record() && s1 == send::all_sent(
                TlsModel { ccs_sent: true, ..m },
                send_bytes + send::ccs_record(),
                parts,
                cap,
            ).1
            &&& m.ccs_sent ==> (m1, s1) == send::all_sent(m, send_bytes, parts, cap)
        }),
        send::flight_sent(m, send_bytes, data, crypto::Level::Initial, cap).0 == m,
        send::flight_sent(m, send_bytes, data, crypto::Level::Application, cap) == (m, send_bytes),
        !TlsModel::<C>::fresh(m.provider, m.engine).ccs_sent,
{
    let parts = record::fragments(data, 0, m.plaintext_cap());
    let start = if m.ccs_sent {
        send_bytes
    } else {
        send_bytes + send::ccs_record()
    };
    lemma_all_sent_appends(TlsModel { ccs_sent: true, ..m }, start, parts, cap);
    assert(m.ccs_sent ==> TlsModel { ccs_sent: true, ..m } == m);
}

proof fn lemma_installed_ccs<C: CryptoProvider>(m: TlsModel<C>)
    ensures
        m.all_installed().0.ccs_sent == m.ccs_sent,
    decreases m.engine.keys_pending(),
{
    let (engine, keys) = m.engine.keys_step();
    let m0 = TlsModel { engine, ..m };
    match keys {
        Some(k) => {
            let (m1, r) = m0.installed(k);
            if r is Ok && m1.engine.keys_pending() < m.engine.keys_pending() {
                lemma_installed_ccs(m1);
            }
        },
        None => {},
    }
}

proof fn lemma_checked_ccs<C: CryptoProvider>(m: TlsModel<C>)
    ensures
        m.checked().0.ccs_sent == m.ccs_sent,
{
    let m0 = TlsModel {
        peer_limit: match m.engine.peer_limit() {
            Some(l) => l,
            None => m.peer_limit,
        },
        ..m
    };
    lemma_installed_ccs(m0);
}

proof fn lemma_received_ccs<C: CryptoProvider>(m: TlsModel<C>, cipher: Seq<u8>, cap: int)
    ensures
        recv::received(m, cipher, cap).conn.ccs_sent == m.ccs_sent,
    decreases cipher.len(),
{
    reveal(recv::record_step);
    assert forall|t: TlsModel<C>| #[trigger] t.checked().0.ccs_sent == t.ccs_sent by {
        lemma_checked_ccs(t);
    }
    match recv::round(m, cipher, cap) {
        Round::Done { outcome } => {
            assert(outcome.conn.ccs_sent == m.ccs_sent);
        },
        Round::More { conn, app, rest } => {
            assert(conn.ccs_sent == m.ccs_sent);
            if rest.len() < cipher.len() {
                lemma_received_ccs(conn, rest, cap);
            }
        },
    }
}

proof fn lemma_drained_ccs<C: CryptoProvider>(m: TlsModel<C>, send_bytes: Seq<u8>, cap: int)
    ensures
        m.ccs_sent ==> send::engine_drained(m, send_bytes, cap).0.ccs_sent,
    decreases m.engine.output_pending(),
{
    let (engine, out) = m.engine.write_step(send::ENGINE_CHUNK as nat);
    let m1 = TlsModel { engine, ..m };
    match out {
        Ok((data, level)) => {
            if data.len() > 0 {
                let (m2, send2) = send::flight_sent(m1, send_bytes, data, level, cap);
                if level == crypto::Level::Handshake {
                    lemma_all_sent_appends(
                        TlsModel { ccs_sent: true, ..m1 },
                        if m1.ccs_sent {
                            send_bytes
                        } else {
                            crate::tcp_tls::io::queued(send_bytes, send::ccs_record(), cap)
                        },
                        record::fragments(data, 0, m1.plaintext_cap()),
                        cap,
                    );
                }
                if m2.engine.output_pending() < m.engine.output_pending() {
                    lemma_drained_ccs(m2, send2, cap);
                }
            }
        },
        Err(_) => {},
    }
}

proof fn lemma_app_drained_ccs<C: CryptoProvider>(
    m: TlsModel<C>,
    app: Seq<u8>,
    send_bytes: Seq<u8>,
    cap: int,
)
    ensures
        send::app_drained(m, app, send_bytes, cap).0.ccs_sent == m.ccs_sent,
    decreases app.len(),
{
    let n = if app.len() < m.plaintext_cap() {
        app.len() as int
    } else {
        m.plaintext_cap()
    };
    if app.len() > 0 {
        let (m1, send1, r) = send::record_sent(
            m,
            send_bytes,
            app.take(n),
            ContentType::ApplicationData,
            false,
            cap,
        );
        if r is Ok {
            lemma_app_drained_ccs(m1, app.skip(n), send1, cap);
        }
    }
}

/// Nothing makes a connection forget that it sent ChangeCipherSpec: not feeding
/// it data, not polling it for output, not closing it.
pub proof fn law_change_cipher_spec_is_remembered<C: CryptoProvider>(
    m: TlsModel<C>,
    b: BufModel,
    data: Seq<u8>,
    app: Seq<u8>,
    send_bytes: Seq<u8>,
    room: int,
    cap: int,
)
    requires
        m.ccs_sent,
    ensures
        recv::fed(m, b, data, cap).conn.ccs_sent,
        send::output(m, app, send_bytes, room, cap).conn.ccs_sent,
        send::closed(m, send_bytes, cap).0.ccs_sent,
{
    lemma_received_ccs(m.with_limit(cap), b.hidden + data, cap);
    lemma_drained_ccs(m.with_limit(cap), send_bytes, cap);
    assert forall|t: TlsModel<C>| #[trigger] t.checked().0.ccs_sent == t.ccs_sent by {
        lemma_checked_ccs(t);
    }
    let (m1, s1) = send::engine_flushed(m.with_limit(cap), send_bytes, cap);
    assert(m1.ccs_sent);
    lemma_app_drained_ccs(m1, app, s1, cap);
}

} // verus!
