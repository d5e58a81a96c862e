//! What a connection puts on the wire.

use vstd::prelude::*;

use crate::crypto::{self, Aead, CryptoProvider, Level};
use crate::error::Error;
use crate::tcp_tls::connection::{local_limit, ConnState, TlsEvent, TlsModel};
use crate::tcp_tls::laws;
use crate::tcp_tls::reading;
use crate::tcp_tls::record::{self, ContentType};
use crate::tcp_tls::recv::{self, Received, Round};
use crate::tcp_tls::send;
use crate::tls::TlsSession;

verus! {

/// The code of a content type on the wire.
pub open spec fn wire_code(ct: ContentType) -> u8 {
    match ct {
        ContentType::ChangeCipherSpec => 20u8,
        ContentType::Alert => 21u8,
        ContentType::Handshake => 22u8,
        ContentType::ApplicationData => 23u8,
    }
}

/// Law: the form of a protected record. Outside it is application data of version
/// 3.3 with the length of what follows; inside, sealed under that header, are the
/// data and behind them the code of their type.
pub proof fn law_protected_form<A: Aead>(
    aead: A,
    nonce: Seq<u8>,
    data: Seq<u8>,
    inner: ContentType,
)
    requires
        data.len() <= 16384,
    ensures
        ({
            let n = data.len() + 17;
            let header = seq![23u8, 3u8, 3u8, (n / 256) as u8, (n % 256) as u8];
            let sealed = aead.sealed(nonce, header, data + seq![wire_code(inner)], n);
            &&& sealed matches Ok(ct) ==> send::sealed_record(aead, nonce, data, inner) == Ok::<
                Seq<u8>,
                Error,
            >(header + ct)
            &&& sealed matches Err(e) ==> send::sealed_record(aead, nonce, data, inner) == Err::<
                Seq<u8>,
                Error,
            >(e)
        }),
{
    let n = data.len() + 17;
    let header = seq![23u8, 3u8, 3u8, (n / 256) as u8, (n % 256) as u8];
    assert(record::header_bytes(ContentType::ApplicationData, n as u16) =~= header);
    assert(data.push(wire_code(inner)) =~= data + seq![wire_code(inner)]);
}

/// Law: the form of a plain record, where it fits: type, version 3.3, length,
/// data, behind what is already there.
pub proof fn law_plain_form(before: Seq<u8>, ct: ContentType, data: Seq<u8>, cap: int)
    requires
        data.len() <= 0xffff,
        before.len() + 5 + data.len() <= cap,
    ensures
        send::plaintext_record(before, ct, data, cap) == before + seq![
            wire_code(ct),
            3u8,
            3u8,
            (data.len() / 256) as u8,
            (data.len() % 256) as u8,
        ] + data,
        send::ccs_record() == seq![20u8, 3u8, 3u8, 0u8, 1u8, 1u8],
{
    let header = seq![
        wire_code(ct),
        3u8,
        3u8,
        (data.len() / 256) as u8,
        (data.len() % 256) as u8,
    ];
    assert(record::header_bytes(ct, data.len() as u16) =~= header);
}

/// Law: what a connection sends with a key, and how the number of the record
/// enters: the nonce is made of the key's IV and the count of records sent with
/// that key so far.
pub proof fn law_record_uses_its_key<C: CryptoProvider>(
    m: TlsModel<C>,
    before: Seq<u8>,
    data: Seq<u8>,
    inner: ContentType,
    cap: int,
)
    requires
        m.send_seq < u64::MAX,
        m.hs_send_seq < u64::MAX,
        before.len() + data.len() + 22 <= cap,
    ensures
        m.app_send matches Some(k) ==> ({
            let made = send::sealed_record(
                k.aead,
                crypto::nonce_for(k.iv, m.send_seq),
                data,
                inner,
            );
            let (after, out, r) = send::record_sent(m, before, data, inner, false, cap);
            &&& made matches Ok(rec) ==> r is Ok && out == before + rec && after == (TlsModel {
                send_seq: (m.send_seq + 1) as u64,
                ..m
            })
            &&& made is Err ==> r is Err && out == before && after == m
        }),
        m.hs_send matches Some(k) ==> ({
            let made = send::sealed_record(
                k.aead,
                crypto::nonce_for(k.iv, m.hs_send_seq),
                data,
                inner,
            );
            let (after, out, r) = send::record_sent(m, before, data, inner, true, cap);
            &&& made matches Ok(rec) ==> r is Ok && out == before + rec && after == (TlsModel {
                hs_send_seq: (m.hs_send_seq + 1) as u64,
                ..m
            })
            &&& made is Err ==> r is Err && out == before && after == m
        }),
{
}

/// Law: closing an active connection tells the peer: the last record opens there
/// as close_notify, after which the peer is closing and has reported it.
pub proof fn law_close_reaches_peer<C: CryptoProvider>(
    m: TlsModel<C>,
    before: Seq<u8>,
    cap: int,
    rcv: TlsModel<C>,
    rest: Seq<u8>,
    recv_cap: int,
)
    requires
        m.state == ConnState::Active,
        rcv.state == ConnState::Active,
        m.app_send matches Some(s) && (rcv.app_recv matches Some(k) && laws::opens_what_is_sealed(
            s,
            k,
        )),
        rcv.recv_seq == m.send_seq,
        m.send_seq < u64::MAX,
        recv_cap >= 24,
        send::closed(m, before, cap).2 is Ok,
    ensures
        ({
            let (after, out, _) = send::closed(m, before, cap);
            let rec = out.skip(before.len() as int);
            &&& after.state == ConnState::Closing
            &&& out.len() == before.len() + 24
            &&& out.take(before.len() as int) == before
            &&& recv::round(rcv, rec + rest, recv_cap) == (Round::Done {
                outcome: Received {
                    conn: TlsModel {
                        state: ConnState::Closing,
                        events: reading::with_event(rcv.events, TlsEvent::PeerClosed),
                        recv_seq: (rcv.recv_seq + 1) as u64,
                        ..rcv
                    },
                    plain: Seq::empty(),
                    rest,
                    intact: true,
                    result: Ok::<(), Error>(()),
                },
            })
        }),
{
    let s = m.app_send->0;
    let nonce = crypto::nonce_for(s.iv, m.send_seq);
    let data = seq![1u8, 0u8];
    law_protected_form(s.aead, nonce, data, ContentType::Alert);
    let n = data.len() + 17;
    let header = seq![23u8, 3u8, 3u8, (n / 256) as u8, (n % 256) as u8];
    let inner = data + seq![21u8];
    let ct = s.aead.sealed(nonce, header, inner, n)->Ok_0;
    let out = send::closed(m, before, cap).1;
    assert(out == before + (header + ct));
    assert(out.skip(before.len() as int) =~= header + ct);
    assert(out.take(before.len() as int) =~= before);
    assert(inner + Seq::new(0, |i: int| 0u8) =~= inner);
    assert(reading::opens_to(rcv.app_recv, rcv.recv_seq, header, ct, data, 21, 0));
    reading::law_protected_record(rcv, header, ct, rest, data, 21, 0, recv_cap);
}

/// Law: closing during the handshake sends close_notify in the clear.
pub proof fn law_early_close<C: CryptoProvider>(m: TlsModel<C>, before: Seq<u8>, cap: int)
    requires
        m.state == ConnState::Handshake || m.state == ConnState::HandshakeEncrypted,
        before.len() + 7 <= cap,
    ensures
        send::closed(m, before, cap) == (
            TlsModel { state: ConnState::Closing, ..m },
            before + seq![21u8, 3u8, 3u8, 0u8, 2u8, 1u8, 0u8],
            Ok::<(), Error>(()),
        ),
{
    assert(record::header_bytes(ContentType::Alert, 2) + seq![1u8, 0u8] =~= seq![
        21u8,
        3u8,
        3u8,
        0u8,
        2u8,
        1u8,
        0u8,
    ]);
}

/// What repeated calls hand out of a send buffer to which nothing is added, with
/// room for as many bytes as given each time: all bytes together, what the
/// connection counts as handed out, and the buffer.
pub open spec fn handed_out_in_turn<C: CryptoProvider>(
    m: TlsModel<C>,
    app: Seq<u8>,
    buffer: Seq<u8>,
    rooms: Seq<nat>,
) -> (Seq<u8>, TlsModel<C>, Seq<u8>)
    decreases rooms.len(),
{
    if rooms.len() == 0 {
        (Seq::empty(), m, buffer)
    } else {
        let o = send::handed_out(m, app, buffer, rooms[0] as int);
        let (more, m1, left) = handed_out_in_turn(o.conn, o.app, o.send, rooms.drop_first());
        (
            (match o.bytes {
                Some(b) => b,
                None => Seq::empty(),
            }) + more,
            m1,
            left,
        )
    }
}

/// Law: what is handed out, in portions of any size, is the send buffer from where
/// it was left, in order and without a gap; what was not handed out is still there;
/// and with room for all of it all is handed out, after which nothing is left.
pub proof fn law_output_in_portions<C: CryptoProvider>(
    m: TlsModel<C>,
    app: Seq<u8>,
    buffer: Seq<u8>,
    rooms: Seq<nat>,
)
    requires
        m.send_offset <= buffer.len() <= usize::MAX,
    ensures
        ({
            let (out, after, left) = handed_out_in_turn(m, app, buffer, rooms);
            &&& after.send_offset <= left.len()
            &&& out + left.skip(after.send_offset as int) == buffer.skip(m.send_offset as int)
            &&& rooms.len() > 0 && rooms[0] >= buffer.len() && m.send_offset < buffer.len() ==> out
                == buffer.skip(m.send_offset as int) && left.len() == 0
        }),
    decreases rooms.len(),
{
    let (out, after, left) = handed_out_in_turn(m, app, buffer, rooms);
    if rooms.len() == 0 {
        assert(out + left.skip(after.send_offset as int) =~= buffer.skip(m.send_offset as int));
    } else {
        let o = send::handed_out(m, app, buffer, rooms[0] as int);
        law_output_in_portions(o.conn, o.app, o.send, rooms.drop_first());
        let (more, m1, l1) = handed_out_in_turn(o.conn, o.app, o.send, rooms.drop_first());
        let first = match o.bytes {
            Some(b) => b,
            None => Seq::<u8>::empty(),
        };
        assert(first + o.send.skip(o.conn.send_offset as int) =~= buffer.skip(m.send_offset as int));
        assert(first + more + left.skip(after.send_offset as int) =~= first + (more + left.skip(
            after.send_offset as int,
        )));
        if rooms[0] >= buffer.len() && m.send_offset < buffer.len() {
            assert(o.send.len() == 0);
            lemma_nothing_more(o.conn, o.app, o.send, rooms.drop_first());
            assert(first + more =~= first);
            assert(first =~= buffer.skip(m.send_offset as int));
        }
    }
}

proof fn lemma_nothing_more<C: CryptoProvider>(
    m: TlsModel<C>,
    app: Seq<u8>,
    buffer: Seq<u8>,
    rooms: Seq<nat>,
)
    requires
        buffer.len() == 0,
    ensures
        handed_out_in_turn(m, app, buffer, rooms).0.len() == 0,
        handed_out_in_turn(m, app, buffer, rooms).2.len() == 0,
    decreases rooms.len(),
{
    if rooms.len() > 0 {
        lemma_nothing_more(m, app, buffer, rooms.drop_first());
    }
}

/// Law: what polling hands out comes behind what was waiting: with everything
/// encrypted so far in the send buffer, the bytes handed out are its next ones, at
/// most as many as there is room for, and at least one if there is room and
/// anything waits.
pub proof fn law_output_is_what_was_encrypted<C: CryptoProvider>(
    m: TlsModel<C>,
    app: Seq<u8>,
    buffer: Seq<u8>,
    room: int,
    cap: int,
)
    requires
        room >= 0,
    ensures
        ({
            let (m1, b1) = send::engine_flushed(m.with_limit(cap), buffer, cap);
            let (m2, a2, b2) = send::app_flushed(m1, app, b1, cap);
            let o = send::output(m, app, buffer, room, cap);
            &&& o.app == a2
            &&& m2.send_offset >= b2.len() ==> o.bytes is None && o.send == b2
            &&& m2.send_offset < b2.len() ==> ({
                &&& o.bytes matches Some(b)
                &&& b.len() <= room
                &&& room > 0 ==> b.len() > 0
                &&& b == b2.subrange(m2.send_offset as int, m2.send_offset + b.len())
            })
        }),
{
}

/// Law: the record size limit to advertise leaves exactly 64 bytes of the receive
/// buffer for what surrounds the plaintext, between 64 and 16385.
pub proof fn law_limit_to_advertise(buf: int)
    ensures
        128 <= buf <= 16449 ==> local_limit(buf) == buf - 64,
        buf < 128 ==> local_limit(buf) == 64,
        buf > 16449 ==> local_limit(buf) == 16385,
{
}

/// Law: outgoing records use the peer's limit fully: as many bytes of plaintext as
/// it leaves beside the content type, up to 16384, and at least one.
pub proof fn law_limit_is_used<C: CryptoProvider>(m: TlsModel<C>)
    ensures
        2 <= m.peer_limit <= 16385 ==> m.plaintext_cap() == m.peer_limit - 1,
        m.peer_limit > 16385 ==> m.plaintext_cap() == 16384,
        m.peer_limit < 2 ==> m.plaintext_cap() == 1,
{
}

/// Law: application data that waits is sent as long as there is room. With room
/// for everything in records of one byte each, and a key that seals, nothing is
/// left; with room for one record at least something goes.
pub proof fn law_waiting_data_is_sent<C: CryptoProvider>(
    m: TlsModel<C>,
    app: Seq<u8>,
    before: Seq<u8>,
    cap: int,
)
    requires
        m.state == ConnState::Active,
        m.app_send is Some,
        m.send_seq + app.len() <= u64::MAX,
        forall|nonce: Seq<u8>, aad: Seq<u8>, plaintext: Seq<u8>, room: nat|
            ((#[trigger] (m.app_send->0).aead.sealed(nonce, aad, plaintext, room)) matches Ok(ct)
                && ct.len() == plaintext.len() + 16),
    ensures
        ({
            let (after, left, out) = send::app_flushed(m, app, before, cap);
            &&& before.len() + 23 * app.len() <= cap ==> left.len() == 0
            &&& app.len() > 0 && before.len() + 22 + m.plaintext_cap() <= cap ==> left.len()
                < app.len()
            &&& left.len() <= app.len() && left == app.skip(app.len() - left.len())
            &&& after.state == ConnState::Active
        }),
    decreases app.len(),
{
    let key = m.app_send->0;
    let n = if app.len() < m.plaintext_cap() {
        app.len() as int
    } else {
        m.plaintext_cap()
    };
    laws::law_plaintext_cap(m);
    let (after, left, out) = send::app_flushed(m, app, before, cap);
    if app.len() == 0 {
        assert(app.skip(0) =~= app);
    } else {
        let chunk = app.take(n);
        let nonce = crypto::nonce_for(key.iv, m.send_seq);
        law_protected_form(key.aead, nonce, chunk, ContentType::ApplicationData);
        let (m1, b1, r) = send::record_sent(
            m,
            before,
            chunk,
            ContentType::ApplicationData,
            false,
            cap,
        );
        if r is Ok {
            law_waiting_data_is_sent(m1, app.skip(n), b1, cap);
            let (a2, l2, o2) = send::app_flushed(m1, app.skip(n), b1, cap);
            assert(left == l2);
            assert(b1.len() == before.len() + 22 + n);
            assert(app.skip(n).skip(app.skip(n).len() - l2.len()) =~= app.skip(
                app.len() - l2.len(),
            ));
        } else {
            assert(app.skip(0) =~= app);
        }
    }
}

/// Law: a connection that is not active keeps its application data.
pub proof fn law_data_waits_for_the_handshake<C: CryptoProvider>(
    m: TlsModel<C>,
    app: Seq<u8>,
    before: Seq<u8>,
    cap: int,
)
    requires
        m.state != ConnState::Active,
    ensures
        send::app_flushed(m, app, before, cap) == (m, app, before),
{
}

/// Law: handshake output goes out in the order in which the engine hands it out,
/// all of it, before what the engine learned is taken over: at first as plain
/// handshake records, later in protected ones.
pub proof fn law_engine_output_is_sent<C: CryptoProvider>(
    m: TlsModel<C>,
    before: Seq<u8>,
    cap: int,
)
    ensures
        ({
            let (engine, out) = m.engine.write_step(2048);
            let m1 = TlsModel { engine, ..m };
            &&& out is Err ==> send::engine_drained(m, before, cap) == (m1, before)
            &&& out matches Ok((data, level)) ==> {
                &&& data.len() == 0 ==> send::engine_drained(m, before, cap) == (m1, before)
                &&& data.len() > 0 && engine.output_pending() < m.engine.output_pending() ==> ({
                    let (m2, b2) = send::flight_sent(m1, before, data, level, cap);
                    m2.engine == engine ==> send::engine_drained(m, before, cap)
                        == send::engine_drained(m2, b2, cap)
                })
                &&& level == Level::Initial && data.len() <= 0xffff && before.len() + 5 + data.len()
                    <= cap ==> send::flight_sent(m1, before, data, level, cap) == (
                    m1,
                    before + seq![
                        22u8,
                        3u8,
                        3u8,
                        (data.len() / 256) as u8,
                        (data.len() % 256) as u8,
                    ] + data,
                )
            }
            &&& m.output_pending ==> send::engine_flushed(m, before, cap).0 == (TlsModel {
                output_pending: false,
                ..send::engine_drained(m, before, cap).0.checked().0
            }) && send::engine_flushed(m, before, cap).1 == send::engine_drained(m, before, cap).1
            &&& !m.output_pending ==> send::engine_flushed(m, before, cap) == (m, before)
        }),
{
    let (engine, out) = m.engine.write_step(2048);
    match out {
        Ok((data, level)) => {
            if data.len() <= 0xffff && before.len() + 5 + data.len() <= cap {
                law_plain_form(before, ContentType::Handshake, data, cap);
            }
        },
        Err(_) => {},
    }
}

/// Law: protected handshake output is sent piece by piece under the handshake key:
/// each piece that fits becomes one record of type handshake, in order.
pub proof fn law_flight_is_sent_in_order<C: CryptoProvider>(
    m: TlsModel<C>,
    before: Seq<u8>,
    parts: Seq<Seq<u8>>,
    cap: int,
)
    requires
        m.hs_send is Some,
        m.hs_send_seq < u64::MAX,
        m.send_seq < u64::MAX,
        parts.len() > 0,
        before.len() + parts[0].len() + 22 <= cap,
        parts[0].len() <= 16384,
    ensures
        ({
            let k = m.hs_send->0;
            send::sealed_record(
                k.aead,
                crypto::nonce_for(k.iv, m.hs_send_seq),
                parts[0],
                ContentType::Handshake,
            ) matches Ok(rec) ==> send::all_sent(m, before, parts, cap) == send::all_sent(
                TlsModel { hs_send_seq: (m.hs_send_seq + 1) as u64, ..m },
                before + rec,
                parts.drop_first(),
                cap,
            )
        }),
        send::all_sent(m, before, Seq::<Seq<u8>>::empty(), cap) == (m, before),
{
    law_record_uses_its_key(m, before, parts[0], ContentType::Handshake, cap);
}

/// Law: a handshake message is its type, its length in three bytes, the highest
/// first, and its body; it ends where its body does, whatever stands around it.
pub proof fn law_message_form(before: Seq<u8>, kind: u8, body: Seq<u8>, after: Seq<u8>)
    requires
        body.len() < 0x100_0000,
    ensures
        ({
            let n = body.len();
            let message = seq![
                kind,
                (n / 0x1_0000) as u8,
                (n / 0x100 % 0x100) as u8,
                (n % 0x100) as u8,
            ] + body;
            record::message_end(before + message + after, before.len() as int) == before.len()
                + message.len()
        }),
{
    let n = body.len();
    let message = seq![
        kind,
        (n / 0x1_0000) as u8,
        (n / 0x100 % 0x100) as u8,
        (n % 0x100) as u8,
    ] + body;
    let s = before + message + after;
    let at = before.len() as int;
    assert(s[at + 1] == message[1] && s[at + 2] == message[2] && s[at + 3] == message[3]);
    assert(n == n / 0x1_0000 * 0x1_0000 + n / 0x100 % 0x100 * 0x100 + n % 0x100) by {
        assert(n / 0x100 == n / 0x100 / 0x100 * 0x100 + n / 0x100 % 0x100);
        assert(n / 0x100 / 0x100 == n / 0x1_0000);
    }
}

/// Law: records are filled. What fits into one record goes into one; and where the
/// next message still fits behind what a record of whole messages holds, it is in
/// that record.
pub proof fn law_records_are_filled(s: Seq<u8>, start: int, cap: int)
    requires
        0 <= start < s.len(),
    ensures
        s.len() - start <= cap ==> record::fragments(s, start, cap) == seq![s.skip(start)],
        start < record::message_end(s, start) <= start + cap ==> ({
            let all = record::fragments(s, start, cap);
            let end = start + all[0].len();
            &&& all.len() > 0
            &&& end >= record::message_end(s, start)
            &&& end == s.len() || record::message_end(s, end) - start > cap
        }),
{
    lemma_filled(s, start, start, cap);
    let end = record::packed_end(s, start, start, cap);
    if s.len() - start <= cap {
        assert(s.subrange(start, end) =~= s.skip(start));
        assert(record::fragments(s, end, cap) =~= Seq::<Seq<u8>>::empty());
        assert(record::fragments(s, start, cap) =~= seq![s.skip(start)]);
    }
}

/// Packing goes on as long as it can.
proof fn lemma_filled(s: Seq<u8>, start: int, end: int, cap: int)
    requires
        0 <= start <= end <= s.len(),
    ensures
        ({
            let e = record::packed_end(s, start, end, cap);
            &&& end <= e <= s.len()
            &&& e == s.len() || record::message_end(s, e) - start > cap
            &&& s.len() - start <= cap ==> e == s.len()
            &&& end < s.len() && record::message_end(s, end) - start <= cap ==> e
                >= record::message_end(s, end)
        }),
    decreases s.len() - end,
{
    if end < s.len() {
        let next = record::message_end(s, end);
        assert(end < next <= s.len());
        if next - start <= cap {
            lemma_filled(s, start, next, cap);
        }
    }
}

/// Law: how a connection starts: in the clear, without keys, with all numbers at
/// zero, with nothing to report and what the engine has to say still to be sent;
/// and a peer that states no limit takes records of 16384 bytes.
pub proof fn law_start<C: CryptoProvider>(provider: C, engine: C::Tls)
    ensures
        ({
            let m = TlsModel::<C>::fresh(provider, engine);
            &&& m.provider == provider && m.engine == engine
            &&& m.state == ConnState::Handshake
            &&& m.hs_send is None && m.hs_recv is None && m.app_send is None && m.app_recv is None
            &&& m.send_seq == 0 && m.recv_seq == 0 && m.hs_send_seq == 0 && m.hs_recv_seq == 0
            &&& m.events.len() == 0 && m.output_pending && !m.ccs_sent && m.send_offset == 0
            &&& m.plaintext_cap() == 16384
        }),
{
}

/// Law: output is made in order: the engine, which knows by then what records this
/// side takes, has its say first, application data follows, and what is handed out
/// is the front of all that is not handed out yet.
pub proof fn law_output_in_order<C: CryptoProvider>(
    m: TlsModel<C>,
    app: Seq<u8>,
    before: Seq<u8>,
    room: int,
    cap: int,
)
    requires
        0 <= room,
        m.state != ConnState::Active,
        !m.output_pending,
        m.send_offset < before.len() <= usize::MAX,
    ensures
        ({
            let out = send::output(m, app, before, room, cap);
            let left = before.len() - m.send_offset;
            &&& out.app == app
            &&& out.conn.engine == m.engine.limit_step(local_limit(cap))
            &&& out.bytes matches Some(b) && b == before.subrange(
                m.send_offset as int,
                m.send_offset + b.len(),
            ) && b.len() == if left <= room {
                left
            } else {
                room
            }
            &&& left > room ==> out.send == before && out.conn.send_offset == m.send_offset + room
            &&& left <= room ==> out.send.len() == 0 && out.conn.send_offset == 0
        }),
{
}

} // verus!
