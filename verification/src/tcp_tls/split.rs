//! How received bytes are cut makes no difference.

use vstd::prelude::*;

use crate::buf::BufModel;
use crate::bytes;
use crate::crypto::{Aead, CryptoProvider, Level};
use crate::error::Error;
use crate::tcp_tls::connection::{self, TlsModel};
use crate::tcp_tls::record::{self, ContentType, RECORD_HEADER_LEN};
use crate::tcp_tls::recv::{self, Received, RecordStep, Round};
use crate::tls::TlsSession;

verus! {

/// Whether an engine was told this record size limit: telling it once more
/// changes nothing.
pub open spec fn told<T: TlsSession>(engine: T, limit: u16) -> bool {
    engine.limit_step(limit) == engine
}

/// Whether engines keep the record size limit that they were told, whatever else
/// they are asked to do.
pub open spec fn remembers_limit<T: TlsSession>(limit: u16) -> bool {
    &&& forall|e: T| told(#[trigger] e.limit_step(limit), limit)
    &&& forall|e: T, level: Level, data: Seq<u8>|
        told(e, limit) ==> told((#[trigger] e.read_step(level, data)).0, limit)
    &&& forall|e: T| told(e, limit) ==> told((#[trigger] e.keys_step()).0, limit)
    &&& forall|e: T| told(e, limit) ==> told(#[trigger] e.shrink_step(), limit)
}

/// Whether opening a ciphertext, which is done in place, gives no more bytes than
/// went in.
pub open spec fn opens_in_place<A: Aead>() -> bool {
    forall|a: A, nonce: Seq<u8>, aad: Seq<u8>, ciphertext: Seq<u8>|
        (#[trigger] a.opened(nonce, aad, ciphertext)) matches Ok(plaintext) ==> plaintext.len()
            <= ciphertext.len()
}

/// Whether the record at the front of the received bytes is an alert.
pub open spec fn alert_first<C: CryptoProvider>(m: TlsModel<C>, cipher: Seq<u8>, cap: int) -> bool {
    if cipher.len() < RECORD_HEADER_LEN {
        false
    } else {
        match record::header_at(cipher) {
            Err(_) => false,
            Ok(hdr) => {
                let total = RECORD_HEADER_LEN + hdr.length;
                &&& total <= cap
                &&& total <= cipher.len()
                &&& recv::record_step(
                    m,
                    hdr.content_type,
                    cipher.take(RECORD_HEADER_LEN as int),
                    cipher.subrange(RECORD_HEADER_LEN as int, total),
                ) is Stop
            },
        }
    }
}

/// Whether no alert is among the received records.
pub open spec fn alert_free<C: CryptoProvider>(m: TlsModel<C>, cipher: Seq<u8>, cap: int) -> bool
    decreases cipher.len(),
{
    !alert_first(m, cipher, cap) && match recv::round(m, cipher, cap) {
        Round::Done { .. } => true,
        Round::More { conn, rest, .. } => rest.len() < cipher.len() ==> alert_free(
            conn,
            rest,
            cap,
        ),
    }
}

/// Whether no alert comes with data that is fed.
pub open spec fn fed_without_alert<C: CryptoProvider>(
    m: TlsModel<C>,
    b: BufModel,
    data: Seq<u8>,
    cap: int,
) -> bool {
    alert_free(m.with_limit(cap), b.hidden + data, cap)
}

/// The receive buffer after a feed: decrypted data is shown, the rest hidden.
pub open spec fn buffer_after<C: CryptoProvider>(b: BufModel, r: Received<C>) -> BufModel {
    BufModel { visible: b.visible + r.plain, hidden: r.rest }
}

proof fn lemma_installed_told<C: CryptoProvider>(m: TlsModel<C>, limit: u16)
    requires
        remembers_limit::<C::Tls>(limit),
        told(m.engine, limit),
    ensures
        told(m.all_installed().0.engine, limit),
    decreases m.engine.keys_pending(),
{
    let (engine, keys) = m.engine.keys_step();
    let m0 = TlsModel { engine, ..m };
    match keys {
        Some(k) => {
            let (m1, r) = m0.installed(k);
            assert(m1.engine == engine);
            if r is Ok && m1.engine.keys_pending() < m.engine.keys_pending() {
                lemma_installed_told(m1, limit);
            }
        },
        None => {},
    }
}

proof fn lemma_checked_told<C: CryptoProvider>(m: TlsModel<C>, limit: u16)
    requires
        remembers_limit::<C::Tls>(limit),
        told(m.engine, limit),
    ensures
        told(m.checked().0.engine, limit),
{
    let m0 = TlsModel {
        peer_limit: match m.engine.peer_limit() {
            Some(l) => l,
            None => m.peer_limit,
        },
        ..m
    };
    lemma_installed_told(m0, limit);
}

proof fn lemma_record_told<C: CryptoProvider>(
    m: TlsModel<C>,
    ct: ContentType,
    header: Seq<u8>,
    payload: Seq<u8>,
    limit: u16,
)
    requires
        remembers_limit::<C::Tls>(limit),
        told(m.engine, limit),
    ensures
        recv::record_step(m, ct, header, payload) matches RecordStep::Next {
            conn,
            app,
            check,
        } ==> told(conn.engine, limit) && told(recv::after_next(conn, app, check).0.engine, limit),
{
    reveal(recv::record_step);
    match recv::record_step(m, ct, header, payload) {
        RecordStep::Next { conn, app, check } => {
            assert(told(conn.engine, limit));
            let raised = match app {
                Some(_) => conn.raise(connection::TlsEvent::AppData),
                None => conn,
            };
            lemma_checked_told(raised, limit);
        },
        _ => {},
    }
}

/// Application data is no longer than the record that carried it.
proof fn lemma_record_shrinks<C: CryptoProvider>(
    m: TlsModel<C>,
    ct: ContentType,
    header: Seq<u8>,
    payload: Seq<u8>,
)
    requires
        opens_in_place::<C::Aead>(),
    ensures
        recv::record_step(m, ct, header, payload) matches RecordStep::Next { app, .. }
            ==> recv::app_bytes(app).len() <= payload.len(),
{
    reveal(recv::record_step);
    match m.app_recv {
        Some(k) => {
            match recv::unprotected(k, m.recv_seq, header, payload) {
                Ok(pt) => {
                    record::lemma_inner_content_len(pt);
                },
                Err(_) => {},
            }
        },
        None => {},
    }
}

/// Processing some bytes and then the following ones with what was left.
#[verifier::rlimit(40)]
proof fn lemma_received_split<C: CryptoProvider>(
    m: TlsModel<C>,
    c: Seq<u8>,
    d: Seq<u8>,
    cap: int,
    limit: u16,
)
    requires
        recv::received(m, c + d, cap).result is Ok,
        alert_free(m, c + d, cap),
        remembers_limit::<C::Tls>(limit),
        opens_in_place::<C::Aead>(),
        told(m.engine, limit),
    ensures
        ({
            let first = recv::received(m, c, cap);
            let second = recv::received(first.conn, first.rest + d, cap);
            &&& first.result is Ok
            &&& first.intact
            &&& alert_free(m, c, cap)
            &&& alert_free(first.conn, first.rest + d, cap)
            &&& told(first.conn.engine, limit)
            &&& first.plain.len() + first.rest.len() <= c.len()
            &&& recv::received(m, c + d, cap) == (Received {
                plain: first.plain + second.plain,
                ..second
            })
        }),
    decreases c.len(),
{
    let all = c + d;
    let first = recv::received(m, c, cap);
    let stay = Received {
        conn: m,
        plain: Seq::<u8>::empty(),
        rest: c,
        intact: true,
        result: Ok::<(), Error>(()),
    };
    let whole = recv::received(m, all, cap);
    assert(Seq::<u8>::empty() + whole.plain =~= whole.plain);
    if c.len() >= RECORD_HEADER_LEN {
        assert(record::header_at(c) == record::header_at(all));
        match record::header_at(c) {
            Err(_) => {},
            Ok(hdr) => {
                let total = RECORD_HEADER_LEN + hdr.length;
                if total <= cap && total <= c.len() {
                    let head = c.take(RECORD_HEADER_LEN as int);
                    let payload = c.subrange(RECORD_HEADER_LEN as int, total);
                    assert(all.take(RECORD_HEADER_LEN as int) =~= head);
                    assert(all.subrange(RECORD_HEADER_LEN as int, total) =~= payload);
                    let rest = c.skip(total);
                    assert(all.skip(total) =~= rest + d);
                    lemma_record_told(m, hdr.content_type, head, payload, limit);
                    lemma_record_shrinks(m, hdr.content_type, head, payload);
                    match recv::record_step(m, hdr.content_type, head, payload) {
                        RecordStep::Next { conn, app, check } => {
                            let (m1, r) = recv::after_next(conn, app, check);
                            assert(r is Ok);
                            lemma_received_split(m1, rest, d, cap, limit);
                            let f1 = recv::received(m1, rest, cap);
                            let s1 = recv::received(f1.conn, f1.rest + d, cap);
                            let a = recv::app_bytes(app);
                            assert(a + (f1.plain + s1.plain) =~= a + f1.plain + s1.plain);
                        },
                        _ => {},
                    }
                }
            },
        }
    }
}

/// Law: it makes no difference how received bytes are cut. Where feeding some
/// data in one call succeeds and no alert is in it, feeding a front part and then
/// the rest succeeds both times and ends the same: in the connection with its
/// events, the decrypted data and the bytes still hidden.
///
/// Of the engine it takes that it keeps the record size limit, which every feed
/// tells it again; of the AEAD, that it opens in place.
pub proof fn law_split_feed<C: CryptoProvider>(
    m: TlsModel<C>,
    b: BufModel,
    x: Seq<u8>,
    y: Seq<u8>,
    cap: int,
)
    requires
        recv::fed(m, b, x + y, cap).result is Ok,
        fed_without_alert(m, b, x + y, cap),
        remembers_limit::<C::Tls>(connection::local_limit(cap)),
        opens_in_place::<C::Aead>(),
    ensures
        ({
            let whole = recv::fed(m, b, x + y, cap);
            let first = recv::fed(m, b, x, cap);
            let second = recv::fed(first.conn, buffer_after(b, first), y, cap);
            &&& first.result is Ok
            &&& first.intact
            &&& fed_without_alert(m, b, x, cap)
            &&& second.result is Ok
            &&& fed_without_alert(first.conn, buffer_after(b, first), y, cap)
            &&& second.conn == whole.conn
            &&& buffer_after(buffer_after(b, first), second) == buffer_after(b, whole)
            &&& second.intact == whole.intact
        }),
{
    let limit = connection::local_limit(cap);
    let m1 = m.with_limit(cap);
    let whole = recv::fed(m, b, x + y, cap);
    let c = b.hidden + x;
    assert(b.hidden + (x + y) =~= c + y);
    lemma_received_split(m1, c, y, cap, limit);
    let first = recv::received(m1, c, cap);
    assert(first.conn.with_limit(cap) =~= first.conn);
    let second = recv::received(first.conn, first.rest + y, cap);
    assert(b.visible + first.plain + second.plain =~= b.visible + (first.plain + second.plain));
}

/// What feeding pieces one by one comes to: the connection, the receive buffer,
/// and whether every call succeeded.
pub open spec fn fed_in_pieces<C: CryptoProvider>(
    m: TlsModel<C>,
    b: BufModel,
    pieces: Seq<Seq<u8>>,
    cap: int,
) -> (TlsModel<C>, BufModel, bool)
    decreases pieces.len(),
{
    if pieces.len() == 0 {
        (m, b, true)
    } else {
        let r = recv::fed(m, b, pieces[0], cap);
        let (m1, b1, ok) = fed_in_pieces(
            r.conn,
            buffer_after(b, r),
            pieces.drop_first(),
            cap,
        );
        (m1, b1, ok && r.result is Ok)
    }
}

/// Law: data that is accepted in one call, and holds no alert, is accepted in any
/// pieces, down to single bytes, with the same outcome.
pub proof fn law_any_split<C: CryptoProvider>(
    m: TlsModel<C>,
    b: BufModel,
    pieces: Seq<Seq<u8>>,
    cap: int,
)
    requires
        pieces.len() > 0,
        recv::fed(m, b, bytes::joined(pieces), cap).result is Ok,
        fed_without_alert(m, b, bytes::joined(pieces), cap),
        remembers_limit::<C::Tls>(connection::local_limit(cap)),
        opens_in_place::<C::Aead>(),
    ensures
        ({
            let whole = recv::fed(m, b, bytes::joined(pieces), cap);
            fed_in_pieces(m, b, pieces, cap) == (whole.conn, buffer_after(b, whole), true)
        }),
    decreases pieces.len(),
{
    let x = pieces[0];
    let rest = pieces.drop_first();
    if rest.len() == 0 {
        assert(bytes::joined(rest) =~= Seq::<u8>::empty());
        assert(bytes::joined(pieces) =~= x);
        let r = recv::fed(m, b, x, cap);
        assert(fed_in_pieces(r.conn, buffer_after(b, r), rest, cap) == (
            r.conn,
            buffer_after(b, r),
            true,
        ));
    } else {
        law_split_feed(m, b, x, bytes::joined(rest), cap);
        let r = recv::fed(m, b, x, cap);
        law_any_split(r.conn, buffer_after(b, r), rest, cap);
    }
}

/// Law: bytes that do not complete a record are only kept: nothing is decrypted
/// and the connection, once told its limit, stays as it is.
pub proof fn law_partial_record_waits<C: CryptoProvider>(
    m: TlsModel<C>,
    b: BufModel,
    data: Seq<u8>,
    cap: int,
)
    requires
        b.size() + data.len() <= cap,
        ({
            let c = b.hidden + data;
            ||| c.len() < RECORD_HEADER_LEN
            ||| (record::header_at(c) matches Ok(hdr) && RECORD_HEADER_LEN + hdr.length <= cap
                && c.len() < RECORD_HEADER_LEN + hdr.length)
        }),
    ensures
        recv::fed(m, b, data, cap) == (Received {
            conn: m.with_limit(cap),
            plain: Seq::empty(),
            rest: b.hidden + data,
            intact: true,
            result: Ok(()),
        }),
{
}

/// The application data of the records that are completed, record by record.
pub open spec fn record_data<C: CryptoProvider>(m: TlsModel<C>, cipher: Seq<u8>, cap: int) -> Seq<
    Seq<u8>,
>
    decreases cipher.len(),
{
    match recv::round(m, cipher, cap) {
        Round::Done { outcome } => seq![outcome.plain],
        Round::More { conn, app, rest } => if rest.len() < cipher.len() {
            seq![app] + record_data(conn, rest, cap)
        } else {
            seq![app]
        },
    }
}

proof fn lemma_received_data<C: CryptoProvider>(m: TlsModel<C>, cipher: Seq<u8>, cap: int)
    ensures
        recv::received(m, cipher, cap).plain == bytes::joined(record_data(m, cipher, cap)),
        recv::received(m, cipher, cap).rest.len() <= cipher.len(),
        recv::received(m, cipher, cap).rest == cipher.skip(
            cipher.len() - recv::received(m, cipher, cap).rest.len(),
        ),
    decreases cipher.len(),
{
    let got = recv::received(m, cipher, cap);
    assert(cipher.skip(0) =~= cipher);
    match recv::round(m, cipher, cap) {
        Round::Done { outcome } => {
            let one = seq![outcome.plain];
            assert(one.drop_first() =~= Seq::<Seq<u8>>::empty());
            assert(bytes::joined(one.drop_first()) =~= Seq::<u8>::empty());
            assert(bytes::joined(one) =~= outcome.plain);
        },
        Round::More { conn, app, rest } => {
            let total = cipher.len() - rest.len();
            assert(rest =~= cipher.skip(total));
            if rest.len() < cipher.len() {
                lemma_received_data(conn, rest, cap);
                let more = record_data(conn, rest, cap);
                assert((seq![app] + more).drop_first() =~= more);
                let left = recv::received(conn, rest, cap).rest;
                assert(rest.skip(rest.len() - left.len()) =~= cipher.skip(
                    cipher.len() - left.len(),
                ));
            } else {
                let one = seq![app];
                assert(one.drop_first() =~= Seq::<Seq<u8>>::empty());
                assert(bytes::joined(one.drop_first()) =~= Seq::<u8>::empty());
                assert(bytes::joined(one) =~= app);
            }
        },
    }
}

/// Law: feeding never loses or alters decrypted data that waits to be read. What
/// it adds, whether the call succeeds or not, is the application data of the
/// completed records, in order; what stays hidden is the end of what was
/// received. Data that does not fit is refused with the size that it would take,
/// and then the buffer stays as it is.
pub proof fn law_feed_appends<C: CryptoProvider>(
    m: TlsModel<C>,
    b: BufModel,
    data: Seq<u8>,
    cap: int,
)
    requires
        b.size() + data.len() <= usize::MAX,
    ensures
        ({
            let r = recv::fed(m, b, data, cap);
            let after = buffer_after(b, r);
            let needed = b.visible.len() + b.hidden.len() + data.len();
            &&& after.visible.take(b.visible.len() as int) == b.visible
            &&& needed > cap ==> r.result == Err::<(), Error>(
                Error::BufferTooSmall { needed: needed as usize },
            ) && after == b && r.intact
            &&& needed <= cap ==> {
                let c = b.hidden + data;
                &&& after.visible == b.visible + bytes::joined(record_data(m.with_limit(cap), c, cap))
                &&& after.hidden.len() <= c.len()
                &&& after.hidden == c.skip(c.len() - after.hidden.len())
            }
        }),
{
    let r = recv::fed(m, b, data, cap);
    assert(buffer_after(b, r).visible.take(b.visible.len() as int) =~= b.visible);
    if b.size() + data.len() <= cap {
        lemma_received_data(m.with_limit(cap), b.hidden + data, cap);
    } else {
        assert(b.visible + Seq::<u8>::empty() =~= b.visible);
    }
}

} // verus!
