//! What the header of a packet tells before it is opened.

use vstd::prelude::*;

use crate::bytes;
use crate::connection::peer;
use crate::connection::reading::{self, Told};
use crate::connection::telling;
use crate::connection::{laws, poll, protect, transmit, ConnModel, ConnectionState};
use crate::crypto::{self, Aead, CryptoProvider, HeaderProtection, KeyModel, Level, TAG_LEN};
use crate::frame;
use crate::packet;
use crate::transport::Instant;
use crate::varint;

verus! {

/// A long header, up to the packet number.
pub struct LongHeader {
    /// 0 for Initial, 2 for Handshake.
    pub kind: int,
    pub version: int,
    pub dcid: Seq<u8>,
    pub scid: Seq<u8>,
    pub token: Seq<u8>,
    /// How many bytes follow, the packet number included.
    pub length: int,
    /// Where the packet number stands.
    pub pn_at: int,
}

/// A byte for a length, and as many bytes: those, and the position behind them.
pub open spec fn counted_at(s: Seq<u8>, at: int) -> Option<(Seq<u8>, int)> {
    if at < 0 || at >= s.len() || at + 1 + s[at] > s.len() {
        None
    } else {
        Some((s.subrange(at + 1, at + 1 + s[at]), at + 1 + s[at]))
    }
}

/// The long header at the front of a packet. The low four bits of the first byte
/// are under header protection and are not looked at.
pub open spec fn long_header_at(s: Seq<u8>) -> Option<LongHeader> {
    if s.len() < 5 || (s[0] / 16 != 0x0c && s[0] / 16 != 0x0e) {
        None
    } else {
        let kind = (s[0] / 16 - 0x0c) as int;
        let version = 0x100_0000 * s[1] + 0x1_0000 * s[2] + 0x100 * s[3] + s[4];
        match counted_at(s, 5) {
            None => None,
            Some((dcid, p)) => match counted_at(s, p) {
                None => None,
                Some((scid, q)) => {
                    let (token, t) = if kind == 2 {
                        (Some(Seq::<u8>::empty()), q)
                    } else {
                        match varint::varint_decoded(s.skip(q)) {
                            None => (None, q),
                            Some((n, k)) => if n < 0 || q + k + n > s.len() {
                                (None, q)
                            } else {
                                (Some(s.subrange(q + k, q + k + n)), q + k + n)
                            },
                        }
                    };
                    match token {
                        None => None,
                        Some(token) => match varint::varint_decoded(s.skip(t)) {
                            None => None,
                            Some((length, k)) => Some(
                                LongHeader {
                                    kind,
                                    version,
                                    dcid,
                                    scid,
                                    token,
                                    length,
                                    pn_at: t + k,
                                },
                            ),
                        },
                    }
                },
            },
        }
    }
}

/// The layout of a long header with something behind it.
proof fn lemma_layout(
    first: u8,
    dcid: Seq<u8>,
    scid: Seq<u8>,
    mid: Seq<u8>,
    length: int,
    rest: Seq<u8>,
)
    requires
        first / 16 == 0x0c || first / 16 == 0x0e,
        first / 16 == 0x0c ==> mid == seq![0u8],
        first / 16 == 0x0e ==> mid.len() == 0,
        dcid.len() <= 20,
        scid.len() <= 20,
        0 <= length <= varint::MAX_VARINT,
    ensures
        ({
            let h = seq![first, 0u8, 0u8, 0u8, 1u8] + packet::cid_field(dcid) + packet::cid_field(
                scid,
            ) + mid + varint::varint_bytes(length);
            long_header_at(h + rest) == Some(
                LongHeader {
                    kind: (first / 16 - 0x0c) as int,
                    version: 1,
                    dcid,
                    scid,
                    token: Seq::empty(),
                    length,
                    pn_at: h.len() as int,
                },
            )
        }),
{
    let start = seq![first, 0u8, 0u8, 0u8, 1u8];
    let b = varint::varint_bytes(length);
    let h = start + packet::cid_field(dcid) + packet::cid_field(scid) + mid + b;
    let s = h + rest;
    let p = 6 + dcid.len() as int;
    let q = p + 1 + scid.len();
    assert(s[5] == dcid.len());
    assert(s.subrange(6, p) =~= dcid);
    assert(s[p] == scid.len());
    assert(s.subrange(p + 1, q) =~= scid);
    varint::lemma_varint_len(length);
    let t = q + mid.len();
    assert(s.skip(t) =~= b + rest);
    varint::law_varint_roundtrip(length, rest);
    if mid.len() == 1 {
        assert(s.skip(q) =~= seq![0u8] + (b + rest));
        assert(varint::varint_bytes(0) =~= seq![0u8]) by {
            reveal_with_fuel(bytes::be_bytes, 2);
        }
        varint::law_varint_roundtrip(0, b + rest);
        assert(s.subrange(q + 1, q + 1) =~= Seq::<u8>::empty());
    }
}

/// Protection leaves everything in front of the packet number as it is, but for
/// the low four bits of the first byte.
proof fn lemma_front<A: Aead, HP: HeaderProtection>(
    k: KeyModel<A, HP>,
    header: Seq<u8>,
    pn: u64,
    pn_len: int,
    payload: Seq<u8>,
)
    requires
        1 <= pn_len <= 4,
        header.len() > pn_len,
        laws::tag_is_appended(k.aead),
        protect::protected(k, header, pn, pn_len, true, payload) is Ok,
    ensures
        ({
            let p = protect::protected(k, header, pn, pn_len, true, payload)->Ok_0;
            let at = header.len() - pn_len;
            &&& p.len() == header.len() + payload.len() + 16
            &&& p[0] / 16 == header[0] / 16
            &&& p.subrange(1, at) == header.subrange(1, at)
        }),
{
    reveal(protect::protected);
    let p = protect::protected(k, header, pn, pn_len, true, payload)->Ok_0;
    let at = header.len() - pn_len;
    let ct = k.aead.sealed(crypto::nonce_for(k.iv, pn), header, payload, payload.len() + TAG_LEN as nat)->Ok_0;
    let clear = header + ct;
    let mask = k.header_protection.mask_of(clear.subrange(at + 4, at + 20));
    let a = header[0];
    let b = mask[0];
    assert((a ^ (b & 0x0fu8)) / 16 == a / 16) by (bit_vector);
    assert(p.subrange(1, at) =~= header.subrange(1, at));
}

/// Law: the header of an Initial packet is read off the packet as it is sent: long
/// form of type Initial, version 1, the connection IDs, no token; and its length
/// reaches to the end of the packet, so that the next one follows there.
pub proof fn law_initial_header_is_read<C: CryptoProvider>(
    m: ConnModel<C>,
    frames: Seq<u8>,
    pad_to_min: bool,
    cap: int,
    next: Seq<u8>,
)
    requires
        m.keys.initial matches Some(k) && laws::tag_is_appended(k.aead),
        m.remote_cid.len() <= 20,
        m.local_cid.len() <= 20,
        transmit::initial_packet(m, frames, pad_to_min, cap) is Some,
    ensures
        ({
            let p = transmit::initial_packet(m, frames, pad_to_min, cap)->0;
            &&& long_header_at(p + next) matches Some(h)
            &&& h.kind == 0 && h.version == 1 && h.token.len() == 0
            &&& h.dcid == m.remote_cid
            &&& h.scid == m.local_cid
            &&& h.pn_at + h.length == p.len()
        }),
{
    reveal(packet::initial_header);
    reveal(packet::long_header_start);
    let k = m.keys.initial->0;
    let pn_len = m.pn_len(Level::Initial) as int;
    let pn = m.pn(Level::Initial);
    let pad = transmit::initial_padding(
        m.remote_cid.len() as int,
        m.local_cid.len() as int,
        pn_len,
        frames.len() as int,
        pad_to_min,
    );
    let payload = frames + bytes::zeros(pad as nat);
    let header = transmit::next_initial_header(m, payload.len() as int);
    let length = pn_len + payload.len() + TAG_LEN;
    let plain = packet::initial_header(m.remote_cid, m.local_cid, Seq::empty(), pn_len, length);
    bytes::lemma_be_bytes_len(pn as nat, pn_len as nat);
    assert(header == plain + m.pn_bytes(Level::Initial));
    lemma_front(k, header, pn, pn_len, payload);
    let p = transmit::initial_packet(m, frames, pad_to_min, cap)->0;
    assert(header[0] == (0xc0 + pn_len - 1) as u8);
    assert(varint::varint_bytes(0) =~= seq![0u8]) by {
        reveal_with_fuel(bytes::be_bytes, 2);
    }
    assert(plain.skip(1) =~= seq![0u8, 0u8, 0u8, 1u8] + packet::cid_field(m.remote_cid)
        + packet::cid_field(m.local_cid) + seq![0u8] + varint::varint_bytes(length));
    assert(header.take(plain.len() as int) =~= plain);
    lemma_same_front(p, header, plain, next, m.remote_cid, m.local_cid, seq![0u8], length, pn_len);
    lemma_layout(p[0], m.remote_cid, m.local_cid, seq![0u8], length, p.skip(plain.len() as int) + next);
}

/// A packet whose front is a long header with another first byte.
proof fn lemma_same_front(
    p: Seq<u8>,
    header: Seq<u8>,
    plain: Seq<u8>,
    next: Seq<u8>,
    dcid: Seq<u8>,
    scid: Seq<u8>,
    mid: Seq<u8>,
    length: int,
    pn_len: int,
)
    requires
        header.len() == plain.len() + pn_len,
        header.take(plain.len() as int) == plain,
        plain.skip(1) == seq![0u8, 0u8, 0u8, 1u8] + packet::cid_field(dcid) + packet::cid_field(
            scid,
        ) + mid + varint::varint_bytes(length),
        p.len() >= header.len(),
        pn_len >= 0,
        plain.len() > 0,
        p.subrange(1, plain.len() as int) == header.subrange(1, plain.len() as int),
    ensures
        p + next == seq![p[0], 0u8, 0u8, 0u8, 1u8] + packet::cid_field(dcid) + packet::cid_field(
            scid,
        ) + mid + varint::varint_bytes(length) + (p.skip(plain.len() as int) + next),
{
    let n = plain.len() as int;
    let h = seq![p[0], 0u8, 0u8, 0u8, 1u8] + packet::cid_field(dcid) + packet::cid_field(scid) + mid
        + varint::varint_bytes(length);
    let tail = seq![0u8, 0u8, 0u8, 1u8] + packet::cid_field(dcid) + packet::cid_field(scid) + mid
        + varint::varint_bytes(length);
    assert(h =~= seq![p[0]] + tail);
    assert(header.subrange(1, n) =~= header.take(n).skip(1));
    assert(p =~= seq![p[0]] + p.subrange(1, n) + p.skip(n));
    assert(p + next =~= h + (p.skip(n) + next));
}

/// Law: the header of a Handshake packet is read off the packet as it is sent:
/// long form of type Handshake, version 1, the connection IDs; and its length
/// reaches to the end of the packet, so that the next one follows there.
pub proof fn law_handshake_header_is_read<C: CryptoProvider>(
    m: ConnModel<C>,
    frames: Seq<u8>,
    cap: int,
    next: Seq<u8>,
)
    requires
        m.keys.handshake matches Some(k) && laws::tag_is_appended(k.aead),
        m.remote_cid.len() <= 20,
        m.local_cid.len() <= 20,
        m.pn_len(Level::Handshake) + frames.len() + TAG_LEN <= varint::MAX_VARINT,
        protect::sealed_packet(
            m.keys.handshake,
            transmit::next_handshake_header(m, frames.len() as int),
            m.pn(Level::Handshake),
            m.pn_len(Level::Handshake) as int,
            true,
            frames,
            cap,
        ) is Some,
    ensures
        ({
            let p = protect::sealed_packet(
                m.keys.handshake,
                transmit::next_handshake_header(m, frames.len() as int),
                m.pn(Level::Handshake),
                m.pn_len(Level::Handshake) as int,
                true,
                frames,
                cap,
            )->0;
            &&& long_header_at(p + next) matches Some(h)
            &&& h.kind == 2 && h.version == 1
            &&& h.dcid == m.remote_cid
            &&& h.scid == m.local_cid
            &&& h.pn_at + h.length == p.len()
        }),
{
    reveal(packet::handshake_header);
    reveal(packet::long_header_start);
    let k = m.keys.handshake->0;
    let pn_len = m.pn_len(Level::Handshake) as int;
    let pn = m.pn(Level::Handshake);
    let header = transmit::next_handshake_header(m, frames.len() as int);
    let length = pn_len + frames.len() + TAG_LEN;
    let plain = packet::handshake_header(m.remote_cid, m.local_cid, pn_len, length);
    let none = Seq::<u8>::empty();
    bytes::lemma_be_bytes_len(pn as nat, pn_len as nat);
    assert(header == plain + m.pn_bytes(Level::Handshake));
    lemma_front(k, header, pn, pn_len, frames);
    let p = protect::protected(k, header, pn, pn_len, true, frames)->Ok_0;
    assert(header[0] == (0xe0 + pn_len - 1) as u8);
    assert(plain.skip(1) =~= seq![0u8, 0u8, 0u8, 1u8] + packet::cid_field(m.remote_cid)
        + packet::cid_field(m.local_cid) + none + varint::varint_bytes(length));
    assert(header.take(plain.len() as int) =~= plain);
    lemma_same_front(p, header, plain, next, m.remote_cid, m.local_cid, none, length, pn_len);
    lemma_layout(p[0], m.remote_cid, m.local_cid, none, length, p.skip(plain.len() as int) + next);
}

/// Law: the header of a 1-RTT packet: short form with the fixed bit, the key phase
/// and the length of the packet number in the first byte, then the peer's
/// connection ID and the low bytes of the packet number.
pub proof fn law_short_header<C: CryptoProvider>(m: ConnModel<C>)
    ensures
        ({
            let h = transmit::next_short_header(m);
            let n = m.pn_len(Level::Application) as int;
            &&& h.len() == 1 + m.remote_cid.len() + n
            &&& h[0] / 64 == 1
            &&& h[0] / 8 % 8 == 0
            &&& h[0] / 4 % 2 == m.keys.phase % 2
            &&& h[0] % 4 == n - 1
            &&& h.subrange(1, 1 + m.remote_cid.len() as int) == m.remote_cid
            &&& h.skip(1 + m.remote_cid.len() as int) == bytes::be_bytes(
                m.pn(Level::Application) as nat,
                n as nat,
            )
        }),
{
    let h = transmit::next_short_header(m);
    let n = m.pn_len(Level::Application) as int;
    bytes::lemma_be_bytes_len(m.pn(Level::Application) as nat, n as nat);
    assert(h.subrange(1, 1 + m.remote_cid.len() as int) =~= m.remote_cid);
    assert(h.skip(1 + m.remote_cid.len() as int) =~= bytes::be_bytes(
        m.pn(Level::Application) as nat,
        n as nat,
    ));
    assert(h[0] == (0x40 + 4 * (m.keys.phase % 2) + n - 1) as u8);
}

/// Law: the datagram that closes an established connection tells the peer the
/// code and the reason, and nothing else.
pub proof fn law_closing_packet_tells<C: CryptoProvider, B: Aead, HQ: HeaderProtection>(
    m: ConnModel<C>,
    code: u64,
    reason: Seq<u8>,
    cap: int,
    now: Instant,
    recv: KeyModel<B, HQ>,
    expected: int,
)
    requires
        m.keys.application matches Some(k) && peer::matching(k, recv),
        peer::recoverable(
            m.pn(Level::Application) as int,
            m.pn_len(Level::Application),
            expected,
        ),
        reason.len() <= u64::MAX,
        poll::close_step(m, code, reason, cap, now).1 is Some,
    ensures
        telling::tells(
            peer::opened_packet(
                recv,
                poll::close_step(m, code, reason, cap, now).1->0,
                1 + m.remote_cid.len() as int,
                false,
                expected,
            ),
            m.pn(Level::Application) as int,
            seq![Told::Close(code as int, 0, reason)],
        ),
        poll::close_step(m, code, reason, cap, now).0.state == ConnectionState::Closed,
{
    reveal(poll::close_step);
    let f = frame::close_parts(false, code, 0, reason).encoding()->0;
    let pn_len = m.pn_len(Level::Application) as int;
    let pad = transmit::sample_padding(f.len() as int, pn_len) as nat;
    let zeros = bytes::zeros(pad);
    reading::law_close_tells(code, 0, reason, zeros);
    telling::lemma_padding(pad);
    assert(f[0] == 0x1c);
    telling::lemma_one(f, Told::Close(code as int, 0, reason), zeros);
    assert(seq![Told::Close(code as int, 0, reason)] + Seq::<Told>::empty() =~= seq![
        Told::Close(code as int, 0, reason),
    ]);
    let header = transmit::next_short_header(m);
    let pn = m.pn(Level::Application);
    bytes::lemma_be_bytes_len(pn as nat, pn_len as nat);
    assert(header.skip(header.len() - pn_len) =~= bytes::be_bytes(pn as nat, pn_len as nat));
    peer::law_packet_roundtrip(
        m.keys.application->0,
        recv,
        header,
        pn,
        pn_len,
        false,
        f + zeros,
        expected,
    );
}

} // verus!
