//! What the peer reads out of the packets that a connection sends.

use vstd::prelude::*;

use crate::bytes;
use crate::connection::io::EntryModel;
use crate::connection::{frames, protect, transmit, ConnModel};
use crate::crypto::{self, Aead, CryptoProvider, HeaderProtection, KeyModel, Level, TAG_LEN};
use crate::error::Error;
use crate::frame;
use crate::packet;
use crate::varint;

verus! {

/// The packet number whose low `n` bytes are `truncated`, next to the number
/// that is expected.
pub open spec fn recovered_pn(truncated: int, n: nat, expected: int) -> int {
    let window = bytes::pow256(n) as int;
    let half = window / 2;
    let candidate = expected - expected % window + truncated;
    if candidate <= expected - half && candidate < 0x4000_0000_0000_0000 - window {
        candidate + window
    } else if candidate > expected + half && candidate >= window {
        candidate - window
    } else {
        candidate
    }
}

/// Whether `n` bytes of a packet number are enough for a peer that expects
/// `expected`.
pub open spec fn recoverable(pn: int, n: nat, expected: int) -> bool {
    let half = bytes::pow256(n) as int / 2;
    0 <= pn < 0x4000_0000_0000_0000 && 0 <= expected && expected - half < pn <= expected + half
}

/// The low bytes of a number spell its remainder.
proof fn lemma_low_bytes(v: nat, n: nat)
    ensures
        bytes::be_value(bytes::be_bytes(v, n)) == v % bytes::pow256(n),
        bytes::pow256(n) > 0,
    decreases n,
{
    if n > 0 {
        let m = (n - 1) as nat;
        lemma_low_bytes(v / 256, m);
        bytes::lemma_be_bytes_len(v / 256, m);
        let s = bytes::be_bytes(v, n);
        assert(s.drop_last() =~= bytes::be_bytes(v / 256, m));
        vstd::arithmetic::div_mod::lemma_mod_breakdown(v as int, 256, bytes::pow256(m) as int);
    }
}

/// A truncated packet number is recovered by a peer that is close enough.
pub proof fn law_pn_roundtrip(pn: int, n: nat, expected: int)
    requires
        1 <= n <= 4,
        recoverable(pn, n, expected),
    ensures
        recovered_pn(
            bytes::be_value(bytes::be_bytes(pn as nat, n)) as int,
            n,
            expected,
        ) == pn,
{
    lemma_low_bytes(pn as nat, n);
    reveal_with_fuel(bytes::pow256, 5);
    lemma_nearest(pn, bytes::pow256(n) as int, expected);
}

/// Of the numbers with the same remainder, the one in the window around
/// `expected` is the candidate, or one window off.
proof fn lemma_nearest(pn: int, w: int, expected: int)
    requires
        w == 0x100 || w == 0x1_0000 || w == 0x100_0000 || w == 0x1_0000_0000,
        0 <= pn,
        0 <= expected,
        expected - w / 2 < pn <= expected + w / 2,
    ensures
        ({
            let c = expected - expected % w + pn % w;
            &&& c <= expected - w / 2 ==> c + w == pn
            &&& c > expected + w / 2 ==> c - w == pn
            &&& expected - w / 2 < c <= expected + w / 2 ==> c == pn
        }),
{
    if w == 0x100 {
        assert(pn == 0x100 * (pn / 0x100) + pn % 0x100);
        assert(expected == 0x100 * (expected / 0x100) + expected % 0x100);
    } else if w == 0x1_0000 {
        assert(pn == 0x1_0000 * (pn / 0x1_0000) + pn % 0x1_0000);
        assert(expected == 0x1_0000 * (expected / 0x1_0000) + expected % 0x1_0000);
    } else if w == 0x100_0000 {
        assert(pn == 0x100_0000 * (pn / 0x100_0000) + pn % 0x100_0000);
        assert(expected == 0x100_0000 * (expected / 0x100_0000) + expected % 0x100_0000);
    } else {
        assert(pn == 0x1_0000_0000 * (pn / 0x1_0000_0000) + pn % 0x1_0000_0000);
        assert(expected == 0x1_0000_0000 * (expected / 0x1_0000_0000) + expected % 0x1_0000_0000);
    }
}

/// The length that is chosen for a packet number is enough for every peer that
/// has received at least what the sender goes by, and nothing newer than the
/// packet; numbers may run ahead by less than two to the power of 31.
pub proof fn law_pn_length_suffices(pn: int, largest: int, expected: int)
    requires
        0 <= largest < expected <= pn < 0x4000_0000_0000_0000,
        pn - largest < 0x8000_0000,
    ensures
        recoverable(pn, packet::pn_size(pn, largest), expected),
{
    reveal_with_fuel(bytes::pow256, 5);
}

/// Whether the receiving keys belong to the sending keys: same masks, same IV,
/// and what the one cipher seals the other opens.
pub open spec fn matching<A: Aead, HP: HeaderProtection, B: Aead, HQ: HeaderProtection>(
    send: KeyModel<A, HP>,
    recv: KeyModel<B, HQ>,
) -> bool {
    &&& send.iv == recv.iv
    &&& forall|sample: Seq<u8>| #[trigger]
        recv.header_protection.mask_of(sample) == send.header_protection.mask_of(sample)
    &&& forall|nonce: Seq<u8>, aad: Seq<u8>, plaintext: Seq<u8>, room: nat|
        (#[trigger] send.aead.sealed(nonce, aad, plaintext, room)) matches Ok(ct)
            ==> recv.aead.opened(nonce, aad, ct) == Ok::<Seq<u8>, Error>(plaintext)
}

/// What a peer reads out of a packet whose number stands at `pn_offset`: the
/// packet number, the header and the payload.
pub open spec fn opened_packet<B: Aead, HQ: HeaderProtection>(
    keys: KeyModel<B, HQ>,
    pkt: Seq<u8>,
    pn_offset: int,
    is_long: bool,
    expected: int,
) -> Option<(int, Seq<u8>, Seq<u8>)> {
    if pkt.len() < pn_offset + 20 {
        None
    } else {
        let mask = keys.header_protection.mask_of(pkt.subrange(pn_offset + 4, pn_offset + 20));
        let first = pkt[0] ^ (mask[0] & if is_long {
            0x0fu8
        } else {
            0x1fu8
        });
        let pn_len = first % 4 + 1;
        let clear = protect::masked(pkt, pn_offset, pn_len, is_long, mask);
        let header = clear.take(pn_offset + pn_len);
        let pn = recovered_pn(
            bytes::be_value(header.skip(pn_offset)) as int,
            pn_len as nat,
            expected,
        );
        match keys.aead.opened(
            crypto::nonce_for(keys.iv, pn as u64),
            header,
            clear.skip(pn_offset + pn_len),
        ) {
            Ok(payload) => Some((pn, header, payload)),
            Err(_) => None,
        }
    }
}

/// What a read gives back of a write: the peer takes out of a protected packet
/// the number, the header and the payload that went into it.
pub proof fn law_packet_roundtrip<
    A: Aead,
    HP: HeaderProtection,
    B: Aead,
    HQ: HeaderProtection,
>(
    send: KeyModel<A, HP>,
    recv: KeyModel<B, HQ>,
    header: Seq<u8>,
    pn: u64,
    pn_len: int,
    is_long: bool,
    payload: Seq<u8>,
    expected: int,
)
    requires
        matching(send, recv),
        1 <= pn_len <= 4,
        header.len() > pn_len,
        header[0] % 4 == pn_len - 1,
        header.skip(header.len() - pn_len) == bytes::be_bytes(pn as nat, pn_len as nat),
        recoverable(pn as int, pn_len as nat, expected),
        protect::protected(send, header, pn, pn_len, is_long, payload) is Ok,
    ensures
        opened_packet(
            recv,
            protect::protected(send, header, pn, pn_len, is_long, payload)->Ok_0,
            header.len() - pn_len,
            is_long,
            expected,
        ) == Some((pn as int, header, payload)),
{
    reveal(protect::protected);
    let at = header.len() - pn_len;
    let nonce = crypto::nonce_for(send.iv, pn);
    let ct = send.aead.sealed(nonce, header, payload, payload.len() + TAG_LEN as nat)->Ok_0;
    let clear = header + ct;
    let sample = clear.subrange(at + 4, at + 20);
    let mask = send.header_protection.mask_of(sample);
    let pkt = protect::masked(clear, at, pn_len, is_long, mask);
    assert(pkt.subrange(at + 4, at + 20) =~= sample);
    crate::connection::laws::law_mask_is_involution(clear, at, pn_len, is_long, mask);
    let again = protect::masked(pkt, at, pn_len, is_long, mask);
    assert(again == clear);
    let low = mask[0] & if is_long {
        0x0fu8
    } else {
        0x1fu8
    };
    let first = pkt[0] ^ low;
    assert(first == again[0]);
    assert(clear[0] == header[0]);
    assert(clear.take(header.len() as int) =~= header);
    assert(clear.skip(header.len() as int) =~= ct);
    law_pn_roundtrip(pn as int, pn_len as nat, expected);
    assert(first % 4 + 1 == pn_len);
}

/// A 1-RTT packet is read back by the peer: its number and its frames, followed
/// by nothing but padding.
pub proof fn law_short_packet_roundtrip<C: CryptoProvider, B: Aead, HQ: HeaderProtection>(
    m: ConnModel<C>,
    recv: KeyModel<B, HQ>,
    frames: Seq<u8>,
    cap: int,
    expected: int,
)
    requires
        m.keys.application matches Some(k) && matching(k, recv),
        recoverable(
            m.pn(Level::Application) as int,
            m.pn_len(Level::Application),
            expected,
        ),
        transmit::short_packet(m, frames, cap) is Some,
    ensures
        ({
            let pad = transmit::sample_padding(
                frames.len() as int,
                m.pn_len(Level::Application) as int,
            );
            opened_packet(
                recv,
                transmit::short_packet(m, frames, cap)->0,
                1 + m.remote_cid.len() as int,
                false,
                expected,
            ) == Some(
                (
                    m.pn(Level::Application) as int,
                    transmit::next_short_header(m),
                    frames + bytes::zeros(pad as nat),
                ),
            )
        }),
{
    let n = m.pn_len(Level::Application);
    let pn = m.pn(Level::Application);
    let header = transmit::next_short_header(m);
    bytes::lemma_be_bytes_len(pn as nat, n);
    assert(header.skip(header.len() - n) =~= bytes::be_bytes(pn as nat, n));
    law_packet_roundtrip(
        m.keys.application->0,
        recv,
        header,
        pn,
        n as int,
        false,
        frames + bytes::zeros(
            transmit::sample_padding(frames.len() as int, n as int) as nat,
        ),
        expected,
    );
}

/// An Initial packet is read back by the peer: its number and its frames,
/// followed by nothing but padding.
pub proof fn law_initial_packet_roundtrip<C: CryptoProvider, B: Aead, HQ: HeaderProtection>(
    m: ConnModel<C>,
    recv: KeyModel<B, HQ>,
    frames: Seq<u8>,
    pad_to_min: bool,
    cap: int,
    expected: int,
)
    requires
        m.keys.initial matches Some(k) && matching(k, recv),
        recoverable(m.pn(Level::Initial) as int, m.pn_len(Level::Initial), expected),
        transmit::initial_packet(m, frames, pad_to_min, cap) is Some,
    ensures
        ({
            let pad = transmit::initial_padding(
                m.remote_cid.len() as int,
                m.local_cid.len() as int,
                m.pn_len(Level::Initial) as int,
                frames.len() as int,
                pad_to_min,
            );
            let payload = frames + bytes::zeros(pad as nat);
            let header = transmit::next_initial_header(m, payload.len() as int);
            opened_packet(
                recv,
                transmit::initial_packet(m, frames, pad_to_min, cap)->0,
                header.len() - m.pn_len(Level::Initial),
                true,
                expected,
            ) == Some((m.pn(Level::Initial) as int, header, payload))
        }),
{
    reveal(packet::initial_header);
    reveal(packet::long_header_start);
    let n = m.pn_len(Level::Initial);
    let pn = m.pn(Level::Initial);
    let pad = transmit::initial_padding(
        m.remote_cid.len() as int,
        m.local_cid.len() as int,
        n as int,
        frames.len() as int,
        pad_to_min,
    );
    let payload = frames + bytes::zeros(pad as nat);
    let header = transmit::next_initial_header(m, payload.len() as int);
    bytes::lemma_be_bytes_len(pn as nat, n);
    assert(header.skip(header.len() - n) =~= bytes::be_bytes(pn as nat, n));
    assert(header[0] == (0xc0 + n - 1) as u8);
    law_packet_roundtrip(
        m.keys.initial->0,
        recv,
        header,
        pn,
        n as int,
        true,
        payload,
        expected,
    );
}

/// A Handshake packet is read back by the peer: its number and its frames.
pub proof fn law_handshake_packet_roundtrip<C: CryptoProvider, B: Aead, HQ: HeaderProtection>(
    m: ConnModel<C>,
    recv: KeyModel<B, HQ>,
    frames: Seq<u8>,
    cap: int,
    expected: int,
)
    requires
        m.keys.handshake matches Some(k) && matching(k, recv),
        recoverable(m.pn(Level::Handshake) as int, m.pn_len(Level::Handshake), expected),
        protect::sealed_packet(
            m.keys.handshake,
            transmit::next_handshake_header(m, frames.len() as int),
            m.pn(Level::Handshake),
            m.pn_len(Level::Handshake) as int,
            true,
            frames,
            cap,
        ) is Some,
    ensures
        ({
            let header = transmit::next_handshake_header(m, frames.len() as int);
            opened_packet(
                recv,
                protect::sealed_packet(
                    m.keys.handshake,
                    header,
                    m.pn(Level::Handshake),
                    m.pn_len(Level::Handshake) as int,
                    true,
                    frames,
                    cap,
                )->0,
                header.len() - m.pn_len(Level::Handshake),
                true,
                expected,
            ) == Some((m.pn(Level::Handshake) as int, header, frames))
        }),
{
    reveal(packet::handshake_header);
    reveal(packet::long_header_start);
    let n = m.pn_len(Level::Handshake);
    let pn = m.pn(Level::Handshake);
    let header = transmit::next_handshake_header(m, frames.len() as int);
    bytes::lemma_be_bytes_len(pn as nat, n);
    assert(header.skip(header.len() - n) =~= bytes::be_bytes(pn as nat, n));
    assert(header[0] == (0xe0 + n - 1) as u8);
    law_packet_roundtrip(
        m.keys.handshake->0,
        recv,
        header,
        pn,
        n as int,
        true,
        frames,
        expected,
    );
}

/// The CRYPTO frame at the front of `s`: its offset and its data.
pub open spec fn crypto_frame_at(s: Seq<u8>) -> Option<(int, Seq<u8>)> {
    if s.len() == 0 || s[0] != 0x06 {
        None
    } else {
        match varint::varint_decoded(s.skip(1)) {
            None => None,
            Some((offset, a)) => match varint::varint_decoded(s.skip(1 + a as int)) {
                None => None,
                Some((len, b)) => if 1 + a + b + len > s.len() {
                    None
                } else {
                    Some((offset, s.subrange((1 + a + b) as int, 1 + a + b + len)))
                },
            },
        }
    }
}

/// A CRYPTO frame is read back.
pub proof fn law_crypto_frame_roundtrip(offset: u64, data: Seq<u8>, rest: Seq<u8>)
    requires
        data.len() <= u64::MAX,
        frame::crypto_parts(offset, data).encoding() is Some,
    ensures
        crypto_frame_at(frame::crypto_parts(offset, data).encoding()->0 + rest) == Some(
            (offset as int, data),
        ),
{
    let parts = frame::crypto_parts(offset, data);
    let s = parts.encoding()->0 + rest;
    let off = varint::varint_bytes(offset as int);
    let len = varint::varint_bytes(data.len() as int);
    assert(parts.head[0] <= varint::MAX_VARINT && parts.head[1] <= varint::MAX_VARINT);
    reveal_with_fuel(frame::varints, 3);
    assert(parts.head.drop_last() =~= seq![offset]);
    assert(seq![offset].drop_last() =~= Seq::<u64>::empty());
    assert(frame::varints(parts.head) =~= off + len);
    assert(parts.encoding()->0 =~= seq![0x06u8] + (off + (len + data)));
    lemma_regrouped(0x06, off, Seq::empty(), len, data, rest);
    lemma_number_at(s, 1, offset as int, len + (data + rest));
    let p = 1 + varint::varint_size(offset as int) as int;
    lemma_number_at(s, p, data.len() as int, data + rest);
    let at = p + varint::varint_size(data.len() as int);
    assert(s.skip(at).len() == data.len() + rest.len());
    assert(s.subrange(at, at + data.len()) =~= s.skip(at).take(data.len() as int));
    assert((data + rest).take(data.len() as int) =~= data);
}

/// The STREAM frame at the front of `s`, and how many bytes it takes. Without a
/// length it reaches to the end.
pub open spec fn stream_frame_at(s: Seq<u8>) -> Option<(EntryModel, int)> {
    if s.len() == 0 || s[0] / 8 != 1 {
        None
    } else {
        match varint::varint_decoded(s.skip(1)) {
            None => None,
            Some((id, a)) => {
                let p = 1 + a as int;
                match if s[0] / 4 % 2 == 1 {
                    varint::varint_decoded(s.skip(p))
                } else {
                    Some((0int, 0nat))
                } {
                    None => None,
                    Some((offset, b)) => {
                        let q = p + b;
                        match if s[0] / 2 % 2 == 1 {
                            varint::varint_decoded(s.skip(q))
                        } else {
                            Some((s.len() - q, 0nat))
                        } {
                            None => None,
                            Some((len, c)) => if q + c + len > s.len() {
                                None
                            } else {
                                Some(
                                    (
                                        EntryModel {
                                            stream_id: id as u64,
                                            offset: offset as u64,
                                            data: s.subrange(q + c, q + c + len),
                                            fin: s[0] % 2 == 1,
                                        },
                                        q + c + len,
                                    ),
                                )
                            },
                        }
                    },
                }
            },
        }
    }
}

/// The STREAM frames that `s` begins with.
pub open spec fn streams_read(s: Seq<u8>) -> Seq<EntryModel>
    decreases s.len(),
{
    match stream_frame_at(s) {
        None => Seq::empty(),
        Some((e, n)) => if 0 < n <= s.len() {
            seq![e] + streams_read(s.skip(n))
        } else {
            Seq::empty()
        },
    }
}

/// A number, and what follows it.
proof fn lemma_number_at(s: Seq<u8>, at: int, v: int, rest: Seq<u8>)
    requires
        0 <= v <= varint::MAX_VARINT,
        0 <= at <= s.len(),
        s.skip(at) == varint::varint_bytes(v) + rest,
    ensures
        varint::varint_decoded(s.skip(at)) == Some((v, varint::varint_size(v))),
        at + varint::varint_size(v) <= s.len(),
        s.skip(at + varint::varint_size(v)) == rest,
{
    varint::lemma_varint_len(v);
    varint::law_varint_roundtrip(v, rest);
    assert(s.skip(at).len() == s.len() - at);
    assert(s.skip(at + varint::varint_size(v)) =~= s.skip(at).skip(varint::varint_size(v) as int));
    assert(s.skip(at).skip(varint::varint_size(v) as int) =~= rest);
}

/// The numbers of a STREAM frame.
proof fn lemma_stream_head(e: EntryModel)
    requires
        e.data.len() <= u64::MAX,
        frame::stream_parts(e.stream_id, e.offset, e.data, e.fin).encoding() is Some,
    ensures
        e.stream_id <= varint::MAX_VARINT,
        e.offset <= varint::MAX_VARINT,
        e.data.len() <= varint::MAX_VARINT,
        ({
            let parts = frame::stream_parts(e.stream_id, e.offset, e.data, e.fin);
            let id = varint::varint_bytes(e.stream_id as int);
            let off = varint::varint_bytes(e.offset as int);
            let len = varint::varint_bytes(e.data.len() as int);
            parts.encoding()->0 == seq![parts.kind] + (id + (if e.offset > 0 {
                off + (len + e.data)
            } else {
                len + e.data
            }))
        }),
{
    let parts = frame::stream_parts(e.stream_id, e.offset, e.data, e.fin);
    let id = varint::varint_bytes(e.stream_id as int);
    let off = varint::varint_bytes(e.offset as int);
    let len = varint::varint_bytes(e.data.len() as int);
    assert(parts.head[0] <= varint::MAX_VARINT);
    assert(parts.head[parts.head.len() - 1] <= varint::MAX_VARINT);
    reveal_with_fuel(frame::varints, 4);
    assert(frame::varints(parts.tail) =~= Seq::<u8>::empty());
    assert(seq![e.stream_id].drop_last() =~= Seq::<u64>::empty());
    if e.offset > 0 {
        assert(parts.head[1] <= varint::MAX_VARINT);
        assert(parts.head.drop_last() =~= seq![e.stream_id, e.offset]);
        assert(parts.head.drop_last().drop_last() =~= seq![e.stream_id]);
        assert(frame::varints(parts.head) =~= id + off + len);
        assert(parts.encoding()->0 =~= seq![parts.kind] + (id + (off + (len + e.data))));
    } else {
        assert(parts.head.drop_last() =~= seq![e.stream_id]);
        assert(frame::varints(parts.head) =~= id + len);
        assert(parts.encoding()->0 =~= seq![parts.kind] + (id + (len + e.data)));
    }
}

/// A STREAM frame is read back.
pub proof fn law_stream_frame_roundtrip(e: EntryModel, rest: Seq<u8>)
    requires
        e.data.len() <= u64::MAX,
        frame::stream_parts(e.stream_id, e.offset, e.data, e.fin).encoding() is Some,
    ensures
        ({
            let b = frame::stream_parts(e.stream_id, e.offset, e.data, e.fin).encoding()->0;
            stream_frame_at(b + rest) == Some((e, b.len() as int))
        }),
{
    lemma_stream_head(e);
    let parts = frame::stream_parts(e.stream_id, e.offset, e.data, e.fin);
    let kind = parts.kind;
    let b = parts.encoding()->0;
    let s = b + rest;
    let id = varint::varint_bytes(e.stream_id as int);
    let off = varint::varint_bytes(e.offset as int);
    let len = varint::varint_bytes(e.data.len() as int);
    let body = e.data + rest;
    let p = 1 + varint::varint_size(e.stream_id as int) as int;
    let q = if e.offset > 0 {
        p + varint::varint_size(e.offset as int)
    } else {
        p
    };
    if e.offset > 0 {
        lemma_regrouped(kind, id, off, len, e.data, rest);
        lemma_number_at(s, 1, e.stream_id as int, off + (len + body));
        lemma_number_at(s, p, e.offset as int, len + body);
    } else {
        lemma_regrouped(kind, id, Seq::empty(), len, e.data, rest);
        lemma_number_at(s, 1, e.stream_id as int, len + body);
    }
    lemma_number_at(s, q, e.data.len() as int, body);
    lemma_stream_layout(s, kind, e, rest, p, q);
}

/// The parts of a STREAM frame with something behind them.
proof fn lemma_regrouped(
    kind: u8,
    id: Seq<u8>,
    off: Seq<u8>,
    len: Seq<u8>,
    data: Seq<u8>,
    rest: Seq<u8>,
)
    ensures
        ({
            let s = seq![kind] + (id + (off + (len + data))) + rest;
            &&& s.len() > 0
            &&& s[0] == kind
            &&& s.skip(1) == id + (off + (len + (data + rest)))
        }),
        ({
            let s = seq![kind] + (id + (len + data)) + rest;
            &&& s.len() > 0
            &&& s[0] == kind
            &&& s.skip(1) == id + (len + (data + rest))
        }),
{
    let s = seq![kind] + (id + (off + (len + data))) + rest;
    assert(s.skip(1) =~= id + (off + (len + (data + rest))));
    let t = seq![kind] + (id + (len + data)) + rest;
    assert(t.skip(1) =~= id + (len + (data + rest)));
}

/// A STREAM frame whose numbers are known.
proof fn lemma_stream_layout(s: Seq<u8>, kind: u8, e: EntryModel, rest: Seq<u8>, p: int, q: int)
    requires
        s.len() > 0,
        s[0] == kind,
        kind == frame::stream_parts(e.stream_id, e.offset, e.data, e.fin).kind,
        0 <= p <= q <= s.len(),
        varint::varint_decoded(s.skip(1)) == Some((e.stream_id as int, (p - 1) as nat)),
        e.offset > 0 ==> varint::varint_decoded(s.skip(p)) == Some(
            (e.offset as int, (q - p) as nat),
        ),
        e.offset == 0 ==> q == p,
        varint::varint_decoded(s.skip(q)) == Some(
            (e.data.len() as int, varint::varint_size(e.data.len() as int)),
        ),
        q + varint::varint_size(e.data.len() as int) <= s.len(),
        s.skip(q + varint::varint_size(e.data.len() as int)) == e.data + rest,
        p >= 1,
    ensures
        stream_frame_at(s) == Some(
            (e, q + varint::varint_size(e.data.len() as int) + e.data.len()),
        ),
        s.len() == q + varint::varint_size(e.data.len() as int) + e.data.len() + rest.len(),
{
    let at = q + varint::varint_size(e.data.len() as int);
    assert(s.skip(at).len() == e.data.len() + rest.len());
    assert(s.subrange(at, at + e.data.len()) =~= s.skip(at).take(e.data.len() as int));
    assert((e.data + rest).take(e.data.len() as int) =~= e.data);
}

/// What a read gives back of a write: out of the STREAM frames that a packet
/// carries the peer reads the queued entries that left the queue, in order, and
/// nothing else.
pub proof fn law_stream_data_roundtrip(queue: Seq<EntryModel>, room: int)
    requires
        forall|i: int| 0 <= i < queue.len() ==> (#[trigger] queue[i]).data.len() <= u64::MAX,
    ensures
        ({
            let (b, n) = frames::stream_frames(queue, room);
            streams_read(b) == queue.take(n as int)
        }),
    decreases queue.len(),
{
    let (b, n) = frames::stream_frames(queue, room);
    if n == 0 {
        assert(b =~= Seq::<u8>::empty());
        assert(queue.take(0) =~= Seq::<EntryModel>::empty());
    } else {
        let e = queue[0];
        let first = frame::stream_parts(e.stream_id, e.offset, e.data, e.fin).encoding()->0;
        let (rest, k) = frames::stream_frames(queue.drop_first(), room - first.len());
        assert(b == first + rest);
        law_stream_frame_roundtrip(e, rest);
        assert(b.skip(first.len() as int) =~= rest);
        assert forall|i: int| 0 <= i < queue.drop_first().len() implies (
        #[trigger] queue.drop_first()[i]).data.len() <= u64::MAX by {
            assert(queue.drop_first()[i] == queue[i + 1]);
        }
        law_stream_data_roundtrip(queue.drop_first(), room - first.len());
        crate::connection::laws::law_stream_frames_are_a_prefix(
            queue.drop_first(),
            room - first.len(),
        );
        assert(first.len() > 0);
        assert(queue.take(n as int) =~= seq![e] + queue.drop_first().take(k as int));
    }
}

} // verus!
