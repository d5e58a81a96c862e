//! QUIC packet headers and packet numbers.

use vstd::prelude::*;

use crate::bytes;
use crate::error::Error;
use crate::varint;

verus! {

/// The smallest datagram that may carry an ack-eliciting Initial packet.
pub const MIN_INITIAL_PACKET_SIZE: usize = 1200;

/// The longest connection ID.
pub const MAX_CID_LEN: usize = 20;

/// How many bytes a packet number takes, so that a peer that knows of
/// `largest_acked` can tell it from its neighbours: the distance must stay below
/// half of what the bytes can count.
pub open spec fn pn_size(pn: int, largest_acked: int) -> nat {
    let distance = pn - largest_acked;
    if distance < 0x80 {
        1
    } else if distance < 0x8000 {
        2
    } else if distance < 0x80_0000 {
        3
    } else {
        4
    }
}

/// The encoding of a packet number: its low bytes, most significant first.
pub open spec fn pn_bytes(pn: int, largest_acked: int) -> Seq<u8> {
    bytes::be_bytes(pn as nat, pn_size(pn, largest_acked))
}

/// A byte for the length of a connection ID, then the ID.
pub open spec fn cid_field(cid: Seq<u8>) -> Seq<u8> {
    seq![cid.len() as u8] + cid
}

/// The fields that all long headers begin with; `kind` holds the form, fixed and
/// type bits.
#[verifier::opaque]
pub open spec fn long_header_start(kind: u8, pn_len: int, dcid: Seq<u8>, scid: Seq<u8>) -> Seq<u8> {
    seq![(kind + pn_len - 1) as u8, 0u8, 0u8, 0u8, 1u8] + cid_field(dcid) + cid_field(scid)
}

/// The header of an Initial packet up to the packet number.
#[verifier::opaque]
pub open spec fn initial_header(
    dcid: Seq<u8>,
    scid: Seq<u8>,
    token: Seq<u8>,
    pn_len: int,
    payload_length: int,
) -> Seq<u8> {
    long_header_start(0xc0, pn_len, dcid, scid) + varint::varint_bytes(token.len() as int) + token
        + varint::varint_bytes(payload_length)
}

/// The header of a Handshake packet up to the packet number.
#[verifier::opaque]
pub open spec fn handshake_header(
    dcid: Seq<u8>,
    scid: Seq<u8>,
    pn_len: int,
    payload_length: int,
) -> Seq<u8> {
    long_header_start(0xe0, pn_len, dcid, scid) + varint::varint_bytes(payload_length)
}

/// The header of a short (1-RTT) packet up to the packet number.
pub open spec fn short_header(dcid: Seq<u8>, first_byte: u8) -> Seq<u8> {
    seq![first_byte] + dcid
}

/// The lengths of the long headers.
pub proof fn lemma_header_lens(
    dcid: Seq<u8>,
    scid: Seq<u8>,
    token: Seq<u8>,
    pn_len: int,
    payload_length: int,
)
    ensures
        initial_header(dcid, scid, token, pn_len, payload_length).len() == 7 + dcid.len()
            + scid.len() + varint::varint_size(token.len() as int) + token.len()
            + varint::varint_size(payload_length),
        handshake_header(dcid, scid, pn_len, payload_length).len() == 7 + dcid.len() + scid.len()
            + varint::varint_size(payload_length),
        1 <= varint::varint_size(payload_length) <= 8,
{
    reveal(initial_header);
    reveal(handshake_header);
    reveal(long_header_start);
    varint::lemma_varint_len(token.len() as int);
    varint::lemma_varint_len(payload_length);
}

/// How many bytes the packet number takes.
pub fn pn_length(pn: u64, largest_acked: u64) -> (n: usize)
    ensures
        n == pn_size(pn as int, largest_acked as int),
        1 <= n <= 4,
{
    let distance = if pn > largest_acked {
        pn - largest_acked
    } else {
        0
    };
    if distance < 0x80 {
        1
    } else if distance < 0x8000 {
        2
    } else if distance < 0x80_0000 {
        3
    } else {
        4
    }
}

/// Writes the packet number at the front of `buf` and returns its length.
pub fn encode_pn(pn: u64, largest_acked: u64, buf: &mut [u8]) -> (r: Result<usize, Error>)
    ensures
        final(buf)@.len() == old(buf)@.len(),
        ({
            let b = pn_bytes(pn as int, largest_acked as int);
            if b.len() <= old(buf)@.len() {
                r == Ok::<usize, Error>(b.len() as usize) && final(buf)@ == b + old(buf)@.skip(
                    b.len() as int,
                )
            } else {
                r == Err::<usize, Error>(Error::BufferTooSmall { needed: b.len() as usize })
                    && final(buf)@ == old(buf)@
            }
        }),
{
    let n = pn_length(pn, largest_acked);
    proof {
        bytes::lemma_be_bytes_len(pn as nat, n as nat);
        bytes::lemma_be8(pn as nat);
    }
    if buf.len() < n {
        return Err(Error::BufferTooSmall { needed: n });
    }
    let ghost base = buf@;
    let all = bytes::be8(pn);
    let mut i: usize = 0;
    while i < n
        invariant
            i <= n <= 4,
            n <= base.len(),
            buf@.len() == base.len(),
            all@.len() == 8,
            forall|j: int| 0 <= j < i ==> buf@[j] == all@[8 - n + j],
            forall|j: int| i <= j < base.len() ==> buf@[j] == base[j],
        decreases n - i,
    {
        buf[i] = all[8 - n + i];
        i = i + 1;
    }
    proof {
        lemma_low_bytes(pn as nat, n as nat);
        assert(buf@ =~= pn_bytes(pn as int, largest_acked as int) + base.skip(n as int));
    }
    Ok(n)
}

/// The low bytes are the last of the eight.
proof fn lemma_low_bytes(v: nat, n: nat)
    requires
        n <= 8,
    ensures
        bytes::be_bytes(v, n) == bytes::be_bytes(v, 8).skip(8 - n),
{
    reveal_with_fuel(bytes::be_bytes, 9);
    bytes::lemma_be_bytes_len(v, n);
    bytes::lemma_be_bytes_len(v, 8);
    lemma_suffix(v, n, 8);
}

proof fn lemma_suffix(v: nat, n: nat, m: nat)
    requires
        n <= m,
    ensures
        bytes::be_bytes(v, n) == bytes::be_bytes(v, m).skip(m - n),
    decreases n,
{
    bytes::lemma_be_bytes_len(v, n);
    bytes::lemma_be_bytes_len(v, m);
    if n > 0 {
        lemma_suffix(v / 256, (n - 1) as nat, (m - 1) as nat);
        bytes::lemma_be_bytes_len(v / 256, (m - 1) as nat);
        assert(bytes::be_bytes(v, n) =~= bytes::be_bytes(v, m).skip(m - n));
    } else {
        assert(bytes::be_bytes(v, n) =~= bytes::be_bytes(v, m).skip(m - n));
    }
}

/// Writes the fields that all long headers begin with and returns the position
/// behind them.
fn put_long_header_start(kind: u8, pn_len: usize, dcid: &[u8], scid: &[u8], out: &mut [u8]) -> (end:
    usize)
    requires
        kind == 0xc0 || kind == 0xe0,
        1 <= pn_len <= 4,
        dcid@.len() <= MAX_CID_LEN,
        scid@.len() <= MAX_CID_LEN,
        7 + dcid@.len() + scid@.len() <= old(out)@.len(),
    ensures
        final(out)@.len() == old(out)@.len(),
        end == 7 + dcid@.len() + scid@.len(),
        final(out)@.take(end as int) == long_header_start(kind, pn_len as int, dcid@, scid@),
        final(out)@.skip(end as int) == old(out)@.skip(end as int),
{
    reveal(long_header_start);
    let ghost base = out@;
    let fixed: [u8; 5] = [kind + (pn_len as u8 - 1), 0, 0, 0, 1];
    let p1 = bytes::put_slice(out, 0, fixed.as_slice());
    let ghost s1 = out@;
    let p2 = bytes::put_byte(out, p1, dcid.len() as u8);
    let ghost s2 = out@;
    let p3 = bytes::put_slice(out, p2, dcid);
    let ghost s3 = out@;
    let p4 = bytes::put_byte(out, p3, scid.len() as u8);
    let ghost s4 = out@;
    let p5 = bytes::put_slice(out, p4, scid);
    proof {
        assert(fixed@ =~= seq![(kind + pn_len - 1) as u8, 0u8, 0u8, 0u8, 1u8]);
        assert(out@.take(p5 as int) =~= long_header_start(kind, pn_len as int, dcid@, scid@));
        bytes::lemma_skip_eq(base, s1, p1 as int, p5 as int);
        bytes::lemma_skip_eq(s1, s2, p2 as int, p5 as int);
        bytes::lemma_skip_eq(s2, s3, p3 as int, p5 as int);
        bytes::lemma_skip_eq(s3, s4, p4 as int, p5 as int);
    }
    p5
}

/// Writes the header of an Initial packet at the front of `out` and returns its
/// length.
pub fn encode_initial_header(
    dcid: &[u8],
    scid: &[u8],
    token: &[u8],
    pn_len: usize,
    payload_length: usize,
    out: &mut [u8],
) -> (r: Result<usize, Error>)
    requires
        1 <= pn_len <= 4,
        dcid@.len() <= MAX_CID_LEN,
        scid@.len() <= MAX_CID_LEN,
        token@.len() <= 0xffff,
    ensures
        final(out)@.len() == old(out)@.len(),
        ({
            let b = initial_header(dcid@, scid@, token@, pn_len as int, payload_length as int);
            if payload_length > varint::MAX_VARINT {
                r == Err::<usize, Error>(Error::InvalidVarint) && final(out)@ == old(out)@
            } else if b.len() <= old(out)@.len() {
                r == Ok::<usize, Error>(b.len() as usize) && final(out)@ == b + old(out)@.skip(
                    b.len() as int,
                )
            } else {
                r == Err::<usize, Error>(Error::BufferTooSmall { needed: b.len() as usize })
                    && final(out)@ == old(out)@
            }
        }),
{
    reveal(initial_header);
    reveal(long_header_start);
    let ghost base = out@;
    proof {
        varint::lemma_varint_len(token@.len() as int);
        varint::lemma_varint_len(payload_length as int);
    }
    if payload_length as u64 > varint::MAX_VARINT {
        return Err(Error::InvalidVarint);
    }
    let needed: usize = 7 + dcid.len() + scid.len() + varint::varint_len(token.len() as u64)
        + token.len() + varint::varint_len(payload_length as u64);
    if out.len() < needed {
        return Err(Error::BufferTooSmall { needed });
    }
    let p1 = put_long_header_start(0xc0, pn_len, dcid, scid, out);
    let ghost s1 = out@;
    let p2 = varint::put_varint(out, p1, token.len() as u64);
    let ghost s2 = out@;
    let p3 = bytes::put_slice(out, p2, token);
    let ghost s3 = out@;
    let p4 = varint::put_varint(out, p3, payload_length as u64);
    proof {
        let b = initial_header(dcid@, scid@, token@, pn_len as int, payload_length as int);
        assert(out@.take(p4 as int) =~= b);
        bytes::lemma_skip_eq(base, s1, p1 as int, p4 as int);
        bytes::lemma_skip_eq(s1, s2, p2 as int, p4 as int);
        bytes::lemma_skip_eq(s2, s3, p3 as int, p4 as int);
        assert(out@ =~= out@.take(p4 as int) + out@.skip(p4 as int));
    }
    Ok(p4)
}

/// Writes the header of a Handshake packet at the front of `out` and returns its
/// length.
pub fn encode_handshake_header(
    dcid: &[u8],
    scid: &[u8],
    pn_len: usize,
    payload_length: usize,
    out: &mut [u8],
) -> (r: Result<usize, Error>)
    requires
        1 <= pn_len <= 4,
        dcid@.len() <= MAX_CID_LEN,
        scid@.len() <= MAX_CID_LEN,
    ensures
        final(out)@.len() == old(out)@.len(),
        ({
            let b = handshake_header(dcid@, scid@, pn_len as int, payload_length as int);
            if payload_length > varint::MAX_VARINT {
                r == Err::<usize, Error>(Error::InvalidVarint) && final(out)@ == old(out)@
            } else if b.len() <= old(out)@.len() {
                r == Ok::<usize, Error>(b.len() as usize) && final(out)@ == b + old(out)@.skip(
                    b.len() as int,
                )
            } else {
                r == Err::<usize, Error>(Error::BufferTooSmall { needed: b.len() as usize })
                    && final(out)@ == old(out)@
            }
        }),
{
    reveal(handshake_header);
    reveal(long_header_start);
    let ghost base = out@;
    proof {
        varint::lemma_varint_len(payload_length as int);
    }
    if payload_length as u64 > varint::MAX_VARINT {
        return Err(Error::InvalidVarint);
    }
    let needed: usize = 7 + dcid.len() + scid.len() + varint::varint_len(payload_length as u64);
    if out.len() < needed {
        return Err(Error::BufferTooSmall { needed });
    }
    let p1 = put_long_header_start(0xe0, pn_len, dcid, scid, out);
    let ghost s1 = out@;
    let p2 = varint::put_varint(out, p1, payload_length as u64);
    proof {
        let b = handshake_header(dcid@, scid@, pn_len as int, payload_length as int);
        assert(out@.take(p2 as int) =~= b);
        bytes::lemma_skip_eq(base, s1, p1 as int, p2 as int);
        assert(out@ =~= out@.take(p2 as int) + out@.skip(p2 as int));
    }
    Ok(p2)
}

/// Writes the header of a short packet at the front of `out` and returns its
/// length.
pub fn encode_short_header(dcid: &[u8], first_byte: u8, out: &mut [u8]) -> (r: Result<usize, Error>)
    requires
        dcid@.len() <= MAX_CID_LEN,
    ensures
        final(out)@.len() == old(out)@.len(),
        ({
            let b = short_header(dcid@, first_byte);
            if b.len() <= old(out)@.len() {
                r == Ok::<usize, Error>(b.len() as usize) && final(out)@ == b + old(out)@.skip(
                    b.len() as int,
                )
            } else {
                r == Err::<usize, Error>(Error::BufferTooSmall { needed: b.len() as usize })
                    && final(out)@ == old(out)@
            }
        }),
{
    let needed: usize = 1 + dcid.len();
    if out.len() < needed {
        return Err(Error::BufferTooSmall { needed });
    }
    let p1 = bytes::put_byte(out, 0, first_byte);
    let ghost s1 = out@;
    let p2 = bytes::put_slice(out, p1, dcid);
    proof {
        assert(out@.take(p2 as int) =~= short_header(dcid@, first_byte));
        bytes::lemma_skip_eq(old(out)@, s1, p1 as int, p2 as int);
        assert(out@ =~= out@.take(p2 as int) + out@.skip(p2 as int));
    }
    Ok(p2)
}

} // verus!
