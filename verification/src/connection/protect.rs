//! Packet protection: sealing a payload and masking its header.

use vstd::prelude::*;

use crate::bytes;
use crate::crypto::{self, Aead, DirectionalKeys, HeaderProtection, KeyModel, TAG_LEN};
use crate::error::Error;
use crate::packet;

verus! {

/// A sealed packet under header protection: the mask covers the low bits of the
/// first byte (four in a long header, five in a short one) and the packet
/// number.
pub open spec fn masked(pkt: Seq<u8>, pn_offset: int, pn_len: int, is_long: bool, mask: Seq<u8>) -> Seq<
    u8,
> {
    Seq::new(
        pkt.len(),
        |i: int|
            if i == 0 {
                pkt[0] ^ (mask[0] & if is_long {
                    0x0fu8
                } else {
                    0x1fu8
                })
            } else if pn_offset <= i < pn_offset + pn_len {
                pkt[i] ^ mask[1 + i - pn_offset]
            } else {
                pkt[i]
            },
    )
}

/// The packet made of `header` (which ends with the packet number) and
/// `payload`: the payload sealed with the header as associated data, then the
/// header masked with a sample taken four bytes behind the start of the packet
/// number.
#[verifier::opaque]
pub open spec fn protected<A: Aead, HP: HeaderProtection>(
    keys: KeyModel<A, HP>,
    header: Seq<u8>,
    pn: u64,
    pn_len: int,
    is_long: bool,
    payload: Seq<u8>,
) -> Result<Seq<u8>, Error> {
    match keys.aead.sealed(
        crypto::nonce_for(keys.iv, pn),
        header,
        payload,
        payload.len() + TAG_LEN as nat,
    ) {
        Ok(ct) => {
            let pkt = header + ct;
            let pn_offset = header.len() - pn_len;
            if pn_offset + 20 > pkt.len() {
                Err(Error::Crypto)
            } else {
                let mask = keys.header_protection.mask_of(
                    pkt.subrange(pn_offset + 4, pn_offset + 20),
                );
                Ok(masked(pkt, pn_offset, pn_len, is_long, mask))
            }
        },
        Err(e) => Err(e),
    }
}

/// Encrypt the payload already at `out[payload_start..]` and apply header protection.
///
/// - The header is at `out[0..pn_offset]`.
/// - The packet number is at `out[pn_offset..payload_start]`.
/// - Plaintext frames (and padding) are at
///   `out[payload_start..payload_start + padded_frame_len]`.
///
/// Returns the total packet length (header, encrypted payload and tag).
pub fn encrypt_and_protect<A: Aead, HP: HeaderProtection>(
    out: &mut [u8],
    pn_offset: usize,
    payload_start: usize,
    padded_frame_len: usize,
    pn: u64,
    pn_len: usize,
    is_long: bool,
    send: &DirectionalKeys<A, HP>,
) -> (r: Result<usize, Error>)
    requires
        1 <= pn_offset,
        1 <= pn_len <= 4,
        payload_start == pn_offset + pn_len,
        payload_start + padded_frame_len <= old(out)@.len(),
        payload_start + padded_frame_len + TAG_LEN <= usize::MAX,
    ensures
        final(out)@.len() == old(out)@.len(),
        ({
            let total = payload_start + padded_frame_len + TAG_LEN;
            if total > old(out)@.len() {
                r == Err::<usize, Error>(Error::BufferTooSmall { needed: total as usize })
                    && final(out)@ == old(out)@
            } else {
                match protected(
                    send@,
                    old(out)@.take(payload_start as int),
                    pn,
                    pn_len as int,
                    is_long,
                    old(out)@.subrange(
                        payload_start as int,
                        payload_start + padded_frame_len,
                    ),
                ) {
                    Ok(pkt) => r == Ok::<usize, Error>(pkt.len() as usize) && pkt.len() <= old(
                        out,
                    )@.len() && final(out)@.take(pkt.len() as int) == pkt,
                    Err(e) => r == Err::<usize, Error>(e),
                }
            }
        }),
{
    let total_pkt_len = payload_start + padded_frame_len + TAG_LEN;
    if total_pkt_len > out.len() {
        return Err(Error::BufferTooSmall { needed: total_pkt_len });
    }
    reveal(protected);
    let ghost base = out@;
    let ghost header = base.take(payload_start as int);
    let ghost payload = base.subrange(payload_start as int, payload_start + padded_frame_len);
    let nonce = send.nonce(pn);
    let sealed = {
        let (used, _rest) = out.split_at_mut(total_pkt_len);
        let (aad, payload_area) = used.split_at_mut(payload_start);
        proof {
            assert(aad@ =~= header);
            assert(payload_area@.take(padded_frame_len as int) =~= payload);
        }
        send.aead.seal_in_place(&nonce, aad, payload_area, padded_frame_len)
    };
    let ct_len = match sealed {
        Ok(n) => n,
        Err(e) => {
            return Err(e);
        },
    };
    let ghost ct = send.aead.sealed(
        crypto::nonce_for(send@.iv, pn),
        header,
        payload,
        payload.len() + TAG_LEN as nat,
    )->Ok_0;
    let ghost pkt = header + ct;
    assert(out@.take(pkt.len() as int) =~= pkt);

    let actual_total = payload_start + ct_len;
    if actual_total - pn_offset < 20 {
        return Err(Error::Crypto);
    }
    let mut sample: [u8; 16] = [0u8; 16];
    bytes::copy_at(&mut sample, 0, &out[pn_offset + 4..pn_offset + 20]);
    assert(sample@ =~= pkt.subrange(pn_offset + 4, pn_offset + 20));
    let mask = send.header_protection.mask(&sample);
    let ghost sealed_out = out@;
    if is_long {
        out[0] = out[0] ^ (mask[0] & 0x0f);
    } else {
        out[0] = out[0] ^ (mask[0] & 0x1f);
    }
    let mut i: usize = 0;
    while i < pn_len
        invariant
            i <= pn_len <= 4,
            1 <= pn_offset,
            pn_offset + pn_len <= actual_total,
            actual_total <= out@.len(),
            out@.len() == sealed_out.len(),
            out@[0] == sealed_out[0] ^ (mask@[0] & if is_long {
                0x0fu8
            } else {
                0x1fu8
            }),
            forall|j: int|
                1 <= j < out@.len() ==> #[trigger] out@[j] == (if pn_offset <= j < pn_offset + i {
                    sealed_out[j] ^ mask@[1 + j - pn_offset]
                } else {
                    sealed_out[j]
                }),
        decreases pn_len - i,
    {
        out[pn_offset + i] = out[pn_offset + i] ^ mask[1 + i];
        i = i + 1;
    }
    proof {
        let want = masked(pkt, pn_offset as int, pn_len as int, is_long, mask@);
        assert forall|j: int| 0 <= j < want.len() implies #[trigger] out@[j] == want[j] by {
            assert(sealed_out[j] == sealed_out.take(pkt.len() as int)[j]);
        }
        assert(out@.take(pkt.len() as int) =~= want);
    }
    Ok(actual_total)
}

/// The packet made of `header` (with the packet number) and `payload`, if there
/// are keys, it fits into `cap` bytes and it can be sealed.
pub open spec fn sealed_packet<A: Aead, HP: HeaderProtection>(
    keys: Option<KeyModel<A, HP>>,
    header: Seq<u8>,
    pn: u64,
    pn_len: int,
    is_long: bool,
    payload: Seq<u8>,
    cap: int,
) -> Option<Seq<u8>> {
    match keys {
        Some(k) => if header.len() + payload.len() + TAG_LEN > cap {
            None
        } else {
            match protected(k, header, pn, pn_len, is_long, payload) {
                Ok(pkt) => Some(pkt),
                Err(_) => None,
            }
        },
        None => None,
    }
}

/// Puts the packet number behind the header, moves the frames from where they
/// were built to right behind it, and pads them with zeros.
pub(crate) fn place_payload(
    buf: &mut [u8],
    header_len: usize,
    pn: u64,
    largest_acked: u64,
    built_at: usize,
    frame_len: usize,
    pad: usize,
) -> (payload_start: usize)
    requires
        header_len + packet::pn_size(pn as int, largest_acked as int) <= built_at,
        built_at + frame_len <= old(buf)@.len(),
        header_len + packet::pn_size(pn as int, largest_acked as int) + frame_len + pad <= old(
            buf)@.len(),
    ensures
        final(buf)@.len() == old(buf)@.len(),
        payload_start == header_len + packet::pn_size(pn as int, largest_acked as int),
        final(buf)@.take(payload_start as int) == old(buf)@.take(header_len as int)
            + packet::pn_bytes(pn as int, largest_acked as int),
        final(buf)@.subrange(payload_start as int, payload_start + frame_len + pad) == old(
            buf)@.subrange(built_at as int, built_at + frame_len) + bytes::zeros(pad as nat),
{
    let ghost base = buf@;
    let ghost pnb = packet::pn_bytes(pn as int, largest_acked as int);
    let pn_len = packet::pn_length(pn, largest_acked);
    proof {
        bytes::lemma_be_bytes_len(pn as nat, pn_len as nat);
    }
    let total = buf.len();
    {
        let (_, tail) = buf.split_at_mut(header_len);
        let _ = packet::encode_pn(pn, largest_acked, tail);
    }
    let ghost s1 = buf@;
    assert(s1 =~= base.take(header_len as int) + pnb + base.skip(header_len + pn_len));
    let payload_start = header_len + pn_len;
    bytes::copy_within(buf, built_at, built_at + frame_len, payload_start);
    let ghost s2 = buf@;
    bytes::fill_zero(buf, payload_start + frame_len, payload_start + frame_len + pad);
    proof {
        let frames = base.subrange(built_at as int, built_at + frame_len);
        assert(s1.subrange(built_at as int, built_at + frame_len) =~= frames);
        assert(buf@.take(payload_start as int) =~= base.take(header_len as int) + pnb);
        assert(buf@.subrange(payload_start as int, payload_start + frame_len + pad) =~= frames
            + bytes::zeros(pad as nat));
    }
    payload_start
}

/// What keys seen through a reference hold.
pub open spec fn keys_view<A: Aead, HP: HeaderProtection>(
    keys: Option<&DirectionalKeys<A, HP>>,
) -> Option<KeyModel<A, HP>> {
    match keys {
        Some(k) => Some(k@),
        None => None,
    }
}

/// Completes a packet whose header is at the front of `buf` and whose frames
/// were built at `built_at`: packet number, padding, encryption.
pub(crate) fn seal_built<A: Aead, HP: HeaderProtection>(
    buf: &mut [u8],
    header_len: usize,
    pn: u64,
    largest_acked: u64,
    built_at: usize,
    frame_len: usize,
    pad: usize,
    is_long: bool,
    keys: Option<&DirectionalKeys<A, HP>>,
) -> (r: Option<usize>)
    requires
        1 <= header_len,
        header_len + packet::pn_size(pn as int, largest_acked as int) <= built_at,
        built_at + frame_len <= old(buf)@.len(),
        pad <= 2000,
        pad > 0 ==> frame_len <= 2000,
    ensures
        final(buf)@.len() == old(buf)@.len(),
        ({
            let pn_len = packet::pn_size(pn as int, largest_acked as int) as int;
            let header = old(buf)@.take(header_len as int) + packet::pn_bytes(
                pn as int,
                largest_acked as int,
            );
            let payload = old(buf)@.subrange(built_at as int, built_at + frame_len) + bytes::zeros(
                pad as nat,
            );
            match sealed_packet(
                keys_view(keys),
                header,
                pn,
                pn_len,
                is_long,
                payload,
                old(buf)@.len() as int,
            ) {
                Some(b) => r == Some(b.len() as usize) && b.len() <= old(buf)@.len() && final(
                    buf)@.take(b.len() as int) == b,
                None => r is None,
            }
        }),
{
    let cap = buf.len();
    let ghost base = buf@;
    let pn_len = packet::pn_length(pn, largest_acked);
    proof {
        bytes::lemma_be_bytes_len(pn as nat, pn_len as nat);
    }
    let room = cap - header_len - pn_len;
    if room < TAG_LEN || room - TAG_LEN < frame_len || room - TAG_LEN - frame_len < pad {
        return None;
    }
    let padded = frame_len + pad;
    let payload_start = place_payload(buf, header_len, pn, largest_acked, built_at, frame_len, pad);
    match keys {
        Some(k) => match encrypt_and_protect(
            buf,
            header_len,
            payload_start,
            padded,
            pn,
            pn_len,
            is_long,
            k,
        ) {
            Ok(total) => Some(total),
            Err(_) => None,
        },
        None => None,
    }
}

} // verus!
