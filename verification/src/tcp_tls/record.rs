//! TLS records: headers, content types, fragmentation of handshake flights.

use vstd::prelude::*;

use crate::bytes;
use crate::error::Error;

verus! {

/// Length of a record header.
pub const RECORD_HEADER_LEN: usize = 5;

/// The longest ciphertext that a record may carry.
pub const MAX_CIPHERTEXT: usize = 16640;

/// The longest plaintext that a record may carry.
pub const MAX_PLAINTEXT: usize = 16384;

/// What a record carries.
#[derive(Debug, Clone, Copy, PartialEq, Eq, Structural)]
pub enum ContentType {
    ChangeCipherSpec,
    Alert,
    Handshake,
    ApplicationData,
}

/// The code of a content type.
pub open spec fn content_code(ct: ContentType) -> u8 {
    match ct {
        ContentType::ChangeCipherSpec => 20,
        ContentType::Alert => 21,
        ContentType::Handshake => 22,
        ContentType::ApplicationData => 23,
    }
}

/// The content type with a code.
pub open spec fn content_of(code: u8) -> Option<ContentType> {
    if code == 20 {
        Some(ContentType::ChangeCipherSpec)
    } else if code == 21 {
        Some(ContentType::Alert)
    } else if code == 22 {
        Some(ContentType::Handshake)
    } else if code == 23 {
        Some(ContentType::ApplicationData)
    } else {
        None
    }
}

impl ContentType {
    /// The code of the content type.
    pub fn to_byte(self) -> (code: u8)
        ensures
            code == content_code(self),
    {
        match self {
            ContentType::ChangeCipherSpec => 20,
            ContentType::Alert => 21,
            ContentType::Handshake => 22,
            ContentType::ApplicationData => 23,
        }
    }

    /// The content type with a code.
    pub fn from_byte(code: u8) -> (r: Option<Self>)
        ensures
            r == content_of(code),
    {
        if code == 20 {
            Some(ContentType::ChangeCipherSpec)
        } else if code == 21 {
            Some(ContentType::Alert)
        } else if code == 22 {
            Some(ContentType::Handshake)
        } else if code == 23 {
            Some(ContentType::ApplicationData)
        } else {
            None
        }
    }
}

/// A decoded record header.
#[derive(Debug, Clone, Copy, PartialEq, Eq, Structural)]
pub struct RecordHeader {
    pub content_type: ContentType,
    pub length: u16,
}

/// The header of a record: content type, the legacy version 3.3, the length.
pub open spec fn header_bytes(ct: ContentType, len: u16) -> Seq<u8> {
    seq![content_code(ct), 3u8, 3u8, (len / 256) as u8, (len % 256) as u8]
}

/// The header at the front of `s`: the content type must be known and the length
/// within the limit; the version is ignored.
pub open spec fn header_at(s: Seq<u8>) -> Result<RecordHeader, Error> {
    let len = s[3] * 256 + s[4];
    match content_of(s[0]) {
        Some(ct) => if len > MAX_CIPHERTEXT {
            Err(Error::Tls)
        } else {
            Ok(RecordHeader { content_type: ct, length: len as u16 })
        },
        None => Err(Error::Tls),
    }
}

/// Reads a record header.
pub fn decode_record_header(s: &[u8]) -> (r: Result<RecordHeader, Error>)
    requires
        s@.len() >= RECORD_HEADER_LEN,
    ensures
        r == header_at(s@),
        r matches Ok(h) ==> h.length <= MAX_CIPHERTEXT,
{
    let len: u16 = s[3] as u16 * 256 + s[4] as u16;
    match ContentType::from_byte(s[0]) {
        Some(ct) => if len as usize > MAX_CIPHERTEXT {
            Err(Error::Tls)
        } else {
            Ok(RecordHeader { content_type: ct, length: len })
        },
        None => Err(Error::Tls),
    }
}

/// The header of a record.
pub fn encode_record_header(ct: ContentType, len: u16) -> (r: [u8; 5])
    ensures
        r@ == header_bytes(ct, len),
{
    let r = [ct.to_byte(), 3u8, 3u8, (len / 256) as u8, (len % 256) as u8];
    assert(r@ =~= header_bytes(ct, len));
    r
}

/// Reading a written header gives back what was written.
pub proof fn law_header_roundtrip(ct: ContentType, len: u16, rest: Seq<u8>)
    requires
        len <= MAX_CIPHERTEXT,
    ensures
        header_at(header_bytes(ct, len) + rest) == Ok::<RecordHeader, Error>(
            RecordHeader { content_type: ct, length: len },
        ),
{
}

/// The position behind the last byte of `s[..n]` that is not zero.
pub open spec fn trimmed_len(s: Seq<u8>, n: int) -> int
    decreases n,
{
    if n <= 0 {
        0
    } else if s[n - 1] != 0 {
        n
    } else {
        trimmed_len(s, n - 1)
    }
}

/// The inner content type of a decrypted record is its last byte that is not
/// zero; everything before it is the data.
pub open spec fn inner_content(plaintext: Seq<u8>) -> Result<(usize, ContentType), Error> {
    let pos = trimmed_len(plaintext, plaintext.len() as int);
    if pos == 0 {
        Err(Error::Tls)
    } else {
        match content_of(plaintext[pos - 1]) {
            Some(ct) => Ok(((pos - 1) as usize, ct)),
            None => Err(Error::Tls),
        }
    }
}

proof fn lemma_trimmed_len(s: Seq<u8>, n: int)
    requires
        0 <= n <= s.len(),
    ensures
        0 <= trimmed_len(s, n) <= n,
    decreases n,
{
    if n > 0 && s[n - 1] == 0 {
        lemma_trimmed_len(s, n - 1);
    }
}

/// The data of a record is shorter than its plaintext.
pub proof fn lemma_inner_content_len(plaintext: Seq<u8>)
    ensures
        inner_content(plaintext) matches Ok((n, _)) ==> n <= plaintext.len(),
{
    lemma_trimmed_len(plaintext, plaintext.len() as int);
}

/// Find the inner content type from decrypted TLS record plaintext.
/// The inner type is the last non-zero byte; everything before it is the actual data.
pub fn find_inner_content_type(plaintext: &[u8]) -> (r: Result<(usize, ContentType), Error>)
    ensures
        r == inner_content(plaintext@),
        r matches Ok((n, _)) ==> n < plaintext@.len(),
{
    let mut pos = plaintext.len();
    while pos > 0 && plaintext[pos - 1] == 0
        invariant
            pos <= plaintext@.len(),
            trimmed_len(plaintext@, plaintext@.len() as int) == trimmed_len(
                plaintext@,
                pos as int,
            ),
        decreases pos,
    {
        pos = pos - 1;
    }
    if pos == 0 {
        return Err(Error::Tls);
    }
    match ContentType::from_byte(plaintext[pos - 1]) {
        Some(ct) => Ok((pos - 1, ct)),
        None => Err(Error::Tls),
    }
}

/// Data followed by its content type and any number of zeros is found again.
pub proof fn law_inner_content_roundtrip(data: Seq<u8>, ct: ContentType, padding: nat)
    requires
        data.len() < usize::MAX,
    ensures
        inner_content(data.push(content_code(ct)) + bytes::zeros(padding)) == Ok::<
            (usize, ContentType),
            Error,
        >((data.len() as usize, ct)),
{
    let s = data.push(content_code(ct)) + bytes::zeros(padding);
    lemma_trim(s, data.len() as int + 1, s.len() as int);
}

proof fn lemma_trim(s: Seq<u8>, end: int, n: int)
    requires
        0 < end <= n <= s.len(),
        s[end - 1] != 0,
        forall|i: int| end <= i < n ==> #[trigger] s[i] == 0,
    ensures
        trimmed_len(s, n) == end,
    decreases n - end,
{
    if n > end {
        lemma_trim(s, end, n - 1);
    }
}

/// End of the handshake message that starts at `off` (one byte of type, three of
/// length, the body), clamped to the end of `s`; the end of `s` if there is no
/// room for a whole message header.
pub open spec fn message_end(s: Seq<u8>, off: int) -> int {
    if off + 4 > s.len() {
        s.len() as int
    } else {
        let end = off + 4 + s[off + 1] * 0x1_0000 + s[off + 2] * 0x100 + s[off + 3];
        if end < s.len() {
            end
        } else {
            s.len() as int
        }
    }
}

/// End offset of the TLS handshake message starting at `off`.
pub fn handshake_msg_end(s: &[u8], off: usize) -> (end: usize)
    requires
        off <= s@.len(),
    ensures
        end == message_end(s@, off as int),
        off < s@.len() ==> off < end,
        end <= s@.len(),
{
    if s.len() < 4 || off > s.len() - 4 {
        return s.len();
    }
    let body_len: u32 = s[off + 1] as u32 * 0x1_0000 + s[off + 2] as u32 * 0x100 + s[off + 3] as u32;
    if (body_len as usize) < s.len() - off - 4 {
        off + 4 + body_len as usize
    } else {
        s.len()
    }
}

/// From `end` on, whole messages are taken while what lies between `start` and
/// their end stays within `cap`.
pub open spec fn packed_end(s: Seq<u8>, start: int, end: int, cap: int) -> int
    decreases s.len() - end,
{
    let next = message_end(s, end);
    if end < 0 || end >= s.len() || next - start > cap {
        end
    } else {
        packed_end(s, start, next, cap)
    }
}

/// `s` in pieces of `cap` bytes; the last one may be shorter.
pub open spec fn chunks(s: Seq<u8>, cap: int) -> Seq<Seq<u8>>
    decreases s.len(),
{
    if s.len() == 0 || cap <= 0 {
        Seq::empty()
    } else if s.len() <= cap {
        seq![s]
    } else {
        seq![s.take(cap)] + chunks(s.skip(cap), cap)
    }
}

/// A handshake flight in records of at most `cap` bytes. Record boundaries are
/// message boundaries wherever a message fits into a record; a longer message is
/// cut into pieces.
pub open spec fn fragments(s: Seq<u8>, start: int, cap: int) -> Seq<Seq<u8>>
    decreases s.len() - start,
{
    if start < 0 || start >= s.len() {
        Seq::empty()
    } else {
        let end = packed_end(s, start, start, cap);
        let msg = message_end(s, start);
        if start < end <= s.len() {
            seq![s.subrange(start, end)] + fragments(s, end, cap)
        } else {
            chunks(s.subrange(start, msg), cap) + fragments(s, msg, cap)
        }
    }
}

/// Where packing ends.
pub proof fn lemma_packed_end(s: Seq<u8>, start: int, end: int, cap: int)
    requires
        0 <= start <= end <= s.len(),
        end - start <= cap,
    ensures
        end <= packed_end(s, start, end, cap) <= s.len(),
        packed_end(s, start, end, cap) - start <= cap,
    decreases s.len() - end,
{
    let next = message_end(s, end);
    if end < s.len() && next - start <= cap {
        lemma_packed_end(s, start, next, cap);
    }
}

proof fn lemma_joined_add(a: Seq<Seq<u8>>, b: Seq<Seq<u8>>)
    ensures
        bytes::joined(a + b) == bytes::joined(a) + bytes::joined(b),
    decreases a.len(),
{
    if a.len() == 0 {
        assert(a + b =~= b);
        assert(bytes::joined(a) + bytes::joined(b) =~= bytes::joined(b));
    } else {
        lemma_joined_add(a.drop_first(), b);
        assert((a + b).drop_first() =~= a.drop_first() + b);
        assert(bytes::joined(a + b) =~= bytes::joined(a) + bytes::joined(b));
    }
}

proof fn lemma_chunks(s: Seq<u8>, cap: int)
    requires
        cap >= 1,
    ensures
        bytes::joined(chunks(s, cap)) == s,
        forall|i: int|
            0 <= i < chunks(s, cap).len() ==> 0 < (#[trigger] chunks(s, cap)[i]).len() <= cap,
    decreases s.len(),
{
    if s.len() == 0 {
    } else if s.len() <= cap {
        reveal_with_fuel(bytes::joined, 2);
        let one = seq![s];
        assert(one.drop_first() =~= Seq::<Seq<u8>>::empty());
        assert(bytes::joined(one) =~= s);
    } else {
        lemma_chunks(s.skip(cap), cap);
        let rest = chunks(s.skip(cap), cap);
        let all = seq![s.take(cap)] + rest;
        assert(all.drop_first() =~= rest);
        assert(bytes::joined(all) =~= s);
        assert forall|i: int| 0 <= i < all.len() implies 0 < (#[trigger] all[i]).len() <= cap by {
            if i > 0 {
                assert(all[i] == rest[i - 1]);
            }
        }
    }
}

/// Fragmenting a flight loses nothing: the records put together are the flight,
/// and none of them exceeds the limit or is empty.
pub proof fn law_fragments_cover(s: Seq<u8>, start: int, cap: int)
    requires
        cap >= 1,
        0 <= start <= s.len(),
    ensures
        bytes::joined(fragments(s, start, cap)) == s.skip(start),
        forall|i: int|
            0 <= i < fragments(s, start, cap).len() ==> 0 < (#[trigger] fragments(
                s,
                start,
                cap,
            )[i]).len() <= cap,
    decreases s.len() - start,
{
    if start < s.len() {
        let end = packed_end(s, start, start, cap);
        let msg = message_end(s, start);
        lemma_packed_end(s, start, start, cap);
        if end > start {
            law_fragments_cover(s, end, cap);
            let rest = fragments(s, end, cap);
            let all = seq![s.subrange(start, end)] + rest;
            assert(all.drop_first() =~= rest);
            assert(bytes::joined(all) =~= s.skip(start));
            assert forall|i: int| 0 <= i < all.len() implies 0 < (#[trigger] all[i]).len()
                <= cap by {
                if i > 0 {
                    assert(all[i] == rest[i - 1]);
                }
            }
        } else {
            law_fragments_cover(s, msg, cap);
            let piece = s.subrange(start, msg);
            lemma_chunks(piece, cap);
            let a = chunks(piece, cap);
            let b = fragments(s, msg, cap);
            lemma_joined_add(a, b);
            assert(piece + s.skip(msg) =~= s.skip(start));
            assert forall|i: int| 0 <= i < (a + b).len() implies 0 < (#[trigger] (a + b)[i]).len()
                <= cap by {
                if i < a.len() {
                    assert((a + b)[i] == a[i]);
                } else {
                    assert((a + b)[i] == b[i - a.len()]);
                }
            }
        }
    } else {
        assert(s.skip(start) =~= Seq::<u8>::empty());
    }
}

/// Whether `p` is where a message starts or ends, going on from `start`.
pub open spec fn at_boundary(s: Seq<u8>, start: int, p: int) -> bool
    decreases s.len() - start,
{
    p == start || (0 <= start < s.len() && at_boundary(s, message_end(s, start), p))
}

proof fn lemma_boundary_chain(s: Seq<u8>, start: int, mid: int, p: int)
    requires
        at_boundary(s, start, mid),
        at_boundary(s, mid, p),
    ensures
        at_boundary(s, start, p),
    decreases s.len() - start,
{
    if mid != start {
        lemma_boundary_chain(s, message_end(s, start), mid, p);
    }
}

proof fn lemma_packed_at_boundary(s: Seq<u8>, start: int, end: int, cap: int)
    requires
        0 <= start <= end <= s.len(),
    ensures
        at_boundary(s, end, packed_end(s, start, end, cap)),
    decreases s.len() - end,
{
    let next = message_end(s, end);
    if end < s.len() && next - start <= cap {
        lemma_packed_at_boundary(s, start, next, cap);
    }
}

proof fn lemma_joined_prefix(parts: Seq<Seq<u8>>, k: int)
    requires
        0 <= k <= parts.len(),
    ensures
        bytes::joined(parts.take(k)).len() <= bytes::joined(parts).len(),
{
    lemma_joined_add(parts.take(k), parts.skip(k));
    assert(parts.take(k) + parts.skip(k) =~= parts);
}

/// Whether `p` lies inside a message that is longer than `cap` by itself.
pub open spec fn inside_long_message(s: Seq<u8>, start: int, p: int, cap: int) -> bool {
    exists|a: int| #[trigger]
        at_boundary(s, start, a) && a < p < message_end(s, a) && message_end(s, a) - a > cap
}

/// A message of a flight is cut only if it alone exceeds what a record takes:
/// wherever one record ends and the next one starts, there is the end of a
/// message, or the middle of one that is too long for any record.
pub proof fn law_only_long_messages_are_cut(s: Seq<u8>, start: int, cap: int, k: int)
    requires
        cap >= 1,
        0 <= start <= s.len(),
        0 <= k <= fragments(s, start, cap).len(),
    ensures
        ({
            let p = start + bytes::joined(fragments(s, start, cap).take(k)).len();
            at_boundary(s, start, p) || inside_long_message(s, start, p, cap)
        }),
    decreases s.len() - start,
{
    let all = fragments(s, start, cap);
    let p = start + bytes::joined(all.take(k)).len();
    if k == 0 {
        assert(all.take(0).len() == 0);
    } else if start < s.len() {
        let end = packed_end(s, start, start, cap);
        let msg = message_end(s, start);
        lemma_packed_end(s, start, start, cap);
        if end > start {
            let rest = fragments(s, end, cap);
            let first = seq![s.subrange(start, end)];
            assert(all.take(k) =~= first + rest.take(k - 1));
            lemma_joined_add(first, rest.take(k - 1));
            assert(first.drop_first() =~= Seq::<Seq<u8>>::empty());
            assert(bytes::joined(first.drop_first()).len() == 0);
            assert(bytes::joined(first).len() == end - start);
            law_only_long_messages_are_cut(s, end, cap, k - 1);
            lemma_packed_at_boundary(s, start, start, cap);
            lemma_from_boundary(s, start, end, p, cap);
        } else {
            let piece = s.subrange(start, msg);
            let cut = chunks(piece, cap);
            let rest = fragments(s, msg, cap);
            lemma_chunks(piece, cap);
            assert(at_boundary(s, msg, msg));
            assert(at_boundary(s, start, msg));
            if k <= cut.len() {
                assert(all.take(k) =~= cut.take(k));
                lemma_joined_prefix(cut, k);
                assert(at_boundary(s, start, start));
            } else {
                let j = k - cut.len();
                assert(all.take(k) =~= cut + rest.take(j));
                lemma_joined_add(cut, rest.take(j));
                law_only_long_messages_are_cut(s, msg, cap, j);
                lemma_from_boundary(s, start, msg, p, cap);
            }
        }
    }
}

proof fn lemma_from_boundary(s: Seq<u8>, start: int, mid: int, p: int, cap: int)
    requires
        at_boundary(s, start, mid),
        at_boundary(s, mid, p) || inside_long_message(s, mid, p, cap),
    ensures
        at_boundary(s, start, p) || inside_long_message(s, start, p, cap),
{
    if at_boundary(s, mid, p) {
        lemma_boundary_chain(s, start, mid, p);
    } else {
        let a = choose|a: int| #[trigger]
            at_boundary(s, mid, a) && a < p < message_end(s, a) && message_end(s, a) - a > cap;
        lemma_boundary_chain(s, start, mid, a);
    }
}

} // verus!
