//! QUIC frames that the transmit path emits.

use vstd::prelude::*;

use crate::bytes;
use crate::error::Error;
use crate::varint;

verus! {

/// ECN counters of an ACK frame.
#[derive(Debug, Clone, Copy, PartialEq, Eq, Structural)]
pub struct EcnCounts {
    pub ect0: u64,
    pub ect1: u64,
    pub ce: u64,
}

/// An ACK frame; `ack_ranges` holds the encoded gap/range pairs.
#[derive(Debug, Clone, Copy)]
pub struct AckFrame<'a> {
    pub largest_ack: u64,
    pub ack_delay: u64,
    pub first_ack_range: u64,
    pub ack_ranges: &'a [u8],
    pub ecn: Option<EcnCounts>,
}

/// A CRYPTO frame.
#[derive(Debug, Clone, Copy)]
pub struct CryptoFrame<'a> {
    pub offset: u64,
    pub data: &'a [u8],
}

/// A STREAM frame.
#[derive(Debug, Clone, Copy)]
pub struct StreamFrame<'a> {
    pub stream_id: u64,
    pub offset: u64,
    pub data: &'a [u8],
    pub fin: bool,
}

/// A MAX_STREAM_DATA frame.
#[derive(Debug, Clone, Copy)]
pub struct MaxStreamDataFrame {
    pub stream_id: u64,
    pub max_data: u64,
}

/// A CONNECTION_CLOSE frame.
#[derive(Debug, Clone, Copy)]
pub struct ConnectionCloseFrame<'a> {
    pub is_application: bool,
    pub error_code: u64,
    pub frame_type: u64,
    pub reason: &'a [u8],
}

/// A frame to encode.
#[derive(Debug, Clone, Copy)]
pub enum Frame<'a> {
    Ack(AckFrame<'a>),
    Crypto(CryptoFrame<'a>),
    Stream(StreamFrame<'a>),
    MaxData(u64),
    MaxStreamData(MaxStreamDataFrame),
    PathResponse([u8; 8]),
    ConnectionClose(ConnectionCloseFrame<'a>),
    HandshakeDone,
}

/// How many whole variable-length integers `s` begins with.
pub open spec fn varint_count(s: Seq<u8>) -> nat
    decreases s.len(),
{
    if s.len() == 0 {
        0
    } else {
        let n = varint::varint_len_of(s[0]);
        if s.len() < n {
            0
        } else {
            1 + varint_count(s.skip(n as int))
        }
    }
}

/// The encodings of the numbers `vs`, one after the other.
pub open spec fn varints(vs: Seq<u64>) -> Seq<u8>
    decreases vs.len(),
{
    if vs.len() == 0 {
        Seq::empty()
    } else {
        varints(vs.drop_last()) + varint::varint_bytes(vs.last() as int)
    }
}

/// Whether each of the numbers can be encoded.
pub open spec fn encodable(vs: Seq<u64>) -> bool {
    forall|i: int| 0 <= i < vs.len() ==> #[trigger] vs[i] <= varint::MAX_VARINT
}

/// A frame made of a type byte, numbers, raw bytes and numbers again.
pub struct FrameParts {
    pub kind: u8,
    pub head: Seq<u64>,
    pub body: Seq<u8>,
    pub tail: Seq<u64>,
}

impl FrameParts {
    /// The encoding; `None` if a number is too large.
    pub open spec fn encoding(self) -> Option<Seq<u8>> {
        if encodable(self.head) && encodable(self.tail) {
            Some(seq![self.kind] + varints(self.head) + self.body + varints(self.tail))
        } else {
            None
        }
    }
}

/// The parts of an ACK frame.
pub open spec fn ack_parts(
    largest: u64,
    delay: u64,
    first: u64,
    ranges: Seq<u8>,
    ecn: Option<EcnCounts>,
) -> FrameParts {
    FrameParts {
        kind: if ecn is Some {
            0x03
        } else {
            0x02
        },
        head: seq![largest, delay, (varint_count(ranges) / 2) as u64, first],
        body: ranges,
        tail: match ecn {
            Some(e) => seq![e.ect0, e.ect1, e.ce],
            None => seq![],
        },
    }
}

/// The parts of a CRYPTO frame.
pub open spec fn crypto_parts(offset: u64, data: Seq<u8>) -> FrameParts {
    FrameParts { kind: 0x06, head: seq![offset, data.len() as u64], body: data, tail: seq![] }
}

/// The parts of a STREAM frame, which always carries its length and carries its
/// offset unless that is zero.
pub open spec fn stream_parts(id: u64, offset: u64, data: Seq<u8>, fin: bool) -> FrameParts {
    FrameParts {
        kind: if offset > 0 {
            if fin {
                0x0f
            } else {
                0x0e
            }
        } else if fin {
            0x0b
        } else {
            0x0a
        },
        head: if offset > 0 {
            seq![id, offset, data.len() as u64]
        } else {
            seq![id, data.len() as u64]
        },
        body: data,
        tail: seq![],
    }
}

/// The parts of a MAX_DATA frame.
pub open spec fn max_data_parts(max: u64) -> FrameParts {
    FrameParts { kind: 0x10, head: seq![max], body: seq![], tail: seq![] }
}

/// The parts of a MAX_STREAM_DATA frame.
pub open spec fn max_stream_data_parts(id: u64, max: u64) -> FrameParts {
    FrameParts { kind: 0x11, head: seq![id, max], body: seq![], tail: seq![] }
}

/// The parts of a PATH_RESPONSE frame.
pub open spec fn path_response_parts(data: Seq<u8>) -> FrameParts {
    FrameParts { kind: 0x1b, head: seq![], body: data, tail: seq![] }
}

/// The parts of a CONNECTION_CLOSE frame; only the transport variant names the
/// frame type that caused it.
pub open spec fn close_parts(
    is_application: bool,
    code: u64,
    frame_type: u64,
    reason: Seq<u8>,
) -> FrameParts {
    FrameParts {
        kind: if is_application {
            0x1d
        } else {
            0x1c
        },
        head: if is_application {
            seq![code, reason.len() as u64]
        } else {
            seq![code, frame_type, reason.len() as u64]
        },
        body: reason,
        tail: seq![],
    }
}

/// The parts of a HANDSHAKE_DONE frame.
pub open spec fn handshake_done_parts() -> FrameParts {
    FrameParts { kind: 0x1e, head: seq![], body: seq![], tail: seq![] }
}

/// The parts of a frame.
pub open spec fn frame_parts(f: Frame) -> FrameParts {
    match f {
        Frame::Ack(a) => ack_parts(
            a.largest_ack,
            a.ack_delay,
            a.first_ack_range,
            a.ack_ranges@,
            a.ecn,
        ),
        Frame::Crypto(c) => crypto_parts(c.offset, c.data@),
        Frame::Stream(s) => stream_parts(s.stream_id, s.offset, s.data@, s.fin),
        Frame::MaxData(max) => max_data_parts(max),
        Frame::MaxStreamData(m) => max_stream_data_parts(m.stream_id, m.max_data),
        Frame::PathResponse(data) => path_response_parts(data@),
        Frame::ConnectionClose(c) => close_parts(
            c.is_application,
            c.error_code,
            c.frame_type,
            c.reason@,
        ),
        Frame::HandshakeDone => handshake_done_parts(),
    }
}

/// What encoding a frame into `room` bytes writes: nothing if a number is too
/// large or the room too small.
pub open spec fn fitted(parts: FrameParts, room: int) -> Option<Seq<u8>> {
    match parts.encoding() {
        Some(b) => if b.len() <= room {
            Some(b)
        } else {
            None
        },
        None => None,
    }
}

/// The gap/range pair count of an ACK frame.
fn count_varints(s: &[u8]) -> (n: u64)
    ensures
        n == varint_count(s@),
        n <= s@.len(),
{
    let mut pos: usize = 0;
    let mut n: u64 = 0;
    assert(s@.skip(0) =~= s@);
    while pos < s.len()
        invariant_except_break
            pos <= s@.len(),
            n <= pos,
            n + varint_count(s@.skip(pos as int)) == varint_count(s@),
        ensures
            n == varint_count(s@),
            n <= s@.len(),
        decreases s@.len() - pos,
    {
        let first = s[pos];
        let step: usize = if first < 0x40 {
            1
        } else if first < 0x80 {
            2
        } else if first < 0xc0 {
            4
        } else {
            8
        };
        assert(s@.skip(pos as int)[0] == first);
        if s.len() - pos < step {
            break;
        }
        assert(s@.skip(pos as int).skip(step as int) =~= s@.skip(pos + step));
        pos = pos + step;
        n = n + 1;
    }
    n
}

/// The numbers of a frame: at most four before the body, three behind it.
struct Numbers {
    vals: [u64; 4],
    len: usize,
}

impl Numbers {
    spec fn seq(&self) -> Seq<u64> {
        self.vals@.take(self.len as int)
    }

    /// The total length of the encodings, or `None` if one is too large.
    fn size(&self) -> (r: Option<usize>)
        requires
            self.len <= 4,
        ensures
            match r {
                Some(n) => encodable(self.seq()) && n == varints(self.seq()).len() && n <= 32,
                None => !encodable(self.seq()),
            },
    {
        let mut i: usize = 0;
        let mut n: usize = 0;
        assert(self.vals@.take(0) =~= Seq::<u64>::empty());
        while i < self.len
            invariant
                i <= self.len <= 4,
                n <= 8 * i,
                n == varints(self.vals@.take(i as int)).len(),
                forall|j: int| 0 <= j < i ==> #[trigger] self.vals@[j] <= varint::MAX_VARINT,
            decreases self.len - i,
        {
            if self.vals[i] > varint::MAX_VARINT {
                assert(self.seq()[i as int] > varint::MAX_VARINT);
                return None;
            }
            proof {
                varint::lemma_varint_len(self.vals@[i as int] as int);
                assert(self.vals@.take(i + 1).drop_last() =~= self.vals@.take(i as int));
            }
            n = n + varint::varint_len(self.vals[i]);
            i = i + 1;
        }
        Some(n)
    }

    /// Writes the encodings at `out[pos..]` and returns the position behind.
    fn put(&self, out: &mut [u8], pos: usize) -> (end: usize)
        requires
            self.len <= 4,
            encodable(self.seq()),
            pos + varints(self.seq()).len() <= old(out)@.len(),
        ensures
            final(out)@.len() == old(out)@.len(),
            end == pos + varints(self.seq()).len(),
            final(out)@.take(end as int) == old(out)@.take(pos as int) + varints(self.seq()),
            final(out)@.skip(end as int) == old(out)@.skip(end as int),
    {
        let ghost base = out@;
        let mut i: usize = 0;
        let mut at: usize = pos;
        proof {
            assert(self.vals@.take(0) =~= Seq::<u64>::empty());
            assert(base.take(pos as int) + Seq::<u8>::empty() =~= base.take(pos as int));
        }
        while i < self.len
            invariant
                i <= self.len <= 4,
                encodable(self.seq()),
                out@.len() == base.len(),
                pos + varints(self.seq()).len() <= base.len(),
                at == pos + varints(self.vals@.take(i as int)).len(),
                at <= out@.len(),
                out@.take(at as int) == base.take(pos as int) + varints(self.vals@.take(i as int)),
                out@.skip(at as int) == base.skip(at as int),
            decreases self.len - i,
        {
            let v = self.vals[i];
            proof {
                assert(v == self.seq()[i as int]);
                varint::lemma_varint_len(v as int);
                assert(self.vals@.take(i + 1).drop_last() =~= self.vals@.take(i as int));
                lemma_varints_prefix(self.seq(), i + 1);
                assert(self.seq().take(i + 1) =~= self.vals@.take(i + 1));
            }
            let next = varint::put_varint(out, at, v);
            proof {
                let seg = varint::varint_bytes(v as int);
                assert(base.take(pos as int) + varints(self.vals@.take(i as int)) + seg
                    =~= base.take(pos as int) + varints(self.vals@.take(i + 1)));
                assert(out@.skip(next as int) =~= base.skip(at as int).skip(seg.len() as int));
                assert(base.skip(at as int).skip(seg.len() as int) =~= base.skip(next as int));
            }
            at = next;
            i = i + 1;
        }
        assert(self.vals@.take(i as int) =~= self.seq());
        at
    }
}

proof fn lemma_varints_prefix(vs: Seq<u64>, n: int)
    requires
        0 <= n <= vs.len(),
    ensures
        varints(vs.take(n)).len() <= varints(vs).len(),
    decreases vs.len() - n,
{
    if n < vs.len() {
        lemma_varints_prefix(vs, n + 1);
        assert(vs.take(n + 1).drop_last() =~= vs.take(n));
    } else {
        assert(vs.take(n) =~= vs);
    }
}

/// Writes a frame given by its parts at the front of `buf`.
fn encode_parts(kind: u8, head: &Numbers, body: &[u8], tail: &Numbers, buf: &mut [u8]) -> (r: Result<
    usize,
    Error,
>)
    requires
        head.len <= 4,
        tail.len <= 4,
    ensures
        final(buf)@.len() == old(buf)@.len(),
        ({
            let parts = FrameParts { kind, head: head.seq(), body: body@, tail: tail.seq() };
            match fitted(parts, old(buf)@.len() as int) {
                Some(b) => r == Ok::<usize, Error>(b.len() as usize) && final(buf)@ == b + old(
                    buf,
                )@.skip(b.len() as int),
                None => r is Err && final(buf)@ == old(buf)@ && (r == Err::<usize, Error>(
                    Error::InvalidVarint,
                ) <==> parts.encoding() is None),
            }
        }),
{
    let ghost base = buf@;
    let head_len = match head.size() {
        Some(n) => n,
        None => {
            return Err(Error::InvalidVarint);
        },
    };
    let tail_len = match tail.size() {
        Some(n) => n,
        None => {
            return Err(Error::InvalidVarint);
        },
    };
    let fixed: usize = 1 + head_len + tail_len;
    if buf.len() < fixed || buf.len() - fixed < body.len() {
        let needed = if body.len() <= usize::MAX - fixed {
            fixed + body.len()
        } else {
            usize::MAX
        };
        return Err(Error::BufferTooSmall { needed });
    }
    buf[0] = kind;
    let ghost after_kind = buf@;
    let p1 = head.put(buf, 1);
    let ghost after_head = buf@;
    bytes::copy_at(buf, p1, body);
    let ghost after_body = buf@;
    let p2 = p1 + body.len();
    let p3 = tail.put(buf, p2);
    proof {
        let b = seq![kind] + varints(head.seq()) + body@ + varints(tail.seq());
        assert(after_kind.take(1) =~= seq![kind]);
        assert(after_body.take(p2 as int) =~= after_head.take(p1 as int) + body@);
        assert(buf@.take(p3 as int) =~= b);
        assert(after_body.skip(p3 as int) =~= after_head.skip(p1 as int).skip(p3 - p1));
        assert(after_head.skip(p1 as int) =~= base.skip(p1 as int));
        assert(base.skip(p1 as int).skip(p3 - p1) =~= base.skip(p3 as int));
        assert(buf@ =~= buf@.take(p3 as int) + buf@.skip(p3 as int));
    }
    Ok(p3)
}

/// Encodes `frame` at the front of `buf` and returns its length. If a number of
/// the frame is too large, or the frame too long, `buf` stays as it was.
pub fn encode(frame: &Frame, buf: &mut [u8]) -> (r: Result<usize, Error>)
    ensures
        final(buf)@.len() == old(buf)@.len(),
        match fitted(frame_parts(*frame), old(buf)@.len() as int) {
            Some(b) => r == Ok::<usize, Error>(b.len() as usize) && final(buf)@ == b + old(
                buf,
            )@.skip(b.len() as int),
            None => r is Err && final(buf)@ == old(buf)@ && (r == Err::<usize, Error>(
                Error::InvalidVarint,
            ) <==> frame_parts(*frame).encoding() is None),
        },
{
    let ghost parts = frame_parts(*frame);
    let none = Numbers { vals: [0u64; 4], len: 0 };
    let nothing: [u8; 0] = [];
    proof {
        assert(none.seq() =~= Seq::<u64>::empty());
        assert(nothing@ =~= Seq::<u8>::empty());
    }
    match frame {
        Frame::Ack(a) => {
            let count = count_varints(a.ack_ranges) / 2;
            let head = Numbers {
                vals: [a.largest_ack, a.ack_delay, count, a.first_ack_range],
                len: 4,
            };
            assert(head.seq() =~= parts.head);
            match a.ecn {
                Some(e) => {
                    let tail = Numbers { vals: [e.ect0, e.ect1, e.ce, 0], len: 3 };
                    assert(tail.seq() =~= parts.tail);
                    encode_parts(0x03, &head, a.ack_ranges, &tail, buf)
                },
                None => encode_parts(0x02, &head, a.ack_ranges, &none, buf),
            }
        },
        Frame::Crypto(c) => {
            let head = Numbers { vals: [c.offset, c.data.len() as u64, 0, 0], len: 2 };
            assert(head.seq() =~= parts.head);
            encode_parts(0x06, &head, c.data, &none, buf)
        },
        Frame::Stream(s) => {
            let len = s.data.len() as u64;
            if s.offset > 0 {
                let head = Numbers { vals: [s.stream_id, s.offset, len, 0], len: 3 };
                assert(head.seq() =~= parts.head);
                encode_parts(
                    if s.fin {
                        0x0f
                    } else {
                        0x0e
                    },
                    &head,
                    s.data,
                    &none,
                    buf,
                )
            } else {
                let head = Numbers { vals: [s.stream_id, len, 0, 0], len: 2 };
                assert(head.seq() =~= parts.head);
                encode_parts(
                    if s.fin {
                        0x0b
                    } else {
                        0x0a
                    },
                    &head,
                    s.data,
                    &none,
                    buf,
                )
            }
        },
        Frame::MaxData(max) => {
            let head = Numbers { vals: [*max, 0, 0, 0], len: 1 };
            assert(head.seq() =~= parts.head);
            encode_parts(0x10, &head, nothing.as_slice(), &none, buf)
        },
        Frame::MaxStreamData(m) => {
            let head = Numbers { vals: [m.stream_id, m.max_data, 0, 0], len: 2 };
            assert(head.seq() =~= parts.head);
            encode_parts(0x11, &head, nothing.as_slice(), &none, buf)
        },
        Frame::PathResponse(data) => encode_parts(0x1b, &none, data.as_slice(), &none, buf),
        Frame::ConnectionClose(c) => {
            let len = c.reason.len() as u64;
            if c.is_application {
                let head = Numbers { vals: [c.error_code, len, 0, 0], len: 2 };
                assert(head.seq() =~= parts.head);
                encode_parts(0x1d, &head, c.reason, &none, buf)
            } else {
                let head = Numbers { vals: [c.error_code, c.frame_type, len, 0], len: 3 };
                assert(head.seq() =~= parts.head);
                encode_parts(0x1c, &head, c.reason, &none, buf)
            }
        },
        Frame::HandshakeDone => encode_parts(0x1e, &none, nothing.as_slice(), &none, buf),
    }
}

} // verus!
