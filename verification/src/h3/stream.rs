//! The receiving side of a request stream: frames in, fields and body out.

use vstd::prelude::*;

use crate::bytes;
use crate::error::Error;
use crate::h3::qpack;
use crate::varint;

verus! {

/// Events of an HTTP/3 connection.
#[derive(Debug, Clone, Copy, PartialEq, Eq, Structural)]
pub enum H3Event {
    /// The connection is established.
    Connected,
    /// Headers received on a stream.
    Headers(u64),
    /// Body data available on a stream.
    Data(u64),
    /// The peer finished a stream.
    Finished(u64),
    /// The peer sent GOAWAY with this stream ID.
    GoAway(u64),
    /// The peer reset a stream.
    StreamReset { stream_id: u64, error_code: u64 },
    /// The peer closed the connection.
    ConnectionClose { error_code: u64 },
}

/// The frame that the next bytes of a stream belong to.
#[derive(Debug, Clone, Copy, PartialEq, Eq, Structural)]
pub enum Inside {
    /// Between frames.
    Nothing,
    /// In a DATA frame of which this many bytes are missing.
    Data(u64),
    /// In a frame without meaning here, of which this many bytes are missing.
    Skipped(u64),
}

/// The type of DATA frames.
pub const DATA_FRAME: u64 = 0;

/// The type of HEADERS frames.
pub const HEADERS_FRAME: u64 = 1;

/// The receiving side of a request stream.
pub struct RequestStreamState {
    pub stream_id: u64,
    /// Bytes received and not yet understood.
    pub pending: Vec<u8>,
    pub inside: Inside,
    /// The encoded field section.
    pub block: Option<Vec<u8>>,
    /// Body bytes that wait to be read.
    pub body: Vec<u8>,
    /// The last bytes were received.
    pub fin: bool,
    /// The end of the stream was reported.
    pub ended: bool,
}

/// What a [`RequestStreamState`] holds.
#[verifier::ext_equal]
pub struct StreamModel {
    pub stream_id: u64,
    pub pending: Seq<u8>,
    pub inside: Inside,
    pub block: Option<Seq<u8>>,
    pub body: Seq<u8>,
    pub fin: bool,
    pub ended: bool,
}

impl View for RequestStreamState {
    type V = StreamModel;

    open spec fn view(&self) -> StreamModel {
        StreamModel {
            stream_id: self.stream_id,
            pending: self.pending@,
            inside: self.inside,
            block: match self.block {
                Some(b) => Some(b@),
                None => None,
            },
            body: self.body@,
            fin: self.fin,
            ended: self.ended,
        }
    }
}

/// Bytes of a stream that the transport received.
pub struct Segment {
    pub stream_id: u64,
    pub data: Vec<u8>,
    pub fin: bool,
}

/// What a [`Segment`] holds.
#[verifier::ext_equal]
pub struct SegmentModel {
    pub stream_id: u64,
    pub data: Seq<u8>,
    pub fin: bool,
}

impl View for Segment {
    type V = SegmentModel;

    open spec fn view(&self) -> SegmentModel {
        SegmentModel { stream_id: self.stream_id, data: self.data@, fin: self.fin }
    }
}

/// A stream on which nothing was received.
pub open spec fn fresh_stream(stream_id: u64) -> StreamModel {
    StreamModel {
        stream_id,
        pending: Seq::empty(),
        inside: Inside::Nothing,
        block: None,
        body: Seq::empty(),
        fin: false,
        ended: false,
    }
}

/// An HTTP/3 frame: type, length, payload.
pub open spec fn h3_frame(kind: u64, payload: Seq<u8>) -> Seq<u8> {
    varint::varint_bytes(kind as int) + varint::varint_bytes(payload.len() as int) + payload
}

/// Type, length and size of the frame header at the front of `s`.
pub open spec fn header_at(s: Seq<u8>) -> Option<(int, int, int)> {
    match varint::varint_decoded(s) {
        Some((kind, n)) => match varint::varint_decoded(s.skip(n as int)) {
            Some((len, k)) => Some((kind, len, n as int + k)),
            None => None,
        },
        None => None,
    }
}

/// What can be done with the pending bytes.
pub enum Step {
    /// Nothing, until more bytes come or the body is read.
    Stop,
    /// Nothing ever: the frame at hand cannot be taken.
    Fail(Error),
    /// One step on, with an event where there is one to report.
    Go(StreamModel, Option<H3Event>),
}

/// The smallest of three lengths.
pub open spec fn least3(a: int, b: int, c: int) -> int {
    if a <= b && a <= c {
        a
    } else if b <= c {
        b
    } else {
        c
    }
}

/// One step on a stream that takes field sections of up to `hdr_cap` bytes and
/// holds up to `data_cap` bytes of body. Fields after the first section
/// (trailers) and frames of other types are passed over.
pub open spec fn step(s: StreamModel, hdr_cap: int, data_cap: int) -> Step {
    match s.inside {
        Inside::Data(left) => {
            let n = least3(s.pending.len() as int, left as int, data_cap - s.body.len());
            if left == 0 {
                Step::Go(StreamModel { inside: Inside::Nothing, ..s }, None)
            } else if n <= 0 {
                Step::Stop
            } else {
                Step::Go(
                    StreamModel {
                        pending: s.pending.skip(n),
                        body: s.body + s.pending.take(n),
                        inside: Inside::Data((left - n) as u64),
                        ..s
                    },
                    Some(H3Event::Data(s.stream_id)),
                )
            }
        },
        Inside::Skipped(left) => {
            let n = least3(s.pending.len() as int, left as int, left as int);
            if left == 0 {
                Step::Go(StreamModel { inside: Inside::Nothing, ..s }, None)
            } else if n <= 0 {
                Step::Stop
            } else {
                Step::Go(
                    StreamModel {
                        pending: s.pending.skip(n),
                        inside: Inside::Skipped((left - n) as u64),
                        ..s
                    },
                    None,
                )
            }
        },
        Inside::Nothing => match header_at(s.pending) {
            None => if s.pending.len() == 0 && s.fin && !s.ended {
                Step::Go(
                    StreamModel { ended: true, ..s },
                    Some(H3Event::Finished(s.stream_id)),
                )
            } else {
                Step::Stop
            },
            Some((kind, len, n)) => if kind == HEADERS_FRAME && s.block is None {
                if len > hdr_cap {
                    Step::Fail(Error::BufferTooSmall { needed: len as usize })
                } else if n + len > s.pending.len() {
                    Step::Stop
                } else {
                    Step::Go(
                        StreamModel {
                            pending: s.pending.skip(n + len),
                            block: Some(s.pending.subrange(n, n + len)),
                            ..s
                        },
                        Some(H3Event::Headers(s.stream_id)),
                    )
                }
            } else {
                Step::Go(
                    StreamModel {
                        pending: s.pending.skip(n),
                        inside: if kind == DATA_FRAME {
                            Inside::Data(len as u64)
                        } else {
                            Inside::Skipped(len as u64)
                        },
                        ..s
                    },
                    None,
                )
            },
        },
    }
}

/// How much there is left to do at most.
pub open spec fn work(s: StreamModel) -> nat {
    4 * s.pending.len() + (if s.inside == Inside::Nothing {
        0nat
    } else {
        2nat
    }) + (if s.ended {
        0nat
    } else {
        1nat
    })
}

/// A frame header takes at least two bytes.
pub proof fn lemma_header_at(s: Seq<u8>)
    ensures
        header_at(s) matches Some((kind, len, n)) ==> 2 <= n <= s.len() && 0 <= kind
            <= varint::MAX_VARINT && 0 <= len <= varint::MAX_VARINT,
{
    varint::lemma_decoded_range(s);
    match varint::varint_decoded(s) {
        Some((_, n)) => {
            varint::lemma_decoded_range(s.skip(n as int));
        },
        None => {},
    }
}

/// Each step leaves less to do.
pub proof fn lemma_step_works(s: StreamModel, hdr_cap: int, data_cap: int)
    ensures
        step(s, hdr_cap, data_cap) matches Step::Go(t, _) ==> work(t) < work(s),
{
    lemma_header_at(s.pending);
}

/// The event of a step, as a list.
pub open spec fn reported(ev: Option<H3Event>) -> Seq<H3Event> {
    match ev {
        Some(e) => seq![e],
        None => Seq::empty(),
    }
}

/// All steps that can be done, the events they report, and how they end.
pub open spec fn advanced(s: StreamModel, hdr_cap: int, data_cap: int) -> (
    StreamModel,
    Seq<H3Event>,
    Result<(), Error>,
)
    decreases work(s),
    via advanced_decreases
{
    match step(s, hdr_cap, data_cap) {
        Step::Stop => (s, Seq::empty(), Ok(())),
        Step::Fail(e) => (s, Seq::empty(), Err(e)),
        Step::Go(t, ev) => {
            let (u, evs, r) = advanced(t, hdr_cap, data_cap);
            (u, reported(ev) + evs, r)
        },
    }
}

#[via_fn]
proof fn advanced_decreases(s: StreamModel, hdr_cap: int, data_cap: int) {
    lemma_step_works(s, hdr_cap, data_cap);
}

/// The stream after more bytes were received.
pub open spec fn with_bytes(s: StreamModel, data: Seq<u8>, fin: bool) -> StreamModel {
    StreamModel { pending: s.pending + data, fin: s.fin || fin, ..s }
}

/// What reading up to `cap` bytes of the body does: the stream goes on with the
/// room that it gained. Returns the stream and the bytes.
pub open spec fn body_taken(s: StreamModel, cap: int, hdr_cap: int, data_cap: int) -> (
    StreamModel,
    Seq<u8>,
) {
    let n = if s.body.len() <= cap {
        s.body.len() as int
    } else {
        cap
    };
    (
        advanced(StreamModel { body: s.body.skip(n), ..s }, hdr_cap, data_cap).0,
        s.body.take(n),
    )
}

/// Stepping cannot go on.
enum Halt {
    Waiting,
    Failed(Error),
}

/// The bytes of `v` from `n` on.
pub(crate) fn rest_of(v: &Vec<u8>, n: usize) -> (r: Vec<u8>)
    requires
        n <= v@.len(),
    ensures
        r@ == v@.skip(n as int),
{
    let total = v.len();
    let r = bytes::to_vec(&v.as_slice()[n..total]);
    assert(r@ =~= v@.skip(n as int));
    r
}

/// The smallest of three lengths.
fn smallest(a: usize, b: u64, c: usize) -> (r: usize)
    ensures
        r == least3(a as int, b as int, c as int),
{
    if a as u64 <= b && a <= c {
        a
    } else if b <= c as u64 {
        b as usize
    } else {
        c
    }
}

impl RequestStreamState {
    /// A stream on which nothing was received.
    pub fn new(stream_id: u64) -> (r: Self)
        ensures
            r@ == fresh_stream(stream_id),
    {
        RequestStreamState {
            stream_id,
            pending: Vec::new(),
            inside: Inside::Nothing,
            block: None,
            body: Vec::new(),
            fin: false,
            ended: false,
        }
    }

    /// Reads the frame header at the front of the pending bytes.
    fn read_header(&self) -> (r: Option<(u64, u64, usize)>)
        ensures
            match header_at(self.pending@) {
                Some((kind, len, n)) => r matches Some((k, l, m)) && k == kind && l == len && m == n
                    && n <= self.pending@.len(),
                None => r is None,
            },
    {
        proof {
            lemma_header_at(self.pending@);
            varint::lemma_decoded_range(self.pending@);
        }
        match varint::decode_varint(self.pending.as_slice()) {
            Ok((kind, n)) => {
                let total = self.pending.len();
                let rest = &self.pending.as_slice()[n..total];
                assert(rest@ =~= self.pending@.skip(n as int));
                match varint::decode_varint(rest) {
                    Ok((len, k)) => Some((kind, len, n + k)),
                    Err(_) => None,
                }
            },
            Err(_) => None,
        }
    }

    /// Does one step. The outer `Err` says that there is none to do.
    fn do_step(&mut self, hdr_cap: usize, data_cap: usize) -> (r: Result<Option<H3Event>, Halt>)
        ensures
            match step(old(self)@, hdr_cap as int, data_cap as int) {
                Step::Stop => r matches Err(Halt::Waiting) && final(self)@ == old(self)@,
                Step::Fail(e) => r matches Err(Halt::Failed(f)) && f == e && final(self)@ == old(
                    self,
                )@,
                Step::Go(t, ev) => r matches Ok(x) && x == ev && final(self)@ == t,
            },
    {
        match self.inside {
            Inside::Data(left) => {
                if left == 0 {
                    self.inside = Inside::Nothing;
                    return Ok(None);
                }
                if self.body.len() >= data_cap {
                    return Err(Halt::Waiting);
                }
                let n = smallest(self.pending.len(), left, data_cap - self.body.len());
                if n == 0 {
                    return Err(Halt::Waiting);
                }
                let taken = &self.pending.as_slice()[0..n];
                assert(taken@ =~= self.pending@.take(n as int));
                bytes::append(&mut self.body, taken);
                self.pending = rest_of(&self.pending, n);
                self.inside = Inside::Data(left - n as u64);
                Ok(Some(H3Event::Data(self.stream_id)))
            },
            Inside::Skipped(left) => {
                if left == 0 {
                    self.inside = Inside::Nothing;
                    return Ok(None);
                }
                let n = smallest(self.pending.len(), left, usize::MAX);
                if n == 0 {
                    return Err(Halt::Waiting);
                }
                self.pending = rest_of(&self.pending, n);
                self.inside = Inside::Skipped(left - n as u64);
                Ok(None)
            },
            Inside::Nothing => {
                let (kind, len, n) = match self.read_header() {
                    Some(h) => h,
                    None => {
                        if self.pending.len() == 0 && self.fin && !self.ended {
                            self.ended = true;
                            return Ok(Some(H3Event::Finished(self.stream_id)));
                        }
                        return Err(Halt::Waiting);
                    },
                };
                if kind == HEADERS_FRAME && self.block.is_none() {
                    if len > hdr_cap as u64 {
                        return Err(
                            Halt::Failed(Error::BufferTooSmall { needed: len as usize }),
                        );
                    }
                    let size = len as usize;
                    if size > self.pending.len() - n {
                        return Err(Halt::Waiting);
                    }
                    let block = bytes::to_vec(&self.pending.as_slice()[n..n + size]);
                    self.pending = rest_of(&self.pending, n + size);
                    self.block = Some(block);
                    return Ok(Some(H3Event::Headers(self.stream_id)));
                }
                self.pending = rest_of(&self.pending, n);
                self.inside = if kind == DATA_FRAME {
                    Inside::Data(len)
                } else {
                    Inside::Skipped(len)
                };
                Ok(None)
            },
        }
    }

    /// Does all steps that can be done and appends what they report to `events`.
    pub fn advance(
        &mut self,
        events: &mut Vec<H3Event>,
        hdr_cap: usize,
        data_cap: usize,
    ) -> (r: Result<(), Error>)
        ensures
            ({
                let (s, evs, res) = advanced(old(self)@, hdr_cap as int, data_cap as int);
                final(self)@ == s && final(events)@ == old(events)@ + evs && r == res
            }),
    {
        let ghost start = self@;
        let ghost base = events@;
        let ghost mut seen: Seq<H3Event> = Seq::empty();
        proof {
            let all = advanced(start, hdr_cap as int, data_cap as int);
            assert(seen + all.1 =~= all.1);
        }
        loop
            invariant
                base + seen == events@,
                base == old(events)@,
                start == old(self)@,
                ({
                    let (s, evs, res) = advanced(start, hdr_cap as int, data_cap as int);
                    let (s1, evs1, res1) = advanced(self@, hdr_cap as int, data_cap as int);
                    s == s1 && evs == seen + evs1 && res == res1
                }),
            decreases work(self@),
        {
            let ghost s0 = self@;
            proof {
                lemma_step_works(s0, hdr_cap as int, data_cap as int);
            }
            match self.do_step(hdr_cap, data_cap) {
                Ok(ev) => {
                    let ghost old_seen = seen;
                    let ghost rest = advanced(self@, hdr_cap as int, data_cap as int).1;
                    proof {
                        seen = seen + reported(ev);
                        assert(old_seen + (reported(ev) + rest) =~= seen + rest);
                    }
                    match ev {
                        Some(e) => {
                            events.push(e);
                        },
                        None => {},
                    }
                    assert(events@ =~= base + seen);
                },
                Err(Halt::Waiting) => {
                    assert(seen + Seq::<H3Event>::empty() =~= seen);
                    return Ok(());
                },
                Err(Halt::Failed(e)) => {
                    assert(seen + Seq::<H3Event>::empty() =~= seen);
                    return Err(e);
                },
            }
        }
    }

    /// Takes more bytes of the stream.
    pub fn receive(&mut self, data: &[u8], fin: bool)
        ensures
            final(self)@ == with_bytes(old(self)@, data@, fin),
    {
        bytes::append(&mut self.pending, data);
        if fin {
            self.fin = true;
        }
    }

    /// The header fields, once the section was received.
    pub fn headers(&self) -> (r: Result<Vec<(Vec<u8>, Vec<u8>)>, Error>)
        ensures
            match self@.block {
                Some(b) => match qpack::decoded(b) {
                    Some(fields) => r matches Ok(list) && qpack::owned_fields(list@) == fields,
                    None => r matches Err(e) && e == Error::InvalidState,
                },
                None => r matches Err(e) && e == Error::WouldBlock,
            },
    {
        match &self.block {
            Some(b) => qpack::decode_section(b.as_slice()),
            None => Err(Error::WouldBlock),
        }
    }

    /// Moves body bytes to the front of `buf`; returns how many.
    pub fn read_body(&mut self, buf: &mut [u8]) -> (n: usize)
        ensures
            n == (if old(self)@.body.len() < old(buf)@.len() {
                old(self)@.body.len()
            } else {
                old(buf)@.len()
            }),
            final(buf)@ == old(self)@.body.take(n as int) + old(buf)@.skip(n as int),
            final(self)@ == (StreamModel { body: old(self)@.body.skip(n as int), ..old(self)@ }),
    {
        let room = buf.len();
        let have = self.body.len();
        let n = if have < room {
            have
        } else {
            room
        };
        bytes::copy_at(buf, 0, &self.body.as_slice()[0..n]);
        assert(buf@ =~= self.body@.take(n as int) + old(buf)@.skip(n as int));
        self.body = rest_of(&self.body, n);
        n
    }
}

} // verus!
