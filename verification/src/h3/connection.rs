//! What HTTP/3 clients and servers share: a QUIC connection, its request
//! streams and the events that wait to be polled.

use vstd::prelude::*;

use crate::bytes;
use crate::connection;
use crate::connection::handshake_pool::HandshakePool;
use crate::connection::io::{EntryModel, QuicStreamIoBufs};
use crate::connection::{ConnModel, Connection, ConnectionState, Transmit};
use crate::crypto::CryptoProvider;
use crate::error::Error;
use crate::h3::qpack;
use crate::h3::stream;
use crate::h3::stream::{H3Event, RequestStreamState, Segment, SegmentModel, StreamModel};
use crate::transport::Instant;
use crate::varint;

verus! {

/// An HTTP/3 connection. Field sections are sent up to `H3_HDR_BUF` bytes long
/// and taken up to that length; a stream holds up to `H3_DATA_BUF` bytes of
/// body.
pub struct H3Connection<
    C: CryptoProvider,
    const MAX_STREAMS: usize,
    const SENT_PER_SPACE: usize,
    const MAX_CIDS: usize,
    const STREAM_BUF: usize,
    const SEND_QUEUE: usize,
    const H3_HDR_BUF: usize,
    const H3_DATA_BUF: usize,
> {
    pub quic: Connection<C, MAX_STREAMS, SENT_PER_SPACE, MAX_CIDS>,
    pub sio_bufs: QuicStreamIoBufs<STREAM_BUF, SEND_QUEUE>,
    pub request_streams: Vec<RequestStreamState>,
    pub events: Vec<H3Event>,
    /// What the transport received and was not processed yet, in order.
    pub inbox: Vec<Segment>,
}

/// What an [`H3Connection`] holds.
#[verifier::ext_equal]
#[verifier::reject_recursive_types(C)]
pub struct H3Model<C: CryptoProvider> {
    pub quic: ConnModel<C>,
    pub queue: Seq<EntryModel>,
    pub streams: Seq<StreamModel>,
    pub events: Seq<H3Event>,
    pub inbox: Seq<SegmentModel>,
}

/// The sizes that a connection works with.
pub struct Sizes {
    pub max_streams: int,
    pub stream_buf: int,
    pub send_queue: int,
    pub hdr_buf: int,
    pub data_buf: int,
}

/// The position of a request stream at or behind `i`; the length if it is
/// unknown.
pub open spec fn slot_of(streams: Seq<StreamModel>, id: u64, i: int) -> int
    decreases streams.len() - i,
{
    if i < 0 || i >= streams.len() {
        streams.len() as int
    } else if streams[i].stream_id == id {
        i
    } else {
        slot_of(streams, id, i + 1)
    }
}

/// The HEADERS frame of some fields.
pub open spec fn headers_frame(fields: Seq<(Seq<u8>, Seq<u8>)>) -> Seq<u8> {
    stream::h3_frame(stream::HEADERS_FRAME, qpack::section(fields))
}

/// What sending header fields does: the whole frame is queued, or nothing.
pub open spec fn headers_sent<C: CryptoProvider>(
    m: H3Model<C>,
    sizes: Sizes,
    id: u64,
    fields: Seq<(Seq<u8>, Seq<u8>)>,
    end_stream: bool,
) -> (H3Model<C>, Result<(), Error>) {
    let frame = headers_frame(fields);
    if qpack::section(fields).len() > sizes.hdr_buf {
        (m, Err(Error::BufferTooSmall { needed: qpack::section(fields).len() as usize }))
    } else {
        match connection::stream_space(
            m.quic,
            m.queue,
            sizes.stream_buf,
            sizes.send_queue,
            id,
        ) {
            Err(e) => (m, Err(e)),
            Ok(room) => if frame.len() > room {
                (m, Err(Error::WouldBlock))
            } else {
                (queued(m, sizes, id, frame, end_stream), Ok(()))
            },
        }
    }
}

/// The connection after bytes were queued for a stream.
pub open spec fn queued<C: CryptoProvider>(
    m: H3Model<C>,
    sizes: Sizes,
    id: u64,
    data: Seq<u8>,
    fin: bool,
) -> H3Model<C> {
    let (quic, queue, _) = connection::stream_sent(
        m.quic,
        m.queue,
        sizes.stream_buf,
        sizes.send_queue,
        id,
        data,
        fin,
    );
    H3Model { quic, queue, ..m }
}

/// How many of `len` bytes of body go into a DATA frame for which there is
/// `room`; `None` if not even its header does, or none of the bytes.
pub open spec fn data_fit(len: int, room: int) -> Option<int> {
    let header = 1 + varint::varint_size(connection::least(len, room));
    if room < header || (room == header && len > 0) {
        None
    } else {
        Some(connection::least(len, room - header))
    }
}

/// What sending body bytes does: one DATA frame with as many as fit is queued.
/// The stream ends with the last of them.
pub open spec fn data_sent<C: CryptoProvider>(
    m: H3Model<C>,
    sizes: Sizes,
    id: u64,
    data: Seq<u8>,
    end_stream: bool,
) -> (H3Model<C>, Result<usize, Error>) {
    match connection::stream_space(m.quic, m.queue, sizes.stream_buf, sizes.send_queue, id) {
        Err(e) => (m, Err(e)),
        Ok(room) => match data_fit(data.len() as int, room as int) {
            None => (m, Err(Error::WouldBlock)),
            Some(n) => (
                queued(
                    m,
                    sizes,
                    id,
                    stream::h3_frame(stream::DATA_FRAME, data.take(n)),
                    end_stream && n == data.len(),
                ),
                Ok(n as usize),
            ),
        },
    }
}

/// What bytes of a known request stream do.
pub open spec fn fed<C: CryptoProvider>(
    m: H3Model<C>,
    sizes: Sizes,
    i: int,
    data: Seq<u8>,
    fin: bool,
) -> (H3Model<C>, Result<(), Error>) {
    let (s, evs, r) = stream::advanced(
        stream::with_bytes(m.streams[i], data, fin),
        sizes.hdr_buf,
        sizes.data_buf,
    );
    (H3Model { streams: m.streams.update(i, s), events: m.events + evs, ..m }, r)
}

/// What bytes of a stream do. A server takes note of a request stream when its
/// first bytes come; bytes of other streams are passed over.
pub open spec fn stream_fed<C: CryptoProvider>(
    m: H3Model<C>,
    sizes: Sizes,
    is_server: bool,
    id: u64,
    data: Seq<u8>,
    fin: bool,
) -> (H3Model<C>, Result<(), Error>) {
    let i = slot_of(m.streams, id, 0);
    if i < m.streams.len() {
        fed(m, sizes, i, data, fin)
    } else if !is_server || id % 4 != 0 {
        (m, Ok(()))
    } else {
        match connection::stream_accepted(m.quic, sizes.max_streams, id) {
            (quic, Ok(_)) => fed(
                H3Model { quic, streams: m.streams.push(stream::fresh_stream(id)), ..m },
                sizes,
                i,
                data,
                fin,
            ),
            (_, Err(e)) => (m, Err(e)),
        }
    }
}

/// How much there is to process.
pub open spec fn backlog(inbox: Seq<SegmentModel>) -> nat
    decreases inbox.len(),
{
    if inbox.len() == 0 {
        0
    } else {
        inbox[0].data.len() + 1 + backlog(inbox.drop_first())
    }
}

/// The inbox after `n` bytes of its first segment were taken.
pub open spec fn inbox_after(inbox: Seq<SegmentModel>, n: int) -> Seq<SegmentModel> {
    if n == inbox[0].data.len() {
        inbox.drop_first()
    } else {
        inbox.update(0, SegmentModel { data: inbox[0].data.skip(n), ..inbox[0] })
    }
}

/// Taking bytes shortens the backlog.
pub proof fn lemma_backlog(inbox: Seq<SegmentModel>, n: int)
    requires
        inbox.len() > 0,
        0 <= n <= inbox[0].data.len(),
        n > 0 || inbox[0].data.len() == 0,
    ensures
        backlog(inbox_after(inbox, n)) < backlog(inbox),
{
    if n < inbox[0].data.len() {
        let after = inbox_after(inbox, n);
        assert(after.drop_first() =~= inbox.drop_first());
    }
}

/// What processing the inbox does, with room for `room` bytes at a time: its
/// bytes go to their streams in order, until all are taken, one is refused or
/// there is no room to take any.
pub open spec fn processed<C: CryptoProvider>(
    m: H3Model<C>,
    sizes: Sizes,
    is_server: bool,
    room: nat,
) -> (H3Model<C>, Result<(), Error>)
    decreases backlog(m.inbox),
{
    if m.inbox.len() == 0 || (room == 0 && m.inbox[0].data.len() > 0) {
        (m, Ok(()))
    } else {
        let seg = m.inbox[0];
        let n = connection::least(seg.data.len() as int, room as int);
        proof {
            lemma_backlog(m.inbox, n);
        }
        let (m1, r) = stream_fed(
            H3Model { inbox: inbox_after(m.inbox, n), ..m },
            sizes,
            is_server,
            seg.stream_id,
            seg.data.take(n),
            seg.fin && n == seg.data.len(),
        );
        match r {
            Ok(_) => processed(m1, sizes, is_server, room),
            Err(e) => (m1, Err(e)),
        }
    }
}

/// What polling does: the inbox is processed, then the oldest event taken.
pub open spec fn next_polled<C: CryptoProvider>(
    m: H3Model<C>,
    sizes: Sizes,
    is_server: bool,
    room: nat,
) -> (H3Model<C>, Option<H3Event>) {
    event_polled(processed(m, sizes, is_server, room).0)
}

/// What taking the oldest event does.
pub open spec fn event_polled<C: CryptoProvider>(m: H3Model<C>) -> (H3Model<C>, Option<H3Event>) {
    if m.events.len() == 0 {
        (m, None)
    } else {
        (H3Model { events: m.events.drop_first(), ..m }, Some(m.events[0]))
    }
}

/// What reading up to `cap` bytes of a body does: the bytes, and whether they
/// are the last.
pub open spec fn body_read<C: CryptoProvider>(
    m: H3Model<C>,
    sizes: Sizes,
    id: u64,
    cap: int,
) -> (H3Model<C>, Result<(Seq<u8>, bool), Error>) {
    let i = slot_of(m.streams, id, 0);
    if i >= m.streams.len() {
        (m, Err(Error::UnknownStream))
    } else {
        let s = m.streams[i];
        let (t, data) = stream::body_taken(s, cap, sizes.hdr_buf, sizes.data_buf);
        let evs = stream::advanced(
            StreamModel { body: s.body.skip(data.len() as int), ..s },
            sizes.hdr_buf,
            sizes.data_buf,
        ).1;
        (
            H3Model { streams: m.streams.update(i, t), events: m.events + evs, ..m },
            Ok((data, t.ended && t.body.len() == 0)),
        )
    }
}

/// The fields that a stream received.
pub open spec fn headers_read<C: CryptoProvider>(m: H3Model<C>, id: u64) -> Result<
    Seq<(Seq<u8>, Seq<u8>)>,
    Error,
> {
    let i = slot_of(m.streams, id, 0);
    if i >= m.streams.len() {
        Err(Error::UnknownStream)
    } else {
        match m.streams[i].block {
            Some(b) => match qpack::decoded(b) {
                Some(fields) => Ok(fields),
                None => Err(Error::InvalidState),
            },
            None => Err(Error::WouldBlock),
        }
    }
}

/// A stream is found where it stands first.
pub proof fn lemma_slot(streams: Seq<StreamModel>, id: u64, i: int, at: int)
    requires
        0 <= i <= at <= streams.len(),
        at < streams.len() ==> streams[at].stream_id == id,
        forall|j: int| i <= j < at ==> (#[trigger] streams[j]).stream_id != id,
    ensures
        slot_of(streams, id, i) == at,
    decreases at - i,
{
    if i < at {
        lemma_slot(streams, id, i + 1, at);
    }
}

/// A stream that is not found is not there.
pub proof fn lemma_no_slot(streams: Seq<StreamModel>, id: u64, i: int)
    requires
        0 <= i,
        slot_of(streams, id, i) == streams.len(),
    ensures
        forall|j: int| i <= j < streams.len() ==> (#[trigger] streams[j]).stream_id != id,
    decreases streams.len() - i,
{
    if i < streams.len() {
        lemma_no_slot(streams, id, i + 1);
    }
}

/// A smaller number takes no more bytes.
proof fn lemma_size_monotone(a: int, b: int)
    requires
        0 <= a <= b,
    ensures
        1 <= varint::varint_size(a) <= varint::varint_size(b),
{
}

/// Builds a frame.
fn build_frame(kind: u64, payload: &[u8]) -> (r: Vec<u8>)
    requires
        kind <= varint::MAX_VARINT,
        payload@.len() <= varint::MAX_VARINT,
    ensures
        r@ == stream::h3_frame(kind, payload@),
{
    let mut r: Vec<u8> = Vec::new();
    let mut head: [u8; 16] = [0u8; 16];
    let ghost h0 = head@;
    proof {
        varint::lemma_varint_len(kind as int);
        varint::lemma_varint_len(payload@.len() as int);
    }
    let p1 = varint::put_varint(&mut head, 0, kind);
    let p2 = varint::put_varint(&mut head, p1, payload.len() as u64);
    let front = head.as_slice().split_at(p2).0;
    assert(front@ =~= varint::varint_bytes(kind as int) + varint::varint_bytes(
        payload@.len() as int,
    ));
    bytes::append(&mut r, front);
    bytes::append(&mut r, payload);
    assert(r@ =~= stream::h3_frame(kind, payload@));
    r
}

impl<
    C: CryptoProvider,
    const MAX_STREAMS: usize,
    const SENT_PER_SPACE: usize,
    const MAX_CIDS: usize,
    const STREAM_BUF: usize,
    const SEND_QUEUE: usize,
    const H3_HDR_BUF: usize,
    const H3_DATA_BUF: usize,
> View for H3Connection<
    C,
    MAX_STREAMS,
    SENT_PER_SPACE,
    MAX_CIDS,
    STREAM_BUF,
    SEND_QUEUE,
    H3_HDR_BUF,
    H3_DATA_BUF,
> {
    type V = H3Model<C>;

    open spec fn view(&self) -> H3Model<C> {
        H3Model {
            quic: self.quic@,
            queue: self.sio_bufs@,
            streams: Seq::new(self.request_streams@.len(), |i: int| self.request_streams@[i]@),
            events: self.events@,
            inbox: Seq::new(self.inbox@.len(), |i: int| self.inbox@[i]@),
        }
    }
}

impl<
    C: CryptoProvider,
    const MAX_STREAMS: usize,
    const SENT_PER_SPACE: usize,
    const MAX_CIDS: usize,
    const STREAM_BUF: usize,
    const SEND_QUEUE: usize,
    const H3_HDR_BUF: usize,
    const H3_DATA_BUF: usize,
> H3Connection<
    C,
    MAX_STREAMS,
    SENT_PER_SPACE,
    MAX_CIDS,
    STREAM_BUF,
    SEND_QUEUE,
    H3_HDR_BUF,
    H3_DATA_BUF,
> {
    /// The QUIC connection is well-formed, and no buffer is larger than a frame
    /// can be.
    pub open spec fn wf(&self) -> bool {
        &&& self.quic.wf()
        &&& H3_HDR_BUF <= varint::MAX_VARINT
        &&& STREAM_BUF <= varint::MAX_VARINT
    }

    /// The sizes of this connection.
    pub open spec fn sizes() -> Sizes {
        Sizes {
            max_streams: MAX_STREAMS as int,
            stream_buf: STREAM_BUF as int,
            send_queue: SEND_QUEUE as int,
            hdr_buf: H3_HDR_BUF as int,
            data_buf: H3_DATA_BUF as int,
        }
    }

    /// A connection without streams and events.
    pub fn new(quic: Connection<C, MAX_STREAMS, SENT_PER_SPACE, MAX_CIDS>) -> (r: Self)
        requires
            quic.wf(),
            H3_HDR_BUF <= varint::MAX_VARINT,
            STREAM_BUF <= varint::MAX_VARINT,
        ensures
            r.wf(),
            r.quic == quic,
            r@ == (H3Model {
                quic: quic@,
                queue: Seq::empty(),
                streams: Seq::empty(),
                events: Seq::empty(),
                inbox: Seq::empty(),
            }),
    {
        let r = H3Connection {
            quic,
            sio_bufs: QuicStreamIoBufs::new(),
            request_streams: Vec::new(),
            events: Vec::new(),
            inbox: Vec::new(),
        };
        assert(r@.streams =~= Seq::<StreamModel>::empty());
        assert(r@.inbox =~= Seq::<SegmentModel>::empty());
        r
    }

    /// The position of a request stream; the length if it is unknown.
    fn find(&self, id: u64) -> (i: usize)
        ensures
            i == slot_of(self@.streams, id, 0),
            i <= self.request_streams@.len(),
    {
        let mut i: usize = 0;
        while i < self.request_streams.len()
            invariant
                i <= self.request_streams@.len(),
                forall|j: int| 0 <= j < i ==> (#[trigger] self@.streams[j]).stream_id != id,
            decreases self.request_streams@.len() - i,
        {
            if self.request_streams[i].stream_id == id {
                proof {
                    assert(self@.streams[i as int].stream_id == id);
                    lemma_slot(self@.streams, id, 0, i as int);
                }
                return i;
            }
            assert(self@.streams[i as int].stream_id != id);
            i = i + 1;
        }
        proof {
            lemma_slot(self@.streams, id, 0, i as int);
        }
        i
    }

    /// Sends header fields on a stream, as one HEADERS frame.
    pub fn send_headers(
        &mut self,
        stream_id: u64,
        headers: &[(&[u8], &[u8])],
        end_stream: bool,
    ) -> (r: Result<(), Error>)
        requires
            old(self).wf(),
        ensures
            final(self).wf(),
            (final(self)@, r) == headers_sent(
                old(self)@,
                Self::sizes(),
                stream_id,
                qpack::fields_of(headers@),
                end_stream,
            ),
    {
        let block = qpack::encode_section(headers);
        if block.len() > H3_HDR_BUF {
            return Err(Error::BufferTooSmall { needed: block.len() });
        }
        let frame = build_frame(stream::HEADERS_FRAME, block.as_slice());
        let room = match self.quic.stream_room(&self.sio_bufs, stream_id) {
            Ok(n) => n,
            Err(e) => {
                return Err(e);
            },
        };
        if frame.len() > room {
            return Err(Error::WouldBlock);
        }
        let ghost streams = self@.streams;
        match self.quic.stream_send(
            &mut self.sio_bufs,
            stream_id,
            frame.as_slice(),
            end_stream,
        ) {
            Ok(_) => {
                assert(self@.streams =~= streams);
                Ok(())
            },
            Err(e) => Err(e),
        }
    }

    /// Sends body bytes on a stream, as one DATA frame with as many as there is
    /// room for. Returns how many.
    pub fn send_data(&mut self, stream_id: u64, data: &[u8], end_stream: bool) -> (r: Result<
        usize,
        Error,
    >)
        requires
            old(self).wf(),
        ensures
            final(self).wf(),
            (final(self)@, r) == data_sent(
                old(self)@,
                Self::sizes(),
                stream_id,
                data@,
                end_stream,
            ),
    {
        let room = match self.quic.stream_room(&self.sio_bufs, stream_id) {
            Ok(n) => n,
            Err(e) => {
                return Err(e);
            },
        };
        let bound = if data.len() < room {
            data.len()
        } else {
            room
        };
        let header = 1 + varint::varint_len(bound as u64);
        if room < header || (room == header && data.len() > 0) {
            return Err(Error::WouldBlock);
        }
        let n = if data.len() < room - header {
            data.len()
        } else {
            room - header
        };
        let part = data.split_at(n).0;
        assert(part@ =~= data@.take(n as int));
        let frame = build_frame(stream::DATA_FRAME, part);
        proof {
            lemma_size_monotone(n as int, bound as int);
            varint::lemma_varint_len(0);
            varint::lemma_varint_len(n as int);
            assert(frame@.len() <= room);
        }
        let ghost streams = self@.streams;
        let whole = n == data.len();
        match self.quic.stream_send(
            &mut self.sio_bufs,
            stream_id,
            frame.as_slice(),
            end_stream && whole,
        ) {
            Ok(_) => {
                assert(self@.streams =~= streams);
                Ok(n)
            },
            Err(e) => Err(e),
        }
    }

    /// Gives bytes to their stream.
    fn feed_stream(&mut self, is_server: bool, stream_id: u64, data: &[u8], fin: bool) -> (r:
        Result<(), Error>)
        requires
            old(self).wf(),
        ensures
            final(self).wf(),
            (final(self)@, r) == stream_fed(
                old(self)@,
                Self::sizes(),
                is_server,
                stream_id,
                data@,
                fin,
            ),
    {
        let i = self.find(stream_id);
        if i >= self.request_streams.len() {
            if !is_server || stream_id % 4 != 0 {
                return Ok(());
            }
            let ghost inbox = self@.inbox;
            match self.quic.accept_stream(stream_id) {
                Ok(()) => {},
                Err(e) => {
                    return Err(e);
                },
            }
            let ghost before = self@.streams;
            self.request_streams.push(RequestStreamState::new(stream_id));
            assert(self@.streams =~= before.push(stream::fresh_stream(stream_id)));
            assert(self@.inbox =~= inbox);
        }
        let ghost m = self@;
        self.request_streams[i].receive(data, fin);
        let r = self.request_streams[i].advance(&mut self.events, H3_HDR_BUF, H3_DATA_BUF);
        assert(self@.streams =~= m.streams.update(i as int, self@.streams[i as int]));
        assert(self@.inbox =~= m.inbox);
        r
    }

    /// Takes bytes of a stream that the transport received, in order, for
    /// [`Self::process_quic_events`].
    pub fn stream_received(&mut self, stream_id: u64, data: &[u8], fin: bool)
        requires
            old(self).wf(),
        ensures
            final(self).wf(),
            final(self)@ == (H3Model {
                inbox: old(self)@.inbox.push(SegmentModel { stream_id, data: data@, fin }),
                ..old(self)@
            }),
    {
        let ghost m = self@;
        let seg = Segment { stream_id, data: bytes::to_vec(data), fin };
        let ghost model = seg@;
        self.inbox.push(seg);
        assert(self@.inbox =~= m.inbox.push(model));
        assert(self@.streams =~= m.streams);
    }

    /// Takes up to `scratch.len()` bytes off the front of the inbox.
    fn take_piece(&mut self, scratch: &mut [u8]) -> (r: (u64, usize, bool))
        requires
            old(self).wf(),
            old(self)@.inbox.len() > 0,
            old(scratch)@.len() > 0 || old(self)@.inbox[0].data.len() == 0,
        ensures
            final(self).wf(),
            final(scratch)@.len() == old(scratch)@.len(),
            ({
                let seg = old(self)@.inbox[0];
                let n = connection::least(seg.data.len() as int, old(scratch)@.len() as int);
                &&& final(self)@ == (H3Model {
                    inbox: inbox_after(old(self)@.inbox, n),
                    ..old(self)@
                })
                &&& r.0 == seg.stream_id
                &&& r.1 == n
                &&& n <= old(scratch)@.len()
                &&& r.2 == (seg.fin && n == seg.data.len())
                &&& final(scratch)@.take(n) == seg.data.take(n)
            }),
    {
        let ghost m = self@;
        let room = scratch.len();
        let have = self.inbox[0].data.len();
        let n = if have < room {
            have
        } else {
            room
        };
        let id = self.inbox[0].stream_id;
        let fin = self.inbox[0].fin && n == have;
        bytes::copy_at(scratch, 0, &self.inbox[0].data.as_slice()[0..n]);
        assert(scratch@.take(n as int) =~= m.inbox[0].data.take(n as int));
        if n == have {
            let _ = self.inbox.remove(0);
            assert(self@.inbox =~= m.inbox.drop_first());
        } else {
            let rest = stream::rest_of(&self.inbox[0].data, n);
            self.inbox[0] = Segment { stream_id: id, data: rest, fin: self.inbox[0].fin };
            assert(self@.inbox =~= inbox_after(m.inbox, n as int));
        }
        assert(self@.streams =~= m.streams);
        (id, n, fin)
    }

    /// Processes what the transport received, through `scratch`.
    pub fn process_quic_events(&mut self, is_server: bool, scratch: &mut [u8]) -> (r: Result<
        (),
        Error,
    >)
        requires
            old(self).wf(),
        ensures
            final(self).wf(),
            final(scratch)@.len() == old(scratch)@.len(),
            (final(self)@, r) == processed(
                old(self)@,
                Self::sizes(),
                is_server,
                old(scratch)@.len(),
            ),
    {
        let ghost m0 = self@;
        let room = scratch.len();
        while self.inbox.len() > 0
            invariant
                self.wf(),
                room == scratch@.len(),
                scratch@.len() == old(scratch)@.len(),
                m0 == old(self)@,
                processed(m0, Self::sizes(), is_server, room as nat) == processed(
                    self@,
                    Self::sizes(),
                    is_server,
                    room as nat,
                ),
            decreases backlog(self@.inbox),
        {
            let ghost m = self@;
            if room == 0 && self.inbox[0].data.len() > 0 {
                return Ok(());
            }
            proof {
                lemma_backlog(
                    m.inbox,
                    connection::least(m.inbox[0].data.len() as int, room as int),
                );
            }
            let (id, n, fin) = self.take_piece(scratch);
            let piece = scratch.split_at(n).0;
            assert(piece@ =~= scratch@.take(n as int));
            match self.feed_stream(is_server, id, piece, fin) {
                Ok(()) => {},
                Err(e) => {
                    return Err(e);
                },
            }
        }
        Ok(())
    }

    /// Takes note of an event of the transport.
    pub fn transport_event(&mut self, event: H3Event)
        requires
            old(self).wf(),
        ensures
            final(self).wf(),
            final(self)@ == (H3Model { events: old(self)@.events.push(event), ..old(self)@ }),
    {
        let ghost m = self@;
        self.events.push(event);
        assert(self@.streams =~= m.streams);
        assert(self@.inbox =~= m.inbox);
    }

    /// The next event.
    pub fn poll_event(&mut self) -> (r: Option<H3Event>)
        requires
            old(self).wf(),
        ensures
            final(self).wf(),
            (final(self)@, r) == event_polled(old(self)@),
    {
        if self.events.len() == 0 {
            return None;
        }
        let ghost m = self@;
        let e = self.events.remove(0);
        assert(self@.streams =~= m.streams);
        assert(self@.events =~= m.events.drop_first());
        Some(e)
    }

    /// The header fields that a stream received.
    pub fn recv_headers(&self, stream_id: u64) -> (r: Result<Vec<(Vec<u8>, Vec<u8>)>, Error>)
        ensures
            match headers_read(self@, stream_id) {
                Ok(fields) => r matches Ok(list) && qpack::owned_fields(list@) == fields,
                Err(e) => r matches Err(f) && f == e,
            },
    {
        let i = self.find(stream_id);
        if i >= self.request_streams.len() {
            return Err(Error::UnknownStream);
        }
        self.request_streams[i].headers()
    }

    /// Reads body bytes. Returns how many, and whether they are the last.
    pub fn recv_body(&mut self, stream_id: u64, buf: &mut [u8]) -> (r: Result<
        (usize, bool),
        Error,
    >)
        requires
            old(self).wf(),
        ensures
            final(self).wf(),
            ({
                let (m, res) = body_read(
                    old(self)@,
                    Self::sizes(),
                    stream_id,
                    old(buf)@.len() as int,
                );
                &&& final(self)@ == m
                &&& match res {
                    Ok((b, last)) => r == Ok::<(usize, bool), Error>((b.len() as usize, last))
                        && final(buf)@ == b + old(buf)@.skip(b.len() as int),
                    Err(e) => r == Err::<(usize, bool), Error>(e) && final(buf)@ == old(buf)@,
                }
            }),
    {
        let i = self.find(stream_id);
        if i >= self.request_streams.len() {
            return Err(Error::UnknownStream);
        }
        let ghost m = self@;
        let n = self.request_streams[i].read_body(buf);
        let _ = self.request_streams[i].advance(&mut self.events, H3_HDR_BUF, H3_DATA_BUF);
        assert(self@.streams =~= m.streams.update(i as int, self@.streams[i as int]));
        let last = self.request_streams[i].ended && self.request_streams[i].body.len() == 0;
        Ok((n, last))
    }

    /// Build the next outgoing UDP datagram.
    pub fn poll_transmit<'a, const SLOTS: usize, const CRYPTO_BUF: usize>(
        &mut self,
        buf: &'a mut [u8],
        now: Instant,
        pool: &mut HandshakePool<C, SLOTS, CRYPTO_BUF>,
    ) -> (r: Option<Transmit<'a>>)
        requires
            old(self).wf(),
            old(self).quic.numbers_left(),
            old(pool).wf(),
            old(self).quic.slot_ok(old(pool)),
        ensures
            final(self).wf(),
            final(pool).wf(),
            final(self).quic.slot_ok(final(pool)),
            ({
                let p = connection::poll::polled(
                    old(self)@.quic,
                    old(self)@.queue,
                    old(pool)@,
                    old(buf)@.len() as int,
                    CRYPTO_BUF as int,
                    now,
                );
                &&& final(self)@ == (H3Model { quic: p.conn, queue: p.queue, ..old(self)@ })
                &&& final(pool)@ == p.pool
                &&& match p.datagram {
                    Some(d) => r matches Some(t) && t.data@ == d,
                    None => r is None,
                }
            }),
            final(buf)@.len() == old(buf)@.len(),
            old(self)@.quic.state == ConnectionState::Closed ==> final(buf)@ == old(buf)@,
    {
        let ghost m = self@;
        let r = self.quic.poll_transmit(&mut self.sio_bufs, buf, now, pool);
        assert(self@.streams =~= m.streams);
        r
    }
}

} // verus!
