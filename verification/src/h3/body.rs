//! A body that one end sends in parts, the other end reads whole.

use vstd::prelude::*;

use crate::bytes;
use crate::connection::io::EntryModel;
use crate::crypto::CryptoProvider;
use crate::h3::connection as h3;
use crate::h3::connection::{H3Model, Sizes};
use crate::h3::laws;
use crate::h3::pieces;
use crate::h3::pieces::Action;
use crate::h3::qpack;
use crate::h3::stream;
use crate::h3::stream::{Inside, Step, StreamModel};
use crate::varint;

verus! {

/// Parts of a body as DATA frames, for [`pieces::frames`].
pub open spec fn as_data(parts: Seq<Seq<u8>>) -> Seq<(u64, Seq<u8>)> {
    Seq::new(parts.len(), |i: int| (stream::DATA_FRAME, parts[i]))
}

/// Whether each part can be carried by a frame.
pub open spec fn carriable(parts: Seq<Seq<u8>>) -> bool {
    forall|i: int| 0 <= i < parts.len() ==> (#[trigger] parts[i]).len() <= varint::MAX_VARINT
}

proof fn lemma_payloads_of_parts(parts: Seq<Seq<u8>>)
    ensures
        pieces::data_payloads(as_data(parts)) == bytes::joined(parts),
    decreases parts.len(),
{
    if parts.len() > 0 {
        lemma_payloads_of_parts(parts.drop_first());
        assert(as_data(parts).drop_first() =~= as_data(parts.drop_first()));
    }
}

/// Law: the DATA frames of some parts carry the parts, in order, and nothing else.
pub proof fn law_data_frames_carry_parts(parts: Seq<Seq<u8>>)
    requires
        carriable(parts),
    ensures
        pieces::data_in(Inside::Nothing, pieces::frames(as_data(parts))) == bytes::joined(parts),
{
    let list = as_data(parts);
    assert forall|i: int| 0 <= i < list.len() implies (#[trigger] list[i]).0
        <= varint::MAX_VARINT && list[i].1.len() <= varint::MAX_VARINT by {
        assert(parts[i].len() <= varint::MAX_VARINT);
    }
    pieces::law_frames_hold_their_payloads(list);
    lemma_payloads_of_parts(parts);
}

/// The bytes that are queued for a stream.
pub open spec fn queued_bytes(queue: Seq<EntryModel>, id: u64) -> Seq<u8>
    decreases queue.len(),
{
    if queue.len() == 0 {
        Seq::empty()
    } else if queue.last().stream_id == id {
        queued_bytes(queue.drop_last(), id) + queue.last().data
    } else {
        queued_bytes(queue.drop_last(), id)
    }
}

/// What sending a body by several calls does: each hands over some bytes, and
/// says whether they are the last. Returns, besides the connection, what was
/// taken of the bytes of each call that succeeded.
pub open spec fn bodies_sent<C: CryptoProvider>(
    m: H3Model<C>,
    sizes: Sizes,
    id: u64,
    calls: Seq<(Seq<u8>, bool)>,
) -> (H3Model<C>, Seq<Seq<u8>>)
    decreases calls.len(),
{
    if calls.len() == 0 {
        (m, Seq::empty())
    } else {
        let (m1, taken) = bodies_sent(m, sizes, id, calls.drop_last());
        let (data, end) = calls.last();
        let (m2, r) = h3::data_sent(m1, sizes, id, data, end);
        match r {
            Ok(n) => (m2, taken.push(data.take(n as int))),
            Err(_) => (m2, taken),
        }
    }
}

proof fn lemma_frames_push(list: Seq<(u64, Seq<u8>)>, item: (u64, Seq<u8>))
    ensures
        pieces::frames(list.push(item)) == pieces::frames(list) + stream::h3_frame(item.0, item.1),
    decreases list.len(),
{
    let all = list.push(item);
    let f = stream::h3_frame(item.0, item.1);
    if list.len() == 0 {
        assert(all.drop_first() =~= list);
        assert(f + pieces::frames(list) =~= pieces::frames(list) + f);
    } else {
        lemma_frames_push(list.drop_first(), item);
        assert(all.drop_first() =~= list.drop_first().push(item));
        let first = stream::h3_frame(list[0].0, list[0].1);
        assert(first + (pieces::frames(list.drop_first()) + f) =~= first + pieces::frames(
            list.drop_first(),
        ) + f);
    }
}

/// Law: several sends queue, behind what was queued for the stream, one DATA
/// frame after the other, with what was taken by each.
pub proof fn law_bodies_are_queued_in_order<C: CryptoProvider>(
    m: H3Model<C>,
    sizes: Sizes,
    id: u64,
    calls: Seq<(Seq<u8>, bool)>,
)
    requires
        0 <= sizes.stream_buf <= varint::MAX_VARINT,
        sizes.stream_buf <= usize::MAX,
        forall|i: int| 0 <= i < calls.len() ==> (#[trigger] calls[i]).0.len() <= usize::MAX,
    ensures
        ({
            let (after, taken) = bodies_sent(m, sizes, id, calls);
            &&& queued_bytes(after.queue, id) == queued_bytes(m.queue, id) + pieces::frames(
                as_data(taken),
            )
            &&& carriable(taken)
        }),
    decreases calls.len(),
{
    let none = Seq::<u8>::empty();
    if calls.len() == 0 {
        let q = queued_bytes(m.queue, id);
        assert(as_data(Seq::<Seq<u8>>::empty()).len() == 0);
        assert(q + none =~= q);
    } else {
        let front = calls.drop_last();
        assert forall|i: int| 0 <= i < front.len() implies (#[trigger] front[i]).0.len()
            <= usize::MAX by {
            assert(front[i] == calls[i]);
        }
        law_bodies_are_queued_in_order(m, sizes, id, front);
        let (m1, taken) = bodies_sent(m, sizes, id, front);
        let (data, end) = calls.last();
        assert(calls[calls.len() - 1].0.len() <= usize::MAX);
        laws::law_data_goes_out_in_order(m1, sizes, id, data, end);
        let (m2, r) = h3::data_sent(m1, sizes, id, data, end);
        match r {
            Ok(n) => {
                let part = data.take(n as int);
                let f = stream::h3_frame(stream::DATA_FRAME, part);
                assert(as_data(taken.push(part)) =~= as_data(taken).push(
                    (stream::DATA_FRAME, part),
                ));
                lemma_frames_push(as_data(taken), (stream::DATA_FRAME, part));
                let q = queued_bytes(m.queue, id);
                assert(q + pieces::frames(as_data(taken)) + f =~= q + (pieces::frames(
                    as_data(taken),
                ) + f));
                assert forall|i: int| 0 <= i < taken.push(part).len() implies (
                #[trigger] taken.push(part)[i]).len() <= varint::MAX_VARINT by {
                    if i < taken.len() {
                        assert(taken.push(part)[i] == taken[i]);
                    }
                }
            },
            Err(_) => {},
        }
    }
}

/// Whether the bytes of a stream, which go on at `inside`, are whole frames, and
/// the first field section among them, unless one is `known`, fits `hdr_cap`.
pub open spec fn well_framed(known: bool, inside: Inside, data: Seq<u8>, hdr_cap: int) -> bool
    decreases
            data.len(),
            (if inside == Inside::Nothing {
                0int
            } else {
                1int
            }),
{
    match inside {
        Inside::Data(left) | Inside::Skipped(left) => data.len() >= left && well_framed(
            known,
            Inside::Nothing,
            data.skip(left as int),
            hdr_cap,
        ),
        Inside::Nothing => data.len() == 0 || match stream::header_at(data) {
            Some((kind, len, n)) => {
                proof {
                    stream::lemma_header_at(data);
                }
                if kind == stream::HEADERS_FRAME && !known {
                    len <= hdr_cap && n + len <= data.len() && well_framed(
                        true,
                        Inside::Nothing,
                        data.skip(n + len),
                        hdr_cap,
                    )
                } else {
                    well_framed(
                        known,
                        if kind == stream::DATA_FRAME {
                            Inside::Data(len as u64)
                        } else {
                            Inside::Skipped(len as u64)
                        },
                        data.skip(n),
                        hdr_cap,
                    )
                }
            },
            None => false,
        },
    }
}

/// Whether a stream, with `later` still to come, gets whole frames.
pub open spec fn on_track(s: StreamModel, later: Seq<u8>, hdr_cap: int) -> bool {
    &&& well_framed(s.block is Some, s.inside, s.pending + later, hdr_cap)
    &&& s.ended ==> s.fin && s.pending.len() == 0 && s.inside == Inside::Nothing
}

/// A step keeps a stream on its track, and none is refused there.
proof fn lemma_step_on_track(s: StreamModel, later: Seq<u8>, hdr_cap: int, data_cap: int)
    requires
        on_track(s, later, hdr_cap),
    ensures
        stream::step(s, hdr_cap, data_cap) !is Fail,
        stream::step(s, hdr_cap, data_cap) matches Step::Go(t, _) ==> on_track(t, later, hdr_cap)
            && t.fin == s.fin,
{
    let all = s.pending + later;
    stream::lemma_header_at(s.pending);
    pieces::lemma_header_prefix(s.pending, later);
    match s.inside {
        Inside::Nothing => {
            match stream::header_at(s.pending) {
                Some((kind, len, n)) => {
                    assert(s.pending.len() >= 2);
                    match stream::step(s, hdr_cap, data_cap) {
                        Step::Go(t, _) => {
                            if kind == stream::HEADERS_FRAME && s.block is None {
                                assert(t.pending + later =~= all.skip(n + len));
                            } else {
                                assert(t.pending + later =~= all.skip(n));
                            }
                        },
                        _ => {},
                    }
                },
                None => {},
            }
        },
        Inside::Data(left) | Inside::Skipped(left) => {
            match stream::step(s, hdr_cap, data_cap) {
                Step::Go(t, _) => {
                    if left == 0 {
                        assert(all.skip(0) =~= all);
                    } else {
                        let n = s.pending.len() - t.pending.len();
                        assert(t.pending =~= s.pending.skip(n));
                        assert(t.pending + later =~= all.skip(n));
                        assert(all.skip(n).skip(left - n) =~= all.skip(left as int));
                    }
                },
                _ => {},
            }
        },
    }
}

/// All steps keep a stream on its track; at their end there is none to do.
proof fn lemma_advanced_on_track(s: StreamModel, later: Seq<u8>, hdr_cap: int, data_cap: int)
    requires
        on_track(s, later, hdr_cap),
    ensures
        ({
            let (t, _, r) = stream::advanced(s, hdr_cap, data_cap);
            &&& on_track(t, later, hdr_cap)
            &&& t.fin == s.fin
            &&& r is Ok
            &&& stream::step(t, hdr_cap, data_cap) is Stop
        }),
    decreases stream::work(s),
{
    stream::lemma_step_works(s, hdr_cap, data_cap);
    lemma_step_on_track(s, later, hdr_cap, data_cap);
    match stream::step(s, hdr_cap, data_cap) {
        Step::Go(t, _) => {
            lemma_advanced_on_track(t, later, hdr_cap, data_cap);
        },
        _ => {},
    }
}

/// Whether some actions bring bytes.
pub open spec fn brings_bytes(actions: Seq<Action>) -> bool {
    exists|i: int| 0 <= i < actions.len() && (#[trigger] actions[i]) is Receive
}

/// Whether some actions bring the end of the stream.
pub open spec fn brings_end(actions: Seq<Action>) -> bool
    decreases actions.len(),
{
    actions.len() > 0 && (actions[0] matches Action::Receive(_, true) || brings_end(
        actions.drop_first(),
    ))
}

/// Whether no bytes follow the end of the stream.
pub open spec fn end_is_last(actions: Seq<Action>) -> bool
    decreases actions.len(),
{
    actions.len() == 0 || (if actions[0] matches Action::Receive(_, true) {
        !brings_bytes(actions.drop_first())
    } else {
        end_is_last(actions.drop_first())
    })
}

/// Without bytes there is no end.
proof fn lemma_no_bytes(actions: Seq<Action>)
    requires
        !brings_bytes(actions),
    ensures
        !brings_end(actions),
        end_is_last(actions),
        actions.len() > 0 ==> !(actions[0] is Receive) && !brings_bytes(actions.drop_first()),
    decreases actions.len(),
{
    if actions.len() > 0 {
        let rest = actions.drop_first();
        assert(!(actions[0] is Receive));
        assert forall|i: int| 0 <= i < rest.len() implies !((#[trigger] rest[i]) is Receive) by {
            assert(rest[i] == actions[i + 1]);
        }
        lemma_no_bytes(rest);
    }
}

/// What some actions leave of a stream that gets whole frames.
proof fn lemma_actions_on_track(
    s: StreamModel,
    actions: Seq<Action>,
    hdr_cap: int,
    data_cap: int,
)
    requires
        on_track(s, pieces::bytes_of(actions), hdr_cap),
        end_is_last(actions),
        s.fin ==> !brings_bytes(actions),
    ensures
        ({
            let (t, _) = pieces::after_actions(s, actions, hdr_cap, data_cap);
            &&& on_track(t, Seq::empty(), hdr_cap)
            &&& t.fin == (s.fin || brings_end(actions))
            &&& actions.len() > 0 ==> stream::step(t, hdr_cap, data_cap) is Stop
        }),
    decreases actions.len(),
{
    if actions.len() > 0 {
        let rest = actions.drop_first();
        let later = pieces::bytes_of(rest);
        if s.fin {
            lemma_no_bytes(actions);
        }
        let (s1, _) = pieces::after_action(s, actions[0], hdr_cap, data_cap);
        match actions[0] {
            Action::Receive(data, fin) => {
                assert(brings_bytes(actions));
                let w = stream::with_bytes(s, data, fin);
                assert(w.pending + later =~= s.pending + pieces::bytes_of(actions));
                lemma_advanced_on_track(w, later, hdr_cap, data_cap);
                if fin {
                    lemma_no_bytes(rest);
                }
            },
            Action::Read(cap) => {
                let n = stream::body_taken(s, cap as int, hdr_cap, data_cap).1.len() as int;
                let w = StreamModel { body: s.body.skip(n), ..s };
                assert(pieces::bytes_of(actions) =~= later);
                lemma_advanced_on_track(w, later, hdr_cap, data_cap);
            },
        }
        lemma_actions_on_track(s1, rest, hdr_cap, data_cap);
        if rest.len() == 0 {
            assert(pieces::after_actions(s1, rest, hdr_cap, data_cap).0 == s1);
        }
    }
}

/// DATA frames are whole frames.
proof fn lemma_data_well_framed(parts: Seq<Seq<u8>>, hdr_cap: int)
    requires
        carriable(parts),
    ensures
        well_framed(true, Inside::Nothing, pieces::frames(as_data(parts)), hdr_cap),
    decreases parts.len(),
{
    if parts.len() > 0 {
        let rest = parts.drop_first();
        assert forall|i: int| 0 <= i < rest.len() implies (#[trigger] rest[i]).len()
            <= varint::MAX_VARINT by {
            assert(rest[i] == parts[i + 1]);
        }
        lemma_data_well_framed(rest, hdr_cap);
        assert(as_data(parts).drop_first() =~= as_data(rest));
        let tail = pieces::frames(as_data(rest));
        assert(parts[0].len() <= varint::MAX_VARINT);
        pieces::lemma_frame_header(stream::DATA_FRAME, parts[0], tail);
        let all = pieces::frames(as_data(parts));
        assert(all == stream::h3_frame(stream::DATA_FRAME, parts[0]) + tail);
        let len = parts[0].len() as int;
        assert((parts[0] + tail).skip(len) =~= tail);
        assert(well_framed(true, Inside::Data(len as u64), parts[0] + tail, hdr_cap));
    }
}

/// Law: what a read gives back of a write, for a body. A message of some fields
/// and a body in parts is cut on its way in any manner, and read, in portions of
/// any size, at any time. Then, at every moment after all of it came, what was
/// read, what waits and what is still to be understood are together the parts, in
/// order. The end is reported only once nothing of the body is left to read; and
/// once the end came and all that waited was read, it is reported, and the parts
/// were read exactly.
pub proof fn law_body_is_read_whole(
    id: u64,
    fields: Seq<(Seq<u8>, Seq<u8>)>,
    parts: Seq<Seq<u8>>,
    actions: Seq<Action>,
    hdr_cap: int,
    data_cap: int,
)
    requires
        qpack::section(fields).len() <= hdr_cap,
        qpack::section(fields).len() <= varint::MAX_VARINT,
        carriable(parts),
        data_cap > 0,
        end_is_last(actions),
        pieces::bytes_of(actions) == h3::headers_frame(fields) + pieces::frames(as_data(parts)),
    ensures
        ({
            let (t, got) = pieces::after_actions(
                stream::fresh_stream(id),
                actions,
                hdr_cap,
                data_cap,
            );
            &&& got + t.body + pieces::data_in(t.inside, t.pending) == bytes::joined(parts)
            &&& t.ended ==> t.fin && got + t.body == bytes::joined(parts)
            &&& t.ended && t.body.len() == 0 ==> got == bytes::joined(parts)
            &&& brings_end(actions) && t.body.len() == 0 ==> t.ended && got == bytes::joined(parts)
        }),
{
    let block = qpack::section(fields);
    let s = stream::fresh_stream(id);
    let tail = pieces::frames(as_data(parts));
    let all = pieces::bytes_of(actions);
    let (t, got) = pieces::after_actions(s, actions, hdr_cap, data_cap);
    let none = Seq::<u8>::empty();
    // The bytes are whole frames.
    lemma_data_well_framed(parts, hdr_cap);
    pieces::lemma_frame_header(stream::HEADERS_FRAME, block, tail);
    let (_, _, n) = stream::header_at(all)->0;
    let len = block.len() as int;
    assert(all.skip(n) == block + tail);
    assert(all.skip(n + len) =~= tail) by {
        assert(all.skip(n).skip(len) =~= all.skip(n + len));
        assert((block + tail).skip(len) =~= tail);
    }
    assert(all.len() >= n + len) by {
        assert(all.skip(n).len() == block.len() + tail.len());
    }
    assert(well_framed(false, Inside::Nothing, all, hdr_cap));
    assert(s.pending + all =~= all);
    lemma_actions_on_track(s, actions, hdr_cap, data_cap);
    // Their payload is the parts.
    let list = seq![(stream::HEADERS_FRAME, block)] + as_data(parts);
    assert(list.drop_first() =~= as_data(parts));
    assert forall|i: int| 0 <= i < list.len() implies (#[trigger] list[i]).0
        <= varint::MAX_VARINT && list[i].1.len() <= varint::MAX_VARINT by {
        if i > 0 {
            assert(parts[i - 1].len() <= varint::MAX_VARINT);
        }
    }
    assert(pieces::frames(list) == all);
    pieces::law_large_body_arrives_intact(id, list, actions, hdr_cap, data_cap);
    lemma_payloads_of_parts(parts);
    assert(pieces::data_payloads(list) == bytes::joined(parts));
    // At the end nothing is left.
    assert(t.pending + none =~= t.pending);
    if t.ended {
        assert(stream::header_at(t.pending) is None);
        assert(pieces::data_in(t.inside, t.pending) =~= none);
        assert(got + t.body + none =~= got + t.body);
    }
    assert(t.body.len() == 0 ==> got + t.body =~= got);
    if brings_end(actions) && t.body.len() == 0 {
        assert(actions.len() > 0);
        lemma_rest_is_ended(t, hdr_cap, data_cap);
    }
}

/// A stream that got whole frames, to the end, and whose body was read, has
/// nothing left to do but to be over.
proof fn lemma_rest_is_ended(t: StreamModel, hdr_cap: int, data_cap: int)
    requires
        on_track(t, Seq::empty(), hdr_cap),
        t.fin,
        t.body.len() < data_cap,
        stream::step(t, hdr_cap, data_cap) is Stop,
    ensures
        t.ended,
{
    assert(t.pending + Seq::<u8>::empty() =~= t.pending);
    stream::lemma_header_at(t.pending);
}

/// Law: a body that a server sends by several calls, behind its response, is what
/// a client reads. The bytes queued for the stream come in any pieces and are read
/// in portions of any size; once the end came and all that waited was read, the
/// end is reported and what was read is, in order, what the calls took.
pub proof fn law_sent_body_is_read<C: CryptoProvider>(
    from: H3Model<C>,
    from_sizes: Sizes,
    id: u64,
    fields: Seq<(Seq<u8>, Seq<u8>)>,
    calls: Seq<(Seq<u8>, bool)>,
    actions: Seq<Action>,
    hdr_cap: int,
    data_cap: int,
)
    requires
        0 <= from_sizes.stream_buf <= varint::MAX_VARINT,
        from_sizes.stream_buf <= usize::MAX,
        forall|i: int| 0 <= i < calls.len() ==> (#[trigger] calls[i]).0.len() <= usize::MAX,
        queued_bytes(from.queue, id) == h3::headers_frame(fields),
        pieces::bytes_of(actions) == queued_bytes(
            bodies_sent(from, from_sizes, id, calls).0.queue,
            id,
        ),
        qpack::section(fields).len() <= hdr_cap,
        qpack::section(fields).len() <= varint::MAX_VARINT,
        data_cap > 0,
        end_is_last(actions),
    ensures
        ({
            let body = bytes::joined(bodies_sent(from, from_sizes, id, calls).1);
            let (t, got) = pieces::after_actions(
                stream::fresh_stream(id),
                actions,
                hdr_cap,
                data_cap,
            );
            &&& got + t.body + pieces::data_in(t.inside, t.pending) == body
            &&& t.ended && t.body.len() == 0 ==> got == body
            &&& brings_end(actions) && t.body.len() == 0 ==> t.ended && got == body
        }),
{
    law_bodies_are_queued_in_order(from, from_sizes, id, calls);
    let taken = bodies_sent(from, from_sizes, id, calls).1;
    law_body_is_read_whole(id, fields, taken, actions, hdr_cap, data_cap);
}

} // verus!
