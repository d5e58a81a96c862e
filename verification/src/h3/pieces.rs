//! How the bytes of a stream are cut, and when its body is read, makes no
//! difference to what is read.

use vstd::prelude::*;

use crate::bytes;
use crate::error::Error;
use crate::h3::stream;
use crate::h3::stream::{H3Event, Inside, Step, StreamModel};
use crate::varint;

verus! {

/// The milestones of a stream among some events: its headers and its end.
pub open spec fn milestones(evs: Seq<H3Event>, id: u64) -> Seq<H3Event>
    decreases evs.len(),
{
    if evs.len() == 0 {
        Seq::empty()
    } else {
        let rest = milestones(evs.drop_first(), id);
        if evs[0] == H3Event::Headers(id) || evs[0] == H3Event::Finished(id) {
            seq![evs[0]] + rest
        } else {
            rest
        }
    }
}

/// The milestones of two lists of events are those of the first, then those of
/// the second.
pub proof fn lemma_milestones_add(a: Seq<H3Event>, b: Seq<H3Event>, id: u64)
    ensures
        milestones(a + b, id) == milestones(a, id) + milestones(b, id),
    decreases a.len(),
{
    if a.len() == 0 {
        assert(a + b =~= b);
        assert(milestones(a, id) + milestones(b, id) =~= milestones(b, id));
    } else {
        lemma_milestones_add(a.drop_first(), b, id);
        assert((a + b).drop_first() =~= a.drop_first() + b);
        assert(milestones(a + b, id) =~= milestones(a, id) + milestones(b, id));
    }
}

/// A number at the front of some bytes is the same when more bytes follow.
proof fn lemma_varint_prefix(s: Seq<u8>, d: Seq<u8>)
    ensures
        varint::varint_decoded(s) is Some ==> varint::varint_decoded(s + d)
            == varint::varint_decoded(s),
{
    if s.len() > 0 {
        let n = varint::varint_len_of(s[0]);
        if s.len() >= n {
            assert((s + d).take(n as int) =~= s.take(n as int));
        }
    }
}

/// A frame header is the same when more bytes follow.
pub proof fn lemma_header_prefix(s: Seq<u8>, d: Seq<u8>)
    ensures
        stream::header_at(s) is Some ==> stream::header_at(s + d) == stream::header_at(s),
{
    lemma_varint_prefix(s, d);
    varint::lemma_decoded_range(s);
    match varint::varint_decoded(s) {
        Some((_, n)) => {
            assert((s + d).skip(n as int) =~= s.skip(n as int) + d);
            lemma_varint_prefix(s.skip(n as int), d);
        },
        None => {},
    }
}

/// The stream after `k` bytes of the frame at hand were taken.
spec fn nibbled(s: StreamModel, k: int) -> StreamModel {
    match s.inside {
        Inside::Data(left) => StreamModel {
            pending: s.pending.skip(k),
            body: s.body + s.pending.take(k),
            inside: Inside::Data((left - k) as u64),
            ..s
        },
        Inside::Skipped(left) => StreamModel {
            pending: s.pending.skip(k),
            inside: Inside::Skipped((left - k) as u64),
            ..s
        },
        Inside::Nothing => s,
    }
}

/// How many bytes a step takes of the frame at hand.
spec fn bite(s: StreamModel, data_cap: int) -> int {
    match s.inside {
        Inside::Data(left) => stream::least3(
            s.pending.len() as int,
            left as int,
            data_cap - s.body.len(),
        ),
        Inside::Skipped(left) => stream::least3(s.pending.len() as int, left as int, left as int),
        Inside::Nothing => 0,
    }
}

/// Taking some of the bytes that a step takes, and going on, ends like the step.
proof fn lemma_nibbled(s: StreamModel, k: int, hdr_cap: int, data_cap: int)
    requires
        s.inside != Inside::Nothing,
        0 < k <= bite(s, data_cap),
    ensures
        ({
            let (t, e, r) = stream::advanced(s, hdr_cap, data_cap);
            let (t1, e1, r1) = stream::advanced(nibbled(s, k), hdr_cap, data_cap);
            t == t1 && r == r1 && milestones(e, s.stream_id) == milestones(e1, s.stream_id)
        }),
{
    let n = bite(s, data_cap);
    let id = s.stream_id;
    let part = nibbled(s, k);
    let end = nibbled(s, n);
    let ev = if s.inside is Data {
        Some(H3Event::Data(id))
    } else {
        None
    };
    assert(stream::step(s, hdr_cap, data_cap) == Step::Go(end, ev));
    let after = stream::advanced(end, hdr_cap, data_cap);
    lemma_milestones_add(stream::reported(ev), after.1, id);
    lemma_quiet(ev, id);
    assert(Seq::<H3Event>::empty() + milestones(after.1, id) =~= milestones(after.1, id));
    if k < n {
        assert(nibbled(part, n - k).pending =~= end.pending);
        assert(nibbled(part, n - k).body =~= end.body);
        assert(nibbled(part, n - k) == end);
        assert(bite(part, data_cap) == n - k);
        assert(stream::step(part, hdr_cap, data_cap) == Step::Go(end, ev));
    }
}

/// An event that is not a milestone.
proof fn lemma_quiet(ev: Option<H3Event>, id: u64)
    requires
        ev == Some(H3Event::Data(id)) || ev is None,
    ensures
        milestones(stream::reported(ev), id) == Seq::<H3Event>::empty(),
{
    reveal_with_fuel(milestones, 2);
    match ev {
        Some(e) => {
            assert(stream::reported(ev).drop_first() =~= Seq::<H3Event>::empty());
        },
        None => {},
    }
}

/// Taking the steps that some bytes allow, and then those that further bytes
/// allow, ends like having all the bytes at once.
pub proof fn lemma_more_bytes(s: StreamModel, d: Seq<u8>, fin: bool, hdr_cap: int, data_cap: int)
    requires
        !s.fin,
    ensures
        ({
            let (s1, e1, r1) = stream::advanced(s, hdr_cap, data_cap);
            let (s2, e2, r2) = stream::advanced(
                stream::with_bytes(s1, d, fin),
                hdr_cap,
                data_cap,
            );
            let (t, e, r) = stream::advanced(stream::with_bytes(s, d, fin), hdr_cap, data_cap);
            &&& s1.stream_id == s.stream_id
            &&& !s1.fin
            &&& r1 is Err ==> r == r1
            &&& r1 is Ok ==> t == s2 && r == r2 && milestones(e, s.stream_id) == milestones(
                e1 + e2,
                s.stream_id,
            )
        }),
    decreases stream::work(s),
{
    let id = s.stream_id;
    let w = stream::with_bytes(s, d, fin);
    stream::lemma_step_works(s, hdr_cap, data_cap);
    stream::lemma_header_at(s.pending);
    lemma_header_prefix(s.pending, d);
    let (s1, e1, r1) = stream::advanced(s, hdr_cap, data_cap);
    let (s2, e2, r2) = stream::advanced(stream::with_bytes(s1, d, fin), hdr_cap, data_cap);
    let (t, e, r) = stream::advanced(w, hdr_cap, data_cap);
    match stream::step(s, hdr_cap, data_cap) {
        Step::Stop => {
            assert(e1 + e2 =~= e2);
        },
        Step::Fail(err) => {
            assert(stream::step(w, hdr_cap, data_cap) == Step::Fail(err));
        },
        Step::Go(next, ev) => {
            let w1 = stream::with_bytes(next, d, fin);
            assert(next.stream_id == id);
            assert(!next.fin);
            lemma_more_bytes(next, d, fin, hdr_cap, data_cap);
            let (n1, f1, _) = stream::advanced(next, hdr_cap, data_cap);
            let (u, g, q) = stream::advanced(w1, hdr_cap, data_cap);
            lemma_go_with_more(s, d, fin, hdr_cap, data_cap);
            assert(t == u && r == q);
            lemma_milestones_add(stream::reported(ev), g, id);
            lemma_milestones_add(stream::reported(ev), f1, id);
            lemma_milestones_add(stream::reported(ev) + f1, e2, id);
            lemma_milestones_add(f1, e2, id);
            assert(milestones(stream::reported(ev), id) + (milestones(f1, id) + milestones(e2, id))
                =~= milestones(stream::reported(ev), id) + milestones(f1, id) + milestones(e2, id));
        },
    }
}

/// A step that is possible stays possible when more bytes come, and ends the
/// same.
proof fn lemma_go_with_more(s: StreamModel, d: Seq<u8>, fin: bool, hdr_cap: int, data_cap: int)
    requires
        !s.fin,
        stream::step(s, hdr_cap, data_cap) is Go,
    ensures
        ({
            let w = stream::with_bytes(s, d, fin);
            let (next, ev) = match stream::step(s, hdr_cap, data_cap) {
                Step::Go(next, ev) => (next, ev),
                _ => (s, None),
            };
            let (t, e, r) = stream::advanced(w, hdr_cap, data_cap);
            let (u, g, q) = stream::advanced(
                stream::with_bytes(next, d, fin),
                hdr_cap,
                data_cap,
            );
            &&& t == u
            &&& r == q
            &&& milestones(e, s.stream_id) == milestones(stream::reported(ev) + g, s.stream_id)
        }),
{
    let id = s.stream_id;
    let w = stream::with_bytes(s, d, fin);
    match stream::step(s, hdr_cap, data_cap) {
        Step::Go(next, ev) => {
            let w1 = stream::with_bytes(next, d, fin);
            let g = stream::advanced(w1, hdr_cap, data_cap).1;
            stream::lemma_header_at(s.pending);
            lemma_header_prefix(s.pending, d);
            match s.inside {
                Inside::Nothing => {
                    match stream::header_at(s.pending) {
                        Some((kind, len, n)) => {
                            if kind == stream::HEADERS_FRAME && s.block is None {
                                assert(w.pending.skip(n + len) =~= s.pending.skip(n + len) + d);
                                assert(w.pending.subrange(n, n + len) =~= s.pending.subrange(
                                    n,
                                    n + len,
                                ));
                            } else {
                                assert(w.pending.skip(n) =~= s.pending.skip(n) + d);
                            }
                            assert(stream::step(w, hdr_cap, data_cap) == Step::Go(w1, ev));
                        },
                        None => {},
                    }
                },
                Inside::Data(left) | Inside::Skipped(left) => {
                    if left == 0 {
                        assert(stream::step(w, hdr_cap, data_cap) == Step::Go(w1, ev));
                    } else {
                        let n = bite(s, data_cap);
                        assert(w.pending.skip(n) =~= s.pending.skip(n) + d);
                        assert(w.pending.take(n) =~= s.pending.take(n));
                        assert(nibbled(w, n) == w1);
                        lemma_nibbled(w, n, hdr_cap, data_cap);
                        lemma_milestones_add(stream::reported(ev), g, id);
                        lemma_quiet(ev, id);
                        assert(Seq::<H3Event>::empty() + milestones(g, id) =~= milestones(g, id));
                    }
                },
            }
        },
        _ => {},
    }
}

/// Law: the bytes of a stream may come in one piece or in two. Where the whole is
/// accepted, so are both pieces, and the stream ends in the same state, with the
/// same headers and end reported once; where the whole is refused, one of the
/// pieces is, for the same reason.
pub proof fn law_bytes_in_two_pieces(
    s: StreamModel,
    a: Seq<u8>,
    b: Seq<u8>,
    fin: bool,
    hdr_cap: int,
    data_cap: int,
)
    requires
        !s.fin,
    ensures
        ({
            let (s1, e1, r1) = stream::advanced(
                stream::with_bytes(s, a, false),
                hdr_cap,
                data_cap,
            );
            let (s2, e2, r2) = stream::advanced(
                stream::with_bytes(s1, b, fin),
                hdr_cap,
                data_cap,
            );
            let (t, e, r) = stream::advanced(
                stream::with_bytes(s, a + b, fin),
                hdr_cap,
                data_cap,
            );
            &&& r1 is Err ==> r == r1
            &&& r1 is Ok ==> s2 == t && r2 == r && milestones(e1 + e2, s.stream_id)
                == milestones(e, s.stream_id)
        }),
{
    let first = stream::with_bytes(s, a, false);
    lemma_more_bytes(first, b, fin, hdr_cap, data_cap);
    assert(stream::with_bytes(first, b, fin) =~= stream::with_bytes(s, a + b, fin)) by {
        assert(s.pending + a + b =~= s.pending + (a + b));
    }
}

/// The payload of the DATA frames among `bytes`, which go on at `inside`.
pub open spec fn data_in(inside: Inside, data: Seq<u8>) -> Seq<u8>
    decreases
            data.len(),
            (if inside == Inside::Nothing {
                0int
            } else {
                1int
            }),
{
    match inside {
        Inside::Data(left) => if data.len() <= left {
            data
        } else {
            data.take(left as int) + data_in(Inside::Nothing, data.skip(left as int))
        },
        Inside::Skipped(left) => if data.len() <= left {
            Seq::empty()
        } else {
            data_in(Inside::Nothing, data.skip(left as int))
        },
        Inside::Nothing => match stream::header_at(data) {
            Some((kind, len, n)) => {
                proof {
                    stream::lemma_header_at(data);
                }
                data_in(
                    if kind == stream::DATA_FRAME {
                        Inside::Data(len as u64)
                    } else {
                        Inside::Skipped(len as u64)
                    },
                    data.skip(n),
                )
            },
            None => Seq::empty(),
        },
    }
}

/// Some bytes of the frame at hand, then the rest.
proof fn lemma_data_bite(inside: Inside, bytes: Seq<u8>, n: int)
    requires
        inside matches Inside::Data(left) ==> 0 <= n <= left,
        inside matches Inside::Skipped(left) ==> 0 <= n <= left,
        inside != Inside::Nothing,
        n <= bytes.len(),
    ensures
        inside matches Inside::Data(left) ==> data_in(inside, bytes) == bytes.take(n) + data_in(
            Inside::Data((left - n) as u64),
            bytes.skip(n),
        ),
        inside matches Inside::Skipped(left) ==> data_in(inside, bytes) == data_in(
            Inside::Skipped((left - n) as u64),
            bytes.skip(n),
        ),
{
    match inside {
        Inside::Data(left) => {
            if bytes.len() <= left {
                assert(bytes.take(n) + bytes.skip(n) =~= bytes);
            } else {
                let rest = data_in(Inside::Nothing, bytes.skip(left as int));
                assert(bytes.skip(n).skip(left - n) =~= bytes.skip(left as int));
                assert(bytes.take(n) + bytes.skip(n).take(left - n) =~= bytes.take(left as int));
                assert(bytes.take(n) + (bytes.skip(n).take(left - n) + rest) =~= bytes.take(
                    left as int,
                ) + rest);
            }
        },
        Inside::Skipped(left) => {
            if bytes.len() > left {
                assert(bytes.skip(n).skip(left - n) =~= bytes.skip(left as int));
            }
        },
        Inside::Nothing => {},
    }
}

/// Between frames, or at the end of one, is the same place.
proof fn lemma_data_zero(bytes: Seq<u8>)
    ensures
        data_in(Inside::Data(0), bytes) == data_in(Inside::Nothing, bytes),
        data_in(Inside::Skipped(0), bytes) == data_in(Inside::Nothing, bytes),
{
    assert(bytes.skip(0) =~= bytes);
    assert(bytes.take(0) =~= Seq::<u8>::empty());
    if bytes.len() == 0 {
        assert(stream::header_at(bytes) is None);
        assert(bytes =~= Seq::<u8>::empty());
    } else {
        let rest = data_in(Inside::Nothing, bytes);
        assert(Seq::<u8>::empty() + rest =~= rest);
    }
}

/// A step moves body bytes on and loses none, whatever follows.
proof fn lemma_step_conserves(s: StreamModel, d: Seq<u8>, hdr_cap: int, data_cap: int)
    ensures
        stream::step(s, hdr_cap, data_cap) matches Step::Go(t, _) ==> t.body + data_in(
            t.inside,
            t.pending + d,
        ) == s.body + data_in(s.inside, s.pending + d),
{
    let all = s.pending + d;
    stream::lemma_header_at(s.pending);
    lemma_header_prefix(s.pending, d);
    lemma_data_zero(all);
    match stream::step(s, hdr_cap, data_cap) {
        Step::Go(t, _) => {
            match s.inside {
                Inside::Nothing => {
                    match stream::header_at(s.pending) {
                        Some((kind, len, n)) => {
                            let rest = all.skip(n);
                            if kind == stream::HEADERS_FRAME && s.block is None {
                                assert(t.pending + d =~= rest.skip(len));
                                lemma_data_bite(Inside::Skipped(len as u64), rest, len);
                                lemma_data_zero(rest.skip(len));
                            } else {
                                assert(t.pending + d =~= rest);
                            }
                        },
                        None => {},
                    }
                },
                Inside::Data(left) => {
                    if left > 0 {
                        let n = bite(s, data_cap);
                        lemma_data_bite(s.inside, all, n);
                        assert(all.take(n) =~= s.pending.take(n));
                        assert(all.skip(n) =~= t.pending + d);
                        let rest = data_in(t.inside, t.pending + d);
                        assert(s.body + s.pending.take(n) + rest =~= s.body + (s.pending.take(n)
                            + rest));
                    }
                },
                Inside::Skipped(left) => {
                    if left > 0 {
                        let n = bite(s, data_cap);
                        lemma_data_bite(s.inside, all, n);
                        assert(all.skip(n) =~= t.pending + d);
                    }
                },
            }
        },
        _ => {},
    }
}

/// All steps together move body bytes on and lose none.
pub proof fn lemma_advanced_conserves(s: StreamModel, d: Seq<u8>, hdr_cap: int, data_cap: int)
    ensures
        ({
            let t = stream::advanced(s, hdr_cap, data_cap).0;
            t.body + data_in(t.inside, t.pending + d) == s.body + data_in(s.inside, s.pending + d)
        }),
    decreases stream::work(s),
{
    stream::lemma_step_works(s, hdr_cap, data_cap);
    lemma_step_conserves(s, d, hdr_cap, data_cap);
    match stream::step(s, hdr_cap, data_cap) {
        Step::Go(t, _) => {
            lemma_advanced_conserves(t, d, hdr_cap, data_cap);
        },
        _ => {},
    }
}

/// What happens to a stream on the receiving side.
pub enum Action {
    /// More bytes come, the last ones or not.
    Receive(Seq<u8>, bool),
    /// The application reads up to so many bytes of the body.
    Read(nat),
}

/// What a stream is after an action, with what was read of its body.
pub open spec fn after_action(s: StreamModel, action: Action, hdr_cap: int, data_cap: int) -> (
    StreamModel,
    Seq<u8>,
) {
    match action {
        Action::Receive(data, fin) => (
            stream::advanced(stream::with_bytes(s, data, fin), hdr_cap, data_cap).0,
            Seq::empty(),
        ),
        Action::Read(cap) => stream::body_taken(s, cap as int, hdr_cap, data_cap),
    }
}

/// What a stream is after some actions, with what was read of its body.
pub open spec fn after_actions(
    s: StreamModel,
    actions: Seq<Action>,
    hdr_cap: int,
    data_cap: int,
) -> (StreamModel, Seq<u8>)
    decreases actions.len(),
{
    if actions.len() == 0 {
        (s, Seq::empty())
    } else {
        let (s1, got) = after_action(s, actions[0], hdr_cap, data_cap);
        let (s2, more) = after_actions(s1, actions.drop_first(), hdr_cap, data_cap);
        (s2, got + more)
    }
}

/// The bytes that come with an action.
pub open spec fn bytes_with(action: Action) -> Seq<u8> {
    match action {
        Action::Receive(data, _) => data,
        Action::Read(_) => Seq::empty(),
    }
}

/// All the bytes that come with some actions.
pub open spec fn bytes_of(actions: Seq<Action>) -> Seq<u8>
    decreases actions.len(),
{
    if actions.len() == 0 {
        Seq::empty()
    } else {
        bytes_with(actions[0]) + bytes_of(actions.drop_first())
    }
}

proof fn lemma_regroup(a: Seq<u8>, b: Seq<u8>, c: Seq<u8>, d: Seq<u8>)
    ensures
        a + b + c + d == a + (b + c + d),
{
    assert(a + b + c + d =~= a + (b + c + d));
}

/// One action conserves the body, whatever bytes follow.
proof fn lemma_action_conserves(
    s: StreamModel,
    action: Action,
    later: Seq<u8>,
    hdr_cap: int,
    data_cap: int,
)
    ensures
        ({
            let (t, got) = after_action(s, action, hdr_cap, data_cap);
            got + (t.body + data_in(t.inside, t.pending + later)) == s.body + data_in(
                s.inside,
                s.pending + (bytes_with(action) + later),
            )
        }),
{
    let none = Seq::<u8>::empty();
    match action {
        Action::Receive(data, fin) => {
            let w = stream::with_bytes(s, data, fin);
            lemma_advanced_conserves(w, later, hdr_cap, data_cap);
            assert(w.pending + later =~= s.pending + (data + later));
            let t = stream::advanced(w, hdr_cap, data_cap).0;
            let all = t.body + data_in(t.inside, t.pending + later);
            assert(none + all =~= all);
        },
        Action::Read(cap) => {
            let (t, first) = stream::body_taken(s, cap as int, hdr_cap, data_cap);
            let n = first.len() as int;
            let w = StreamModel { body: s.body.skip(n), ..s };
            lemma_advanced_conserves(w, later, hdr_cap, data_cap);
            assert(none + later =~= later);
            let ahead = data_in(s.inside, s.pending + later);
            assert(first + s.body.skip(n) =~= s.body);
            assert(first + (s.body.skip(n) + ahead) =~= first + s.body.skip(n) + ahead);
        },
    }
}

proof fn lemma_actions_conserve(
    s: StreamModel,
    actions: Seq<Action>,
    d: Seq<u8>,
    hdr_cap: int,
    data_cap: int,
)
    ensures
        ({
            let (t, got) = after_actions(s, actions, hdr_cap, data_cap);
            got + t.body + data_in(t.inside, t.pending + d) == s.body + data_in(
                s.inside,
                s.pending + (bytes_of(actions) + d),
            )
        }),
    decreases actions.len(),
{
    if actions.len() == 0 {
        assert(Seq::<u8>::empty() + s.body =~= s.body);
        assert(bytes_of(actions) + d =~= d);
    } else {
        let rest = actions.drop_first();
        let later = bytes_of(rest) + d;
        let (s1, first) = after_action(s, actions[0], hdr_cap, data_cap);
        lemma_action_conserves(s, actions[0], later, hdr_cap, data_cap);
        lemma_actions_conserve(s1, rest, d, hdr_cap, data_cap);
        let now = bytes_with(actions[0]);
        assert(now + later =~= bytes_of(actions) + d);
        let (t, more) = after_actions(s1, rest, hdr_cap, data_cap);
        lemma_regroup(first, more, t.body, data_in(t.inside, t.pending + d));
    }
}

/// Law: however the bytes of a stream are cut into pieces and whenever its body
/// is read, in portions of any size, nothing of the body is lost, doubled or
/// moved: what was read, what waits to be read and what still stands in the bytes
/// not yet understood are, in this order, the payload of the DATA frames received.
pub proof fn law_body_arrives_intact(
    id: u64,
    actions: Seq<Action>,
    hdr_cap: int,
    data_cap: int,
)
    ensures
        ({
            let (t, got) = after_actions(
                stream::fresh_stream(id),
                actions,
                hdr_cap,
                data_cap,
            );
            got + t.body + data_in(t.inside, t.pending) == data_in(
                Inside::Nothing,
                bytes_of(actions),
            )
        }),
{
    let s = stream::fresh_stream(id);
    let none = Seq::<u8>::empty();
    let (t, got) = after_actions(s, actions, hdr_cap, data_cap);
    lemma_actions_conserve(s, actions, none, hdr_cap, data_cap);
    assert(t.pending + none =~= t.pending);
    assert(s.pending + (bytes_of(actions) + none) =~= bytes_of(actions));
    let all = data_in(Inside::Nothing, bytes_of(actions));
    assert(none + all =~= all);
}

/// Frames one after the other.
pub open spec fn frames(list: Seq<(u64, Seq<u8>)>) -> Seq<u8>
    decreases list.len(),
{
    if list.len() == 0 {
        Seq::empty()
    } else {
        stream::h3_frame(list[0].0, list[0].1) + frames(list.drop_first())
    }
}

/// The payloads of the DATA frames among some frames, one after the other.
pub open spec fn data_payloads(list: Seq<(u64, Seq<u8>)>) -> Seq<u8>
    decreases list.len(),
{
    if list.len() == 0 {
        Seq::empty()
    } else if list[0].0 == stream::DATA_FRAME {
        list[0].1 + data_payloads(list.drop_first())
    } else {
        data_payloads(list.drop_first())
    }
}

/// The header of a frame is read back, whatever follows the frame.
pub proof fn lemma_frame_header(kind: u64, payload: Seq<u8>, tail: Seq<u8>)
    requires
        kind <= varint::MAX_VARINT,
        payload.len() <= varint::MAX_VARINT,
    ensures
        ({
            let all = stream::h3_frame(kind, payload) + tail;
            &&& stream::header_at(all) matches Some((k, len, n))
            &&& k == kind
            &&& len == payload.len()
            &&& 0 <= n <= all.len()
            &&& all.skip(n) == payload + tail
        }),
{
    let all = stream::h3_frame(kind, payload) + tail;
    let a = varint::varint_bytes(kind as int);
    let b = varint::varint_bytes(payload.len() as int);
    varint::lemma_varint_len(kind as int);
    varint::lemma_varint_len(payload.len() as int);
    varint::law_varint_roundtrip(kind as int, b + payload + tail);
    assert(all =~= a + (b + payload + tail));
    varint::law_varint_roundtrip(payload.len() as int, payload + tail);
    assert(all.skip(a.len() as int) =~= b + (payload + tail));
    assert(all.skip((a.len() + b.len()) as int) =~= payload + tail);
}

/// Law: the DATA payload of a list of frames is the payloads of the DATA frames
/// in it, in order.
pub proof fn law_frames_hold_their_payloads(list: Seq<(u64, Seq<u8>)>)
    requires
        forall|i: int|
            0 <= i < list.len() ==> (#[trigger] list[i]).0 <= varint::MAX_VARINT
                && list[i].1.len() <= varint::MAX_VARINT,
    ensures
        data_in(Inside::Nothing, frames(list)) == data_payloads(list),
    decreases list.len(),
{
    if list.len() == 0 {
        assert(stream::header_at(frames(list)) is None);
    } else {
        let (kind, payload) = list[0];
        let rest = list.drop_first();
        assert forall|i: int| 0 <= i < rest.len() implies (#[trigger] rest[i]).0
            <= varint::MAX_VARINT && rest[i].1.len() <= varint::MAX_VARINT by {
            assert(rest[i] == list[i + 1]);
        }
        law_frames_hold_their_payloads(rest);
        lemma_frame_header(kind, payload, frames(rest));
        let after = payload + frames(rest);
        let len = payload.len() as int;
        assert(after.take(len) =~= payload);
        assert(after.skip(len) =~= frames(rest));
        lemma_data_zero(frames(rest));
        if kind == stream::DATA_FRAME {
            lemma_data_bite(Inside::Data(len as u64), after, len);
        } else {
            lemma_data_bite(Inside::Skipped(len as u64), after, len);
        }
    }
}

/// Law: a body of any length, sent in any number of DATA frames behind the
/// headers, arrives intact. However the frames are cut on the way, and in
/// whatever portions the body is read meanwhile, what was read, what waits and
/// what is still to be understood are together the payloads that were sent.
pub proof fn law_large_body_arrives_intact(
    id: u64,
    list: Seq<(u64, Seq<u8>)>,
    actions: Seq<Action>,
    hdr_cap: int,
    data_cap: int,
)
    requires
        forall|i: int|
            0 <= i < list.len() ==> (#[trigger] list[i]).0 <= varint::MAX_VARINT
                && list[i].1.len() <= varint::MAX_VARINT,
        bytes_of(actions) == frames(list),
    ensures
        ({
            let (t, got) = after_actions(
                stream::fresh_stream(id),
                actions,
                hdr_cap,
                data_cap,
            );
            got + t.body + data_in(t.inside, t.pending) == data_payloads(list)
        }),
{
    law_body_arrives_intact(id, actions, hdr_cap, data_cap);
    law_frames_hold_their_payloads(list);
}

/// Law: no body byte is held back. As long as a stream refuses nothing and holds
/// less of the body than it can, all body bytes that came wait to be read.
pub proof fn law_body_is_shown(s: StreamModel, hdr_cap: int, data_cap: int)
    ensures
        ({
            let (t, _, r) = stream::advanced(s, hdr_cap, data_cap);
            r is Ok && t.body.len() < data_cap ==> data_in(t.inside, t.pending).len() == 0
        }),
    decreases stream::work(s),
{
    stream::lemma_step_works(s, hdr_cap, data_cap);
    stream::lemma_header_at(s.pending);
    match stream::step(s, hdr_cap, data_cap) {
        Step::Go(t, _) => {
            law_body_is_shown(t, hdr_cap, data_cap);
        },
        Step::Stop => {
            if s.body.len() < data_cap && s.inside == Inside::Nothing {
                match stream::header_at(s.pending) {
                    Some((kind, len, n)) => {
                        assert(s.pending.skip(n).len() <= len);
                        assert(data_in(Inside::Skipped(len as u64), s.pending.skip(n)).len() == 0);
                    },
                    None => {},
                }
            }
        },
        Step::Fail(_) => {},
    }
}

/// What a stream is after its bytes came in pieces, the last of them the end if
/// `fin`: with the events reported, and whether all were accepted.
pub open spec fn received_in_pieces(
    s: StreamModel,
    pieces: Seq<Seq<u8>>,
    fin: bool,
    hdr_cap: int,
    data_cap: int,
) -> (StreamModel, Seq<H3Event>, Result<(), Error>)
    decreases pieces.len(),
{
    if pieces.len() == 0 {
        (s, Seq::empty(), Ok(()))
    } else {
        let (s1, e1, r1) = stream::advanced(
            stream::with_bytes(s, pieces[0], fin && pieces.len() == 1),
            hdr_cap,
            data_cap,
        );
        match r1 {
            Ok(_) => {
                let (s2, e2, r2) = received_in_pieces(
                    s1,
                    pieces.drop_first(),
                    fin,
                    hdr_cap,
                    data_cap,
                );
                (s2, e1 + e2, r2)
            },
            Err(e) => (s1, e1, Err(e)),
        }
    }
}

/// Law: bytes that are accepted at once are accepted in any pieces, and the
/// stream ends the same, with the same headers and end reported once.
pub proof fn law_bytes_in_any_pieces(
    s: StreamModel,
    pieces: Seq<Seq<u8>>,
    fin: bool,
    hdr_cap: int,
    data_cap: int,
)
    requires
        !s.fin,
        pieces.len() > 0,
        stream::advanced(
            stream::with_bytes(s, bytes::joined(pieces), fin),
            hdr_cap,
            data_cap,
        ).2 is Ok,
    ensures
        ({
            let (t, e, r) = stream::advanced(
                stream::with_bytes(s, bytes::joined(pieces), fin),
                hdr_cap,
                data_cap,
            );
            let (u, f, q) = received_in_pieces(s, pieces, fin, hdr_cap, data_cap);
            u == t && q is Ok && milestones(f, s.stream_id) == milestones(e, s.stream_id)
        }),
    decreases pieces.len(),
{
    let rest = pieces.drop_first();
    let first = pieces[0];
    if rest.len() == 0 {
        assert(bytes::joined(rest).len() == 0);
        assert(bytes::joined(pieces) =~= first);
        let (s1, e1, r1) = stream::advanced(
            stream::with_bytes(s, first, fin),
            hdr_cap,
            data_cap,
        );
        assert(received_in_pieces(s1, rest, fin, hdr_cap, data_cap).1.len() == 0);
        assert(e1 + received_in_pieces(s1, rest, fin, hdr_cap, data_cap).1 =~= e1);
    } else {
        let w = stream::with_bytes(s, first, false);
        law_bytes_in_two_pieces(s, first, bytes::joined(rest), fin, hdr_cap, data_cap);
        lemma_more_bytes(w, bytes::joined(rest), fin, hdr_cap, data_cap);
        let (s1, e1, _) = stream::advanced(w, hdr_cap, data_cap);
        law_bytes_in_any_pieces(s1, rest, fin, hdr_cap, data_cap);
        let e2 = stream::advanced(
            stream::with_bytes(s1, bytes::joined(rest), fin),
            hdr_cap,
            data_cap,
        ).1;
        let f2 = received_in_pieces(s1, rest, fin, hdr_cap, data_cap).1;
        lemma_milestones_add(e1, e2, s.stream_id);
        lemma_milestones_add(e1, f2, s.stream_id);
    }
}

} // verus!
