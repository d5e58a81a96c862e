//! What the frames of a packet tell its receiver.

use vstd::prelude::*;

use crate::connection::ack;
use crate::connection::io::EntryModel;
use crate::connection::peer;
use crate::connection::recv_pn;
use crate::connection::laws;
use crate::crypto::Level;
use crate::frame;
use crate::frame::FrameParts;
use crate::transport::recovery;
use crate::varint;

verus! {

/// What a frame tells.
pub enum Told {
    /// Packets were received: ranges of their numbers, the highest first.
    Ack(Seq<(int, int)>),
    /// Handshake bytes from an offset on.
    Crypto(int, Seq<u8>),
    /// Bytes of a stream.
    Stream(EntryModel),
    /// So much may be sent on all streams together.
    MaxData(int),
    /// So much may be sent on a stream.
    MaxStreamData(int, int),
    /// The answer to a challenge.
    PathResponse(Seq<u8>),
    /// The handshake is confirmed.
    HandshakeDone,
    /// The connection is closed with a code, for a frame type, with a reason.
    Close(int, int, Seq<u8>),
}

/// `n` numbers from position `at` on, and the position behind them.
pub open spec fn numbers_at(s: Seq<u8>, at: int, n: nat) -> Option<(Seq<int>, int)>
    decreases n,
{
    if n == 0 {
        Some((Seq::empty(), at))
    } else if at < 0 || at > s.len() {
        None
    } else {
        match varint::varint_decoded(s.skip(at)) {
            None => None,
            Some((v, k)) => match numbers_at(s, at + k, (n - 1) as nat) {
                None => None,
                Some((vs, end)) => Some((seq![v] + vs, end)),
            },
        }
    }
}

/// The ranges that gaps and lengths, in turn, describe below a packet number.
pub open spec fn ranges_below(low: int, flat: Seq<int>) -> Seq<(int, int)>
    decreases flat.len(),
{
    if flat.len() < 2 {
        Seq::empty()
    } else {
        let hi = low - flat[0] - 2;
        let lo = hi - flat[1];
        seq![(lo, hi)] + ranges_below(lo, flat.skip(2))
    }
}

/// The frame at the front of `s`, and how many bytes it takes.
#[verifier::opaque]
pub open spec fn told_at(s: Seq<u8>) -> Option<(Told, int)> {
    if s.len() == 0 {
        None
    } else if s[0] == 0x02 {
        match numbers_at(s, 1, 4) {
            None => None,
            Some((h, p)) => if h[2] < 0 {
                None
            } else {
                match numbers_at(s, p, (2 * h[2]) as nat) {
                    None => None,
                    Some((flat, end)) => Some(
                        (
                            Told::Ack(
                                seq![(h[0] - h[3], h[0])] + ranges_below(h[0] - h[3], flat),
                            ),
                            end,
                        ),
                    ),
                }
            },
        }
    } else if s[0] == 0x06 {
        match numbers_at(s, 1, 2) {
            None => None,
            Some((h, p)) => if h[1] < 0 || p + h[1] > s.len() {
                None
            } else {
                Some((Told::Crypto(h[0], s.subrange(p, p + h[1])), p + h[1]))
            },
        }
    } else if 0x08 <= s[0] <= 0x0f {
        match peer::stream_frame_at(s) {
            None => None,
            Some((e, n)) => Some((Told::Stream(e), n)),
        }
    } else if s[0] == 0x10 {
        match numbers_at(s, 1, 1) {
            None => None,
            Some((h, p)) => Some((Told::MaxData(h[0]), p)),
        }
    } else if s[0] == 0x11 {
        match numbers_at(s, 1, 2) {
            None => None,
            Some((h, p)) => Some((Told::MaxStreamData(h[0], h[1]), p)),
        }
    } else if s[0] == 0x1b {
        if s.len() < 9 {
            None
        } else {
            Some((Told::PathResponse(s.subrange(1, 9)), 9))
        }
    } else if s[0] == 0x1c {
        match numbers_at(s, 1, 3) {
            None => None,
            Some((h, p)) => if h[2] < 0 || p + h[2] > s.len() {
                None
            } else {
                Some((Told::Close(h[0], h[1], s.subrange(p, p + h[2])), p + h[2]))
            },
        }
    } else if s[0] == 0x1e {
        Some((Told::HandshakeDone, 1int))
    } else {
        None
    }
}

/// What the frames of a payload tell, in order; padding tells nothing. `None` if
/// something else is in it.
#[verifier::opaque]
pub open spec fn told_by(s: Seq<u8>) -> Option<Seq<Told>>
    decreases s.len(),
{
    if s.len() == 0 {
        Some(Seq::empty())
    } else if s[0] == 0 {
        told_by(s.skip(1))
    } else {
        match told_at(s) {
            None => None,
            Some((t, n)) => if 0 < n <= s.len() {
                match told_by(s.skip(n)) {
                    None => None,
                    Some(more) => Some(seq![t] + more),
                }
            } else {
                None
            },
        }
    }
}

/// The encodings of numbers begin with that of the first.
proof fn lemma_varints_front(vs: Seq<u64>)
    requires
        vs.len() > 0,
    ensures
        frame::varints(vs) == varint::varint_bytes(vs[0] as int) + frame::varints(vs.drop_first()),
    decreases vs.len(),
{
    if vs.len() == 1 {
        assert(vs.drop_last() =~= Seq::<u64>::empty());
        assert(vs.drop_first() =~= Seq::<u64>::empty());
        assert(Seq::<u8>::empty() + varint::varint_bytes(vs[0] as int) =~= varint::varint_bytes(
            vs[0] as int,
        ) + Seq::<u8>::empty());
    } else {
        lemma_varints_front(vs.drop_last());
        assert(vs.drop_last().drop_first() =~= vs.drop_first().drop_last());
        assert(frame::varints(vs) =~= varint::varint_bytes(vs[0] as int) + frame::varints(
            vs.drop_first(),
        ));
    }
}

/// Numbers as integers.
pub open spec fn as_ints(vs: Seq<u64>) -> Seq<int> {
    Seq::new(vs.len(), |i: int| vs[i] as int)
}

/// Numbers are read back.
proof fn lemma_numbers(s: Seq<u8>, at: int, vs: Seq<u64>, rest: Seq<u8>)
    requires
        0 <= at <= s.len(),
        frame::encodable(vs),
        s.skip(at) == frame::varints(vs) + rest,
    ensures
        numbers_at(s, at, vs.len()) == Some(
            (as_ints(vs), at + frame::varints(vs).len()),
        ),
        at + frame::varints(vs).len() + rest.len() == s.len(),
        s.skip(at + frame::varints(vs).len()) == rest,
    decreases vs.len(),
{
    assert(s.skip(at).len() == s.len() - at);
    if vs.len() == 0 {
        assert(as_ints(vs) =~= Seq::<int>::empty());
        assert(s.skip(at) =~= rest);
    } else {
        let more = vs.drop_first();
        let v = vs[0] as int;
        let b = varint::varint_bytes(v);
        lemma_varints_front(vs);
        assert(vs[0] <= varint::MAX_VARINT);
        assert(s.skip(at) =~= b + (frame::varints(more) + rest));
        varint::law_varint_roundtrip(v, frame::varints(more) + rest);
        varint::lemma_varint_len(v);
        let k = varint::varint_size(v) as int;
        assert(s.skip(at + k) =~= s.skip(at).skip(k));
        assert(s.skip(at).skip(k) =~= frame::varints(more) + rest);
        assert(frame::encodable(more)) by {
            assert forall|i: int| 0 <= i < more.len() implies #[trigger] more[i]
                <= varint::MAX_VARINT by {
                assert(more[i] == vs[i + 1]);
            }
        }
        lemma_numbers(s, at + k, more, rest);
        assert(seq![v] + as_ints(more) =~= as_ints(vs));
    }
}

/// The parts of a frame without numbers behind its body, with something behind it.
proof fn lemma_parts(parts: FrameParts, rest: Seq<u8>)
    requires
        parts.encoding() is Some,
        parts.tail.len() == 0,
    ensures
        ({
            let s = parts.encoding()->0 + rest;
            let p = 1 + frame::varints(parts.head).len() as int;
            &&& s.len() > 0
            &&& s[0] == parts.kind
            &&& numbers_at(s, 1, parts.head.len()) == Some((as_ints(parts.head), p))
            &&& s.skip(p) == parts.body + rest
            &&& parts.encoding()->0.len() == p + parts.body.len()
            &&& p + parts.body.len() + rest.len() == s.len()
            &&& s.subrange(p, p + parts.body.len()) == parts.body
        }),
{
    let b = parts.encoding()->0;
    let s = b + rest;
    let head = frame::varints(parts.head);
    assert(frame::varints(parts.tail) =~= Seq::<u8>::empty());
    assert(b =~= seq![parts.kind] + head + parts.body);
    assert(s.skip(1) =~= head + (parts.body + rest));
    lemma_numbers(s, 1, parts.head, parts.body + rest);
    let p = 1 + head.len() as int;
    assert(s.subrange(p, p + parts.body.len()) =~= parts.body);
}

/// Law: MAX_DATA tells its limit.
pub proof fn law_max_data_tells(max: u64, rest: Seq<u8>)
    requires
        max <= 0x3fff_ffff_ffff_ffff,
    ensures
        ({
            &&& frame::max_data_parts(max).encoding() matches Some(e)
            &&& 2 <= e.len() <= 9
            &&& told_at(e + rest) == Some((Told::MaxData(max as int), e.len() as int))
        }),
{
    reveal(told_at);
    lemma_parts(frame::max_data_parts(max), rest);
    lemma_one_number(max);
}

proof fn lemma_one_number(v: u64)
    ensures
        1 <= frame::varints(seq![v]).len() <= 8,
{
    reveal_with_fuel(frame::varints, 2);
    varint::lemma_varint_len(v as int);
    assert(seq![v].drop_last() =~= Seq::<u64>::empty());
}

/// Law: MAX_STREAM_DATA tells its stream and its limit.
pub proof fn law_max_stream_data_tells(id: u64, max: u64, rest: Seq<u8>)
    requires
        id <= 0x3fff_ffff_ffff_ffff,
        max <= 0x3fff_ffff_ffff_ffff,
    ensures
        ({
            &&& frame::max_stream_data_parts(id, max).encoding() matches Some(e)
            &&& 3 <= e.len() <= 17
            &&& told_at(e + rest) == Some(
                (Told::MaxStreamData(id as int, max as int), e.len() as int),
            )
        }),
{
    reveal(told_at);
    lemma_parts(frame::max_stream_data_parts(id, max), rest);
    lemma_varints_front(seq![id, max]);
    assert(seq![id, max].drop_first() =~= seq![max]);
    lemma_one_number(max);
    varint::lemma_varint_len(id as int);
}

/// Law: CRYPTO tells its offset and its data.
pub proof fn law_crypto_tells(offset: u64, data: Seq<u8>, rest: Seq<u8>)
    requires
        data.len() <= u64::MAX,
    ensures
        frame::crypto_parts(offset, data).encoding() matches Some(e) ==> told_at(e + rest) == Some(
            (Told::Crypto(offset as int, data), e.len() as int),
        ),
{
    reveal(told_at);
    if frame::crypto_parts(offset, data).encoding() is Some {
        lemma_parts(frame::crypto_parts(offset, data), rest);
    }
}

/// Law: CONNECTION_CLOSE tells the code, the frame type and the reason.
pub proof fn law_close_tells(code: u64, kind: u64, reason: Seq<u8>, rest: Seq<u8>)
    requires
        reason.len() <= u64::MAX,
    ensures
        frame::close_parts(false, code, kind, reason).encoding() matches Some(e) ==> told_at(
            e + rest,
        ) == Some((Told::Close(code as int, kind as int, reason), e.len() as int)),
{
    reveal(told_at);
    if frame::close_parts(false, code, kind, reason).encoding() is Some {
        lemma_parts(frame::close_parts(false, code, kind, reason), rest);
    }
}

/// Law: PATH_RESPONSE tells the bytes of the challenge.
pub proof fn law_path_response_tells(data: Seq<u8>, rest: Seq<u8>)
    requires
        data.len() == 8,
    ensures
        ({
            &&& frame::path_response_parts(data).encoding() matches Some(e)
            &&& e.len() == 9
            &&& told_at(e + rest) == Some((Told::PathResponse(data), 9int))
        }),
{
    reveal(told_at);
    let p = frame::path_response_parts(data);
    lemma_parts(p, rest);
    assert(frame::varints(p.head) =~= Seq::<u8>::empty());
}

/// Law: HANDSHAKE_DONE tells just that.
pub proof fn law_handshake_done_tells(rest: Seq<u8>)
    ensures
        ({
            &&& frame::handshake_done_parts().encoding() matches Some(e)
            &&& e.len() == 1
            &&& told_at(e + rest) == Some((Told::HandshakeDone, 1int))
        }),
{
    reveal(told_at);
    let p = frame::handshake_done_parts();
    lemma_parts(p, rest);
    assert(frame::varints(p.head) =~= Seq::<u8>::empty());
}

/// Gaps and lengths, in turn.
pub open spec fn flat(pairs: Seq<(u64, u64)>) -> Seq<u64>
    decreases pairs.len(),
{
    if pairs.len() == 0 {
        Seq::empty()
    } else {
        flat(pairs.drop_last()).push(pairs.last().0).push(pairs.last().1)
    }
}

proof fn lemma_flat(pairs: Seq<(u64, u64)>)
    ensures
        flat(pairs).len() == 2 * pairs.len(),
        ack::pairs_bytes(pairs) == frame::varints(flat(pairs)),
        forall|i: int|
            0 <= i < pairs.len() ==> flat(pairs)[2 * i] == (#[trigger] pairs[i]).0 && flat(
                pairs,
            )[2 * i + 1] == pairs[i].1,
    decreases pairs.len(),
{
    if pairs.len() > 0 {
        let front = pairs.drop_last();
        let (a, b) = pairs.last();
        lemma_flat(front);
        let f = flat(pairs);
        assert(f.drop_last() =~= flat(front).push(a));
        assert(f.drop_last().drop_last() =~= flat(front));
        assert(frame::varints(f) == frame::varints(f.drop_last()) + varint::varint_bytes(b as int));
        assert(frame::varints(f.drop_last()) == frame::varints(flat(front)) + varint::varint_bytes(
            a as int,
        ));
        assert(frame::varints(f) =~= frame::varints(flat(front)) + ack::pair_bytes((a, b)));
        assert forall|i: int| 0 <= i < pairs.len() implies f[2 * i] == (#[trigger] pairs[i]).0
            && f[2 * i + 1] == pairs[i].1 by {
            if i < front.len() {
                assert(front[i] == pairs[i]);
            }
        }
    }
}

/// The highest `k` ranges, the highest first.
pub open spec fn highest(ranges: Seq<(u64, u64)>, k: nat) -> Seq<(int, int)> {
    Seq::new(
        k,
        |j: int|
            (ranges[ranges.len() - 1 - j].0 as int, ranges[ranges.len() - 1 - j].1 as int),
    )
}

/// Whether the numbers at place `j` are the gap and the length of the range `j` + 1
/// places below the one at `i`.
spec fn describes(ranges: Seq<(u64, u64)>, i: int, f: Seq<int>, j: int) -> bool {
    &&& f[2 * j] == ranges[i - j].0 - ranges[i - j - 1].1 - 2
    &&& f[2 * j + 1] == ranges[i - j - 1].1 - ranges[i - j - 1].0
}

/// The pairs of an ACK frame describe the ranges below the highest.
proof fn lemma_ranges_below(ranges: Seq<(u64, u64)>, i: int, k: nat, f: Seq<int>)
    requires
        recv_pn::ranges_wf(ranges),
        0 <= k <= i < ranges.len(),
        f.len() == 2 * k,
        forall|j: int| 0 <= j < k ==> #[trigger] describes(ranges, i, f, j),
    ensures
        ranges_below(ranges[i].0 as int, f) == highest(ranges.take(i), k),
    decreases k,
{
    if k == 0 {
        assert(highest(ranges.take(i), 0) =~= Seq::<(int, int)>::empty());
    } else {
        assert(describes(ranges, i, f, 0));
        let g = f.skip(2);
        assert forall|j: int| 0 <= j < k - 1 implies #[trigger] describes(ranges, i - 1, g, j) by {
            assert(describes(ranges, i, f, j + 1));
            assert(g[2 * j] == f[2 * (j + 1)]);
            assert(g[2 * j + 1] == f[2 * (j + 1) + 1]);
        }
        lemma_ranges_below(ranges, i - 1, (k - 1) as nat, g);
        assert(seq![(ranges[i - 1].0 as int, ranges[i - 1].1 as int)] + highest(
            ranges.take(i - 1),
            (k - 1) as nat,
        ) =~= highest(ranges.take(i), k));
    }
}

/// How many pairs fit, at least, and which they are.
proof fn lemma_fitting(pairs: Seq<(u64, u64)>, room: int)
    ensures
        ack::pairs_that_fit(pairs, room) <= pairs.len(),
        forall|j: int|
            0 <= j < ack::pairs_that_fit(pairs, room) ==> (#[trigger] pairs[j]).0
                <= varint::MAX_VARINT && pairs[j].1 <= varint::MAX_VARINT,
        16 * pairs.len() <= room && (forall|j: int|
            0 <= j < pairs.len() ==> (#[trigger] pairs[j]).0 <= varint::MAX_VARINT && pairs[j].1
                <= varint::MAX_VARINT) ==> ack::pairs_that_fit(pairs, room) == pairs.len(),
        room >= 0 ==> 2 * ack::pairs_that_fit(pairs, room) <= room,
        room >= 0 ==> ack::pairs_bytes(pairs.take(ack::pairs_that_fit(pairs, room) as int)).len()
            <= room,
    decreases pairs.len(),
{
    if pairs.len() > 0 {
        let rest = pairs.drop_first();
        let b = ack::pair_bytes(pairs[0]);
        varint::lemma_varint_len(pairs[0].0 as int);
        varint::lemma_varint_len(pairs[0].1 as int);
        lemma_fitting(rest, room - b.len());
        let n = ack::pairs_that_fit(pairs, room);
        assert forall|j: int| 0 <= j < n implies (#[trigger] pairs[j]).0 <= varint::MAX_VARINT
            && pairs[j].1 <= varint::MAX_VARINT by {
            if j > 0 {
                assert(pairs[j] == rest[j - 1]);
            }
        }
        if forall|j: int|
            0 <= j < pairs.len() ==> (#[trigger] pairs[j]).0 <= varint::MAX_VARINT && pairs[j].1
                <= varint::MAX_VARINT {
            assert(pairs[0].0 <= varint::MAX_VARINT && pairs[0].1 <= varint::MAX_VARINT);
            assert forall|j: int| 0 <= j < rest.len() implies (#[trigger] rest[j]).0
                <= varint::MAX_VARINT && rest[j].1 <= varint::MAX_VARINT by {
                assert(rest[j] == pairs[j + 1]);
            }
        }
        if n > 0 {
            let some = pairs.take(n as int);
            lemma_pairs_split(some);
            assert(some.drop_first() =~= rest.take(n - 1));
        } else {
            assert(pairs.take(0) =~= Seq::<(u64, u64)>::empty());
        }
    } else {
        assert(pairs.take(0) =~= Seq::<(u64, u64)>::empty());
    }
}

proof fn lemma_pairs_split(pairs: Seq<(u64, u64)>)
    requires
        pairs.len() > 0,
    ensures
        ack::pairs_bytes(pairs).len() == ack::pair_bytes(pairs[0]).len() + ack::pairs_bytes(
            pairs.drop_first(),
        ).len(),
    decreases pairs.len(),
{
    if pairs.len() > 1 {
        lemma_pairs_split(pairs.drop_last());
        assert(pairs.drop_last().drop_first() =~= pairs.drop_first().drop_last());
    } else {
        assert(pairs.drop_last() =~= Seq::<(u64, u64)>::empty());
        assert(pairs.drop_first() =~= Seq::<(u64, u64)>::empty());
    }
}

/// The pairs of a level's ranges, by position.
proof fn lemma_pairs_of(ranges: Seq<(u64, u64)>, i: int)
    requires
        recv_pn::ranges_wf(ranges),
        i < ranges.len(),
    ensures
        ack::ack_pairs(ranges, i).len() == if i <= 0 {
            0
        } else {
            i
        },
        forall|j: int|
            0 <= j < i ==> (#[trigger] ack::ack_pairs(ranges, i)[j]).0 == ranges[i - j].0 - ranges[i
                - j - 1].1 - 2 && ack::ack_pairs(ranges, i)[j].1 == ranges[i - j - 1].1 - ranges[i
                - j - 1].0,
    decreases i,
{
    if i > 0 {
        lemma_pairs_of(ranges, i - 1);
        assert forall|j: int| 0 <= j < i implies (#[trigger] ack::ack_pairs(ranges, i)[j]).0
            == ranges[i - j].0 - ranges[i - j - 1].1 - 2 && ack::ack_pairs(ranges, i)[j].1
            == ranges[i - j - 1].1 - ranges[i - j - 1].0 by {
            assert(ranges[i - j - 1].1 + 1 < ranges[i - j].0);
            if j > 0 {
                assert(ack::ack_pairs(ranges, i)[j] == ack::ack_pairs(ranges, i - 1)[j - 1]);
            }
        }
    }
}

/// Law: an ACK frame tells received packets: the highest range, and below it
/// further ranges without leaving one out. Up to 17 ranges are all told; only of
/// more the lowest may be left out.
pub proof fn law_ack_tells(ranges: Seq<(u64, u64)>, rest: Seq<u8>)
    requires
        recv_pn::ranges_wf(ranges),
        ranges.len() > 0,
        ranges.last().1 <= 0x3fff_ffff_ffff_ffff,
    ensures
        ({
            let k = 1 + ack::sent_pairs(ranges).len();
            &&& ack::ack_frame_parts(ranges).encoding() matches Some(e)
            &&& 5 <= e.len() <= 289
            &&& told_at(e + rest) == Some((Told::Ack(highest(ranges, k)), e.len() as int))
            &&& 1 <= k <= ranges.len()
            &&& ranges.len() <= 17 ==> k == ranges.len()
        }),
{
    reveal(told_at);
    let n = ranges.len() - 1;
    let pairs = ack::ack_pairs(ranges, n);
    let some = ack::sent_pairs(ranges);
    let parts = ack::ack_frame_parts(ranges);
    lemma_pairs_of(ranges, n);
    assert forall|j: int| 0 <= j < pairs.len() implies (#[trigger] pairs[j]).0 <= varint::MAX_VARINT
        && pairs[j].1 <= varint::MAX_VARINT by {
        if n - j < n {
            assert(ranges[n - j].1 + 1 < ranges[n].0);
        }
        assert(ranges[n - j].0 <= ranges[n - j].1);
        assert(ranges[n - j - 1].1 + 1 < ranges[n - j].0);
    }
    lemma_fitting(pairs, 256);
    lemma_flat(some);
    laws::law_ack_counts_its_pairs(ranges);
    let f = flat(some);
    assert(frame::encodable(f)) by {
        assert forall|i: int| 0 <= i < f.len() implies #[trigger] f[i] <= varint::MAX_VARINT by {
            let j = i / 2;
            assert(some[j] == pairs[j]);
            assert(f[2 * j] == some[j].0 && f[2 * j + 1] == some[j].1);
        }
    }
    assert(ranges[n].0 <= ranges[n].1);
    let head = parts.head;
    assert(head[0] <= varint::MAX_VARINT && head[1] == 0 && head[2] == some.len() && head[3]
        <= varint::MAX_VARINT);
    assert(frame::encodable(head));
    assert(parts.encoding() is Some);
    lemma_parts(parts, rest);
    let s = parts.encoding()->0 + rest;
    let p = 1 + frame::varints(head).len() as int;
    lemma_numbers(s, p, f, rest);
    lemma_four(head);
    assert(head =~= seq![head[0], head[1], head[2], head[3]]);
    let g = as_ints(f);
    assert forall|j: int| 0 <= j < some.len() implies #[trigger] describes(ranges, n, g, j) by {
        assert(some[j] == pairs[j]);
        assert(f[2 * j] == some[j].0 && f[2 * j + 1] == some[j].1);
    }
    lemma_ranges_below(ranges, n, some.len(), g);
    let h = as_ints(head);
    assert(h[0] - h[3] == ranges[n].0);
    assert(seq![(h[0] - h[3], h[0])] + highest(ranges.take(n), some.len()) =~= highest(
        ranges,
        1 + some.len(),
    ));
}

proof fn lemma_four(vs: Seq<u64>)
    requires
        vs.len() == 4,
    ensures
        4 <= frame::varints(vs).len() <= 32,
{
    reveal_with_fuel(frame::varints, 5);
    varint::lemma_varint_len(vs[0] as int);
    varint::lemma_varint_len(vs[1] as int);
    varint::lemma_varint_len(vs[2] as int);
    varint::lemma_varint_len(vs[3] as int);
    let a = vs.drop_last();
    let b = a.drop_last();
    let c = b.drop_last();
    assert(c.drop_last() =~= Seq::<u64>::empty());
}

/// Whether gaps and lengths, in turn, never lead below zero.
pub open spec fn stays_above(low: int, flat: Seq<int>) -> bool
    decreases flat.len(),
{
    flat.len() < 2 || (low >= flat[0] + 2 + flat[1] && stays_above(
        low - flat[0] - 2 - flat[1],
        flat.skip(2),
    ))
}

proof fn lemma_flat_front(pairs: Seq<(u64, u64)>)
    requires
        pairs.len() > 0,
    ensures
        as_ints(flat(pairs)) == seq![pairs[0].0 as int, pairs[0].1 as int] + as_ints(
            flat(pairs.drop_first()),
        ),
{
    lemma_flat(pairs);
    lemma_flat(pairs.drop_first());
    let f = as_ints(flat(pairs));
    let g = seq![pairs[0].0 as int, pairs[0].1 as int] + as_ints(flat(pairs.drop_first()));
    assert forall|k: int| 0 <= k < f.len() implies #[trigger] f[k] == g[k] by {
        let i = k / 2;
        assert(flat(pairs)[2 * i] == pairs[i].0 && flat(pairs)[2 * i + 1] == pairs[i].1);
        if i > 0 {
            let rest = pairs.drop_first();
            assert(rest[i - 1] == pairs[i]);
            assert(flat(rest)[2 * (i - 1)] == rest[i - 1].0 && flat(rest)[2 * (i - 1) + 1]
                == rest[i - 1].1);
        }
    }
    assert(f =~= g);
}

proof fn lemma_lower(low: u64, pairs: Seq<(u64, u64)>)
    requires
        stays_above(low as int, as_ints(flat(pairs))),
    ensures
        ({
            let got = recovery::lower_ranges(low, pairs);
            let want = ranges_below(low as int, as_ints(flat(pairs)));
            &&& got.len() == pairs.len()
            &&& want.len() == pairs.len()
            &&& forall|i: int|
                0 <= i < got.len() ==> (#[trigger] got[i]).0 == want[i].0 && got[i].1 == want[i].1
        }),
    decreases pairs.len(),
{
    lemma_flat(pairs);
    if pairs.len() > 0 {
        lemma_flat_front(pairs);
        let f = as_ints(flat(pairs));
        let rest = as_ints(flat(pairs.drop_first()));
        assert(f.skip(2) =~= rest);
        let hi = (low - pairs[0].0 - 2) as u64;
        let lo = (hi - pairs[0].1) as u64;
        assert(recovery::minus(hi as int, pairs[0].1 as int) as u64 == lo);
        lemma_lower(lo, pairs.drop_first());
        let got = recovery::lower_ranges(low, pairs);
        let want = ranges_below(low as int, f);
        assert forall|i: int| 0 <= i < got.len() implies (#[trigger] got[i]).0 == want[i].0
            && got[i].1 == want[i].1 by {
            if i > 0 {
                assert(got[i] == recovery::lower_ranges(lo, pairs.drop_first())[i - 1]);
                assert(want[i] == ranges_below(lo as int, rest)[i - 1]);
            }
        }
    }
}

/// Law: an ACK is understood as it is meant: its first range ends at the largest
/// number and reaches down by the first length; each further one ends two and the
/// gap below the one before, and reaches down by its length.
pub proof fn law_ack_is_understood(largest: u64, first: u64, pairs: Seq<(u64, u64)>)
    requires
        first <= largest,
        stays_above(largest - first, as_ints(flat(pairs))),
    ensures
        ({
            let got = recovery::described_ranges(largest, first, pairs);
            let want = seq![(largest - first, largest as int)] + ranges_below(
                largest - first,
                as_ints(flat(pairs)),
            );
            &&& got.len() == 1 + pairs.len()
            &&& want.len() == got.len()
            &&& forall|i: int|
                0 <= i < got.len() ==> (#[trigger] got[i]).0 == want[i].0 && got[i].1 == want[i].1
        }),
{
    let lo = (largest - first) as u64;
    assert(recovery::minus(largest as int, first as int) == largest - first);
    lemma_lower(lo, pairs);
    let got = recovery::described_ranges(largest, first, pairs);
    let want = seq![(largest - first, largest as int)] + ranges_below(
        largest - first,
        as_ints(flat(pairs)),
    );
    assert forall|i: int| 0 <= i < got.len() implies (#[trigger] got[i]).0 == want[i].0 && got[i].1
        == want[i].1 by {
        if i > 0 {
            assert(got[i] == recovery::lower_ranges(lo, pairs)[i - 1]);
            assert(want[i] == ranges_below(lo as int, as_ints(flat(pairs)))[i - 1]);
        }
    }
}

/// Law: what one side acknowledges, the other takes for acknowledged. With all of
/// up to 32 received ranges in an ACK, a packet of that level is taken for
/// acknowledged if and only if its number was received.
pub proof fn law_acknowledged_is_received(
    ranges: Seq<(u64, u64)>,
    p: recovery::SentPacket,
    level: Level,
)
    requires
        recv_pn::ranges_wf(ranges),
        0 < ranges.len() <= 32,
    ensures
        recovery::is_acked(
            p,
            level,
            recovery::acked_ranges(
                ranges.last().1,
                (ranges.last().1 - ranges.last().0) as u64,
                ack::ack_pairs(ranges, ranges.len() - 1),
            ),
        ) <==> p.level == level && recv_pn::holds(ranges, p.pn),
{
    laws::law_ack_roundtrip(ranges);
    let got = ranges.reverse();
    let n = ranges.len();
    if recv_pn::holds(ranges, p.pn) {
        let i = choose|i: int|
            0 <= i < ranges.len() && (#[trigger] ranges[i]).0 <= p.pn <= ranges[i].1;
        assert(got[n - 1 - i] == ranges[i]);
    }
    if recovery::in_ranges(p.pn, got) {
        let i = choose|i: int| 0 <= i < got.len() && (#[trigger] got[i]).0 <= p.pn <= got[i].1;
        assert(ranges[n - 1 - i] == got[i]);
    }
}

/// Law: the largest of some packets is one of them, and none has a higher number.
pub proof fn law_largest_is_largest(s: Seq<recovery::SentPacket>)
    ensures
        s.len() == 0 <==> recovery::largest_of(s) is None,
        recovery::largest_of(s) matches Some(p) ==> s.contains(p) && forall|i: int|
            0 <= i < s.len() ==> (#[trigger] s[i]).pn <= p.pn,
    decreases s.len(),
{
    if s.len() > 0 {
        let front = s.drop_last();
        law_largest_is_largest(front);
        assert forall|i: int| 0 <= i < s.len() implies (#[trigger] s[i]).pn
            <= recovery::largest_of(s)->0.pn by {
            if i < front.len() {
                assert(front[i] == s[i]);
            }
        }
        match recovery::largest_of(front) {
            Some(p) => {
                let i = front.index_of(p);
                assert(s[i] == p);
            },
            None => {},
        }
        assert(s[s.len() - 1] == s.last());
    }
}

} // verus!
