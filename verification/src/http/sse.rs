//! Server-Sent Events (SSE) frame formatting.
//!
//! SSE is a plain-text framing for server-to-client push over an ordinary HTTP
//! response (specified in WHATWG HTML "server-sent events"). A stream is a
//! `200` response with `content-type: text/event-stream`, no content-length,
//! and `end_stream = false`, whose body is a sequence of frames pushed as
//! application events occur: HTTP/1.1 delimits the stream by connection close,
//! HTTP/2 by END_STREAM, HTTP/3 by stream FIN.
//!
//! This module only formats frames; subscription tracking and delivery policy
//! (e.g. coalescing on backpressure) are application concerns.

use vstd::prelude::*;
use vstd::string::StringSliceAdditionalSpecFns;

use crate::bytes;
use crate::error::Error;

verus! {

/// Line feed.
pub const LF: u8 = 0x0a;

/// Carriage return.
pub const CR: u8 = 0x0d;

/// `event: `
pub open spec fn event_label() -> Seq<u8> {
    seq![0x65u8, 0x76, 0x65, 0x6e, 0x74, 0x3a, 0x20]
}

/// `data: `
pub open spec fn data_label() -> Seq<u8> {
    seq![0x64u8, 0x61, 0x74, 0x61, 0x3a, 0x20]
}

/// `retry: `
pub open spec fn retry_label() -> Seq<u8> {
    seq![0x72u8, 0x65, 0x74, 0x72, 0x79, 0x3a, 0x20]
}

/// Where the first line feed stands at or behind `k`; the length if there is
/// none.
pub open spec fn next_lf(data: Seq<u8>, k: int) -> int
    decreases data.len() - k,
{
    if k < 0 || k >= data.len() {
        data.len() as int
    } else if data[k] == LF {
        k
    } else {
        next_lf(data, k + 1)
    }
}

/// The next line feed is at hand or the end is.
pub proof fn lemma_next_lf(data: Seq<u8>, k: int)
    requires
        0 <= k <= data.len(),
    ensures
        k <= next_lf(data, k) <= data.len(),
        next_lf(data, k) < data.len() ==> data[next_lf(data, k)] == LF,
        forall|j: int| k <= j < next_lf(data, k) ==> #[trigger] data[j] != LF,
    decreases data.len() - k,
{
    if k < data.len() && data[k] != LF {
        lemma_next_lf(data, k + 1);
    }
}

/// The lines of `data`: the pieces between line feeds, of which there is always
/// one more than line feeds.
pub open spec fn data_lines(data: Seq<u8>) -> Seq<Seq<u8>>
    decreases data.len(),
    via data_lines_decreases
{
    let k = next_lf(data, 0);
    if k >= data.len() {
        seq![data]
    } else {
        seq![data.take(k)] + data_lines(data.skip(k + 1))
    }
}

#[via_fn]
proof fn data_lines_decreases(data: Seq<u8>) {
    lemma_next_lf(data, 0);
}

/// The pieces of text that make up the fields of some lines.
pub open spec fn line_pieces(lines: Seq<Seq<u8>>) -> Seq<Seq<u8>>
    decreases lines.len(),
{
    if lines.len() == 0 {
        Seq::empty()
    } else {
        seq![data_label(), lines[0], seq![LF]] + line_pieces(lines.drop_first())
    }
}

/// The pieces of the field that names an event.
pub open spec fn name_pieces(event: Option<Seq<u8>>) -> Seq<Seq<u8>> {
    match event {
        Some(name) => seq![event_label(), name, seq![LF]],
        None => Seq::empty(),
    }
}

/// The pieces that make up an event's frame, in the order of writing.
pub open spec fn event_pieces(event: Option<Seq<u8>>, data: Seq<u8>) -> Seq<Seq<u8>> {
    name_pieces(event) + line_pieces(data_lines(data)) + seq![seq![LF]]
}

/// The pieces that make up a retry frame.
pub open spec fn retry_pieces(ms: nat) -> Seq<Seq<u8>> {
    seq![retry_label(), decimal(ms), seq![LF, LF]]
}

/// A number in decimal digits, without leading zeros.
pub open spec fn decimal(n: nat) -> Seq<u8>
    decreases n,
{
    if n < 10 {
        seq![(0x30 + n) as u8]
    } else {
        decimal(n / 10).push((0x30 + n % 10) as u8)
    }
}

/// The pieces joined.
pub open spec fn joined(pieces: Seq<Seq<u8>>) -> Seq<u8>
    decreases pieces.len(),
{
    if pieces.len() == 0 {
        Seq::empty()
    } else {
        pieces[0] + joined(pieces.drop_first())
    }
}

/// Two lengths together, up to what a `usize` holds.
pub open spec fn capped_sum(a: nat, b: nat) -> usize {
    if a + b > usize::MAX {
        usize::MAX
    } else {
        (a + b) as usize
    }
}

/// What comes of writing pieces behind `done` bytes into a buffer of `cap`
/// bytes: how far they fit, and how large the buffer would have to be for the
/// first piece that does not.
pub open spec fn outcome(done: nat, pieces: Seq<Seq<u8>>, cap: nat) -> (nat, Option<usize>)
    decreases pieces.len(),
{
    if pieces.len() == 0 {
        (done, None)
    } else if done + pieces[0].len() > cap {
        (done, Some(capped_sum(done, pieces[0].len())))
    } else {
        outcome(done + pieces[0].len(), pieces.drop_first(), cap)
    }
}

/// The buffer and the result after writing `pieces` to the front of `out`.
pub open spec fn written(pieces: Seq<Seq<u8>>, out: Seq<u8>) -> (Seq<u8>, Result<usize, Error>) {
    let (end, short) = outcome(0, pieces, out.len());
    (
        joined(pieces).take(end as int) + out.skip(end as int),
        match short {
            Some(needed) => Err(Error::BufferTooSmall { needed }),
            None => Ok(end as usize),
        },
    )
}

/// Joining takes lists apart.
pub proof fn lemma_joined_add(a: Seq<Seq<u8>>, b: Seq<Seq<u8>>)
    ensures
        joined(a + b) == joined(a) + joined(b),
    decreases a.len(),
{
    if a.len() == 0 {
        assert(a + b =~= b);
        assert(joined(a) + joined(b) =~= joined(b));
    } else {
        assert((a + b).drop_first() =~= a.drop_first() + b);
        lemma_joined_add(a.drop_first(), b);
        assert(a[0] + (joined(a.drop_first()) + joined(b)) =~= a[0] + joined(a.drop_first())
            + joined(b));
    }
}

/// All pieces fit if and only if their joined text does.
pub proof fn lemma_outcome(done: nat, pieces: Seq<Seq<u8>>, cap: nat)
    requires
        done <= cap,
    ensures
        ({
            let (end, short) = outcome(done, pieces, cap);
            &&& done <= end <= cap
            &&& end <= done + joined(pieces).len()
            &&& short is None <==> done + joined(pieces).len() <= cap
            &&& short is None ==> end == done + joined(pieces).len()
        }),
    decreases pieces.len(),
{
    if pieces.len() > 0 && done + pieces[0].len() <= cap {
        lemma_outcome(done + pieces[0].len(), pieces.drop_first(), cap);
    }
}

/// How far writing has come: `done` pieces are in `out`, `rest` are left.
spec fn underway(
    all: Seq<Seq<u8>>,
    rest: Seq<Seq<u8>>,
    base: Seq<u8>,
    out: Seq<u8>,
    off: nat,
) -> bool {
    &&& off <= base.len()
    &&& out.len() == base.len()
    &&& outcome(0, all, base.len()) == outcome(off, rest, base.len())
    &&& joined(all) == out.take(off as int) + joined(rest)
    &&& out.skip(off as int) == base.skip(off as int)
}

/// Writes the next piece.
fn put(
    out: &mut [u8],
    off: &mut usize,
    piece: &[u8],
    Ghost(all): Ghost<Seq<Seq<u8>>>,
    Ghost(rest): Ghost<Seq<Seq<u8>>>,
    Ghost(base): Ghost<Seq<u8>>,
) -> (r: Result<(), Error>)
    requires
        underway(all, rest, base, old(out)@, *old(off) as nat),
        rest.len() > 0,
        rest[0] == piece@,
    ensures
        match r {
            Ok(_) => underway(all, rest.drop_first(), base, final(out)@, *final(off) as nat),
            Err(e) => written(all, base) == (final(out)@, Err::<usize, Error>(e)),
        },
{
    let total = out.len();
    if piece.len() > total - *off {
        proof {
            let end = *off as int;
            assert(joined(all).take(end) =~= out@.take(end));
            assert(out@ =~= out@.take(end) + out@.skip(end));
        }
        return Err(Error::BufferTooSmall { needed: (*off).saturating_add(piece.len()) });
    }
    let ghost before = out@;
    let end = bytes::put_slice(out, *off, piece);
    proof {
        bytes::lemma_skip_eq(before, base, *off as int, end as int);
        assert(before.take(*off as int) + (piece@ + joined(rest.drop_first())) =~= before.take(
            *off as int,
        ) + piece@ + joined(rest.drop_first()));
    }
    *off = end;
    Ok(())
}

/// What was written is what was to be written.
proof fn lemma_finished(all: Seq<Seq<u8>>, base: Seq<u8>, out: Seq<u8>, off: nat)
    requires
        underway(all, Seq::empty(), base, out, off),
    ensures
        written(all, base) == (out, Ok::<usize, Error>(off as usize)),
{
    assert(joined(all) =~= out.take(off as int));
    assert(joined(all).take(off as int) =~= out.take(off as int));
    assert(out =~= out.take(off as int) + out.skip(off as int));
}

/// Nothing is written yet.
proof fn lemma_begun(all: Seq<Seq<u8>>, base: Seq<u8>)
    ensures
        underway(all, all, base, base, 0),
{
    assert(joined(all) =~= base.take(0) + joined(all));
}

/// Writes one `data:` field per line and the blank line that ends the frame.
fn put_lines(
    out: &mut [u8],
    start: usize,
    data: &[u8],
    Ghost(all): Ghost<Seq<Seq<u8>>>,
    Ghost(base): Ghost<Seq<u8>>,
) -> (r: Result<usize, Error>)
    requires
        underway(
            all,
            line_pieces(data_lines(data@)) + seq![seq![LF]],
            base,
            old(out)@,
            start as nat,
        ),
    ensures
        written(all, base) == (final(out)@, r),
{
    let label: [u8; 6] = [0x64u8, 0x61, 0x74, 0x61, 0x3a, 0x20];
    let lf: [u8; 1] = [LF];
    assert(label@ =~= data_label());
    assert(lf@ =~= seq![LF]);
    let mut off: usize = start;
    let mut from: usize = 0;
    let mut more = true;
    let total = data.len();
    let ghost ending: Seq<Seq<u8>> = seq![seq![LF]];
    let ghost mut rest: Seq<Seq<u8>> = line_pieces(data_lines(data@)) + ending;
    assert(data@.skip(0) =~= data@);
    while more
        invariant
            total == data@.len(),
            from <= total,
            label@ == data_label(),
            lf@ == seq![LF],
            ending == seq![seq![LF]],
            rest == (if more {
                line_pieces(data_lines(data@.skip(from as int))) + ending
            } else {
                ending
            }),
            underway(all, rest, base, out@, off as nat),
        decreases total - from + (if more {
            1int
        } else {
            0int
        }),
    {
        let ghost tail = data@.skip(from as int);
        let ghost lines = data_lines(tail);
        let mut to: usize = from;
        assert(tail.skip(0) =~= tail);
        while to < total && data[to] != LF
            invariant
                total == data@.len(),
                from <= to <= total,
                tail == data@.skip(from as int),
                next_lf(tail, 0) == next_lf(tail, to - from),
            decreases total - to,
        {
            to = to + 1;
        }
        let line = &data[from..to];
        proof {
            assert(next_lf(tail, 0) == to - from);
            assert(line@ =~= tail.take(to - from));
            if to == total {
                assert(tail.take(to - from) =~= tail);
                assert(lines.drop_first() =~= Seq::<Seq<u8>>::empty());
            } else {
                assert(tail.skip(to - from + 1) =~= data@.skip(to + 1));
                assert(lines.drop_first() =~= data_lines(data@.skip(to + 1)));
            }
            assert(lines[0] == line@);
            assert(rest =~= seq![data_label(), line@, seq![LF]] + (line_pieces(lines.drop_first())
                + ending));
        }
        let ghost r0 = rest;
        let ghost after = line_pieces(lines.drop_first()) + ending;
        match put(out, &mut off, label.as_slice(), Ghost(all), Ghost(r0), Ghost(base)) {
            Ok(()) => {},
            Err(e) => {
                return Err(e);
            },
        }
        match put(out, &mut off, line, Ghost(all), Ghost(r0.drop_first()), Ghost(base)) {
            Ok(()) => {},
            Err(e) => {
                return Err(e);
            },
        }
        match put(
            out,
            &mut off,
            lf.as_slice(),
            Ghost(all),
            Ghost(r0.drop_first().drop_first()),
            Ghost(base),
        ) {
            Ok(()) => {},
            Err(e) => {
                return Err(e);
            },
        }
        proof {
            assert(r0.drop_first().drop_first().drop_first() =~= after);
            rest = after;
        }
        if to == total {
            more = false;
            proof {
                assert(after =~= ending);
            }
        } else {
            from = to + 1;
        }
    }
    match put(out, &mut off, lf.as_slice(), Ghost(all), Ghost(rest), Ghost(base)) {
        Ok(()) => {},
        Err(e) => {
            return Err(e);
        },
    }
    proof {
        assert(rest.drop_first() =~= Seq::<Seq<u8>>::empty());
        lemma_finished(all, base, out@, off as nat);
    }
    Ok(off)
}

/// The bytes of an event name.
pub open spec fn name_bytes(event: Option<&str>) -> Option<Seq<u8>> {
    match event {
        Some(name) => Some(name.spec_bytes()),
        None => None,
    }
}

/// Format a single SSE frame into `out`, returning the number of bytes
/// written.
///
/// `event` becomes an `event: <name>` field (browsers dispatch it to
/// `addEventListener(name)`); `None` sends a plain `message` event. `data`
/// may contain newlines - each line is emitted as its own `data:` field, and
/// the client reassembles them with `\n` per the SSE spec, so arbitrary text
/// round-trips. A trailing blank line terminates the frame.
///
/// Returns [`Error::BufferTooSmall`] if the frame does not fit; nothing
/// partial should be sent in that case.
pub fn format_event(event: Option<&str>, data: &str, out: &mut [u8]) -> (r: Result<usize, Error>)
    ensures
        ({
            let pieces = event_pieces(name_bytes(event), data.spec_bytes());
            &&& written(pieces, old(out)@) == (final(out)@, r)
            &&& r is Ok <==> joined(pieces).len() <= old(out)@.len()
            &&& r matches Ok(n) ==> n == joined(pieces).len() && final(out)@ == joined(pieces)
                + old(out)@.skip(n as int)
        }),
{
    let ghost base = out@;
    let ghost lines = line_pieces(data_lines(data.spec_bytes())) + seq![seq![LF]];
    let ghost all = event_pieces(name_bytes(event), data.spec_bytes());
    let total = out.len();
    proof {
        lemma_begun(all, base);
        lemma_outcome(0, all, base.len());
        assert(joined(all).take(joined(all).len() as int) =~= joined(all));
    }
    let mut off: usize = 0;
    match event {
        Some(name) => {
            let label: [u8; 7] = [0x65u8, 0x76, 0x65, 0x6e, 0x74, 0x3a, 0x20];
            let lf: [u8; 1] = [LF];
            assert(label@ =~= event_label());
            assert(lf@ =~= seq![LF]);
            assert(all =~= seq![event_label(), name.spec_bytes(), seq![LF]] + lines);
            match put(out, &mut off, label.as_slice(), Ghost(all), Ghost(all), Ghost(base)) {
                Ok(()) => {},
                Err(e) => {
                    return Err(e);
                },
            }
            let ghost r1 = all.drop_first();
            match put(out, &mut off, name.as_bytes(), Ghost(all), Ghost(r1), Ghost(base)) {
                Ok(()) => {},
                Err(e) => {
                    return Err(e);
                },
            }
            let ghost r2 = r1.drop_first();
            match put(out, &mut off, lf.as_slice(), Ghost(all), Ghost(r2), Ghost(base)) {
                Ok(()) => {},
                Err(e) => {
                    return Err(e);
                },
            }
            assert(r2.drop_first() =~= lines);
        },
        None => {
            assert(all =~= lines);
        },
    }
    put_lines(out, off, data.as_bytes(), Ghost(all), Ghost(base))
}

/// Writes `n` in decimal digits to the end of `digits`; returns where they
/// start.
fn put_decimal(n: u32, digits: &mut [u8; 10]) -> (start: usize)
    ensures
        start < 10,
        final(digits)@.skip(start as int) == decimal(n as nat),
{
    let mut left: u32 = n;
    let mut pos: usize = 9;
    digits[9] = 0x30 + (left % 10) as u8;
    left = left / 10;
    proof {
        assert(digits@.skip(9) =~= seq![(0x30 + n % 10) as u8]);
        if left > 0 {
            assert(decimal(n as nat) =~= decimal(left as nat) + digits@.skip(9));
        } else {
            assert(decimal(n as nat) =~= digits@.skip(9));
        }
    }
    while left > 0
        invariant
            pos <= 9,
            digits@.len() == 10,
            pos == 9 ==> left < 0x1999_999a,
            pos == 8 ==> left < 42_949_673,
            pos == 7 ==> left < 4_294_968,
            pos == 6 ==> left < 429_497,
            pos == 5 ==> left < 42_950,
            pos == 4 ==> left < 4_295,
            pos == 3 ==> left < 430,
            pos == 2 ==> left < 43,
            pos == 1 ==> left < 5,
            pos == 0 ==> left == 0,
            decimal(n as nat) == (if left > 0 {
                decimal(left as nat) + digits@.skip(pos as int)
            } else {
                digits@.skip(pos as int)
            }),
        decreases left,
    {
        let ghost before = digits@;
        let ghost l0 = left;
        pos = pos - 1;
        digits[pos] = 0x30 + (left % 10) as u8;
        left = left / 10;
        proof {
            let d = (0x30 + l0 % 10) as u8;
            assert(digits@.skip(pos as int) =~= seq![d] + before.skip(pos + 1));
            if left > 0 {
                assert(decimal(l0 as nat) == decimal(left as nat).push(d));
                assert(decimal(l0 as nat) + before.skip(pos + 1) =~= decimal(left as nat)
                    + digits@.skip(pos as int));
            } else {
                assert(decimal(l0 as nat) == seq![d]);
            }
        }
    }
    pos
}

/// Format a `retry: <ms>` frame, instructing the client how long to wait
/// before reconnecting after the stream drops.
pub fn format_retry(retry_ms: u32, out: &mut [u8]) -> (r: Result<usize, Error>)
    ensures
        ({
            let pieces = retry_pieces(retry_ms as nat);
            &&& written(pieces, old(out)@) == (final(out)@, r)
            &&& r is Ok <==> joined(pieces).len() <= old(out)@.len()
            &&& r matches Ok(n) ==> n == joined(pieces).len() && final(out)@ == joined(pieces)
                + old(out)@.skip(n as int)
        }),
{
    let ghost base = out@;
    let ghost all = retry_pieces(retry_ms as nat);
    let total = out.len();
    proof {
        lemma_begun(all, base);
        lemma_outcome(0, all, base.len());
        assert(joined(all).take(joined(all).len() as int) =~= joined(all));
    }
    let label: [u8; 7] = [0x72u8, 0x65, 0x74, 0x72, 0x79, 0x3a, 0x20];
    let ending: [u8; 2] = [LF, LF];
    assert(label@ =~= retry_label());
    assert(ending@ =~= seq![LF, LF]);
    let mut digits: [u8; 10] = [0u8; 10];
    let start = put_decimal(retry_ms, &mut digits);
    let mut off: usize = 0;
    match put(out, &mut off, label.as_slice(), Ghost(all), Ghost(all), Ghost(base)) {
        Ok(()) => {},
        Err(e) => {
            return Err(e);
        },
    }
    let ghost r1 = all.drop_first();
    let number = digits.as_slice().split_at(start).1;
    assert(number@ =~= digits@.skip(start as int));
    match put(out, &mut off, number, Ghost(all), Ghost(r1), Ghost(base)) {
        Ok(()) => {},
        Err(e) => {
            return Err(e);
        },
    }
    let ghost r2 = r1.drop_first();
    match put(out, &mut off, ending.as_slice(), Ghost(all), Ghost(r2), Ghost(base)) {
        Ok(()) => {},
        Err(e) => {
            return Err(e);
        },
    }
    proof {
        assert(r2.drop_first() =~= Seq::<Seq<u8>>::empty());
        lemma_finished(all, base, out@, off as nat);
    }
    Ok(off)
}

} // verus!
