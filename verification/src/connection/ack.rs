//! ACK frames.

use vstd::prelude::*;

use crate::connection::recv_pn;
use crate::connection::{ConnModel, Connection};
use crate::crypto::{self, CryptoProvider, Level};
use crate::frame::{self, AckFrame, Frame, FrameParts};
use crate::varint;

verus! {

/// How many bytes of gap/range pairs an ACK frame carries at most.
pub const ACK_PAIRS_CAP: usize = 256;

/// The gap/range pairs for the ranges below position `i`, highest first: the gap
/// counts the numbers missing between two ranges, less one.
pub open spec fn ack_pairs(ranges: Seq<(u64, u64)>, i: int) -> Seq<(u64, u64)>
    decreases i,
{
    if i <= 0 {
        Seq::empty()
    } else {
        let gap = (ranges[i].0 - ranges[i - 1].1 - 2) as u64;
        let len = (ranges[i - 1].1 - ranges[i - 1].0) as u64;
        seq![(gap, len)] + ack_pairs(ranges, i - 1)
    }
}

/// The encoding of a gap/range pair.
pub open spec fn pair_bytes(pair: (u64, u64)) -> Seq<u8> {
    varint::varint_bytes(pair.0 as int) + varint::varint_bytes(pair.1 as int)
}

/// How many of the pairs, from the first on, can be encoded in `room` bytes.
pub open spec fn pairs_that_fit(pairs: Seq<(u64, u64)>, room: int) -> nat
    decreases pairs.len(),
{
    if pairs.len() == 0 || pairs[0].0 > varint::MAX_VARINT || pairs[0].1 > varint::MAX_VARINT
        || pair_bytes(pairs[0]).len() > room {
        0
    } else {
        1 + pairs_that_fit(pairs.drop_first(), room - pair_bytes(pairs[0]).len())
    }
}

/// The encodings of the pairs, one after the other.
pub open spec fn pairs_bytes(pairs: Seq<(u64, u64)>) -> Seq<u8>
    decreases pairs.len(),
{
    if pairs.len() == 0 {
        Seq::empty()
    } else {
        pairs_bytes(pairs.drop_last()) + pair_bytes(pairs.last())
    }
}

/// The pairs of an ACK frame for the ranges: as many as fit. A range is described
/// by a gap/range pair, so that a pair goes in whole or not at all.
pub open spec fn sent_pairs(ranges: Seq<(u64, u64)>) -> Seq<(u64, u64)> {
    let pairs = ack_pairs(ranges, ranges.len() - 1);
    pairs.take(pairs_that_fit(pairs, ACK_PAIRS_CAP as int) as int)
}

/// The ACK frame for the received ranges.
pub open spec fn ack_frame_parts(ranges: Seq<(u64, u64)>) -> FrameParts {
    let top = ranges.last();
    frame::ack_parts(top.1, 0, (top.1 - top.0) as u64, pairs_bytes(sent_pairs(ranges)), None)
}

/// What an ACK for the ranges writes into `room` bytes, if anything.
pub open spec fn ack_frame(ranges: Seq<(u64, u64)>, room: int) -> Option<Seq<u8>> {
    if ranges.len() == 0 {
        None
    } else {
        frame::fitted(ack_frame_parts(ranges), room)
    }
}

proof fn lemma_pair_len(pair: (u64, u64))
    ensures
        pair_bytes(pair).len() == varint::varint_size(pair.0 as int) + varint::varint_size(
            pair.1 as int,
        ),
        2 <= pair_bytes(pair).len() <= 16,
{
    varint::lemma_varint_len(pair.0 as int);
    varint::lemma_varint_len(pair.1 as int);
}

/// The pairs below a position, one by one.
proof fn lemma_ack_pairs(ranges: Seq<(u64, u64)>, i: int)
    ensures
        ack_pairs(ranges, i).len() == if i <= 0 {
            0
        } else {
            i
        },
        forall|k: int|
            #![trigger ack_pairs(ranges, i)[k]]
            0 <= k < i ==> ack_pairs(ranges, i)[k] == (
                (ranges[i - k].0 - ranges[i - k - 1].1 - 2) as u64,
                (ranges[i - k - 1].1 - ranges[i - k - 1].0) as u64,
            ),
    decreases i,
{
    if i > 0 {
        lemma_ack_pairs(ranges, i - 1);
        assert forall|k: int|
            #![trigger ack_pairs(ranges, i)[k]]
            0 <= k < i implies ack_pairs(ranges, i)[k] == (
            (ranges[i - k].0 - ranges[i - k - 1].1 - 2) as u64,
            (ranges[i - k - 1].1 - ranges[i - k - 1].0) as u64,
        ) by {
            if k > 0 {
                assert(ack_pairs(ranges, i)[k] == ack_pairs(ranges, i - 1)[k - 1]);
            }
        }
    }
}

/// Counting fitting pairs may be split after any number of fitting ones.
proof fn lemma_fit_split(pairs: Seq<(u64, u64)>, k: int, used: int, room: int)
    requires
        0 <= k <= pairs.len(),
        forall|j: int|
            0 <= j < k ==> (#[trigger] pairs[j]).0 <= varint::MAX_VARINT && pairs[j].1
                <= varint::MAX_VARINT,
        used == pairs_bytes(pairs.take(k)).len(),
        used <= room,
    ensures
        pairs_that_fit(pairs, room) == k + pairs_that_fit(pairs.skip(k), room - used),
    decreases k,
{
    if k == 0 {
        assert(pairs.skip(0) =~= pairs);
    } else {
        let rest = pairs.drop_first();
        let first = pair_bytes(pairs[0]);
        lemma_pairs_front(pairs.take(k));
        assert(pairs.take(k).drop_first() =~= rest.take(k - 1));
        assert forall|j: int| 0 <= j < k - 1 implies (#[trigger] rest[j]).0 <= varint::MAX_VARINT
            && rest[j].1 <= varint::MAX_VARINT by {
            assert(rest[j] == pairs[j + 1]);
        }
        lemma_fit_split(rest, k - 1, used - first.len(), room - first.len());
        assert(rest.skip(k - 1) =~= pairs.skip(k));
    }
}

/// The encoding of pairs begins with that of the first.
proof fn lemma_pairs_front(pairs: Seq<(u64, u64)>)
    requires
        pairs.len() > 0,
    ensures
        pairs_bytes(pairs) == pair_bytes(pairs[0]) + pairs_bytes(pairs.drop_first()),
    decreases pairs.len(),
{
    if pairs.len() == 1 {
        assert(pairs.drop_last() =~= Seq::<(u64, u64)>::empty());
        assert(pairs.drop_first() =~= Seq::<(u64, u64)>::empty());
        assert(Seq::<u8>::empty() + pair_bytes(pairs[0]) =~= pair_bytes(pairs[0])
            + Seq::<u8>::empty());
    } else {
        lemma_pairs_front(pairs.drop_last());
        assert(pairs.drop_last().drop_first() =~= pairs.drop_first().drop_last());
        assert(pairs_bytes(pairs) =~= pair_bytes(pairs[0]) + pairs_bytes(pairs.drop_first()));
    }
}

/// When all pairs fit, all are sent.
proof fn lemma_pairs_end(pairs: Seq<(u64, u64)>, k: int, used: int)
    requires
        0 <= k <= pairs.len(),
        forall|j: int|
            0 <= j < k ==> (#[trigger] pairs[j]).0 <= varint::MAX_VARINT && pairs[j].1
                <= varint::MAX_VARINT,
        used == pairs_bytes(pairs.take(k)).len(),
        used <= ACK_PAIRS_CAP,
    ensures
        k == pairs.len() ==> pairs_that_fit(pairs, ACK_PAIRS_CAP as int) == k,
{
    lemma_fit_split(pairs, k, used, ACK_PAIRS_CAP as int);
    if k == pairs.len() {
        assert(pairs.skip(k).len() == 0);
    }
}

/// What a level's pending acknowledgment contributes to a packet: the ACK frame,
/// after which none is due.
pub open spec fn ack_part<C: CryptoProvider>(m: ConnModel<C>, level: Level, room: int) -> (
    ConnModel<C>,
    Seq<u8>,
) {
    let i = crypto::level_number(level);
    if m.ack_due[i] {
        match ack_frame(m.received[i], room) {
            Some(b) => (ConnModel { ack_due: m.ack_due.update(i, false), ..m }, b),
            None => (m, Seq::empty()),
        }
    } else {
        (m, Seq::empty())
    }
}

impl<
    C: CryptoProvider,
    const MAX_STREAMS: usize,
    const SENT_PER_SPACE: usize,
    const MAX_CIDS: usize,
> Connection<C, MAX_STREAMS, SENT_PER_SPACE, MAX_CIDS> {
    /// Build an ACK frame for the given level.
    ///
    /// The QUIC ACK frame encodes ranges from highest to lowest:
    ///   - `largest_ack` = the highest received packet number
    ///   - `first_ack_range` = `largest_ack - <start of highest range>`
    ///   - then for each subsequent range (descending) a gap/range pair, as many
    ///     whole pairs as fit
    pub fn build_ack_frame(&self, level: Level, buf: &mut [u8]) -> (r: Option<usize>)
        requires
            self.wf(),
        ensures
            final(buf)@.len() == old(buf)@.len(),
            match ack_frame(
                self@.received[crypto::level_number(level)],
                old(buf)@.len() as int,
            ) {
                Some(b) => r == Some(b.len() as usize) && final(buf)@ == b + old(buf)@.skip(
                    b.len() as int,
                ),
                None => r is None && final(buf)@ == old(buf)@,
            },
    {
        let idx = crypto::level_index(level);
        let ranges = self.recv_pn_tracker[idx].ranges.as_slice();
        let ghost rs = ranges@;
        assert(rs == self@.received[crypto::level_number(level)]);
        let range_count = ranges.len();
        if range_count == 0 {
            return None;
        }
        let (highest_start, highest_end) = ranges[range_count - 1];
        assert(rs.last() == (highest_start, highest_end));
        let ghost pairs = ack_pairs(rs, rs.len() - 1);
        proof {
            lemma_ack_pairs(rs, rs.len() - 1);
        }
        let mut range_buf: [u8; 256] = [0u8; 256];
        let mut range_pos: usize = 0;
        let mut prev_smallest = highest_start;
        let mut i: usize = range_count - 1;
        proof {
            assert(pairs.take(0) =~= Seq::<(u64, u64)>::empty());
            assert(range_buf@.take(0) =~= Seq::<u8>::empty());
        }
        while i > 0
            invariant_except_break
                prev_smallest == rs[i as int].0,
                range_pos <= 256,
                range_buf@.take(range_pos as int) == pairs_bytes(pairs.take(range_count - 1 - i)),
                i == 0 ==> pairs_that_fit(pairs, 256) == pairs.len(),
            invariant
                i <= range_count - 1,
                ranges@ == rs,
                range_count == rs.len(),
                rs.len() <= 32,
                recv_pn::ranges_wf(rs),
                pairs == ack_pairs(rs, rs.len() - 1),
                pairs.len() == rs.len() - 1,
                forall|k: int|
                    #![trigger pairs[k]]
                    0 <= k < rs.len() - 1 ==> pairs[k] == (
                        (rs[rs.len() - 1 - k].0 - rs[rs.len() - 2 - k].1 - 2) as u64,
                        (rs[rs.len() - 2 - k].1 - rs[rs.len() - 2 - k].0) as u64,
                    ),
                forall|j: int|
                    0 <= j < range_count - 1 - i ==> (#[trigger] pairs[j]).0 <= varint::MAX_VARINT
                        && pairs[j].1 <= varint::MAX_VARINT,
            ensures
                range_pos <= 256,
                range_buf@.take(range_pos as int) == pairs_bytes(sent_pairs(rs)),
            decreases i,
        {
            let ghost k = range_count - 1 - i;
            let (r_start, r_end) = ranges[i - 1];
            assert(rs[i - 1] == (r_start, r_end));
            assert(rs[i - 1].1 + 1 < rs[i as int].0);
            let gap = prev_smallest - r_end - 2;
            let ack_range = r_end - r_start;
            assert(pairs[k] == (gap, ack_range));
            proof {
                lemma_pair_len((gap, ack_range));
                lemma_fit_split(pairs, k, range_pos as int, 256);
                assert(pairs.skip(k)[0] == pairs[k]);
            }
            if gap > varint::MAX_VARINT || ack_range > varint::MAX_VARINT {
                break;
            }
            let pair_len = varint::varint_len(gap) + varint::varint_len(ack_range);
            if range_pos + pair_len > 256 {
                break;
            }
            let ghost before = range_buf@;
            let mid = varint::put_varint(&mut range_buf, range_pos, gap);
            let ghost half = range_buf@;
            let end = varint::put_varint(&mut range_buf, mid, ack_range);
            proof {
                assert(range_buf@.take(end as int) =~= before.take(range_pos as int) + pair_bytes(
                    (gap, ack_range),
                ));
                assert(pairs.take(k + 1).drop_last() =~= pairs.take(k));
                assert(pairs.take(k + 1).last() == pairs[k]);
                lemma_pairs_end(pairs, k + 1, end as int);
            }
            range_pos = end;
            prev_smallest = r_start;
            i = i - 1;
        }
        let ack = Frame::Ack(
            AckFrame {
                largest_ack: highest_end,
                ack_delay: 0,
                first_ack_range: highest_end - highest_start,
                ack_ranges: range_buf.as_slice().split_at(range_pos).0,
                ecn: None,
            },
        );
        match frame::encode(&ack, buf) {
            Ok(n) => Some(n),
            Err(_) => None,
        }
    }

    /// Writes the ACK frame of a level if one is due; returns its length.
    pub(crate) fn write_ack_part(&mut self, level: Level, buf: &mut [u8]) -> (n: usize)
        requires
            old(self).wf(),
        ensures
            final(self).wf(),
            final(buf)@.len() == old(buf)@.len(),
            ({
                let (m, b) = ack_part(old(self)@, level, old(buf)@.len() as int);
                final(self)@ == m && n == b.len() && final(buf)@ == b + old(buf)@.skip(
                    b.len() as int,
                )
            }),
            final(self).same_base(old(self)),
    {
        let idx = crypto::level_index(level);
        let cap = buf.len();
        assert(Seq::<u8>::empty() + buf@.skip(0) =~= buf@);
        if self.ack_eliciting_received[idx] {
            match self.build_ack_frame(level, buf) {
                Some(written) => {
                    self.ack_eliciting_received[idx] = false;
                    return written;
                },
                None => {},
            }
        }
        0
    }
}

} // verus!
