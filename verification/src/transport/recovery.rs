//! Sent packets that await acknowledgment.

use vstd::multiset::Multiset;
use vstd::prelude::*;

use crate::crypto::Level;
use crate::error::Error;
use crate::fixed;
use crate::transport::Instant;

verus! {

/// Metadata for a sent packet awaiting acknowledgment.
#[derive(Debug, Clone, Copy, PartialEq, Eq, Structural)]
pub struct SentPacket {
    pub pn: u64,
    pub level: Level,
    pub time_sent: Instant,
    pub size: u16,
    pub ack_eliciting: bool,
    pub in_flight: bool,
}

/// Result of processing an ACK frame.
pub struct AckResult {
    /// The packets that the ACK covers, as many as the list holds.
    pub newly_acked: heapless::Vec<SentPacket, 32>,
    /// The first met with the highest packet number among all that the ACK covers.
    pub largest_newly_acked: Option<SentPacket>,
}

/// `a - b`, or zero.
pub open spec fn minus(a: int, b: int) -> int {
    if a > b {
        a - b
    } else {
        0
    }
}

/// The packet-number ranges that gap/range pairs describe below `smallest`: the
/// next range ends `gap + 2` below the previous one's start. A pair that leads
/// below zero ends the list.
pub open spec fn lower_ranges(smallest: u64, pairs: Seq<(u64, u64)>) -> Seq<(u64, u64)>
    decreases pairs.len(),
{
    if pairs.len() == 0 || smallest < pairs[0].0 + 2 {
        Seq::empty()
    } else {
        let hi = (smallest - pairs[0].0 - 2) as u64;
        let lo = minus(hi as int, pairs[0].1 as int) as u64;
        seq![(lo, hi)] + lower_ranges(lo, pairs.drop_first())
    }
}

/// The packet-number ranges that an ACK frame describes, highest first.
pub open spec fn described_ranges(largest: u64, first: u64, pairs: Seq<(u64, u64)>) -> Seq<
    (u64, u64),
> {
    let lo = minus(largest as int, first as int) as u64;
    seq![(lo, largest)] + lower_ranges(lo, pairs)
}

/// The described ranges that are taken into account: the highest 32.
pub open spec fn acked_ranges(largest: u64, first: u64, pairs: Seq<(u64, u64)>) -> Seq<(u64, u64)> {
    capped(described_ranges(largest, first, pairs))
}

/// The first 32 items.
pub open spec fn capped<T>(s: Seq<T>) -> Seq<T> {
    if s.len() <= fixed::ACK_LIST_CAP {
        s
    } else {
        s.take(fixed::ACK_LIST_CAP as int)
    }
}

/// Whether a packet number lies in one of the ranges.
pub open spec fn in_ranges(pn: u64, ranges: Seq<(u64, u64)>) -> bool {
    exists|i: int| 0 <= i < ranges.len() && (#[trigger] ranges[i]).0 <= pn <= ranges[i].1
}

/// Whether a packet is acknowledged by an ACK at `level` for the ranges.
pub open spec fn is_acked(p: SentPacket, level: Level, ranges: Seq<(u64, u64)>) -> bool {
    p.level == level && in_ranges(p.pn, ranges)
}

/// The packets of `sent` that an ACK at `level` for the ranges covers.
pub open spec fn covered(sent: Multiset<SentPacket>, level: Level, ranges: Seq<(u64, u64)>) -> Multiset<
    SentPacket,
> {
    sent.filter(|p: SentPacket| is_acked(p, level, ranges))
}

/// The packets of `sent` that an ACK at `level` for the ranges leaves.
pub open spec fn uncovered(
    sent: Multiset<SentPacket>,
    level: Level,
    ranges: Seq<(u64, u64)>,
) -> Multiset<SentPacket> {
    sent.filter(|p: SentPacket| !is_acked(p, level, ranges))
}

/// The packets that an ACK at `level` for the ranges covers, as a predicate.
pub open spec fn acked_by(level: Level, ranges: Seq<(u64, u64)>) -> spec_fn(SentPacket) -> bool {
    |p: SentPacket| is_acked(p, level, ranges)
}

/// The packets of one packet number space, as a predicate.
pub open spec fn at_level(level: Level) -> spec_fn(SentPacket) -> bool {
    |p: SentPacket| p.level == level
}

/// The packets without the one at `i`, whose place the last one takes.
pub open spec fn swapped_out(s: Seq<SentPacket>, i: int) -> Seq<SentPacket> {
    s.update(i, s.last()).drop_last()
}

/// A walk from `i` on that takes out every packet for which `out` holds. The packet
/// that moves into a place left free is looked at next. The first part is what
/// stays, as it is then stored; the second is what went, in the order met.
pub open spec fn sweep(s: Seq<SentPacket>, i: int, out: spec_fn(SentPacket) -> bool) -> (
    Seq<SentPacket>,
    Seq<SentPacket>,
)
    decreases s.len() - i,
{
    if i < 0 || i >= s.len() {
        (s, Seq::empty())
    } else if out(s[i]) {
        let rest = sweep(swapped_out(s, i), i, out);
        (rest.0, seq![s[i]] + rest.1)
    } else {
        sweep(s, i + 1, out)
    }
}

/// The first packet with the highest packet number.
pub open spec fn largest_of(s: Seq<SentPacket>) -> Option<SentPacket>
    decreases s.len(),
{
    if s.len() == 0 {
        None
    } else {
        match largest_of(s.drop_last()) {
            Some(p) if p.pn >= s.last().pn => Some(p),
            _ => Some(s.last()),
        }
    }
}

/// What recording a sent packet does, where at most `cap` are tracked: with all
/// places taken it is refused, and nothing changes.
pub open spec fn recorded(sent: Seq<SentPacket>, pkt: SentPacket, cap: int) -> (
    Seq<SentPacket>,
    Result<(), Error>,
) {
    if sent.len() < cap {
        (sent.push(pkt), Ok(()))
    } else {
        (sent, Err(Error::BufferTooSmall { needed: (cap + 1) as usize }))
    }
}

/// The capacity holds: a packet is refused, with the places it would take, if and
/// only if all are taken, and then the tracked packets stay as they are;
/// otherwise it joins them. There are never more than `cap`.
pub proof fn law_capacity_holds(sent: Seq<SentPacket>, pkt: SentPacket, cap: int)
    requires
        sent.len() <= cap,
    ensures
        ({
            let (after, r) = recorded(sent, pkt, cap);
            &&& r == Err::<(), Error>(Error::BufferTooSmall { needed: (cap + 1) as usize })
                <==> sent.len() == cap
            &&& sent.len() == cap ==> after == sent
            &&& sent.len() < cap ==> r is Ok && after.len() == sent.len() + 1
                && after.to_multiset() == sent.to_multiset().insert(pkt)
            &&& after.len() <= cap
        }),
{
    broadcast use vstd::seq_lib::group_to_multiset_ensures;

}

/// Taking packets out never adds one.
pub proof fn law_sweep_shrinks(s: Seq<SentPacket>, i: int, out: spec_fn(SentPacket) -> bool)
    ensures
        sweep(s, i, out).0.len() + sweep(s, i, out).1.len() == s.len(),
    decreases s.len() - i,
{
    if 0 <= i < s.len() {
        if out(s[i]) {
            law_sweep_shrinks(swapped_out(s, i), i, out);
        } else {
            law_sweep_shrinks(s, i + 1, out);
        }
    }
}

/// Tracker of at most `N` sent-but-unacked packets.
///
/// `entries` is kept dense: packets are appended on send, and on ack or loss the
/// last one takes the place of the one removed. Storage order is therefore not
/// packet-number order.
pub struct SentPacketTracker<const N: usize> {
    entries: Vec<SentPacket>,
}

impl<const N: usize> View for SentPacketTracker<N> {
    type V = Seq<SentPacket>;

    closed spec fn view(&self) -> Seq<SentPacket> {
        self.entries@
    }
}

impl<const N: usize> Default for SentPacketTracker<N> {
    fn default() -> (r: Self)
        ensures
            r@ == Seq::<SentPacket>::empty(),
    {
        Self::new()
    }
}

/// Taking out one item and filling its place with the last one takes out exactly
/// that item.
proof fn lemma_swap_remove(s: Seq<SentPacket>, i: int)
    requires
        0 <= i < s.len(),
    ensures
        swapped_out(s, i).to_multiset() == s.to_multiset().remove(s[i]),
{
    broadcast use vstd::seq_lib::group_to_multiset_ensures;

    let n = s.len() - 1;
    let r = swapped_out(s, i);
    if i == n {
        assert(r =~= s.remove(n));
    } else {
        let t = s.remove(n);
        assert(r =~= t.remove(i).insert(i, s.last()));
        assert(t[i] == s[i]);
        assert(s.to_multiset().count(s[n]) > 0);
        assert(t.to_multiset().count(s[i]) > 0) by {
            assert(t.contains(s[i]));
        }
        assert(r.to_multiset() =~= s.to_multiset().remove(s[i]));
    }
}

impl<const N: usize> SentPacketTracker<N> {
    /// At most `N` packets are tracked.
    pub open spec fn wf(&self) -> bool {
        self@.len() <= N
    }

    /// A tracker of no packets.
    pub fn new() -> (r: Self)
        ensures
            r@ == Seq::<SentPacket>::empty(),
            r.wf(),
    {
        SentPacketTracker { entries: Vec::new() }
    }

    /// Record a sent packet; fails, and changes nothing, when `N` are tracked.
    pub fn on_packet_sent(&mut self, pkt: SentPacket) -> (r: Result<(), Error>)
        requires
            N < usize::MAX || old(self)@.len() < N,
        ensures
            (final(self)@, r) == recorded(old(self)@, pkt, N as int),
            old(self).wf() ==> final(self).wf(),
    {
        if self.entries.len() >= N {
            return Err(Error::BufferTooSmall { needed: N + 1 });
        }
        self.entries.push(pkt);
        Ok(())
    }

    /// Process an ACK: the covered packets leave the tracker.
    ///
    /// `ranges` contains additional (gap, ack_range) pairs beyond the first range.
    pub fn on_ack_received(
        &mut self,
        level: Level,
        largest_ack: u64,
        first_ack_range: u64,
        ranges: &[(u64, u64)],
    ) -> (r: AckResult)
        ensures
            ({
                let acked = acked_ranges(largest_ack, first_ack_range, ranges@);
                let before = old(self)@.to_multiset();
                let hit = covered(before, level, acked);
                let listed = fixed::packets(r.newly_acked);
                let walk = sweep(old(self)@, 0, acked_by(level, acked));
                &&& final(self)@ == walk.0
                &&& listed == capped(walk.1)
                &&& r.largest_newly_acked == largest_of(walk.1)
                &&& final(self)@.to_multiset() == uncovered(before, level, acked)
                &&& listed.to_multiset().subset_of(hit)
                &&& listed.len() == (if hit.len() <= fixed::ACK_LIST_CAP {
                    hit.len()
                } else {
                    fixed::ACK_LIST_CAP as nat
                })
                &&& hit.len() <= fixed::ACK_LIST_CAP ==> listed.to_multiset() == hit
                &&& match r.largest_newly_acked {
                    Some(p) => hit.contains(p) && forall|q: SentPacket| #[trigger]
                        hit.contains(q) ==> q.pn <= p.pn,
                    None => hit == Multiset::<SentPacket>::empty(),
                }
            }),
    {
        let mut acked = fixed::ranges_new();
        let first_lo = if largest_ack > first_ack_range {
            largest_ack - first_ack_range
        } else {
            0
        };
        let _ = fixed::ranges_push(&mut acked, (first_lo, largest_ack));

        let ghost all = described_ranges(largest_ack, first_ack_range, ranges@);
        let ghost mut done: Seq<(u64, u64)> = seq![(first_lo, largest_ack)];
        let mut smallest: u64 = first_lo;
        let mut k: usize = 0;
        assert(ranges@.skip(0) =~= ranges@);
        assert(fixed::ranges(acked) =~= capped(done));
        while k < ranges.len()
            invariant_except_break
                k <= ranges@.len(),
                done + lower_ranges(smallest, ranges@.skip(k as int)) == all,
                fixed::ranges(acked) == capped(done),
            ensures
                fixed::ranges(acked) == capped(all),
            decreases ranges@.len() - k,
        {
            let (gap, ack_range) = ranges[k];
            assert(ranges@.skip(k as int)[0] == (gap, ack_range));
            assert(ranges@.skip(k as int).drop_first() =~= ranges@.skip(k + 1));
            if smallest < 2 || smallest - 2 < gap {
                assert(done + Seq::<(u64, u64)>::empty() =~= done);
                break;
            }
            let range_largest = smallest - 2 - gap;
            let range_smallest = if range_largest > ack_range {
                range_largest - ack_range
            } else {
                0
            };
            let _ = fixed::ranges_push(&mut acked, (range_smallest, range_largest));
            proof {
                let item = (range_smallest, range_largest);
                let rest = lower_ranges(range_smallest, ranges@.skip(k + 1));
                assert(done + (seq![item] + rest) =~= done.push(item) + rest);
                assert(fixed::ranges(acked) =~= capped(done.push(item)));
                done = done.push(item);
            }
            smallest = range_smallest;
            k = k + 1;
            if k == ranges.len() {
                assert(ranges@.skip(k as int).len() == 0);
                assert(done + Seq::<(u64, u64)>::empty() =~= done);
            }
        }

        let ghost set = acked_ranges(largest_ack, first_ack_range, ranges@);
        let ghost before = self.entries@.to_multiset();
        let ghost out = acked_by(level, set);
        let ghost walk = sweep(self.entries@, 0, out);
        let spans = fixed::ranges_slice(&acked);
        let mut newly = fixed::packets_new();
        let mut largest: Option<SentPacket> = None;
        let ghost mut gone: Seq<SentPacket> = Seq::empty();
        let mut i: usize = 0;
        proof {
            broadcast use vstd::seq_lib::group_to_multiset_ensures;

            assert(gone.to_multiset() =~= Multiset::<SentPacket>::empty());
            assert(before =~= self.entries@.to_multiset().add(gone.to_multiset()));
            assert(fixed::packets(newly) =~= capped(gone));
            assert(gone + walk.1 =~= walk.1);
        }
        while i < self.entries.len()
            invariant
                i <= self.entries@.len(),
                spans@ == set,
                out == acked_by(level, set),
                walk.0 == sweep(self.entries@, i as int, out).0,
                walk.1 == gone + sweep(self.entries@, i as int, out).1,
                largest == largest_of(gone),
                before == self.entries@.to_multiset().add(gone.to_multiset()),
                forall|j: int| 0 <= j < i ==> !is_acked(#[trigger] self.entries@[j], level, set),
                forall|j: int| 0 <= j < gone.len() ==> is_acked(#[trigger] gone[j], level, set),
                fixed::packets(newly) == capped(gone),
                match largest {
                    Some(p) => gone.contains(p) && forall|j: int|
                        0 <= j < gone.len() ==> (#[trigger] gone[j]).pn <= p.pn,
                    None => gone.len() == 0,
                },
            decreases self.entries@.len() - i,
        {
            let pkt = self.entries[i];
            let hit = pkt.level == level && covers(spans, pkt.pn);
            if hit {
                let _ = fixed::packets_push(&mut newly, pkt);
                let ghost g0 = gone;
                let ghost e0 = self.entries@;
                let larger = match largest {
                    None => true,
                    Some(prev) => pkt.pn > prev.pn,
                };
                if larger {
                    largest = Some(pkt);
                }
                let _ = self.entries.swap_remove(i);
                proof {
                    gone = gone.push(pkt);
                    lemma_swap_remove(e0, i as int);
                    broadcast use vstd::seq_lib::group_to_multiset_ensures;

                    let rest = sweep(self.entries@, i as int, out).1;
                    assert(self.entries@ =~= swapped_out(e0, i as int));
                    assert(g0 + (seq![pkt] + rest) =~= gone + rest);
                    assert(gone.drop_last() =~= g0);
                    assert(e0.contains(e0[i as int]));
                    assert(e0.to_multiset().count(pkt) > 0);
                    assert(before =~= self.entries@.to_multiset().add(gone.to_multiset()));
                    assert(fixed::packets(newly) =~= capped(gone));
                    assert(gone[gone.len() - 1] == pkt);
                    assert(forall|j: int| 0 <= j < g0.len() ==> g0[j] == gone[j]);
                    assert(forall|p: SentPacket| g0.contains(p) ==> gone.contains(p)) by {
                        assert forall|p: SentPacket| g0.contains(p) implies gone.contains(p) by {
                            let j = g0.index_of(p);
                            assert(gone[j] == p);
                        }
                    }
                }
            } else {
                i = i + 1;
            }
        }
        proof {
            assert(gone + Seq::<SentPacket>::empty() =~= gone);
            lemma_split(before, self.entries@, gone, level, set);
            lemma_capped(gone);
            broadcast use vstd::seq_lib::group_to_multiset_ensures;

            let hits = covered(before, level, set);
            assert(hits == gone.to_multiset());
            assert forall|q: SentPacket| #[trigger] hits.contains(q) implies gone.contains(q) by {}
            match largest {
                Some(p) => {
                    assert(hits.contains(p));
                    assert forall|q: SentPacket| #[trigger] hits.contains(q) implies q.pn
                        <= p.pn by {
                        let j = gone.index_of(q);
                        assert(gone[j] == q);
                    }
                },
                None => {
                    assert(gone =~= Seq::<SentPacket>::empty());
                    assert(hits =~= Multiset::<SentPacket>::empty());
                },
            }
        }
        AckResult { newly_acked: newly, largest_newly_acked: largest }
    }

    /// All packets in a given space that were sent before `before`.
    pub fn sent_before(&self, level: Level, before: Instant) -> (r: Vec<SentPacket>)
        ensures
            r@ == self@.filter(|p: SentPacket| p.level == level && p.time_sent < before),
    {
        let ghost keep = |p: SentPacket| p.level == level && p.time_sent < before;
        let mut r: Vec<SentPacket> = Vec::new();
        let mut i: usize = 0;
        assert(self.entries@.take(0).filter(keep) =~= Seq::<SentPacket>::empty()) by {
            reveal(Seq::filter);
        }
        while i < self.entries.len()
            invariant
                i <= self.entries@.len(),
                keep == (|p: SentPacket| p.level == level && p.time_sent < before),
                r@ == self.entries@.take(i as int).filter(keep),
            decreases self.entries@.len() - i,
        {
            let p = self.entries[i];
            proof {
                lemma_filter_step(self.entries@, i as int, keep);
            }
            if p.level == level && p.time_sent < before {
                r.push(p);
            }
            i = i + 1;
        }
        assert(self.entries@.take(i as int) =~= self.entries@);
        r
    }

    /// All packets with a number less than the threshold in a given space.
    pub fn sent_below_pn(&self, level: Level, pn_threshold: u64) -> (r: Vec<SentPacket>)
        ensures
            r@ == self@.filter(|p: SentPacket| p.level == level && p.pn < pn_threshold),
    {
        let ghost keep = |p: SentPacket| p.level == level && p.pn < pn_threshold;
        let mut r: Vec<SentPacket> = Vec::new();
        let mut i: usize = 0;
        assert(self.entries@.take(0).filter(keep) =~= Seq::<SentPacket>::empty()) by {
            reveal(Seq::filter);
        }
        while i < self.entries.len()
            invariant
                i <= self.entries@.len(),
                keep == (|p: SentPacket| p.level == level && p.pn < pn_threshold),
                r@ == self.entries@.take(i as int).filter(keep),
            decreases self.entries@.len() - i,
        {
            let p = self.entries[i];
            proof {
                lemma_filter_step(self.entries@, i as int, keep);
            }
            if p.level == level && p.pn < pn_threshold {
                r.push(p);
            }
            i = i + 1;
        }
        assert(self.entries@.take(i as int) =~= self.entries@);
        r
    }

    /// Remove a packet (after declaring it lost or acked).
    pub fn remove(&mut self, level: Level, pn: u64) -> (r: Option<SentPacket>)
        ensures
            match r {
                Some(p) => {
                    &&& p.level == level && p.pn == pn
                    &&& final(self)@.to_multiset() == old(self)@.to_multiset().remove(p)
                    &&& exists|i: int|
                        0 <= i < old(self)@.len() && #[trigger] old(self)@[i] == p && final(self)@
                            == swapped_out(old(self)@, i) && forall|j: int|
                            0 <= j < i ==> !((#[trigger] old(self)@[j]).level == level
                                && old(self)@[j].pn == pn)
                },
                None => final(self)@ == old(self)@ && forall|i: int|
                    0 <= i < old(self)@.len() ==> !((#[trigger] old(self)@[i]).level == level
                        && old(self)@[i].pn == pn),
            },
    {
        let mut i: usize = 0;
        while i < self.entries.len()
            invariant
                i <= self.entries@.len(),
                self.entries@ == old(self).entries@,
                forall|j: int|
                    0 <= j < i ==> !((#[trigger] self.entries@[j]).level == level
                        && self.entries@[j].pn == pn),
            decreases self.entries@.len() - i,
        {
            if self.entries[i].level == level && self.entries[i].pn == pn {
                proof {
                    lemma_swap_remove(self.entries@, i as int);
                }
                let p = self.entries.swap_remove(i);
                assert(self.entries@ =~= swapped_out(old(self)@, i as int));
                assert(old(self)@[i as int] == p);
                return Some(p);
            }
            i = i + 1;
        }
        None
    }

    /// Drop all packets in a packet number space.
    pub fn drop_space(&mut self, level: Level)
        ensures
            final(self)@ == sweep(old(self)@, 0, at_level(level)).0,
            final(self)@.to_multiset() == old(self)@.to_multiset().filter(
                |p: SentPacket| p.level != level,
            ),
            forall|i: int| 0 <= i < final(self)@.len() ==> (#[trigger] final(self)@[i]).level
                != level,
    {
        let ghost before = self.entries@.to_multiset();
        let ghost keep = |p: SentPacket| p.level != level;
        let ghost out = at_level(level);
        let ghost mut gone: Seq<SentPacket> = Seq::empty();
        let mut i: usize = 0;
        proof {
            broadcast use vstd::seq_lib::group_to_multiset_ensures;

            assert(gone.to_multiset() =~= Multiset::<SentPacket>::empty());
            assert(before =~= self.entries@.to_multiset().add(gone.to_multiset()));
        }
        while i < self.entries.len()
            invariant
                i <= self.entries@.len(),
                out == at_level(level),
                sweep(old(self).entries@, 0, out).0 == sweep(self.entries@, i as int, out).0,
                before == self.entries@.to_multiset().add(gone.to_multiset()),
                forall|j: int| 0 <= j < i ==> (#[trigger] self.entries@[j]).level != level,
                forall|j: int| 0 <= j < gone.len() ==> (#[trigger] gone[j]).level == level,
            decreases self.entries@.len() - i,
        {
            if self.entries[i].level == level {
                let ghost e0 = self.entries@;
                let pkt = self.entries.swap_remove(i);
                proof {
                    gone = gone.push(pkt);
                    lemma_swap_remove(e0, i as int);
                    broadcast use vstd::seq_lib::group_to_multiset_ensures;

                    assert(self.entries@ =~= swapped_out(e0, i as int));
                    assert(e0.contains(e0[i as int]));
                    assert(e0.to_multiset().count(pkt) > 0);
                    assert(before =~= self.entries@.to_multiset().add(gone.to_multiset()));
                }
            } else {
                i = i + 1;
            }
        }
        proof {
            broadcast use vstd::seq_lib::group_to_multiset_ensures;

            assert forall|p: SentPacket| self.entries@.to_multiset().count(p) == #[trigger]
                before.filter(keep).count(p) by {
                if keep(p) {
                    if gone.contains(p) {
                        let j = gone.index_of(p);
                        assert(gone[j].level == level);
                    }
                } else {
                    if self.entries@.contains(p) {
                        let j = self.entries@.index_of(p);
                        assert(self.entries@[j].level != level);
                    }
                }
            }
            assert(self.entries@.to_multiset() =~= before.filter(keep));
        }
    }

    /// Number of tracked packets.
    pub fn count(&self) -> (n: usize)
        ensures
            n == self@.len(),
    {
        self.entries.len()
    }

    /// Any ack-eliciting packets in flight for this space?
    pub fn has_ack_eliciting_in_flight(&self, level: Level) -> (r: bool)
        ensures
            r == exists|i: int|
                0 <= i < self@.len() && (#[trigger] self@[i]).level == level
                    && self@[i].ack_eliciting && self@[i].in_flight,
    {
        let mut i: usize = 0;
        while i < self.entries.len()
            invariant
                i <= self.entries@.len(),
                forall|j: int|
                    0 <= j < i ==> !((#[trigger] self.entries@[j]).level == level
                        && self.entries@[j].ack_eliciting && self.entries@[j].in_flight),
            decreases self.entries@.len() - i,
        {
            let p = self.entries[i];
            if p.level == level && p.ack_eliciting && p.in_flight {
                assert(self@[i as int] == p);
                return true;
            }
            i = i + 1;
        }
        false
    }
}

/// Whether a packet number lies in one of the ranges.
fn covers(spans: &[(u64, u64)], pn: u64) -> (r: bool)
    ensures
        r == in_ranges(pn, spans@),
{
    let mut i: usize = 0;
    while i < spans.len()
        invariant
            i <= spans@.len(),
            forall|j: int| 0 <= j < i ==> !((#[trigger] spans@[j]).0 <= pn <= spans@[j].1),
        decreases spans@.len() - i,
    {
        let (lo, hi) = spans[i];
        if lo <= pn && pn <= hi {
            assert(spans@[i as int] == (lo, hi));
            return true;
        }
        i = i + 1;
    }
    false
}

proof fn lemma_filter_step(s: Seq<SentPacket>, i: int, keep: spec_fn(SentPacket) -> bool)
    requires
        0 <= i < s.len(),
    ensures
        s.take(i + 1).filter(keep) == (if keep(s[i]) {
            s.take(i).filter(keep).push(s[i])
        } else {
            s.take(i).filter(keep)
        }),
{
    reveal(Seq::filter);
    assert(s.take(i + 1).drop_last() =~= s.take(i));
}

/// Packets parted into those not covered and those covered are the two filters.
proof fn lemma_split(
    before: Multiset<SentPacket>,
    kept: Seq<SentPacket>,
    gone: Seq<SentPacket>,
    level: Level,
    ranges: Seq<(u64, u64)>,
)
    requires
        before == kept.to_multiset().add(gone.to_multiset()),
        forall|j: int| 0 <= j < kept.len() ==> !is_acked(#[trigger] kept[j], level, ranges),
        forall|j: int| 0 <= j < gone.len() ==> is_acked(#[trigger] gone[j], level, ranges),
    ensures
        kept.to_multiset() == uncovered(before, level, ranges),
        gone.to_multiset() == covered(before, level, ranges),
{
    broadcast use vstd::seq_lib::group_to_multiset_ensures;

    assert forall|p: SentPacket| kept.to_multiset().count(p) > 0 implies !is_acked(
        p,
        level,
        ranges,
    ) by {
        let j = kept.index_of(p);
        assert(kept[j] == p);
    }
    assert forall|p: SentPacket| gone.to_multiset().count(p) > 0 implies is_acked(
        p,
        level,
        ranges,
    ) by {
        let j = gone.index_of(p);
        assert(gone[j] == p);
    }
    assert(kept.to_multiset() =~= uncovered(before, level, ranges));
    assert(gone.to_multiset() =~= covered(before, level, ranges));
}

/// A prefix of a list holds no packet more often than the list.
proof fn lemma_capped(s: Seq<SentPacket>)
    ensures
        capped(s).to_multiset().subset_of(s.to_multiset()),
        s.len() <= fixed::ACK_LIST_CAP ==> capped(s).to_multiset() == s.to_multiset(),
{
    if s.len() > fixed::ACK_LIST_CAP {
        lemma_prefix(s, fixed::ACK_LIST_CAP as int);
    }
}

proof fn lemma_prefix(s: Seq<SentPacket>, n: int)
    requires
        0 <= n <= s.len(),
    ensures
        s.take(n).to_multiset().subset_of(s.to_multiset()),
    decreases s.len() - n,
{
    broadcast use vstd::seq_lib::group_to_multiset_ensures;

    if n == s.len() {
        assert(s.take(n) =~= s);
    } else {
        lemma_prefix(s, n + 1);
        assert(s.take(n + 1) =~= s.take(n).push(s[n]));
    }
}

/// An ACK parts the tracked packets: each is either still tracked or covered,
/// never both, and none is lost or doubled.
pub proof fn law_ack_conserves_packets(
    before: Multiset<SentPacket>,
    level: Level,
    ranges: Seq<(u64, u64)>,
)
    ensures
        before == uncovered(before, level, ranges).add(covered(before, level, ranges)),
        uncovered(before, level, ranges).is_disjoint_from(covered(before, level, ranges)),
{
    assert(before =~= uncovered(before, level, ranges).add(covered(before, level, ranges)));
}

/// An ACK at one level leaves the packets of every other level alone.
pub proof fn law_ack_leaves_other_levels(
    before: Multiset<SentPacket>,
    level: Level,
    ranges: Seq<(u64, u64)>,
    p: SentPacket,
)
    requires
        p.level != level,
    ensures
        uncovered(before, level, ranges).count(p) == before.count(p),
{
}

/// Processing the same ACK a second time covers nothing.
pub proof fn law_ack_is_idempotent(
    before: Multiset<SentPacket>,
    level: Level,
    ranges: Seq<(u64, u64)>,
)
    ensures
        uncovered(uncovered(before, level, ranges), level, ranges) == uncovered(
            before,
            level,
            ranges,
        ),
        covered(uncovered(before, level, ranges), level, ranges) == Multiset::<SentPacket>::empty(),
{
    assert(uncovered(uncovered(before, level, ranges), level, ranges) =~= uncovered(
        before,
        level,
        ranges,
    ));
    assert(covered(uncovered(before, level, ranges), level, ranges) =~= Multiset::<
        SentPacket,
    >::empty());
}

/// Law: packets are taken out in the order in which they are met. The first is the
/// first one stored for which `out` holds, the walk goes on in its place, and what
/// lies before it stays where it is. All that is taken out is meant, and nothing
/// that is meant stays.
pub proof fn law_sweep_in_order(
    s: Seq<SentPacket>,
    i: int,
    k: int,
    out: spec_fn(SentPacket) -> bool,
)
    requires
        0 <= i <= k <= s.len(),
        k < s.len() ==> out(s[k]),
        forall|j: int| i <= j < k ==> !out(#[trigger] s[j]),
    ensures
        k == s.len() ==> sweep(s, i, out) == (s, Seq::<SentPacket>::empty()),
        k < s.len() ==> ({
            let rest = s.update(k, s.last()).drop_last();
            &&& sweep(s, i, out).0 == sweep(rest, k, out).0
            &&& sweep(s, i, out).1.len() > 0 && sweep(s, i, out).1[0] == s[k]
            &&& sweep(s, i, out).1.drop_first() == sweep(rest, k, out).1
        }),
        forall|j: int|
            i <= j < sweep(s, i, out).0.len() ==> !out(#[trigger] sweep(s, i, out).0[j]),
        forall|j: int| 0 <= j < sweep(s, i, out).1.len() ==> out(#[trigger] sweep(s, i, out).1[j]),
        forall|j: int|
            0 <= j < i ==> j < sweep(s, i, out).0.len() && #[trigger] sweep(s, i, out).0[j] == s[j],
    decreases s.len() - i,
{
    lemma_swept(s, i, out);
    if i < k {
        law_sweep_in_order(s, i + 1, k, out);
    } else if k < s.len() {
        let rest = sweep(swapped_out(s, k), k, out);
        assert((seq![s[k]] + rest.1).drop_first() =~= rest.1);
    }
}

/// What a walk leaves and takes.
proof fn lemma_swept(s: Seq<SentPacket>, i: int, out: spec_fn(SentPacket) -> bool)
    requires
        0 <= i <= s.len(),
    ensures
        forall|j: int|
            i <= j < sweep(s, i, out).0.len() ==> !out(#[trigger] sweep(s, i, out).0[j]),
        forall|j: int| 0 <= j < sweep(s, i, out).1.len() ==> out(#[trigger] sweep(s, i, out).1[j]),
        sweep(s, i, out).0.len() >= i,
        forall|j: int| 0 <= j < i ==> #[trigger] sweep(s, i, out).0[j] == s[j],
    decreases s.len() - i,
{
    if i < s.len() {
        if out(s[i]) {
            let t = swapped_out(s, i);
            lemma_swept(t, i, out);
            let rest = sweep(t, i, out);
            assert forall|j: int| 0 <= j < i implies #[trigger] sweep(s, i, out).0[j] == s[j] by {
                assert(rest.0[j] == t[j]);
            }
        } else {
            lemma_swept(s, i + 1, out);
            assert(sweep(s, i + 1, out).0[i] == s[i]);
        }
    }
}

} // verus!
