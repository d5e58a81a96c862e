//! Received packet numbers, as ranges.

use vstd::prelude::*;

verus! {

/// How many ranges are remembered; older ones are forgotten.
pub const MAX_ACK_RANGES: usize = 32;

/// Ranges are in ascending order, none is empty, and at least one number is
/// missing between neighbours.
pub open spec fn ranges_wf(ranges: Seq<(u64, u64)>) -> bool {
    &&& forall|i: int| 0 <= i < ranges.len() ==> (#[trigger] ranges[i]).0 <= ranges[i].1
    &&& forall|i: int, j: int|
        0 <= i < j < ranges.len() ==> (#[trigger] ranges[i]).1 + 1 < (#[trigger] ranges[j]).0
}

/// Whether a packet number lies in one of the ranges.
pub open spec fn holds(ranges: Seq<(u64, u64)>, pn: u64) -> bool {
    exists|i: int| 0 <= i < ranges.len() && (#[trigger] ranges[i]).0 <= pn <= ranges[i].1
}

/// Whether a packet number lies in one of the ranges or next to one.
pub open spec fn touches(ranges: Seq<(u64, u64)>, pn: u64) -> bool {
    exists|i: int|
        0 <= i < ranges.len() && (#[trigger] ranges[i]).0 <= pn + 1 && pn <= ranges[i].1 + 1
}

/// Whether `x` is remembered once `pn` was recorded. All numbers are, unless
/// `pn` makes one range more than there may be: then the lowest range, which may
/// be that of `pn` itself, is forgotten, and no other.
pub open spec fn remembered(ranges: Seq<(u64, u64)>, pn: u64, x: u64) -> bool {
    &&& x == pn || holds(ranges, x)
    &&& ranges.len() < MAX_ACK_RANGES || touches(ranges, pn) || x > (if pn < ranges[0].0 {
        pn
    } else {
        ranges[0].1
    })
}

/// The packet numbers received in one space.
pub struct RecvPnTracker {
    pub ranges: Vec<(u64, u64)>,
}

impl RecvPnTracker {
    /// The internal invariant.
    pub open spec fn wf(&self) -> bool {
        ranges_wf(self.ranges@) && self.ranges@.len() <= MAX_ACK_RANGES
    }

    /// Nothing received.
    pub fn new() -> (r: Self)
        ensures
            r.wf(),
            r.ranges@ == Seq::<(u64, u64)>::empty(),
    {
        RecvPnTracker { ranges: Vec::new() }
    }

    /// Record a packet number. With as many ranges as are remembered, the lowest
    /// one is forgotten for a number that needs a range of its own.
    pub fn track(&mut self, pn: u64)
        requires
            old(self).wf(),
        ensures
            final(self).wf(),
            final(self).ranges@.len() > 0,
            forall|x: u64| #[trigger]
                holds(final(self).ranges@, x) == remembered(old(self).ranges@, pn, x),
    {
        let ghost r0 = self.ranges@;
        let mut i: usize = 0;
        while i < self.ranges.len() && self.ranges[i].1 < pn && pn - self.ranges[i].1 > 1
            invariant
                i <= self.ranges@.len(),
                self.ranges@ == r0,
                forall|j: int| 0 <= j < i ==> (#[trigger] r0[j]).1 + 1 < pn,
            decreases self.ranges@.len() - i,
        {
            i = i + 1;
        }
        if i == self.ranges.len() || (pn < self.ranges[i].0 && self.ranges[i].0 - pn > 1) {
            self.ranges.insert(i, (pn, pn));
            let ghost r1 = self.ranges@;
            proof {
                assert(r1[i as int] == (pn, pn));
                assert(ranges_wf(r1)) by {
                    assert forall|a: int, b: int| 0 <= a < b < r1.len() implies (
                    #[trigger] r1[a]).1 + 1 < (#[trigger] r1[b]).0 by {
                        if b == i {
                            assert(r1[a] == r0[a]);
                        } else if a == i {
                            assert(r1[b] == r0[b - 1]);
                            if b - 1 > i {
                                assert(r0[i as int].1 + 1 < r0[b - 1].0);
                            }
                        } else {
                            let a0 = if a < i {
                                a
                            } else {
                                a - 1
                            };
                            let b0 = if b < i {
                                b
                            } else {
                                b - 1
                            };
                            assert(r1[a] == r0[a0] && r1[b] == r0[b0]);
                        }
                    }
                }
                assert forall|x: u64| holds(r1, x) <==> x == pn || #[trigger] holds(r0, x) by {
                    lemma_insert_holds(r0, i as int, pn, x);
                }
                assert(!touches(r0, pn)) by {
                    assert forall|j: int| 0 <= j < r0.len() implies !((#[trigger] r0[j]).0 <= pn
                        + 1 && pn <= r0[j].1 + 1) by {
                        if j > i {
                            assert(r0[i as int].1 + 1 < r0[j].0);
                        }
                    }
                }
                assert forall|x: u64| r0.len() < MAX_ACK_RANGES implies #[trigger] holds(r1, x)
                    == remembered(r0, pn, x) by {
                    assert(holds(r1, x) <==> x == pn || holds(r0, x));
                }
            }
            if self.ranges.len() > MAX_ACK_RANGES {
                let gone = self.ranges.remove(0);
                proof {
                    let r2 = self.ranges@;
                    assert forall|a: int| 0 <= a < r2.len() implies #[trigger] r2[a] == r1[a
                        + 1] by {}
                    assert(r1[0] == (if i == 0 {
                        (pn, pn)
                    } else {
                        r0[0]
                    }));
                    assert forall|x: u64| #[trigger] holds(r2, x) == remembered(r0, pn, x) by {
                        assert(holds(r1, x) <==> x == pn || holds(r0, x));
                        if holds(r2, x) {
                            let a = choose|a: int|
                                0 <= a < r2.len() && (#[trigger] r2[a]).0 <= x <= r2[a].1;
                            assert(r1[a + 1].0 <= x <= r1[a + 1].1);
                            assert(r1[0].1 + 1 < r1[a + 1].0);
                        }
                        if remembered(r0, pn, x) {
                            let a = choose|a: int|
                                0 <= a < r1.len() && (#[trigger] r1[a]).0 <= x <= r1[a].1;
                            assert(a != 0);
                            assert(r2[a - 1] == r1[a]);
                        }
                    }
                }
            }
        } else {
            let (lo, hi) = self.ranges[i];
            assert(r0[i as int] == (lo, hi));
            assert(touches(r0, pn));
            if lo <= pn && pn <= hi {
                assert(holds(r0, pn));
            } else if pn < lo {
                self.ranges[i] = (pn, hi);
                proof {
                    let r1 = self.ranges@;
                    assert(r1[i as int] == (pn, hi));
                    lemma_grown(r0, r1, i as int, pn);
                }
            } else if i + 1 < self.ranges.len() && self.ranges[i + 1].0 - pn == 1 {
                let next = self.ranges.remove(i + 1);
                let ghost r1 = self.ranges@;
                self.ranges[i] = (lo, next.1);
                proof {
                    lemma_joined(r0, self.ranges@, i as int, pn);
                }
            } else {
                self.ranges[i] = (lo, pn);
                proof {
                    let r1 = self.ranges@;
                    assert(r1[i as int] == (lo, pn));
                    if i + 1 < r0.len() {
                        assert(r0[i + 1].0 > r0[i as int].1 + 1);
                    }
                    lemma_grown(r0, r1, i as int, pn);
                }
            }
        }
    }
}

proof fn lemma_insert_holds(r0: Seq<(u64, u64)>, i: int, pn: u64, x: u64)
    requires
        0 <= i <= r0.len(),
    ensures
        holds(r0.insert(i, (pn, pn)), x) <==> x == pn || holds(r0, x),
{
    let r1 = r0.insert(i, (pn, pn));
    assert(r1[i] == (pn, pn));
    if holds(r1, x) {
        let a = choose|a: int| 0 <= a < r1.len() && (#[trigger] r1[a]).0 <= x <= r1[a].1;
        if a < i {
            assert(r1[a] == r0[a]);
        } else if a > i {
            assert(r1[a] == r0[a - 1]);
        }
    }
    if holds(r0, x) {
        let a = choose|a: int| 0 <= a < r0.len() && (#[trigger] r0[a]).0 <= x <= r0[a].1;
        if a < i {
            assert(r1[a] == r0[a]);
        } else {
            assert(r1[a + 1] == r0[a]);
        }
    }
}

/// Growing one range by its next number, with room to its neighbours.
proof fn lemma_grown(r0: Seq<(u64, u64)>, r1: Seq<(u64, u64)>, i: int, pn: u64)
    requires
        ranges_wf(r0),
        0 <= i < r0.len(),
        forall|j: int| 0 <= j < i ==> (#[trigger] r0[j]).1 + 1 < pn,
        r1 == r0.update(i, (pn, r0[i].1)) && pn + 1 == r0[i].0 || r1 == r0.update(i, (r0[i].0, pn))
            && pn == r0[i].1 + 1 && (i + 1 < r0.len() ==> pn + 1 < r0[i + 1].0),
    ensures
        ranges_wf(r1),
        forall|x: u64| holds(r1, x) <==> x == pn || #[trigger] holds(r0, x),
        forall|x: u64| x == pn || holds(r0, x) ==> #[trigger] holds(r1, x),
{
    assert forall|a: int, b: int| 0 <= a < b < r1.len() implies (#[trigger] r1[a]).1 + 1 < (
    #[trigger] r1[b]).0 by {
        if a == i && b > i + 1 {
            assert(r0[i + 1].1 + 1 < r0[b].0);
            assert(r0[i].1 + 1 < r0[i + 1].0);
        }
        assert(r0[a].1 + 1 < r0[b].0);
    }
    assert forall|x: u64| holds(r1, x) <==> x == pn || #[trigger] holds(r0, x) by {
        if holds(r1, x) {
            let a = choose|a: int| 0 <= a < r1.len() && (#[trigger] r1[a]).0 <= x <= r1[a].1;
            if x != pn {
                assert(r0[a].0 <= x <= r0[a].1);
            }
        }
        if holds(r0, x) {
            let a = choose|a: int| 0 <= a < r0.len() && (#[trigger] r0[a]).0 <= x <= r0[a].1;
            assert(r1[a].0 <= x <= r1[a].1);
        }
        assert(r1[i].0 <= pn <= r1[i].1);
    }
}

/// Closing the one-number gap between two ranges.
proof fn lemma_joined(r0: Seq<(u64, u64)>, r1: Seq<(u64, u64)>, i: int, pn: u64)
    requires
        ranges_wf(r0),
        0 <= i,
        i + 1 < r0.len(),
        r0[i].1 + 1 == pn,
        pn + 1 == r0[i + 1].0,
        r1 == r0.remove(i + 1).update(i, (r0[i].0, r0[i + 1].1)),
    ensures
        ranges_wf(r1),
        forall|x: u64| holds(r1, x) <==> x == pn || #[trigger] holds(r0, x),
        forall|x: u64| x == pn || holds(r0, x) ==> #[trigger] holds(r1, x),
{
    assert(r1[i] == (r0[i].0, r0[i + 1].1));
    assert forall|a: int| 0 <= a < r1.len() && a != i implies #[trigger] r1[a] == r0[if a < i {
        a
    } else {
        a + 1
    }] by {}
    assert forall|a: int, b: int| 0 <= a < b < r1.len() implies (#[trigger] r1[a]).1 + 1 < (
    #[trigger] r1[b]).0 by {
        let b0 = if b <= i {
            b
        } else {
            b + 1
        };
        let a0 = if a < i {
            a
        } else {
            a + 1
        };
        assert(r0[a0].1 + 1 < r0[b0].0);
    }
    assert forall|a: int| 0 <= a < r1.len() implies (#[trigger] r1[a]).0 <= r1[a].1 by {
        if a == i {
            assert(r0[i].1 + 1 < r0[i + 1].0);
        }
    }
    assert forall|x: u64| holds(r1, x) <==> x == pn || #[trigger] holds(r0, x) by {
        if holds(r1, x) {
            let a = choose|a: int| 0 <= a < r1.len() && (#[trigger] r1[a]).0 <= x <= r1[a].1;
            if a == i {
                if x < pn {
                    assert(r0[i].0 <= x <= r0[i].1);
                } else if x > pn {
                    assert(r0[i + 1].0 <= x <= r0[i + 1].1);
                }
            } else {
                let a0 = if a < i {
                    a
                } else {
                    a + 1
                };
                assert(r0[a0].0 <= x <= r0[a0].1);
            }
        }
        if holds(r0, x) {
            let a = choose|a: int| 0 <= a < r0.len() && (#[trigger] r0[a]).0 <= x <= r0[a].1;
            let a1 = if a <= i {
                a
            } else {
                a - 1
            };
            assert(r1[a1].0 <= x <= r1[a1].1);
        }
        assert(r1[i].0 <= pn <= r1[i].1);
    }
}

/// The ranges are determined by the numbers they hold: there is one way to write
/// a set of packet numbers down.
pub proof fn law_ranges_are_unique(a: Seq<(u64, u64)>, b: Seq<(u64, u64)>)
    requires
        ranges_wf(a),
        ranges_wf(b),
        forall|x: u64| holds(a, x) == holds(b, x),
    ensures
        a == b,
    decreases a.len(),
{
    if a.len() == 0 {
        if b.len() > 0 {
            assert(b[0].0 <= b[0].1);
            assert(holds(b, b[0].0));
            assert(holds(a, b[0].0));
        }
        assert(a =~= b);
    } else {
        assert(a[0].0 <= a[0].1);
        assert(holds(a, a[0].0));
        assert(holds(b, a[0].0));
        assert(b.len() > 0);
        assert(b[0].0 <= b[0].1);
        assert(holds(b, b[0].0));
        assert(holds(a, b[0].0));
        lemma_lowest(a, b[0].0);
        lemma_lowest(b, a[0].0);
        if a[0].1 < b[0].1 {
            let x = (a[0].1 + 1) as u64;
            assert(b[0].0 <= x <= b[0].1);
            assert(holds(b, x));
            assert(holds(a, x));
            lemma_behind_first(a);
        }
        if b[0].1 < a[0].1 {
            let x = (b[0].1 + 1) as u64;
            assert(a[0].0 <= x <= a[0].1);
            assert(holds(a, x));
            assert(holds(b, x));
            lemma_behind_first(b);
        }
        let ra = a.drop_first();
        let rb = b.drop_first();
        lemma_rest(a);
        lemma_rest(b);
        assert forall|x: u64| holds(ra, x) == holds(rb, x) by {
            assert(holds(a, x) == holds(b, x));
        }
        law_ranges_are_unique(ra, rb);
        assert(a =~= seq![a[0]] + ra);
        assert(b =~= seq![b[0]] + rb);
    }
}

/// No number below the first range is held.
proof fn lemma_lowest(r: Seq<(u64, u64)>, x: u64)
    requires
        ranges_wf(r),
        holds(r, x),
    ensures
        r[0].0 <= x,
{
    let k = choose|k: int| 0 <= k < r.len() && (#[trigger] r[k]).0 <= x <= r[k].1;
    if k > 0 {
        assert(r[0].1 + 1 < r[k].0);
        assert(r[0].0 <= r[0].1);
    }
}

/// The number behind the first range is not held.
proof fn lemma_behind_first(r: Seq<(u64, u64)>)
    requires
        ranges_wf(r),
        r.len() > 0,
        r[0].1 < u64::MAX,
    ensures
        !holds(r, (r[0].1 + 1) as u64),
{
    let x = (r[0].1 + 1) as u64;
    if holds(r, x) {
        let k = choose|k: int| 0 <= k < r.len() && (#[trigger] r[k]).0 <= x <= r[k].1;
        if k > 0 {
            assert(r[0].1 + 1 < r[k].0);
        }
    }
}

/// The other ranges hold what the first one does not.
proof fn lemma_rest(r: Seq<(u64, u64)>)
    requires
        ranges_wf(r),
        r.len() > 0,
    ensures
        ranges_wf(r.drop_first()),
        forall|x: u64| #[trigger]
            holds(r.drop_first(), x) == (holds(r, x) && !(r[0].0 <= x <= r[0].1)),
{
    let t = r.drop_first();
    assert forall|i: int| 0 <= i < t.len() implies (#[trigger] t[i]).0 <= t[i].1 by {
        assert(t[i] == r[i + 1]);
    }
    assert forall|i: int, j: int| 0 <= i < j < t.len() implies (#[trigger] t[i]).1 + 1 < (
    #[trigger] t[j]).0 by {
        assert(t[i] == r[i + 1] && t[j] == r[j + 1]);
    }
    assert forall|x: u64| #[trigger] holds(t, x) == (holds(r, x) && !(r[0].0 <= x <= r[0].1)) by {
        if holds(t, x) {
            let k = choose|k: int| 0 <= k < t.len() && (#[trigger] t[k]).0 <= x <= t[k].1;
            assert(r[k + 1].0 <= x <= r[k + 1].1);
            assert(r[0].1 + 1 < r[k + 1].0);
        }
        if holds(r, x) && !(r[0].0 <= x <= r[0].1) {
            let k = choose|k: int| 0 <= k < r.len() && (#[trigger] r[k]).0 <= x <= r[k].1;
            assert(t[k - 1] == r[k]);
        }
    }
}

/// Law: a number that came is remembered, and nothing that did not come is. With
/// fewer than 32 ranges nothing is forgotten; with 32, at most the lowest one, so
/// that whatever lies above it stays and a new number above it is remembered.
pub proof fn law_received_is_remembered(ranges: Seq<(u64, u64)>, pn: u64, x: u64)
    requires
        ranges_wf(ranges),
    ensures
        remembered(ranges, pn, x) ==> x == pn || holds(ranges, x),
        ranges.len() < 32 && (x == pn || holds(ranges, x)) ==> remembered(ranges, pn, x),
        ranges.len() > 0 && x > ranges[0].1 && (x == pn || holds(ranges, x)) ==> remembered(
            ranges,
            pn,
            x,
        ),
        holds(ranges, pn) && holds(ranges, x) ==> remembered(ranges, pn, x),
        ranges.len() >= 32 && pn < ranges[0].0 - 1 ==> !remembered(ranges, pn, pn) && (holds(
            ranges,
            x,
        ) ==> remembered(ranges, pn, x)),
{
    if holds(ranges, pn) {
        let i = choose|i: int|
            0 <= i < ranges.len() && (#[trigger] ranges[i]).0 <= pn <= ranges[i].1;
        assert(ranges[i].0 <= pn + 1 && pn <= ranges[i].1 + 1);
        assert(touches(ranges, pn));
    }
    if ranges.len() > 0 && pn < ranges[0].0 - 1 {
        assert forall|i: int| 0 <= i < ranges.len() implies (#[trigger] ranges[i]).0 > pn + 1 by {
            if i > 0 {
                assert(ranges[0].1 + 1 < ranges[i].0);
            }
        }
        assert(!touches(ranges, pn));
        if holds(ranges, x) {
            let i = choose|i: int|
                0 <= i < ranges.len() && (#[trigger] ranges[i]).0 <= x <= ranges[i].1;
            assert(ranges[i].0 > pn + 1);
        }
    }
}

} // verus!
