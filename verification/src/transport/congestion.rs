//! Congestion window (NewReno).

use vstd::prelude::*;

verus! {

/// The window that a connection starts with: ten full-size packets.
pub const INITIAL_WINDOW: u64 = 12000;

/// The packet size that the window grows by.
pub const MAX_DATAGRAM_SIZE: u64 = 1200;

/// `a + b`, or the largest `u64`.
pub open spec fn plus(a: u64, b: u64) -> u64 {
    if a + b <= u64::MAX {
        (a + b) as u64
    } else {
        u64::MAX
    }
}

/// `a - b`, or zero.
pub open spec fn minus(a: u64, b: u64) -> u64 {
    if a > b {
        (a - b) as u64
    } else {
        0
    }
}

/// The larger of two numbers.
pub open spec fn largest(a: int, b: int) -> int {
    if a > b {
        a
    } else {
        b
    }
}

/// Congestion window and bytes in flight.
#[derive(Debug, Clone, Copy, PartialEq, Eq, Structural)]
pub struct CongestionController {
    pub window: u64,
    pub threshold: u64,
    pub in_flight: u64,
}

impl CongestionController {
    /// How many more bytes may be in flight.
    pub open spec fn available(self) -> u64 {
        minus(self.window, self.in_flight)
    }

    /// After `bytes` more were sent.
    pub open spec fn sent(self, bytes: u64) -> CongestionController {
        CongestionController { in_flight: plus(self.in_flight, bytes), ..self }
    }

    /// By how much the window grows above the threshold for acknowledged bytes:
    /// their share of the window, of one packet.
    pub open spec fn avoidance_growth(self, bytes: u64) -> u64 {
        let share = MAX_DATAGRAM_SIZE as int * bytes as int / largest(self.window as int, 1);
        if share <= u64::MAX {
            share as u64
        } else {
            u64::MAX
        }
    }

    /// After `bytes` were acknowledged: below the threshold the window grows by
    /// what was acknowledged, above it by one packet for every window's worth of
    /// acknowledged bytes.
    pub open spec fn acked(self, bytes: u64) -> CongestionController {
        let grown = if self.window < self.threshold {
            plus(self.window, bytes)
        } else {
            plus(self.window, self.avoidance_growth(bytes))
        };
        CongestionController { window: grown, in_flight: minus(self.in_flight, bytes), ..self }
    }

    /// Nothing in flight, the initial window, slow start.
    pub fn new() -> (r: Self)
        ensures
            r == (CongestionController {
                window: INITIAL_WINDOW,
                threshold: u64::MAX,
                in_flight: 0,
            }),
    {
        CongestionController { window: INITIAL_WINDOW, threshold: u64::MAX, in_flight: 0 }
    }

    /// The congestion window.
    pub fn cwnd(&self) -> (n: u64)
        ensures
            n == self.window,
    {
        self.window
    }

    /// How many more bytes may be in flight.
    pub fn available_window(&self) -> (n: u64)
        ensures
            n == self.available(),
    {
        self.window.saturating_sub(self.in_flight)
    }

    /// Count bytes that were sent.
    pub fn on_packet_sent(&mut self, bytes: u64)
        ensures
            *final(self) == old(self).sent(bytes),
    {
        self.in_flight = self.in_flight.saturating_add(bytes);
    }

    /// Count bytes that were acknowledged.
    pub fn on_packet_acked(&mut self, bytes: u64)
        ensures
            *final(self) == old(self).acked(bytes),
    {
        if self.window < self.threshold {
            self.window = self.window.saturating_add(bytes);
        } else {
            let window: u64 = if self.window > 1 {
                self.window
            } else {
                1
            };
            let product: u128 = 1200 * bytes as u128;
            let share: u128 = product / window as u128;
            let growth: u64 = if share <= u64::MAX as u128 {
                share as u64
            } else {
                u64::MAX
            };
            self.window = self.window.saturating_add(growth);
        }
        self.in_flight = self.in_flight.saturating_sub(bytes);
    }
}

/// Law: every byte that is sent counts as in flight until it is acknowledged, and
/// only bytes in flight take room in the window.
pub proof fn law_flight_is_counted(c: CongestionController, bytes: u64)
    ensures
        c.in_flight + bytes <= u64::MAX ==> c.sent(bytes).in_flight == c.in_flight + bytes,
        c.sent(bytes).window == c.window && c.sent(bytes).threshold == c.threshold,
        bytes <= c.in_flight ==> c.acked(bytes).in_flight == c.in_flight - bytes,
        bytes > c.in_flight ==> c.acked(bytes).in_flight == 0,
        c.in_flight <= c.window ==> c.available() + c.in_flight == c.window,
        c.in_flight > c.window ==> c.available() == 0,
{
}

/// Law: below the threshold the window grows by what is acknowledged, so that it
/// doubles when a whole window is; above it by one packet of 1200 bytes for a whole
/// window, and in proportion for less. It never shrinks with an acknowledgment.
pub proof fn law_window_growth(c: CongestionController, bytes: u64)
    ensures
        c.acked(bytes).window >= c.window,
        c.acked(bytes).threshold == c.threshold,
        c.window < c.threshold && c.window + bytes <= u64::MAX ==> c.acked(bytes).window == c.window
            + bytes,
        c.window >= c.threshold && bytes == c.window && 1 <= c.window <= u64::MAX - 1200 ==> c.acked(
            bytes,
        ).window == c.window + 1200,
        c.window >= c.threshold && c.window > 0 && c.window + 1200 * bytes <= u64::MAX ==> c.acked(
            bytes,
        ).window == c.window + 1200 * bytes / (c.window as int),
{
    let w = c.window as int;
    if c.window >= c.threshold && w >= 1 {
        assert(1200 * w / w == 1200) by (nonlinear_arith)
            requires
                w >= 1,
        ;
        assert(0 <= 1200 * bytes / w <= 1200 * bytes) by (nonlinear_arith)
            requires
                w >= 1,
                bytes >= 0,
        ;
    }
}

} // verus!
