//! Receive windows: when to advertise a higher limit, and which.

use vstd::prelude::*;

use crate::transport::congestion;

verus! {

/// A receive window: the advertised limit, what was consumed, and how much may
/// be outstanding.
#[derive(Debug, Clone, Copy, PartialEq, Eq, Structural)]
pub struct RecvWindow {
    pub limit: u64,
    pub consumed: u64,
    pub size: u64,
}

impl RecvWindow {
    /// The limit that a full window would have now.
    pub open spec fn full_limit(self) -> u64 {
        congestion::plus(self.consumed, self.size)
    }

    /// Whether at most half of the window is left and a higher limit can be
    /// advertised.
    pub open spec fn due(self) -> bool {
        self.full_limit() > self.limit && congestion::minus(self.limit, self.consumed) <= self.size
            / 2
    }

    /// After the higher limit was advertised.
    pub open spec fn renewed(self) -> RecvWindow {
        RecvWindow { limit: self.full_limit(), ..self }
    }

    /// The limit to advertise, if one is due.
    pub fn renewal(&self) -> (r: Option<u64>)
        ensures
            r == (if self.due() {
                Some(self.full_limit())
            } else {
                None::<u64>
            }),
    {
        let full = self.consumed.saturating_add(self.size);
        if full > self.limit && self.limit.saturating_sub(self.consumed) <= self.size / 2 {
            Some(full)
        } else {
            None
        }
    }

    /// Record that the higher limit was advertised.
    pub fn renew(&mut self)
        ensures
            *final(self) == old(self).renewed(),
    {
        self.limit = self.consumed.saturating_add(self.size);
    }
}

/// Once a limit was advertised none is due until more is consumed.
pub proof fn law_renewal_settles(w: RecvWindow)
    ensures
        !w.renewed().due(),
{
}

/// Flow control of a connection.
#[derive(Debug, Clone, Copy, PartialEq, Eq, Structural)]
pub struct FlowControl {
    pub recv: RecvWindow,
}

impl FlowControl {
    /// A window of `size` bytes, all of it advertised.
    pub fn new(size: u64) -> (r: Self)
        ensures
            r.recv == (RecvWindow { limit: size, consumed: 0, size }),
    {
        FlowControl { recv: RecvWindow { limit: size, consumed: 0, size } }
    }

    /// The MAX_DATA limit to advertise, if one is due.
    pub fn should_send_max_data(&self) -> (r: Option<u64>)
        ensures
            r == (if self.recv.due() {
                Some(self.recv.full_limit())
            } else {
                None::<u64>
            }),
    {
        self.recv.renewal()
    }

    /// Record that MAX_DATA was sent.
    pub fn max_data_sent(&mut self)
        ensures
            *final(self) == (FlowControl { recv: old(self).recv.renewed() }),
    {
        self.recv.renew();
    }
}

} // verus!
