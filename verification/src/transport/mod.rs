//! Transport bookkeeping: sent packets, loss timers, congestion, flow control,
//! streams.

use vstd::prelude::*;

pub mod congestion;
pub mod flow_control;
pub mod loss;
pub mod recovery;
pub mod stream;

verus! {

/// A point in time, in microseconds.
pub type Instant = u64;

} // verus!
