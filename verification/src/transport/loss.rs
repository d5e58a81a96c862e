//! Times from which loss timers run.

use vstd::prelude::*;

use crate::crypto::Level;
use crate::transport::Instant;

verus! {

/// When the last ack-eliciting packet of each level was sent.
#[derive(Debug, Clone, Copy, PartialEq, Eq, Structural)]
pub struct LossDetector {
    pub initial: Option<Instant>,
    pub handshake: Option<Instant>,
    pub application: Option<Instant>,
}

impl LossDetector {
    /// After an ack-eliciting packet was sent at `level`.
    pub open spec fn sent(self, level: Level, now: Instant) -> LossDetector {
        match level {
            Level::Initial => LossDetector { initial: Some(now), ..self },
            Level::Handshake => LossDetector { handshake: Some(now), ..self },
            Level::Application => LossDetector { application: Some(now), ..self },
        }
    }

    /// Nothing sent yet.
    pub fn new() -> (r: Self)
        ensures
            r == (LossDetector { initial: None, handshake: None, application: None }),
    {
        LossDetector { initial: None, handshake: None, application: None }
    }

    /// Record that an ack-eliciting packet was sent.
    pub fn on_ack_eliciting_sent(&mut self, level: Level, now: Instant)
        ensures
            *final(self) == old(self).sent(level, now),
    {
        match level {
            Level::Initial => {
                self.initial = Some(now);
            },
            Level::Handshake => {
                self.handshake = Some(now);
            },
            Level::Application => {
                self.application = Some(now);
            },
        }
    }
}

/// Law: a packet that was sent is noted at its own level, under the time that it
/// was sent at, and at no other.
pub proof fn law_sending_is_noted(d: LossDetector, now: Instant)
    ensures
        d.sent(Level::Initial, now).initial == Some(now),
        d.sent(Level::Handshake, now).handshake == Some(now),
        d.sent(Level::Application, now).application == Some(now),
        forall|l: Level|
            l != Level::Initial ==> (#[trigger] d.sent(l, now)).initial == d.initial,
        forall|l: Level|
            l != Level::Handshake ==> (#[trigger] d.sent(l, now)).handshake == d.handshake,
        forall|l: Level|
            l != Level::Application ==> (#[trigger] d.sent(l, now)).application == d.application,
{
}

} // verus!
