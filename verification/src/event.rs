//! Events: things that happen, emitted either by the integrator or, deferred, by the framework.

use vstd::prelude::*;

verus! {

/// An event that can be emitted either by the integrator or by the framework.
#[derive(Copy, Clone, Debug, Eq, PartialEq, Hash, Ord, PartialOrd, Structural)]
pub enum Event {
    /// Normal packet sent (egress). Emitted by integrator.
    SendNormal,
    /// Normal packet received (ingress). Emitted by integrator.
    ReceiveNormal,
    /// Decoy packet sent (egress). Emitted by integrator.
    SendDecoy,
    /// Decoy packet received (ingress). Emitted by integrator.
    ReceiveDecoy,
    /// An outgoing packet was held back by a block. Emitted by integrator.
    SendBlocked,
    /// A block on outgoing packets was released. Emitted by integrator.
    BlockReleased,
    /// An action was pushed onto the given queue, which still has room. Emitted by framework.
    QueuePushed(u8),
    /// An action was pushed onto the given queue, which is now at capacity. Emitted by framework.
    QueueFilled(u8),
    /// Given queue was popped. Emitted by framework.
    QueuePopped(u8),
    /// Given queue is at capacity, so an action was not pushed. Emitted by framework.
    QueueFull(u8),
    /// Given queue has emptied. Emitted by framework.
    QueueEmpty(u8),
    /// The current state budget has been exhausted. Emitted by framework.
    StateBudgetExhausted,
    /// The machine's budget has been exhausted and cannot recover. Emitted by framework.
    MachineBudgetExhausted,
    /// The machine's budget has been reached for now, but could recover. Emitted by framework.
    MachineBudgetReached,
    /// The machine's budget was previously reached but there is now budget. Emitted by framework.
    MachineBudgetRecovered,
}

/// Whether an event is one that the framework emits, deferred to its next processing round.
pub open spec fn spec_is_deferred(e: Event) -> bool {
    match e {
        Event::SendNormal | Event::ReceiveNormal | Event::SendDecoy | Event::ReceiveDecoy
        | Event::SendBlocked | Event::BlockReleased => false,
        _ => true,
    }
}

impl Event {
    /// Whether an event can be emitted by a framework as deferred.
    pub fn is_deferred(&self) -> (r: bool)
        ensures
            r == spec_is_deferred(*self),
    {
        match self {
            Self::SendNormal | Self::ReceiveNormal | Self::SendDecoy | Self::ReceiveDecoy
            | Self::SendBlocked | Self::BlockReleased => false,
            Self::QueuePushed(_)
            | Self::QueueFilled(_)
            | Self::QueuePopped(_)
            | Self::QueueFull(_)
            | Self::QueueEmpty(_)
            | Self::StateBudgetExhausted
            | Self::MachineBudgetExhausted
            | Self::MachineBudgetReached
            | Self::MachineBudgetRecovered => true,
        }
    }
}

} // verus!
