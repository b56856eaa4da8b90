//! Actions for integrators ([`IntegratorAction`]) and the framework ([`FrameworkAction`]) to take,
//! and the delay distributions ([`Distr`]) that they carry.
//!
//! The parameters of a distribution are `f64`s; this library holds each one as its IEEE-754 bit
//! pattern (`f64::to_bits`) and never computes with it. Sampling is done by a
//! [`crate::framework::Sampler`].

use vstd::prelude::*;

verus! {

/// Kinds of supported distributions. Every `f64` parameter is held as its bit pattern.
#[derive(Clone, Copy, Debug, PartialEq, Eq, Structural)]
pub enum DistrKind {
    /// A constant value.
    Constant(u64),
    Uniform { low: u64, high: u64 },
    Normal { mean: u64, std_dev: u64 },
    SkewNormal { location: u64, scale: u64, shape: u64 },
    Cauchy { median: u64, scale: u64 },
    Binomial { n: u64, p: u64 },
    Geometric { p: u64 },
    Hypergeometric { total_population_size: u64, population_with_feature: u64, sample_size: u64 },
    LogNormal { mu: u64, sigma: u64 },
    Pareto { scale: u64, shape: u64 },
    Poisson { lambda: u64 },
    Exp { lambda: u64 },
    Weibull { scale: u64, shape: u64 },
    Gamma { shape: u64, scale: u64 },
    Beta { alpha: u64, beta: u64 },
}

/// A delay distribution: a kind, an offset added to samples, and optional bounds for samples
/// (all `f64` seconds held as bit patterns).
#[derive(Clone, Copy, Debug, PartialEq, Eq, Structural)]
pub struct Distr {
    /// The kind of distribution and its parameters.
    pub kind: DistrKind,
    /// Offset added to samples.
    pub offset: u64,
    /// Optional minimum for samples.
    pub min: Option<u64>,
    /// Optional maximum for samples.
    pub max: Option<u64>,
}

impl Distr {
    /// A distribution of the given kind, with no offset (0.0) and no bounds.
    pub fn of_kind(kind: DistrKind) -> (r: Self)
        ensures
            r == (Distr { kind, offset: 0, min: None, max: None }),
    {
        Distr { kind, offset: 0, min: None, max: None }
    }

    /// Sets the offset.
    pub fn with_offset(self, offset: u64) -> (r: Self)
        ensures
            r == (Distr { offset, ..self }),
    {
        Distr { offset, ..self }
    }

    /// Sets the minimum.
    pub fn with_min(self, min: Option<u64>) -> (r: Self)
        ensures
            r == (Distr { min, ..self }),
    {
        Distr { min, ..self }
    }

    /// Sets the maximum.
    pub fn with_max(self, max: Option<u64>) -> (r: Self)
        ensures
            r == (Distr { max, ..self }),
    {
        Distr { max, ..self }
    }
}

/// Actions an integrator should take.
#[derive(Clone, Copy, Debug, PartialEq, Eq, Structural)]
pub enum IntegratorAction {
    /// Send a decoy packet.
    SendDecoy,
    /// Block outgoing packets for a duration drawn from the distribution.
    BlockOutgoing(Distr),
    /// Release any existing block on outgoing packets.
    ReleaseBlock,
}

impl IntegratorAction {
    /// Constructor for [`IntegratorAction::BlockOutgoing`].
    pub fn block_outgoing(delay: Distr) -> (r: Self)
        ensures
            r == IntegratorAction::BlockOutgoing(delay),
    {
        IntegratorAction::BlockOutgoing(delay)
    }
}

/// Actions the framework should take.
#[derive(Clone, Copy, Debug, PartialEq, Eq, Structural)]
pub enum FrameworkAction {
    /// Schedule an [`IntegratorAction`] to expire after a delay on the given queue.
    Schedule {
        /// The action to schedule.
        action: IntegratorAction,
        /// The queue to schedule on.
        queue: u8,
        /// The delay for scheduling.
        delay: Distr,
    },
    /// Cancel all actions on a given queue.
    CancelQueue(u8),
    /// Cancel all actions on all queues.
    CancelAll,
}

impl FrameworkAction {
    /// A [`FrameworkAction::Schedule`] with the given action, queue and delay.
    pub fn schedule(action: IntegratorAction, queue: u8, delay: Distr) -> (r: Self)
        ensures
            r == (FrameworkAction::Schedule { action, queue, delay }),
    {
        FrameworkAction::Schedule { action, queue, delay }
    }
}

/// Either an action for the framework or one for the integrator.
#[derive(Clone, Copy, Debug, PartialEq, Eq, Structural)]
pub enum Action {
    /// An action for the framework to take.
    Framework(FrameworkAction),
    /// An action for the integrator to take.
    Integrator(IntegratorAction),
}

impl From<FrameworkAction> for Action {
    fn from(value: FrameworkAction) -> (r: Self) {
        Action::Framework(value)
    }
}

impl vstd::std_specs::convert::FromSpecImpl<FrameworkAction> for Action {
    open spec fn obeys_from_spec() -> bool {
        true
    }

    open spec fn from_spec(v: FrameworkAction) -> Action {
        Action::Framework(v)
    }
}

impl From<IntegratorAction> for Action {
    fn from(value: IntegratorAction) -> (r: Self) {
        Action::Integrator(value)
    }
}

impl vstd::std_specs::convert::FromSpecImpl<IntegratorAction> for Action {
    open spec fn obeys_from_spec() -> bool {
        true
    }

    open spec fn from_spec(v: IntegratorAction) -> Action {
        Action::Integrator(v)
    }
}

} // verus!
