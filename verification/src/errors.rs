//! Errors for validating machines and their component parts.

use vstd::prelude::*;

verus! {

/// Primary error type of the framework.
#[derive(Debug, PartialEq)]
pub enum ChaffError {
    /// An error during validation of a machine or its component parts.
    Validation(ValidationError),
}

/// Errors that could occur during validation of a machine spec or its component parts.
#[derive(Debug, PartialEq)]
pub enum ValidationError {
    /// A transition probability, or a sum of them, is negative, exceeds `1.0` or is NaN (the `f32`
    /// bit pattern found).
    BadTransitionProbs(u32),
    /// Transitions lead to out-of-range states (the state indices found).
    TransitionToInvalidState(Vec<usize>),
    /// State actions interact with non-existent queues (the queue indices found).
    InvalidStateActionQueue(Vec<u8>),
    /// More queues than fit in a `u8` index (the number of queues given).
    TooManyQueues(usize),
    /// The machine has no states.
    NoStates,
    /// A proportional decoy budget is negative (the `f64` bit pattern found).
    NegativeProportion(u64),
    /// Distribution parameters are invalid (the reason).
    InvalidDistr(String),
    /// More than one of the above.
    Multiple(Vec<ValidationError>),
}

/// The mathematical form of a [`ValidationError`] that is not [`ValidationError::Multiple`].
pub enum ValidationErrorView {
    BadTransitionProbs(u32),
    TransitionToInvalidState(Seq<usize>),
    InvalidStateActionQueue(Seq<u8>),
    TooManyQueues(usize),
    NoStates,
    NegativeProportion(u64),
    InvalidDistr(Seq<char>),
    Multiple,
}

impl View for ValidationError {
    type V = ValidationErrorView;

    open spec fn view(&self) -> ValidationErrorView {
        match self {
            ValidationError::BadTransitionProbs(p) => ValidationErrorView::BadTransitionProbs(*p),
            ValidationError::TransitionToInvalidState(s) => ValidationErrorView::TransitionToInvalidState(
                s@,
            ),
            ValidationError::InvalidStateActionQueue(q) => ValidationErrorView::InvalidStateActionQueue(
                q@,
            ),
            ValidationError::TooManyQueues(n) => ValidationErrorView::TooManyQueues(*n),
            ValidationError::NoStates => ValidationErrorView::NoStates,
            ValidationError::NegativeProportion(p) => ValidationErrorView::NegativeProportion(*p),
            ValidationError::InvalidDistr(m) => ValidationErrorView::InvalidDistr(m@),
            ValidationError::Multiple(_) => ValidationErrorView::Multiple,
        }
    }
}

/// The errors inside a [`ValidationError::Multiple`], each by its view; empty for other errors.
pub open spec fn inner_errors(e: ValidationError) -> Seq<ValidationErrorView> {
    match e {
        ValidationError::Multiple(v) => v@.map_values(|x: ValidationError| x@),
        _ => Seq::empty(),
    }
}

} // verus!
