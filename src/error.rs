use vstd::prelude::*;

verus! {

/// Errors raised while building, validating or running a model.
#[derive(Debug, Clone, PartialEq, Eq)]
pub enum ActorError {
    /// An input's upstream closed during an expected receive (graceful).
    DropRecv { who: String },
    /// Every downstream of an output closed during a send (graceful).
    DropSend { who: String },
    /// A client's produce returned nothing (graceful).
    NoData,
    /// An actor was used as one with inputs but has none.
    NoInputs,
    /// An actor was used as one with outputs but has none.
    NoOutputs,
    /// An actor has no client.
    NoClient,
    /// One edge terminated gracefully.
    Disconnected(String),
    /// The actor has inputs but its inputs rate is zero.
    SomeInputsZeroRate(String),
    /// The actor has no inputs but a positive inputs rate.
    NoInputsPositiveRate(String),
    /// The actor has outputs but its outputs rate is zero.
    SomeOutputsZeroRate(String),
    /// The actor has no outputs but a positive outputs rate.
    NoOutputsPositiveRate(String),
    /// An output of the actor is connected to no input.
    OrphanOutput(String),
    /// Two rates that meet at an actor or on an edge are not integer multiples.
    RateMismatch(String),
}

impl ActorError {
    pub open spec fn spec_is_graceful(&self) -> bool {
        match self {
            ActorError::DropRecv { .. } => true,
            ActorError::DropSend { .. } => true,
            ActorError::NoData => true,
            ActorError::Disconnected(_) => true,
            _ => false,
        }
    }

    /// Whether the error only reports the orderly end of an actor's loop.
    #[verifier::when_used_as_spec(spec_is_graceful)]
    pub fn is_graceful(&self) -> (r: bool)
        ensures
            r == self.spec_is_graceful(),
    {
        match self {
            ActorError::DropRecv { .. } => true,
            ActorError::DropSend { .. } => true,
            ActorError::NoData => true,
            ActorError::Disconnected(_) => true,
            _ => false,
        }
    }
}

} // verus!
