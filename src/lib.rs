//! Dataflow actor runtime: actors wrap clients, exchange payloads through
//! FIFO channels at integer sampling-rate ratios, and a model validates and
//! drives the whole graph to completion.
use vstd::prelude::*;

pub mod actor;
pub mod channel;
pub mod clients;
pub mod error;
pub mod laws;
pub mod model;
pub mod ports;
pub mod runtime;
pub mod windloads;

pub use actor::{Actor, Initiator, Op, Outcome, Output, OutputObject, StepLoop, Terminator, Who};
pub use channel::{Channel, RecvError, SendError};
pub use clients::{Logging, Sampler};
pub use error::ActorError;
pub use model::{Model, OutputBuilder};
pub use runtime::{Client, RunReport, Scheduler};
