//! Scheduling core of a line-oriented parallel command dispatcher.

pub mod dispatcher;
pub mod distribution;
pub mod host;
pub mod launch;
pub mod laws;
pub mod line;
pub mod model;
pub mod policy;
pub mod replay;
pub mod serial;
pub mod sink;
pub mod text;

pub use dispatcher::{Dispatch, Dispatcher, Outcome, Progress};
pub use distribution::{Distribution, Place};
pub use host::{ParseHostError, RemoteHost};
pub use launch::{dispatcher_args, input_record};
pub use line::split_line;
pub use model::LineEnd;

pub use policy::{ParsePolicyError, TerminationType};
pub use replay::{replay, Timed};
pub use sink::OutputSink;
