//! What the engine says while a graph runs: the states a block can be in,
//! how a run ended, and how loud a console line is.
//!
//! The events themselves carry values of every shape and travel as JSON; the
//! daemon builds them. These are the words they are built from.
use vstd::prelude::*;

verus! {

/// The state a block is in, which is what the canvas draws as its status
/// dot.
#[derive(Debug, Clone, Copy, PartialEq, Eq, Structural)]
pub enum BlockState {
    /// Placed, never run.
    Idle,
    /// Waiting on an upstream block.
    Queued,
    /// Executing now; its wires animate.
    Running,
    /// Produced a value this run.
    Done,
    /// Threw. The console holds the trace.
    Error,
    /// Skipped, wires kept.
    Disabled,
    /// A capability rather than a step: bound to a holder, and run only if
    /// called. Showing it as done would claim it had produced a value when
    /// nobody had asked it for one.
    Ready,
}

/// How a run ended.
#[derive(Debug, Clone, Copy, PartialEq, Eq, Structural)]
pub enum RunOutcome {
    Finished,
    /// The user pressed stop.
    Stopped,
    /// At least one block errored. The run still reached the end: a block
    /// that throws does not tear the graph down, it reports.
    Failed,
}

/// Where a console line came from, so the shell can colour it by category.
#[derive(Debug, Clone, Copy, PartialEq, Eq, Structural)]
pub enum Level {
    Info,
    Warn,
    Error,
}


} // verus!
