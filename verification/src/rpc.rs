//! The protocol between the shell and the engine: the replies whose content
//! the engine decides. One JSON object per line, in both directions; the
//! JSON is the daemon's.
use vstd::prelude::*;
use crate::settings::{Probe, WorkspaceSettings};
use crate::text::owned;

verus! {

/// Not an exception: the shell shows it and carries on.
#[derive(Debug, Clone, PartialEq, Eq)]
pub struct RpcError {
    /// A stable key the shell can branch on.
    pub code: String,
    /// One sentence, already fit to show a person.
    pub message: String,
}

impl RpcError {
    pub fn new(code: &str, message: String) -> (e: RpcError)
        ensures
            e.code@ == code@,
            e.message@ == message@,
    {
        RpcError { code: owned(code), message }
    }
}

/// A run has started; everything it has to say arrives as events.
#[derive(Debug, Clone, PartialEq, Eq)]
pub struct RunStarted {
    pub run: String,
    /// What the plan could not do. The run starts anyway.
    pub problems: Vec<String>,
}

/// How many runs a stop or a hold reached, or whether a warning was
/// answered.
#[derive(Debug, Clone, Copy, PartialEq, Eq, Structural)]
pub struct Acknowledged {
    pub ok: bool,
    pub count: u32,
}

/// What the engine is and what it can reach.
#[derive(Debug, Clone, PartialEq, Eq)]
pub struct EngineStatus {
    pub version: String,
    /// The workspace folder this engine is serving.
    pub workspace: String,
    /// How many graphs it can see.
    pub graphs: u32,
    /// The catalogue's size, so a shell can tell at a glance whether it is
    /// talking to an engine that knows the same blocks it does.
    pub kinds: u32,
}

/// What the settings screen draws: what was chosen, and what is there.
#[derive(Debug, Clone, PartialEq, Eq)]
pub struct WorkspaceInfo {
    /// The folder itself, so the screen can say which workspace this is.
    pub root: String,
    pub settings: WorkspaceSettings,
    pub probe: Probe,
}

} // verus!
