//! The Cyberloom engine: the parts of it that decide things, with what they
//! decide stated and proved.
pub mod fetch;
pub mod rpc;
pub mod run;
pub mod session;
pub mod settings;
pub mod text;
pub mod workspace;

use vstd::prelude::*;
use crate::rpc::{Acknowledged, EngineStatus};
use crate::run::runner::Decision;
use crate::session::Session;
use crate::workspace::Workspace;

verus! {

/// Everything the engine knows. One workspace per engine; a second
/// workspace is a second engine, which is what makes both cheap to reason
/// about.
pub struct Engine {
    workspace: Workspace,
}

/// A count as the protocol's 32 bits carry it.
pub open spec fn wire_count(n: nat) -> u32 {
    (n % 0x1_0000_0000) as u32
}

fn count32(n: usize) -> (c: u32)
    ensures
        c == wire_count(n as nat),
{
    (n as u64 % 0x1_0000_0000) as u32
}

impl Engine {
    pub fn new(workspace: Workspace) -> (e: Engine)
        ensures
            e.serving() == workspace,
    {
        Engine { workspace }
    }

    /// The workspace this engine serves.
    pub closed spec fn serving(&self) -> Workspace {
        self.workspace
    }

    pub fn workspace(&self) -> (w: &Workspace)
        ensures
            w == self.serving(),
    {
        &self.workspace
    }

    /// `engine.status`: what this engine is, where, and what it can see.
    pub fn status(&self, version: &str, graphs: usize, kinds: usize) -> (s: EngineStatus)
        ensures
            s.version@ == version@,
            s.workspace@ == self.serving().root_path(),
            s.graphs == wire_count(graphs as nat),
            s.kinds == wire_count(kinds as nat),
    {
        EngineStatus {
            version: crate::text::owned(version),
            workspace: crate::text::owned(self.workspace.root()),
            graphs: count32(graphs),
            kinds: count32(kinds),
        }
    }

    /// `run.stop`: stop a run, or every run on the connection.
    pub fn stop(&self, session: &mut Session, run: Option<&str>) -> (r: (Acknowledged, Vec<String>))
        ensures
            r.0.ok,
            r.0.count == wire_count(crate::session::reached_upto(old(session)@, crate::session::opt_view(run), old(session)@.len() as int)),
            crate::text::views(r.1@) == crate::session::drained_upto(old(session)@, crate::session::opt_view(run), old(session)@.len() as int),
            final(session)@ == crate::session::stopped(old(session)@, crate::session::opt_view(run)),
            final(session).replies() == old(session).replies() + crate::session::stops(crate::text::views(r.1@)),
    {
        let (n, woken) = session.stop(run);
        (Acknowledged { ok: true, count: count32(n) }, woken)
    }

    /// `run.pause`: hold a live graph, or let it go.
    pub fn pause(&self, session: &mut Session, run: Option<&str>, paused: bool) -> (a: Acknowledged)
        ensures
            a.ok,
            a.count == wire_count(crate::session::reached_upto(old(session)@, crate::session::opt_view(run), old(session)@.len() as int)),
            final(session)@ == crate::session::held(old(session)@, crate::session::opt_view(run), paused),
    {
        let n = session.hold(run, paused);
        Acknowledged { ok: true, count: count32(n) }
    }

    /// `run.continue`: answer a warning with Continue, Continue always or
    /// Stop, which the run parked on it then reads. Answering one nobody is
    /// parked on is not an error, it is what a second click looks like.
    pub fn answer(&self, session: &mut Session, warning: &str, decision: Decision) -> (a: Acknowledged)
        ensures
            a.ok == crate::session::parked_on(old(session)@, warning@),
            a.count == if a.ok { 1u32 } else { 0u32 },
            final(session)@ == crate::session::answered(old(session)@, warning@),
            final(session).replies() == if a.ok { old(session).replies().push((warning@, decision)) } else { old(session).replies() },
    {
        let ok = session.answer(warning, decision);
        Acknowledged { ok, count: if ok { 1 } else { 0 } }
    }
}

} // verus!
