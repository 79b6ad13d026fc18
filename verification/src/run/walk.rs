//! A run, step by step.
//!
//! The plan gives the order; the walk goes through it one block at a time
//! and decides what each block does: run, stay idle because a Branch did not
//! take its path, or be skipped because something it needed failed. Running
//! the block is the daemon's; what the run does with the block's result is
//! here. A block that throws does not stop the run: what needed it is
//! skipped, every other branch still runs, and the run ends Failed.
use vstd::prelude::*;
use crate::run::event::RunOutcome;
use crate::run::graph::{block_index, block_named, Catalogue, Endpoint, Graph, Wire};
use crate::run::plan::ev;
use crate::run::runner::{ends, first_missing, missing_input, off_path, off_the_path, outcome};
use crate::text::{append, owned, views};

verus! {

/// Where a run has got to.
pub struct Walk {
    /// The position in the order of the next block.
    pub at: usize,
    /// Blocks that ran and finished.
    pub ran: Vec<String>,
    /// Blocks that failed, or were skipped for want of an input.
    pub failed: Vec<String>,
    /// Ports that carry a value.
    pub held: Vec<Endpoint>,
    /// What went wrong, `block: message`, in the order it did.
    pub errors: Vec<String>,
    /// Told to stop.
    pub stopped: bool,
}

/// A walk as the contracts see it.
#[verifier::ext_equal]
pub struct WalkView {
    pub at: nat,
    pub ran: Seq<Seq<char>>,
    pub failed: Seq<Seq<char>>,
    pub held: Seq<(Seq<char>, Seq<char>)>,
    pub errors: Seq<Seq<char>>,
    pub stopped: bool,
}

impl View for Walk {
    type V = WalkView;

    open spec fn view(&self) -> WalkView {
        WalkView {
            at: self.at as nat,
            ran: views(self.ran@),
            failed: views(self.failed@),
            held: ends(self.held@),
            errors: views(self.errors@),
            stopped: self.stopped,
        }
    }
}

/// What happens next.
pub enum StepAction {
    /// The run is over, and this is how it ended.
    Finish(RunOutcome),
    /// The next id in the order names no block of the graph: go past it.
    Pass,
    /// The next block is on a path a Branch did not take: it stays idle.
    Idle,
    /// The next block is skipped: this block fed it and produced nothing.
    Skip(String),
    /// Run the next block.
    Run,
}

/// What happens next, as the contracts see it.
pub enum Next {
    Finish(RunOutcome),
    Pass,
    Idle,
    Skip(Seq<char>),
    Run,
}

pub open spec fn next_view(a: StepAction) -> Next {
    match a {
        StepAction::Finish(o) => Next::Finish(o),
        StepAction::Pass => Next::Pass,
        StepAction::Idle => Next::Idle,
        StepAction::Skip(m) => Next::Skip(m@),
        StepAction::Run => Next::Run,
    }
}

pub open spec fn outcome_of(stopped: bool, errors: nat) -> RunOutcome {
    if stopped { RunOutcome::Stopped } else if errors == 0 { RunOutcome::Finished } else { RunOutcome::Failed }
}

/// Whether the walk is over: stopped, or through the order.
pub open spec fn over(order: Seq<Seq<char>>, w: WalkView, cancelled: bool) -> bool {
    w.stopped || cancelled || w.at >= order.len()
}

/// What the walk does next.
pub open spec fn next_step_of(g: Graph, cat: Catalogue, order: Seq<Seq<char>>, w: WalkView, cancelled: bool) -> Next {
    if over(order, w, cancelled) {
        Next::Finish(outcome_of(w.stopped || cancelled, w.errors.len()))
    } else {
        let b = order[w.at as int];
        if block_named(g.blocks@, b) is None {
            Next::Pass
        } else if off_path(g, cat, b, w.ran, w.held) {
            Next::Idle
        } else {
            match first_missing(g.wires@, b, w.failed, 0) {
                Some(m) => Next::Skip(m),
                None => Next::Run,
            }
        }
    }
}

/// Decide what the walk does next. `cancelled` is whether someone has
/// asked the run to stop since the last step.
pub fn next_step(g: &Graph, cat: &Catalogue, order: &Vec<String>, w: &Walk, cancelled: bool) -> (a: StepAction)
    ensures
        next_view(a) == next_step_of(*g, *cat, views(order@), w@, cancelled),
{
    if w.stopped || cancelled || w.at >= order.len() {
        return StepAction::Finish(outcome(w.stopped || cancelled, w.errors.len()));
    }
    let b = &order[w.at];
    proof { assert(views(order@)[w.at as int] == b@); }
    if block_index(&g.blocks, b).is_none() {
        return StepAction::Pass;
    }
    if off_the_path(g, cat, b.as_str(), &w.ran, &w.held) {
        return StepAction::Idle;
    }
    match missing_input(g, b.as_str(), &w.failed) {
        Some(m) => StepAction::Skip(m),
        None => StepAction::Run,
    }
}

/// What came of a step.
pub enum StepResult {
    /// Nothing ran: the block was passed, idle or skipped.
    Passed,
    /// Skipped for want of an input: it produced nothing either.
    Skipped,
    /// It ran and threw, with this message.
    Failed(String),
    /// It ran and put values on these ports.
    Produced(Vec<String>),
    /// The run was told to stop while the block ran.
    Stopped,
}

pub enum ResultView {
    Passed,
    Skipped,
    Failed(Seq<char>),
    Produced(Seq<Seq<char>>),
    Stopped,
}

pub open spec fn result_view(r: StepResult) -> ResultView {
    match r {
        StepResult::Passed => ResultView::Passed,
        StepResult::Skipped => ResultView::Skipped,
        StepResult::Failed(m) => ResultView::Failed(m@),
        StepResult::Produced(ps) => ResultView::Produced(views(ps@)),
        StepResult::Stopped => ResultView::Stopped,
    }
}

/// The ports a block put values on.
pub open spec fn outputs(block: Seq<char>, ports: Seq<Seq<char>>) -> Seq<(Seq<char>, Seq<char>)> {
    ports.map_values(|p: Seq<char>| (block, p))
}

/// The walk after `block`'s step: a failure is recorded and marks the block
/// failed, a skip marks it failed, what a block produced is held, and the
/// walk moves on.
pub open spec fn walked(w: WalkView, block: Seq<char>, r: ResultView) -> WalkView {
    let on = WalkView { at: w.at + 1, ..w };
    match r {
        ResultView::Passed => on,
        ResultView::Skipped => WalkView { failed: w.failed.push(block), ..on },
        ResultView::Failed(m) => WalkView {
            failed: w.failed.push(block),
            errors: w.errors.push(block + ": "@ + m),
            ..on
        },
        ResultView::Produced(ps) => WalkView { ran: w.ran.push(block), held: w.held + outputs(block, ps), ..on },
        ResultView::Stopped => WalkView { stopped: true, ..w },
    }
}

/// Take in what came of the step of the block at the walk's position.
pub fn after_step(w: &mut Walk, order: &Vec<String>, r: StepResult)
    requires
        old(w).at < order@.len(),
    ensures
        final(w)@ == walked(old(w)@, views(order@)[old(w).at as int], result_view(r)),
{
    let ghost block = views(order@)[w.at as int];
    let n = order.len();
    let b = &order[w.at];
    let next = w.at + 1;
    match r {
        StepResult::Passed => {
            w.at = next;
        },
        StepResult::Skipped => {
            let ghost before = views(w.failed@);
            w.failed.push(b.clone());
            proof { assert(views(w.failed@) =~= before.push(block)); }
            w.at = next;
        },
        StepResult::Failed(m) => {
            let ghost before = views(w.failed@);
            w.failed.push(b.clone());
            proof { assert(views(w.failed@) =~= before.push(block)); }
            let mut line = owned(b.as_str());
            append(&mut line, ": ");
            append(&mut line, m.as_str());
            let ghost errs = views(w.errors@);
            w.errors.push(line);
            proof { assert(views(w.errors@) =~= errs.push(block + ": "@ + m@)); }
            w.at = next;
        },
        StepResult::Produced(ps) => {
            let ghost before = views(w.ran@);
            w.ran.push(b.clone());
            proof { assert(views(w.ran@) =~= before.push(block)); }
            let ghost start = ends(w.held@);
            let mut k: usize = 0;
            while k < ps.len()
                invariant
                    k <= ps@.len(),
                    b@ == block,
                    ends(w.held@) == start + outputs(block, views(ps@).take(k as int)),
                    start == ends(old(w).held@),
                    views(w.ran@) == views(old(w).ran@).push(block),
                    w.failed == old(w).failed,
                    w.errors == old(w).errors,
                    w.stopped == old(w).stopped,
                    w.at == old(w).at,
                    next == old(w).at + 1,
                decreases ps.len() - k,
            {
                let ghost prev = ends(w.held@);
                w.held.push(Endpoint::new(b.as_str(), ps[k].as_str()));
                proof {
                    assert(ends(w.held@) =~= prev.push((block, ps@[k as int]@)));
                    assert(outputs(block, views(ps@).take(k + 1)) =~= outputs(block, views(ps@).take(k as int)).push((block, ps@[k as int]@)));
                }
                k = k + 1;
            }
            proof { assert(views(ps@).take(ps@.len() as int) =~= views(ps@)); }
            w.at = next;
        },
        StepResult::Stopped => {
            w.stopped = true;
        },
    }
}

/// A walk at the start: nothing run, nothing held, nothing wrong.
pub fn start_walk() -> (w: Walk)
    ensures
        w@ == (WalkView { at: 0, ran: seq![], failed: seq![], held: seq![], errors: seq![], stopped: false }),
{
    let w = Walk { at: 0, ran: Vec::new(), failed: Vec::new(), held: Vec::new(), errors: Vec::new(), stopped: false };
    proof {
        assert(views(w.ran@) =~= Seq::<Seq<char>>::empty());
        assert(views(w.failed@) =~= Seq::<Seq<char>>::empty());
        assert(views(w.errors@) =~= Seq::<Seq<char>>::empty());
        assert(ends(w.held@) =~= Seq::<(Seq<char>, Seq<char>)>::empty());
    }
    w
}

proof fn lemma_first_missing_found(wires: Seq<Wire>, block: Seq<char>, failed: Seq<Seq<char>>, k: int, i: int)
    requires
        0 <= k <= i < wires.len(),
        wires[i].to.node@ == block,
        failed.contains(wires[i].from.node@),
    ensures
        first_missing(wires, block, failed, k) is Some,
    decreases i - k,
{
    if k < i && !(wires[k].to.node@ == block && failed.contains(wires[k].from.node@)) {
        lemma_first_missing_found(wires, block, failed, k + 1, i);
    }
}

proof fn lemma_first_missing_none(wires: Seq<Wire>, block: Seq<char>, failed: Seq<Seq<char>>, k: int)
    requires
        0 <= k,
        forall|i: int| 0 <= i < wires.len() && (#[trigger] wires[i]).to.node@ == block ==> !failed.contains(wires[i].from.node@),
    ensures
        first_missing(wires, block, failed, k) is None,
    decreases wires.len() - k,
{
    if k < wires.len() {
        lemma_first_missing_none(wires, block, failed, k + 1);
    }
}

/// A block that throws does not stop the run. Its failure is recorded as
/// one error; the run is not stopped, so the walk goes on to the next block
/// in the order; a block it fed is skipped rather than run; a block that
/// nothing failed feeds, and that is on a taken path, runs; and a run that
/// reaches its end having recorded an error ends Failed.
pub proof fn law_failure_is_contained(g: Graph, cat: Catalogue, order: Seq<Seq<char>>, w: WalkView, message: Seq<char>, c: Seq<char>)
    requires
        w.at < order.len(),
        !w.stopped,
    ensures
        ({
            let after = walked(w, order[w.at as int], ResultView::Failed(message));
            &&& after.errors.len() == w.errors.len() + 1
            &&& !after.stopped
            &&& after.failed.contains(order[w.at as int])
            &&& after.at < order.len() ==> !(next_step_of(g, cat, order, after, false) is Finish)
            &&& (exists|i: int| 0 <= i < g.wires@.len() && (#[trigger] g.wires@[i]).to.node@ == c
                    && g.wires@[i].from.node@ == order[w.at as int])
                ==> first_missing(g.wires@, c, after.failed, 0) is Some
            &&& next_step_of(g, cat, order, WalkView { at: order.len(), ..after }, false)
                == Next::Finish(RunOutcome::Failed)
        }),
{
    let b = order[w.at as int];
    let after = walked(w, b, ResultView::Failed(message));
    assert(after.failed.last() == b);
    if exists|i: int| 0 <= i < g.wires@.len() && (#[trigger] g.wires@[i]).to.node@ == c && g.wires@[i].from.node@ == b {
        let i = choose|i: int| 0 <= i < g.wires@.len() && (#[trigger] g.wires@[i]).to.node@ == c && g.wires@[i].from.node@ == b;
        assert(after.failed[after.failed.len() - 1] == b);
        lemma_first_missing_found(g.wires@, c, after.failed, 0, i);
    }
}

/// Every block that exists, is on a taken path, and that no failed block
/// feeds, runs: a failure elsewhere in the graph does not reach it.
pub proof fn law_other_branches_run(g: Graph, cat: Catalogue, order: Seq<Seq<char>>, w: WalkView)
    requires
        !over(order, w, false),
        block_named(g.blocks@, order[w.at as int]) is Some,
        !off_path(g, cat, order[w.at as int], w.ran, w.held),
        forall|i: int| 0 <= i < g.wires@.len() && (#[trigger] g.wires@[i]).to.node@ == order[w.at as int]
            ==> !w.failed.contains(g.wires@[i].from.node@),
    ensures
        next_step_of(g, cat, order, w, false) == Next::Run,
{
    lemma_first_missing_none(g.wires@, order[w.at as int], w.failed, 0);
}

/// A run ends Failed exactly when it was not stopped and recorded an error.
pub proof fn law_failed_iff_errors(g: Graph, cat: Catalogue, order: Seq<Seq<char>>, w: WalkView)
    requires
        w.at >= order.len(),
    ensures
        (next_step_of(g, cat, order, w, false) == Next::Finish(RunOutcome::Failed)) <==> (!w.stopped && w.errors.len() > 0),
{
}

} // verus!

verus! {

/// A block below a Merge of two branches runs when either branch was
/// taken: if a control wire into the next block carries a value, nothing it
/// needed failed, and the block exists, the walk runs it.
pub proof fn law_either_branch_runs_the_merge(g: Graph, cat: Catalogue, order: Seq<Seq<char>>, w: WalkView)
    requires
        !over(order, w, false),
        block_named(g.blocks@, order[w.at as int]) is Some,
        exists|i: int| 0 <= i < g.wires@.len() && crate::run::runner::exec_into(g, cat, order[w.at as int], #[trigger] g.wires@[i])
            && w.held.contains((g.wires@[i].from.node@, g.wires@[i].from.port@)),
        forall|i: int| 0 <= i < g.wires@.len() && (#[trigger] g.wires@[i]).to.node@ == order[w.at as int]
            ==> !w.failed.contains(g.wires@[i].from.node@),
    ensures
        next_step_of(g, cat, order, w, false) == Next::Run,
{
    crate::run::runner::law_one_taken_way_is_enough(g, cat, order[w.at as int], w.ran, w.held);
    law_other_branches_run(g, cat, order, w);
}

} // verus!
