//! What a run tells the shell, in order: that it started and in what order
//! it will go, what each block is doing, every tool call and what it
//! answered, and how it ended with what reached the Output blocks.
//!
//! The events a value rides on carry where the value is held rather than
//! the value: the daemon has the values, and it is the daemon that writes
//! each event out as a line of JSON.
use vstd::prelude::*;
use crate::run::blocks::{figure_text, tool_result_text, Output};
use crate::run::event::{BlockState, Level, RunOutcome};
use crate::run::graph::{Catalogue, Endpoint, Graph};
use crate::run::plan::{ev, Plan};
use crate::run::runner::{ends, input_views, inputs_of, inputs_upto, opening_state, port_at, refusal_text, Route, Routed};
use crate::run::walk::{outcome_of, Walk};
use crate::text::{owned, same, views};

verus! {

/// One event of a run.
pub enum RunEvent<A> {
    /// The run began, and will visit its steps in this order.
    Started { run: String, graph: String, order: Vec<String> },
    BlockState { run: String, block: String, state: BlockState },
    /// A line for the console, from a block or from the run itself.
    Console { run: String, source: Option<String>, level: Level, message: String },
    /// A model called a tool: the block holding the handle, the block that
    /// answers, the name a person reads, and the arguments as sent.
    ToolCall { run: String, caller: String, callee: String, name: String, arguments: A },
    /// A block finished, with the text on each of these ports.
    BlockDone { run: String, block: String, outputs: Vec<(String, String)>, ms: u32, figure: Option<String> },
    BlockError { run: String, block: String, message: String },
    /// What the model reads back from a call, and whether it went well.
    ToolResult { run: String, caller: String, callee: String, name: String, result: String, ok: bool, ms: u32 },
    /// The run ended: how, how long it took, and each Output block's name
    /// with the port its value is held on.
    Finished { run: String, outcome: RunOutcome, ms: u32, results: Vec<(String, Endpoint)> },
}

/// An event as the contracts see it.
pub enum Ev<A> {
    Started(Seq<char>, Seq<char>, Seq<Seq<char>>),
    BlockState(Seq<char>, Seq<char>, BlockState),
    Console(Seq<char>, Option<Seq<char>>, Level, Seq<char>),
    ToolCall(Seq<char>, Seq<char>, Seq<char>, Seq<char>, A),
    BlockDone(Seq<char>, Seq<char>, Seq<(Seq<char>, Seq<char>)>, u32, Option<Seq<char>>),
    BlockError(Seq<char>, Seq<char>, Seq<char>),
    ToolResult(Seq<char>, Seq<char>, Seq<char>, Seq<char>, Seq<char>, bool, u32),
    Finished(Seq<char>, RunOutcome, u32, Seq<(Seq<char>, (Seq<char>, Seq<char>))>),
}

pub open spec fn opt_seq(o: Option<String>) -> Option<Seq<char>> {
    match o {
        Some(s) => Some(s@),
        None => None,
    }
}

pub open spec fn pairs(v: Seq<(String, String)>) -> Seq<(Seq<char>, Seq<char>)> {
    v.map_values(|p: (String, String)| (p.0@, p.1@))
}

pub open spec fn named_ends(v: Seq<(String, Endpoint)>) -> Seq<(Seq<char>, (Seq<char>, Seq<char>))> {
    v.map_values(|p: (String, Endpoint)| (p.0@, ev(p.1)))
}

pub open spec fn ev_of<A>(e: RunEvent<A>) -> Ev<A> {
    match e {
        RunEvent::Started { run, graph, order } => Ev::Started(run@, graph@, views(order@)),
        RunEvent::BlockState { run, block, state } => Ev::BlockState(run@, block@, state),
        RunEvent::Console { run, source, level, message } => Ev::Console(run@, opt_seq(source), level, message@),
        RunEvent::ToolCall { run, caller, callee, name, arguments } => Ev::ToolCall(run@, caller@, callee@, name@, arguments),
        RunEvent::BlockDone { run, block, outputs, ms, figure } => Ev::BlockDone(run@, block@, pairs(outputs@), ms, opt_seq(figure)),
        RunEvent::BlockError { run, block, message } => Ev::BlockError(run@, block@, message@),
        RunEvent::ToolResult { run, caller, callee, name, result, ok, ms } => Ev::ToolResult(run@, caller@, callee@, name@, result@, ok, ms),
        RunEvent::Finished { run, outcome, ms, results } => Ev::Finished(run@, outcome, ms, named_ends(results@)),
    }
}

pub open spec fn evs<A>(v: Seq<RunEvent<A>>) -> Seq<Ev<A>> {
    v.map_values(|e: RunEvent<A>| ev_of(e))
}

// ------------------------------------------------------------- tool calls

/// What a call that was made came to: the tool's output, or why it failed.
pub open spec fn done_view(done: Option<Result<Output, String>>) -> Option<Result<(Seq<char>, Seq<char>, int), Seq<char>>> {
    match done {
        Some(Ok(o)) => Some(Ok((o.stdout@, o.stderr@, o.code as int))),
        Some(Err(m)) => Some(Err(m@)),
        None => None,
    }
}

/// The daemon runs the tool only for a call that goes ahead. A call a
/// fault refused is reported like any other, and runs nothing.
pub open spec fn runs_tool(r: Route) -> bool {
    r is Call
}

/// What the model reads back from a call.
pub open spec fn call_result_of(display: Seq<char>, callee: Seq<char>, r: Route, done: Option<Result<(Seq<char>, Seq<char>, int), Seq<char>>>) -> Seq<char> {
    match refusal_text(display, callee, r) {
        Some(t) => t,
        None => match done {
            Some(Ok((out, err, code))) => tool_result_text(out, err, code),
            Some(Err(m)) => m,
            None => seq![],
        },
    }
}

/// The events of one tool call, in order. A call to no tool, to one the
/// model was not given, or to no block is answered without a trace. Any
/// other call — a refused one too — is shown called and running, then
/// done or failed, then its result, then standing ready again, since a
/// capability that answered once may be asked again.
pub open spec fn call_events_of<A>(
    run: Seq<char>,
    caller: Seq<char>,
    display: Seq<char>,
    callee: Seq<char>,
    r: Route,
    arguments: A,
    done: Option<Result<(Seq<char>, Seq<char>, int), Seq<char>>>,
    ms: u32,
) -> Seq<Ev<A>> {
    if r is Unknown || r is NotGiven || r is NoBlock {
        seq![]
    } else {
        let result = call_result_of(display, callee, r, done);
        let middle = match r {
            Route::Refused(_) => Ev::BlockError(run, callee, result),
            _ => match done {
                Some(Ok((out, err, code))) => Ev::BlockDone(run, callee, seq![("stdout"@, out)], ms, Some(figure_text(out, err, code))),
                _ => Ev::BlockError(run, callee, result),
            },
        };
        let ok = match r {
            Route::Refused(_) => false,
            _ => match done {
                Some(Ok((_, _, code))) => code == 0,
                _ => false,
            },
        };
        seq![
            Ev::ToolCall(run, caller, callee, display, arguments),
            Ev::BlockState(run, callee, BlockState::Running),
            middle,
            Ev::ToolResult(run, caller, callee, display, result, ok, ms),
            Ev::BlockState(run, callee, BlockState::Ready),
        ]
    }
}

/// Whether the daemon is to run the tool for this call.
pub fn runs(r: &Routed) -> (b: bool)
    ensures
        b == runs_tool(r.route),
{
    match r.route {
        Route::Call => true,
        _ => false,
    }
}

/// What the model reads back from a call: the refusal, or what the tool
/// came to.
pub fn call_result(r: &Routed, done: &Option<Result<Output, String>>) -> (s: String)
    ensures
        s@ == call_result_of(r.display@, r.callee@, r.route, done_view(*done)),
{
    match r.refusal() {
        Some(t) => t,
        None => match done {
            Some(Ok(o)) => o.as_tool_result(),
            Some(Err(m)) => m.clone(),
            None => String::new(),
        },
    }
}

/// The events one tool call puts in the trace. `done` is what the tool came
/// to, when it ran; `ms` how long it took.
pub fn call_events<A>(run: &str, caller: &str, r: &Routed, arguments: A, done: &Option<Result<Output, String>>, ms: u32) -> (v: Vec<RunEvent<A>>)
    ensures
        evs(v@) == call_events_of(run@, caller@, r.display@, r.callee@, r.route, arguments, done_view(*done), ms),
{
    let mut v: Vec<RunEvent<A>> = Vec::new();
    match r.route {
        Route::Unknown | Route::NotGiven | Route::NoBlock => {
            proof { assert(evs(v@) =~= Seq::<Ev<A>>::empty()); }
            return v;
        },
        _ => {},
    }
    let result = call_result(r, done);
    v.push(RunEvent::ToolCall { run: owned(run), caller: owned(caller), callee: r.callee.clone(), name: r.display.clone(), arguments });
    v.push(RunEvent::BlockState { run: owned(run), block: r.callee.clone(), state: BlockState::Running });
    let refused = match r.route {
        Route::Refused(_) => true,
        _ => false,
    };
    let mut ok = false;
    if refused {
        v.push(RunEvent::BlockError { run: owned(run), block: r.callee.clone(), message: result.clone() });
    } else {
        match done {
            Some(Ok(o)) => {
                let mut outputs: Vec<(String, String)> = Vec::new();
                outputs.push((owned("stdout"), o.stdout.clone()));
                proof {
                    reveal_strlit("stdout");
                    assert(pairs(outputs@) =~= seq![("stdout"@, o.stdout@)]);
                }
                v.push(RunEvent::BlockDone { run: owned(run), block: r.callee.clone(), outputs, ms, figure: Some(o.figure()) });
                ok = o.ok();
            },
            _ => {
                v.push(RunEvent::BlockError { run: owned(run), block: r.callee.clone(), message: result.clone() });
            },
        }
    }
    v.push(RunEvent::ToolResult { run: owned(run), caller: owned(caller), callee: r.callee.clone(), name: r.display.clone(), result, ok, ms });
    v.push(RunEvent::BlockState { run: owned(run), block: r.callee.clone(), state: BlockState::Ready });
    proof {
        assert(evs(v@) =~= call_events_of(run@, caller@, r.display@, r.callee@, r.route, arguments, done_view(*done), ms));
    }
    v
}

/// A call that a fault refused runs nothing and is still shown: called,
/// running, failed with the refusal, answered with it, and ready again.
pub proof fn law_refused_call_is_shown_and_runs_nothing<A>(
    run: Seq<char>, caller: Seq<char>, display: Seq<char>, callee: Seq<char>, toolbox: String, arguments: A,
    done: Option<Result<(Seq<char>, Seq<char>, int), Seq<char>>>, ms: u32,
)
    ensures
        ({
            let r = Route::Refused(toolbox);
            let why = refusal_text(display, callee, r).unwrap();
            &&& !runs_tool(r)
            &&& call_events_of(run, caller, display, callee, r, arguments, done, ms) == seq![
                Ev::ToolCall(run, caller, callee, display, arguments),
                Ev::BlockState(run, callee, BlockState::Running),
                Ev::BlockError(run, callee, why),
                Ev::ToolResult(run, caller, callee, display, why, false, ms),
                Ev::BlockState(run, callee, BlockState::Ready),
            ]
        }),
{
}

// ------------------------------------------------------------------- runs

/// How the blocks show before anything runs: each that the plan will visit
/// as queued, each that answers calls as ready, and the rest as idle —
/// except in a live event, which says nothing of branches it is not running.
pub open spec fn opening_states<A>(run: Seq<char>, g: Graph, order: Seq<Seq<char>>, capabilities: Seq<Seq<char>>, disabled: Seq<Seq<char>>, announce: bool, n: int) -> Seq<Ev<A>>
    decreases n,
{
    if n <= 0 {
        seq![]
    } else {
        let prev = opening_states(run, g, order, capabilities, disabled, announce, n - 1);
        let id = g.blocks@[n - 1].id@;
        match opening_state_of(disabled.contains(id), order.contains(id), capabilities.contains(id), announce) {
            Some(s) => prev.push(Ev::BlockState(run, id, s)),
            None => prev,
        }
    }
}

pub open spec fn opening_state_of(disabled: bool, in_order: bool, capability: bool, announce: bool) -> Option<BlockState> {
    if disabled { Some(BlockState::Disabled) } else if in_order { Some(BlockState::Queued) }
        else if capability { Some(BlockState::Ready) } else if announce { Some(BlockState::Idle) } else { None }
}

/// A run's first events: that it started, and the order it will go in, with
/// each of the plan's problems as a warning — when the run announces itself,
/// as a Once run does — then how every block shows.
pub open spec fn opening_of<A>(run: Seq<char>, graph: Seq<char>, g: Graph, p: Plan, disabled: Seq<Seq<char>>, announce: bool) -> Seq<Ev<A>> {
    (if announce {
        seq![Ev::<A>::Started(run, graph, views(p.order@))]
            + views(p.problems@).map_values(|m: Seq<char>| Ev::<A>::Console(run, None, Level::Warn, m))
    } else {
        seq![]
    }) + opening_states(run, g, views(p.order@), views(p.capabilities@), disabled, announce, g.blocks@.len() as int)
}

fn holds(v: &Vec<String>, s: &str) -> (r: bool)
    ensures
        r == views(v@).contains(s@),
{
    let mut i: usize = 0;
    while i < v.len()
        invariant
            i <= v@.len(),
            forall|j: int| 0 <= j < i ==> v@[j]@ != s@,
        decreases v.len() - i,
    {
        if same(v[i].as_str(), s) {
            proof { assert(views(v@)[i as int] == s@); }
            return true;
        }
        i = i + 1;
    }
    proof {
        if views(v@).contains(s@) {
            let k = choose|k: int| 0 <= k < views(v@).len() && views(v@)[k] == s@;
            assert(v@[k]@ == s@);
        }
    }
    false
}

/// The events a run begins with. When it announces itself, the first is
/// that it started, with the order it will go in.
pub fn opening_events<A>(run: &str, graph: &str, g: &Graph, p: &Plan, disabled: &Vec<String>, announce: bool) -> (v: Vec<RunEvent<A>>)
    ensures
        evs(v@) == opening_of::<A>(run@, graph@, *g, *p, views(disabled@), announce),
        announce ==> v@.len() > 0 && ev_of(v@[0]) == Ev::<A>::Started(run@, graph@, views(p.order@)),
{
    let mut v: Vec<RunEvent<A>> = Vec::new();
    let ghost head: Seq<Ev<A>> = seq![];
    if announce {
        let mut order: Vec<String> = Vec::new();
        let mut k: usize = 0;
        while k < p.order.len()
            invariant
                k <= p.order@.len(),
                views(order@) == views(p.order@).take(k as int),
            decreases p.order.len() - k,
        {
            let ghost before = views(order@);
            order.push(p.order[k].clone());
            proof {
                assert(views(order@) =~= before.push(p.order@[k as int]@));
                assert(views(p.order@).take(k + 1) =~= views(p.order@).take(k as int).push(p.order@[k as int]@));
            }
            k = k + 1;
        }
        proof { assert(views(p.order@).take(p.order@.len() as int) =~= views(p.order@)); }
        v.push(RunEvent::Started { run: owned(run), graph: owned(graph), order });
        let ghost problems = views(p.problems@);
        let mut j: usize = 0;
        while j < p.problems.len()
            invariant
                j <= p.problems@.len(),
                problems == views(p.problems@),
                evs(v@) == seq![Ev::<A>::Started(run@, graph@, views(p.order@))]
                    + problems.take(j as int).map_values(|m: Seq<char>| Ev::<A>::Console(run@, None, Level::Warn, m)),
            decreases p.problems.len() - j,
        {
            let ghost before = evs(v@);
            v.push(RunEvent::Console { run: owned(run), source: None, level: Level::Warn, message: p.problems[j].clone() });
            proof {
                assert(evs(v@) =~= before.push(Ev::Console(run@, None, Level::Warn, p.problems@[j as int]@)));
                assert(problems.take(j + 1).map_values(|m: Seq<char>| Ev::<A>::Console(run@, None, Level::Warn, m))
                    =~= problems.take(j as int).map_values(|m: Seq<char>| Ev::<A>::Console(run@, None, Level::Warn, m))
                        .push(Ev::Console(run@, None, Level::Warn, p.problems@[j as int]@)));
            }
            j = j + 1;
        }
        proof {
            assert(problems.take(problems.len() as int) =~= problems);
            head = evs(v@);
        }
    } else {
        proof { assert(evs(v@) =~= Seq::<Ev<A>>::empty()); }
    }
    let mut i: usize = 0;
    while i < g.blocks.len()
        invariant
            i <= g.blocks@.len(),
            head == (if announce {
                seq![Ev::<A>::Started(run@, graph@, views(p.order@))]
                    + views(p.problems@).map_values(|m: Seq<char>| Ev::<A>::Console(run@, None, Level::Warn, m))
            } else {
                seq![]
            }),
            evs(v@) == head + opening_states::<A>(run@, *g, views(p.order@), views(p.capabilities@), views(disabled@), announce, i as int),
        decreases g.blocks.len() - i,
    {
        let id = &g.blocks[i].id;
        let s = opening_state(holds(disabled, id.as_str()), holds(&p.order, id.as_str()), holds(&p.capabilities, id.as_str()), announce);
        match s {
            Some(state) => {
                let ghost before = evs(v@);
                v.push(RunEvent::BlockState { run: owned(run), block: id.clone(), state });
                proof { assert(evs(v@) =~= before.push(Ev::BlockState(run@, id@, state))); }
            },
            None => {},
        }
        proof {
            assert(head + opening_states::<A>(run@, *g, views(p.order@), views(p.capabilities@), views(disabled@), announce, i + 1)
                =~= evs(v@));
        }
        i = i + 1;
    }
    proof {
        if announce {
            assert(evs(v@)[0] == head[0]);
        }
    }
    v
}

/// The name an Output block's result goes by: its `name` setting, as given
/// here for the blocks that set one, or its id.
pub open spec fn output_name(names: Seq<(Seq<char>, Seq<char>)>, id: Seq<char>, k: int) -> Seq<char>
    decreases names.len() - k,
{
    if k < 0 || k >= names.len() {
        id
    } else if names[k].0 == id {
        names[k].1
    } else {
        output_name(names, id, k + 1)
    }
}

/// What reached the Output blocks, in the order they appear in the file:
/// each one whose `value` input holds something, by its name, with the port
/// the value is held on.
pub open spec fn results_of(g: Graph, cat: Catalogue, held: Seq<(Seq<char>, Seq<char>)>, names: Seq<(Seq<char>, Seq<char>)>, n: int) -> Seq<(Seq<char>, (Seq<char>, Seq<char>))>
    decreases n,
{
    if n <= 0 {
        seq![]
    } else {
        let prev = results_of(g, cat, held, names, n - 1);
        let b = g.blocks@[n - 1];
        if b.kind@ == "output"@ {
            let ins = inputs_upto(g, cat, b.id@, held, g.wires@.len() as int);
            match port_at(ins, "value"@, 0) {
                Some(k) => prev.push((output_name(names, b.id@, 0), ins[k].1)),
                None => prev,
            }
        } else {
            prev
        }
    }
}

fn name_for(names: &Vec<(String, String)>, id: &str) -> (s: String)
    ensures
        s@ == output_name(pairs(names@), id@, 0),
{
    let mut k: usize = 0;
    while k < names.len()
        invariant
            k <= names@.len(),
            output_name(pairs(names@), id@, 0) == output_name(pairs(names@), id@, k as int),
        decreases names.len() - k,
    {
        if same(names[k].0.as_str(), id) {
            return names[k].1.clone();
        }
        k = k + 1;
    }
    owned(id)
}

fn value_port(ins: &Vec<(String, Endpoint)>) -> (r: Option<usize>)
    ensures
        match r {
            Some(k) => port_at(input_views(ins@), "value"@, 0) == Some(k as int) && k < ins@.len(),
            None => port_at(input_views(ins@), "value"@, 0) is None,
        },
{
    let mut k: usize = 0;
    while k < ins.len()
        invariant
            k <= ins@.len(),
            port_at(input_views(ins@), "value"@, 0) == port_at(input_views(ins@), "value"@, k as int),
        decreases ins.len() - k,
    {
        if same(ins[k].0.as_str(), "value") {
            return Some(k);
        }
        k = k + 1;
    }
    None
}

/// The event a run ends with: how it ended, how long it took, and what
/// reached its Output blocks. `names` holds the `name` setting of each
/// Output block that has one.
pub fn finished<A>(run: &str, g: &Graph, cat: &Catalogue, w: &Walk, cancelled: bool, names: &Vec<(String, String)>, ms: u32) -> (e: RunEvent<A>)
    ensures
        ev_of(e) == Ev::<A>::Finished(run@, outcome_of(w.stopped || cancelled, w.errors@.len()), ms,
            results_of(*g, *cat, ends(w.held@), pairs(names@), g.blocks@.len() as int)),
{
    let mut results: Vec<(String, Endpoint)> = Vec::new();
    let mut i: usize = 0;
    proof { reveal_strlit("output"); reveal_strlit("value"); }
    while i < g.blocks.len()
        invariant
            i <= g.blocks@.len(),
            named_ends(results@) == results_of(*g, *cat, ends(w.held@), pairs(names@), i as int),
        decreases g.blocks.len() - i,
    {
        let b = &g.blocks[i];
        if same(b.kind.as_str(), "output") {
            let ins = inputs_of(g, cat, b.id.as_str(), &w.held);
            match value_port(&ins) {
                Some(k) => {
                    let name = name_for(names, b.id.as_str());
                    let ghost before = named_ends(results@);
                    results.push((name, ins[k].1.copy()));
                    proof {
                        assert(input_views(ins@)[k as int].1 == ev(ins@[k as int].1));
                        assert(named_ends(results@) =~= before.push((name@, ev(ins@[k as int].1))));
                    }
                },
                None => {},
            }
        }
        i = i + 1;
    }
    RunEvent::Finished { run: owned(run), outcome: crate::run::runner::outcome(w.stopped || cancelled, w.errors.len()), ms, results }
}

} // verus!
