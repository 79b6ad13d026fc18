//! The decisions a run makes between its outside work.
//!
//! A run talks to models, shells, cameras and motors, and every one of those
//! conversations happens elsewhere. What is left here is what the run decides
//! on its own: which block is off the path a Branch took, which input is
//! missing, what a warning's answer means for the rest of the run, where a
//! tool call goes, and which Toolboxes a fault has stopped.
use vstd::prelude::*;
use crate::run::blocks::memory_kind;
use crate::run::event::{BlockState, RunOutcome};
use crate::run::model::{display_name, display_of};
use crate::text::last_index;
use crate::run::graph::block_named;
use crate::run::graph::{block_index, port_type, port_type_of, same_end, Catalogue, Endpoint, Graph, PortType, Side, Wire};
use crate::run::plan::ev;
use crate::text::{append, chars_of, copies, last_line, last_said, decimal, decimal_of, insert_sorted, owned, same, signed, signed_of, slice, sorted_unique, string_of, trim_end_of, trim_of, trimmed, views};

verus! {

/// What the run is about to do, and why it warranted asking.
#[derive(Debug, Clone)]
pub struct Warning {
    pub block: String,
    pub action: String,
    pub reason: String,
    pub remember: bool,
}

/// The only two answers. There is no "refuse": the application may warn before
/// a dangerous action and may not prevent one, so the choice is between going
/// ahead and stopping the whole run — never between going ahead and being
/// overruled on this one step.
#[derive(Debug, Clone, Copy, PartialEq, Eq, Structural)]
pub enum Decision {
    Continue,
    /// Continue, and do not ask again for this block during this run.
    ContinueAlways,
    Stop,
}

} // verus!

verus! {

/// Whether a list of strings holds this text.
pub fn holds(v: &Vec<String>, s: &str) -> (r: bool)
    ensures
        r == views(v@).contains(s@),
{
    let mut i: usize = 0;
    while i < v.len()
        invariant
            i <= v@.len(),
            forall|j: int| 0 <= j < i ==> v@[j]@ != s@,
        decreases v.len() - i,
    {
        if same(v[i].as_str(), s) {
            proof { assert(views(v@)[i as int] == s@); }
            return true;
        }
        i = i + 1;
    }
    proof {
        if views(v@).contains(s@) {
            let k = choose|k: int| 0 <= k < views(v@).len() && views(v@)[k] == s@;
            assert(v@[k]@ == s@);
        }
    }
    false
}

/// Blocks the user said not to ask about again, and whether a warning has
/// stopped the run.
pub struct Trust {
    pub trusted: Vec<String>,
    pub stopped: bool,
}

/// What an answer to a warning does to what the run trusts.
pub open spec fn settled(trusted: Seq<Seq<char>>, block: Seq<char>, answer: Decision) -> Seq<Seq<char>> {
    if answer == Decision::ContinueAlways && !trusted.contains(block) { trusted.push(block) } else { trusted }
}

impl Trust {
    pub fn new() -> (t: Trust)
        ensures
            t.trusted@.len() == 0,
            !t.stopped,
    {
        Trust { trusted: Vec::new(), stopped: false }
    }

    /// Whether this block's warning has to be put to the user: it has, unless
    /// they already said not to ask again this run.
    pub fn asks(&self, block: &str) -> (r: bool)
        ensures
            r == !views(self.trusted@).contains(block@),
    {
        !holds(&self.trusted, block)
    }

    /// Take the user's answer to a warning. Returns whether the run may go
    /// ahead: it may, unless the answer was Stop, which stops the whole run.
    pub fn settle(&mut self, block: &str, answer: Decision) -> (permitted: bool)
        ensures
            permitted == (answer != Decision::Stop),
            views(final(self).trusted@) == settled(views(old(self).trusted@), block@, answer),
            final(self).stopped == (old(self).stopped || answer == Decision::Stop),
    {
        match answer {
            Decision::Continue => true,
            Decision::ContinueAlways => {
                self.trust(block);
                true
            }
            Decision::Stop => {
                self.stopped = true;
                false
            }
        }
    }

    /// Trust a block for the rest of the run, as a frame does once the user
    /// has agreed to everything it is about to do.
    pub fn trust(&mut self, block: &str)
        ensures
            views(final(self).trusted@) == settled(views(old(self).trusted@), block@, Decision::ContinueAlways),
            final(self).stopped == old(self).stopped,
    {
        if !holds(&self.trusted, block) {
            self.trusted.push(owned(block));
            proof { assert(views(self.trusted@) =~= views(old(self).trusted@).push(block@)); }
        }
    }
}

/// An answer of Continue always means the block is never asked about again
/// this run; a plain Continue leaves it to be asked next time; and Stop
/// stops the run, whatever was trusted before.
pub proof fn law_trust(trusted: Seq<Seq<char>>, block: Seq<char>, other: Seq<char>)
    ensures
        settled(trusted, block, Decision::ContinueAlways).contains(block),
        settled(trusted, block, Decision::Continue) == trusted,
        settled(trusted, block, Decision::Stop) == trusted,
        trusted.contains(other) ==> settled(trusted, block, Decision::ContinueAlways).contains(other),
{
    if !trusted.contains(block) {
        assert(trusted.push(block)[trusted.len() as int] == block);
    }
    if trusted.contains(other) && !trusted.contains(block) {
        let k = choose|k: int| 0 <= k < trusted.len() && trusted[k] == other;
        assert(trusted.push(block)[k] == other);
    }
}

/// A wire into this block that carries control flow rather than a value.
pub open spec fn exec_into(g: Graph, cat: Catalogue, block: Seq<char>, w: Wire) -> bool {
    w.to.node@ == block && port_type_of(g, cat, w.from, Side::Out) == Some(PortType::Exec)
}

/// A wire whose producer has taken its turn and put nothing on it.
pub open spec fn silent(ran: Seq<Seq<char>>, held: Seq<(Seq<char>, Seq<char>)>, w: Wire) -> bool {
    ran.contains(w.from.node@) && !held.contains(ev(w.from))
}

/// Whether a block is on a path a Branch did not take: it has control flow
/// coming in, and every such wire is silent. A block reachable two ways runs
/// if either way was taken, which is what a Merge below a Branch has to mean.
pub open spec fn off_path(g: Graph, cat: Catalogue, block: Seq<char>, ran: Seq<Seq<char>>, held: Seq<(Seq<char>, Seq<char>)>) -> bool {
    &&& exists|i: int| 0 <= i < g.wires@.len() && exec_into(g, cat, block, #[trigger] g.wires@[i])
    &&& forall|i: int| 0 <= i < g.wires@.len() && exec_into(g, cat, block, #[trigger] g.wires@[i]) ==> silent(ran, held, g.wires@[i])
}

pub open spec fn ends(v: Seq<Endpoint>) -> Seq<(Seq<char>, Seq<char>)> {
    v.map_values(|e: Endpoint| ev(e))
}

/// Whether a value is on this port.
pub fn holds_end(v: &Vec<Endpoint>, e: &Endpoint) -> (r: bool)
    ensures
        r == ends(v@).contains(ev(*e)),
{
    let mut i: usize = 0;
    while i < v.len()
        invariant
            i <= v@.len(),
            forall|j: int| 0 <= j < i ==> ev(v@[j]) != ev(*e),
        decreases v.len() - i,
    {
        if v[i].same(e) {
            proof { assert(ends(v@)[i as int] == ev(*e)); }
            return true;
        }
        i = i + 1;
    }
    proof {
        if ends(v@).contains(ev(*e)) {
            let k = choose|k: int| 0 <= k < ends(v@).len() && ends(v@)[k] == ev(*e);
            assert(ev(v@[k]) == ev(*e));
        }
    }
    false
}

/// Whether this block is on a path a Branch did not take.
///
/// A Branch produces a value on exactly one of its two exec ports, so a
/// block below the other one has an incoming exec wire from a block that has
/// run and said nothing. That silence is the branch: skipping here is what
/// makes a Branch choose rather than fork.
pub fn off_the_path(g: &Graph, cat: &Catalogue, block: &str, ran: &Vec<String>, held: &Vec<Endpoint>) -> (r: bool)
    ensures
        r == off_path(*g, *cat, block@, views(ran@), ends(held@)),
{
    let mut any = false;
    let mut all = true;
    let mut i: usize = 0;
    while i < g.wires.len()
        invariant
            i <= g.wires@.len(),
            any == exists|j: int| 0 <= j < i && exec_into(*g, *cat, block@, #[trigger] g.wires@[j]),
            all == forall|j: int| 0 <= j < i && exec_into(*g, *cat, block@, #[trigger] g.wires@[j]) ==> silent(views(ran@), ends(held@), g.wires@[j]),
        decreases g.wires.len() - i,
    {
        let w = &g.wires[i];
        if same(w.to.node.as_str(), block) && port_type(g, cat, &w.from, Side::Out) == Some(PortType::Exec) {
            any = true;
            if !(holds(ran, w.from.node.as_str()) && !holds_end(held, &w.from)) {
                all = false;
            }
        }
        proof {
            assert(any == exists|j: int| 0 <= j < i + 1 && exec_into(*g, *cat, block@, #[trigger] g.wires@[j])) by {
                if exec_into(*g, *cat, block@, g.wires@[i as int]) { assert(0 <= i < i + 1); }
            }
        }
        i = i + 1;
    }
    any && all
}

/// The producer of the first wire into this block whose producer failed.
pub open spec fn first_missing(wires: Seq<Wire>, block: Seq<char>, failed: Seq<Seq<char>>, k: int) -> Option<Seq<char>>
    decreases wires.len() - k,
{
    if k < 0 || k >= wires.len() {
        None
    } else if wires[k].to.node@ == block && failed.contains(wires[k].from.node@) {
        Some(wires[k].from.node@)
    } else {
        first_missing(wires, block, failed, k + 1)
    }
}

/// The upstream block that was supposed to feed this one and did not. A
/// block whose upstream failed has nothing to work from: it is skipped
/// rather than run with a hole in its inputs.
pub fn missing_input(g: &Graph, block: &str, failed: &Vec<String>) -> (r: Option<String>)
    ensures
        match r {
            Some(n) => first_missing(g.wires@, block@, views(failed@), 0) == Some(n@),
            None => first_missing(g.wires@, block@, views(failed@), 0) is None,
        },
{
    let mut i: usize = 0;
    while i < g.wires.len()
        invariant
            i <= g.wires@.len(),
            first_missing(g.wires@, block@, views(failed@), 0) == first_missing(g.wires@, block@, views(failed@), i as int),
        decreases g.wires.len() - i,
    {
        let w = &g.wires[i];
        if same(w.to.node.as_str(), block) && holds(failed, w.from.node.as_str()) {
            return Some(w.from.node.clone());
        }
        i = i + 1;
    }
    None
}

/// Where a port already has an entry.
pub open spec fn port_at(v: Seq<(Seq<char>, (Seq<char>, Seq<char>))>, port: Seq<char>, k: int) -> Option<int>
    decreases v.len() - k,
{
    if k < 0 || k >= v.len() {
        None
    } else if v[k].0 == port {
        Some(k)
    } else {
        port_at(v, port, k + 1)
    }
}

/// An input port fed from a producing port, replacing whatever fed it before.
pub open spec fn fed(v: Seq<(Seq<char>, (Seq<char>, Seq<char>))>, port: Seq<char>, from: (Seq<char>, Seq<char>)) -> Seq<(Seq<char>, (Seq<char>, Seq<char>))> {
    match port_at(v, port, 0) {
        Some(k) => v.update(k, (port, from)),
        None => v.push((port, from)),
    }
}

/// Whether a wire hands this block a value: it arrives here, it is not
/// control flow, and its producer has a value on it.
pub open spec fn feeds(g: Graph, cat: Catalogue, block: Seq<char>, held: Seq<(Seq<char>, Seq<char>)>, w: Wire) -> bool {
    w.to.node@ == block && port_type_of(g, cat, w.from, Side::Out) != Some(PortType::Exec) && held.contains(ev(w.from))
}

/// Each input port of the block and the port its value comes from, over the
/// first `n` wires. Fan-in on one port: the last writer wins, which in a Once
/// run is the one latest in the file.
pub open spec fn inputs_upto(g: Graph, cat: Catalogue, block: Seq<char>, held: Seq<(Seq<char>, Seq<char>)>, n: int) -> Seq<(Seq<char>, (Seq<char>, Seq<char>))>
    decreases n,
{
    if n <= 0 {
        seq![]
    } else {
        let before = inputs_upto(g, cat, block, held, n - 1);
        let w = g.wires@[n - 1];
        if feeds(g, cat, block, held, w) { fed(before, w.to.port@, ev(w.from)) } else { before }
    }
}

pub open spec fn input_views(v: Seq<(String, Endpoint)>) -> Seq<(Seq<char>, (Seq<char>, Seq<char>))> {
    v.map_values(|p: (String, Endpoint)| (p.0@, ev(p.1)))
}

/// The values on this block's wired inputs, as the port each is read from.
///
/// An `exec` wire is skipped: exec is control flow, never a value, and
/// reading a Schedule's tick as an input hands a Terminal
/// an empty string where its command should have been.
pub fn inputs_of(g: &Graph, cat: &Catalogue, block: &str, held: &Vec<Endpoint>) -> (v: Vec<(String, Endpoint)>)
    ensures
        input_views(v@) == inputs_upto(*g, *cat, block@, ends(held@), g.wires@.len() as int),
{
    let mut v: Vec<(String, Endpoint)> = Vec::new();
    let mut i: usize = 0;
    while i < g.wires.len()
        invariant
            i <= g.wires@.len(),
            input_views(v@) == inputs_upto(*g, *cat, block@, ends(held@), i as int),
        decreases g.wires.len() - i,
    {
        let w = &g.wires[i];
        if same(w.to.node.as_str(), block) && port_type(g, cat, &w.from, Side::Out) != Some(PortType::Exec)
            && holds_end(held, &w.from) {
            let ghost before = input_views(v@);
            let mut k: usize = 0;
            while k < v.len() && !same(v[k].0.as_str(), w.to.port.as_str())
                invariant
                    k <= v@.len(),
                    before == input_views(v@),
                    port_at(before, w.to.port@, 0) == port_at(before, w.to.port@, k as int),
                decreases v.len() - k,
            {
                k = k + 1;
            }
            let entry = (w.to.port.clone(), w.from.copy());
            if k < v.len() {
                v.set(k, entry);
            } else {
                v.push(entry);
            }
            proof {
                assert(input_views(v@) =~= fed(before, w.to.port@, ev(w.from)));
            }
        }
        i = i + 1;
    }
    v
}

/// How a run ended: stopped if someone stopped it, failed if a block threw,
/// finished otherwise.
pub fn outcome(stopped: bool, errors: usize) -> (o: RunOutcome)
    ensures
        o == if stopped { RunOutcome::Stopped } else if errors == 0 { RunOutcome::Finished } else { RunOutcome::Failed },
{
    if stopped {
        RunOutcome::Stopped
    } else if errors == 0 {
        RunOutcome::Finished
    } else {
        RunOutcome::Failed
    }
}

/// What a block shows before anything runs: everything the plan will visit
/// shows as queued and everything it will not as what it is. A block that
/// is both a step and a capability is queued, because that is the thing
/// about to happen. A live event says nothing of the branches it is not
/// running, so those keep what they last showed.
pub fn opening_state(disabled: bool, in_order: bool, capability: bool, announce: bool) -> (s: Option<BlockState>)
    ensures
        s == if disabled { Some(BlockState::Disabled) } else if in_order { Some(BlockState::Queued) }
            else if capability { Some(BlockState::Ready) } else if announce { Some(BlockState::Idle) } else { None },
{
    if disabled {
        Some(BlockState::Disabled)
    } else if in_order {
        Some(BlockState::Queued)
    } else if capability {
        Some(BlockState::Ready)
    } else if announce {
        Some(BlockState::Idle)
    } else {
        None
    }
}

} // verus!

verus! {

/// Where a tool call goes, or why it goes nowhere.
#[derive(Debug, Clone, PartialEq, Eq)]
pub enum Route {
    /// The name has no dot in it, so it names no tool.
    Unknown,
    /// The model was not given this tool.
    NotGiven,
    /// No block has that id.
    NoBlock,
    /// A fault stopped the Toolbox this tool is behind. The call
    /// is still reported, so the one a person most wants to see is not the
    /// one that leaves no record.
    Refused(String),
    /// Go ahead.
    Call,
}

/// A tool call, read: the name a person sees, the block it calls, the verb,
/// and where it goes.
#[derive(Debug, Clone, PartialEq, Eq)]
pub struct Routed {
    pub display: String,
    pub callee: String,
    pub verb: String,
    pub route: Route,
}

/// `terminal.run` is the block `terminal` and the verb `run`; the split is at
/// the last dot, so a block id may hold dots of its own.
pub open spec fn split_call(display: Seq<char>) -> Option<(Seq<char>, Seq<char>)> {
    match last_index(display, '.') {
        Some(i) => Some((display.take(i), display.skip(i + 1))),
        None => None,
    }
}

/// Whether a wire runs from one block into another.
pub open spec fn wired_into(g: Graph, from: Seq<char>, to: Seq<char>) -> bool {
    exists|i: int| 0 <= i < g.wires@.len() && (#[trigger] g.wires@[i]).from.node@ == from && g.wires@[i].to.node@ == to
}

/// The first Toolbox a fault is holding that this block is behind.
pub open spec fn first_holding(g: Graph, holding: Seq<Seq<char>>, callee: Seq<char>, k: int) -> Option<Seq<char>>
    decreases holding.len() - k,
{
    if k < 0 || k >= holding.len() {
        None
    } else if wired_into(g, callee, holding[k]) {
        Some(holding[k])
    } else {
        first_holding(g, holding, callee, k + 1)
    }
}

/// Where a call by this wire name goes, for a model holding `held` while a
/// fault holds the Toolboxes in `holding`. Going home is never refused: a
/// pause a person cannot get out of from inside the graph is a lock.
pub open spec fn route_of(g: Graph, held: Seq<Seq<char>>, holding: Seq<Seq<char>>, name: Seq<char>) -> (Seq<char>, Seq<char>, Seq<char>, Option<Seq<char>>, nat) {
    let d = display_of(name);
    match split_call(d) {
        None => (d, seq![], seq![], None, 0),
        Some((c, v)) => if !held.contains(c) {
            (d, c, v, None, 1)
        } else if block_named(g.blocks@, c) is None {
            (d, c, v, None, 2)
        } else if v != "home"@ && first_holding(g, holding, c, 0) is Some {
            (d, c, v, first_holding(g, holding, c, 0), 3)
        } else {
            (d, c, v, None, 4)
        },
    }
}

pub open spec fn route_code(r: Route) -> nat {
    match r {
        Route::Unknown => 0,
        Route::NotGiven => 1,
        Route::NoBlock => 2,
        Route::Refused(_) => 3,
        Route::Call => 4,
    }
}

fn wired_from_to(g: &Graph, from: &str, to: &str) -> (r: bool)
    ensures
        r == wired_into(*g, from@, to@),
{
    let mut i: usize = 0;
    while i < g.wires.len()
        invariant
            i <= g.wires@.len(),
            forall|j: int| 0 <= j < i ==> !((#[trigger] g.wires@[j]).from.node@ == from@ && g.wires@[j].to.node@ == to@),
        decreases g.wires.len() - i,
    {
        if same(g.wires[i].from.node.as_str(), from) && same(g.wires[i].to.node.as_str(), to) {
            return true;
        }
        i = i + 1;
    }
    false
}

/// A display name split at its last dot.
fn split_at_dot(display: &str) -> (r: Option<(String, String)>)
    ensures
        match r {
            Some((c, v)) => split_call(display@) == Some((c@, v@)),
            None => split_call(display@) is None,
        },
{
    let cs = chars_of(display);
    let mut i = cs.len();
    proof { assert(cs@.take(i as int) =~= cs@); }
    while i > 0 && cs[i - 1] != '.'
        invariant
            i <= cs@.len(),
            cs@ == display@,
            last_index(cs@, '.') == last_index(cs@.take(i as int), '.'),
        decreases i,
    {
        proof { assert(cs@.take(i as int).drop_last() =~= cs@.take(i - 1)); }
        i = i - 1;
    }
    if i == 0 {
        proof { assert(cs@.take(0) =~= Seq::<char>::empty()); }
        return None;
    }
    proof { assert(cs@.take(i as int).last() == cs@[i - 1]); }
    let n = cs.len();
    let callee = slice(display, 0, i - 1);
    let verb = slice(display, i, n);
    proof {
        assert(cs@.subrange(0, i - 1) =~= cs@.take(i - 1));
        assert(cs@.subrange(i as int, n as int) =~= cs@.skip(i as int));
    }
    Some((callee, verb))
}

/// The first Toolbox a fault is holding that this block is behind.
fn holding_for(g: &Graph, holding: &Vec<String>, callee: &str) -> (r: Option<String>)
    ensures
        match r {
            Some(t) => first_holding(*g, views(holding@), callee@, 0) == Some(t@),
            None => first_holding(*g, views(holding@), callee@, 0) is None,
        },
{
    let mut k: usize = 0;
    while k < holding.len()
        invariant
            k <= holding@.len(),
            first_holding(*g, views(holding@), callee@, 0) == first_holding(*g, views(holding@), callee@, k as int),
        decreases holding.len() - k,
    {
        proof { assert(views(holding@)[k as int] == holding@[k as int]@); }
        if wired_from_to(g, callee, holding[k].as_str()) {
            return Some(holding[k].clone());
        }
        k = k + 1;
    }
    None
}

/// Read a tool call and work out where it goes.
pub fn route(g: &Graph, held: &Vec<String>, holding: &Vec<String>, name: &str) -> (r: Routed)
    ensures
        ({
            let (d, c, v, t, code) = route_of(*g, views(held@), views(holding@), name@);
            &&& r.display@ == d
            &&& r.callee@ == c
            &&& r.verb@ == v
            &&& route_code(r.route) == code
            &&& r.route matches Route::Refused(x) ==> t == Some(x@)
        }),
{
    let display = display_name(name);
    let (callee, verb) = match split_at_dot(display.as_str()) {
        None => {
            return Routed { display, callee: String::new(), verb: String::new(), route: Route::Unknown };
        }
        Some(p) => p,
    };
    if !holds(held, callee.as_str()) {
        return Routed { display, callee, verb, route: Route::NotGiven };
    }
    if block_index(&g.blocks, &callee).is_none() {
        return Routed { display, callee, verb, route: Route::NoBlock };
    }
    if !same(verb.as_str(), "home") {
        if let Some(toolbox) = holding_for(g, holding, callee.as_str()) {
            return Routed { display, callee, verb, route: Route::Refused(toolbox) };
        }
    }
    Routed { display, callee, verb, route: Route::Call }
}

pub open spec fn refusal_text(display: Seq<char>, callee: Seq<char>, r: Route) -> Option<Seq<char>> {
    match r {
        Route::Unknown => Some("there is no tool called `"@ + display + "`"@),
        Route::NotGiven => Some("`"@ + display + "` is not one of the tools you were given"@),
        Route::NoBlock => Some("there is no block called `"@ + callee + "`"@),
        Route::Refused(t) => Some("not called: a fault stopped "@ + t@ + ". Call a clearing tool such as `motor.home`, or ask the user to resume."@),
        Route::Call => None,
    }
}

impl Routed {
    /// What the model reads when the call goes nowhere.
    pub fn refusal(&self) -> (s: Option<String>)
        ensures
            match s {
                Some(t) => refusal_text(self.display@, self.callee@, self.route) == Some(t@),
                None => refusal_text(self.display@, self.callee@, self.route) is None,
            },
    {
        match &self.route {
            Route::Unknown => {
                let mut s = owned("there is no tool called `");
                append(&mut s, self.display.as_str());
                append(&mut s, "`");
                Some(s)
            }
            Route::NotGiven => {
                let mut s = owned("`");
                append(&mut s, self.display.as_str());
                append(&mut s, "` is not one of the tools you were given");
                Some(s)
            }
            Route::NoBlock => {
                let mut s = owned("there is no block called `");
                append(&mut s, self.callee.as_str());
                append(&mut s, "`");
                Some(s)
            }
            Route::Refused(t) => {
                let mut s = owned("not called: a fault stopped ");
                append(&mut s, t.as_str());
                append(&mut s, ". Call a clearing tool such as `motor.home`, or ask the user to resume.");
                Some(s)
            }
            Route::Call => None,
        }
    }
}

/// What a call on a block of some kind does.
#[derive(Debug, Clone, Copy, PartialEq, Eq, Structural)]
pub enum Tool {
    /// `terminal.run`: a shell command.
    Shell,
    /// `python.exec`: Python source.
    Python,
    /// `motors.move`.
    Move,
    /// `motors.home`, which also clears a fault.
    Home,
    /// `usb-device.send`: one line to a device.
    Send,
    /// `remember` on a memory.
    Remember,
    /// `forget` on a memory, which asks first: it is the one memory call
    /// that can lose something.
    Forget,
    /// The kind has no tool by that name.
    Missing,
}

pub open spec fn tool_of(kind: Seq<char>, verb: Seq<char>) -> Tool {
    if kind == "terminal"@ && verb == "run"@ { Tool::Shell }
    else if kind == "python"@ && verb == "exec"@ { Tool::Python }
    else if kind == "motors"@ && verb == "move"@ { Tool::Move }
    else if kind == "motors"@ && verb == "home"@ { Tool::Home }
    else if kind == "usb-device"@ && verb == "send"@ { Tool::Send }
    else if memory_kind(kind) && verb == "remember"@ { Tool::Remember }
    else if memory_kind(kind) && verb == "forget"@ { Tool::Forget }
    else { Tool::Missing }
}

pub fn tool_for(kind: &str, verb: &str) -> (t: Tool)
    ensures
        t == tool_of(kind@, verb@),
{
    if same(kind, "terminal") && same(verb, "run") { Tool::Shell }
    else if same(kind, "python") && same(verb, "exec") { Tool::Python }
    else if same(kind, "motors") && same(verb, "move") { Tool::Move }
    else if same(kind, "motors") && same(verb, "home") { Tool::Home }
    else if same(kind, "usb-device") && same(verb, "send") { Tool::Send }
    else if crate::run::blocks::is_memory(kind) && same(verb, "remember") { Tool::Remember }
    else if crate::run::blocks::is_memory(kind) && same(verb, "forget") { Tool::Forget }
    else { Tool::Missing }
}

/// What a model is told when a kind has no tool by the name it called.
pub fn no_such_tool(kind: &str, verb: &str) -> (s: String)
    ensures
        s@ == "`"@ + kind@ + "` has no tool called `"@ + verb@ + "`"@,
{
    let mut s = owned("`");
    append(&mut s, kind);
    append(&mut s, "` has no tool called `");
    append(&mut s, verb);
    append(&mut s, "`");
    s
}

/// `1 memory`, `3 memories`, `no memories`.
pub open spec fn plural_text(n: nat, thing: Seq<char>) -> Seq<char> {
    let many = if thing == "memory"@ { "memories"@ } else { thing + "s"@ };
    if n == 0 { "no "@ + many } else if n == 1 { "1 "@ + thing } else { decimal(n) + " "@ + many }
}

pub fn plural(n: u64, thing: &str) -> (s: String)
    ensures
        s@ == plural_text(n as nat, thing@),
{
    let many = if same(thing, "memory") {
        owned("memories")
    } else {
        let mut m = owned(thing);
        append(&mut m, "s");
        m
    };
    if n == 0 {
        let mut s = owned("no ");
        append(&mut s, many.as_str());
        s
    } else if n == 1 {
        let mut s = owned("1 ");
        append(&mut s, thing);
        s
    } else {
        let mut s = decimal_of(n);
        append(&mut s, " ");
        append(&mut s, many.as_str());
        s
    }
}

/// Why a Terminal step failed, for the console: the command, its exit code,
/// and the last thing it said on stderr.
///
/// A command that exits non-zero has failed, and a Terminal step that
/// failed is a block that threw. A Terminal used as a tool is
/// different: there exit 101 is a result the model reads.
pub open spec fn failure_text(command: Seq<char>, stderr: Seq<char>, code: int) -> Seq<char> {
    let head = "`"@ + command + "` exited "@ + signed(code);
    match last_said(stderr) {
        Some(l) => head + ": "@ + l,
        None => head,
    }
}

pub fn step_failure(command: &str, stderr: &str, code: i32) -> (s: String)
    ensures
        s@ == failure_text(command@, stderr@, code as int),
{
    let mut s = owned("`");
    append(&mut s, command);
    append(&mut s, "` exited ");
    let c = signed_of(code as i64);
    append(&mut s, c.as_str());
    match last_line(stderr) {
        None => s,
        Some(l) => {
            append(&mut s, ": ");
            append(&mut s, l.as_str());
            s
        }
    }
}

/// `1 item`, `7 items`: what a finished loop frame shows.
pub fn frame_figure(done: u32) -> (s: String)
    ensures
        s@ == decimal(done as nat) + if done == 1 { " item"@ } else { " items"@ },
{
    let mut s = decimal_of(done as u64);
    append(&mut s, if done == 1 { " item" } else { " items" });
    s
}

/// How many of the items a frame was given it iterates: all of them, up to
/// its maximum, and a maximum of zero still lets one through.
pub fn frame_items(given: usize, max: u32) -> (n: usize)
    ensures
        n == if given <= (if max == 0 { 1 } else { max as int }) { given as int } else { if max == 0 { 1 } else { max as int } },
{
    let cap: u64 = if max == 0 { 1 } else { max as u64 };
    if (given as u64) <= cap { given } else { cap as usize }
}

} // verus!

verus! {

/// The Toolboxes a block's `fault` port is wired into, over the first `n`
/// wires, in wire order.
pub open spec fn faulted_upto(g: Graph, block: Seq<char>, n: int) -> Seq<Seq<char>>
    decreases n,
{
    if n <= 0 {
        seq![]
    } else {
        let w = g.wires@[n - 1];
        let before = faulted_upto(g, block, n - 1);
        if w.from.node@ == block && w.from.port@ == "fault"@ && w.to.port@ == "pause"@ { before.push(w.to.node@) } else { before }
    }
}

pub open spec fn faulted(g: Graph, block: Seq<char>) -> Seq<Seq<char>> {
    faulted_upto(g, block, g.wires@.len() as int)
}

/// The Toolboxes a fault has stopped, which take no calls until a person
/// resumes or a clearing call succeeds.
///
/// It belongs to the run rather than to one pass through the graph: a fault
/// raised while handling one event has to still be holding when the next
/// arrives.
pub struct Bench {
    stopped: Vec<String>,
    /// Set for a run whose devices are scripted rather than real, which is
    /// how a graph with motors in it runs on a machine that has none.
    scripted: bool,
}

impl Bench {
    #[verifier::type_invariant]
    closed spec fn sorted(&self) -> bool {
        sorted_unique(views(self.stopped@))
    }

    /// The Toolboxes being held.
    pub closed spec fn held(&self) -> Set<Seq<char>> {
        views(self.stopped@).to_set()
    }

    pub closed spec fn spec_scripted(&self) -> bool {
        self.scripted
    }

    /// Whether this run's devices answer from a script.
    pub fn is_scripted(&self) -> (r: bool)
        ensures
            r == self.spec_scripted(),
    {
        self.scripted
    }

    /// A bench with real devices and nothing held.
    pub fn new() -> (b: Bench)
        ensures
            b.held() == Set::<Seq<char>>::empty(),
            !b.spec_scripted(),
    {
        let b = Bench { stopped: Vec::new(), scripted: false };
        proof { assert(views(b.stopped@).to_set() =~= Set::<Seq<char>>::empty()); }
        b
    }

    /// A bench whose devices answer from a script.
    pub fn scripted() -> (b: Bench)
        ensures
            b.held() == Set::<Seq<char>>::empty(),
            b.spec_scripted(),
    {
        let b = Bench { stopped: Vec::new(), scripted: true };
        proof { assert(views(b.stopped@).to_set() =~= Set::<Seq<char>>::empty()); }
        b
    }

    /// Stop every Toolbox this block's `fault` is wired into. Answers with
    /// them, in wire order.
    pub fn fault(&mut self, g: &Graph, block: &str) -> (r: Vec<String>)
        ensures
            views(r@) == faulted(*g, block@),
            final(self).held() == old(self).held().union(faulted(*g, block@).to_set()),
            final(self).spec_scripted() == old(self).spec_scripted(),
    {
        proof { use_type_invariant(&*self); }
        let mut out: Vec<String> = Vec::new();
        let mut stopped: Vec<String> = Vec::new();
        std::mem::swap(&mut stopped, &mut self.stopped);
        let ghost before = views(stopped@).to_set();
        let mut i: usize = 0;
        while i < g.wires.len()
            invariant
                i <= g.wires@.len(),
                sorted_unique(views(stopped@)),
                views(out@) == faulted_upto(*g, block@, i as int),
                views(stopped@).to_set() == before.union(faulted_upto(*g, block@, i as int).to_set()),
            decreases g.wires.len() - i,
        {
            let w = &g.wires[i];
            if same(w.from.node.as_str(), block) && same(w.from.port.as_str(), "fault") && same(w.to.port.as_str(), "pause") {
                out.push(w.to.node.clone());
                insert_sorted(&mut stopped, w.to.node.clone());
                proof {
                    assert(views(out@) =~= faulted_upto(*g, block@, i as int).push(w.to.node@));
                    faulted_upto(*g, block@, i as int).lemma_push_to_set_commute(w.to.node@);
                    assert(views(stopped@).to_set() =~= before.union(faulted_upto(*g, block@, i + 1).to_set()));
                }
            }
            i = i + 1;
        }
        self.stopped = stopped;
        out
    }

    /// Let them take calls again.
    pub fn clear(&mut self)
        ensures
            final(self).held() == Set::<Seq<char>>::empty(),
            final(self).spec_scripted() == old(self).spec_scripted(),
    {
        self.stopped = Vec::new();
        proof { assert(views(self.stopped@).to_set() =~= Set::<Seq<char>>::empty()); }
    }

    /// The Toolboxes a fault has stopped, in order, each once: for the panel
    /// and for routing calls.
    pub fn holding(&self) -> (v: Vec<String>)
        ensures
            sorted_unique(views(v@)),
            views(v@).to_set() == self.held(),
    {
        proof { use_type_invariant(self); }
        copies(&self.stopped)
    }
}

/// Going home is never refused: it is how a fault is cleared, and a pause a
/// person cannot get out of from inside the graph is a lock.
pub proof fn law_home_goes_through(g: Graph, held: Seq<Seq<char>>, holding: Seq<Seq<char>>, name: Seq<char>)
    requires
        split_call(display_of(name)) matches Some((c, v)) && v == "home"@,
    ensures
        route_of(g, held, holding, name).4 != 3,
{
}

/// Any other call on a block behind a held Toolbox is refused, and the
/// refusal names a Toolbox that is being held.
pub proof fn law_fault_refuses(g: Graph, held: Seq<Seq<char>>, holding: Seq<Seq<char>>, name: Seq<char>, t: int)
    requires
        split_call(display_of(name)) matches Some((c, v)) && v != "home"@ && held.contains(c)
            && block_named(g.blocks@, c) is Some && 0 <= t < holding.len() && wired_into(g, c, holding[t]),
    ensures
        route_of(g, held, holding, name).4 == 3,
        route_of(g, held, holding, name).3 matches Some(x) && holding.contains(x),
{
    let (c, v) = split_call(display_of(name)).unwrap();
    lemma_first_holding(g, holding, c, 0, t);
}

proof fn lemma_first_holding(g: Graph, holding: Seq<Seq<char>>, c: Seq<char>, k: int, t: int)
    requires
        0 <= k <= t < holding.len(),
        wired_into(g, c, holding[t]),
    ensures
        first_holding(g, holding, c, k) matches Some(x) && holding.contains(x),
    decreases t - k,
{
    if !wired_into(g, c, holding[k]) {
        lemma_first_holding(g, holding, c, k + 1, t);
    }
}

} // verus!

verus! {

/// The text arguments a tool call carried, by name; what a call's arguments
/// hold that is not text counts as not given.
pub struct Args {
    pub command: Option<String>,
    pub code: Option<String>,
    pub line: Option<String>,
    pub text: Option<String>,
    pub kind: Option<String>,
    pub what: Option<String>,
}

/// What a tool call comes to, once its arguments have been read.
#[derive(Debug, Clone, PartialEq, Eq)]
pub enum Job {
    /// Run this shell command, after the warning a Terminal gives.
    Shell(String),
    /// Run this Python.
    Python(String),
    /// Aim the motors; the numbers are the daemon's to read.
    Move,
    Home,
    /// Send this line to the device.
    Send(String),
    /// Keep this, as this kind of memory.
    Remember { text: String, kind: String },
    /// Ask first, then forget everything matching this.
    Forget(String),
}

pub open spec fn given(o: Option<String>) -> Option<Seq<char>> {
    match o {
        Some(s) => Some(s@),
        None => None,
    }
}

/// What a call on a tool comes to, or why it comes to nothing. A Terminal
/// called with no command runs the one it was set up with; every other
/// tool needs what it works on to be given.
pub open spec fn job_of(tool: Tool, kind: Seq<char>, verb: Seq<char>, args: Args, default_command: Option<Seq<char>>) -> Result<(nat, Seq<char>, Seq<char>), Seq<char>> {
    match tool {
        Tool::Shell => match given(args.command) {
            Some(c) => Ok((0, c, seq![])),
            None => match default_command {
                Some(c) => Ok((0, c, seq![])),
                None => Err("no command was given and the block has no default"@),
            },
        },
        Tool::Python => match given(args.code) {
            Some(c) => Ok((1, c, seq![])),
            None => Err("no code was given"@),
        },
        Tool::Move => Ok((2, seq![], seq![])),
        Tool::Home => Ok((3, seq![], seq![])),
        Tool::Send => match given(args.line) {
            Some(l) => Ok((4, l, seq![])),
            None => Err("no line was given to send"@),
        },
        Tool::Remember => match given(args.text) {
            Some(t) => Ok((5, t, match given(args.kind) { Some(k) => k, None => "episode"@ })),
            None => Err("nothing was given to remember"@),
        },
        Tool::Forget => match given(args.what) {
            Some(w) => Ok((6, w, seq![])),
            None => Err("nothing was given to forget"@),
        },
        Tool::Missing => Err("`"@ + kind + "` has no tool called `"@ + verb + "`"@),
    }
}

pub open spec fn job_view(j: Job) -> (nat, Seq<char>, Seq<char>) {
    match j {
        Job::Shell(c) => (0, c@, seq![]),
        Job::Python(c) => (1, c@, seq![]),
        Job::Move => (2, seq![], seq![]),
        Job::Home => (3, seq![], seq![]),
        Job::Send(l) => (4, l@, seq![]),
        Job::Remember { text, kind } => (5, text@, kind@),
        Job::Forget(w) => (6, w@, seq![]),
    }
}

/// Read a call on a block of this kind.
pub fn job_for(kind: &str, verb: &str, args: Args, default_command: Option<&str>) -> (r: Result<Job, String>)
    ensures
        match r {
            Ok(j) => job_of(tool_of(kind@, verb@), kind@, verb@, args, match default_command { Some(c) => Some(c@), None => None }) == Ok::<(nat, Seq<char>, Seq<char>), Seq<char>>(job_view(j)),
            Err(e) => job_of(tool_of(kind@, verb@), kind@, verb@, args, match default_command { Some(c) => Some(c@), None => None }) == Err::<(nat, Seq<char>, Seq<char>), Seq<char>>(e@),
        },
{
    let tool = tool_for(kind, verb);
    match tool {
        Tool::Shell => match args.command {
            Some(c) => Ok(Job::Shell(c)),
            None => match default_command {
                Some(c) => Ok(Job::Shell(owned(c))),
                None => Err(owned("no command was given and the block has no default")),
            },
        },
        Tool::Python => match args.code {
            Some(c) => Ok(Job::Python(c)),
            None => Err(owned("no code was given")),
        },
        Tool::Move => Ok(Job::Move),
        Tool::Home => Ok(Job::Home),
        Tool::Send => match args.line {
            Some(l) => Ok(Job::Send(l)),
            None => Err(owned("no line was given to send")),
        },
        Tool::Remember => match args.text {
            Some(t) => Ok(Job::Remember { text: t, kind: match args.kind { Some(k) => k, None => owned("episode") } }),
            None => Err(owned("nothing was given to remember")),
        },
        Tool::Forget => match args.what {
            Some(w) => Ok(Job::Forget(w)),
            None => Err(owned("nothing was given to forget")),
        },
        Tool::Missing => Err(no_such_tool(kind, verb)),
    }
}

/// The warning before forgetting: the one memory call that can lose
/// something, so the one that asks first.
pub fn forget_warning(block: &str, what: &str) -> (w: Warning)
    ensures
        w.block@ == block@,
        w.action@ == "Forget everything matching `"@ + what@ + "`"@,
        w.reason@ == "Deleting a person deletes every sighting of them, from every store."@,
        !w.remember,
{
    let mut action = owned("Forget everything matching `");
    append(&mut action, what);
    append(&mut action, "`");
    Warning {
        block: owned(block),
        action,
        reason: owned("Deleting a person deletes every sighting of them, from every store."),
        remember: false,
    }
}

/// What a model reads back from memory calls.
pub fn remembered_as(id: &str) -> (s: String)
    ensures
        s@ == "remembered, as "@ + id@,
{
    let mut s = owned("remembered, as ");
    append(&mut s, id);
    s
}

pub fn forgot(gone: u64) -> (s: String)
    ensures
        s@ == "forgot "@ + plural_text(gone as nat, "memory"@),
{
    let mut s = owned("forgot ");
    let p = plural(gone, "memory");
    append(&mut s, p.as_str());
    s
}

} // verus!

verus! {

/// What the console says about a block whose upstream failed: it is
/// skipped rather than run with a hole in its inputs.
pub fn skipped_line(missing: &str) -> (s: String)
    ensures
        s@ == "skipped: "@ + missing@ + " produced nothing this run"@,
{
    let mut s = owned("skipped: ");
    append(&mut s, missing);
    append(&mut s, " produced nothing this run");
    s
}

/// A block's error as the run's summary lists it.
pub fn error_line(block: &str, message: &str) -> (s: String)
    ensures
        s@ == block@ + ": "@ + message@,
{
    let mut s = owned(block);
    append(&mut s, ": ");
    append(&mut s, message);
    s
}

/// The wires, among the first `n`, that leave this block from a port it
/// produced on, in file order.
pub open spec fn lit_upto(g: Graph, block: Seq<char>, produced: Seq<Seq<char>>, n: int) -> Seq<Seq<char>>
    decreases n,
{
    if n <= 0 {
        seq![]
    } else {
        let w = g.wires@[n - 1];
        let before = lit_upto(g, block, produced, n - 1);
        if w.from.node@ == block && produced.contains(w.from.port@) { before.push(w.id@) } else { before }
    }
}

/// The wires that light up once a block has produced: those
/// leaving it from a port that now carries something.
pub fn lit_wires(g: &Graph, block: &str, produced: &Vec<String>) -> (v: Vec<String>)
    ensures
        views(v@) == lit_upto(*g, block@, views(produced@), g.wires@.len() as int),
{
    let mut v: Vec<String> = Vec::new();
    let mut i: usize = 0;
    while i < g.wires.len()
        invariant
            i <= g.wires@.len(),
            views(v@) == lit_upto(*g, block@, views(produced@), i as int),
        decreases g.wires.len() - i,
    {
        let w = &g.wires[i];
        if same(w.from.node.as_str(), block) && holds(produced, w.from.port.as_str()) {
            let ghost before = views(v@);
            v.push(w.id.clone());
            proof { assert(views(v@) =~= before.push(w.id@)); }
        }
        i = i + 1;
    }
    v
}

} // verus!

verus! {

/// A block reachable two ways runs if either way was taken: if a control
/// wire into it comes from a block that put something on that port, the
/// block is on the path. A block with no control wire into it is on the
/// path too. Only when every control wire into it comes from a block that
/// ran and stayed silent on it is a block off the path.
pub proof fn law_one_taken_way_is_enough(g: Graph, cat: Catalogue, block: Seq<char>, ran: Seq<Seq<char>>, held: Seq<(Seq<char>, Seq<char>)>)
    ensures
        (exists|i: int| 0 <= i < g.wires@.len() && exec_into(g, cat, block, #[trigger] g.wires@[i])
            && held.contains((g.wires@[i].from.node@, g.wires@[i].from.port@)))
            ==> !off_path(g, cat, block, ran, held),
        (forall|i: int| 0 <= i < g.wires@.len() ==> !exec_into(g, cat, block, #[trigger] g.wires@[i]))
            ==> !off_path(g, cat, block, ran, held),
        ((exists|i: int| 0 <= i < g.wires@.len() && exec_into(g, cat, block, #[trigger] g.wires@[i]))
            && (forall|i: int| 0 <= i < g.wires@.len() && exec_into(g, cat, block, #[trigger] g.wires@[i])
                ==> ran.contains(g.wires@[i].from.node@) && !held.contains((g.wires@[i].from.node@, g.wires@[i].from.port@))))
            ==> off_path(g, cat, block, ran, held),
{
    if exists|i: int| 0 <= i < g.wires@.len() && exec_into(g, cat, block, #[trigger] g.wires@[i])
        && held.contains((g.wires@[i].from.node@, g.wires@[i].from.port@)) {
        let i = choose|i: int| 0 <= i < g.wires@.len() && exec_into(g, cat, block, #[trigger] g.wires@[i])
            && held.contains((g.wires@[i].from.node@, g.wires@[i].from.port@));
        assert(ev(g.wires@[i].from) == (g.wires@[i].from.node@, g.wires@[i].from.port@));
        assert(!silent(ran, held, g.wires@[i]));
    }
    if (exists|i: int| 0 <= i < g.wires@.len() && exec_into(g, cat, block, #[trigger] g.wires@[i]))
        && (forall|i: int| 0 <= i < g.wires@.len() && exec_into(g, cat, block, #[trigger] g.wires@[i])
            ==> ran.contains(g.wires@[i].from.node@) && !held.contains((g.wires@[i].from.node@, g.wires@[i].from.port@))) {
        assert forall|i: int| 0 <= i < g.wires@.len() && exec_into(g, cat, block, #[trigger] g.wires@[i])
            implies silent(ran, held, g.wires@[i]) by {
            assert(ev(g.wires@[i].from) == (g.wires@[i].from.node@, g.wires@[i].from.port@));
        }
    }
}

} // verus!

verus! {

proof fn lemma_first_missing_from(wires: Seq<Wire>, block: Seq<char>, failed: Seq<Seq<char>>, k: int)
    requires
        0 <= k,
    ensures
        match first_missing(wires, block, failed, k) {
            Some(m) => exists|i: int| k <= i < wires.len() && (#[trigger] wires[i]).to.node@ == block
                && wires[i].from.node@ == m && failed.contains(m)
                && forall|j: int| k <= j < i && (#[trigger] wires[j]).to.node@ == block ==> !failed.contains(wires[j].from.node@),
            None => forall|i: int| k <= i < wires.len() && (#[trigger] wires[i]).to.node@ == block ==> !failed.contains(wires[i].from.node@),
        },
    decreases wires.len() - k,
{
    if k < wires.len() {
        lemma_first_missing_from(wires, block, failed, k + 1);
        if !(wires[k].to.node@ == block && failed.contains(wires[k].from.node@)) {
            match first_missing(wires, block, failed, k + 1) {
                Some(m) => {
                    let i = choose|i: int| k + 1 <= i < wires.len() && (#[trigger] wires[i]).to.node@ == block
                        && wires[i].from.node@ == m && failed.contains(m)
                        && forall|j: int| k + 1 <= j < i && (#[trigger] wires[j]).to.node@ == block ==> !failed.contains(wires[j].from.node@);
                    assert(k <= i);
                },
                None => {},
            }
        }
    }
}

/// A block is skipped for want of an input exactly when a wire into it
/// comes from a block that failed, and the one named is the first such
/// wire's producer, in the file's order.
pub proof fn law_missing_input_names_a_failed_feeder(g: Graph, block: Seq<char>, failed: Seq<Seq<char>>)
    ensures
        match first_missing(g.wires@, block, failed, 0) {
            Some(m) => exists|i: int| 0 <= i < g.wires@.len() && (#[trigger] g.wires@[i]).to.node@ == block
                && g.wires@[i].from.node@ == m && failed.contains(m)
                && forall|j: int| 0 <= j < i && (#[trigger] g.wires@[j]).to.node@ == block ==> !failed.contains(g.wires@[j].from.node@),
            None => forall|i: int| 0 <= i < g.wires@.len() && (#[trigger] g.wires@[i]).to.node@ == block ==> !failed.contains(g.wires@[i].from.node@),
        },
{
    lemma_first_missing_from(g.wires@, block, failed, 0);
}

} // verus!
