//! A graph that never finishes.
//!
//! Live mode arms the sources and then runs, per event, only the part of the
//! graph downstream of whatever fired. Events are handled one at a time, and
//! the overlap policy is what happens to the ones that arrive
//! meanwhile: a graph is a program with shared state, and running two events
//! through it at once would make every piece of that state a race.
//!
//! The loop itself — the channel, the sleeping, the sources — lives with the
//! daemon. What lives here is the arithmetic on the queue.
use vstd::prelude::*;
use crate::run::plan::{below_upto, Plan};
use crate::text::{append, decimal, decimal_of, join, join_with, owned, same, views};

verus! {

/// What a live run did while it was up.
#[derive(Debug, Clone, Default, PartialEq, Eq, Structural)]
pub struct Tally {
    pub events: u32,
    /// Events the overlap policy threw away, which is a number the graph panel
    /// shows rather than something to hide.
    pub dropped: u32,
    pub errors: u32,
}

/// What happens to an event that arrives while another is waiting.
#[derive(Debug, Clone, Copy, PartialEq, Eq, Structural)]
pub enum OverlapPolicy {
    /// Keep them in order, up to the maximum.
    Queue,
    /// Keep what is already waiting and refuse the newcomer.
    DropNewest,
    /// Keep the freshest, up to the maximum.
    DropOldest,
    /// A burst from one source becomes its last event.
    Coalesce,
}

/// The graph's overlap settings.
#[derive(Debug, Clone, Copy, PartialEq, Eq, Structural)]
pub struct Overlap {
    pub policy: OverlapPolicy,
    pub max_queue: u32,
    pub coalesce_ms: u32,
    pub loop_parallel: u32,
}

/// An event waiting its turn: which source fired, when (milliseconds into the
/// run), and whatever the source handed over.
pub struct Queued<T> {
    pub node: String,
    pub at_ms: u64,
    pub item: T,
}

/// The longest the queue may grow; a maximum of zero still holds one.
pub open spec fn limit(o: Overlap) -> nat {
    if o.max_queue == 0 { 1 } else { o.max_queue as nat }
}

/// How long after `earlier` the time `later` is, and no time at all if it is
/// not after it.
pub open spec fn gap(earlier: u64, later: u64) -> nat {
    if later >= earlier { (later - earlier) as nat } else { 0 }
}

/// Whether an event arriving behind `last` is part of the same burst.
pub open spec fn same_burst<T>(o: Overlap, last: Queued<T>, e: Queued<T>) -> bool {
    last.node@ == e.node@ && gap(last.at_ms, e.at_ms) <= o.coalesce_ms
}

/// One arrival: the queue after it, and how many events it cost.
pub open spec fn arrive<T>(o: Overlap, q: Seq<Queued<T>>, e: Queued<T>) -> (Seq<Queued<T>>, nat) {
    match o.policy {
        OverlapPolicy::Queue => if q.len() >= limit(o) { (q, 1) } else { (q.push(e), 0) },
        OverlapPolicy::DropNewest => if q.len() > 0 { (q, 1) } else { (q.push(e), 0) },
        OverlapPolicy::DropOldest => {
            let p = q.push(e);
            if p.len() > limit(o) {
                (p.skip(p.len() - limit(o)), (p.len() - limit(o)) as nat)
            } else {
                (p, 0)
            }
        },
        OverlapPolicy::Coalesce => if q.len() > 0 && same_burst(o, q.last(), e) {
            (q.drop_last().push(e), 1)
        } else {
            (q.push(e), 0)
        },
    }
}

/// Whether an arrival is refused because the queue is full, which is the one
/// drop the console reports as it happens.
pub open spec fn refused<T>(o: Overlap, q: Seq<Queued<T>>) -> bool {
    o.policy == OverlapPolicy::Queue && q.len() >= limit(o)
}

/// Every arrival in turn: the queue after them all, and what they cost.
pub open spec fn arrive_all<T>(o: Overlap, q: Seq<Queued<T>>, es: Seq<Queued<T>>) -> (Seq<Queued<T>>, nat)
    decreases es.len(),
{
    if es.len() == 0 {
        (q, 0)
    } else {
        let before = arrive_all(o, q, es.drop_last());
        let after = arrive(o, before.0, es.last());
        (after.0, before.1 + after.1)
    }
}

/// The sources whose events a full queue refused, in arrival order.
pub open spec fn refusals<T>(o: Overlap, q: Seq<Queued<T>>, es: Seq<Queued<T>>) -> Seq<Seq<char>>
    decreases es.len(),
{
    if es.len() == 0 {
        seq![]
    } else {
        let earlier = refusals(o, q, es.drop_last());
        if refused(o, arrive_all(o, q, es.drop_last()).0) { earlier.push(es.last().node@) } else { earlier }
    }
}

/// What the console says when a full queue refuses an event.
pub open spec fn queue_full_text(max: nat) -> Seq<char> {
    "queue is full at "@ + decimal(max) + "; dropped an event"@
}

/// The console line for an event a full queue refused.
pub fn queue_full(max: u32) -> (s: String)
    ensures
        s@ == queue_full_text(max as nat),
{
    let mut s = owned("queue is full at ");
    let digits = decimal_of(max as u64);
    append(&mut s, digits.as_str());
    append(&mut s, "; dropped an event");
    s
}

fn limit_of(o: &Overlap) -> (m: usize)
    ensures
        m == limit(*o),
{
    if o.max_queue == 0 { 1 } else { o.max_queue as usize }
}

/// Take the events that arrived, applying the overlap policy.
///
/// Answers with the sources whose events a full queue refused, so the
/// console can say so; the other policies drop quietly and only count.
pub fn absorb<T>(overlap: &Overlap, queue: &mut Vec<Queued<T>>, tally: &mut Tally, arrived: Vec<Queued<T>>) -> (refused: Vec<String>)
    requires
        old(tally).dropped + old(queue)@.len() + arrived@.len() <= u32::MAX,
    ensures
        final(queue)@ == arrive_all(*overlap, old(queue)@, arrived@).0,
        final(tally).dropped == old(tally).dropped + arrive_all(*overlap, old(queue)@, arrived@).1,
        final(tally).events == old(tally).events,
        final(tally).errors == old(tally).errors,
        refused@.map_values(|s: String| s@) == refusals(*overlap, old(queue)@, arrived@),
{
    let ghost q0 = queue@;
    let ghost es = arrived@;
    let max = limit_of(overlap);
    let mut refused: Vec<String> = Vec::new();
    let mut pending = arrived;
    let mut n: usize = 0;
    proof { lemma_conserve(*overlap, q0, es.take(0)); }
    while pending.len() > 0
        invariant
            n <= es.len(),
            pending@.len() + n == es.len(),
            pending@ == es.skip(n as int),
            max == limit(*overlap),
            queue@ == arrive_all(*overlap, q0, es.take(n as int)).0,
            tally.dropped == old(tally).dropped + arrive_all(*overlap, q0, es.take(n as int)).1,
            tally.events == old(tally).events,
            tally.errors == old(tally).errors,
            old(tally).dropped + q0.len() + es.len() <= u32::MAX,
            queue@.len() + arrive_all(*overlap, q0, es.take(n as int)).1 == q0.len() + n,
            refused@.map_values(|s: String| s@) == refusals(*overlap, q0, es.take(n as int)),
        decreases pending.len(),
    {
        let event = pending.remove(0);
        proof {
            assert(event == es[n as int]);
            assert(es.take(n + 1).drop_last() =~= es.take(n as int));
            assert(es.take(n + 1).last() == event);
            lemma_conserve(*overlap, q0, es.take(n + 1));
        }
        let ghost q = queue@;
        match overlap.policy {
            OverlapPolicy::Queue => {
                if queue.len() >= max {
                    tally.dropped = tally.dropped + 1;
                    refused.push(event.node);
                    proof {
                        assert(refused@.map_values(|s: String| s@) =~= refusals(*overlap, q0, es.take(n as int)).push(event.node@));
                    }
                } else {
                    queue.push(event);
                }
            }
            OverlapPolicy::DropNewest => {
                if queue.len() > 0 {
                    tally.dropped = tally.dropped + 1;
                } else {
                    queue.push(event);
                }
            }
            OverlapPolicy::DropOldest => {
                queue.push(event);
                let ghost p = queue@;
                while queue.len() > max
                    invariant
                        max >= 1,
                        p.len() >= queue@.len(),
                        queue@ == p.skip(p.len() - queue@.len()),
                        queue@.len() == p.len() || queue@.len() >= max,
                        max == limit(*overlap),
                        tally.dropped + queue@.len() == old(tally).dropped + arrive_all(*overlap, q0, es.take(n as int)).1 + p.len(),
                        old(tally).dropped + arrive_all(*overlap, q0, es.take(n as int)).1 + p.len() <= u32::MAX,
                        tally.events == old(tally).events,
                        tally.errors == old(tally).errors,
                    decreases queue.len(),
                {
                    let ghost before = queue@;
                    queue.remove(0);
                    proof { assert(queue@ =~= p.skip(p.len() - queue@.len())); }
                    tally.dropped = tally.dropped + 1;
                }
                proof {
                    if p.len() <= max {
                        assert(queue@ =~= p);
                    }
                }
            }
            OverlapPolicy::Coalesce => {
                let mut merge = false;
                if queue.len() > 0 {
                    let last = &queue[queue.len() - 1];
                    if same(last.node.as_str(), event.node.as_str()) {
                        let gap_ms: u64 = if event.at_ms >= last.at_ms { event.at_ms - last.at_ms } else { 0 };
                        merge = gap_ms <= overlap.coalesce_ms as u64;
                    }
                }
                if merge {
                    queue.pop();
                    tally.dropped = tally.dropped + 1;
                }
                queue.push(event);
                proof {
                    if merge { assert(queue@ =~= q.drop_last().push(event)); }
                }
            }
        }
        proof {
            assert(queue@ == arrive(*overlap, q, event).0);
        }
        n = n + 1;
    }
    proof { assert(es.take(es.len() as int) =~= es); }
    refused
}

/// Every arrival is either still waiting or counted as dropped.
proof fn lemma_conserve<T>(o: Overlap, q: Seq<Queued<T>>, es: Seq<Queued<T>>)
    ensures
        arrive_all(o, q, es).0.len() + arrive_all(o, q, es).1 == q.len() + es.len(),
    decreases es.len(),
{
    if es.len() > 0 {
        lemma_conserve(o, q, es.drop_last());
    }
}

/// Nothing is lost without being counted: every event that arrived is either
/// waiting in the queue or in the tally of dropped events.
pub proof fn law_nothing_lost_uncounted<T>(o: Overlap, q: Seq<Queued<T>>, es: Seq<Queued<T>>)
    ensures
        arrive_all(o, q, es).0.len() + arrive_all(o, q, es).1 == q.len() + es.len(),
{
    lemma_conserve(o, q, es);
}

/// Queue and drop-oldest never hold more than the maximum, and drop-newest
/// never more than one: a queue that starts within its bound stays there.
pub proof fn law_queue_bounded<T>(o: Overlap, q: Seq<Queued<T>>, es: Seq<Queued<T>>)
    requires
        o.policy == OverlapPolicy::Queue || o.policy == OverlapPolicy::DropOldest ==> q.len() <= limit(o),
        o.policy == OverlapPolicy::DropNewest ==> q.len() <= 1,
    ensures
        o.policy == OverlapPolicy::Queue || o.policy == OverlapPolicy::DropOldest ==> arrive_all(o, q, es).0.len() <= limit(o),
        o.policy == OverlapPolicy::DropNewest ==> arrive_all(o, q, es).0.len() <= 1,
    decreases es.len(),
{
    if es.len() > 0 {
        law_queue_bounded(o, q, es.drop_last());
    }
}

/// Whatever the policy, the event that arrived last is waiting to run
/// unless a full queue or a busy drop-newest refused it.
pub proof fn law_latest_waits<T>(o: Overlap, q: Seq<Queued<T>>, es: Seq<Queued<T>>)
    requires
        es.len() > 0,
        o.policy == OverlapPolicy::DropOldest || o.policy == OverlapPolicy::Coalesce,
    ensures
        arrive_all(o, q, es).0.len() > 0,
        arrive_all(o, q, es).0.last() == es.last(),
{
}

} // verus!

verus! {

/// The steps an event on `node.port` sets going, in the order they run.
pub open spec fn below(p: Plan, node: Seq<char>, port: Seq<char>) -> Seq<Seq<char>> {
    below_upto(views(p.order@), p.wires@, (node, port), p.order@.len() as int)
}

/// What one event sets going.
pub enum Firing {
    /// Nothing is below the port. The warning is said and nothing runs.
    Nowhere(String),
    /// These steps run, in this order, and the console says which.
    Run { steps: Vec<String>, says: String },
}

/// Work out what an event sets going. A source that hands something over
/// seeds its port with it; a device that is read (`reads`) hands nothing
/// over, so it goes at the head of its own run and is read there — seeding
/// its port instead would put nothing on the wire and call it a frame.
pub fn firing(plan: &Plan, node: &str, port: &str, reads: bool) -> (f: Firing)
    ensures
        match f {
            Firing::Nowhere(w) => below(*plan, node@, port@).len() == 0
                && w@ == node@ + "."@ + port@ + " is wired to nothing"@,
            Firing::Run { steps, says } => {
                &&& below(*plan, node@, port@).len() > 0
                &&& views(steps@) == if reads { seq![node@] + below(*plan, node@, port@) } else { below(*plan, node@, port@) }
                &&& says@ == port@ + " → "@ + join(below(*plan, node@, port@), " → "@)
            },
        },
{
    let steps = plan.downstream_of(node, port);
    if steps.len() == 0 {
        let mut w = owned(node);
        append(&mut w, ".");
        append(&mut w, port);
        append(&mut w, " is wired to nothing");
        return Firing::Nowhere(w);
    }
    let mut says = owned(port);
    append(&mut says, " → ");
    let chain = join_with(&steps, " → ");
    append(&mut says, chain.as_str());
    if reads {
        let ghost rest = views(steps@);
        let mut all: Vec<String> = Vec::new();
        all.push(owned(node));
        let mut k: usize = 0;
        while k < steps.len()
            invariant
                k <= steps@.len(),
                rest == views(steps@),
                views(all@) == seq![node@] + rest.take(k as int),
            decreases steps.len() - k,
        {
            let ghost before = views(all@);
            all.push(steps[k].clone());
            proof {
                assert(views(all@) =~= before.push(steps@[k as int]@));
                assert(rest.take(k + 1) =~= rest.take(k as int).push(rest[k as int]));
                assert(seq![node@] + rest.take(k + 1) =~= (seq![node@] + rest.take(k as int)).push(rest[k as int]));
            }
            k = k + 1;
        }
        proof { assert(rest.take(rest.len() as int) =~= rest); }
        Firing::Run { steps: all, says }
    } else {
        Firing::Run { steps, says }
    }
}

/// A hardware fault pauses, and one click resumes. When the
/// device an event asked to read came back with nothing, the graph is held,
/// and said so, once: if it is already held, nothing more is said. An error
/// further down the pass is a program with a bug in it and holds nothing.
pub fn held_by(node: &str, reads: bool, produced: bool, paused: bool) -> (m: Option<String>)
    ensures
        m is Some <==> (reads && !produced && !paused),
        m matches Some(t) ==> t@ == node@ + " could not be read, so the graph is held. Resume to try again."@,
{
    if reads && !produced && !paused {
        let mut t = owned(node);
        append(&mut t, " could not be read, so the graph is held. Resume to try again.");
        Some(t)
    } else {
        None
    }
}

} // verus!

verus! {

/// Under the queue policy, what waits is what waited, then the arrivals in
/// the order they came, as many as there is room for; the rest are refused.
pub proof fn law_queue_keeps_order<T>(o: Overlap, q: Seq<Queued<T>>, es: Seq<Queued<T>>)
    requires
        o.policy == OverlapPolicy::Queue,
    ensures
        ({
            let room: int = if q.len() >= limit(o) { 0 } else { limit(o) - q.len() };
            let taken: int = if es.len() <= room { es.len() as int } else { room };
            arrive_all(o, q, es).0 == q + es.take(taken)
        }),
    decreases es.len(),
{
    let room: int = if q.len() >= limit(o) { 0 } else { limit(o) - q.len() };
    if es.len() == 0 {
        assert(q + es.take(0) =~= q);
    } else {
        let r = es.drop_last();
        law_queue_keeps_order(o, q, r);
        let t0: int = if r.len() <= room { r.len() as int } else { room };
        let before = arrive_all(o, q, r).0;
        assert(before == q + r.take(t0));
        assert(r.take(t0) =~= es.take(t0));
        if r.len() < room {
            assert(before.len() < limit(o));
            assert(es.take(t0 + 1) =~= es.take(t0).push(es.last()));
            assert(arrive_all(o, q, es).0 =~= q + es.take(t0 + 1));
        } else {
            assert(before.len() >= limit(o));
        }
    }
}

} // verus!

verus! {

/// What a live graph's loop does next.
pub enum LiveAction<T> {
    /// Someone stopped it: disarm the sources and report the run Stopped.
    Finish,
    /// Held, or nothing waiting: sleep a moment and look again.
    Wait,
    /// Run the graph for this event, the oldest waiting.
    Fire(Queued<T>),
}

/// What a live graph with no source says, and why it ends at once: it would
/// otherwise sit forever doing nothing, which looks exactly like a graph that
/// is working.
pub fn nothing_armed(armed: usize) -> (m: Option<&'static str>)
    ensures
        match m {
            Some(t) => armed == 0 && t@ == "nothing is armed: a live graph needs a source"@,
            None => armed > 0,
        },
{
    if armed == 0 { Some("nothing is armed: a live graph needs a source") } else { None }
}

/// One turn of a live graph's loop, once what has arrived has been
/// absorbed. Stopped wins; a held graph keeps its queue; otherwise the
/// oldest event is taken and counted.
pub fn live_turn<T>(cancelled: bool, paused: bool, queue: &mut Vec<Queued<T>>, tally: &mut Tally) -> (a: LiveAction<T>)
    requires
        old(tally).events < u32::MAX,
    ensures
        cancelled ==> a is Finish && final(queue)@ == old(queue)@ && *final(tally) == *old(tally),
        !cancelled && (paused || old(queue)@.len() == 0) ==> a is Wait && final(queue)@ == old(queue)@ && *final(tally) == *old(tally),
        !cancelled && !paused && old(queue)@.len() > 0 ==> {
            &&& a matches LiveAction::Fire(e) && e == old(queue)@[0]
            &&& final(queue)@ == old(queue)@.drop_first()
            &&& final(tally).events == old(tally).events + 1
            &&& final(tally).dropped == old(tally).dropped
            &&& final(tally).errors == old(tally).errors
        },
{
    if cancelled {
        return LiveAction::Finish;
    }
    if paused || queue.len() == 0 {
        return LiveAction::Wait;
    }
    let e = queue.remove(0);
    tally.events = tally.events + 1;
    LiveAction::Fire(e)
}

/// What firing an event cost is added to the run's errors.
pub fn count_errors(tally: &mut Tally, errors: u32)
    requires
        old(tally).errors + errors <= u32::MAX,
    ensures
        final(tally).errors == old(tally).errors + errors,
        final(tally).events == old(tally).events,
        final(tally).dropped == old(tally).dropped,
{
    tally.errors = tally.errors + errors;
}

} // verus!

verus! {

/// Under drop-oldest, what waits after the arrivals is the freshest of
/// everything — the queue then the arrivals, in order — up to the maximum,
/// and exactly the overflow is dropped, oldest first.
pub proof fn law_drop_oldest_keeps_the_freshest<T>(o: Overlap, q: Seq<Queued<T>>, es: Seq<Queued<T>>)
    requires
        o.policy == OverlapPolicy::DropOldest,
        q.len() <= limit(o),
    ensures
        ({
            let all = q + es;
            let over: int = if all.len() > limit(o) { all.len() - limit(o) } else { 0 };
            &&& arrive_all(o, q, es).0 == all.skip(over)
            &&& arrive_all(o, q, es).1 == over
        }),
    decreases es.len(),
{
    let all = q + es;
    if es.len() == 0 {
        assert(all =~= q);
        assert(all.skip(0) =~= all);
    } else {
        let r = es.drop_last();
        law_drop_oldest_keeps_the_freshest(o, q, r);
        let before = q + r;
        let over0: int = if before.len() > limit(o) { before.len() - limit(o) } else { 0 };
        let prev = arrive_all(o, q, r).0;
        assert(prev == before.skip(over0));
        assert(all =~= before.push(es.last()));
        let p = prev.push(es.last());
        let over: int = if all.len() > limit(o) { all.len() - limit(o) } else { 0 };
        if p.len() > limit(o) {
            assert(p.len() - limit(o) == 1);
            assert(p.skip(1) =~= all.skip(over));
        } else {
            assert(p =~= all.skip(over));
        }
    }
}

} // verus!

verus! {

/// Under drop-newest, a busy graph refuses every arrival: an event waiting
/// stays and the arrivals are dropped; with nothing waiting, the first
/// arrival waits and the rest are dropped.
pub proof fn law_drop_newest_keeps_the_first<T>(o: Overlap, q: Seq<Queued<T>>, es: Seq<Queued<T>>)
    requires
        o.policy == OverlapPolicy::DropNewest,
        q.len() <= 1,
    ensures
        q.len() == 1 ==> arrive_all(o, q, es).0 == q && arrive_all(o, q, es).1 == es.len(),
        q.len() == 0 && es.len() > 0 ==> arrive_all(o, q, es).0 == seq![es[0]] && arrive_all(o, q, es).1 == es.len() - 1,
        q.len() == 0 && es.len() == 0 ==> arrive_all(o, q, es).0.len() == 0,
    decreases es.len(),
{
    if es.len() > 0 {
        let r = es.drop_last();
        law_drop_newest_keeps_the_first(o, q, r);
        if q.len() == 0 && r.len() > 0 {
            assert(r[0] == es[0]);
        }
    }
}

/// Under coalescing, nothing is lost but what a later event of the same
/// burst replaces: an arrival from the source of the last one waiting,
/// within the coalescing gap, takes its place; any other arrival queues.
pub proof fn law_coalesce_replaces_within_a_burst<T>(o: Overlap, q: Seq<Queued<T>>, e: Queued<T>)
    requires
        o.policy == OverlapPolicy::Coalesce,
    ensures
        q.len() > 0 && q.last().node@ == e.node@ && gap(q.last().at_ms, e.at_ms) <= o.coalesce_ms
            ==> arrive(o, q, e) == (q.drop_last().push(e), 1nat),
        !(q.len() > 0 && q.last().node@ == e.node@ && gap(q.last().at_ms, e.at_ms) <= o.coalesce_ms)
            ==> arrive(o, q, e) == (q.push(e), 0nat),
{
}

} // verus!
