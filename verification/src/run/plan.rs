//! Deciding what runs, in what order, and what merely stands ready.
//!
//! The plan is built once, before anything executes, from the graph alone. It
//! is a pure function of the file: the same graph always plans the same way.
//!
//! A block is a *capability* when it has wired outputs and every one of them is
//! a *handle* — `tools` or `memory`, the types whose holder makes the calls.
//! It is bound to whoever holds the handle and runs only when
//! called. A block with no wired outputs at all is a *step*: it was placed to
//! do something. Every block that is not a capability is a step, and the
//! steps run in an order that respects every wire between them that is not a
//! handle, ties broken by the order of the file.
use vstd::prelude::*;
use super::graph::{Catalogue, Endpoint, Graph, Side, Wire, block_index, block_named, handle_wire, kind_index, kind_named, port_type, port_type_of};
use crate::text::{append, contains, less, lemma_less_transitive, lemma_less_trichotomy, same, seq_less, decimal, decimal_of, insert_sorted, join, join_with, owned, sorted_unique, views};

verus! {

// ------------------------------------------------------------- capabilities

/// Some wire leaves this block from a port that has a declared type.
pub open spec fn wired_out(g: Graph, cat: Catalogue, id: Seq<char>) -> bool {
    exists|i: int|
        #![trigger g.wires@[i]]
        0 <= i < g.wires@.len() && g.wires@[i].from.node@ == id
            && port_type_of(g, cat, g.wires@[i].from, Side::Out) is Some
}

/// Every typed port this block is wired out of is a handle.
pub open spec fn outs_all_handles(g: Graph, cat: Catalogue, id: Seq<char>) -> bool {
    forall|i: int|
        #![trigger g.wires@[i]]
        0 <= i < g.wires@.len() && g.wires@[i].from.node@ == id ==> match port_type_of(
            g,
            cat,
            g.wires@[i].from,
            Side::Out,
        ) {
            Some(t) => t.spec_is_handle(),
            None => true,
        }
}

/// The block answers calls rather than taking a turn.
pub open spec fn capability(g: Graph, cat: Catalogue, id: Seq<char>) -> bool {
    wired_out(g, cat, id) && outs_all_handles(g, cat, id)
}

fn is_capability_id(g: &Graph, cat: &Catalogue, id: &String) -> (r: bool)
    ensures
        r == capability(*g, *cat, id@),
{
    let mut any = false;
    let mut all = true;
    let mut i: usize = 0;
    while i < g.wires.len()
        invariant
            i <= g.wires@.len(),
            any == exists|j: int|
                #![trigger g.wires@[j]]
                0 <= j < i && g.wires@[j].from.node@ == id@
                    && port_type_of(*g, *cat, g.wires@[j].from, Side::Out) is Some,
            all == forall|j: int|
                #![trigger g.wires@[j]]
                0 <= j < i && g.wires@[j].from.node@ == id@ ==> match port_type_of(
                    *g,
                    *cat,
                    g.wires@[j].from,
                    Side::Out,
                ) {
                    Some(t) => t.spec_is_handle(),
                    None => true,
                },
        decreases g.wires.len() - i,
    {
        if g.wires[i].from.node == *id {
            match port_type(g, cat, &g.wires[i].from, Side::Out) {
                Some(t) => {
                    any = true;
                    if !t.is_handle() {
                        all = false;
                    }
                },
                None => {},
            }
        }
        i = i + 1;
    }
    any && all
}

// -------------------------------------------------------------------- steps

/// The ids of the first `n` blocks that are steps, in file order.
pub open spec fn steps_upto(g: Graph, cat: Catalogue, n: int) -> Seq<Seq<char>>
    decreases n,
{
    if n <= 0 {
        seq![]
    } else {
        let prev = steps_upto(g, cat, n - 1);
        let id = g.blocks@[n - 1].id@;
        if capability(g, cat, id) {
            prev
        } else {
            prev.push(id)
        }
    }
}

/// Every step, in file order.
pub open spec fn steps_of(g: Graph, cat: Catalogue) -> Seq<Seq<char>> {
    steps_upto(g, cat, g.blocks@.len() as int)
}

/// The dependencies among the first `n` wires: a step waits for another
/// when a wire that is not a handle runs from the other into it. A handle
/// wire is a binding, not a dependency, and a block does not wait on itself.
pub open spec fn edges_upto(g: Graph, cat: Catalogue, n: int) -> Seq<(Seq<char>, Seq<char>)>
    decreases n,
{
    if n <= 0 {
        seq![]
    } else {
        let prev = edges_upto(g, cat, n - 1);
        let w = g.wires@[n - 1];
        let steps = steps_of(g, cat);
        if !handle_wire(g, cat, w) && steps.contains(w.from.node@) && steps.contains(w.to.node@)
            && w.from.node@ != w.to.node@ {
            prev.push((w.from.node@, w.to.node@))
        } else {
            prev
        }
    }
}

pub open spec fn edges_of(g: Graph, cat: Catalogue) -> Seq<(Seq<char>, Seq<char>)> {
    edges_upto(g, cat, g.wires@.len() as int)
}

/// `s` waits for `d`.
pub open spec fn waits_for(edges: Seq<(Seq<char>, Seq<char>)>, s: Seq<char>, d: Seq<char>) -> bool {
    exists|k: int| 0 <= k < edges.len() && #[trigger] edges[k] == (d, s)
}

/// Everything `s` waits for is already placed.
pub open spec fn deps_met(
    edges: Seq<(Seq<char>, Seq<char>)>,
    s: Seq<char>,
    placed: Seq<Seq<char>>,
) -> bool {
    forall|k: int| 0 <= k < edges.len() && (#[trigger] edges[k]).1 == s ==> placed.contains(edges[k].0)
}

/// The first `n` steps that can go now, in file order.
pub open spec fn ready_upto(
    steps: Seq<Seq<char>>,
    edges: Seq<(Seq<char>, Seq<char>)>,
    placed: Seq<Seq<char>>,
    n: int,
) -> Seq<Seq<char>>
    decreases n,
{
    if n <= 0 {
        seq![]
    } else {
        let prev = ready_upto(steps, edges, placed, n - 1);
        let s = steps[n - 1];
        if !placed.contains(s) && deps_met(edges, s, placed) {
            prev.push(s)
        } else {
            prev
        }
    }
}

pub open spec fn ready(
    steps: Seq<Seq<char>>,
    edges: Seq<(Seq<char>, Seq<char>)>,
    placed: Seq<Seq<char>>,
) -> Seq<Seq<char>> {
    ready_upto(steps, edges, placed, steps.len() as int)
}

/// How many of the first `n` steps are not placed yet.
pub open spec fn unplaced(steps: Seq<Seq<char>>, placed: Seq<Seq<char>>, n: int) -> nat
    decreases n,
{
    if n <= 0 {
        0
    } else {
        unplaced(steps, placed, n - 1) + if placed.contains(steps[n - 1]) { 0nat } else { 1nat }
    }
}

/// Round after round, every step whose dependencies are all placed goes
/// next, in file order; what is never ready is left out.
pub open spec fn kahn(
    steps: Seq<Seq<char>>,
    edges: Seq<(Seq<char>, Seq<char>)>,
    placed: Seq<Seq<char>>,
) -> Seq<Seq<char>>
    decreases unplaced(steps, placed, steps.len() as int),
    via kahn_decreases
{
    let r = ready(steps, edges, placed);
    if r.len() == 0 {
        placed
    } else {
        kahn(steps, edges, placed + r)
    }
}

proof fn lemma_ready_members(
    steps: Seq<Seq<char>>,
    edges: Seq<(Seq<char>, Seq<char>)>,
    placed: Seq<Seq<char>>,
    n: int,
)
    requires
        0 <= n <= steps.len(),
    ensures
        forall|x: int|
            #![trigger ready_upto(steps, edges, placed, n)[x]]
            0 <= x < ready_upto(steps, edges, placed, n).len() ==> exists|i: int|
                0 <= i < n && steps[i] == ready_upto(steps, edges, placed, n)[x] && !placed.contains(
                    steps[i],
                ) && deps_met(edges, steps[i], placed),
    decreases n,
{
    if n > 0 {
        lemma_ready_members(steps, edges, placed, n - 1);
        let prev = ready_upto(steps, edges, placed, n - 1);
        let cur = ready_upto(steps, edges, placed, n);
        assert forall|x: int| #![trigger cur[x]] 0 <= x < cur.len() implies exists|i: int|
            0 <= i < n && steps[i] == cur[x] && !placed.contains(steps[i]) && deps_met(
                edges,
                steps[i],
                placed,
            ) by {
            if x < prev.len() {
                assert(cur[x] == prev[x]);
                let i = choose|i: int|
                    0 <= i < n - 1 && steps[i] == prev[x] && !placed.contains(steps[i]) && deps_met(
                        edges,
                        steps[i],
                        placed,
                    );
                assert(0 <= i < n);
            } else {
                assert(cur[x] == steps[n - 1]);
            }
        }
    }
}

proof fn lemma_unplaced_shrinks(
    steps: Seq<Seq<char>>,
    placed: Seq<Seq<char>>,
    more: Seq<Seq<char>>,
    n: int,
    witness: int,
)
    requires
        0 <= n <= steps.len(),
    ensures
        unplaced(steps, placed + more, n) <= unplaced(steps, placed, n),
        0 <= witness < n && !placed.contains(steps[witness]) && more.contains(steps[witness])
            ==> unplaced(steps, placed + more, n) < unplaced(steps, placed, n),
    decreases n,
{
    if n > 0 {
        lemma_unplaced_shrinks(steps, placed, more, n - 1, witness);
        let s = steps[n - 1];
        if placed.contains(s) {
            let k = choose|k: int| 0 <= k < placed.len() && placed[k] == s;
            assert((placed + more)[k] == s);
        }
        if more.contains(s) {
            let k = choose|k: int| 0 <= k < more.len() && more[k] == s;
            assert((placed + more)[placed.len() + k] == s);
        }
    }
}

#[via_fn]
proof fn kahn_decreases(
    steps: Seq<Seq<char>>,
    edges: Seq<(Seq<char>, Seq<char>)>,
    placed: Seq<Seq<char>>,
) {
    lemma_round_progress(steps, edges, placed);
}

/// A round that places anything places something new.
proof fn lemma_round_progress(
    steps: Seq<Seq<char>>,
    edges: Seq<(Seq<char>, Seq<char>)>,
    placed: Seq<Seq<char>>,
)
    ensures
        ready(steps, edges, placed).len() > 0 ==> unplaced(steps, placed + ready(steps, edges, placed), steps.len() as int)
            < unplaced(steps, placed, steps.len() as int),
{
    let r = ready(steps, edges, placed);
    if r.len() > 0 {
        lemma_ready_members(steps, edges, placed, steps.len() as int);
        assert(0 <= 0 < r.len());
        let i = choose|i: int|
            0 <= i < steps.len() && steps[i] == r[0] && !placed.contains(steps[i]) && deps_met(
                edges,
                steps[i],
                placed,
            );
        assert(r.contains(steps[i]));
        lemma_unplaced_shrinks(steps, placed, r, steps.len() as int, i);
    }
}

} // verus!

verus! {

pub open spec fn pair_views(v: Seq<(String, String)>) -> Seq<(Seq<char>, Seq<char>)> {
    v.map_values(|p: (String, String)| (p.0@, p.1@))
}

fn step_ids(g: &Graph, cat: &Catalogue) -> (v: Vec<String>)
    ensures
        views(v@) == steps_of(*g, *cat),
{
    let mut v: Vec<String> = Vec::new();
    let mut i: usize = 0;
    while i < g.blocks.len()
        invariant
            i <= g.blocks@.len(),
            views(v@) == steps_upto(*g, *cat, i as int),
        decreases g.blocks.len() - i,
    {
        if !is_capability_id(g, cat, &g.blocks[i].id) {
            v.push(g.blocks[i].id.clone());
            proof { assert(views(v@) =~= steps_upto(*g, *cat, i as int).push(g.blocks@[i as int].id@)); }
        }
        i = i + 1;
    }
    v
}

fn edge_list(g: &Graph, cat: &Catalogue, steps: &Vec<String>) -> (e: Vec<(String, String)>)
    requires
        views(steps@) == steps_of(*g, *cat),
    ensures
        pair_views(e@) == edges_of(*g, *cat),
{
    let mut e: Vec<(String, String)> = Vec::new();
    let mut i: usize = 0;
    while i < g.wires.len()
        invariant
            i <= g.wires@.len(),
            views(steps@) == steps_of(*g, *cat),
            pair_views(e@) == edges_upto(*g, *cat, i as int),
        decreases g.wires.len() - i,
    {
        let w = &g.wires[i];
        let handle = match port_type(g, cat, &w.from, Side::Out) {
            Some(t) => t.is_handle(),
            None => false,
        };
        if !handle && contains(steps, &w.from.node) && contains(steps, &w.to.node)
            && !(w.from.node == w.to.node) {
            e.push((w.from.node.clone(), w.to.node.clone()));
            proof {
                assert(pair_views(e@) =~= edges_upto(*g, *cat, i as int).push(
                    (w.from.node@, w.to.node@),
                ));
            }
        }
        i = i + 1;
    }
    e
}

fn deps_met_now(edges: &Vec<(String, String)>, s: &String, order: &Vec<String>) -> (r: bool)
    ensures
        r == deps_met(pair_views(edges@), s@, views(order@)),
{
    let mut k: usize = 0;
    while k < edges.len()
        invariant
            k <= edges@.len(),
            forall|j: int|
                0 <= j < k && (#[trigger] pair_views(edges@)[j]).1 == s@ ==> views(order@).contains(
                    pair_views(edges@)[j].0,
                ),
        decreases edges.len() - k,
    {
        if edges[k].1 == *s && !contains(order, &edges[k].0) {
            proof { assert(pair_views(edges@)[k as int] == (edges@[k as int].0@, edges@[k as int].1@)); }
            return false;
        }
        proof { assert(pair_views(edges@)[k as int] == (edges@[k as int].0@, edges@[k as int].1@)); }
        k = k + 1;
    }
    true
}

fn ready_now(steps: &Vec<String>, edges: &Vec<(String, String)>, order: &Vec<String>) -> (r: Vec<String>)
    ensures
        views(r@) == ready(views(steps@), pair_views(edges@), views(order@)),
{
    let mut r: Vec<String> = Vec::new();
    let mut i: usize = 0;
    while i < steps.len()
        invariant
            i <= steps@.len(),
            views(r@) == ready_upto(views(steps@), pair_views(edges@), views(order@), i as int),
        decreases steps.len() - i,
    {
        if !contains(order, &steps[i]) && deps_met_now(edges, &steps[i], order) {
            r.push(steps[i].clone());
            proof {
                assert(views(r@) =~= ready_upto(views(steps@), pair_views(edges@), views(order@), i as int).push(steps@[i as int]@));
            }
        }
        i = i + 1;
    }
    r
}

/// The steps in the order they run.
fn order_steps(steps: &Vec<String>, edges: &Vec<(String, String)>) -> (order: Vec<String>)
    ensures
        views(order@) == kahn(views(steps@), pair_views(edges@), seq![]),
{
    let ghost s = views(steps@);
    let ghost e = pair_views(edges@);
    let mut order: Vec<String> = Vec::new();
    proof { assert(views(order@) =~= Seq::<Seq<char>>::empty()); }
    loop
        invariant
            s == views(steps@),
            e == pair_views(edges@),
            kahn(s, e, views(order@)) == kahn(s, e, seq![]),
        ensures
            views(order@) == kahn(s, e, seq![]),
        decreases unplaced(s, views(order@), s.len() as int),
    {
        let r = ready_now(steps, edges, &order);
        if r.len() == 0 {
            break;
        }
        let ghost before = views(order@);
        proof { lemma_round_progress(s, e, before); }
        let mut k: usize = 0;
        while k < r.len()
            invariant
                k <= r@.len(),
                s == views(steps@),
                e == pair_views(edges@),
                views(order@) == before + views(r@).take(k as int),
            decreases r.len() - k,
        {
            order.push(r[k].clone());
            proof {
                assert(views(r@).take(k + 1) =~= views(r@).take(k as int).push(r@[k as int]@));
                assert(views(order@) =~= (before + views(r@).take(k as int)).push(r@[k as int]@));
                assert(views(order@) =~= before + views(r@).take(k + 1));
            }
            k = k + 1;
        }
        proof {
            assert(views(r@).take(r@.len() as int) =~= views(r@));
        }
    }
    order
}

} // verus!

verus! {

/// Everything a step waits for comes before it.
pub open spec fn deps_before(edges: Seq<(Seq<char>, Seq<char>)>, order: Seq<Seq<char>>) -> bool {
    forall|k: int, d: Seq<char>|
        #![trigger order[k], waits_for(edges, order[k], d)]
        0 <= k < order.len() && waits_for(edges, order[k], d) ==> exists|j: int|
            0 <= j < k && order[j] == d
}

proof fn lemma_ready_complete(
    steps: Seq<Seq<char>>,
    edges: Seq<(Seq<char>, Seq<char>)>,
    placed: Seq<Seq<char>>,
    n: int,
    i: int,
)
    requires
        0 <= i < n <= steps.len(),
        !placed.contains(steps[i]),
        deps_met(edges, steps[i], placed),
    ensures
        ready_upto(steps, edges, placed, n).len() > 0,
    decreases n,
{
    if i < n - 1 {
        lemma_ready_complete(steps, edges, placed, n - 1, i);
    }
}

proof fn lemma_kahn_sound(
    steps: Seq<Seq<char>>,
    edges: Seq<(Seq<char>, Seq<char>)>,
    placed: Seq<Seq<char>>,
)
    requires
        deps_before(edges, placed),
    ensures
        deps_before(edges, kahn(steps, edges, placed)),
        ready(steps, edges, kahn(steps, edges, placed)).len() == 0,
        kahn(steps, edges, placed).len() >= placed.len(),
        kahn(steps, edges, placed).take(placed.len() as int) == placed,
        forall|x: int|
            #![trigger kahn(steps, edges, placed)[x]]
            placed.len() <= x < kahn(steps, edges, placed).len() ==> steps.contains(
                kahn(steps, edges, placed)[x],
            ),
    decreases unplaced(steps, placed, steps.len() as int),
{
    let r = ready(steps, edges, placed);
    if r.len() == 0 {
        assert(placed.take(placed.len() as int) =~= placed);
    } else {
        lemma_round_progress(steps, edges, placed);
        lemma_ready_members(steps, edges, placed, steps.len() as int);
        let next = placed + r;
        assert forall|k: int, d: Seq<char>|
            #![trigger next[k], waits_for(edges, next[k], d)]
            0 <= k < next.len() && waits_for(edges, next[k], d) implies exists|j: int|
                0 <= j < k && next[j] == d by {
            if k < placed.len() {
                assert(next[k] == placed[k]);
                assert(waits_for(edges, placed[k], d));
                let j = choose|j: int| 0 <= j < k && placed[j] == d;
                assert(next[j] == d);
            } else {
                let x = k - placed.len();
                assert(next[k] == r[x]);
                let i = choose|i: int|
                    0 <= i < steps.len() && steps[i] == r[x] && !placed.contains(steps[i])
                        && deps_met(edges, steps[i], placed);
                let e = choose|e: int| 0 <= e < edges.len() && edges[e] == (d, next[k]);
                assert(edges[e].1 == steps[i]);
                assert(placed.contains(d));
                let j = choose|j: int| 0 <= j < placed.len() && placed[j] == d;
                assert(next[j] == d);
            }
        }
        lemma_kahn_sound(steps, edges, next);
        let result = kahn(steps, edges, next);
        assert(result.take(next.len() as int) == next);
        assert forall|x: int| #![trigger result[x]] placed.len() <= x < result.len() implies steps.contains(result[x]) by {
            if x < next.len() {
                assert(result[x] == result.take(next.len() as int)[x]);
                assert(result[x] == r[x - placed.len()]);
                let i = choose|i: int|
                    0 <= i < steps.len() && steps[i] == r[x - placed.len()] && !placed.contains(steps[i])
                        && deps_met(edges, steps[i], placed);
                assert(steps[i] == result[x]);
            }
        }
        assert(result.take(placed.len() as int) =~= placed) by {
            assert forall|x: int| 0 <= x < placed.len() implies result.take(placed.len() as int)[x] == placed[x] by {
                assert(result[x] == result.take(next.len() as int)[x]);
                assert(next[x] == placed[x]);
            }
        }
    }
}

/// What is left out of the order is held up by something that is also left
/// out: a cycle, or something downstream of one.
pub open spec fn stuck_is_blocked(
    steps: Seq<Seq<char>>,
    edges: Seq<(Seq<char>, Seq<char>)>,
    order: Seq<Seq<char>>,
) -> bool {
    forall|s: Seq<char>|
        #![trigger steps.contains(s), order.contains(s)]
        steps.contains(s) && !order.contains(s) ==> exists|d: Seq<char>|
            waits_for(edges, s, d) && !order.contains(d)
}

/// Kahn's order: every step comes after everything it waits for, it holds
/// only steps, and every step it leaves out waits for another step it left
/// out.
pub proof fn lemma_order_is_topological(steps: Seq<Seq<char>>, edges: Seq<(Seq<char>, Seq<char>)>)
    ensures
        deps_before(edges, kahn(steps, edges, seq![])),
        stuck_is_blocked(steps, edges, kahn(steps, edges, seq![])),
        forall|x: int|
            #![trigger kahn(steps, edges, seq![])[x]]
            0 <= x < kahn(steps, edges, seq![]).len() ==> steps.contains(kahn(steps, edges, seq![])[x]),
{
    let empty = Seq::<Seq<char>>::empty();
    lemma_kahn_sound(steps, edges, empty);
    let order = kahn(steps, edges, empty);
    assert forall|s: Seq<char>|
        #![trigger steps.contains(s), order.contains(s)]
        steps.contains(s) && !order.contains(s) implies exists|d: Seq<char>|
            waits_for(edges, s, d) && !order.contains(d) by {
        let i = choose|i: int| 0 <= i < steps.len() && steps[i] == s;
        if !deps_met(edges, s, order) {
            let k = choose|k: int| 0 <= k < edges.len() && (#[trigger] edges[k]).1 == s && !order.contains(edges[k].0);
            assert(edges[k] == (edges[k].0, s));
            assert(waits_for(edges, s, edges[k].0));
        } else {
            lemma_ready_complete(steps, edges, order, steps.len() as int, i);
        }
    }
}

} // verus!

verus! {

/// The ids of the blocks that are capabilities.
pub open spec fn capability_ids(g: Graph, cat: Catalogue) -> Set<Seq<char>> {
    Set::new(|id: Seq<char>| exists|b: int| 0 <= b < g.blocks@.len() && #[trigger] g.blocks@[b].id@ == id && capability(g, cat, id))
}

/// The capabilities, each once, in the order a sorted set keeps them.
fn capabilities_of(g: &Graph, cat: &Catalogue) -> (v: Vec<String>)
    ensures
        sorted_unique(views(v@)),
        views(v@).to_set() == capability_ids(*g, *cat),
{
    let mut v: Vec<String> = Vec::new();
    let mut i: usize = 0;
    while i < g.blocks.len()
        invariant
            i <= g.blocks@.len(),
            sorted_unique(views(v@)),
            views(v@).to_set() == Set::new(|id: Seq<char>| exists|b: int| 0 <= b < i && #[trigger] g.blocks@[b].id@ == id && capability(*g, *cat, id)),
        decreases g.blocks.len() - i,
    {
        if is_capability_id(g, cat, &g.blocks[i].id) {
            insert_sorted(&mut v, g.blocks[i].id.clone());
        }
        proof {
            assert(views(v@).to_set() =~= Set::new(|id: Seq<char>| exists|b: int| 0 <= b < i + 1 && #[trigger] g.blocks@[b].id@ == id && capability(*g, *cat, id)));
        }
        i = i + 1;
    }
    proof {
        assert(views(v@).to_set() =~= capability_ids(*g, *cat));
    }
    v
}

/// The first `n` blocks that emit on their own initiative, in file order.
pub open spec fn sources_upto(g: Graph, cat: Catalogue, n: int) -> Seq<Seq<char>>
    decreases n,
{
    if n <= 0 {
        seq![]
    } else {
        let prev = sources_upto(g, cat, n - 1);
        match kind_named(cat.kinds@, g.blocks@[n - 1].kind@) {
            Some(k) => if cat.kinds@[k].source { prev.push(g.blocks@[n - 1].id@) } else { prev },
            None => prev,
        }
    }
}

fn sources_of(g: &Graph, cat: &Catalogue) -> (v: Vec<String>)
    ensures
        views(v@) == sources_upto(*g, *cat, g.blocks@.len() as int),
{
    let mut v: Vec<String> = Vec::new();
    let mut i: usize = 0;
    while i < g.blocks.len()
        invariant
            i <= g.blocks@.len(),
            views(v@) == sources_upto(*g, *cat, i as int),
        decreases g.blocks.len() - i,
    {
        match kind_index(&cat.kinds, &g.blocks[i].kind) {
            Some(k) => {
                if cat.kinds[k].source {
                    v.push(g.blocks[i].id.clone());
                    proof { assert(views(v@) =~= sources_upto(*g, *cat, i as int).push(g.blocks@[i as int].id@)); }
                }
            },
            None => {},
        }
        i = i + 1;
    }
    v
}

/// The first `n` steps the order left out.
pub open spec fn stuck_upto(steps: Seq<Seq<char>>, order: Seq<Seq<char>>, n: int) -> Seq<Seq<char>>
    decreases n,
{
    if n <= 0 {
        seq![]
    } else {
        let prev = stuck_upto(steps, order, n - 1);
        if order.contains(steps[n - 1]) { prev } else { prev.push(steps[n - 1]) }
    }
}

fn stuck_of(steps: &Vec<String>, order: &Vec<String>) -> (v: Vec<String>)
    ensures
        views(v@) == stuck_upto(views(steps@), views(order@), steps@.len() as int),
{
    let mut v: Vec<String> = Vec::new();
    let mut i: usize = 0;
    while i < steps.len()
        invariant
            i <= steps@.len(),
            views(v@) == stuck_upto(views(steps@), views(order@), i as int),
        decreases steps.len() - i,
    {
        if !contains(order, &steps[i]) {
            v.push(steps[i].clone());
            proof { assert(views(v@) =~= stuck_upto(views(steps@), views(order@), i as int).push(steps@[i as int]@)); }
        }
        i = i + 1;
    }
    v
}

/// What is said about blocks a cycle kept out of the order.
pub open spec fn cycle_message(stuck: Seq<Seq<char>>) -> Seq<char> {
    (if stuck.len() == 1 { "one block"@ } else { "blocks"@ }) + " cannot be ordered: "@ + join(stuck, ", "@)
        + " form a cycle, and Once mode has no way through one"@
}

/// What is said about loop frames, which Once mode runs once.
pub open spec fn frames_message(frames: nat) -> Seq<char> {
    decimal(frames) + " loop frame"@ + (if frames == 1 { ""@ } else { "s"@ })
        + " will run once rather than repeating: frames arrive with live graphs"@
}

pub open spec fn problems_of(stuck: Seq<Seq<char>>, frames: nat) -> Seq<Seq<char>> {
    (if stuck.len() > 0 { seq![cycle_message(stuck)] } else { seq![] })
        + (if frames > 0 { seq![frames_message(frames)] } else { seq![] })
}

fn problems(stuck: &Vec<String>, frames: usize) -> (v: Vec<String>)
    ensures
        views(v@) == problems_of(views(stuck@), frames as nat),
{
    let mut v: Vec<String> = Vec::new();
    if stuck.len() > 0 {
        let mut m = if stuck.len() == 1 { owned("one block") } else { owned("blocks") };
        append(&mut m, " cannot be ordered: ");
        let listed = join_with(stuck, ", ");
        append(&mut m, listed.as_str());
        append(&mut m, " form a cycle, and Once mode has no way through one");
        v.push(m);
    }
    if frames > 0 {
        let mut m = decimal_of(frames as u64);
        append(&mut m, " loop frame");
        if frames != 1 {
            append(&mut m, "s");
        } else {
            proof { assert(m@ + ""@ =~= m@) by { reveal_strlit(""); } }
        }
        append(&mut m, " will run once rather than repeating: frames arrive with live graphs");
        v.push(m);
    }
    proof {
        assert(views(v@) =~= problems_of(views(stuck@), frames as nat));
    }
    v
}

} // verus!

verus! {

// ----------------------------------------------------------------- bindings

/// Every block some wire starts from.
pub open spec fn wire_sources(g: Graph) -> Set<Seq<char>> {
    g.wires@.map_values(|w: Wire| w.from.node@).to_set()
}

/// A bundle is transparent: holding its handle is holding what is behind it.
pub open spec fn is_bundle(g: Graph, id: Seq<char>) -> bool {
    match block_named(g.blocks@, id) {
        Some(b) => g.blocks@[b].kind@ == "toolbox"@ || g.blocks@[b].kind@ == "memoryHub"@,
        None => false,
    }
}

/// How far `resolve` can still go from here.
pub open spec fn reach_left(g: Graph, holder: Seq<char>, seen: Set<Seq<char>>) -> nat {
    wire_sources(g).difference(seen).len() + if wire_sources(g).contains(holder) || seen.contains(holder) {
        0nat
    } else {
        1nat
    }
}

/// The blocks whose handles `holder` ends up holding, following handle wires
/// backwards and seeing through bundles, with the set of holders already
/// visited — which is what makes a bundle wired into itself end rather than
/// recurse forever.
pub open spec fn resolve(g: Graph, cat: Catalogue, holder: Seq<char>, seen: Set<Seq<char>>) -> (
    Seq<Seq<char>>,
    Set<Seq<char>>,
)
    decreases reach_left(g, holder, seen), 0nat, 0nat,
    via resolve_decreases
{
    if seen.contains(holder) {
        (seq![], seen)
    } else {
        resolve_from(g, cat, holder, seen.insert(holder), 0, seq![])
    }
}

/// The wires from the `i`-th on, for one holder.
pub open spec fn resolve_from(
    g: Graph,
    cat: Catalogue,
    holder: Seq<char>,
    seen: Set<Seq<char>>,
    i: int,
    out: Seq<Seq<char>>,
) -> (Seq<Seq<char>>, Set<Seq<char>>)
    decreases wire_sources(g).difference(seen).len(), 1nat, g.wires@.len() - i,
    via resolve_from_decreases
{
    if i < 0 || i >= g.wires@.len() {
        (out, seen)
    } else {
        let w = g.wires@[i];
        if w.to.node@ != holder || !handle_wire(g, cat, w) {
            resolve_from(g, cat, holder, seen, i + 1, out)
        } else if is_bundle(g, w.from.node@) {
            let got = resolve(g, cat, w.from.node@, seen);
            resolve_from(g, cat, holder, seen.union(got.1), i + 1, out + got.0)
        } else if out.contains(w.from.node@) {
            resolve_from(g, cat, holder, seen, i + 1, out)
        } else {
            resolve_from(g, cat, holder, seen, i + 1, out.push(w.from.node@))
        }
    }
}

proof fn lemma_sources_finite(g: Graph)
    ensures
        wire_sources(g).finite(),
{
    vstd::seq_lib::seq_to_set_is_finite(g.wires@.map_values(|w: Wire| w.from.node@));
}

proof fn lemma_source_in(g: Graph, i: int)
    requires
        0 <= i < g.wires@.len(),
    ensures
        wire_sources(g).contains(g.wires@[i].from.node@),
{
    let s = g.wires@.map_values(|w: Wire| w.from.node@);
    assert(s[i] == g.wires@[i].from.node@);
}

proof fn lemma_difference_shrinks(c: Set<Seq<char>>, a: Set<Seq<char>>, b: Set<Seq<char>>)
    requires
        c.finite(),
        a.subset_of(b),
    ensures
        c.difference(b).len() <= c.difference(a).len(),
{
    assert(c.difference(b).subset_of(c.difference(a)));
    vstd::set_lib::lemma_len_subset(c.difference(b), c.difference(a));
}

proof fn lemma_difference_insert(c: Set<Seq<char>>, a: Set<Seq<char>>, x: Seq<char>)
    requires
        c.finite(),
        !a.contains(x),
    ensures
        c.contains(x) ==> c.difference(a.insert(x)).len() + 1 == c.difference(a).len(),
        !c.contains(x) ==> c.difference(a.insert(x)).len() == c.difference(a).len(),
{
    if c.contains(x) {
        assert(c.difference(a.insert(x)) =~= c.difference(a).remove(x));
    } else {
        assert(c.difference(a.insert(x)) =~= c.difference(a));
    }
}

#[via_fn]
proof fn resolve_decreases(g: Graph, cat: Catalogue, holder: Seq<char>, seen: Set<Seq<char>>) {
    lemma_sources_finite(g);
    if !seen.contains(holder) {
        lemma_difference_insert(wire_sources(g), seen, holder);
    }
}

#[via_fn]
proof fn resolve_from_decreases(
    g: Graph,
    cat: Catalogue,
    holder: Seq<char>,
    seen: Set<Seq<char>>,
    i: int,
    out: Seq<Seq<char>>,
) {
    lemma_sources_finite(g);
    if 0 <= i < g.wires@.len() {
        let w = g.wires@[i];
        lemma_source_in(g, i);
        assert forall|t: Set<Seq<char>>| #[trigger] wire_sources(g).difference(seen.union(t)).len()
            <= wire_sources(g).difference(seen).len() by {
            lemma_difference_shrinks(wire_sources(g), seen, seen.union(t));
        }
    }
}

} // verus!

verus! {

proof fn lemma_resolve_grows(g: Graph, cat: Catalogue, holder: Seq<char>, seen: Set<Seq<char>>)
    ensures
        seen.subset_of(resolve(g, cat, holder, seen).1),
    decreases reach_left(g, holder, seen), 0nat, 0nat,
{
    lemma_sources_finite(g);
    if !seen.contains(holder) {
        lemma_difference_insert(wire_sources(g), seen, holder);
        lemma_resolve_from_grows(g, cat, holder, seen.insert(holder), 0, seq![]);
    }
}

proof fn lemma_resolve_from_grows(
    g: Graph,
    cat: Catalogue,
    holder: Seq<char>,
    seen: Set<Seq<char>>,
    i: int,
    out: Seq<Seq<char>>,
)
    ensures
        seen.subset_of(resolve_from(g, cat, holder, seen, i, out).1),
    decreases wire_sources(g).difference(seen).len(), 1nat, g.wires@.len() - i,
{
    lemma_sources_finite(g);
    if 0 <= i < g.wires@.len() {
        let w = g.wires@[i];
        lemma_source_in(g, i);
        if w.to.node@ != holder || !handle_wire(g, cat, w) {
            lemma_resolve_from_grows(g, cat, holder, seen, i + 1, out);
        } else if is_bundle(g, w.from.node@) {
            let got = resolve(g, cat, w.from.node@, seen);
            lemma_difference_shrinks(wire_sources(g), seen, seen.union(got.1));
            lemma_resolve_from_grows(g, cat, holder, seen.union(got.1), i + 1, out + got.0);
        } else if out.contains(w.from.node@) {
            lemma_resolve_from_grows(g, cat, holder, seen, i + 1, out);
        } else {
            lemma_resolve_from_grows(g, cat, holder, seen, i + 1, out.push(w.from.node@));
        }
    }
}

proof fn lemma_push_set(v: Seq<String>, x: String)
    ensures
        views(v.push(x)).to_set() == views(v).to_set().insert(x@),
{
    assert(views(v.push(x)) =~= views(v).push(x@));
    assert(views(v).push(x@).to_set() =~= views(v).to_set().insert(x@)) by {
        assert forall|y: Seq<char>| views(v).push(x@).to_set().contains(y) implies views(v).to_set().insert(x@).contains(y) by {
            let k = choose|k: int| 0 <= k < views(v).push(x@).len() && views(v).push(x@)[k] == y;
            if k < views(v).len() {
                assert(views(v)[k] == y);
            }
        }
        assert forall|y: Seq<char>| views(v).to_set().insert(x@).contains(y) implies views(v).push(x@).to_set().contains(y) by {
            if y == x@ {
                assert(views(v).push(x@)[views(v).len() as int] == y);
            } else {
                let k = choose|k: int| 0 <= k < views(v).len() && views(v)[k] == y;
                assert(views(v).push(x@)[k] == y);
            }
        }
    }
}

/// Whether the block an id names is a bundle.
fn bundle(g: &Graph, id: &String) -> (r: bool)
    ensures
        r == is_bundle(*g, id@),
{
    match block_index(&g.blocks, id) {
        Some(b) => same(g.blocks[b].kind.as_str(), "toolbox") || same(g.blocks[b].kind.as_str(), "memoryHub"),
        None => false,
    }
}

/// The blocks whose handles `holder` ends up holding.
fn resolve_handles(g: &Graph, cat: &Catalogue, holder: &String, seen: &mut Vec<String>) -> (out: Vec<String>)
    ensures
        (views(out@), views(final(seen)@).to_set()) == resolve(*g, *cat, holder@, views(old(seen)@).to_set()),
    decreases reach_left(*g, holder@, views(old(seen)@).to_set()),
{
    let ghost s0 = views(seen@).to_set();
    if contains(seen, holder) {
        proof { assert(s0.contains(holder@)); }
        return Vec::new();
    }
    proof { lemma_push_set(seen@, *holder); }
    seen.push(holder.clone());
    let mut out: Vec<String> = Vec::new();
    let mut i: usize = 0;
    proof {
        lemma_sources_finite(*g);
        lemma_difference_insert(wire_sources(*g), s0, holder@);
        assert(views(out@) =~= Seq::<Seq<char>>::empty());
    }
    while i < g.wires.len()
        invariant
            i <= g.wires@.len(),
            wire_sources(*g).finite(),
            !s0.contains(holder@),
            s0 == views(old(seen)@).to_set(),
            s0.insert(holder@).subset_of(views(seen@).to_set()),
            wire_sources(*g).difference(s0.insert(holder@)).len() < reach_left(*g, holder@, s0),
            resolve_from(*g, *cat, holder@, views(seen@).to_set(), i as int, views(out@))
                == resolve(*g, *cat, holder@, s0),
        decreases g.wires.len() - i,
    {
        let ghost cur = views(seen@).to_set();
        let ghost o = views(out@);
        let w = &g.wires[i];
        let handle = match port_type(g, cat, &w.from, Side::Out) {
            Some(t) => t.is_handle(),
            None => false,
        };
        if w.to.node == *holder && handle {
            if bundle(g, &w.from.node) {
                proof {
                    lemma_source_in(*g, i as int);
                    lemma_difference_shrinks(wire_sources(*g), s0.insert(holder@), cur);
                    lemma_resolve_grows(*g, *cat, w.from.node@, cur);
                    assert(reach_left(*g, w.from.node@, cur) == wire_sources(*g).difference(cur).len());
                    assert(reach_left(*g, w.from.node@, cur) < reach_left(*g, holder@, s0));
                }
                let got = resolve_handles(g, cat, &w.from.node, seen);
                proof {
                    assert(cur.union(views(seen@).to_set()) =~= views(seen@).to_set());
                }
                let ghost before = views(out@);
                let mut k: usize = 0;
                while k < got.len()
                    invariant
                        k <= got@.len(),
                        views(out@) == before + views(got@).take(k as int),
                    decreases got.len() - k,
                {
                    out.push(got[k].clone());
                    proof {
                        assert(views(got@).take(k + 1) =~= views(got@).take(k as int).push(got@[k as int]@));
                        assert(views(out@) =~= (before + views(got@).take(k as int)).push(got@[k as int]@));
                    }
                    k = k + 1;
                }
                proof {
                    assert(views(got@).take(got@.len() as int) =~= views(got@));
                    let r = resolve(*g, *cat, w.from.node@, cur);
                    assert(resolve_from(*g, *cat, holder@, cur, i as int, o)
                        == resolve_from(*g, *cat, holder@, cur.union(r.1), i + 1, o + r.0));
                }
            } else if !contains(&out, &w.from.node) {
                out.push(w.from.node.clone());
                proof {
                    assert(views(out@) =~= o.push(w.from.node@));
                    assert(resolve_from(*g, *cat, holder@, cur, i as int, o)
                        == resolve_from(*g, *cat, holder@, cur, i + 1, o.push(w.from.node@)));
                }
            } else {
                proof {
                    assert(resolve_from(*g, *cat, holder@, cur, i as int, o)
                        == resolve_from(*g, *cat, holder@, cur, i + 1, o));
                }
            }
        } else {
            proof {
                assert(resolve_from(*g, *cat, holder@, cur, i as int, o)
                    == resolve_from(*g, *cat, holder@, cur, i + 1, o));
            }
        }
        i = i + 1;
    }
    out
}

} // verus!

verus! {

/// What a holder holds, resolved from nothing visited.
pub open spec fn bound(g: Graph, cat: Catalogue, id: Seq<char>) -> Seq<Seq<char>> {
    resolve(g, cat, id, Set::empty()).0
}

/// A block holds handles: it is not a capability itself and resolving its
/// handle wires finds something.
pub open spec fn holder_ids(g: Graph, cat: Catalogue) -> Set<Seq<char>> {
    Set::new(|id: Seq<char>| exists|b: int| 0 <= b < g.blocks@.len() && #[trigger] g.blocks@[b].id@ == id
        && bound(g, cat, id).len() > 0 && !capability(g, cat, id))
}

pub open spec fn binding_keys(v: Seq<(String, Vec<String>)>) -> Seq<Seq<char>> {
    v.map_values(|p: (String, Vec<String>)| p.0@)
}

/// Sorted by holder, each holder once, each with what it holds.
pub open spec fn bindings_hold(g: Graph, cat: Catalogue, v: Seq<(String, Vec<String>)>, ids: Set<Seq<char>>) -> bool {
    &&& sorted_unique(binding_keys(v))
    &&& binding_keys(v).to_set() == ids
    &&& forall|k: int| 0 <= k < v.len() ==> views((#[trigger] v[k]).1@) == bound(g, cat, v[k].0@)
}

fn insert_binding(v: &mut Vec<(String, Vec<String>)>, key: String, val: Vec<String>, Ghost(g): Ghost<Graph>, Ghost(cat): Ghost<Catalogue>, Ghost(ids): Ghost<Set<Seq<char>>>)
    requires
        bindings_hold(g, cat, old(v)@, ids),
        views(val@) == bound(g, cat, key@),
    ensures
        bindings_hold(g, cat, final(v)@, ids.insert(key@)),
{
    let ghost before = binding_keys(v@);
    let mut p: usize = 0;
    while p < v.len() && less(v[p].0.as_str(), key.as_str())
        invariant
            p <= v@.len(),
            binding_keys(v@) == before,
            bindings_hold(g, cat, v@, ids),
            forall|j: int| 0 <= j < p ==> seq_less(#[trigger] before[j], key@),
        decreases v.len() - p,
    {
        p = p + 1;
    }
    if p < v.len() && v[p].0 == key {
        proof {
            assert(before[p as int] == key@);
            assert(ids.insert(key@) =~= ids);
        }
        return;
    }
    proof {
        if p < v@.len() {
            lemma_less_trichotomy(before[p as int], key@);
            assert(seq_less(key@, before[p as int]));
        }
    }
    let ghost kv = key@;
    v.insert(p, (key, val));
    proof {
        let after = binding_keys(v@);
        assert(after =~= before.insert(p as int, kv));
        assert forall|i: int, j: int| 0 <= i < j < after.len() implies seq_less(#[trigger] after[i], #[trigger] after[j]) by {
            if j < p {
                assert(after[i] == before[i] && after[j] == before[j]);
            } else if j == p {
                assert(after[i] == before[i]);
            } else if i < p {
                assert(after[i] == before[i] && after[j] == before[j - 1]);
                if j - 1 > p {
                    lemma_less_transitive(kv, before[p as int], before[j - 1]);
                }
                lemma_less_transitive(before[i], kv, before[j - 1]);
            } else if i == p {
                assert(after[j] == before[j - 1]);
                if j - 1 > p {
                    lemma_less_transitive(kv, before[p as int], before[j - 1]);
                }
            } else {
                assert(after[i] == before[i - 1] && after[j] == before[j - 1]);
            }
        }
        assert(after.to_set() =~= ids.insert(kv)) by {
            assert forall|x: Seq<char>| after.to_set().contains(x) implies ids.insert(kv).contains(x) by {
                let k = choose|k: int| 0 <= k < after.len() && after[k] == x;
                if k < p { assert(before[k] == x); assert(before.to_set().contains(x)); }
                else if k > p { assert(before[k - 1] == x); assert(before.to_set().contains(x)); }
            }
            assert forall|x: Seq<char>| ids.insert(kv).contains(x) implies after.to_set().contains(x) by {
                if x == kv {
                    assert(after[p as int] == x);
                } else {
                    assert(before.to_set().contains(x));
                    let k = choose|k: int| 0 <= k < before.len() && before[k] == x;
                    if k < p { assert(after[k] == x); } else { assert(after[k + 1] == x); }
                }
            }
        }
    }
}

/// The holders and what each holds.
fn bindings_of(g: &Graph, cat: &Catalogue) -> (v: Vec<(String, Vec<String>)>)
    ensures
        bindings_hold(*g, *cat, v@, holder_ids(*g, *cat)),
{
    let mut v: Vec<(String, Vec<String>)> = Vec::new();
    let mut i: usize = 0;
    proof {
        assert(binding_keys(v@).to_set() =~= Set::<Seq<char>>::empty());
        assert(Set::new(|id: Seq<char>| exists|b: int| 0 <= b < 0 && #[trigger] g.blocks@[b].id@ == id
                && bound(*g, *cat, id).len() > 0 && !capability(*g, *cat, id)) =~= Set::<Seq<char>>::empty());
    }
    while i < g.blocks.len()
        invariant
            i <= g.blocks@.len(),
            bindings_hold(*g, *cat, v@, Set::new(|id: Seq<char>| exists|b: int| 0 <= b < i && #[trigger] g.blocks@[b].id@ == id
                && bound(*g, *cat, id).len() > 0 && !capability(*g, *cat, id))),
        decreases g.blocks.len() - i,
    {
        let ghost ids = Set::new(|id: Seq<char>| exists|b: int| 0 <= b < i && #[trigger] g.blocks@[b].id@ == id
                && bound(*g, *cat, id).len() > 0 && !capability(*g, *cat, id));
        let ghost next = Set::new(|id: Seq<char>| exists|b: int| 0 <= b < i + 1 && #[trigger] g.blocks@[b].id@ == id
                && bound(*g, *cat, id).len() > 0 && !capability(*g, *cat, id));
        let mut seen: Vec<String> = Vec::new();
        proof { assert(views(seen@).to_set() =~= Set::<Seq<char>>::empty()); }
        let held = resolve_handles(g, cat, &g.blocks[i].id, &mut seen);
        if held.len() > 0 && !is_capability_id(g, cat, &g.blocks[i].id) {
            insert_binding(&mut v, g.blocks[i].id.clone(), held, Ghost(*g), Ghost(*cat), Ghost(ids));
            proof { assert(ids.insert(g.blocks@[i as int].id@) =~= next); }
        } else {
            proof { assert(ids =~= next); }
        }
        i = i + 1;
    }
    proof {
        assert(Set::new(|id: Seq<char>| exists|b: int| 0 <= b < g.blocks@.len() && #[trigger] g.blocks@[b].id@ == id
                && bound(*g, *cat, id).len() > 0 && !capability(*g, *cat, id)) =~= holder_ids(*g, *cat));
    }
    v
}

} // verus!

verus! {

// -------------------------------------------------------------------- wires

pub open spec fn ev(e: Endpoint) -> (Seq<char>, Seq<char>) {
    (e.node@, e.port@)
}

/// Which wires leave one producing port, and where each goes.
pub type WireMap = Vec<(Endpoint, Vec<(String, Endpoint)>)>;

pub open spec fn group_upto(g: Graph, e: (Seq<char>, Seq<char>), n: int) -> Seq<(Seq<char>, (Seq<char>, Seq<char>))>
    decreases n,
{
    if n <= 0 {
        seq![]
    } else {
        let prev = group_upto(g, e, n - 1);
        let w = g.wires@[n - 1];
        if ev(w.from) == e { prev.push((w.id@, ev(w.to))) } else { prev }
    }
}

pub open spec fn group_view(v: Seq<(String, Endpoint)>) -> Seq<(Seq<char>, (Seq<char>, Seq<char>))> {
    v.map_values(|p: (String, Endpoint)| (p.0@, ev(p.1)))
}

/// One entry per producing port some wire leaves from, each listing the
/// wires that leave it in file order.
pub open spec fn wire_map_of(g: Graph, m: Seq<(Endpoint, Vec<(String, Endpoint)>)>) -> bool {
    &&& forall|i: int, j: int| 0 <= i < j < m.len() ==> ev((#[trigger] m[i]).0) != ev((#[trigger] m[j]).0)
    &&& forall|i: int| 0 <= i < m.len() ==> group_view((#[trigger] m[i]).1@) == group_upto(g, ev(m[i].0), g.wires@.len() as int)
    &&& forall|w: int| 0 <= w < g.wires@.len() ==> has_key(m, ev((#[trigger] g.wires@[w]).from))
    &&& forall|i: int| 0 <= i < m.len() ==> group_upto(g, ev((#[trigger] m[i]).0), g.wires@.len() as int).len() > 0
}

/// Some entry is for this producing port.
pub open spec fn has_key(m: Seq<(Endpoint, Vec<(String, Endpoint)>)>, e: (Seq<char>, Seq<char>)) -> bool {
    exists|i: int| 0 <= i < m.len() && ev(m[i].0) == e
}

proof fn lemma_group_nonempty(g: Graph, w: int, n: int)
    requires
        0 <= w < n <= g.wires@.len(),
    ensures
        group_upto(g, ev(g.wires@[w].from), n).len() > 0,
    decreases n,
{
    if w < n - 1 {
        lemma_group_nonempty(g, w, n - 1);
    }
}

fn group_for(g: &Graph, e: &Endpoint) -> (v: Vec<(String, Endpoint)>)
    ensures
        group_view(v@) == group_upto(*g, ev(*e), g.wires@.len() as int),
{
    let mut v: Vec<(String, Endpoint)> = Vec::new();
    let mut i: usize = 0;
    while i < g.wires.len()
        invariant
            i <= g.wires@.len(),
            group_view(v@) == group_upto(*g, ev(*e), i as int),
        decreases g.wires.len() - i,
    {
        if g.wires[i].from.same(e) {
            v.push((g.wires[i].id.clone(), g.wires[i].to.copy()));
            proof {
                assert(group_view(v@) =~= group_upto(*g, ev(*e), i as int).push((g.wires@[i as int].id@, ev(g.wires@[i as int].to))));
            }
        }
        i = i + 1;
    }
    v
}

fn key_index(m: &WireMap, e: &Endpoint) -> (r: Option<usize>)
    ensures
        r matches Some(i) ==> i < m@.len() && ev(m@[i as int].0) == ev(*e),
        r is None ==> forall|i: int| 0 <= i < m@.len() ==> ev((#[trigger] m@[i]).0) != ev(*e),
{
    let mut i: usize = 0;
    while i < m.len()
        invariant
            i <= m@.len(),
            forall|j: int| 0 <= j < i ==> ev((#[trigger] m@[j]).0) != ev(*e),
        decreases m.len() - i,
    {
        if m[i].0.same(e) {
            return Some(i);
        }
        i = i + 1;
    }
    None
}

fn wire_map(g: &Graph) -> (m: WireMap)
    ensures
        wire_map_of(*g, m@),
{
    let mut m: WireMap = Vec::new();
    let mut i: usize = 0;
    while i < g.wires.len()
        invariant
            i <= g.wires@.len(),
            forall|a: int, b: int| 0 <= a < b < m@.len() ==> ev((#[trigger] m@[a]).0) != ev((#[trigger] m@[b]).0),
            forall|a: int| 0 <= a < m@.len() ==> group_view((#[trigger] m@[a]).1@) == group_upto(*g, ev(m@[a].0), g.wires@.len() as int),
            forall|a: int| 0 <= a < m@.len() ==> group_upto(*g, ev((#[trigger] m@[a]).0), g.wires@.len() as int).len() > 0,
            forall|w: int| 0 <= w < i ==> has_key(m@, ev((#[trigger] g.wires@[w]).from)),
        decreases g.wires.len() - i,
    {
        let ghost old_m = m@;
        match key_index(&m, &g.wires[i].from) {
            Some(a) => {
                proof { assert(has_key(m@, ev(g.wires@[i as int].from))); }
            },
            None => {
                let key = g.wires[i].from.copy();
                let group = group_for(g, &key);
                m.push((key, group));
                proof {
                    lemma_group_nonempty(*g, i as int, g.wires@.len() as int);
                    let last = m@.len() - 1;
                    assert(ev(m@[last].0) == ev(g.wires@[i as int].from));
                    assert(has_key(m@, ev(g.wires@[i as int].from)));
                    assert forall|w: int| 0 <= w < i implies has_key(m@, ev((#[trigger] g.wires@[w]).from)) by {
                        assert(has_key(old_m, ev(g.wires@[w].from)));
                        let a = choose|a: int| 0 <= a < old_m.len() && ev(old_m[a].0) == ev(g.wires@[w].from);
                        assert(m@[a] == old_m[a]);
                    }
                }
            },
        }
        i = i + 1;
    }
    m
}

} // verus!

verus! {

// ---------------------------------------------------------------- downstream

/// A wire leaves the starting port for block `n`.
pub open spec fn start_edge(m: Seq<(Endpoint, Vec<(String, Endpoint)>)>, start: (Seq<char>, Seq<char>), n: Seq<char>) -> bool {
    exists|i: int, j: int|
        0 <= i < m.len() && 0 <= j < m[i].1@.len() && ev(m[i].0) == start && (#[trigger] m[i].1@[j]).1.node@ == n
}

/// A wire leaves some port of block `a` for block `b`.
pub open spec fn step_edge(m: Seq<(Endpoint, Vec<(String, Endpoint)>)>, a: Seq<char>, b: Seq<char>) -> bool {
    exists|i: int, j: int|
        0 <= i < m.len() && 0 <= j < m[i].1@.len() && m[i].0.node@ == a && (#[trigger] m[i].1@[j]).1.node@ == b
}

/// Blocks the wires lead through, one after another, from the starting port.
pub open spec fn is_path(m: Seq<(Endpoint, Vec<(String, Endpoint)>)>, start: (Seq<char>, Seq<char>), p: Seq<Seq<char>>) -> bool {
    &&& p.len() > 0
    &&& start_edge(m, start, p[0])
    &&& forall|k: int| 0 <= k < p.len() - 1 ==> step_edge(m, #[trigger] p[k], p[k + 1])
}

/// Some chain of wires, any of them `exec`, leads from the port to the block.
pub open spec fn reachable(m: Seq<(Endpoint, Vec<(String, Endpoint)>)>, start: (Seq<char>, Seq<char>), n: Seq<char>) -> bool {
    exists|p: Seq<Seq<char>>| #[trigger] is_path(m, start, p) && p.last() == n
}

/// The steps, in run order, that an event on this port sets going.
pub open spec fn below_upto(order: Seq<Seq<char>>, m: Seq<(Endpoint, Vec<(String, Endpoint)>)>, start: (Seq<char>, Seq<char>), n: int) -> Seq<Seq<char>>
    decreases n,
{
    if n <= 0 {
        seq![]
    } else {
        let prev = below_upto(order, m, start, n - 1);
        if reachable(m, start, order[n - 1]) { prev.push(order[n - 1]) } else { prev }
    }
}

/// Every block some wire leads to.
pub open spec fn targets(m: Seq<(Endpoint, Vec<(String, Endpoint)>)>) -> Set<Seq<char>> {
    Set::new(|n: Seq<char>| exists|i: int, j: int| 0 <= i < m.len() && 0 <= j < m[i].1@.len() && (#[trigger] m[i].1@[j]).1.node@ == n)
}

proof fn lemma_targets_finite(m: Seq<(Endpoint, Vec<(String, Endpoint)>)>)
    ensures
        targets(m).finite(),
    decreases m.len(),
{
    if m.len() == 0 {
        assert(targets(m) =~= Set::<Seq<char>>::empty());
    } else {
        let rest = m.drop_last();
        lemma_targets_finite(rest);
        let last = m.last().1@.map_values(|p: (String, Endpoint)| p.1.node@);
        vstd::seq_lib::seq_to_set_is_finite(last);
        assert(targets(m) =~= targets(rest).union(last.to_set())) by {
            assert forall|n: Seq<char>| targets(m).contains(n) implies targets(rest).union(last.to_set()).contains(n) by {
                let (i, j) = choose|i: int, j: int| 0 <= i < m.len() && 0 <= j < m[i].1@.len() && (#[trigger] m[i].1@[j]).1.node@ == n;
                if i < m.len() - 1 {
                    assert(rest[i].1@[j] == m[i].1@[j]);
                } else {
                    assert(last[j] == n);
                }
            }
            assert forall|n: Seq<char>| targets(rest).union(last.to_set()).contains(n) implies targets(m).contains(n) by {
                if targets(rest).contains(n) {
                    let (i, j) = choose|i: int, j: int| 0 <= i < rest.len() && 0 <= j < rest[i].1@.len() && (#[trigger] rest[i].1@[j]).1.node@ == n;
                    assert(m[i].1@[j] == rest[i].1@[j]);
                } else {
                    let j = choose|j: int| 0 <= j < last.len() && last[j] == n;
                    assert(m[m.len() - 1].1@[j].1.node@ == n);
                }
            }
        }
    }
}

} // verus!

verus! {

/// Nothing left to follow: every port a reached block (or the start) sends
/// from has had all its wires followed.
pub open spec fn closed(m: Seq<(Endpoint, Vec<(String, Endpoint)>)>, start: (Seq<char>, Seq<char>), reached: Seq<Seq<char>>) -> bool {
    forall|i: int, j: int|
        0 <= i < m.len() && 0 <= j < m[i].1@.len() && (ev(m[i].0) == start || reached.contains(m[i].0.node@))
            ==> reached.contains((#[trigger] m[i].1@[j]).1.node@)
}

proof fn lemma_closed_complete(m: Seq<(Endpoint, Vec<(String, Endpoint)>)>, start: (Seq<char>, Seq<char>), reached: Seq<Seq<char>>, p: Seq<Seq<char>>, k: int)
    requires
        closed(m, start, reached),
        is_path(m, start, p),
        0 <= k < p.len(),
    ensures
        reached.contains(p[k]),
    decreases k,
{
    if k == 0 {
        let (i, j) = choose|i: int, j: int| 0 <= i < m.len() && 0 <= j < m[i].1@.len() && ev(m[i].0) == start && (#[trigger] m[i].1@[j]).1.node@ == p[0];
        assert(reached.contains(m[i].1@[j].1.node@));
    } else {
        lemma_closed_complete(m, start, reached, p, k - 1);
        assert(step_edge(m, p[k - 1], p[k]));
        let (i, j) = choose|i: int, j: int| 0 <= i < m.len() && 0 <= j < m[i].1@.len() && m[i].0.node@ == p[k - 1] && (#[trigger] m[i].1@[j]).1.node@ == p[k];
        assert(reached.contains(m[i].1@[j].1.node@));
    }
}

fn keep_reached(order: &Vec<String>, reached: &Vec<String>, Ghost(m): Ghost<Seq<(Endpoint, Vec<(String, Endpoint)>)>>, Ghost(start): Ghost<(Seq<char>, Seq<char>)>) -> (v: Vec<String>)
    requires
        forall|n: Seq<char>| views(reached@).contains(n) <==> reachable(m, start, n),
    ensures
        views(v@) == below_upto(views(order@), m, start, order@.len() as int),
{
    let mut v: Vec<String> = Vec::new();
    let mut i: usize = 0;
    while i < order.len()
        invariant
            i <= order@.len(),
            forall|n: Seq<char>| views(reached@).contains(n) <==> reachable(m, start, n),
            views(v@) == below_upto(views(order@), m, start, i as int),
        decreases order.len() - i,
    {
        if contains(reached, &order[i]) {
            v.push(order[i].clone());
            proof { assert(views(v@) =~= below_upto(views(order@), m, start, i as int).push(order@[i as int]@)); }
        }
        i = i + 1;
    }
    v
}

proof fn lemma_push_contains(v: Seq<String>, x: String, y: Seq<char>)
    ensures
        views(v.push(x)).contains(y) == (views(v).contains(y) || y == x@),
{
    assert(views(v.push(x)) =~= views(v).push(x@));
    if views(v).contains(y) {
        let k = choose|k: int| 0 <= k < views(v).len() && views(v)[k] == y;
        assert(views(v.push(x))[k] == y);
    }
    if y == x@ {
        assert(views(v.push(x))[views(v).len() as int] == y);
    }
    if views(v.push(x)).contains(y) && y != x@ {
        let k = choose|k: int| 0 <= k < views(v.push(x)).len() && views(v.push(x))[k] == y;
        assert(views(v)[k] == y);
    }
}

/// Whether this entry's port is the start or belongs to a reached block.
fn active(e: &Endpoint, node: &str, port: &str, reached: &Vec<String>) -> (r: bool)
    ensures
        r == (ev(*e) == (node@, port@) || views(reached@).contains(e.node@)),
{
    (same(e.node.as_str(), node) && same(e.port.as_str(), port)) || contains(reached, &e.node)
}

/// What an event on `node.port` sets going: the steps downstream of it, in
/// the order they run. Reachability follows every wire, `exec` included.
#[verifier::rlimit(60)]
fn downstream(order: &Vec<String>, m: &WireMap, node: &str, port: &str) -> (v: Vec<String>)
    ensures
        views(v@) == below_upto(views(order@), m@, (node@, port@), order@.len() as int),
{
    let ghost start = (node@, port@);
    let mut reached: Vec<String> = Vec::new();
    proof { lemma_targets_finite(m@); }
    loop
        invariant
            start == (node@, port@),
            targets(m@).finite(),
            forall|n: Seq<char>| views(reached@).contains(n) ==> reachable(m@, start, n),
            forall|n: Seq<char>| views(reached@).contains(n) ==> targets(m@).contains(n),
        ensures
            forall|n: Seq<char>| views(reached@).contains(n) ==> reachable(m@, start, n),
            closed(m@, start, views(reached@)),
        decreases targets(m@).difference(views(reached@).to_set()).len(),
    {
        let ghost r0 = views(reached@);
        let mut changed = false;
        let mut i: usize = 0;
        while i < m.len()
            invariant
                i <= m@.len(),
                start == (node@, port@),
                targets(m@).finite(),
                forall|y: Seq<char>| r0.contains(y) ==> views(reached@).contains(y),
                forall|n: Seq<char>| views(reached@).contains(n) ==> reachable(m@, start, n),
                forall|n: Seq<char>| views(reached@).contains(n) ==> targets(m@).contains(n),
                !changed ==> views(reached@) == r0,
                changed ==> targets(m@).difference(views(reached@).to_set()).len() < targets(m@).difference(r0.to_set()).len(),
                !changed ==> forall|a: int, j: int|
                    0 <= a < i && 0 <= j < m@[a].1@.len() && (ev(m@[a].0) == start || r0.contains(m@[a].0.node@))
                        ==> r0.contains((#[trigger] m@[a].1@[j]).1.node@),
            decreases m.len() - i,
        {
            if active(&m[i].0, node, port, &reached) {
                let ghost was_reached = views(reached@);
                let group = &m[i].1;
                let mut t: usize = 0;
                while t < group.len()
                    invariant
                        i < m@.len(),
                        start == (node@, port@),
                        forall|y: Seq<char>| r0.contains(y) ==> views(reached@).contains(y),
                        group == &m@[i as int].1,
                        t <= group@.len(),
                        targets(m@).finite(),
                        ev(m@[i as int].0) == start || was_reached.contains(m@[i as int].0.node@),
                        forall|n: Seq<char>| was_reached.contains(n) ==> views(reached@).contains(n),
                        forall|n: Seq<char>| views(reached@).contains(n) ==> reachable(m@, start, n),
                        forall|n: Seq<char>| views(reached@).contains(n) ==> targets(m@).contains(n),
                        forall|u: int| 0 <= u < t ==> views(reached@).contains((#[trigger] group@[u]).1.node@),
                        !changed ==> views(reached@) == r0,
                        changed ==> targets(m@).difference(views(reached@).to_set()).len() < targets(m@).difference(r0.to_set()).len(),
                        !changed ==> was_reached == r0,
                    decreases group.len() - t,
                {
                    if !contains(&reached, &group[t].1.node) {
                        let ghost rb = views(reached@);
                        let ghost n = group@[t as int].1.node@;
                        proof {
                            assert(m@[i as int].1@[t as int] == group@[t as int]);
                            if ev(m@[i as int].0) == start {
                                let p = seq![n];
                                assert(start_edge(m@, start, p[0]));
                                assert(is_path(m@, start, p));
                                assert(p.last() == n);
                            } else {
                                assert(reachable(m@, start, m@[i as int].0.node@));
                                let q = choose|q: Seq<Seq<char>>| #[trigger] is_path(m@, start, q) && q.last() == m@[i as int].0.node@;
                                let p = q.push(n);
                                assert(step_edge(m@, q.last(), n));
                                assert forall|x: int| 0 <= x < p.len() - 1 implies step_edge(m@, #[trigger] p[x], p[x + 1]) by {
                                    if x < q.len() - 1 {
                                        assert(p[x] == q[x] && p[x + 1] == q[x + 1]);
                                    } else {
                                        assert(p[x] == q.last() && p[x + 1] == n);
                                    }
                                }
                                assert(is_path(m@, start, p));
                                assert(p.last() == n);
                            }
                            assert(targets(m@).contains(n));
                            assert(!rb.to_set().contains(n));
                            lemma_difference_insert(targets(m@), rb.to_set(), n);
                            lemma_push_set(reached@, group@[t as int].1.node);
                            lemma_difference_shrinks(targets(m@), r0.to_set(), rb.to_set());
                            assert forall|y: Seq<char>| r0.contains(y) implies rb.to_set().contains(y) by {
                                assert(rb.contains(y));
                            }
                        }
                        let ghost rs = reached@;
                        reached.push(group[t].1.node.clone());
                        proof {
                            assert forall|y: Seq<char>| views(reached@).contains(y) implies reachable(m@, start, y) && targets(m@).contains(y) by {
                                lemma_push_contains(rs, group@[t as int].1.node, y);
                            }
                            assert forall|y: Seq<char>| was_reached.contains(y) implies views(reached@).contains(y) by {
                                lemma_push_contains(rs, group@[t as int].1.node, y);
                            }
                            assert forall|y: Seq<char>| r0.contains(y) implies views(reached@).contains(y) by {
                                lemma_push_contains(rs, group@[t as int].1.node, y);
                            }
                            assert forall|u: int| 0 <= u < t + 1 implies views(reached@).contains((#[trigger] group@[u]).1.node@) by {
                                lemma_push_contains(rs, group@[t as int].1.node, group@[u].1.node@);
                            }
                        }
                        changed = true;
                    }
                    t = t + 1;
                }
            }
            i = i + 1;
        }
        if !changed {
            break;
        }
    }
    proof {
        assert forall|n: Seq<char>| reachable(m@, start, n) implies views(reached@).contains(n) by {
            let p = choose|p: Seq<Seq<char>>| #[trigger] is_path(m@, start, p) && p.last() == n;
            lemma_closed_complete(m@, start, views(reached@), p, p.len() - 1);
        }
    }
    keep_reached(order, &reached, Ghost(m@), Ghost(start))
}

} // verus!

verus! {

// --------------------------------------------------------------------- plan

/// Everything the runner needs to execute a graph, worked out in advance.
pub struct Plan {
    /// The steps, in the order they will run.
    pub order: Vec<String>,
    /// Blocks bound as capabilities, each once, sorted.
    pub capabilities: Vec<String>,
    /// For each holder, sorted by holder, the blocks whose handles it holds.
    /// A bundle's own slots are resolved through it.
    pub bindings: Vec<(String, Vec<String>)>,
    /// Which wires leave each producing port, and where they go.
    pub wires: WireMap,
    /// The blocks that emit on their own initiative, in file order.
    pub sources: Vec<String>,
    /// What the plan could not do. Reported, never fatal.
    pub problems: Vec<String>,
}

/// The plan of this graph.
pub open spec fn planned(g: Graph, cat: Catalogue, p: Plan) -> bool {
    let steps = steps_of(g, cat);
    let order = kahn(steps, edges_of(g, cat), seq![]);
    &&& views(p.order@) == order
    &&& sorted_unique(views(p.capabilities@))
    &&& views(p.capabilities@).to_set() == capability_ids(g, cat)
    &&& bindings_hold(g, cat, p.bindings@, holder_ids(g, cat))
    &&& wire_map_of(g, p.wires@)
    &&& views(p.sources@) == sources_upto(g, cat, g.blocks@.len() as int)
    &&& views(p.problems@) == problems_of(stuck_upto(steps, order, steps.len() as int), g.frames as nat)
}

/// Build the plan for a Once-mode run.
pub fn plan(g: &Graph, cat: &Catalogue) -> (p: Plan)
    ensures
        planned(*g, *cat, p),
{
    let steps = step_ids(g, cat);
    let edges = edge_list(g, cat, &steps);
    let order = order_steps(&steps, &edges);
    let capabilities = capabilities_of(g, cat);
    let bindings = bindings_of(g, cat);
    let wires = wire_map(g);
    let sources = sources_of(g, cat);
    let stuck = stuck_of(&steps, &order);
    let problems = problems(&stuck, g.frames);
    Plan { order, capabilities, bindings, wires, sources, problems }
}

impl Plan {
    /// Whether this block answers calls rather than taking a turn.
    pub fn is_capability(&self, id: &str) -> (r: bool)
        ensures
            r == views(self.capabilities@).contains(id@),
    {
        let mut i: usize = 0;
        while i < self.capabilities.len()
            invariant
                i <= self.capabilities@.len(),
                forall|j: int| 0 <= j < i ==> self.capabilities@[j]@ != id@,
            decreases self.capabilities.len() - i,
        {
            if same(self.capabilities[i].as_str(), id) {
                proof { assert(views(self.capabilities@)[i as int] == id@); }
                return true;
            }
            i = i + 1;
        }
        proof {
            if views(self.capabilities@).contains(id@) {
                let k = choose|k: int| 0 <= k < views(self.capabilities@).len() && views(self.capabilities@)[k] == id@;
                assert(self.capabilities@[k]@ == id@);
            }
        }
        false
    }

    /// The steps an event on this port sets going, in the order they run.
    ///
    /// A live graph runs the part of itself downstream of whatever just
    /// happened. Reachability follows every wire, `exec`
    /// included: control flow is what decides which blocks run.
    pub fn downstream_of(&self, node: &str, port: &str) -> (v: Vec<String>)
        ensures
            views(v@) == below_upto(views(self.order@), self.wires@, (node@, port@), self.order@.len() as int),
    {
        downstream(&self.order, &self.wires, node, port)
    }

    /// Every source in the graph, in file order.
    pub fn sources(&self) -> (s: &Vec<String>)
        ensures
            s == &self.sources,
    {
        &self.sources
    }

    /// What a holder holds, or nothing when it holds nothing.
    pub fn bound_to(&self, holder: &str) -> (r: Option<&Vec<String>>)
        ensures
            r matches Some(v) ==> exists|k: int| 0 <= k < self.bindings@.len() && self.bindings@[k].0@ == holder@ && v == &self.bindings@[k].1,
            r is None ==> !binding_keys(self.bindings@).contains(holder@),
    {
        let mut i: usize = 0;
        while i < self.bindings.len()
            invariant
                i <= self.bindings@.len(),
                forall|j: int| 0 <= j < i ==> self.bindings@[j].0@ != holder@,
            decreases self.bindings.len() - i,
        {
            if same(self.bindings[i].0.as_str(), holder) {
                return Some(&self.bindings[i].1);
            }
            i = i + 1;
        }
        proof {
            if binding_keys(self.bindings@).contains(holder@) {
                let k = choose|k: int| 0 <= k < binding_keys(self.bindings@).len() && binding_keys(self.bindings@)[k] == holder@;
                assert(self.bindings@[k].0@ == holder@);
            }
        }
        None
    }
}

} // verus!

verus! {

proof fn lemma_steps_members(g: Graph, cat: Catalogue, n: int)
    requires
        0 <= n <= g.blocks@.len(),
    ensures
        forall|x: int| 0 <= x < steps_upto(g, cat, n).len() ==> !capability(g, cat, #[trigger] steps_upto(g, cat, n)[x])
            && exists|b: int| 0 <= b < n && g.blocks@[b].id@ == steps_upto(g, cat, n)[x],
        forall|b: int| 0 <= b < n && !capability(g, cat, g.blocks@[b].id@) ==> steps_upto(g, cat, n).contains(#[trigger] g.blocks@[b].id@),
    decreases n,
{
    if n > 0 {
        lemma_steps_members(g, cat, n - 1);
        let prev = steps_upto(g, cat, n - 1);
        let cur = steps_upto(g, cat, n);
        assert forall|x: int| 0 <= x < cur.len() implies !capability(g, cat, #[trigger] cur[x])
            && exists|b: int| 0 <= b < n && g.blocks@[b].id@ == cur[x] by {
            if x < prev.len() {
                assert(cur[x] == prev[x]);
                let b = choose|b: int| 0 <= b < n - 1 && g.blocks@[b].id@ == prev[x];
            } else {
                assert(g.blocks@[n - 1].id@ == cur[x]);
            }
        }
        assert forall|b: int| 0 <= b < n && !capability(g, cat, g.blocks@[b].id@) implies cur.contains(#[trigger] g.blocks@[b].id@) by {
            if b < n - 1 {
                let k = choose|k: int| 0 <= k < prev.len() && prev[k] == g.blocks@[b].id@;
                assert(cur[k] == prev[k]);
            } else {
                assert(cur[cur.len() - 1] == g.blocks@[b].id@);
            }
        }
    }
}

/// The order a plan gives its steps is a topological order of the wires
/// between them: a step runs after every step it takes a value
/// from, only steps are ordered — never a capability — and a step left out
/// of the order waits on another step that was also left out, which is a
/// cycle or something downstream of one. A block with no wires out is never a
/// capability, so it is always a step.
pub proof fn law_order_respects_wires(g: Graph, cat: Catalogue, p: Plan)
    requires
        planned(g, cat, p),
    ensures
        deps_before(edges_of(g, cat), views(p.order@)),
        stuck_is_blocked(steps_of(g, cat), edges_of(g, cat), views(p.order@)),
        forall|x: int| 0 <= x < p.order@.len() ==> !capability(g, cat, #[trigger] p.order@[x]@),
        forall|b: int| 0 <= b < g.blocks@.len() && !wired_out(g, cat, #[trigger] g.blocks@[b].id@)
            ==> steps_of(g, cat).contains(g.blocks@[b].id@),
{
    let steps = steps_of(g, cat);
    let edges = edges_of(g, cat);
    lemma_order_is_topological(steps, edges);
    lemma_steps_members(g, cat, g.blocks@.len() as int);
    assert forall|x: int| 0 <= x < p.order@.len() implies !capability(g, cat, #[trigger] p.order@[x]@) by {
        assert(views(p.order@)[x] == p.order@[x]@);
        let order = kahn(steps, edges, seq![]);
        assert(steps.contains(order[x]));
        let k = choose|k: int| 0 <= k < steps.len() && steps[k] == order[x];
        assert(!capability(g, cat, steps[k]));
    }
}

} // verus!

verus! {

/// Two sorted sequences of distinct texts that hold the same texts are the
/// same sequence.
proof fn lemma_sorted_set_unique(a: Seq<Seq<char>>, b: Seq<Seq<char>>)
    requires
        sorted_unique(a),
        sorted_unique(b),
        a.to_set() == b.to_set(),
    ensures
        a == b,
    decreases a.len(),
{
    if a.len() == 0 {
        if b.len() > 0 {
            assert(b.to_set().contains(b[0]));
            assert(!a.to_set().contains(b[0]));
        }
        assert(a =~= b);
    } else {
        assert(a.to_set().contains(a[0]));
        assert(b.to_set().contains(a[0]));
        let j = choose|j: int| 0 <= j < b.len() && b[j] == a[0];
        assert(a.to_set().contains(b[0]));
        let i = choose|i: int| 0 <= i < a.len() && a[i] == b[0];
        if j > 0 {
            // b[0] comes before b[j] == a[0], and a[0] is at or before a[i] == b[0].
            assert(seq_less(b[0], b[j]));
            if i > 0 {
                assert(seq_less(a[0], a[i]));
                lemma_less_transitive(b[0], a[0], b[0]);
                crate::text::lemma_less_irreflexive(b[0]);
            } else {
                crate::text::lemma_less_irreflexive(b[0]);
            }
        }
        assert(b[0] == a[0]);
        let ra = a.drop_first();
        let rb = b.drop_first();
        assert(sorted_unique(ra)) by {
            assert forall|x: int, y: int| 0 <= x < y < ra.len() implies seq_less(#[trigger] ra[x], #[trigger] ra[y]) by {
                assert(ra[x] == a[x + 1] && ra[y] == a[y + 1]);
            }
        }
        assert(sorted_unique(rb)) by {
            assert forall|x: int, y: int| 0 <= x < y < rb.len() implies seq_less(#[trigger] rb[x], #[trigger] rb[y]) by {
                assert(rb[x] == b[x + 1] && rb[y] == b[y + 1]);
            }
        }
        assert(ra.to_set() =~= rb.to_set()) by {
            assert forall|t: Seq<char>| ra.to_set().contains(t) implies rb.to_set().contains(t) by {
                let x = choose|x: int| 0 <= x < ra.len() && ra[x] == t;
                assert(a[x + 1] == t);
                assert(seq_less(a[0], a[x + 1]));
                crate::text::lemma_less_irreflexive(t);
                assert(b.to_set().contains(t));
                let y = choose|y: int| 0 <= y < b.len() && b[y] == t;
                assert(y != 0);
                assert(rb[y - 1] == t);
            }
            assert forall|t: Seq<char>| rb.to_set().contains(t) implies ra.to_set().contains(t) by {
                let y = choose|y: int| 0 <= y < rb.len() && rb[y] == t;
                assert(b[y + 1] == t);
                assert(seq_less(b[0], b[y + 1]));
                crate::text::lemma_less_irreflexive(t);
                assert(a.to_set().contains(t));
                let x = choose|x: int| 0 <= x < a.len() && a[x] == t;
                assert(x != 0);
                assert(ra[x - 1] == t);
            }
        }
        lemma_sorted_set_unique(ra, rb);
        assert(a =~= seq![a[0]] + ra);
        assert(b =~= seq![b[0]] + rb);
    }
}

/// A plan is a function of the graph: the same graph always plans the same
/// way — the same order, the same capabilities, the same sources, and the
/// same problems.
pub proof fn law_same_graph_same_plan(g: Graph, cat: Catalogue, p: Plan, q: Plan)
    requires
        planned(g, cat, p),
        planned(g, cat, q),
    ensures
        views(p.order@) == views(q.order@),
        views(p.capabilities@) == views(q.capabilities@),
        views(p.sources@) == views(q.sources@),
        views(p.problems@) == views(q.problems@),
{
    lemma_sorted_set_unique(views(p.capabilities@), views(q.capabilities@));
}

} // verus!

verus! {

proof fn lemma_stuck_holds(steps: Seq<Seq<char>>, order: Seq<Seq<char>>, n: int, i: int)
    requires
        0 <= i < n <= steps.len(),
        !order.contains(steps[i]),
    ensures
        stuck_upto(steps, order, n).contains(steps[i]),
    decreases n,
{
    if i < n - 1 {
        lemma_stuck_holds(steps, order, n - 1, i);
        let prev = stuck_upto(steps, order, n - 1);
        let k = choose|k: int| 0 <= k < prev.len() && prev[k] == steps[i];
        if !order.contains(steps[n - 1]) {
            assert(prev.push(steps[n - 1])[k] == steps[i]);
        }
    } else {
        let prev = stuck_upto(steps, order, n - 1);
        assert(prev.push(steps[n - 1])[prev.len() as int] == steps[i]);
    }
}

/// Every step the order cannot place is named: the plan's first problem
/// says which blocks cannot be ordered, and lists each of them.
pub proof fn law_stuck_blocks_are_named(g: Graph, cat: Catalogue, p: Plan, i: int)
    requires
        planned(g, cat, p),
        0 <= i < steps_of(g, cat).len(),
        !views(p.order@).contains(steps_of(g, cat)[i]),
    ensures
        ({
            let steps = steps_of(g, cat);
            let stuck = stuck_upto(steps, views(p.order@), steps.len() as int);
            &&& stuck.contains(steps[i])
            &&& views(p.problems@).len() > 0
            &&& views(p.problems@)[0] == cycle_message(stuck)
        }),
{
    let steps = steps_of(g, cat);
    lemma_stuck_holds(steps, views(p.order@), steps.len() as int, i);
}

} // verus!

verus! {

proof fn lemma_ready_unique(steps: Seq<Seq<char>>, edges: Seq<(Seq<char>, Seq<char>)>, placed: Seq<Seq<char>>, n: int)
    requires
        steps.no_duplicates(),
        0 <= n <= steps.len(),
    ensures
        ready_upto(steps, edges, placed, n).no_duplicates(),
        forall|k: int| 0 <= k < ready_upto(steps, edges, placed, n).len() ==> {
            let x = #[trigger] ready_upto(steps, edges, placed, n)[k];
            !placed.contains(x) && exists|i: int| 0 <= i < n && steps[i] == x
        },
    decreases n,
{
    if n > 0 {
        lemma_ready_unique(steps, edges, placed, n - 1);
        let prev = ready_upto(steps, edges, placed, n - 1);
        let s = steps[n - 1];
        if !placed.contains(s) && deps_met(edges, s, placed) {
            let r = prev.push(s);
            assert forall|k: int| 0 <= k < prev.len() implies prev[k] != s by {
                let x = prev[k];
                let i = choose|i: int| 0 <= i < n - 1 && steps[i] == x;
                assert(steps[i] != steps[n - 1]);
            }
            assert forall|a: int, b: int| 0 <= a < r.len() && 0 <= b < r.len() && a != b implies r[a] != r[b] by {
                if a < prev.len() && b < prev.len() {
                    assert(r[a] == prev[a] && r[b] == prev[b]);
                } else if a < prev.len() {
                    assert(r[a] == prev[a]);
                } else {
                    assert(r[b] == prev[b]);
                }
            }
            assert forall|k: int| 0 <= k < r.len() implies {
                let x = #[trigger] r[k];
                !placed.contains(x) && exists|i: int| 0 <= i < n && steps[i] == x
            } by {
                if k < prev.len() {
                    assert(r[k] == prev[k]);
                    let i = choose|i: int| 0 <= i < n - 1 && steps[i] == prev[k];
                    assert(0 <= i < n && steps[i] == r[k]);
                } else {
                    assert(steps[n - 1] == r[k]);
                }
            }
        } else {
            assert forall|k: int| 0 <= k < prev.len() implies {
                let x = #[trigger] prev[k];
                !placed.contains(x) && exists|i: int| 0 <= i < n && steps[i] == x
            } by {
                let i = choose|i: int| 0 <= i < n - 1 && steps[i] == prev[k];
                assert(0 <= i < n && steps[i] == prev[k]);
            }
        }
    }
}

proof fn lemma_kahn_unique(steps: Seq<Seq<char>>, edges: Seq<(Seq<char>, Seq<char>)>, placed: Seq<Seq<char>>)
    requires
        steps.no_duplicates(),
        placed.no_duplicates(),
    ensures
        kahn(steps, edges, placed).no_duplicates(),
    decreases unplaced(steps, placed, steps.len() as int),
{
    let r = ready(steps, edges, placed);
    if r.len() > 0 {
        lemma_round_progress(steps, edges, placed);
        lemma_ready_unique(steps, edges, placed, steps.len() as int);
        let next = placed + r;
        assert forall|a: int, b: int| 0 <= a < next.len() && 0 <= b < next.len() && a != b implies next[a] != next[b] by {
            if a < placed.len() && b < placed.len() {
            } else if a < placed.len() {
                assert(next[b] == r[b - placed.len()]);
                assert(!placed.contains(r[b - placed.len()]));
                assert(placed[a] == next[a]);
            } else if b < placed.len() {
                assert(next[a] == r[a - placed.len()]);
                assert(!placed.contains(r[a - placed.len()]));
                assert(placed[b] == next[b]);
            } else {
                assert(next[a] == r[a - placed.len()] && next[b] == r[b - placed.len()]);
            }
        }
        lemma_kahn_unique(steps, edges, next);
    }
}

proof fn lemma_steps_unique(g: Graph, cat: Catalogue, n: int)
    requires
        0 <= n <= g.blocks@.len(),
        forall|a: int, b: int| 0 <= a < b < g.blocks@.len() ==> (#[trigger] g.blocks@[a]).id@ != (#[trigger] g.blocks@[b]).id@,
    ensures
        steps_upto(g, cat, n).no_duplicates(),
        forall|k: int| 0 <= k < steps_upto(g, cat, n).len() ==> exists|i: int| 0 <= i < n && g.blocks@[i].id@ == #[trigger] steps_upto(g, cat, n)[k],
    decreases n,
{
    if n > 0 {
        lemma_steps_unique(g, cat, n - 1);
        let prev = steps_upto(g, cat, n - 1);
        let id = g.blocks@[n - 1].id@;
        if !capability(g, cat, id) {
            let s = prev.push(id);
            assert forall|k: int| 0 <= k < prev.len() implies prev[k] != id by {
                let i = choose|i: int| 0 <= i < n - 1 && g.blocks@[i].id@ == prev[k];
                assert(g.blocks@[i].id@ != g.blocks@[n - 1].id@);
            }
            assert forall|a: int, b: int| 0 <= a < s.len() && 0 <= b < s.len() && a != b implies s[a] != s[b] by {
                if a < prev.len() && b < prev.len() {
                    assert(s[a] == prev[a] && s[b] == prev[b]);
                } else if a < prev.len() {
                    assert(s[a] == prev[a]);
                } else {
                    assert(s[b] == prev[b]);
                }
            }
            assert forall|k: int| 0 <= k < s.len() implies exists|i: int| 0 <= i < n && g.blocks@[i].id@ == #[trigger] s[k] by {
                if k < prev.len() {
                    assert(s[k] == prev[k]);
                    let i = choose|i: int| 0 <= i < n - 1 && g.blocks@[i].id@ == prev[k];
                    assert(0 <= i < n && g.blocks@[i].id@ == s[k]);
                } else {
                    assert(g.blocks@[n - 1].id@ == s[k]);
                }
            }
        } else {
            assert forall|k: int| 0 <= k < prev.len() implies exists|i: int| 0 <= i < n && g.blocks@[i].id@ == #[trigger] prev[k] by {
                let i = choose|i: int| 0 <= i < n - 1 && g.blocks@[i].id@ == prev[k];
                assert(0 <= i < n && g.blocks@[i].id@ == prev[k]);
            }
        }
    }
}

/// In a graph whose blocks have distinct ids, the plan takes each step at
/// most once.
pub proof fn law_plan_has_no_duplicates(g: Graph, cat: Catalogue, p: Plan)
    requires
        planned(g, cat, p),
        forall|a: int, b: int| 0 <= a < b < g.blocks@.len() ==> (#[trigger] g.blocks@[a]).id@ != (#[trigger] g.blocks@[b]).id@,
    ensures
        views(p.order@).no_duplicates(),
{
    lemma_steps_unique(g, cat, g.blocks@.len() as int);
    lemma_kahn_unique(steps_of(g, cat), edges_of(g, cat), seq![]);
}

} // verus!
