//! One connection, and the runs happening on it.
//!
//! The connection carries traffic both ways at once: a run has things to say
//! the whole time, and the shell has to stay able to stop it. The threads and
//! channels that do the carrying live with the daemon; what lives here is the
//! book-keeping every one of them consults — which runs are in flight, which
//! warnings each is parked on, and who has been told to stop or hold.
//!
//! Run ids and warning ids come from one counter and are never reused, which
//! is what makes a warning answered twice a no-op rather than an answer to
//! some other question.
use vstd::prelude::*;
use crate::run::runner::Decision;
use crate::text::{append, decimal, decimal_of, lemma_decimal_digits, lemma_decimal_injective, is_digit, owned, same, views};

verus! {

/// A line on its way out. Replies and events share one queue because they
/// share one socket, and the queue is what keeps them whole.
pub enum Outgoing {
    Line(String),
    /// The connection is finished; the writer stops.
    Done,
}

/// The id the `n`-th thing counted gets as a run.
pub open spec fn run_id(n: nat) -> Seq<char> {
    "run-"@ + decimal(n)
}

/// The id a warning of a run gets.
pub open spec fn warning_id(run: Seq<char>, n: nat) -> Seq<char> {
    run + "-w"@ + decimal(n)
}

proof fn lemma_run_id_injective(a: nat, b: nat)
    requires
        run_id(a) == run_id(b),
    ensures
        a == b,
{
    reveal_strlit("run-");
    assert(decimal(a) =~= run_id(a).subrange(4, run_id(a).len() as int));
    assert(decimal(b) =~= run_id(b).subrange(4, run_id(b).len() as int));
    lemma_decimal_injective(a, b);
}

proof fn lemma_warning_id_injective(a: nat, b: nat, c: nat, d: nat)
    requires
        warning_id(run_id(a), b) == warning_id(run_id(c), d),
    ensures
        a == c,
        b == d,
{
    reveal_strlit("run-");
    reveal_strlit("-w");
    let s = warning_id(run_id(a), b);
    let la = decimal(a).len() as int;
    let lc = decimal(c).len() as int;
    lemma_decimal_digits(a);
    lemma_decimal_digits(c);
    if la < lc {
        assert(s[4 + la] == '-');
        assert(warning_id(run_id(c), d)[4 + la] == decimal(c)[la]);
        assert(is_digit(decimal(c)[la]));
    } else if lc < la {
        assert(warning_id(run_id(c), d)[4 + lc] == '-');
        assert(s[4 + lc] == decimal(a)[lc]);
        assert(is_digit(decimal(a)[lc]));
    }
    assert(la == lc);
    assert(decimal(a) =~= s.subrange(4, 4 + la));
    assert(decimal(c) =~= warning_id(run_id(c), d).subrange(4, 4 + lc));
    lemma_decimal_injective(a, c);
    assert(decimal(b) =~= s.subrange(6 + la, s.len() as int));
    assert(decimal(d) =~= warning_id(run_id(c), d).subrange(6 + lc, s.len() as int));
    lemma_decimal_injective(b, d);
}

/// What the session knows about one run in flight, as the contracts see it.
pub struct RunView {
    pub run: Seq<char>,
    /// Told to stop.
    pub cancelled: bool,
    /// Held: events queue and nothing runs until it clears.
    pub paused: bool,
    /// Warnings the run is parked on, by the id the shell answers with.
    pub pending: Seq<Seq<char>>,
}

struct InFlight {
    run: String,
    cancelled: bool,
    paused: bool,
    pending: Vec<String>,
    number: Ghost<nat>,
    asked: Ghost<Seq<nat>>,
}

/// Everything one connection keeps track of.
pub struct Session {
    runs: Vec<InFlight>,
    next: u64,
    /// Warnings answered and not yet read by the run that asked, each with
    /// its answer.
    replies: Vec<(String, Decision)>,
}

spec fn run_view(f: InFlight) -> RunView {
    RunView { run: f.run@, cancelled: f.cancelled, paused: f.paused, pending: views(f.pending@) }
}

/// No two runs share an id and no two parked warnings share one.
pub open spec fn ids_unique(v: Seq<RunView>) -> bool {
    &&& forall|i: int, j: int| 0 <= i < j < v.len() ==> (#[trigger] v[i]).run != (#[trigger] v[j]).run
    &&& forall|i: int, j: int, k: int, l: int|
        0 <= i < v.len() && 0 <= j < v.len() && 0 <= k < v[i].pending.len() && 0 <= l < v[j].pending.len()
            && (i != j || k != l) ==> (#[trigger] v[i].pending[k]) != (#[trigger] v[j].pending[l])
}

/// The book-keeping holds together: every id comes from the counter, no
/// number is counted twice, and a run's warnings are its own.
spec fn runs_ok(runs: Seq<InFlight>, next: u64) -> bool {
    &&& next >= 1
    &&& forall|i: int| 0 <= i < runs.len() ==> (#[trigger] runs[i]).run@ == run_id(runs[i].number@) && runs[i].number@ < next
    &&& forall|i: int, j: int| 0 <= i < j < runs.len() ==> (#[trigger] runs[i]).number@ != (#[trigger] runs[j]).number@
    &&& forall|i: int| 0 <= i < runs.len() ==> (#[trigger] runs[i]).asked@.len() == runs[i].pending@.len()
        && runs[i].asked@.no_duplicates()
    &&& forall|i: int, k: int| 0 <= i < runs.len() && 0 <= k < runs[i].pending@.len()
        ==> (#[trigger] runs[i].pending@[k])@ == warning_id(runs[i].run@, runs[i].asked@[k]) && runs[i].asked@[k] < next
    &&& forall|i: int, j: int, k: int, l: int|
        0 <= i < runs.len() && 0 <= j < runs.len() && i != j && 0 <= k < runs[i].asked@.len() && 0 <= l < runs[j].asked@.len()
            ==> (#[trigger] runs[i].asked@[k]) != (#[trigger] runs[j].asked@[l])
}

spec fn views_of(runs: Seq<InFlight>) -> Seq<RunView> {
    runs.map_values(|f: InFlight| run_view(f))
}

proof fn lemma_runs_unique(runs: Seq<InFlight>, next: u64)
    requires
        runs_ok(runs, next),
    ensures
        ids_unique(views_of(runs)),
{
    let v = views_of(runs);
    assert forall|i: int, j: int| 0 <= i < j < v.len() implies (#[trigger] v[i]).run != (#[trigger] v[j]).run by {
        if v[i].run == v[j].run {
            lemma_run_id_injective(runs[i].number@, runs[j].number@);
        }
    }
    assert forall|i: int, j: int, k: int, l: int|
        0 <= i < v.len() && 0 <= j < v.len() && 0 <= k < v[i].pending.len() && 0 <= l < v[j].pending.len()
            && (i != j || k != l) implies (#[trigger] v[i].pending[k]) != (#[trigger] v[j].pending[l]) by {
        assert(v[i].pending[k] == runs[i].pending@[k]@);
        assert(v[j].pending[l] == runs[j].pending@[l]@);
        if v[i].pending[k] == v[j].pending[l] {
            lemma_warning_id_injective(runs[i].number@, runs[i].asked@[k], runs[j].number@, runs[j].asked@[l]);
            if i == j {
                assert(runs[i].asked@[k] != runs[i].asked@[l]);
            }
        }
    }
}

proof fn lemma_counter_grows(runs: Seq<InFlight>, next: u64)
    requires
        runs_ok(runs, next),
        next < u64::MAX,
    ensures
        runs_ok(runs, (next + 1) as u64),
{
    assert forall|i: int, k: int| 0 <= i < runs.len() && 0 <= k < runs[i].pending@.len()
        implies (#[trigger] runs[i].pending@[k])@ == warning_id(runs[i].run@, runs[i].asked@[k])
            && runs[i].asked@[k] < next + 1 by {
        assert(runs_ok(runs, next));
        let x = runs[i].pending@[k];
        assert(x@ == warning_id(runs[i].run@, runs[i].asked@[k]));
        assert(runs[i].asked@[k] < next);
    }
}

/// A new run, numbered with the counter before it moved on, keeps the
/// book-keeping whole.
proof fn lemma_push_run(runs: Seq<InFlight>, fresh: InFlight, next: u64)
    requires
        runs_ok(runs, next),
        next < u64::MAX,
        fresh.number@ == next,
        fresh.run@ == run_id(next as nat),
        fresh.pending@.len() == 0,
        fresh.asked@.len() == 0,
    ensures
        runs_ok(runs.push(fresh), (next + 1) as u64),
{
    let nr = runs.push(fresh);
    lemma_counter_grows(runs, next);
    assert forall|i: int| 0 <= i < nr.len() implies (#[trigger] nr[i]).run@ == run_id(nr[i].number@) && nr[i].number@ < next + 1 by {
        if i < runs.len() { assert(nr[i] == runs[i]); }
    }
    assert forall|i: int, j: int| 0 <= i < j < nr.len() implies (#[trigger] nr[i]).number@ != (#[trigger] nr[j]).number@ by {
        assert(nr[i] == runs[i]);
        if j < runs.len() { assert(nr[j] == runs[j]); }
    }
    assert forall|i: int| 0 <= i < nr.len() implies (#[trigger] nr[i]).asked@.len() == nr[i].pending@.len() && nr[i].asked@.no_duplicates() by {
        if i < runs.len() { assert(nr[i] == runs[i]); }
    }
    assert forall|i: int, k: int| 0 <= i < nr.len() && 0 <= k < nr[i].pending@.len()
        implies (#[trigger] nr[i].pending@[k])@ == warning_id(nr[i].run@, nr[i].asked@[k]) && nr[i].asked@[k] < next + 1 by {
        assert(nr[i] == runs[i]);
    }
    assert forall|i: int, j: int, k: int, l: int|
        0 <= i < nr.len() && 0 <= j < nr.len() && i != j && 0 <= k < nr[i].asked@.len() && 0 <= l < nr[j].asked@.len()
            implies (#[trigger] nr[i].asked@[k]) != (#[trigger] nr[j].asked@[l]) by {
        assert(nr[i] == runs[i]);
        assert(nr[j] == runs[j]);
    }
}

pub open spec fn replies_of(v: Seq<(String, Decision)>) -> Seq<(Seq<char>, Decision)> {
    v.map_values(|r: (String, Decision)| (r.0@, r.1))
}

impl View for Session {
    type V = Seq<RunView>;

    closed spec fn view(&self) -> Seq<RunView> {
        views_of(self.runs@)
    }
}

impl Session {
    /// What the counter will hand out next.
    pub closed spec fn counter(&self) -> nat {
        self.next as nat
    }

    /// The answers waiting for the runs that asked: each warning with what
    /// a person, or a stop, answered it.
    pub closed spec fn replies(&self) -> Seq<(Seq<char>, Decision)> {
        replies_of(self.replies@)
    }

    #[verifier::type_invariant]
    closed spec fn well_formed(&self) -> bool {
        runs_ok(self.runs@, self.next)
    }

    proof fn lemma_unique(&self)
        requires
            self.well_formed(),
        ensures
            ids_unique(self@),
    {
        lemma_runs_unique(self.runs@, self.next);
    }

    pub fn new() -> (s: Session)
        ensures
            s@ == Seq::<RunView>::empty(),
            s.counter() == 1,
            s.replies() == Seq::<(Seq<char>, Decision)>::empty(),
    {
        let s = Session { runs: Vec::new(), next: 1, replies: Vec::new() };
        proof {
            assert(s@ =~= Seq::<RunView>::empty());
            assert(replies_of(s.replies@) =~= Seq::<(Seq<char>, Decision)>::empty());
        }
        s
    }
}

} // verus!

verus! {

/// A run's pending warnings with one id taken out.
pub open spec fn without(p: Seq<Seq<char>>, w: Seq<char>) -> Seq<Seq<char>>
    decreases p.len(),
{
    if p.len() == 0 {
        p
    } else if p.last() == w {
        without(p.drop_last(), w)
    } else {
        without(p.drop_last(), w).push(p.last())
    }
}

/// The run with this id, if the session has one.
pub open spec fn has_run(v: Seq<RunView>, run: Seq<char>) -> bool {
    exists|i: int| 0 <= i < v.len() && (#[trigger] v[i]).run == run
}

/// Whether a stop or a hold meant for `run` reaches the run at `i`.
pub open spec fn meant_for(v: Seq<RunView>, run: Option<Seq<char>>, i: int) -> bool {
    match run {
        None => true,
        Some(r) => v[i].run == r,
    }
}

/// How many of the first `n` runs a stop or a hold reaches.
pub open spec fn reached_upto(v: Seq<RunView>, run: Option<Seq<char>>, n: int) -> nat
    decreases n,
{
    if n <= 0 {
        0
    } else {
        reached_upto(v, run, n - 1) + if meant_for(v, run, n - 1) { 1nat } else { 0nat }
    }
}

/// The warnings a stop wakes, in run order.
pub open spec fn drained_upto(v: Seq<RunView>, run: Option<Seq<char>>, n: int) -> Seq<Seq<char>>
    decreases n,
{
    if n <= 0 {
        seq![]
    } else {
        drained_upto(v, run, n - 1) + if meant_for(v, run, n - 1) { v[n - 1].pending } else { seq![] }
    }
}

fn matches_run(f: &InFlight, run: Option<&str>) -> (r: bool)
    ensures
        r == match run {
            None => true,
            Some(x) => f.run@ == x@,
        },
{
    match run {
        None => true,
        Some(x) => same(f.run.as_str(), x),
    }
}

impl InFlight {
    fn copy(&self) -> (f: InFlight)
        ensures
            run_view(f) == run_view(*self),
            f.number == self.number,
            f.asked == self.asked,
            f.run@ == self.run@,
            f.pending@.len() == self.pending@.len(),
            forall|k: int| 0 <= k < f.pending@.len() ==> (#[trigger] f.pending@[k])@ == self.pending@[k]@,
    {
        let mut pending: Vec<String> = Vec::new();
        let mut k: usize = 0;
        while k < self.pending.len()
            invariant
                k <= self.pending@.len(),
                pending@.len() == k,
                forall|j: int| 0 <= j < k ==> (#[trigger] pending@[j])@ == self.pending@[j]@,
            decreases self.pending.len() - k,
        {
            pending.push(self.pending[k].clone());
            k = k + 1;
        }
        let f = InFlight {
            run: self.run.clone(),
            cancelled: self.cancelled,
            paused: self.paused,
            pending,
            number: Ghost(self.number@),
            asked: Ghost(self.asked@),
        };
        proof { assert(views(f.pending@) =~= views(self.pending@)); }
        f
    }
}

impl Session {
    /// An id nothing in this session has had.
    fn fresh_number(&mut self) -> (n: u64)
        requires
            old(self).next < u64::MAX,
        ensures
            n == old(self).next,
            final(self).next == old(self).next + 1,
            final(self).runs == old(self).runs,
            final(self).replies == old(self).replies,
    {
        proof { use_type_invariant(&*self); }
        let n = self.next;
        proof { lemma_counter_grows(self.runs@, n); }
        self.next = n + 1;
        n
    }

    /// `run-1`, `run-2`: the id a new run goes by.
    fn fresh_run_id(&mut self) -> (id: String)
        requires
            old(self).next < u64::MAX,
        ensures
            id@ == run_id(old(self).next as nat),
            final(self).next == old(self).next + 1,
            final(self).runs == old(self).runs,
            final(self).replies == old(self).replies,
    {
        let n = self.fresh_number();
        let mut id = owned("run-");
        let digits = decimal_of(n);
        append(&mut id, digits.as_str());
        id
    }

    /// Register a new run. Returns its id, which no run in this session has
    /// had before; `None` only once the counter has run out.
    pub fn start(&mut self) -> (id: Option<String>)
        ensures
            ids_unique(final(self)@),
            old(self).counter() < u64::MAX ==> id is Some,
            id matches Some(r) ==> {
                &&& r@ == run_id(old(self).counter())
                &&& !has_run(old(self)@, r@)
                &&& final(self)@ == old(self)@.push(RunView { run: r@, cancelled: false, paused: false, pending: seq![] })
                &&& final(self).counter() == old(self).counter() + 1
            },
            id is None ==> final(self)@ == old(self)@ && final(self).counter() == old(self).counter(),
            final(self).replies() == old(self).replies(),
    {
        proof { use_type_invariant(&*self); }
        if self.next == u64::MAX {
            proof { self.lemma_unique(); }
            return None;
        }
        let ghost number = self.next as nat;
        let id = self.fresh_run_id();
        let fresh = InFlight {
            run: id.clone(),
            cancelled: false,
            paused: false,
            pending: Vec::new(),
            number: Ghost(number),
            asked: Ghost(Seq::<nat>::empty()),
        };
        let ghost before = self@;
        proof {
            assert forall|i: int| 0 <= i < before.len() implies (#[trigger] before[i]).run != id@ by {
                assert(before[i].run == self.runs@[i].run@);
                if self.runs@[i].run@ == id@ {
                    lemma_run_id_injective(self.runs@[i].number@, number);
                }
            }
        }
        proof { use_type_invariant(&*self); }
        let mut runs: Vec<InFlight> = Vec::new();
        std::mem::swap(&mut runs, &mut self.runs);
        let ghost old_runs = runs@;
        runs.push(fresh);
        proof { lemma_push_run(old_runs, fresh, (self.next - 1) as u64); }
        self.runs = runs;
        proof {
            use_type_invariant(&*self);
            self.lemma_unique();
            assert(views(fresh.pending@) =~= Seq::<Seq<char>>::empty());
            assert(self@ =~= before.push(RunView { run: id@, cancelled: false, paused: false, pending: seq![] }));
        }
        Some(id)
    }
}

} // verus!

verus! {

/// Picking out some of each run's warnings, in order, keeps the book-keeping
/// whole.
proof fn lemma_keep(runs: Seq<InFlight>, nr: Seq<InFlight>, next: u64, sel: Seq<Seq<int>>)
    requires
        runs_ok(runs, next),
        nr.len() == runs.len(),
        sel.len() == runs.len(),
        forall|i: int| 0 <= i < runs.len() ==> (#[trigger] nr[i]).run@ == runs[i].run@ && nr[i].number == runs[i].number
            && sel[i].len() == nr[i].pending@.len() && nr[i].asked@.len() == sel[i].len(),
        forall|i: int, k: int| 0 <= i < runs.len() && 0 <= k < sel[i].len() ==> 0 <= #[trigger] sel[i][k] < runs[i].pending@.len()
            && nr[i].pending@[k]@ == runs[i].pending@[sel[i][k]]@ && nr[i].asked@[k] == runs[i].asked@[sel[i][k]],
        forall|i: int, k: int, l: int| 0 <= i < runs.len() && 0 <= k < l < sel[i].len() ==> #[trigger] sel[i][k] < #[trigger] sel[i][l],
    ensures
        runs_ok(nr, next),
{
    assert forall|i: int| 0 <= i < nr.len() implies (#[trigger] nr[i]).run@ == run_id(nr[i].number@) && nr[i].number@ < next by {
        assert(runs[i].run@ == run_id(runs[i].number@));
    }
    assert forall|i: int, j: int| 0 <= i < j < nr.len() implies (#[trigger] nr[i]).number@ != (#[trigger] nr[j]).number@ by {
        assert(runs[i].number@ != runs[j].number@);
    }
    assert forall|i: int| 0 <= i < nr.len() implies (#[trigger] nr[i]).asked@.len() == nr[i].pending@.len() && nr[i].asked@.no_duplicates() by {
        assert forall|k: int, l: int| 0 <= k < nr[i].asked@.len() && 0 <= l < nr[i].asked@.len() && k != l implies nr[i].asked@[k] != nr[i].asked@[l] by {
            let (a, b) = if k < l { (k, l) } else { (l, k) };
            assert(sel[i][a] < sel[i][b]);
            assert(runs[i].asked@.no_duplicates());
            assert(runs[i].asked@[sel[i][a]] != runs[i].asked@[sel[i][b]]);
        }
    }
    assert forall|i: int, k: int| 0 <= i < nr.len() && 0 <= k < nr[i].pending@.len()
        implies (#[trigger] nr[i].pending@[k])@ == warning_id(nr[i].run@, nr[i].asked@[k]) && nr[i].asked@[k] < next by {
        let x = runs[i].pending@[sel[i][k]];
        assert(x@ == warning_id(runs[i].run@, runs[i].asked@[sel[i][k]]));
        assert(runs[i].asked@[sel[i][k]] < next);
    }
    assert forall|i: int, j: int, k: int, l: int|
        0 <= i < nr.len() && 0 <= j < nr.len() && i != j && 0 <= k < nr[i].asked@.len() && 0 <= l < nr[j].asked@.len()
            implies (#[trigger] nr[i].asked@[k]) != (#[trigger] nr[j].asked@[l]) by {
        assert(runs[i].asked@[sel[i][k]] != runs[j].asked@[sel[j][l]]);
    }
}

/// A run with one warning taken out of what it is parked on.
fn without_warning(f: &InFlight, w: &str) -> (r: (InFlight, Ghost<Seq<int>>))
    ensures
        run_view(r.0) == (RunView { pending: without(views(f.pending@), w@), ..run_view(*f) }),
        r.0.run@ == f.run@,
        r.0.number == f.number,
        f.asked@.len() == f.pending@.len() ==> r.1@.len() == r.0.pending@.len() && r.0.asked@.len() == r.1@.len(),
        f.asked@.len() == f.pending@.len() ==> forall|k: int| 0 <= k < r.1@.len() ==> 0 <= #[trigger] r.1@[k] < f.pending@.len()
            && r.0.pending@[k]@ == f.pending@[r.1@[k]]@ && r.0.asked@[k] == f.asked@[r.1@[k]],
        forall|k: int, l: int| 0 <= k < l < r.1@.len() ==> #[trigger] r.1@[k] < #[trigger] r.1@[l],
{
    let mut pending: Vec<String> = Vec::new();
    let ghost mut asked: Seq<nat> = seq![];
    let ghost mut sel: Seq<int> = seq![];
    let mut k: usize = 0;
    while k < f.pending.len()
        invariant
            k <= f.pending@.len(),
            views(pending@) == without(views(f.pending@).take(k as int), w@),
            sel.len() == pending@.len(),
            f.asked@.len() == f.pending@.len() ==> asked.len() == sel.len(),
            forall|j: int| 0 <= j < sel.len() ==> 0 <= #[trigger] sel[j] < k && pending@[j]@ == f.pending@[sel[j]]@,
            f.asked@.len() == f.pending@.len() ==> forall|j: int| 0 <= j < sel.len() ==> #[trigger] asked[j] == f.asked@[sel[j]],
            forall|a: int, b: int| 0 <= a < b < sel.len() ==> #[trigger] sel[a] < #[trigger] sel[b],
        decreases f.pending.len() - k,
    {
        proof {
            assert(views(f.pending@).take(k + 1).drop_last() =~= views(f.pending@).take(k as int));
            assert(views(f.pending@).take(k + 1).last() == f.pending@[k as int]@);
        }
        if !same(f.pending[k].as_str(), w) {
            pending.push(f.pending[k].clone());
            proof {
                sel = sel.push(k as int);
                if f.asked@.len() == f.pending@.len() {
                    asked = asked.push(f.asked@[k as int]);
                }
                assert(views(pending@) =~= without(views(f.pending@).take(k as int), w@).push(f.pending@[k as int]@));
            }
        }
        k = k + 1;
    }
    proof { assert(views(f.pending@).take(f.pending@.len() as int) =~= views(f.pending@)); }
    let r = InFlight {
        run: f.run.clone(),
        cancelled: f.cancelled,
        paused: f.paused,
        pending,
        number: Ghost(f.number@),
        asked: Ghost(asked),
    };
    (r, Ghost(sel))
}

} // verus!

verus! {

proof fn lemma_without_len(p: Seq<Seq<char>>, w: Seq<char>)
    ensures
        without(p, w).len() <= p.len(),
        (without(p, w).len() < p.len()) == p.contains(w),
    decreases p.len(),
{
    if p.len() > 0 {
        lemma_without_len(p.drop_last(), w);
        if p.drop_last().contains(w) {
            let k = choose|k: int| 0 <= k < p.drop_last().len() && p.drop_last()[k] == w;
            assert(p[k] == w);
        }
        if p.contains(w) && p.last() != w {
            let k = choose|k: int| 0 <= k < p.len() && p[k] == w;
            assert(p.drop_last()[k] == w);
        }
        if p.last() == w {
            assert(p[p.len() - 1] == w);
        }
    }
}

pub open spec fn opt_view(run: Option<&str>) -> Option<Seq<char>> {
    match run {
        Some(x) => Some(x@),
        None => None,
    }
}

/// Every run with one warning taken out of what it is parked on.
pub open spec fn answered(v: Seq<RunView>, w: Seq<char>) -> Seq<RunView> {
    v.map_values(|r: RunView| RunView { pending: without(r.pending, w), ..r })
}

/// Some run is parked on this warning.
pub open spec fn parked_on(v: Seq<RunView>, w: Seq<char>) -> bool {
    exists|i: int| 0 <= i < v.len() && (#[trigger] v[i]).pending.contains(w)
}

/// What a stop does to the runs it reaches: told to stop, and woken from
/// every warning they were parked on.
pub open spec fn stopped(v: Seq<RunView>, run: Option<Seq<char>>) -> Seq<RunView> {
    Seq::new(v.len(), |i: int| if meant_for(v, run, i) {
        RunView { cancelled: true, pending: seq![], ..v[i] }
    } else {
        v[i]
    })
}

/// The answers a stop leaves for the warnings it woke: Stop, each.
pub open spec fn stops(ws: Seq<Seq<char>>) -> Seq<(Seq<char>, Decision)> {
    ws.map_values(|w: Seq<char>| (w, Decision::Stop))
}

/// What a hold does to the runs it reaches.
pub open spec fn held(v: Seq<RunView>, run: Option<Seq<char>>, paused: bool) -> Seq<RunView> {
    Seq::new(v.len(), |i: int| if meant_for(v, run, i) { RunView { paused, ..v[i] } } else { v[i] })
}

impl Session {
    /// Answer a warning: Continue, Continue always, or Stop. The answer waits
    /// for the run that asked, which reads it with `take_answer`. False, and
    /// nothing kept, when no run is parked on the warning, which is what a
    /// second click on Continue looks like.
    pub fn answer(&mut self, warning: &str, decision: Decision) -> (found: bool)
        ensures
            found == parked_on(old(self)@, warning@),
            final(self)@ == answered(old(self)@, warning@),
            final(self).counter() == old(self).counter(),
            final(self).replies() == if found { old(self).replies().push((warning@, decision)) } else { old(self).replies() },
            ids_unique(final(self)@),
    {
        proof { use_type_invariant(&*self); }
        let ghost old_runs = self.runs@;
        let mut fresh: Vec<InFlight> = Vec::new();
        let ghost mut sel: Seq<Seq<int>> = seq![];
        let mut found = false;
        let mut i: usize = 0;
        while i < self.runs.len()
            invariant
                i <= self.runs@.len(),
                self.runs@ == old_runs,
                runs_ok(old_runs, self.next),
                fresh@.len() == i,
                sel.len() == i,
                forall|j: int| 0 <= j < i ==> (#[trigger] fresh@[j]).run@ == old_runs[j].run@ && fresh@[j].number == old_runs[j].number
                    && sel[j].len() == fresh@[j].pending@.len() && fresh@[j].asked@.len() == sel[j].len(),
                forall|j: int, k: int| 0 <= j < i && 0 <= k < sel[j].len() ==> 0 <= #[trigger] sel[j][k] < old_runs[j].pending@.len()
                    && fresh@[j].pending@[k]@ == old_runs[j].pending@[sel[j][k]]@ && fresh@[j].asked@[k] == old_runs[j].asked@[sel[j][k]],
                forall|j: int, k: int, l: int| 0 <= j < i && 0 <= k < l < sel[j].len() ==> #[trigger] sel[j][k] < #[trigger] sel[j][l],
                views_of(fresh@) == answered(views_of(old_runs), warning@).take(i as int),
                found == exists|j: int| 0 <= j < i && (#[trigger] views_of(old_runs)[j]).pending.contains(warning@),
            decreases self.runs.len() - i,
        {
            let (f, Ghost(s)) = without_warning(&self.runs[i], warning);
            proof {
                lemma_without_len(views(old_runs[i as int].pending@), warning@);
                assert(old_runs[i as int].asked@.len() == old_runs[i as int].pending@.len());
            }
            let ghost was = found;
            if f.pending.len() < self.runs[i].pending.len() {
                found = true;
            }
            proof {
                assert(views_of(old_runs)[i as int].pending == views(old_runs[i as int].pending@));
                assert(views(f.pending@).len() == f.pending@.len());
                assert(found == (was || views_of(old_runs)[i as int].pending.contains(warning@)));
                assert(found == exists|j: int| 0 <= j < i + 1 && (#[trigger] views_of(old_runs)[j]).pending.contains(warning@));
            }
            let ghost before = fresh@;
            fresh.push(f);
            proof {
                sel = sel.push(s);
                assert(views_of(fresh@) =~= answered(views_of(old_runs), warning@).take(i + 1));
            }
            i = i + 1;
        }
        proof {
            lemma_keep(old_runs, fresh@, self.next, sel);
            assert(answered(views_of(old_runs), warning@).take(old_runs.len() as int) =~= answered(views_of(old_runs), warning@));
        }
        self.runs = fresh;
        proof {
            lemma_runs_unique(self.runs@, self.next);
        }
        if found {
            let ghost before = replies_of(self.replies@);
            let mut rs: Vec<(String, Decision)> = Vec::new();
            std::mem::swap(&mut rs, &mut self.replies);
            rs.push((owned(warning), decision));
            self.replies = rs;
            proof { assert(replies_of(self.replies@) =~= before.push((warning@, decision))); }
        }
        found
    }
}

} // verus!

verus! {

impl Session {
    /// Stop a run, or every run when given no id. Answers with how many were
    /// stopped and the warnings that were woken, each of which the run that
    /// was parked on it reads as Stop — a run waiting on a person would
    /// otherwise never see the flag.
    pub fn stop(&mut self, run: Option<&str>) -> (r: (usize, Vec<String>))
        ensures
            r.0 == reached_upto(old(self)@, opt_view(run), old(self)@.len() as int),
            views(r.1@) == drained_upto(old(self)@, opt_view(run), old(self)@.len() as int),
            final(self)@ == stopped(old(self)@, opt_view(run)),
            final(self).counter() == old(self).counter(),
            final(self).replies() == old(self).replies() + stops(views(r.1@)),
            ids_unique(final(self)@),
    {
        proof { use_type_invariant(&*self); }
        let ghost old_runs = self.runs@;
        let ghost v = views_of(old_runs);
        let mut fresh: Vec<InFlight> = Vec::new();
        let ghost mut sel: Seq<Seq<int>> = seq![];
        let mut count: usize = 0;
        let mut woken: Vec<String> = Vec::new();
        let mut i: usize = 0;
        while i < self.runs.len()
            invariant
                i <= self.runs@.len(),
                self.runs@ == old_runs,
                v == views_of(old_runs),
                runs_ok(old_runs, self.next),
                fresh@.len() == i,
                sel.len() == i,
                count <= i,
                count == reached_upto(v, opt_view(run), i as int),
                views(woken@) == drained_upto(v, opt_view(run), i as int),
                forall|j: int| 0 <= j < i ==> (#[trigger] fresh@[j]).run@ == old_runs[j].run@ && fresh@[j].number == old_runs[j].number
                    && sel[j].len() == fresh@[j].pending@.len() && fresh@[j].asked@.len() == sel[j].len(),
                forall|j: int, k: int| 0 <= j < i && 0 <= k < sel[j].len() ==> 0 <= #[trigger] sel[j][k] < old_runs[j].pending@.len()
                    && fresh@[j].pending@[k]@ == old_runs[j].pending@[sel[j][k]]@ && fresh@[j].asked@[k] == old_runs[j].asked@[sel[j][k]],
                forall|j: int, k: int, l: int| 0 <= j < i && 0 <= k < l < sel[j].len() ==> #[trigger] sel[j][k] < #[trigger] sel[j][l],
                views_of(fresh@) == stopped(v, opt_view(run)).take(i as int),
            decreases self.runs.len() - i,
        {
            let f = &self.runs[i];
            proof { assert(v[i as int] == run_view(old_runs[i as int])); }
            if matches_run(f, run) {
                let mut k: usize = 0;
                let ghost before = views(woken@);
                while k < f.pending.len()
                    invariant
                        k <= f.pending@.len(),
                        views(woken@) == before + views(f.pending@).take(k as int),
                    decreases f.pending.len() - k,
                {
                    woken.push(f.pending[k].clone());
                    proof {
                        assert(views(f.pending@).take(k + 1) =~= views(f.pending@).take(k as int).push(f.pending@[k as int]@));
                        assert(views(woken@) =~= (before + views(f.pending@).take(k as int)).push(f.pending@[k as int]@));
                    }
                    k = k + 1;
                }
                proof { assert(views(f.pending@).take(f.pending@.len() as int) =~= views(f.pending@)); }
                let g = InFlight {
                    run: f.run.clone(),
                    cancelled: true,
                    paused: f.paused,
                    pending: Vec::new(),
                    number: Ghost(f.number@),
                    asked: Ghost(Seq::<nat>::empty()),
                };
                fresh.push(g);
                count = count + 1;
                proof {
                    sel = sel.push(Seq::<int>::empty());
                    assert(views(g.pending@) =~= Seq::<Seq<char>>::empty());
                }
            } else {
                let g = f.copy();
                fresh.push(g);
                proof {
                    sel = sel.push(Seq::new(f.pending@.len(), |k: int| k));
                    assert(old_runs[i as int].asked@.len() == old_runs[i as int].pending@.len());
                }
            }
            proof {
                assert(views_of(fresh@) =~= stopped(v, opt_view(run)).take(i + 1));
            }
            i = i + 1;
        }
        proof {
            lemma_keep(old_runs, fresh@, self.next, sel);
            assert(stopped(v, opt_view(run)).take(old_runs.len() as int) =~= stopped(v, opt_view(run)));
        }
        self.runs = fresh;
        proof { lemma_runs_unique(self.runs@, self.next); }
        let ghost start = replies_of(self.replies@);
        let mut rs: Vec<(String, Decision)> = Vec::new();
        std::mem::swap(&mut rs, &mut self.replies);
        let mut k: usize = 0;
        while k < woken.len()
            invariant
                k <= woken@.len(),
                replies_of(rs@) == start + stops(views(woken@).take(k as int)),
            decreases woken.len() - k,
        {
            let ghost before = replies_of(rs@);
            rs.push((woken[k].clone(), Decision::Stop));
            proof {
                assert(views(woken@).take(k + 1) =~= views(woken@).take(k as int).push(woken@[k as int]@));
                assert(replies_of(rs@) =~= before.push((woken@[k as int]@, Decision::Stop)));
                assert(stops(views(woken@).take(k + 1)) =~= stops(views(woken@).take(k as int)).push((woken@[k as int]@, Decision::Stop)));
            }
            k = k + 1;
        }
        self.replies = rs;
        proof { assert(views(woken@).take(woken@.len() as int) =~= views(woken@)); }
        (count, woken)
    }

    /// Hold, or let go. Events keep queueing while a graph is held.
    /// Answers with how many runs it reached.
    pub fn hold(&mut self, run: Option<&str>, paused: bool) -> (n: usize)
        ensures
            n == reached_upto(old(self)@, opt_view(run), old(self)@.len() as int),
            final(self)@ == held(old(self)@, opt_view(run), paused),
            final(self).counter() == old(self).counter(),
            final(self).replies() == old(self).replies(),
            ids_unique(final(self)@),
    {
        proof { use_type_invariant(&*self); }
        let ghost old_runs = self.runs@;
        let ghost v = views_of(old_runs);
        let mut fresh: Vec<InFlight> = Vec::new();
        let ghost mut sel: Seq<Seq<int>> = seq![];
        let mut count: usize = 0;
        let mut i: usize = 0;
        while i < self.runs.len()
            invariant
                i <= self.runs@.len(),
                self.runs@ == old_runs,
                v == views_of(old_runs),
                runs_ok(old_runs, self.next),
                fresh@.len() == i,
                sel.len() == i,
                count <= i,
                count == reached_upto(v, opt_view(run), i as int),
                forall|j: int| 0 <= j < i ==> (#[trigger] fresh@[j]).run@ == old_runs[j].run@ && fresh@[j].number == old_runs[j].number
                    && sel[j].len() == fresh@[j].pending@.len() && fresh@[j].asked@.len() == sel[j].len(),
                forall|j: int, k: int| 0 <= j < i && 0 <= k < sel[j].len() ==> 0 <= #[trigger] sel[j][k] < old_runs[j].pending@.len()
                    && fresh@[j].pending@[k]@ == old_runs[j].pending@[sel[j][k]]@ && fresh@[j].asked@[k] == old_runs[j].asked@[sel[j][k]],
                forall|j: int, k: int, l: int| 0 <= j < i && 0 <= k < l < sel[j].len() ==> #[trigger] sel[j][k] < #[trigger] sel[j][l],
                views_of(fresh@) == held(v, opt_view(run), paused).take(i as int),
            decreases self.runs.len() - i,
        {
            let f = &self.runs[i];
            proof {
                assert(v[i as int] == run_view(old_runs[i as int]));
                assert(old_runs[i as int].asked@.len() == old_runs[i as int].pending@.len());
            }
            let mut g = f.copy();
            if matches_run(f, run) {
                g.paused = paused;
                count = count + 1;
            }
            fresh.push(g);
            proof {
                sel = sel.push(Seq::new(f.pending@.len(), |k: int| k));
                assert(views_of(fresh@) =~= held(v, opt_view(run), paused).take(i + 1));
            }
            i = i + 1;
        }
        proof {
            lemma_keep(old_runs, fresh@, self.next, sel);
            assert(held(v, opt_view(run), paused).take(old_runs.len() as int) =~= held(v, opt_view(run), paused));
        }
        self.runs = fresh;
        proof { lemma_runs_unique(self.runs@, self.next); }
        count
    }

    /// The runs in flight.
    pub fn running(&self) -> (ids: Vec<String>)
        ensures
            views(ids@) == self@.map_values(|r: RunView| r.run),
    {
        let mut ids: Vec<String> = Vec::new();
        let mut i: usize = 0;
        while i < self.runs.len()
            invariant
                i <= self.runs@.len(),
                views(ids@) == self@.map_values(|r: RunView| r.run).take(i as int),
            decreases self.runs.len() - i,
        {
            ids.push(self.runs[i].run.clone());
            proof {
                assert(self@.len() == self.runs@.len());
                assert(self@[i as int] == run_view(self.runs@[i as int]));
                let m = self@.map_values(|r: RunView| r.run);
                assert(m[i as int] == self.runs@[i as int].run@);
                assert(m.take(i + 1) =~= m.take(i as int).push(m[i as int]));
                assert(views(ids@) =~= m.take(i as int).push(self.runs@[i as int].run@));
                assert(views(ids@) =~= self@.map_values(|r: RunView| r.run).take(i + 1));
            }
            i = i + 1;
        }
        proof { assert(self@.map_values(|r: RunView| r.run).take(self@.len() as int) =~= self@.map_values(|r: RunView| r.run)); }
        ids
    }
}

} // verus!

verus! {

/// What asking about a warning came to: parked on an id the shell will
/// answer, or decided on the spot.
#[derive(Debug, PartialEq, Eq)]
pub enum Asked {
    Parked(String),
    Decided(Decision),
}

/// Every run, with one more warning parked on the run it belongs to.
pub open spec fn parked(v: Seq<RunView>, run: Seq<char>, w: Seq<char>) -> Seq<RunView> {
    v.map_values(|r: RunView| if r.run == run { RunView { pending: r.pending.push(w), ..r } } else { r })
}

/// Every run but the one with this id.
pub open spec fn forgotten(v: Seq<RunView>, run: Seq<char>) -> Seq<RunView>
    decreases v.len(),
{
    if v.len() == 0 {
        v
    } else if v.last().run == run {
        forgotten(v.drop_last(), run)
    } else {
        forgotten(v.drop_last(), run).push(v.last())
    }
}

/// A warning parked under a fresh number keeps the book-keeping whole.
proof fn lemma_park(runs: Seq<InFlight>, i: int, g: InFlight, next: u64)
    requires
        runs_ok(runs, next),
        next < u64::MAX,
        0 <= i < runs.len(),
        g.run@ == runs[i].run@,
        g.number == runs[i].number,
        g.asked@ == runs[i].asked@.push(next as nat),
        g.pending@.len() == runs[i].pending@.len() + 1,
        forall|k: int| 0 <= k < runs[i].pending@.len() ==> (#[trigger] g.pending@[k])@ == runs[i].pending@[k]@,
        g.pending@.last()@ == warning_id(runs[i].run@, next as nat),
    ensures
        runs_ok(runs.update(i, g), (next + 1) as u64),
{
    let nr = runs.update(i, g);
    lemma_counter_grows(runs, next);
    assert forall|j: int| 0 <= j < nr.len() implies (#[trigger] nr[j]).run@ == run_id(nr[j].number@) && nr[j].number@ < next + 1 by {
        assert(runs[j].run@ == run_id(runs[j].number@));
    }
    assert forall|a: int, b: int| 0 <= a < b < nr.len() implies (#[trigger] nr[a]).number@ != (#[trigger] nr[b]).number@ by {
        assert(runs[a].number@ != runs[b].number@);
    }
    assert forall|j: int| 0 <= j < nr.len() implies (#[trigger] nr[j]).asked@.len() == nr[j].pending@.len() && nr[j].asked@.no_duplicates() by {
        assert(runs[j].asked@.len() == runs[j].pending@.len());
        if j == i {
            assert forall|k: int, l: int| 0 <= k < g.asked@.len() && 0 <= l < g.asked@.len() && k != l implies g.asked@[k] != g.asked@[l] by {
                assert(runs[i].asked@.no_duplicates());
                if k < runs[i].asked@.len() {
                    assert(runs[i].asked@[k] < next) by {
                        let x = runs[i].pending@[k];
                        assert(x@ == warning_id(runs[i].run@, runs[i].asked@[k]) && runs[i].asked@[k] < next);
                    }
                }
                if l < runs[i].asked@.len() {
                    assert(runs[i].asked@[l] < next) by {
                        let x = runs[i].pending@[l];
                        assert(x@ == warning_id(runs[i].run@, runs[i].asked@[l]) && runs[i].asked@[l] < next);
                    }
                }
            }
        }
    }
    assert forall|j: int, k: int| 0 <= j < nr.len() && 0 <= k < nr[j].pending@.len()
        implies (#[trigger] nr[j].pending@[k])@ == warning_id(nr[j].run@, nr[j].asked@[k]) && nr[j].asked@[k] < next + 1 by {
        if j == i && k == runs[i].pending@.len() {
            assert(g.pending@[k] == g.pending@.last());
        } else {
            let x = runs[j].pending@[k];
            assert(x@ == warning_id(runs[j].run@, runs[j].asked@[k]) && runs[j].asked@[k] < next);
        }
    }
    assert forall|a: int, b: int, k: int, l: int|
        0 <= a < nr.len() && 0 <= b < nr.len() && a != b && 0 <= k < nr[a].asked@.len() && 0 <= l < nr[b].asked@.len()
            implies (#[trigger] nr[a].asked@[k]) != (#[trigger] nr[b].asked@[l]) by {
        assert(runs[a].asked@.len() == runs[a].pending@.len());
        assert(runs[b].asked@.len() == runs[b].pending@.len());
        if a == i && k == runs[i].asked@.len() {
            let x = runs[b].pending@[l];
            assert(x@ == warning_id(runs[b].run@, runs[b].asked@[l]) && runs[b].asked@[l] < next);
        } else if b == i && l == runs[i].asked@.len() {
            let x = runs[a].pending@[k];
            assert(x@ == warning_id(runs[a].run@, runs[a].asked@[k]) && runs[a].asked@[k] < next);
        } else {
            assert(runs[a].asked@[k] != runs[b].asked@[l]);
        }
    }
}

impl Session {
    /// Where the run with this id is kept, if the session has one.
    fn find(&self, run: &str) -> (at: Option<usize>)
        ensures
            match at {
                Some(i) => i < self.runs@.len() && self.runs@[i as int].run@ == run@,
                None => forall|i: int| 0 <= i < self.runs@.len() ==> (#[trigger] self.runs@[i]).run@ != run@,
            },
    {
        let mut i: usize = 0;
        while i < self.runs.len()
            invariant
                i <= self.runs@.len(),
                forall|j: int| 0 <= j < i ==> (#[trigger] self.runs@[j]).run@ != run@,
            decreases self.runs.len() - i,
        {
            if same(self.runs[i].run.as_str(), run) {
                return Some(i);
            }
            i = i + 1;
        }
        None
    }

    /// Park a warning on a run, to be answered by the shell.
    ///
    /// A run the session does not know is decided on the spot, and the answer
    /// is Stop: the run is waiting on a person who is no longer there, and the
    /// alternative is a shell command that runs because nobody was around to
    /// be asked.
    pub fn ask(&mut self, run: &str) -> (a: Asked)
        ensures
            ids_unique(final(self)@),
            has_run(old(self)@, run@) && old(self).counter() < u64::MAX ==> a is Parked,
            final(self).replies() == old(self).replies(),
            match a {
                Asked::Decided(d) => {
                    &&& d == Decision::Stop
                    &&& final(self)@ == old(self)@
                    &&& final(self).counter() == old(self).counter()
                },
                Asked::Parked(w) => {
                    &&& has_run(old(self)@, run@)
                    &&& w@ == warning_id(run@, old(self).counter())
                    &&& !parked_on(old(self)@, w@)
                    &&& final(self)@ == parked(old(self)@, run@, w@)
                    &&& final(self).counter() == old(self).counter() + 1
                },
            },
    {
        proof { use_type_invariant(&*self); self.lemma_unique(); }
        let at = self.find(run);
        let i = match at {
            None => {
                proof {
                    assert forall|j: int| 0 <= j < self@.len() implies (#[trigger] self@[j]).run != run@ by {
                        assert(self@[j].run == self.runs@[j].run@);
                    }
                }
                return Asked::Decided(Decision::Stop);
            }
            Some(i) => i,
        };
        if self.next == u64::MAX {
            return Asked::Decided(Decision::Stop);
        }
        let ghost old_view = self@;
        let ghost old_runs = self.runs@;
        proof { assert(old_view[i as int].run == run@); }
        let n = self.fresh_number();
        let mut w = owned(run);
        append(&mut w, "-w");
        let digits = decimal_of(n);
        append(&mut w, digits.as_str());
        let mut g = self.runs[i].copy();
        g.pending.push(w.clone());
        g.asked = Ghost(g.asked@.push(n as nat));
        proof {
            assert forall|j: int| 0 <= j < old_view.len() implies !(#[trigger] old_view[j]).pending.contains(w@) by {
                if old_view[j].pending.contains(w@) {
                    let k = choose|k: int| 0 <= k < old_view[j].pending.len() && old_view[j].pending[k] == w@;
                    let x = old_runs[j].pending@[k];
                    assert(x@ == warning_id(old_runs[j].run@, old_runs[j].asked@[k]) && old_runs[j].asked@[k] < n);
                    assert(old_runs[i as int].run@ == run_id(old_runs[i as int].number@));
                    assert(old_runs[j].run@ == run_id(old_runs[j].number@));
                    lemma_warning_id_injective(old_runs[j].number@, old_runs[j].asked@[k], old_runs[i as int].number@, n as nat);
                }
            }
        }
        let mut runs: Vec<InFlight> = Vec::new();
        std::mem::swap(&mut runs, &mut self.runs);
        proof { lemma_park(old_runs, i as int, g, n); }
        runs.set(i, g);
        self.runs = runs;
        proof {
            lemma_runs_unique(self.runs@, self.next);
            assert(views(g.pending@) =~= views(old_runs[i as int].pending@).push(w@));
            assert forall|j: int| 0 <= j < old_view.len() implies (#[trigger] self@[j]) == parked(old_view, run@, w@)[j] by {
                if j != i {
                    assert(old_view[j].run != run@) by {
                        assert(ids_unique(old_view));
                        if j < i { assert(old_view[j].run != old_view[i as int].run); }
                        else { assert(old_view[i as int].run != old_view[j].run); }
                    }
                }
            }
            assert(self@ =~= parked(old_view, run@, w@));
        }
        Asked::Parked(w)
    }

    /// Forget a finished run, so a stop for it is a no-op rather than an
    /// error about a run that already ended.
    pub fn forget(&mut self, run: &str)
        ensures
            final(self)@ == forgotten(old(self)@, run@),
            final(self).counter() == old(self).counter(),
            final(self).replies() == old(self).replies(),
            ids_unique(final(self)@),
    {
        proof { use_type_invariant(&*self); }
        let ghost old_runs = self.runs@;
        let ghost v = views_of(old_runs);
        let mut fresh: Vec<InFlight> = Vec::new();
        let ghost mut from: Seq<int> = seq![];
        let mut i: usize = 0;
        while i < self.runs.len()
            invariant
                i <= self.runs@.len(),
                self.runs@ == old_runs,
                v == views_of(old_runs),
                runs_ok(old_runs, self.next),
                from.len() == fresh@.len(),
                forall|j: int| 0 <= j < from.len() ==> 0 <= #[trigger] from[j] < i,
                forall|a: int, b: int| 0 <= a < b < from.len() ==> #[trigger] from[a] < #[trigger] from[b],
                forall|j: int| 0 <= j < from.len() ==> (#[trigger] fresh@[j]).run@ == old_runs[from[j]].run@
                    && fresh@[j].number == old_runs[from[j]].number && fresh@[j].asked == old_runs[from[j]].asked
                    && fresh@[j].pending@.len() == old_runs[from[j]].pending@.len()
                    && run_view(fresh@[j]) == run_view(old_runs[from[j]])
                    && forall|k: int| 0 <= k < fresh@[j].pending@.len() ==> (#[trigger] fresh@[j].pending@[k])@ == old_runs[from[j]].pending@[k]@,
                views_of(fresh@) == forgotten(v.take(i as int), run@),
            decreases self.runs.len() - i,
        {
            proof {
                assert(v.take(i + 1).drop_last() =~= v.take(i as int));
                assert(v.take(i + 1).last() == run_view(old_runs[i as int]));
            }
            if !same(self.runs[i].run.as_str(), run) {
                let g = self.runs[i].copy();
                fresh.push(g);
                proof {
                    from = from.push(i as int);
                    assert(views_of(fresh@) =~= views_of(fresh@.drop_last()).push(run_view(g)));
                    assert(fresh@.drop_last() =~= fresh@.take(fresh@.len() - 1));
                }
            }
            proof {
                assert(views_of(fresh@) =~= forgotten(v.take(i + 1), run@));
            }
            i = i + 1;
        }
        proof {
            assert(v.take(old_runs.len() as int) =~= v);
            assert(runs_ok(fresh@, self.next)) by {
                assert forall|j: int| 0 <= j < fresh@.len() implies (#[trigger] fresh@[j]).run@ == run_id(fresh@[j].number@) && fresh@[j].number@ < self.next by {
                    assert(old_runs[from[j]].run@ == run_id(old_runs[from[j]].number@));
                }
                assert forall|a: int, b: int| 0 <= a < b < fresh@.len() implies (#[trigger] fresh@[a]).number@ != (#[trigger] fresh@[b]).number@ by {
                    assert(old_runs[from[a]].number@ != old_runs[from[b]].number@);
                }
                assert forall|j: int| 0 <= j < fresh@.len() implies (#[trigger] fresh@[j]).asked@.len() == fresh@[j].pending@.len() && fresh@[j].asked@.no_duplicates() by {
                    assert(old_runs[from[j]].asked@.len() == old_runs[from[j]].pending@.len());
                }
                assert forall|j: int, k: int| 0 <= j < fresh@.len() && 0 <= k < fresh@[j].pending@.len()
                    implies (#[trigger] fresh@[j].pending@[k])@ == warning_id(fresh@[j].run@, fresh@[j].asked@[k]) && fresh@[j].asked@[k] < self.next by {
                    let x = old_runs[from[j]].pending@[k];
                    assert(x@ == warning_id(old_runs[from[j]].run@, old_runs[from[j]].asked@[k]) && old_runs[from[j]].asked@[k] < self.next);
                }
                assert forall|a: int, b: int, k: int, l: int|
                    0 <= a < fresh@.len() && 0 <= b < fresh@.len() && a != b && 0 <= k < fresh@[a].asked@.len() && 0 <= l < fresh@[b].asked@.len()
                        implies (#[trigger] fresh@[a].asked@[k]) != (#[trigger] fresh@[b].asked@[l]) by {
                    assert(from[a] != from[b]) by {
                        if a < b { assert(from[a] < from[b]); } else { assert(from[b] < from[a]); }
                    }
                    assert(old_runs[from[a]].asked@[k] != old_runs[from[b]].asked@[l]);
                }
            }
        }
        self.runs = fresh;
        proof { lemma_runs_unique(self.runs@, self.next); }
    }
}

} // verus!

verus! {

proof fn lemma_without_gone(p: Seq<Seq<char>>, w: Seq<char>)
    ensures
        !without(p, w).contains(w),
    decreases p.len(),
{
    if p.len() > 0 {
        lemma_without_gone(p.drop_last(), w);
        if p.last() != w {
            let q = without(p.drop_last(), w);
            if q.push(p.last()).contains(w) {
                let k = choose|k: int| 0 <= k < q.push(p.last()).len() && q.push(p.last())[k] == w;
                assert(q[k] == w);
            }
        }
    }
}

proof fn lemma_without_absent(p: Seq<Seq<char>>, w: Seq<char>)
    requires
        !p.contains(w),
    ensures
        without(p, w) == p,
    decreases p.len(),
{
    if p.len() > 0 {
        assert(p.last() == p[p.len() - 1]);
        assert(!p.drop_last().contains(w)) by {
            if p.drop_last().contains(w) {
                let k = choose|k: int| 0 <= k < p.drop_last().len() && p.drop_last()[k] == w;
                assert(p[k] == w);
            }
        }
        lemma_without_absent(p.drop_last(), w);
        assert(p.drop_last().push(p.last()) =~= p);
    }
}

/// Answering a warning takes it off every run, so answering it a second time
/// finds nothing to answer: a second click on Continue is a no-op.
pub proof fn law_answer_twice(v: Seq<RunView>, w: Seq<char>)
    ensures
        !parked_on(answered(v, w), w),
{
    if parked_on(answered(v, w), w) {
        let i = choose|i: int| 0 <= i < answered(v, w).len() && (#[trigger] answered(v, w)[i]).pending.contains(w);
        lemma_without_gone(v[i].pending, w);
    }
}

/// A warning asked about on a run is one the shell can answer, and answering
/// it leaves every run as it was before the question.
pub proof fn law_answer_undoes_ask(v: Seq<RunView>, run: Seq<char>, w: Seq<char>)
    requires
        has_run(v, run),
        !parked_on(v, w),
    ensures
        parked_on(parked(v, run, w), w),
        answered(parked(v, run, w), w) == v,
{
    let i = choose|i: int| 0 <= i < v.len() && (#[trigger] v[i]).run == run;
    let p = parked(v, run, w);
    assert(p[i].pending.last() == w);
    assert(p[i].pending.contains(w));
    assert forall|j: int| 0 <= j < v.len() implies (#[trigger] answered(p, w)[j]) == v[j] by {
        assert(!v[j].pending.contains(w));
        lemma_without_absent(v[j].pending, w);
        if v[j].run == run {
            assert(p[j].pending.drop_last() =~= v[j].pending);
            assert(without(p[j].pending, w) == without(v[j].pending, w));
        }
    }
    assert(answered(p, w) =~= v);
}

proof fn lemma_reached_one(v: Seq<RunView>, run: Seq<char>, at: int, n: int)
    requires
        ids_unique(v),
        0 <= at < v.len(),
        v[at].run == run,
        0 <= n <= v.len(),
    ensures
        reached_upto(v, Some(run), n) == if at < n { 1nat } else { 0nat },
        drained_upto(v, Some(run), n) == if at < n { v[at].pending } else { Seq::<Seq<char>>::empty() },
    decreases n,
{
    if n > 0 {
        lemma_reached_one(v, run, at, n - 1);
        if n - 1 != at {
            if n - 1 < at { assert(v[n - 1].run != v[at].run); } else { assert(v[at].run != v[n - 1].run); }
            assert(!meant_for(v, Some(run), n - 1));
        } else {
            assert(Seq::<Seq<char>>::empty() + v[at].pending =~= v[at].pending);
        }
        let d = drained_upto(v, Some(run), n - 1);
        assert(d + Seq::<Seq<char>>::empty() =~= d);
    }
}

/// Stopping a run that is parked on a warning wakes it: the stop reaches that
/// run and no other, tells it to stop, and hands back every warning it was
/// waiting on, which the run reads as Stop.
pub proof fn law_stop_wakes(v: Seq<RunView>, run: Seq<char>, at: int)
    requires
        ids_unique(v),
        0 <= at < v.len(),
        v[at].run == run,
    ensures
        reached_upto(v, Some(run), v.len() as int) == 1,
        drained_upto(v, Some(run), v.len() as int) == v[at].pending,
        stopped(v, Some(run))[at].cancelled,
        stopped(v, Some(run))[at].pending.len() == 0,
        forall|j: int| 0 <= j < v.len() && j != at ==> #[trigger] stopped(v, Some(run))[j] == v[j],
{
    lemma_reached_one(v, run, at, v.len() as int);
    assert forall|j: int| 0 <= j < v.len() && j != at implies #[trigger] stopped(v, Some(run))[j] == v[j] by {
        if j < at { assert(v[j].run != v[at].run); } else { assert(v[at].run != v[j].run); }
    }
}

} // verus!

verus! {

/// Which model provider a graph's runs talk to. This engine speaks Ollama,
/// at the endpoint a model block names or the local default.
#[derive(Debug, Clone, PartialEq, Eq)]
pub enum Provider {
    Ollama { endpoint: Option<String> },
}

/// The first endpoint a model block names, counting only one with something
/// other than white space in it.
pub open spec fn first_endpoint(es: Seq<Option<Seq<char>>>) -> Option<Seq<char>>
    decreases es.len(),
{
    if es.len() == 0 {
        None
    } else {
        match es[0] {
            Some(s) => if !crate::text::all_space(s) { Some(s) } else { first_endpoint(es.drop_first()) },
            None => first_endpoint(es.drop_first()),
        }
    }
}

pub open spec fn opt_views(es: Seq<Option<String>>) -> Seq<Option<Seq<char>>> {
    es.map_values(|e: Option<String>| match e { Some(s) => Some(s@), None => None })
}

pub open spec fn unknown_provider_text(name: Seq<char>) -> Seq<char> {
    "`"@ + name + "` is not a provider this engine has yet; it speaks ollama. Change the graph's provider, or point its endpoint at an Ollama."@
}

/// The provider a graph asks for. `endpoints` holds, model block by model
/// block in file order, the `endpoint` setting where it is text: a block's own
/// endpoint wins over the graph default, which is what lets one graph reach
/// two Ollamas.
pub fn provider_for(provider: &str, endpoints: &Vec<Option<String>>) -> (r: Result<Provider, crate::rpc::RpcError>)
    ensures
        provider@ == "ollama"@ ==> (r matches Ok(Provider::Ollama { endpoint })
            && match endpoint { Some(e) => first_endpoint(opt_views(endpoints@)) == Some(e@), None => first_endpoint(opt_views(endpoints@)) is None }),
        provider@ != "ollama"@ ==> (r matches Err(e) && e.code@ == "provider"@ && e.message@ == unknown_provider_text(provider@)),
{
    if !same(provider, "ollama") {
        let mut m = owned("`");
        append(&mut m, provider);
        append(&mut m, "` is not a provider this engine has yet; it speaks ollama. Change the graph's provider, or point its endpoint at an Ollama.");
        return Err(crate::rpc::RpcError::new("provider", m));
    }
    let ghost es = opt_views(endpoints@);
    let mut i: usize = 0;
    proof { assert(es.skip(0) =~= es); }
    while i < endpoints.len()
        invariant
            provider@ == "ollama"@,
            i <= endpoints@.len(),
            es == opt_views(endpoints@),
            first_endpoint(es) == first_endpoint(es.skip(i as int)),
        decreases endpoints.len() - i,
    {
        proof { assert(es.skip(i as int).drop_first() =~= es.skip(i + 1)); }
        match &endpoints[i] {
            Some(s) => {
                if !crate::text::is_blank(s.as_str()) {
                    return Ok(Provider::Ollama { endpoint: Some(s.clone()) });
                }
            },
            None => {},
        }
        i = i + 1;
    }
    proof { assert(es.skip(i as int).len() == 0); }
    Ok(Provider::Ollama { endpoint: None })
}

} // verus!

verus! {

/// Ids are never reused: two runs counted apart have different ids, and two
/// warnings share an id only if they are the same count on the same run,
/// which is what makes a warning answered twice a no-op rather than an
/// answer to some other question.
pub proof fn law_ids_never_repeat(a: nat, b: nat, c: nat, d: nat)
    ensures
        run_id(a) == run_id(c) ==> a == c,
        warning_id(run_id(a), b) == warning_id(run_id(c), d) ==> a == c && b == d,
{
    if run_id(a) == run_id(c) {
        lemma_run_id_injective(a, c);
    }
    if warning_id(run_id(a), b) == warning_id(run_id(c), d) {
        lemma_warning_id_injective(a, b, c, d);
    }
}

} // verus!

verus! {

/// The answer waiting for a warning: the first one given for it.
pub open spec fn answer_for(rs: Seq<(Seq<char>, Decision)>, w: Seq<char>) -> Option<Decision>
    decreases rs.len(),
{
    if rs.len() == 0 {
        None
    } else if rs[0].0 == w {
        Some(rs[0].1)
    } else {
        answer_for(rs.drop_first(), w)
    }
}

/// The answers with the first one for a warning read, and so gone.
pub open spec fn without_answer(rs: Seq<(Seq<char>, Decision)>, w: Seq<char>) -> Seq<(Seq<char>, Decision)>
    decreases rs.len(),
{
    if rs.len() == 0 {
        rs
    } else if rs[0].0 == w {
        rs.drop_first()
    } else {
        seq![rs[0]] + without_answer(rs.drop_first(), w)
    }
}

proof fn lemma_answer_at(rs: Seq<(Seq<char>, Decision)>, w: Seq<char>, k: int)
    requires
        0 <= k <= rs.len(),
        forall|j: int| 0 <= j < k ==> (#[trigger] rs[j]).0 != w,
        k < rs.len() ==> rs[k].0 == w,
    ensures
        answer_for(rs, w) == if k < rs.len() { Some(rs[k].1) } else { None },
        without_answer(rs, w) == if k < rs.len() { rs.remove(k) } else { rs },
    decreases k,
{
    if k > 0 {
        let t = rs.drop_first();
        assert forall|j: int| 0 <= j < k - 1 implies (#[trigger] t[j]).0 != w by {
            assert(t[j] == rs[j + 1]);
        }
        assert(rs[0].0 != w);
        lemma_answer_at(t, w, k - 1);
        if k < rs.len() {
            assert(t[k - 1] == rs[k]);
            assert(seq![rs[0]] + t.remove(k - 1) =~= rs.remove(k));
        } else {
            assert(seq![rs[0]] + t =~= rs);
        }
    } else if rs.len() > 0 {
        assert(rs.drop_first() =~= rs.remove(0));
    }
}

impl Session {
    /// What the run parked on `warning` reads when it wakes: the answer given
    /// to it, once — or none while nobody has answered yet.
    pub fn take_answer(&mut self, warning: &str) -> (d: Option<Decision>)
        ensures
            d == answer_for(old(self).replies(), warning@),
            final(self).replies() == without_answer(old(self).replies(), warning@),
            final(self)@ == old(self)@,
            final(self).counter() == old(self).counter(),
    {
        proof { use_type_invariant(&*self); }
        let ghost rs = replies_of(self.replies@);
        let mut k: usize = 0;
        while k < self.replies.len()
            invariant
                k <= self.replies@.len(),
                rs == replies_of(self.replies@),
                self.runs == old(self).runs,
                self.next == old(self).next,
                self.replies == old(self).replies,
                runs_ok(self.runs@, self.next),
                forall|j: int| 0 <= j < k ==> (#[trigger] rs[j]).0 != warning@,
            decreases self.replies.len() - k,
        {
            if same(self.replies[k].0.as_str(), warning) {
                let d = self.replies[k].1;
                proof { lemma_answer_at(rs, warning@, k as int); }
                let mut kept: Vec<(String, Decision)> = Vec::new();
                std::mem::swap(&mut kept, &mut self.replies);
                kept.remove(k);
                self.replies = kept;
                proof { assert(replies_of(self.replies@) =~= rs.remove(k as int)); }
                return Some(d);
            }
            k = k + 1;
        }
        proof { lemma_answer_at(rs, warning@, k as int); }
        None
    }
}

/// A person's answer reaches the run that asked: once a warning a run is
/// parked on is answered, the run reads that answer, and reads it once.
pub proof fn law_answer_reaches_run(rs: Seq<(Seq<char>, Decision)>, w: Seq<char>, d: Decision)
    requires
        answer_for(rs, w) is None,
    ensures
        answer_for(rs.push((w, d)), w) == Some(d),
        answer_for(without_answer(rs.push((w, d)), w), w) is None,
    decreases rs.len(),
{
    if rs.len() > 0 {
        assert(rs.push((w, d)).drop_first() =~= rs.drop_first().push((w, d)));
        law_answer_reaches_run(rs.drop_first(), w, d);
        assert((seq![rs[0]] + without_answer(rs.drop_first().push((w, d)), w)).drop_first() =~= without_answer(rs.drop_first().push((w, d)), w));
    } else {
        assert(rs.push((w, d))[0] == (w, d));
        assert(rs.push((w, d)).drop_first() =~= Seq::<(Seq<char>, Decision)>::empty());
    }
}

} // verus!

verus! {

pub open spec fn has_run_before(v: Seq<RunView>, run: Seq<char>, n: int) -> bool {
    exists|i: int| 0 <= i < n && (#[trigger] v[i]).run == run
}

proof fn lemma_reached_named(v: Seq<RunView>, run: Seq<char>, n: int)
    requires
        ids_unique(v),
        0 <= n <= v.len(),
    ensures
        reached_upto(v, Some(run), n) == if has_run_before(v, run, n) { 1nat } else { 0nat },
    decreases n,
{
    if n > 0 {
        lemma_reached_named(v, run, n - 1);
        if v[n - 1].run == run {
            assert(has_run_before(v, run, n));
            if has_run_before(v, run, n - 1) {
                let i = choose|i: int| 0 <= i < n - 1 && (#[trigger] v[i]).run == run;
                assert(v[i].run != v[n - 1].run);
            }
        } else {
            if has_run_before(v, run, n) {
                let i = choose|i: int| 0 <= i < n && (#[trigger] v[i]).run == run;
                assert(has_run_before(v, run, n - 1));
            }
            if has_run_before(v, run, n - 1) {
                let i = choose|i: int| 0 <= i < n - 1 && (#[trigger] v[i]).run == run;
                assert(has_run_before(v, run, n));
            }
        }
    }
}

/// A stop or a hold meant for one run reaches it if the session has it and
/// nothing otherwise: it counts one or none, never two.
pub proof fn law_named_stop_counts_one(v: Seq<RunView>, run: Seq<char>)
    requires
        ids_unique(v),
    ensures
        reached_upto(v, Some(run), v.len() as int) == if has_run(v, run) { 1nat } else { 0nat },
{
    lemma_reached_named(v, run, v.len() as int);
    if has_run(v, run) {
        let i = choose|i: int| 0 <= i < v.len() && (#[trigger] v[i]).run == run;
        assert(has_run_before(v, run, v.len() as int));
    }
    if has_run_before(v, run, v.len() as int) {
        let i = choose|i: int| 0 <= i < v.len() && (#[trigger] v[i]).run == run;
        assert(has_run(v, run));
    }
}

} // verus!
