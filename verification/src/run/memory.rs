//! Memory: what a model keeps between questions.
//!
//! Working memory is the store that is allowed to forget: it holds a window
//! of recent episodes, the oldest falling out past its limit or its age, and
//! stopping the graph is what empties it. What it learned is copied, once,
//! into the long-term store by consolidation. The long-term store is a
//! database and lives with the daemon; so does ranking by similarity, which
//! is arithmetic on floating-point vectors. What is here is the book-keeping.
use vstd::prelude::*;
use vstd::string::StringSliceAdditionalSpecFns;
use crate::text::{append, chars_of, decimal, decimal_of, first_index, find_text, last_index, owned, push_char, same, slice};

verus! {

/// How recall orders what it found.
#[derive(Debug, Clone, Copy, PartialEq, Eq, Structural)]
pub enum Order {
    /// Store order, newest first inside each: working memory before
    /// long-term. This is the default.
    RecentFirst,
    /// Best match first, wherever it came from.
    Relevance,
    /// Store order kept, ranked by relevance inside each.
    Mixed,
}

impl Order {
    /// The order a hub's `recall` setting names; anything else is the
    /// default.
    pub fn read(name: &str) -> (o: Order)
        ensures
            o == if name@ == "relevance"@ { Order::Relevance } else if name@ == "mixed"@ { Order::Mixed } else { Order::RecentFirst },
    {
        if same(name, "relevance") {
            Order::Relevance
        } else if same(name, "mixed") {
            Order::Mixed
        } else {
            Order::RecentFirst
        }
    }
}

/// One line, the way an episode goes into a model's context.
pub fn episode_line(kind: &str, text: &str) -> (s: String)
    ensures
        s@ == "["@ + kind@ + "] "@ + text@,
{
    let mut s = owned("[");
    append(&mut s, kind);
    append(&mut s, "] ");
    append(&mut s, text);
    s
}

/// A window as the panel writes it: whole hours, else whole minutes, else
/// seconds.
pub open spec fn window_text(s: nat) -> Seq<char> {
    if s > 0 && s % 3600 == 0 {
        decimal(s / 3600) + " h"@
    } else if s > 0 && s % 60 == 0 {
        decimal(s / 60) + " min"@
    } else {
        decimal(s) + " s"@
    }
}

pub fn human_window(secs: u64) -> (t: String)
    ensures
        t@ == window_text(secs as nat),
{
    if secs > 0 && secs % 3600 == 0 {
        let mut t = decimal_of(secs / 3600);
        append(&mut t, " h");
        t
    } else if secs > 0 && secs % 60 == 0 {
        let mut t = decimal_of(secs / 60);
        append(&mut t, " min");
        t
    } else {
        let mut t = decimal_of(secs);
        append(&mut t, " s");
        t
    }
}

/// An episode in working memory, with whatever its vector is.
pub struct Held<T> {
    pub id: String,
    pub text: String,
    /// What kind of thing it is: `episode`, `person`, `place`, `fact`.
    pub kind: String,
    /// Unix seconds.
    pub at: i64,
    /// Whether it has been carried to the long-term store already.
    pub consolidated: bool,
    pub vector: Option<T>,
}

/// An episode as the contracts see it.
pub struct Memo {
    pub id: Seq<char>,
    pub text: Seq<char>,
    pub kind: Seq<char>,
    pub at: int,
    pub carried: bool,
}

pub open spec fn memo<T>(h: Held<T>) -> Memo {
    Memo { id: h.id@, text: h.text@, kind: h.kind@, at: h.at as int, carried: h.consolidated }
}

pub open spec fn memos<T>(v: Seq<Held<T>>) -> Seq<Memo> {
    v.map_values(|h: Held<T>| memo(h))
}

/// What is left once everything older than the cutoff has aged out. The
/// oldest are at the front.
pub open spec fn aged(v: Seq<Memo>, cutoff: Option<int>) -> Seq<Memo>
    decreases v.len(),
{
    match cutoff {
        None => v,
        Some(c) => if v.len() > 0 && v[0].at < c { aged(v.drop_first(), cutoff) } else { v },
    }
}

/// The moment before which nothing stays, for a window in seconds.
pub open spec fn cutoff_of(window: Option<u64>, now: i64) -> Option<int> {
    match window {
        None => None,
        Some(w) => Some(now - w),
    }
}

/// Whether forgetting `what` takes this episode: its text contains it, or it
/// is the episode's id.
pub open spec fn forgets(m: Memo, what: Seq<char>) -> bool {
    first_index(m.text, what) is Some || m.id == what
}

pub open spec fn kept_after(v: Seq<Memo>, what: Seq<char>) -> Seq<Memo>
    decreases v.len(),
{
    if v.len() == 0 {
        v
    } else if forgets(v.last(), what) {
        kept_after(v.drop_last(), what)
    } else {
        kept_after(v.drop_last(), what).push(v.last())
    }
}

/// Every episode marked as carried.
pub open spec fn all_carried(v: Seq<Memo>) -> Seq<Memo> {
    v.map_values(|m: Memo| Memo { carried: true, ..m })
}

/// The episodes not carried yet, in order.
pub open spec fn uncarried(v: Seq<Memo>) -> Seq<Memo>
    decreases v.len(),
{
    if v.len() == 0 {
        v
    } else if v.last().carried {
        uncarried(v.drop_last())
    } else {
        uncarried(v.drop_last()).push(v.last())
    }
}

/// Working memory: a window of recent episodes.
pub struct Working<T> {
    items: Vec<Held<T>>,
    /// How many it holds before the oldest fall out.
    limit: usize,
    /// How long an episode stays, in seconds, or none for as long as the run.
    window: Option<u64>,
    next: u64,
}

impl<T> Working<T> {
    #[verifier::type_invariant]
    closed spec fn fits(&self) -> bool {
        1 <= self.limit && self.items@.len() <= self.limit
    }

    pub closed spec fn memos(&self) -> Seq<Memo> {
        memos(self.items@)
    }

    pub closed spec fn limit(&self) -> nat {
        self.limit as nat
    }

    pub closed spec fn window(&self) -> Option<u64> {
        self.window
    }

    pub closed spec fn counter(&self) -> nat {
        self.next as nat
    }

    /// A store holding up to `limit` episodes (at least one), each for
    /// `window` seconds if given.
    pub fn new(limit: usize, window: Option<u64>) -> (w: Working<T>)
        ensures
            w.memos() == Seq::<Memo>::empty(),
            w.limit() == if limit == 0 { 1 } else { limit as nat },
            w.window() == window,
            w.counter() == 0,
    {
        let w = Working { items: Vec::new(), limit: if limit == 0 { 1 } else { limit }, window, next: 0 };
        proof { assert(memos(w.items@) =~= Seq::<Memo>::empty()); }
        w
    }

    /// Whatever has aged out of the window, dropped.
    fn expire(&mut self, now: i64)
        ensures
            final(self).memos() == aged(old(self).memos(), cutoff_of(old(self).window, now)),
            final(self).limit == old(self).limit,
            final(self).window == old(self).window,
            final(self).next == old(self).next,
    {
        proof { use_type_invariant(&*self); }
        let ghost start = memos(self.items@);
        match self.window {
            None => {}
            Some(w) => {
                let cutoff: i128 = now as i128 - w as i128;
                let mut items: Vec<Held<T>> = Vec::new();
                std::mem::swap(&mut items, &mut self.items);
                while items.len() > 0 && (items[0].at as i128) < cutoff
                    invariant
                        aged(start, cutoff_of(Some(w), now)) == aged(memos(items@), cutoff_of(Some(w), now)),
                        items@.len() <= start.len(),
                        cutoff == now - w,
                    decreases items.len(),
                {
                    proof { assert(memos(items@).drop_first() =~= memos(items@.drop_first())); }
                    items.remove(0);
                }
                self.items = items;
            }
        }
    }

    /// Keep this, and answer with its id: `w1`, `w2`, and so on. Past the
    /// limit, the oldest goes.
    pub fn remember(&mut self, text: &str, kind: &str, vector: Option<T>, now: i64) -> (id: String)
        requires
            old(self).counter() < u64::MAX,
        ensures
            id@ == "w"@ + decimal(old(self).counter() + 1),
            final(self).counter() == old(self).counter() + 1,
            final(self).limit() == old(self).limit(),
            final(self).window() == old(self).window(),
            ({
                let kept = aged(old(self).memos(), cutoff_of(old(self).window(), now));
                let room = if kept.len() >= old(self).limit() { kept.skip(kept.len() - old(self).limit() + 1) } else { kept };
                final(self).memos() == room.push(Memo { id: id@, text: text@, kind: kind@, at: now as int, carried: false })
            }),
    {
        proof { use_type_invariant(&*self); }
        self.expire(now);
        let ghost kept = memos(self.items@);
        let mut items: Vec<Held<T>> = Vec::new();
        std::mem::swap(&mut items, &mut self.items);
        let limit = self.limit;
        while items.len() >= limit
            invariant
                1 <= limit,
                kept.len() >= items@.len(),
                memos(items@) == kept.skip(kept.len() - items@.len()),
                items@.len() + 1 >= limit || items@.len() == kept.len(),
            decreases items.len(),
        {
            let ghost prev = items@;
            items.remove(0);
            proof {
                assert(items@ =~= prev.drop_first());
                assert(memos(items@) =~= memos(prev).drop_first());
                assert(memos(items@) =~= kept.skip(kept.len() - items@.len()));
            }
        }
        proof {
            if kept.len() < limit { assert(memos(items@) =~= kept); }
        }
        self.next = self.next + 1;
        let mut id = owned("w");
        let n = decimal_of(self.next);
        append(&mut id, n.as_str());
        let held = Held { id: id.clone(), text: owned(text), kind: owned(kind), at: now, consolidated: false, vector };
        items.push(held);
        proof { assert(memos(items@) =~= memos(items@.drop_last()).push(memo(held))); }
        self.items = items;
        id
    }

    /// Everything whose text contains `what`, or whose id it is, gone.
    /// Answers with how many.
    pub fn forget(&mut self, what: &str) -> (n: usize)
        ensures
            final(self).memos() == kept_after(old(self).memos(), what@),
            n == old(self).memos().len() - final(self).memos().len(),
            final(self).limit() == old(self).limit(),
            final(self).window() == old(self).window(),
            final(self).counter() == old(self).counter(),
    {
        proof { use_type_invariant(&*self); }
        let ghost start = memos(self.items@);
        let mut items: Vec<Held<T>> = Vec::new();
        std::mem::swap(&mut items, &mut self.items);
        let before = items.len();
        let mut kept: Vec<Held<T>> = Vec::new();
        let mut n: usize = 0;
        while items.len() > 0
            invariant
                n <= start.len(),
                memos(items@) == start.skip(n as int),
                memos(kept@) == kept_after(start.take(n as int), what@),
                kept@.len() <= n,
                before == start.len(),
            decreases items.len(),
        {
            let ghost prev = items@;
            let h = items.remove(0);
            proof {
                assert(items@ =~= prev.drop_first());
                assert(memos(items@) =~= memos(prev).drop_first());
                assert(memos(prev)[0] == start.skip(n as int)[0]);
                assert(memos(items@) =~= start.skip(n + 1));
                assert(memo(h) == start[n as int]);
                assert(start.take(n + 1).drop_last() =~= start.take(n as int));
                assert(start.take(n + 1).last() == start[n as int]);
            }
            let gone = find_text(h.text.as_str(), what).is_some() || same(h.id.as_str(), what);
            if !gone {
                kept.push(h);
                proof { assert(memos(kept@) =~= memos(kept@.drop_last()).push(memo(h))); }
            }
            n = n + 1;
        }
        proof { assert(start.take(start.len() as int) =~= start); }
        let after = kept.len();
        self.items = kept;
        before - after
    }

    /// The episodes held, oldest first, with their vectors: what a recall by
    /// similarity scores.
    pub fn held(&self) -> (v: &Vec<Held<T>>)
        ensures
            memos(v@) == self.memos(),
    {
        &self.items
    }

    /// How many episodes are held once the window has been applied.
    pub fn count(&mut self, now: i64) -> (n: usize)
        ensures
            final(self).memos() == aged(old(self).memos(), cutoff_of(old(self).window(), now)),
            n == final(self).memos().len(),
            final(self).limit() == old(self).limit(),
            final(self).window() == old(self).window(),
            final(self).counter() == old(self).counter(),
    {
        self.expire(now);
        self.items.len()
    }

    /// The most recent episodes, newest first, at most `max` of them: a
    /// working memory asked with no question is a short-term log.
    pub fn recent(&mut self, max: usize, now: i64) -> (v: Vec<Entry>)
        ensures
            final(self).memos() == aged(old(self).memos(), cutoff_of(old(self).window(), now)),
            final(self).limit() == old(self).limit(),
            final(self).window() == old(self).window(),
            final(self).counter() == old(self).counter(),
            entries(v@) == newest(final(self).memos(), max as nat),
    {
        self.expire(now);
        let mut out: Vec<Entry> = Vec::new();
        let mut i = self.items.len();
        while i > 0 && out.len() < max
            invariant
                i <= self.items@.len(),
                out@.len() + i == self.items@.len(),
                out@.len() <= max,
                entries(out@) == newest(memos(self.items@), out@.len() as nat),
            decreases i,
        {
            let h = &self.items[i - 1];
            out.push(Entry { id: h.id.clone(), text: h.text.clone(), kind: h.kind.clone(), at: h.at });
            proof {
                let m = memos(self.items@);
                let e = newest(m, out@.len() as nat);
                assert(e.len() == out@.len());
                assert forall|k: int| 0 <= k < out@.len() implies #[trigger] entries(out@)[k] == e[k] by {
                    if k < out@.len() - 1 {
                        assert(entries(out@)[k] == newest(m, (out@.len() - 1) as nat)[k]);
                    } else {
                        assert(m[m.len() - 1 - k] == memo(self.items@[i - 1]));
                    }
                }
                assert(entries(out@) =~= e);
            }
            i = i - 1;
        }
        proof {
            if out@.len() < max {
                assert(newest(memos(self.items@), out@.len() as nat) =~= newest(memos(self.items@), max as nat));
            }
        }
        out
    }

    /// What has been learned since the last time this was asked, and never
    /// again after.
    ///
    /// Consolidation copies rather than moves: working memory forgets on its
    /// own schedule, the long-term store keeps what mattered, and nothing
    /// depends on the order the two happen in.
    pub fn pending(&mut self, now: i64) -> (v: Vec<Entry>)
        ensures
            ({
                let kept = aged(old(self).memos(), cutoff_of(old(self).window(), now));
                &&& entries(v@) == uncarried(kept).map_values(|m: Memo| (m.id, m.text, m.kind, m.at))
                &&& final(self).memos() == all_carried(kept)
            }),
            final(self).limit() == old(self).limit(),
            final(self).window() == old(self).window(),
            final(self).counter() == old(self).counter(),
    {
        self.expire(now);
        proof { use_type_invariant(&*self); }
        let ghost kept = memos(self.items@);
        let mut items: Vec<Held<T>> = Vec::new();
        std::mem::swap(&mut items, &mut self.items);
        let limit = self.limit;
        let mut done: Vec<Held<T>> = Vec::new();
        let mut out: Vec<Entry> = Vec::new();
        let mut n: usize = 0;
        while items.len() > 0
            invariant
                n <= kept.len(),
                memos(items@) == kept.skip(n as int),
                memos(done@) == all_carried(kept.take(n as int)),
                done@.len() == n,
                kept.len() <= limit,
                limit == self.limit,
                entries(out@) == uncarried(kept.take(n as int)).map_values(|m: Memo| (m.id, m.text, m.kind, m.at)),
            decreases items.len(),
        {
            let ghost prev = items@;
            let mut h = items.remove(0);
            proof {
                assert(items@ =~= prev.drop_first());
                assert(memos(items@) =~= memos(prev).drop_first());
                assert(memos(prev)[0] == kept.skip(n as int)[0]);
                assert(memos(items@) =~= kept.skip(n + 1));
                assert(memo(h) == kept[n as int]);
                assert(kept.take(n + 1).drop_last() =~= kept.take(n as int));
                assert(kept.take(n + 1).last() == kept[n as int]);
            }
            let ghost before_out = entries(out@);
            let ghost u = uncarried(kept.take(n as int));
            if !h.consolidated {
                out.push(Entry { id: h.id.clone(), text: h.text.clone(), kind: h.kind.clone(), at: h.at });
                h.consolidated = true;
                proof {
                    assert(uncarried(kept.take(n + 1)) == u.push(kept[n as int]));
                    assert(entries(out@) =~= before_out.push((kept[n as int].id, kept[n as int].text, kept[n as int].kind, kept[n as int].at)));
                    assert(u.push(kept[n as int]).map_values(|m: Memo| (m.id, m.text, m.kind, m.at))
                        =~= u.map_values(|m: Memo| (m.id, m.text, m.kind, m.at)).push((kept[n as int].id, kept[n as int].text, kept[n as int].kind, kept[n as int].at)));
                }
            } else {
                proof { assert(uncarried(kept.take(n + 1)) == u); }
            }
            let ghost before_done = memos(done@);
            done.push(h);
            proof {
                assert(memos(done@) =~= before_done.push(memo(h)));
                assert(memo(h) == Memo { carried: true, ..kept[n as int] });
                assert(all_carried(kept.take(n + 1)) =~= all_carried(kept.take(n as int)).push(Memo { carried: true, ..kept[n as int] }));
            }
            n = n + 1;
        }
        proof { assert(kept.take(kept.len() as int) =~= kept); }
        self.items = done;
        out
    }

    /// What the panel's row says: `in-process · 3 of 128 items · 5 min`.
    pub fn describe(&mut self, now: i64) -> (s: String)
        ensures
            final(self).memos() == aged(old(self).memos(), cutoff_of(old(self).window(), now)),
            final(self).limit() == old(self).limit(),
            final(self).window() == old(self).window(),
            final(self).counter() == old(self).counter(),
            s@ == "in-process · "@ + decimal(final(self).memos().len()) + " of "@ + decimal(old(self).limit()) + " items"@
                + match old(self).window() {
                    Some(w) => " · "@ + window_text(w as nat),
                    None => Seq::<char>::empty(),
                },
    {
        let n = self.count(now);
        let mut s = owned("in-process · ");
        let a = decimal_of(n as u64);
        append(&mut s, a.as_str());
        append(&mut s, " of ");
        let b = decimal_of(self.limit as u64);
        append(&mut s, b.as_str());
        append(&mut s, " items");
        match self.window {
            Some(w) => {
                append(&mut s, " · ");
                let t = human_window(w);
                append(&mut s, t.as_str());
            }
            None => {
                proof { assert(s@ + Seq::<char>::empty() =~= s@); }
            }
        }
        s
    }
}

/// An episode as recall hands it out.
pub struct Entry {
    pub id: String,
    pub text: String,
    pub kind: String,
    pub at: i64,
}

pub open spec fn entries(v: Seq<Entry>) -> Seq<(Seq<char>, Seq<char>, Seq<char>, int)> {
    v.map_values(|e: Entry| (e.id@, e.text@, e.kind@, e.at as int))
}

/// The newest `max` episodes, newest first.
pub open spec fn newest(v: Seq<Memo>, max: nat) -> Seq<(Seq<char>, Seq<char>, Seq<char>, int)> {
    let n = if max < v.len() { max } else { v.len() };
    Seq::new(n, |k: int| (v[v.len() - 1 - k].id, v[v.len() - 1 - k].text, v[v.len() - 1 - k].kind, v[v.len() - 1 - k].at))
}

} // verus!

verus! {

proof fn lemma_aged_suffix(v: Seq<Memo>, c: Option<int>)
    ensures
        exists|k: int| 0 <= k <= v.len() && #[trigger] v.skip(k) == aged(v, c),
    decreases v.len(),
{
    match c {
        None => { assert(v.skip(0) =~= v); }
        Some(x) => {
            if v.len() > 0 && v[0].at < x {
                lemma_aged_suffix(v.drop_first(), c);
                let k = choose|k: int| 0 <= k <= v.drop_first().len() && #[trigger] v.drop_first().skip(k) == aged(v.drop_first(), c);
                assert(v.skip(k + 1) =~= v.drop_first().skip(k));
            } else {
                assert(v.skip(0) =~= v);
            }
        }
    }
}

proof fn lemma_aged_keeps_last(v: Seq<Memo>, c: Option<int>)
    requires
        v.len() > 0,
        c matches Some(x) ==> v.last().at >= x,
    ensures
        aged(v, c).len() > 0,
        aged(v, c).last() == v.last(),
    decreases v.len(),
{
    match c {
        None => {}
        Some(x) => {
            if v.len() > 0 && v[0].at < x {
                assert(v.len() > 1);
                assert(v.drop_first().last() == v.last());
                lemma_aged_keeps_last(v.drop_first(), c);
            }
        }
    }
}

/// A thing remembered is a thing recalled: straight after `remember`, the
/// newest episode working memory hands out is the one just kept, whatever
/// the window.
pub proof fn law_remembered_is_recalled(v: Seq<Memo>, window: Option<u64>, now: i64)
    requires
        v.len() > 0,
        v.last().at == now,
    ensures
        newest(aged(v, cutoff_of(window, now)), 1) == seq![(v.last().id, v.last().text, v.last().kind, v.last().at)],
{
    lemma_aged_keeps_last(v, cutoff_of(window, now));
    let a = aged(v, cutoff_of(window, now));
    assert(newest(a, 1) =~= seq![(v.last().id, v.last().text, v.last().kind, v.last().at)]);
}

/// Working memory never holds more than its limit: after a remember there
/// is room for exactly the one new episode.
pub proof fn law_within_limit(kept: Seq<Memo>, limit: nat, m: Memo)
    requires
        limit >= 1,
    ensures
        ({
            let room = if kept.len() >= limit { kept.skip(kept.len() - limit + 1) } else { kept };
            room.push(m).len() <= limit
        }),
{
}

proof fn lemma_uncarried_none(v: Seq<Memo>)
    requires
        forall|k: int| 0 <= k < v.len() ==> (#[trigger] v[k]).carried,
    ensures
        uncarried(v).len() == 0,
    decreases v.len(),
{
    if v.len() > 0 {
        assert(v.last() == v[v.len() - 1]);
        lemma_uncarried_none(v.drop_last());
    }
}

/// Consolidation copies each thing once: what was handed out is marked, so
/// asking again hands out nothing until something new is remembered — and
/// nothing is taken out of working memory by being handed out.
pub proof fn law_carried_once(v: Seq<Memo>, window: Option<u64>, now: i64)
    ensures
        uncarried(aged(all_carried(v), cutoff_of(window, now))).len() == 0,
        all_carried(v).len() == v.len(),
{
    let c = cutoff_of(window, now);
    lemma_aged_suffix(all_carried(v), c);
    let k = choose|k: int| 0 <= k <= all_carried(v).len() && #[trigger] all_carried(v).skip(k) == aged(all_carried(v), c);
    let a = aged(all_carried(v), c);
    assert forall|j: int| 0 <= j < a.len() implies (#[trigger] a[j]).carried by {
        assert(a[j] == all_carried(v)[k + j]);
    }
    lemma_uncarried_none(a);
}

/// Forgetting leaves nothing that matches what was forgotten, and keeps
/// everything else in order.
pub proof fn law_forgotten_is_gone(v: Seq<Memo>, what: Seq<char>)
    ensures
        forall|k: int| 0 <= k < kept_after(v, what).len() ==> !forgets(#[trigger] kept_after(v, what)[k], what),
        forall|k: int| 0 <= k < v.len() && !forgets(#[trigger] v[k], what) ==> kept_after(v, what).contains(v[k]),
    decreases v.len(),
{
    if v.len() > 0 {
        law_forgotten_is_gone(v.drop_last(), what);
        let r = kept_after(v.drop_last(), what);
        assert forall|k: int| 0 <= k < v.len() && !forgets(#[trigger] v[k], what) implies kept_after(v, what).contains(v[k]) by {
            if k < v.len() - 1 {
                assert(v.drop_last()[k] == v[k]);
                assert(r.contains(v[k]));
                if !forgets(v.last(), what) {
                    let j = choose|j: int| 0 <= j < r.len() && r[j] == v[k];
                    assert(r.push(v.last())[j] == v[k]);
                }
            } else {
                assert(v[k] == v.last());
                assert(r.push(v.last())[r.len() as int] == v[k]);
            }
        }
    }
}

} // verus!

verus! {

/// How many went, over what each store answered.
pub open spec fn total_gone(rs: Seq<Result<usize, String>>) -> nat
    decreases rs.len(),
{
    if rs.len() == 0 {
        0
    } else {
        total_gone(rs.drop_last()) + match rs.last() { Ok(n) => n as nat, Err(_) => 0nat }
    }
}

/// The last store that could not be asked, and why.
pub open spec fn last_trouble(rs: Seq<Result<usize, String>>) -> Option<Seq<char>>
    decreases rs.len(),
{
    if rs.len() == 0 {
        None
    } else {
        match rs.last() {
            Err(e) => Some(e@),
            Ok(_) => last_trouble(rs.drop_last()),
        }
    }
}

/// What forgetting something from every store of a hub comes to: the count
/// from all of them, since forgetting it from one store and not another is
/// not forgetting it. A store that failed only matters when nothing went
/// anywhere: then the failure is the answer.
pub fn forget_outcome(results: &Vec<Result<usize, String>>) -> (r: Result<usize, String>)
    requires
        total_gone(results@) <= usize::MAX,
    ensures
        match last_trouble(results@) {
            Some(e) => if total_gone(results@) == 0 { r matches Err(x) && x@ == e } else { r == Ok::<usize, String>(total_gone(results@) as usize) },
            None => r == Ok::<usize, String>(total_gone(results@) as usize),
        },
{
    let mut gone: usize = 0;
    let mut trouble: Option<String> = None;
    let mut i: usize = 0;
    proof { assert(results@.take(0) =~= Seq::<Result<usize, String>>::empty()); }
    while i < results.len()
        invariant
            i <= results@.len(),
            total_gone(results@) <= usize::MAX,
            gone as nat == total_gone(results@.take(i as int)),
            match trouble { Some(t) => last_trouble(results@.take(i as int)) == Some(t@), None => last_trouble(results@.take(i as int)) is None },
        decreases results.len() - i,
    {
        proof {
            assert(results@.take(i + 1).drop_last() =~= results@.take(i as int));
            assert(results@.take(i + 1).last() == results@[i as int]);
            lemma_gone_grows(results@, i + 1);
        }
        match &results[i] {
            Ok(n) => {
                gone = gone + *n;
            },
            Err(e) => {
                trouble = Some(e.clone());
            },
        }
        i = i + 1;
    }
    proof { assert(results@.take(results@.len() as int) =~= results@); }
    match trouble {
        Some(e) => if gone == 0 { Err(e) } else { Ok(gone) },
        None => Ok(gone),
    }
}

proof fn lemma_gone_grows(rs: Seq<Result<usize, String>>, k: int)
    requires
        0 <= k <= rs.len(),
    ensures
        total_gone(rs.take(k)) <= total_gone(rs),
    decreases rs.len(),
{
    if k < rs.len() {
        assert(rs.drop_last().take(k) =~= rs.take(k));
        lemma_gone_grows(rs.drop_last(), k);
    } else {
        assert(rs.take(k) =~= rs);
    }
}

} // verus!

verus! {

/// The offset FNV-1a starts from.
pub const FNV_BASIS: u64 = 0xcbf2_9ce4_8422_2325;

/// The prime FNV-1a multiplies by.
pub const FNV_PRIME: u64 = 0x100_0000_01b3;

/// One byte into an FNV-1a hash: mixed in, then multiplied, wrapping.
pub open spec fn fnv_step(h: u64, b: u8) -> u64 {
    ((((h ^ (b as u64)) as nat) * (FNV_PRIME as nat)) % 0x1_0000_0000_0000_0000) as u64
}

/// FNV-1a over some bytes, from `h`.
pub open spec fn fnv(h: u64, bytes: Seq<u8>) -> u64
    decreases bytes.len(),
{
    if bytes.len() == 0 {
        h
    } else {
        fnv_step(fnv(h, bytes.drop_last()), bytes.last())
    }
}

/// A stable number for a memory: FNV-1a over its kind, a zero byte, and its
/// text. Nothing is asked of it but that two different memories almost
/// never share one; it is no security hash.
pub open spec fn fingerprint_of(text: Seq<u8>, kind: Seq<u8>) -> u64 {
    fnv(FNV_BASIS, kind + seq![0u8] + text)
}

proof fn lemma_fnv_concat(h: u64, a: Seq<u8>, b: Seq<u8>)
    ensures
        fnv(h, a + b) == fnv(fnv(h, a), b),
    decreases b.len(),
{
    if b.len() > 0 {
        assert((a + b).drop_last() =~= a + b.drop_last());
        lemma_fnv_concat(h, a, b.drop_last());
    }
}

fn fnv_over(h: u64, bytes: &[u8]) -> (r: u64)
    ensures
        r == fnv(h, bytes@),
{
    let mut r = h;
    let mut i: usize = 0;
    while i < bytes.len()
        invariant
            i <= bytes@.len(),
            r == fnv(h, bytes@.take(i as int)),
        decreases bytes.len() - i,
    {
        proof {
            assert(bytes@.take(i + 1).drop_last() =~= bytes@.take(i as int));
        }
        r = (r ^ (bytes[i] as u64)).wrapping_mul(FNV_PRIME);
        i = i + 1;
    }
    proof { assert(bytes@.take(bytes@.len() as int) =~= bytes@); }
    r
}

/// The number a memory of `text`, of this kind, is filed under.
pub fn fingerprint(text: &str, kind: &str) -> (h: u64)
    ensures
        h == fingerprint_of(text.spec_bytes(), kind.spec_bytes()),
{
    let k = fnv_over(FNV_BASIS, kind.as_bytes());
    let z = (k ^ 0u64).wrapping_mul(FNV_PRIME);
    proof {
        let zero = seq![0u8];
        assert(zero.drop_last() =~= Seq::<u8>::empty());
        assert(zero.len() == 1 && zero.last() == 0u8);
        assert(fnv(k, Seq::<u8>::empty()) == k);
        assert(fnv(k, zero) == fnv_step(fnv(k, zero.drop_last()), zero.last()));
        assert(fnv(k, zero) == fnv_step(k, 0u8));
        lemma_fnv_concat(FNV_BASIS, kind.spec_bytes(), zero);
    }
    let t = fnv_over(z, text.as_bytes());
    proof {
        lemma_fnv_concat(FNV_BASIS, kind.spec_bytes() + seq![0u8], text.spec_bytes());
    }
    t
}

/// `16^k`.
pub open spec fn pow16(k: nat) -> nat
    decreases k,
{
    if k == 0 { 1 } else { 16 * pow16((k - 1) as nat) }
}

pub open spec fn hex_char(d: nat) -> char {
    if d < 10 { (0x30 + d) as char } else { (0x61 + d - 10) as char }
}

/// A number as sixteen lowercase hexadecimal digits, leading zeros kept.
pub open spec fn hex16(h: u64) -> Seq<char> {
    Seq::new(16, |i: int| hex_char(((h as nat) / pow16((15 - i) as nat)) % 16))
}

/// What a long-term memory is called: `e` and its fingerprint in hex. The
/// same thing remembered twice is one memory, because it has one name.
pub open spec fn episode_id_of(text: Seq<u8>, kind: Seq<u8>) -> Seq<char> {
    "e"@ + hex16(fingerprint_of(text, kind))
}

fn hex_digit_char(d: u64) -> (c: char)
    requires
        d < 16,
    ensures
        c == hex_char(d as nat),
{
    if d < 10 {
        ((0x30 + d) as u8) as char
    } else {
        ((0x61 + d - 10) as u8) as char
    }
}

proof fn lemma_pow16_positive(k: nat)
    ensures
        pow16(k) > 0,
    decreases k,
{
    if k > 0 {
        lemma_pow16_positive((k - 1) as nat);
    }
}

proof fn lemma_pow16_15()
    ensures
        pow16(15) == 0x1000_0000_0000_0000,
{
    reveal_with_fuel(pow16, 16);
}

/// The name the long-term store files a memory of `text`, of this kind,
/// under.
pub fn episode_id(text: &str, kind: &str) -> (id: String)
    ensures
        id@ == episode_id_of(text.spec_bytes(), kind.spec_bytes()),
{
    let h = fingerprint(text, kind);
    let mut id = owned("e");
    let ghost start = id@;
    proof {
        reveal_strlit("e");
        lemma_pow16_15();
    }
    let mut p: u64 = 0x1000_0000_0000_0000;
    let mut i: usize = 0;
    while i < 16
        invariant
            i <= 16,
            start == "e"@,
            i < 16 ==> p as nat == pow16((15 - i) as nat) && p > 0,
            id@ == start + hex16(h).take(i as int),
        decreases 16 - i,
    {
        let d = (h / p) % 16;
        let c = hex_digit_char(d);
        proof {
            assert(hex16(h)[i as int] == hex_char(((h as nat) / pow16((15 - i) as nat)) % 16));
            assert(hex16(h).take(i + 1) =~= hex16(h).take(i as int).push(c));
        }
        push_char(&mut id, c);
        proof {
            if i < 15 {
                assert(pow16((15 - i) as nat) == 16 * pow16((15 - i - 1) as nat));
                lemma_pow16_positive((15 - i - 1) as nat);
            } else {
                assert(p == 1);
            }
        }
        p = p / 16;
        i = i + 1;
    }
    proof { assert(hex16(h).take(16) =~= hex16(h)); }
    id
}

/// Where a store lives, as its row shows it: the file's name, without the
/// folders it is in.
pub open spec fn file_part(s: Seq<char>) -> Seq<char> {
    match last_index(s, '/') {
        Some(i) => s.skip(i + 1),
        None => s,
    }
}

/// What the panel's row says of the long-term store:
/// `sqlite + vectors · 12 episodes · memory.db`.
pub fn long_term_line(count: usize, where_it_is: &str) -> (s: String)
    ensures
        s@ == "sqlite + vectors · "@ + decimal(count as nat) + " episodes · "@ + file_part(where_it_is@),
{
    let cs = chars_of(where_it_is);
    let mut i = cs.len();
    proof { assert(cs@.take(i as int) =~= cs@); }
    while i > 0 && cs[i - 1] != '/'
        invariant
            i <= cs@.len(),
            cs@ == where_it_is@,
            last_index(cs@, '/') == last_index(cs@.take(i as int), '/'),
        decreases i,
    {
        proof { assert(cs@.take(i as int).drop_last() =~= cs@.take(i - 1)); }
        i = i - 1;
    }
    let n = cs.len();
    let name = slice(where_it_is, i, n);
    proof {
        assert(cs@.subrange(i as int, n as int) =~= cs@.skip(i as int));
        if i == 0 {
            assert(cs@.take(0) =~= Seq::<char>::empty());
            assert(cs@.skip(0) =~= cs@);
        } else {
            assert(cs@.take(i as int).last() == cs@[i - 1]);
        }
    }
    let mut s = owned("sqlite + vectors · ");
    let c = decimal_of(count as u64);
    append(&mut s, c.as_str());
    append(&mut s, " episodes · ");
    append(&mut s, name.as_str());
    s
}

} // verus!

verus! {

/// Working memory after remembering each of `ms` in turn, starting empty,
/// with no window: each new one is kept, and past the limit the oldest goes.
pub open spec fn kept_all(limit: nat, ms: Seq<Memo>) -> Seq<Memo>
    decreases ms.len(),
{
    if ms.len() == 0 {
        seq![]
    } else {
        let v = kept_all(limit, ms.drop_last());
        (if v.len() >= limit { v.skip(v.len() - limit + 1) } else { v }).push(ms.last())
    }
}

/// Over any run of remembering, working memory holds the newest episodes,
/// as many as its limit, oldest first: it is always the oldest that go.
pub proof fn law_remember_keeps_the_newest(limit: nat, ms: Seq<Memo>)
    requires
        limit >= 1,
    ensures
        kept_all(limit, ms) == ms.skip(if ms.len() > limit { ms.len() - limit } else { 0 }),
        kept_all(limit, ms).len() <= limit,
    decreases ms.len(),
{
    if ms.len() > 0 {
        let r = ms.drop_last();
        law_remember_keeps_the_newest(limit, r);
        let v = kept_all(limit, r);
        let room = if v.len() >= limit { v.skip(v.len() - limit + 1) } else { v };
        let s: int = if ms.len() > limit { ms.len() - limit } else { 0 };
        assert(room.push(ms.last()) =~= ms.skip(s));
    } else {
        assert(ms.skip(0) =~= ms);
    }
}

/// What `pending` hands over is handed over once: after it, the next one
/// hands over exactly what was remembered since, in order; and it never
/// changes how many episodes are held.
pub proof fn law_pending_hands_over_once(v: Seq<Memo>, since: Seq<Memo>)
    requires
        forall|k: int| 0 <= k < since.len() ==> !(#[trigger] since[k]).carried,
    ensures
        uncarried(all_carried(v) + since) == since,
        all_carried(v).len() == v.len(),
    decreases since.len(),
{
    if since.len() == 0 {
        assert(all_carried(v) + since =~= all_carried(v));
        lemma_all_carried_none(v);
    } else {
        let r = since.drop_last();
        assert forall|k: int| 0 <= k < r.len() implies !(#[trigger] r[k]).carried by {
            assert(r[k] == since[k]);
        }
        law_pending_hands_over_once(v, r);
        assert((all_carried(v) + since).drop_last() =~= all_carried(v) + r);
        assert(!since[since.len() - 1].carried);
        assert(uncarried(all_carried(v) + since) =~= since);
    }
}

proof fn lemma_all_carried_none(v: Seq<Memo>)
    ensures
        uncarried(all_carried(v)).len() == 0,
    decreases v.len(),
{
    if v.len() > 0 {
        assert(all_carried(v).drop_last() =~= all_carried(v.drop_last()));
        lemma_all_carried_none(v.drop_last());
    }
}

} // verus!

verus! {

/// Forgetting `what` keeps exactly the episodes whose text does not hold
/// `what` and whose id is not `what` itself, in order: an id that merely
/// contains `what` is not that id, so forgetting `w1` leaves `w10` alone.
pub proof fn law_forget_keeps_the_rest(v: Seq<Memo>, what: Seq<char>)
    ensures
        kept_after(v, what) == v.filter(|m: Memo| first_index(m.text, what) is None && m.id != what),
    decreases v.len(),
{
    reveal(Seq::filter);
    if v.len() > 0 {
        law_forget_keeps_the_rest(v.drop_last(), what);
    }
}

} // verus!

verus! {

/// Ageing out takes the oldest first and only what is older than the
/// cutoff: what stays is the end of what was held, everything taken is
/// older than the cutoff, and the oldest that stays is not. Times held in
/// order, oldest first, age out exactly the episodes older than the cutoff.
pub proof fn law_ageing_takes_the_oldest(v: Seq<Memo>, cutoff: int)
    ensures
        ({
            let a = aged(v, Some(cutoff));
            let gone: int = v.len() - a.len();
            &&& a.len() <= v.len()
            &&& a == v.skip(gone)
            &&& forall|j: int| 0 <= j < gone ==> (#[trigger] v[j]).at < cutoff
            &&& a.len() > 0 ==> a[0].at >= cutoff
        }),
        (forall|i: int, j: int| 0 <= i <= j < v.len() ==> (#[trigger] v[i]).at <= (#[trigger] v[j]).at)
            ==> (forall|j: int| 0 <= j < aged(v, Some(cutoff)).len() ==> (#[trigger] aged(v, Some(cutoff))[j]).at >= cutoff),
    decreases v.len(),
{
    let a = aged(v, Some(cutoff));
    if v.len() > 0 && v[0].at < cutoff {
        law_ageing_takes_the_oldest(v.drop_first(), cutoff);
        let r = v.drop_first();
        let gone: int = v.len() - a.len();
        assert(a == aged(r, Some(cutoff)));
        assert(v.skip(gone) =~= r.skip(gone - 1));
        assert forall|j: int| 0 <= j < gone implies (#[trigger] v[j]).at < cutoff by {
            if j > 0 {
                assert(v[j] == r[j - 1]);
            }
        }
        if forall|i: int, j: int| 0 <= i <= j < v.len() ==> (#[trigger] v[i]).at <= (#[trigger] v[j]).at {
            assert forall|i: int, j: int| 0 <= i <= j < r.len() implies (#[trigger] r[i]).at <= (#[trigger] r[j]).at by {
                assert(r[i] == v[i + 1] && r[j] == v[j + 1]);
            }
        }
    } else {
        assert(a == v);
        assert(v.skip(0) =~= v);
        if v.len() > 0 {
            if forall|i: int, j: int| 0 <= i <= j < v.len() ==> (#[trigger] v[i]).at <= (#[trigger] v[j]).at {
                assert forall|j: int| 0 <= j < a.len() implies (#[trigger] a[j]).at >= cutoff by {
                    assert(v[0].at <= v[j].at);
                }
            }
        }
    }
}

} // verus!
