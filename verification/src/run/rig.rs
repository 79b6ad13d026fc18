//! Rigs: what the Avatar is wearing, and what it can therefore do.
//!
//! A rig is a folder — a `rig.yaml` naming what it supports, and one SVG per
//! expression. It is content rather than code: adding a rig is
//! copying a folder, and nothing here executes anything a rig author wrote.
//! The `face.express` vocabulary is generated from the rig: the model
//! can only ask for expressions that exist.
use vstd::prelude::*;
use vstd::string::StringSliceAdditionalSpecFns;
use crate::settings::{entry, unquoted, uncommented};
use crate::text::{
    append, char_count, find_text, joined, join_path, owned, parse_u64, same, slice, split_char, split_on, trim_of, trimmed,
    unsigned_text, views,
};

verus! {

/// A length of time: whole seconds and the nanoseconds after them, as
/// `std::time::Duration` holds one.
#[derive(Debug, Clone, Copy, PartialEq, Eq, Structural)]
pub struct Span {
    pub secs: u64,
    pub nanos: u32,
}

/// How many nanoseconds a span is.
pub open spec fn total(s: Span) -> int {
    s.secs * 1_000_000_000 + s.nanos
}

impl Span {
    pub fn from_secs(secs: u64) -> (s: Span)
        ensures
            s.secs == secs,
            s.nanos == 0,
    {
        Span { secs, nanos: 0 }
    }

    pub fn from_millis(ms: u64) -> (s: Span)
        ensures
            total(s) == ms * 1_000_000,
            s.nanos < 1_000_000_000,
    {
        let s = Span { secs: ms / 1000, nanos: ((ms % 1000) * 1_000_000) as u32 };
        proof {
            assert((ms / 1000) * 1_000_000_000 + (ms % 1000) * 1_000_000 == ms * 1_000_000) by (nonlinear_arith);
        }
        s
    }

    /// No time at all.
    pub fn zero() -> (s: Span)
        ensures
            total(s) == 0,
    {
        Span { secs: 0, nanos: 0 }
    }

    /// The longest span there is: what "for ever" is written as.
    pub fn forever() -> (s: Span)
        ensures
            s.secs == u64::MAX,
            s.nanos == 999_999_999,
    {
        Span { secs: u64::MAX, nanos: 999_999_999 }
    }

    pub fn is_zero(&self) -> (r: bool)
        ensures
            r == (total(*self) == 0),
    {
        self.secs == 0 && self.nanos == 0
    }

    /// The shorter of two spans, by seconds and then nanoseconds, as
    /// `Duration` orders them; the first when they are equal.
    pub fn min(self, other: Span) -> (s: Span)
        ensures
            s == if not_longer(self, other) { self } else { other },
    {
        if self.secs < other.secs || (self.secs == other.secs && self.nanos <= other.nanos) {
            self
        } else {
            other
        }
    }
}

pub open spec fn not_longer(a: Span, b: Span) -> bool {
    a.secs < b.secs || (a.secs == b.secs && a.nanos <= b.nanos)
}

/// What the block does between turns, so the avatar is alive.
///
/// The rig's manifest sets the defaults, because a rig knows how it should
/// move; the block's own settings override them, because a graph knows how
/// long its assistant should hold a face.
#[derive(Debug, Clone, Copy, PartialEq, Eq, Structural)]
pub struct Idle {
    pub blink_every: Span,
    /// Breaths a minute; zero is a face that does not breathe.
    pub breathe_per_min: u32,
    /// How long an expression holds before it settles back to neutral.
    pub settle_after: Span,
    /// How long with no events before it sleeps. The next event wakes it.
    pub sleep_after: Span,
}

/// A resting breath: thirteen a minute is a person at ease.
pub const BREATHE_PER_MIN: u32 = 13;

/// How long `surprised` holds: "a beat, then settles".
pub fn beat() -> (s: Span)
    ensures
        s.secs == 1,
        s.nanos == 500_000_000,
{
    Span { secs: 1, nanos: 500_000_000 }
}

impl Default for Idle {
    fn default() -> (i: Idle)
        ensures
            i.blink_every == (Span { secs: 4, nanos: 0 }),
            i.breathe_per_min == BREATHE_PER_MIN,
            i.settle_after == (Span { secs: 6, nanos: 0 }),
            i.sleep_after == (Span { secs: 300, nanos: 0 }),
    {
        Idle {
            blink_every: Span::from_secs(4),
            breathe_per_min: BREATHE_PER_MIN,
            settle_after: Span::from_secs(6),
            sleep_after: Span::from_secs(300),
        }
    }
}

/// How long an expression holds before idle takes it back to neutral.
pub open spec fn hold_of(idle: Idle, expression: Seq<char>) -> Span {
    if expression == "neutral"@ || expression == "sleepy"@ {
        Span { secs: u64::MAX, nanos: 999_999_999 }
    } else if total(idle.settle_after) == 0 {
        Span { secs: u64::MAX, nanos: 999_999_999 }
    } else if expression == "surprised"@ {
        if not_longer(Span { secs: 1, nanos: 500_000_000 }, idle.settle_after) { Span { secs: 1, nanos: 500_000_000 } } else { idle.settle_after }
    } else {
        idle.settle_after
    }
}

impl Idle {
    /// How long this expression holds before idle takes it back to neutral.
    ///
    /// Neutral and sleepy are where idle returns to, so they hold for ever. A
    /// settle timer of zero means "do not settle": a face that holds what it
    /// was told until told otherwise, which is what a graph that drives every
    /// change itself wants. A surprise is a beat, unless settling is sooner.
    pub fn holds(&self, expression: &str) -> (d: Span)
        ensures
            d == hold_of(*self, expression@),
    {
        if same(expression, "neutral") || same(expression, "sleepy") {
            Span::forever()
        } else if self.settle_after.is_zero() {
            Span::forever()
        } else if same(expression, "surprised") {
            beat().min(self.settle_after)
        } else {
            self.settle_after
        }
    }
}

/// The colour a mood is, for the media that have one and not a face: a
/// Status light breathes it, a block on the canvas can glow it.
/// Neutral, speaking, and anything a user's rig added share one.
pub open spec fn colour_of(expression: Seq<char>) -> Seq<char> {
    if expression == "smile"@ { "#6fc98a"@ }
    else if expression == "frown"@ { "#e0a04f"@ }
    else if expression == "surprised"@ { "#e8ebf0"@ }
    else if expression == "thinking"@ { "#8f7be8"@ }
    else if expression == "love"@ { "#e0685f"@ }
    else if expression == "sleepy"@ { "#3a4250"@ }
    else { "#56c7d6"@ }
}

pub fn colour_for(expression: &str) -> (c: &'static str)
    ensures
        c@ == colour_of(expression@),
{
    if same(expression, "smile") { "#6fc98a" }
    else if same(expression, "frown") { "#e0a04f" }
    else if same(expression, "surprised") { "#e8ebf0" }
    else if same(expression, "thinking") { "#8f7be8" }
    else if same(expression, "love") { "#e0685f" }
    else if same(expression, "sleepy") { "#3a4250" }
    else { "#56c7d6" }
}

/// One aesthetic, and the animations it supports.
#[derive(Debug, Clone)]
pub struct Rig {
    /// The folder name, which is what a graph stores.
    pub id: String,
    pub name: String,
    pub description: String,
    /// In manifest order, which is the order the panel lists them in.
    pub expressions: Vec<String>,
    pub gestures: Vec<String>,
    /// Whether `face.look` means anything on this rig.
    pub gaze: bool,
    pub idle: Idle,
    /// Where the states are, so the shell can be told which file to draw.
    pub folder: String,
}

/// What `face.express` offers: what the rig contains, minus `speaking`,
/// which is driven by the speech port and never by a command.
pub open spec fn vocabulary_of(expressions: Seq<Seq<char>>) -> Seq<Seq<char>>
    decreases expressions.len(),
{
    if expressions.len() == 0 {
        seq![]
    } else {
        let rest = vocabulary_of(expressions.drop_last());
        if expressions.last() == "speaking"@ { rest } else { rest.push(expressions.last()) }
    }
}

impl Rig {
    pub fn has(&self, expression: &str) -> (r: bool)
        ensures
            r == views(self.expressions@).contains(expression@),
    {
        crate::run::runner::holds(&self.expressions, expression)
    }

    /// The file for one expression, or none when the rig cannot make it.
    pub fn state(&self, expression: &str) -> (p: Option<String>)
        ensures
            match p {
                Some(f) => views(self.expressions@).contains(expression@)
                    && f@ == joined(joined(self.folder@, "states"@), expression@ + ".svg"@),
                None => !views(self.expressions@).contains(expression@),
            },
    {
        if !self.has(expression) {
            return None;
        }
        let states = join_path(self.folder.as_str(), "states");
        let mut file = owned(expression);
        append(&mut file, ".svg");
        Some(join_path(states.as_str(), file.as_str()))
    }

    /// What `face.express` offers.
    pub fn vocabulary(&self) -> (v: Vec<String>)
        ensures
            views(v@) == vocabulary_of(views(self.expressions@)),
    {
        let mut v: Vec<String> = Vec::new();
        let mut i: usize = 0;
        while i < self.expressions.len()
            invariant
                i <= self.expressions@.len(),
                views(v@) == vocabulary_of(views(self.expressions@).take(i as int)),
            decreases self.expressions.len() - i,
        {
            proof {
                assert(views(self.expressions@).take(i + 1).drop_last() =~= views(self.expressions@).take(i as int));
                assert(views(self.expressions@).take(i + 1).last() == self.expressions@[i as int]@);
            }
            if !same(self.expressions[i].as_str(), "speaking") {
                v.push(self.expressions[i].clone());
                proof { assert(views(v@) =~= vocabulary_of(views(self.expressions@).take(i as int)).push(self.expressions@[i as int]@)); }
            }
            i = i + 1;
        }
        proof { assert(views(self.expressions@).take(self.expressions@.len() as int) =~= views(self.expressions@)); }
        v
    }
}

/// The vocabulary never offers `speaking`, and offers every other
/// expression the rig has: the model can ask for exactly what exists.
pub proof fn law_vocabulary(expressions: Seq<Seq<char>>, e: Seq<char>)
    ensures
        vocabulary_of(expressions).contains(e) <==> (expressions.contains(e) && e != "speaking"@),
    decreases expressions.len(),
{
    if expressions.len() > 0 {
        let rest = expressions.drop_last();
        law_vocabulary(rest, e);
        let v = vocabulary_of(rest);
        if expressions.contains(e) && e != "speaking"@ {
            let k = choose|k: int| 0 <= k < expressions.len() && expressions[k] == e;
            if k < rest.len() {
                assert(rest[k] == e);
                if expressions.last() != "speaking"@ {
                    let j = choose|j: int| 0 <= j < v.len() && v[j] == e;
                    assert(v.push(expressions.last())[j] == e);
                }
            } else {
                assert(v.push(expressions.last())[v.len() as int] == e);
            }
        }
        if vocabulary_of(expressions).contains(e) {
            let j = choose|j: int| 0 <= j < vocabulary_of(expressions).len() && vocabulary_of(expressions)[j] == e;
            if expressions.last() != "speaking"@ && j == v.len() {
                assert(expressions[expressions.len() - 1] == e);
            } else {
                assert(v[j] == e);
                let k = choose|k: int| 0 <= k < rest.len() && rest[k] == e;
                assert(expressions[k] == e);
            }
        }
    }
}

} // verus!

verus! {

/// A character as `to_ascii_lowercase` leaves it.
pub open spec fn lower(c: char) -> char {
    if 'A' <= c && c <= 'Z' { ((c as int) + 32) as char } else { c }
}

pub open spec fn lowered(s: Seq<char>) -> Seq<char> {
    s.map_values(|c: char| lower(c))
}

/// What splits an SVG into the words a handler attribute would be one of.
pub open spec fn splits(c: char) -> bool {
    crate::text::is_space(c) || c == '<'
}

/// Whether a word starting at `i` is an event handler: it begins with `on`
/// and holds an `=` before the word ends.
pub open spec fn handler_at(s: Seq<char>, i: int) -> bool {
    &&& 0 <= i
    &&& i + 2 <= s.len()
    &&& (i == 0 || splits(s[i - 1]))
    &&& s[i] == 'o' && s[i + 1] == 'n'
    &&& exists|j: int| i + 2 <= j < s.len() && s[j] == '=' && forall|k: int| i <= k <= j ==> !splits(#[trigger] s[k])
}

/// Whether an SVG is trying to be a program: a script, a `javascript:`
/// link, a foreign object, or an event handler, in any case.
pub open spec fn code_like(svg: Seq<char>) -> bool {
    let l = lowered(svg);
    ||| crate::text::first_index(l, "<script"@) is Some
    ||| crate::text::first_index(l, "javascript:"@) is Some
    ||| crate::text::first_index(l, "<foreignobject"@) is Some
    ||| exists|i: int| handler_at(l, i)
}

/// A character with the ASCII letters `A` to `Z` made `a` to `z`.
pub(crate) fn lower_of(c: char) -> (r: char)
    ensures
        r == lower(c),
{
    if 'A' <= c && c <= 'Z' {
        ((c as u8) + 32) as char
    } else {
        c
    }
}

fn splitter(c: char) -> (r: bool)
    ensures
        r == splits(c),
{
    crate::text::space(c) || c == '<'
}

/// Whether an SVG is trying to be a program.
///
/// Case-insensitive on purpose, and matching on the shape of a handler
/// attribute rather than a list of names: the point is not to catch every
/// trick, it is that a rig's author never had a reason to write any of these.
pub fn looks_like_code(svg: &str) -> (r: bool)
    ensures
        r == code_like(svg@),
{
    let cs = crate::text::chars_of(svg);
    let mut l = String::new();
    let mut low: Vec<char> = Vec::new();
    let mut i: usize = 0;
    while i < cs.len()
        invariant
            i <= cs@.len(),
            cs@ == svg@,
            low@ == lowered(cs@.take(i as int)),
            l@ == low@,
        decreases cs.len() - i,
    {
        let c = lower_of(cs[i]);
        low.push(c);
        crate::text::push_char(&mut l, c);
        proof { assert(lowered(cs@.take(i + 1)) =~= lowered(cs@.take(i as int)).push(c)); }
        i = i + 1;
    }
    proof { assert(cs@.take(cs@.len() as int) =~= cs@); }
    if crate::text::find_text(l.as_str(), "<script").is_some()
        || crate::text::find_text(l.as_str(), "javascript:").is_some()
        || crate::text::find_text(l.as_str(), "<foreignobject").is_some() {
        return true;
    }
    let ghost s = low@;
    let mut i: usize = 0;
    while i < low.len()
        invariant
            i <= low@.len(),
            s == low@,
            s == lowered(svg@),
            forall|k: int| 0 <= k < i ==> !handler_at(s, k),
        decreases low.len() - i,
    {
        if (i == 0 || splitter(low[i - 1])) && low.len() - i >= 2 && low[i] == 'o' && low[i + 1] == 'n' {
            let mut j = i + 2;
            let mut found = false;
            while j < low.len() && !found && !splitter(low[j])
                invariant
                    i + 2 <= j <= low@.len(),
                    s == low@,
                    forall|k: int| i <= k < j ==> !splits(#[trigger] s[k]),
                    found ==> j > i + 2 && s[j - 1] == '=',
                    !found ==> forall|k: int| i + 2 <= k < j ==> s[k] != '=',
                decreases low.len() - j,
            {
                if low[j] == '=' {
                    found = true;
                }
                j = j + 1;
            }
            if found {
                proof {
                    assert(s[i as int] == 'o' && s[i + 1] == 'n');
                    assert(forall|k: int| i <= k <= j - 1 ==> !splits(#[trigger] s[k]));
                    assert(handler_at(s, i as int));
                }
                return true;
            }
            proof {
                assert(!handler_at(s, i as int)) by {
                    if handler_at(s, i as int) {
                        let jj = choose|jj: int| i + 2 <= jj < s.len() && s[jj] == '=' && forall|k: int| i <= k <= jj ==> !splits(#[trigger] s[k]);
                        if jj < j {
                        } else {
                            assert(!splits(s[j as int]) ==> j < s.len());
                            assert(j < s.len() ==> splits(s[j as int]));
                        }
                    }
                }
            }
        }
        i = i + 1;
    }
    false
}

} // verus!

verus! {

/// What a `rig.yaml` says, before anything in it is checked against the
/// folder.
///
/// The file is flat: scalars, one nested map, and two lists of plain
/// strings. The idle timings are kept as written, every one in file order:
/// each is read as an interval by whoever holds a clock, and the last one
/// that reads as one wins.
pub struct Manifest {
    pub name: String,
    pub description: String,
    pub expressions: Vec<String>,
    pub gestures: Vec<String>,
    pub gaze: bool,
    pub blink_every: Vec<String>,
    pub breathe_per_min: u32,
    pub settle_after: Vec<String>,
    pub sleep_after: Vec<String>,
}

/// Where the reader is, as the contracts see it: what it has read, which
/// list a `- item` goes to (none, expressions, gestures), and whether it is
/// inside `idle:`.
#[verifier::ext_equal]
pub struct Reading {
    pub name: Seq<char>,
    pub description: Seq<char>,
    pub expressions: Seq<Seq<char>>,
    pub gestures: Seq<Seq<char>>,
    pub gaze: bool,
    pub blinks: Seq<Seq<char>>,
    pub breathe: u32,
    pub settles: Seq<Seq<char>>,
    pub sleeps: Seq<Seq<char>>,
    pub list: nat,
    pub in_idle: bool,
}

/// Nothing read yet: the rig is named after its folder and breathes at the
/// resting rate.
pub open spec fn fresh(id: Seq<char>) -> Reading {
    Reading {
        name: id,
        description: seq![],
        expressions: seq![],
        gestures: seq![],
        gaze: false,
        blinks: seq![],
        breathe: 13,
        settles: seq![],
        sleeps: seq![],
        list: 0,
        in_idle: false,
    }
}

/// The number `u32::from_str` reads, if it reads one.
pub open spec fn small_number(v: Seq<char>) -> Option<u32> {
    match unsigned_text(v) {
        Some(n) => if n <= u32::MAX { Some(n as u32) } else { None },
        None => None,
    }
}

/// What a `key: value` line does.
pub open spec fn keyed(r: Reading, key: Seq<char>, value: Seq<char>) -> Reading {
    if r.in_idle && key == "blinkEvery"@ {
        Reading { blinks: r.blinks.push(value), ..r }
    } else if r.in_idle && key == "breathe"@ {
        if value == "false"@ { Reading { breathe: 0, ..r } } else { r }
    } else if r.in_idle && key == "breathePerMin"@ {
        match small_number(value) {
            Some(n) => Reading { breathe: n, ..r },
            None => r,
        }
    } else if r.in_idle && key == "settleAfter"@ {
        Reading { settles: r.settles.push(value), ..r }
    } else if r.in_idle && key == "sleepAfter"@ {
        Reading { sleeps: r.sleeps.push(value), ..r }
    } else if key == "name"@ {
        Reading { name: value, ..r }
    } else if key == "description"@ {
        Reading { description: value, ..r }
    } else if key == "gaze"@ {
        Reading { gaze: value == "true"@, ..r }
    } else if key == "idle"@ {
        Reading { in_idle: true, ..r }
    } else if key == "expressions"@ || key == "gestures"@ {
        // `gestures: []` is an empty list said on one line.
        Reading { list: if value == "[]"@ { 0 } else if key == "expressions"@ { 1 } else { 2 }, ..r }
    } else {
        r
    }
}

/// Whether a line, comment and spaces taken off, is a `- item`.
pub open spec fn is_item(t: Seq<char>) -> bool {
    t.len() >= 2 && t[0] == '-' && t[1] == ' '
}

/// What one line does to what has been read. A line that is not indented
/// ends any list and the `idle:` map before its key is read.
pub open spec fn read_line(r: Reading, raw: Seq<char>) -> Reading {
    let line = uncommented(raw);
    let t = trim_of(line);
    if t.len() == 0 {
        r
    } else if is_item(t) {
        let item = unquoted(trim_of(t.skip(2)));
        if r.list == 1 {
            Reading { expressions: r.expressions.push(item), ..r }
        } else if r.list == 2 {
            Reading { gestures: r.gestures.push(item), ..r }
        } else {
            r
        }
    } else {
        match entry(raw) {
            None => r,
            Some((key, value)) => {
                let base = if line.len() > 0 && line[0] == ' ' { r } else { Reading { list: 0, in_idle: false, ..r } };
                keyed(base, key, value)
            },
        }
    }
}

pub open spec fn read_manifest(id: Seq<char>, lines: Seq<Seq<char>>) -> Reading
    decreases lines.len(),
{
    if lines.len() == 0 {
        fresh(id)
    } else {
        read_line(read_manifest(id, lines.drop_last()), lines.last())
    }
}

/// What the manifest text of the rig in folder `id` says.
pub open spec fn manifest_in(text: Seq<char>, id: Seq<char>) -> Reading {
    read_manifest(id, split_on(text, '\n'))
}

pub open spec fn reading_of(m: Manifest, list: nat, in_idle: bool) -> Reading {
    Reading {
        name: m.name@,
        description: m.description@,
        expressions: views(m.expressions@),
        gestures: views(m.gestures@),
        gaze: m.gaze,
        blinks: views(m.blink_every@),
        breathe: m.breathe_per_min,
        settles: views(m.settle_after@),
        sleeps: views(m.sleep_after@),
        list,
        in_idle,
    }
}

/// The line with any comment taken off.
fn uncomment(raw: &str) -> (r: String)
    ensures
        r@ == uncommented(raw@),
{
    let n = char_count(raw);
    match find_text(raw, "#") {
        Some(i) => {
            proof {
                crate::run::blocks::lemma_found_fits(raw@, "#"@, 0);
                reveal_strlit("#");
            }
            let r = slice(raw, 0, i);
            proof { assert(raw@.subrange(0, i as int) =~= raw@.take(i as int)); }
            r
        }
        None => {
            let r = slice(raw, 0, n);
            proof { assert(raw@.subrange(0, n as int) =~= raw@); }
            r
        }
    }
}

fn push_view(v: &mut Vec<String>, s: String)
    ensures
        views(final(v)@) == views(old(v)@).push(s@),
{
    let ghost before = views(v@);
    v.push(s);
    proof { assert(views(v@) =~= before.push(s@)); }
}

/// Read a `rig.yaml`. A line the reader does not understand is passed over:
/// the manifest is content, and a rig with an odd line still loads.
pub fn read_rig_manifest(text: &str, id: &str) -> (m: Manifest)
    ensures
        ({
            let r = manifest_in(text@, id@);
            reading_of(m, r.list, r.in_idle) == r
        }),
{
    let lines = split_char(text, '\n');
    let mut m = Manifest {
        name: owned(id),
        description: String::new(),
        expressions: Vec::new(),
        gestures: Vec::new(),
        gaze: false,
        blink_every: Vec::new(),
        breathe_per_min: BREATHE_PER_MIN,
        settle_after: Vec::new(),
        sleep_after: Vec::new(),
    };
    let mut list: u8 = 0;
    let mut in_idle = false;
    proof {
        assert(views(lines@).take(0) =~= Seq::<Seq<char>>::empty());
        assert(reading_of(m, 0, false) =~= fresh(id@));
    }
    let mut i: usize = 0;
    while i < lines.len()
        invariant
            i <= lines@.len(),
            views(lines@) == split_on(text@, '\n'),
            list <= 2,
            reading_of(m, list as nat, in_idle) == read_manifest(id@, views(lines@).take(i as int)),
        decreases lines.len() - i,
    {
        let ghost before = reading_of(m, list as nat, in_idle);
        proof {
            assert(views(lines@).take(i + 1).drop_last() =~= views(lines@).take(i as int));
            assert(views(lines@).take(i + 1).last() == lines@[i as int]@);
        }
        let raw = lines[i].as_str();
        let line = uncomment(raw);
        let t = trimmed(line.as_str());
        let tc = crate::text::chars_of(t.as_str());
        if tc.len() == 0 {
        } else if tc.len() >= 2 && tc[0] == '-' && tc[1] == ' ' {
            let rest = slice(t.as_str(), 2, tc.len());
            proof { assert(t@.subrange(2, t@.len() as int) =~= t@.skip(2)); }
            let inner = trimmed(rest.as_str());
            let item = crate::settings::unquote(inner.as_str());
            if list == 1 {
                push_view(&mut m.expressions, item);
            } else if list == 2 {
                push_view(&mut m.gestures, item);
            }
        } else {
            match crate::settings::entry_of(raw) {
                None => {},
                Some((key, value)) => {
                    let lc = crate::text::chars_of(line.as_str());
                    if !(lc.len() > 0 && lc[0] == ' ') {
                        list = 0;
                        in_idle = false;
                    }
                    if in_idle && same(key.as_str(), "blinkEvery") {
                        push_view(&mut m.blink_every, value);
                    } else if in_idle && same(key.as_str(), "breathe") {
                        if same(value.as_str(), "false") {
                            m.breathe_per_min = 0;
                        }
                    } else if in_idle && same(key.as_str(), "breathePerMin") {
                        match parse_u64(value.as_str()) {
                            Some(n) => {
                                if n <= 4294967295 {
                                    m.breathe_per_min = n as u32;
                                }
                            },
                            None => {},
                        }
                    } else if in_idle && same(key.as_str(), "settleAfter") {
                        push_view(&mut m.settle_after, value);
                    } else if in_idle && same(key.as_str(), "sleepAfter") {
                        push_view(&mut m.sleep_after, value);
                    } else if same(key.as_str(), "name") {
                        m.name = value;
                    } else if same(key.as_str(), "description") {
                        m.description = value;
                    } else if same(key.as_str(), "gaze") {
                        m.gaze = same(value.as_str(), "true");
                    } else if same(key.as_str(), "idle") {
                        in_idle = true;
                    } else if same(key.as_str(), "expressions") || same(key.as_str(), "gestures") {
                        list = if same(value.as_str(), "[]") { 0 } else if same(key.as_str(), "expressions") { 1 } else { 2 };
                    }
                },
            }
        }
        proof {
            assert(reading_of(m, list as nat, in_idle) =~= read_line(before, lines@[i as int]@));
        }
        i = i + 1;
    }
    proof { assert(views(lines@).take(lines@.len() as int) =~= views(lines@)); }
    m
}

} // verus!

verus! {

/// The expressions whose drawing is in the folder, in manifest order.
pub open spec fn drawn(es: Seq<Seq<char>>, present: Seq<bool>) -> Seq<Seq<char>>
    decreases es.len(),
{
    if es.len() == 0 {
        seq![]
    } else {
        let rest = drawn(es.drop_last(), present.drop_last());
        if present.last() { rest.push(es.last()) } else { rest }
    }
}

pub open spec fn no_states_text(folder: Seq<char>) -> Seq<char> {
    folder + " has a manifest but no states: expected files like states/neutral.svg"@
}

/// The rig a manifest describes, once the folder has been looked in.
/// `present` says, expression by expression, whether its drawing exists.
///
/// A manifest that promises an expression the folder does not have would put
/// it in the model's vocabulary and then fail when it was asked for, so what
/// is on disk is what the rig can do; a rig left with nothing it can draw is
/// an error. The idle timings are the manifest's, read by the caller.
pub fn assemble(m: Manifest, id: &str, folder: &str, present: &Vec<bool>, blink: Span, settle: Span, sleep: Span) -> (r: Result<Rig, String>)
    requires
        present@.len() == m.expressions@.len(),
    ensures
        match r {
            Ok(rig) => {
                &&& drawn(views(m.expressions@), present@).len() > 0
                &&& rig.id@ == id@
                &&& rig.name@ == m.name@
                &&& rig.description@ == m.description@
                &&& views(rig.expressions@) == drawn(views(m.expressions@), present@)
                &&& views(rig.gestures@) == views(m.gestures@)
                &&& rig.gaze == m.gaze
                &&& rig.idle == (Idle { blink_every: blink, breathe_per_min: m.breathe_per_min, settle_after: settle, sleep_after: sleep })
                &&& rig.folder@ == folder@
            },
            Err(e) => drawn(views(m.expressions@), present@).len() == 0 && e@ == no_states_text(folder@),
        },
{
    let ghost es = views(m.expressions@);
    let mut kept: Vec<String> = Vec::new();
    let mut i: usize = 0;
    proof {
        assert(es.take(0) =~= Seq::<Seq<char>>::empty());
    }
    while i < m.expressions.len()
        invariant
            i <= m.expressions@.len(),
            es == views(m.expressions@),
            present@.len() == m.expressions@.len(),
            views(kept@) == drawn(es.take(i as int), present@.take(i as int)),
        decreases m.expressions.len() - i,
    {
        proof {
            assert(es.take(i + 1).drop_last() =~= es.take(i as int));
            assert(present@.take(i + 1).drop_last() =~= present@.take(i as int));
        }
        if present[i] {
            push_view(&mut kept, m.expressions[i].clone());
        }
        i = i + 1;
    }
    proof {
        assert(es.take(es.len() as int) =~= es);
        assert(present@.take(present@.len() as int) =~= present@);
    }
    if kept.len() == 0 {
        let mut e = owned(folder);
        append(&mut e, " has a manifest but no states: expected files like states/neutral.svg");
        return Err(e);
    }
    Ok(Rig {
        id: owned(id),
        name: m.name,
        description: m.description,
        expressions: kept,
        gestures: m.gestures,
        gaze: m.gaze,
        idle: Idle { blink_every: blink, breathe_per_min: m.breathe_per_min, settle_after: settle, sleep_after: sleep },
        folder: owned(folder),
    })
}

pub open spec fn names_of(rigs: Seq<Rig>) -> Seq<Seq<char>> {
    rigs.map_values(|r: Rig| r.name@)
}

/// The order a folder of rigs is listed in: by name, and where two share a
/// name, the order they were found in.
pub fn rig_order(rigs: &Vec<Rig>) -> (order: Vec<usize>)
    ensures
        crate::text::stable_order(names_of(rigs@), order@),
{
    let mut names: Vec<String> = Vec::new();
    let mut i: usize = 0;
    while i < rigs.len()
        invariant
            i <= rigs@.len(),
            views(names@) == names_of(rigs@).take(i as int),
        decreases rigs.len() - i,
    {
        push_view(&mut names, rigs[i].name.clone());
        proof { assert(names_of(rigs@).take(i + 1) =~= names_of(rigs@).take(i as int).push(rigs@[i as int].name@)); }
        i = i + 1;
    }
    proof { assert(names_of(rigs@).take(rigs@.len() as int) =~= names_of(rigs@)); }
    crate::text::stable_order_of(&names)
}

} // verus!

verus! {

/// The value of one hexadecimal digit, written as its ASCII byte.
pub open spec fn hex_value(b: u8) -> Option<nat> {
    if 0x30 <= b <= 0x39 {
        Some((b - 0x30) as nat)
    } else if 0x61 <= b <= 0x66 {
        Some((b - 0x61 + 10) as nat)
    } else if 0x41 <= b <= 0x46 {
        Some((b - 0x41 + 10) as nat)
    } else {
        None
    }
}

/// One colour channel: two hexadecimal digits, or a plus sign and one digit,
/// as a number in base sixteen reads them; anything else counts as none of
/// that colour.
pub open spec fn channel(a: u8, b: u8) -> nat {
    if a == 0x2b {
        match hex_value(b) {
            Some(v) => v,
            None => 0,
        }
    } else {
        match (hex_value(a), hex_value(b)) {
            (Some(x), Some(y)) => 16 * x + y,
            _ => 0,
        }
    }
}

/// How bright a `#rrggbb` fill is, weighting green most and blue least.
/// Anything that is not seven bytes starting with `#` counts as as bright as
/// can be, so a named colour is never taken for "off".
pub open spec fn luminance_of(fill: Seq<u8>) -> nat {
    if fill.len() == 7 && fill[0] == 0x23 {
        channel(fill[1], fill[2]) * 299 + channel(fill[3], fill[4]) * 587 + channel(fill[5], fill[6]) * 114
    } else {
        0xffff_ffff
    }
}

/// The channels are cut at byte offsets; a cut inside a character is not one
/// the text can take.
pub open spec fn cuts_fit(fill: Seq<u8>) -> bool {
    fill.len() == 7 && fill[0] == 0x23 ==> !vstd::utf8::is_continuation_byte(fill[3])
        && !vstd::utf8::is_continuation_byte(fill[5])
}

fn hex_digit(b: u8) -> (v: Option<u32>)
    ensures
        match hex_value(b) {
            Some(n) => v == Some(n as u32),
            None => v is None,
        },
{
    if 0x30 <= b && b <= 0x39 {
        Some((b - 0x30) as u32)
    } else if 0x61 <= b && b <= 0x66 {
        Some((b - 0x61 + 10) as u32)
    } else if 0x41 <= b && b <= 0x46 {
        Some((b - 0x41 + 10) as u32)
    } else {
        None
    }
}

fn channel_at(a: u8, b: u8) -> (v: u32)
    ensures
        v == channel(a, b),
        v <= 255,
{
    if a == 0x2b {
        match hex_digit(b) {
            Some(d) => d,
            None => 0,
        }
    } else {
        match (hex_digit(a), hex_digit(b)) {
            (Some(x), Some(y)) => 16 * x + y,
            _ => 0,
        }
    }
}

/// Roughly how bright a `#rrggbb` fill is, so that the darkest cell of a
/// drawn matrix can be told from the lit ones.
pub fn luminance(fill: &str) -> (l: u32)
    requires
        cuts_fit(fill.spec_bytes()),
    ensures
        l == luminance_of(fill.spec_bytes()),
{
    let b = fill.as_bytes();
    if b.len() != 7 || b[0] != 0x23 {
        return 0xffff_ffff;
    }
    let r = channel_at(b[1], b[2]);
    let g = channel_at(b[3], b[4]);
    let u = channel_at(b[5], b[6]);
    r * 299 + g * 587 + u * 114
}

} // verus!

verus! {

/// A character as `to_ascii_uppercase` leaves it.
pub open spec fn upper(c: char) -> char {
    if 'a' <= c && c <= 'z' { ((c as int) - 32) as char } else { c }
}

pub open spec fn uppered(s: Seq<char>) -> Seq<char> {
    s.map_values(|c: char| upper(c))
}

proof fn lemma_lowered_of_cased(s: Seq<char>)
    ensures
        lowered(lowered(s)) == lowered(s),
        lowered(uppered(s)) == lowered(s),
{
    assert forall|i: int| 0 <= i < s.len() implies #[trigger] lower(lower(s[i])) == lower(s[i]) && lower(upper(s[i])) == lower(s[i]) by {
        let c = s[i];
        if 'A' <= c && c <= 'Z' {
            assert((((c as int) + 32) as char) as int == (c as int) + 32);
        }
        if 'a' <= c && c <= 'z' {
            assert((((c as int) - 32) as char) as int == (c as int) - 32);
            assert((((((c as int) - 32) as char) as int) + 32) as char == c);
        }
    }
    assert(lowered(lowered(s)) =~= lowered(s));
    assert(lowered(uppered(s)) =~= lowered(s));
}

/// Whether a drawing is code does not depend on case: lower-casing or
/// upper-casing it leaves the answer as it was.
pub proof fn law_code_ignores_case(svg: Seq<char>)
    ensures
        code_like(lowered(svg)) == code_like(svg),
        code_like(uppered(svg)) == code_like(svg),
{
    lemma_lowered_of_cased(svg);
}

} // verus!

verus! {

/// Whether a line of a manifest sets this key.
pub open spec fn sets(raw: Seq<char>, key: Seq<char>) -> bool {
    entry(raw) matches Some(kv) && kv.0 == key
}

/// The manifest reader never fails, and a rig is named after its folder
/// unless a `name:` line names it.
pub proof fn law_manifest_named_by_folder(id: Seq<char>, lines: Seq<Seq<char>>)
    requires
        forall|i: int| 0 <= i < lines.len() ==> !sets(#[trigger] lines[i], "name"@),
    ensures
        read_manifest(id, lines).name == id,
    decreases lines.len(),
{
    if lines.len() > 0 {
        let r = lines.drop_last();
        assert forall|i: int| 0 <= i < r.len() implies !sets(#[trigger] r[i], "name"@) by {
            assert(r[i] == lines[i]);
        }
        law_manifest_named_by_folder(id, r);
        assert(!sets(lines[lines.len() - 1], "name"@));
    }
}

/// A manifest that sets none of the idle timings leaves them as they rest:
/// no timings to read and the resting breath.
pub proof fn law_manifest_idle_defaults(id: Seq<char>, lines: Seq<Seq<char>>)
    requires
        forall|i: int| 0 <= i < lines.len() ==> {
            let l = #[trigger] lines[i];
            !sets(l, "blinkEvery"@) && !sets(l, "breathe"@) && !sets(l, "breathePerMin"@)
                && !sets(l, "settleAfter"@) && !sets(l, "sleepAfter"@)
        },
    ensures
        read_manifest(id, lines).blinks.len() == 0,
        read_manifest(id, lines).settles.len() == 0,
        read_manifest(id, lines).sleeps.len() == 0,
        read_manifest(id, lines).breathe == BREATHE_PER_MIN,
    decreases lines.len(),
{
    if lines.len() > 0 {
        let r = lines.drop_last();
        assert forall|i: int| 0 <= i < r.len() implies {
            let l = #[trigger] r[i];
            !sets(l, "blinkEvery"@) && !sets(l, "breathe"@) && !sets(l, "breathePerMin"@)
                && !sets(l, "settleAfter"@) && !sets(l, "sleepAfter"@)
        } by {
            assert(r[i] == lines[i]);
        }
        law_manifest_idle_defaults(id, r);
        let last = lines[lines.len() - 1];
        assert(!sets(last, "blinkEvery"@) && !sets(last, "breathe"@) && !sets(last, "breathePerMin"@)
            && !sets(last, "settleAfter"@) && !sets(last, "sleepAfter"@));
    }
}

} // verus!

verus! {

/// An empty manifest reads as nothing said: the rig is named after its
/// folder, has no expressions or gestures, and rests.
pub proof fn law_empty_manifest(id: Seq<char>)
    ensures
        manifest_in(Seq::<char>::empty(), id) == fresh(id),
{
    let e = Seq::<char>::empty();
    assert(crate::text::last_index(e, '\n') is None);
    assert(split_on(e, '\n') == seq![e]);
    let lines = seq![e];
    assert(lines.drop_last() =~= Seq::<Seq<char>>::empty());
    assert(read_manifest(id, lines.drop_last()) == fresh(id));
    let u = uncommented(e);
    assert(crate::text::first_index(e, "#"@) is None) by {
        reveal_strlit("#");
    }
    assert(u =~= e);
    assert(crate::text::trim_end_of(e) == e);
    assert(crate::text::trim_start_of(e) == e);
    assert(trim_of(u).len() == 0);
    assert(read_line(fresh(id), e) == fresh(id));
}

} // verus!
