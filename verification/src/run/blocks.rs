//! What each kind of block does, where the doing is a function of what the
//! block was given.
//!
//! A step runs once, in order, taking values from its wired inputs; a
//! capability answers calls, and only when a holder makes one. A Terminal is
//! either, and both paths produce the same `Output`, read back the same way.
use vstd::prelude::*;
use crate::text::{
    all_space, append, char_count, count_lines, decimal, decimal_wide, find_text, first_index, is_blank,
    join_path, joined, last_line, last_said, line_count, owned, same, signed, signed_of, slice, trim_end_of, trim_of, trimmed, trimmed_end,
};

verus! {

/// What running something produced.
#[derive(Debug, Clone, PartialEq, Eq)]
pub struct Output {
    pub stdout: String,
    pub stderr: String,
    pub code: i32,
    pub ms: u32,
}

/// What a model reads back from a tool call: the exit code in words, then
/// each stream that has something in it.
pub open spec fn tool_result_text(stdout: Seq<char>, stderr: Seq<char>, code: int) -> Seq<char> {
    let head = "exit "@ + signed(code);
    let with_out = if all_space(stdout) { head } else { head + "\nstdout:\n"@ + trim_end_of(stdout) };
    if all_space(stderr) { with_out } else { with_out + "\nstderr:\n"@ + trim_end_of(stderr) }
}

/// The line a block shows inline while the run is in flight.
pub open spec fn figure_text(stdout: Seq<char>, stderr: Seq<char>, code: int) -> Seq<char> {
    let lines = line_count(stdout) + line_count(stderr);
    if code == 0 {
        "exit 0 · "@ + decimal(lines) + (if lines == 1 { " line"@ } else { " lines"@ })
    } else {
        "exit "@ + signed(code)
    }
}

impl Output {
    /// What a model reads back from a tool call.
    ///
    /// The exit code is included in words rather than left to be inferred
    /// from an empty stdout: the whole point of the triage example is that
    /// the model reads a failure and reasons about it.
    pub fn as_tool_result(&self) -> (s: String)
        ensures
            s@ == tool_result_text(self.stdout@, self.stderr@, self.code as int),
    {
        let mut out = owned("exit ");
        let code = signed_of(self.code as i64);
        append(&mut out, code.as_str());
        if !is_blank(self.stdout.as_str()) {
            append(&mut out, "\nstdout:\n");
            let body = trimmed_end(self.stdout.as_str());
            append(&mut out, body.as_str());
        }
        if !is_blank(self.stderr.as_str()) {
            append(&mut out, "\nstderr:\n");
            let body = trimmed_end(self.stderr.as_str());
            append(&mut out, body.as_str());
        }
        out
    }

    /// The line the block shows inline while the run is in flight.
    pub fn figure(&self) -> (s: String)
        ensures
            s@ == figure_text(self.stdout@, self.stderr@, self.code as int),
    {
        if self.code == 0 {
            let lines = count_lines(self.stdout.as_str()) as u128 + count_lines(self.stderr.as_str()) as u128;
            let mut out = owned("exit 0 · ");
            let n = decimal_wide(lines);
            append(&mut out, n.as_str());
            append(&mut out, if lines == 1 { " line" } else { " lines" });
            out
        } else {
            let mut out = owned("exit ");
            let code = signed_of(self.code as i64);
            append(&mut out, code.as_str());
            out
        }
    }

    pub fn ok(&self) -> (r: bool)
        ensures
            r == (self.code == 0),
    {
        self.code == 0
    }
}

/// A tool result that is a sentence rather than a process: memory has no
/// exit code and no stderr, and dressing it as a finished command would put
/// `exit 0` in front of it.
pub fn said(what: String) -> (o: Output)
    ensures
        o.stdout@ == what@,
        o.stderr@ == Seq::<char>::empty(),
        o.code == 0,
        o.ms == 0,
{
    Output { stdout: what, stderr: String::new(), code: 0, ms: 0 }
}

/// The kinds that are memory: a store, or a hub that bundles stores.
pub open spec fn memory_kind(kind: Seq<char>) -> bool {
    kind == "memory-hub"@ || kind == "working-memory"@ || kind == "long-term-memory"@ || kind == "episode-log"@
}

pub fn is_memory(kind: &str) -> (r: bool)
    ensures
        r == memory_kind(kind@),
{
    same(kind, "memory-hub") || same(kind, "working-memory") || same(kind, "long-term-memory") || same(kind, "episode-log")
}

/// A tool a block offers a model: its name as a person reads it, and what it
/// says it does.
pub struct Offer {
    pub name: String,
    pub description: String,
}

pub open spec fn terminal_description(default: Option<Seq<char>>) -> Seq<char> {
    match default {
        Some(d) => "Run a shell command and return its output and exit code. With no command given, runs `"@ + d + "`."@,
        None => "Run a shell command and return its output and exit code."@,
    }
}

pub open spec fn python_description() -> Seq<char> {
    "Run Python in the workspace environment and return what it printed."@
}

/// The tools a block of this kind offers: a Terminal offers `run`, Python offers `exec`, and a kind with no callable
/// form offers nothing, so it stays out of a model's tool list rather than
/// being offered and then failing when called.
pub open spec fn offers(id: Seq<char>, kind: Seq<char>, default: Option<Seq<char>>) -> Seq<(Seq<char>, Seq<char>)> {
    if kind == "terminal"@ {
        seq![(id + ".run"@, terminal_description(default))]
    } else if kind == "python"@ {
        seq![(id + ".exec"@, python_description())]
    } else {
        seq![]
    }
}

pub fn tools_of(id: &str, kind: &str, default_command: Option<&str>) -> (v: Vec<Offer>)
    ensures
        v@.map_values(|o: Offer| (o.name@, o.description@)) == offers(id@, kind@, match default_command {
            Some(d) => Some(d@),
            None => None,
        }),
{
    let mut v: Vec<Offer> = Vec::new();
    if same(kind, "terminal") {
        let mut name = owned(id);
        append(&mut name, ".run");
        let description = match default_command {
            Some(d) => {
                let mut s = owned("Run a shell command and return its output and exit code. With no command given, runs `");
                append(&mut s, d);
                append(&mut s, "`.");
                s
            }
            None => owned("Run a shell command and return its output and exit code."),
        };
        v.push(Offer { name, description });
    } else if same(kind, "python") {
        let mut name = owned(id);
        append(&mut name, ".exec");
        v.push(Offer { name, description: owned("Run Python in the workspace environment and return what it printed.") });
    }
    proof {
        assert(v@.map_values(|o: Offer| (o.name@, o.description@)) =~= offers(id@, kind@, match default_command {
            Some(d) => Some(d@),
            None => None,
        }));
    }
    v
}

} // verus!

verus! {

/// How a Branch compares a field with what it wants.
#[derive(Debug, Clone, Copy, PartialEq, Eq, Structural)]
pub enum Test {
    Equal,
    NotEqual,
    AtLeast,
    AtMost,
    Above,
    Below,
}

/// The operator a test is written with.
pub open spec fn op_text(t: Test) -> Seq<char> {
    match t {
        Test::Equal => "=="@,
        Test::NotEqual => "!="@,
        Test::AtLeast => ">="@,
        Test::AtMost => "<="@,
        Test::Above => ">"@,
        Test::Below => "<"@,
    }
}

/// The operators in the order they are looked for: the two-character ones
/// first, so `>=` is never read as `>` followed by `=`.
pub open spec fn test_order() -> Seq<Test> {
    seq![Test::Equal, Test::NotEqual, Test::AtLeast, Test::AtMost, Test::Above, Test::Below]
}

/// The first operator, in that order, that the condition holds, and where.
pub open spec fn first_test(text: Seq<char>, k: int) -> Option<(Test, int)>
    decreases 6 - k,
{
    if k < 0 || k >= 6 {
        None
    } else {
        match first_index(text, op_text(test_order()[k])) {
            Some(i) => Some((test_order()[k], i)),
            None => first_test(text, k + 1),
        }
    }
}

/// A Branch's condition, read.
#[derive(Debug, Clone, PartialEq, Eq)]
pub enum Condition {
    /// Empty: a Branch nobody configured takes its first path.
    Always,
    /// `field == "value"`, `score > 0.5`: a field against what it should be.
    /// The wanted text is as written, quotes and all.
    Compare { field: String, test: Test, want: String },
    /// A bare field name, read for truth.
    Truth { field: String },
}

pub open spec fn condition_of(condition: Option<Seq<char>>) -> (bool, Option<(Test, int)>, Seq<char>) {
    match condition {
        None => (true, None, seq![]),
        Some(c) => {
            let t = trim_of(c);
            (t.len() == 0, first_test(t, 0), t)
        },
    }
}

fn op_of(t: Test) -> (s: &'static str)
    ensures
        s@ == op_text(t),
{
    match t {
        Test::Equal => "==",
        Test::NotEqual => "!=",
        Test::AtLeast => ">=",
        Test::AtMost => "<=",
        Test::Above => ">",
        Test::Below => "<",
    }
}

fn test_at(k: usize) -> (t: Test)
    requires
        k < 6,
    ensures
        t == test_order()[k as int],
{
    if k == 0 { Test::Equal } else if k == 1 { Test::NotEqual } else if k == 2 { Test::AtLeast }
    else if k == 3 { Test::AtMost } else if k == 4 { Test::Above } else { Test::Below }
}

/// Read a Branch's condition.
///
/// Deliberately small: `field == "value"`, `field != "value"`, a comparison
/// against a number, or a bare field name read for truth. A graph whose logic
/// has outgrown that wants a custom block, written in a language with a
/// debugger rather than in a text field.
pub fn parse_condition(condition: Option<&str>) -> (c: Condition)
    ensures
        ({
            let (empty, found, t) = condition_of(match condition { Some(x) => Some(x@), None => None });
            match c {
                Condition::Always => empty,
                Condition::Compare { field, test, want } => !empty && (found matches Some((tt, i)) && tt == test
                    && field@ == trim_of(t.take(i)) && want@ == trim_of(t.skip(i + op_text(test).len()))),
                Condition::Truth { field } => !empty && found is None && field@ == t,
            }
        }),
{
    let text = match condition {
        None => { return Condition::Always; }
        Some(x) => trimmed(x),
    };
    if char_count(text.as_str()) == 0 {
        return Condition::Always;
    }
    let ghost t = text@;
    let mut k: usize = 0;
    while k < 6
        invariant
            k <= 6,
            text@ == t,
            t.len() > 0,
            condition matches Some(x) && t == trim_of(x@),
            first_test(t, 0) == first_test(t, k as int),
        decreases 6 - k,
    {
        let test = test_at(k);
        let op = op_of(test);
        match find_text(text.as_str(), op) {
            Some(i) => {
                let n = char_count(text.as_str());
                let m = char_count(op);
                proof { assert(i + m <= n) by { assert(first_index(t, op@) == Some(i as int)); lemma_found_fits(t, op@, 0); } }
                let left = slice(text.as_str(), 0, i);
                let right = slice(text.as_str(), i + m, n);
                let field = trimmed(left.as_str());
                let want = trimmed(right.as_str());
                proof {
                    assert(first_test(t, k as int) == Some((test, i as int)));
                    assert(op@ == op_text(test));
                    assert(t.subrange(0, i as int) =~= t.take(i as int));
                    assert(t.subrange(i + m, n as int) =~= t.skip(i + m));
                }
                proof {
                    let cv = condition_of(match condition { Some(x) => Some(x@), None => None });
                    assert(cv.2 == t);
                    assert(!cv.0);
                    assert(cv.1 == Some((test, i as int)));
                    assert(field@ == trim_of(t.take(i as int)));
                    assert(want@ == trim_of(t.skip(i + op_text(test).len())));
                }
                return Condition::Compare { field, test, want };
            }
            None => {}
        }
        k = k + 1;
    }
    Condition::Truth { field: text }
}

pub proof fn lemma_found_fits(s: Seq<char>, pat: Seq<char>, i: int)
    ensures
        crate::text::find_from(s, pat, i) matches Some(j) ==> j >= i && j + pat.len() <= s.len(),
    decreases s.len() + 1 - i,
{
    if !(i < 0 || i + pat.len() > s.len()) && !crate::text::occurs_at(s, pat, i) {
        lemma_found_fits(s, pat, i + 1);
    }
}

/// Whether a field read for truth holds: anything but empty, `false`, `0`,
/// `null` or `none`.
pub open spec fn truthy_text(got: Seq<char>) -> bool {
    !(got == ""@ || got == "false"@ || got == "0"@ || got == "null"@ || got == "none"@)
}

pub fn truthy(got: &str) -> (r: bool)
    ensures
        r == truthy_text(got@),
{
    !(same(got, "") || same(got, "false") || same(got, "0") || same(got, "null") || same(got, "none"))
}

/// Whether a text comparison holds: equal or not equal, as written. The
/// numeric tests compare numbers, which this leaves to the caller.
pub fn text_test(test: Test, got: &str, want: &str) -> (r: Option<bool>)
    ensures
        test == Test::Equal ==> r == Some(got@ == want@),
        test == Test::NotEqual ==> r == Some(got@ != want@),
        test != Test::Equal && test != Test::NotEqual ==> r is None,
{
    match test {
        Test::Equal => Some(same(got, want)),
        Test::NotEqual => Some(!same(got, want)),
        _ => None,
    }
}

} // verus!

verus! {

/// The Python a block runs with: the `python3` inside the virtual
/// environment its `venv` setting names, against the workspace when the name
/// is relative, or, with no environment set, the one the user is already in.
pub fn python_interpreter(venv: Option<&str>, root: &str) -> (p: String)
    ensures
        p@ == match venv {
            Some(v) => joined(joined(joined(root@, v@), "bin"@), "python3"@),
            None => "python3"@,
        },
{
    match venv {
        Some(v) => {
            let base = join_path(root, v);
            let bin = join_path(base.as_str(), "bin");
            join_path(bin.as_str(), "python3")
        }
        None => owned("python3"),
    }
}

/// What a custom block that failed says: the last line it wrote on stderr
/// that is not blank, which is where an interpreter puts the error itself.
pub fn last_meaningful_line(stderr: &str) -> (m: String)
    ensures
        m@ == match last_said(stderr@) {
            Some(l) => l,
            None => "the block failed with no message"@,
        },
{
    match last_line(stderr) {
        Some(l) => l,
        None => owned("the block failed with no message"),
    }
}

} // verus!

verus! {

/// What a Convert makes of the value it was given.
#[derive(Debug, Clone, Copy, PartialEq, Eq, Structural)]
pub enum Target {
    Text,
    Data,
    File,
}

/// What a block that computes nothing outside itself does.
#[derive(Debug, Clone, PartialEq, Eq)]
pub enum Pure {
    /// An Input: its setting is its value, and an Input with nothing in it
    /// gives empty text — an empty prompt is a reasonable thing to run while
    /// building a graph.
    Input(String),
    /// An Output is a name for a result: it produces nothing, and the run's
    /// results are collected from what arrived at it.
    Output,
    /// A Convert: the value it was given, as this.
    Convert(Target),
    /// A Branch: only the port its condition takes produces anything.
    Branch,
    /// A Merge: whatever arrived.
    Merge,
    /// A Variable: what it was given.
    Variable,
}

/// What the kind of a pure block other than an Input comes to, with the
/// setting a Convert reads, `to`. An image or a sound cannot be conjured from
/// a value that is not already one, and saying so beats producing a broken
/// path.
pub open spec fn pure_of(kind: Seq<char>, to: Option<Seq<char>>) -> Result<Pure, Seq<char>> {
    if kind == "output"@ {
        Ok(Pure::Output)
    } else if kind == "convert"@ {
        let t = match to { Some(t) => t, None => "text"@ };
        if t == "text"@ { Ok(Pure::Convert(Target::Text)) }
        else if t == "data"@ { Ok(Pure::Convert(Target::Data)) }
        else if t == "file"@ { Ok(Pure::Convert(Target::File)) }
        else { Err("converting to "@ + t + " needs a decoder this engine does not have yet"@) }
    } else if kind == "branch"@ {
        Ok(Pure::Branch)
    } else if kind == "merge"@ {
        Ok(Pure::Merge)
    } else if kind == "variable"@ {
        Ok(Pure::Variable)
    } else {
        Err("`"@ + kind + "` is not a kind this engine can run yet"@)
    }
}

pub open spec fn opt_str(o: Option<&str>) -> Option<Seq<char>> {
    match o {
        Some(s) => Some(s@),
        None => None,
    }
}

pub fn pure_kind(kind: &str, value: Option<&str>, to: Option<&str>) -> (r: Result<Pure, String>)
    ensures
        match r {
            Ok(Pure::Input(v)) => kind@ == "input"@ && v@ == match value { Some(x) => x@, None => Seq::<char>::empty() },
            Ok(p) => kind@ != "input"@ && pure_of(kind@, opt_str(to)) == Ok::<Pure, Seq<char>>(p),
            Err(e) => kind@ != "input"@ && pure_of(kind@, opt_str(to)) == Err::<Pure, Seq<char>>(e@),
        },
{
    if same(kind, "input") {
        return Ok(Pure::Input(match value { Some(v) => owned(v), None => String::new() }));
    }
    if same(kind, "output") {
        return Ok(Pure::Output);
    }
    if same(kind, "convert") {
        let t = match to { Some(t) => t, None => "text" };
        proof { reveal_strlit("text"); }
        if same(t, "text") {
            return Ok(Pure::Convert(Target::Text));
        }
        if same(t, "data") {
            return Ok(Pure::Convert(Target::Data));
        }
        if same(t, "file") {
            return Ok(Pure::Convert(Target::File));
        }
        let mut e = owned("converting to ");
        append(&mut e, t);
        append(&mut e, " needs a decoder this engine does not have yet");
        return Err(e);
    }
    if same(kind, "branch") {
        return Ok(Pure::Branch);
    }
    if same(kind, "merge") {
        return Ok(Pure::Merge);
    }
    if same(kind, "variable") {
        return Ok(Pure::Variable);
    }
    let mut e = owned("`");
    append(&mut e, kind);
    append(&mut e, "` is not a kind this engine can run yet");
    Err(e)
}

/// The port a Branch produces on: `a` when its condition holds, `b` when not.
/// The other says nothing, and the runner reads that silence as "not on this
/// path", which is what makes a branch a branch rather than a fork.
pub fn branch_port(holds: bool) -> (p: &'static str)
    ensures
        holds ==> p@ == "a"@,
        !holds ==> p@ == "b"@,
{
    if holds { "a" } else { "b" }
}

} // verus!
