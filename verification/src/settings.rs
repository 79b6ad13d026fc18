//! What a workspace knows about the machine it is on.
//!
//! Two halves, kept apart on purpose. `WorkspaceSettings` is what the user
//! chose, kept in `workspace.yaml` beside the graphs; `Probe` is what is
//! actually installed. The settings screen shows both and never writes the
//! second into the first: an engine that remembered where Python was in
//! March is an engine that is wrong in April.
//!
//! Reading and writing the file, and looking for programs, are the
//! daemon's. The format is here.
use vstd::prelude::*;
use crate::text::{
    append, decimal, decimal_of, find_text, first_index, owned, same, slice, split_char, split_on, trim_of, trimmed,
    char_count, views,
};

verus! {

/// What the user chose.
#[derive(Debug, Clone, PartialEq, Eq)]
pub struct WorkspaceSettings {
    /// Where Python is, or none to use whatever `python3` resolves to.
    pub python: Option<String>,
    /// Where model weights live, or none for the default beside the workspace.
    pub models: Option<String>,
    /// The Ollama endpoint, or none for the local default.
    pub ollama: Option<String>,
    /// What a new graph starts with. On, unless the user has
    /// said otherwise for this workspace.
    pub local_only_default: bool,
    /// The model a new graph starts with.
    pub model: Option<String>,
}

/// The settings as the contracts see them.
pub struct Chosen {
    pub python: Option<Seq<char>>,
    pub models: Option<Seq<char>>,
    pub ollama: Option<Seq<char>>,
    pub local_only_default: bool,
    pub model: Option<Seq<char>>,
}

pub open spec fn opt(o: Option<String>) -> Option<Seq<char>> {
    match o {
        Some(s) => Some(s@),
        None => None,
    }
}

pub open spec fn chosen(s: WorkspaceSettings) -> Chosen {
    Chosen { python: opt(s.python), models: opt(s.models), ollama: opt(s.ollama), local_only_default: s.local_only_default, model: opt(s.model) }
}

pub open spec fn nothing_chosen() -> Chosen {
    Chosen { python: None, models: None, ollama: None, local_only_default: true, model: None }
}

impl Default for WorkspaceSettings {
    fn default() -> (s: WorkspaceSettings)
        ensures
            chosen(s) == nothing_chosen(),
    {
        WorkspaceSettings { python: None, models: None, ollama: None, local_only_default: true, model: None }
    }
}

/// A line with any comment taken off.
pub open spec fn uncommented(raw: Seq<char>) -> Seq<char> {
    match first_index(raw, "#"@) {
        Some(i) => raw.take(i),
        None => raw,
    }
}

pub open spec fn is_quote(c: char) -> bool {
    c == '"' || c == '\''
}

/// A value with its quotes taken off both ends, however many there are.
pub open spec fn unquoted(v: Seq<char>) -> Seq<char> {
    unquoted_end(unquoted_start(v))
}

pub open spec fn unquoted_start(v: Seq<char>) -> Seq<char>
    decreases v.len(),
{
    if v.len() > 0 && is_quote(v[0]) { unquoted_start(v.drop_first()) } else { v }
}

pub open spec fn unquoted_end(v: Seq<char>) -> Seq<char>
    decreases v.len(),
{
    if v.len() > 0 && is_quote(v.last()) { unquoted_end(v.drop_last()) } else { v }
}

/// A line's key and value, if it has a colon.
pub open spec fn entry(raw: Seq<char>) -> Option<(Seq<char>, Seq<char>)> {
    let line = trim_of(uncommented(raw));
    match first_index(line, ":"@) {
        Some(i) => Some((trim_of(line.take(i)), unquoted(trim_of(line.skip(i + 1))))),
        None => None,
    }
}

pub open spec fn some_text(v: Seq<char>) -> Option<Seq<char>> {
    if v.len() == 0 { None } else { Some(v) }
}

/// What one line does to the settings read so far.
pub open spec fn apply(s: Chosen, raw: Seq<char>) -> Chosen {
    match entry(raw) {
        None => s,
        Some((key, value)) => {
            if key == "python"@ { Chosen { python: some_text(value), ..s } }
            else if key == "models"@ { Chosen { models: some_text(value), ..s } }
            else if key == "ollama"@ { Chosen { ollama: some_text(value), ..s } }
            else if key == "model"@ { Chosen { model: some_text(value), ..s } }
            else if key == "localOnlyDefault"@ { Chosen { local_only_default: value != "false"@, ..s } }
            else { s }
        },
    }
}

/// The settings a run of lines leaves, starting from the defaults.
pub open spec fn read_lines(lines: Seq<Seq<char>>) -> Chosen
    decreases lines.len(),
{
    if lines.len() == 0 { nothing_chosen() } else { apply(read_lines(lines.drop_last()), lines.last()) }
}

/// The settings a file's text holds. A key the engine does not know is
/// passed over, and so is a line without a colon.
pub open spec fn settings_in(text: Seq<char>) -> Chosen {
    read_lines(split_on(text, '\n'))
}

pub(crate) fn unquote(v: &str) -> (r: String)
    ensures
        r@ == unquoted(v@),
{
    let cs = crate::text::chars_of(v);
    let mut start: usize = 0;
    proof { assert(cs@.skip(0) =~= cs@); }
    while start < cs.len() && (cs[start] == '"' || cs[start] == '\'')
        invariant
            start <= cs@.len(),
            cs@ == v@,
            unquoted_start(v@) == unquoted_start(cs@.skip(start as int)),
        decreases cs.len() - start,
    {
        proof { assert(cs@.skip(start as int).drop_first() =~= cs@.skip(start + 1)); }
        start = start + 1;
    }
    let mut end = cs.len();
    proof { assert(cs@.subrange(start as int, end as int) =~= cs@.skip(start as int)); }
    while end > start && (cs[end - 1] == '"' || cs[end - 1] == '\'')
        invariant
            start <= end <= cs@.len(),
            cs@ == v@,
            unquoted(v@) == unquoted_end(cs@.subrange(start as int, end as int)),
        decreases end - start,
    {
        proof { assert(cs@.subrange(start as int, end as int).drop_last() =~= cs@.subrange(start as int, end - 1)); }
        end = end - 1;
    }
    slice(v, start, end)
}

/// A line's key and value, if it has a colon.
pub(crate) fn entry_of(raw: &str) -> (r: Option<(String, String)>)
    ensures
        match r {
            Some((k, v)) => entry(raw@) == Some((k@, v@)),
            None => entry(raw@) is None,
        },
{
    let n = char_count(raw);
    let body = match find_text(raw, "#") {
        Some(i) => {
            proof { crate::run::blocks::lemma_found_fits(raw@, "#"@, 0); reveal_strlit("#"); }
            slice(raw, 0, i)
        }
        None => slice(raw, 0, n),
    };
    proof {
        assert(raw@.subrange(0, n as int) =~= raw@);
        if let Some(i) = first_index(raw@, "#"@) { assert(raw@.subrange(0, i) =~= raw@.take(i)); }
    }
    let line = trimmed(body.as_str());
    match find_text(line.as_str(), ":") {
        None => None,
        Some(i) => {
            let m = char_count(line.as_str());
            proof { crate::run::blocks::lemma_found_fits(line@, ":"@, 0); reveal_strlit(":"); }
            let key = slice(line.as_str(), 0, i);
            let value = slice(line.as_str(), i + 1, m);
            proof {
                assert(line@.subrange(0, i as int) =~= line@.take(i as int));
                assert(line@.subrange(i + 1, m as int) =~= line@.skip(i + 1));
            }
            let k = trimmed(key.as_str());
            let t = trimmed(value.as_str());
            Some((k, unquote(t.as_str())))
        }
    }
}

fn some_of(v: String) -> (r: Option<String>)
    ensures
        opt(r) == some_text(v@),
{
    if char_count(v.as_str()) == 0 { None } else { Some(v) }
}

impl WorkspaceSettings {
    /// The settings a `workspace.yaml` holds.
    ///
    /// A workspace with no settings file is not an error and never becomes
    /// one: the daemon reads the defaults for it, and the file appears the
    /// first time something is changed.
    pub fn parse(text: &str) -> (s: WorkspaceSettings)
        ensures
            chosen(s) == settings_in(text@),
    {
        let lines = split_char(text, '\n');
        let mut s = WorkspaceSettings::default();
        let mut i: usize = 0;
        proof { assert(views(lines@).take(0) =~= Seq::<Seq<char>>::empty()); }
        while i < lines.len()
            invariant
                i <= lines@.len(),
                views(lines@) == split_on(text@, '\n'),
                chosen(s) == read_lines(views(lines@).take(i as int)),
            decreases lines.len() - i,
        {
            proof {
                assert(views(lines@).take(i + 1).drop_last() =~= views(lines@).take(i as int));
                assert(views(lines@).take(i + 1).last() == lines@[i as int]@);
            }
            match entry_of(lines[i].as_str()) {
                None => {}
                Some((key, value)) => {
                    if same(key.as_str(), "python") { s.python = some_of(value); }
                    else if same(key.as_str(), "models") { s.models = some_of(value); }
                    else if same(key.as_str(), "ollama") { s.ollama = some_of(value); }
                    else if same(key.as_str(), "model") { s.model = some_of(value); }
                    else if same(key.as_str(), "localOnlyDefault") { s.local_only_default = !same(value.as_str(), "false"); }
                }
            }
            i = i + 1;
        }
        proof { assert(views(lines@).take(lines@.len() as int) =~= views(lines@)); }
        s
    }
}

} // verus!

verus! {

/// What the file says first: what it is for, so someone reading the folder
/// is not left guessing whether it is generated.
pub open spec fn preamble() -> Seq<Seq<char>> {
    seq![
        "# Cyberloom workspace settings."@,
        "#"@,
        "# What you chose, not what is installed: the engine detects Python,"@,
        "# ffmpeg and Ollama every time it starts, and never writes what it"@,
        "# found in here. A path below is an override for this workspace."@
    ]
}

/// The line a chosen value is written as, if there is one.
pub open spec fn value_lines(key: Seq<char>, v: Option<Seq<char>>) -> Seq<Seq<char>> {
    match v {
        Some(x) => seq![key + ": "@ + x],
        None => seq![],
    }
}

/// The lines of the file, in order.
pub open spec fn lines_of(c: Chosen) -> Seq<Seq<char>> {
    preamble() + value_lines("python"@, c.python) + value_lines("models"@, c.models) + value_lines("ollama"@, c.ollama)
        + value_lines("model"@, c.model) + seq!["localOnlyDefault: "@ + if c.local_only_default { "true"@ } else { "false"@ }]
}

/// Lines put together, each ended by a line break.
pub open spec fn text_of(lines: Seq<Seq<char>>) -> Seq<char>
    decreases lines.len(),
{
    if lines.len() == 0 { seq![] } else { text_of(lines.drop_last()) + lines.last() + "\n"@ }
}

fn push_line(out: &mut String, line: &str, Ghost(lines): Ghost<Seq<Seq<char>>>)
    requires
        old(out)@ == text_of(lines),
    ensures
        final(out)@ == text_of(lines.push(line@)),
{
    append(out, line);
    append(out, "\n");
    proof { assert(lines.push(line@).drop_last() =~= lines); }
}

fn push_value(out: &mut String, key: &str, v: &Option<String>, Ghost(lines): Ghost<Seq<Seq<char>>>)
    requires
        old(out)@ == text_of(lines),
    ensures
        final(out)@ == text_of(lines + value_lines(key@, opt(*v))),
{
    match v {
        Some(x) => {
            let mut line = owned(key);
            append(&mut line, ": ");
            append(&mut line, x.as_str());
            push_line(out, line.as_str(), Ghost(lines));
            proof { assert(lines + value_lines(key@, opt(*v)) =~= lines.push(line@)); }
        }
        None => {
            proof { assert(lines + value_lines(key@, opt(*v)) =~= lines); }
        }
    }
}

impl WorkspaceSettings {
    /// The text of `workspace.yaml` for these settings.
    pub fn render(&self) -> (t: String)
        ensures
            t@ == text_of(lines_of(chosen(*self))),
    {
        let c = Ghost(chosen(*self));
        let mut out = String::new();
        let ghost p = preamble();
        let ghost e: Seq<Seq<char>> = seq![];
        proof { reveal_strlit("#"); }
        push_line(&mut out, "# Cyberloom workspace settings.", Ghost(e));
        proof { assert(e.push(p[0]) =~= p.take(1)); }
        push_line(&mut out, "#", Ghost(p.take(1)));
        proof { assert(p.take(1).push(p[1]) =~= p.take(2)); }
        push_line(&mut out, "# What you chose, not what is installed: the engine detects Python,", Ghost(p.take(2)));
        proof { assert(p.take(2).push(p[2]) =~= p.take(3)); }
        push_line(&mut out, "# ffmpeg and Ollama every time it starts, and never writes what it", Ghost(p.take(3)));
        proof { assert(p.take(3).push(p[3]) =~= p.take(4)); }
        push_line(&mut out, "# found in here. A path below is an override for this workspace.", Ghost(p.take(4)));
        proof { assert(p.take(4).push(p[4]) =~= p); }
        let ghost l0 = p;
        push_value(&mut out, "python", &self.python, Ghost(l0));
        let ghost l1 = l0 + value_lines("python"@, c@.python);
        push_value(&mut out, "models", &self.models, Ghost(l1));
        let ghost l2 = l1 + value_lines("models"@, c@.models);
        push_value(&mut out, "ollama", &self.ollama, Ghost(l2));
        let ghost l3 = l2 + value_lines("ollama"@, c@.ollama);
        push_value(&mut out, "model", &self.model, Ghost(l3));
        let ghost l4 = l3 + value_lines("model"@, c@.model);
        let mut last = owned("localOnlyDefault: ");
        append(&mut last, if self.local_only_default { "true" } else { "false" });
        push_line(&mut out, last.as_str(), Ghost(l4));
        proof { assert(l4.push(last@) =~= lines_of(c@)); }
        out
    }
}

} // verus!

verus! {

/// A value the file can hold and give back unchanged: something, on one
/// line, with no comment in it, and nothing at either end that reading
/// would strip — no white space and no quotes.
pub open spec fn clean(v: Seq<char>) -> bool {
    &&& v.len() > 0
    &&& !v.contains('\n')
    &&& !v.contains('#')
    &&& trim_of(v) == v
    &&& unquoted(v) == v
}

pub open spec fn clean_opt(v: Option<Seq<char>>) -> bool {
    match v {
        Some(x) => clean(x),
        None => true,
    }
}

proof fn lemma_split_append(s: Seq<char>, t: Seq<char>, sep: char)
    requires
        !t.contains(sep),
    ensures
        split_on(s + t, sep) == split_on(s, sep).drop_last().push(split_on(s, sep).last() + t),
    decreases t.len(),
{
    crate::text::lemma_split_nonempty(s, sep);
    if t.len() == 0 {
        assert(s + t =~= s);
        assert(split_on(s, sep).last() + t =~= split_on(s, sep).last());
        assert(split_on(s, sep).drop_last().push(split_on(s, sep).last()) =~= split_on(s, sep));
    } else {
        let u = t.drop_last();
        assert(!u.contains(sep)) by {
            if u.contains(sep) { let k = choose|k: int| 0 <= k < u.len() && u[k] == sep; assert(t[k] == sep); }
        }
        assert(t.last() != sep) by { if t.last() == sep { assert(t[t.len() - 1] == sep); } }
        lemma_split_append(s, u, sep);
        assert(s + t =~= (s + u).push(t.last()));
        crate::text::lemma_split_push(s + u, sep, t.last());
        let a = split_on(s, sep);
        assert(split_on(s + u, sep).drop_last() =~= a.drop_last());
        assert(split_on(s + u, sep).last() == a.last() + u);
        assert((a.last() + u).push(t.last()) =~= a.last() + t);
    }
}

proof fn lemma_split_text(lines: Seq<Seq<char>>)
    requires
        single_lines(lines),
    ensures
        split_on(text_of(lines), '\n') == lines.push(seq![]),
    decreases lines.len(),
{
    reveal_strlit("\n");
    if lines.len() == 0 {
        assert(split_on(Seq::<char>::empty(), '\n') =~= seq![Seq::<char>::empty()]);
    } else {
        let init = lines.drop_last();
        let l = lines.last();
        assert forall|i: int| 0 <= i < init.len() implies !(#[trigger] init[i]).contains('\n') by { assert(init[i] == lines[i]); }
        assert(!l.contains('\n')) by { assert(l == lines[lines.len() - 1]); }
        lemma_split_text(init);
        let x = text_of(init);
        assert(text_of(lines) =~= (x + l).push('\n'));
        crate::text::lemma_split_sep(x + l, '\n');
        lemma_split_append(x, l, '\n');
        assert(init.push(seq![]).drop_last() =~= init);
        assert(Seq::<char>::empty() + l =~= l);
        assert(init.push(l) =~= lines);
    }
}

/// The settings after some lines, starting from given ones.
pub open spec fn read_from(c: Chosen, lines: Seq<Seq<char>>) -> Chosen
    decreases lines.len(),
{
    if lines.len() == 0 { c } else { apply(read_from(c, lines.drop_last()), lines.last()) }
}

proof fn lemma_read_lines(lines: Seq<Seq<char>>)
    ensures
        read_lines(lines) == read_from(nothing_chosen(), lines),
    decreases lines.len(),
{
    if lines.len() > 0 { lemma_read_lines(lines.drop_last()); }
}

proof fn lemma_read_concat(c: Chosen, a: Seq<Seq<char>>, b: Seq<Seq<char>>)
    ensures
        read_from(c, a + b) == read_from(read_from(c, a), b),
    decreases b.len(),
{
    if b.len() == 0 {
        assert(a + b =~= a);
    } else {
        lemma_read_concat(c, a, b.drop_last());
        assert((a + b).drop_last() =~= a + b.drop_last());
        assert((a + b).last() == b.last());
    }
}

proof fn lemma_find_absent(s: Seq<char>, c: char, k: int)
    requires
        !s.contains(c),
    ensures
        crate::text::find_from(s, seq![c], k) is None,
    decreases s.len() + 1 - k,
{
    if !(k < 0 || k + 1 > s.len()) {
        assert(!crate::text::occurs_at(s, seq![c], k)) by {
            if s.subrange(k, k + 1) == seq![c] { assert(s.subrange(k, k + 1)[0] == s[k]); }
        }
        lemma_find_absent(s, c, k + 1);
    }
}

proof fn lemma_find_at(s: Seq<char>, c: char, j: int, k: int)
    requires
        0 <= k <= j < s.len(),
        s[j] == c,
        forall|i: int| k <= i < j ==> s[i] != c,
    ensures
        crate::text::find_from(s, seq![c], k) == Some(j),
    decreases j - k,
{
    if k == j {
        assert(s.subrange(k, k + 1) =~= seq![c]);
    } else {
        assert(!crate::text::occurs_at(s, seq![c], k)) by {
            if s.subrange(k, k + 1) == seq![c] { assert(s.subrange(k, k + 1)[0] == s[k]); }
        }
        lemma_find_at(s, c, j, k + 1);
    }
}

proof fn lemma_trim_keeps(s: Seq<char>)
    requires
        s.len() > 0,
        !crate::text::is_space(s[0]),
        !crate::text::is_space(s.last()),
    ensures
        trim_of(s) == s,
{
}

proof fn lemma_trim_end_len(s: Seq<char>)
    ensures
        crate::text::trim_end_of(s).len() <= s.len(),
        s.len() > 0 && crate::text::is_space(s.last()) ==> crate::text::trim_end_of(s).len() < s.len(),
    decreases s.len(),
{
    if s.len() > 0 && crate::text::is_space(s.last()) { lemma_trim_end_len(s.drop_last()); }
}

proof fn lemma_trim_start_len(s: Seq<char>)
    ensures
        crate::text::trim_start_of(s).len() <= s.len(),
        s.len() > 0 && crate::text::is_space(s[0]) ==> crate::text::trim_start_of(s).len() < s.len(),
    decreases s.len(),
{
    if s.len() > 0 && crate::text::is_space(s[0]) { lemma_trim_start_len(s.drop_first()); }
}

proof fn lemma_clean_ends(v: Seq<char>)
    requires
        v.len() > 0,
        trim_of(v) == v,
    ensures
        !crate::text::is_space(v[0]),
        !crate::text::is_space(v.last()),
{
    lemma_trim_end_len(v);
    lemma_trim_start_len(crate::text::trim_end_of(v));
    if !crate::text::is_space(v.last()) {
        lemma_trim_start_len(v);
    }
}

/// A `key: value` line gives back its key and its value.
proof fn lemma_entry(key: Seq<char>, v: Seq<char>)
    requires
        key.len() > 0,
        !key.contains(':'),
        !key.contains('#'),
        !crate::text::is_space(key[0]),
        !crate::text::is_space(key.last()),
        clean(v),
    ensures
        entry(key + ": "@ + v) == Some((key, v)),
{
    reveal_strlit(": ");
    reveal_strlit("#");
    reveal_strlit(":");
    let line = key + ": "@ + v;
    lemma_clean_ends(v);
    assert(!line.contains('#')) by {
        if line.contains('#') {
            let k = choose|k: int| 0 <= k < line.len() && line[k] == '#';
            if k < key.len() { assert(key[k] == '#'); }
            else if k >= key.len() + 2 { assert(v[k - key.len() - 2] == '#'); }
        }
    }
    lemma_find_absent(line, '#', 0);
    assert("#"@ =~= seq!['#']);
    assert(uncommented(line) == line);
    assert(line[0] == key[0]);
    assert(line.last() == v.last());
    lemma_trim_keeps(line);
    assert(":"@ =~= seq![':']);
    assert forall|i: int| 0 <= i < key.len() implies line[i] != ':' by {
        assert(line[i] == key[i]);
        if key[i] == ':' { assert(key.contains(':')); }
    }
    lemma_find_at(line, ':', key.len() as int, 0);
    assert(line.take(key.len() as int) =~= key);
    lemma_trim_keeps(key);
    let rest = line.skip(key.len() + 1int);
    assert(rest =~= seq![' '] + v);
    assert(crate::text::trim_end_of(rest) == rest);
    assert(rest.drop_first() =~= v);
    assert(crate::text::trim_start_of(rest) == crate::text::trim_start_of(v));
    assert(crate::text::trim_end_of(v) == v);
}

proof fn lemma_value_line(c: Chosen, key: Seq<char>, v: Option<Seq<char>>)
    requires
        clean_opt(v),
        key == "python"@ || key == "models"@ || key == "ollama"@ || key == "model"@,
    ensures
        read_from(c, value_lines(key, v)) == match v {
            None => c,
            Some(x) => if key == "python"@ { Chosen { python: Some(x), ..c } }
                else if key == "models"@ { Chosen { models: Some(x), ..c } }
                else if key == "ollama"@ { Chosen { ollama: Some(x), ..c } }
                else { Chosen { model: Some(x), ..c } },
        },
{
    reveal_strlit("python");
    reveal_strlit("models");
    reveal_strlit("ollama");
    reveal_strlit("model");
    match v {
        None => {
            assert(value_lines(key, v) =~= Seq::<Seq<char>>::empty());
            assert(read_from(c, Seq::<Seq<char>>::empty()) == c);
        }
        Some(x) => {
            assert(!key.contains(':') && !key.contains('#')) by {
                if key.contains(':') { let k = choose|k: int| 0 <= k < key.len() && key[k] == ':'; }
                if key.contains('#') { let k = choose|k: int| 0 <= k < key.len() && key[k] == '#'; }
            }
            lemma_entry(key, x);
            let ls = value_lines(key, v);
            assert(ls.drop_last() =~= Seq::<Seq<char>>::empty());
        }
    }
}

} // verus!

verus! {

proof fn lemma_comment_line(h: Seq<char>)
    requires
        h.len() > 0,
        h[0] == '#',
    ensures
        entry(h) is None,
{
    reveal_strlit("#");
    reveal_strlit(":");
    assert("#"@ =~= seq!['#']);
    lemma_find_at(h, '#', 0, 0);
    assert(uncommented(h) =~= Seq::<char>::empty());
    lemma_blank_line();
}

proof fn lemma_blank_line()
    ensures
        entry(Seq::<char>::empty()) is None,
{
    reveal_strlit("#");
    reveal_strlit(":");
    assert(uncommented(Seq::<char>::empty()) =~= Seq::<char>::empty());
    assert(trim_of(Seq::<char>::empty()) =~= Seq::<char>::empty());
}

proof fn lemma_no_break(key: Seq<char>, x: Seq<char>)
    requires
        !key.contains('\n'),
        !x.contains('\n'),
    ensures
        !(key + ": "@ + x).contains('\n'),
{
    reveal_strlit(": ");
    let l = key + ": "@ + x;
    if l.contains('\n') {
        let k = choose|k: int| 0 <= k < l.len() && l[k] == '\n';
        if k < key.len() { assert(key[k] == '\n'); }
        else if k >= key.len() + 2 { assert(x[k - key.len() - 2] == '\n'); }
    }
}

pub open spec fn single_lines(x: Seq<Seq<char>>) -> bool {
    forall|i: int| 0 <= i < x.len() ==> !(#[trigger] x[i]).contains('\n')
}

proof fn lemma_concat_ok(x: Seq<Seq<char>>, y: Seq<Seq<char>>)
    requires
        single_lines(x),
        single_lines(y),
    ensures
        single_lines(x + y),
{
    assert forall|i: int| 0 <= i < (x + y).len() implies !(#[trigger] (x + y)[i]).contains('\n') by {
        if i < x.len() { assert((x + y)[i] == x[i]); } else { assert((x + y)[i] == y[i - x.len()]); }
    }
}

proof fn lemma_value_lines_ok(key: Seq<char>, w: Option<Seq<char>>)
    requires
        !key.contains('\n'),
        clean_opt(w),
    ensures
        single_lines(value_lines(key, w)),
{
    if let Some(x) = w { lemma_no_break(key, x); }
}

proof fn lemma_preamble(c: Chosen)
    ensures
        read_from(c, preamble()) == c,
        single_lines(preamble()),
{
    reveal_strlit("# Cyberloom workspace settings.");
    reveal_strlit("#");
    reveal_strlit("# What you chose, not what is installed: the engine detects Python,");
    reveal_strlit("# ffmpeg and Ollama every time it starts, and never writes what it");
    reveal_strlit("# found in here. A path below is an override for this workspace.");
    let p = preamble();
    assert forall|i: int| 0 <= i < p.len() implies p[i].len() > 0 && (#[trigger] p[i])[0] == '#' && !p[i].contains('\n') by {
        if p[i].contains('\n') {
            let k = choose|k: int| 0 <= k < p[i].len() && p[i][k] == '\n';
        }
    }
    lemma_comment_line(p[0]);
    lemma_comment_line(p[1]);
    lemma_comment_line(p[2]);
    lemma_comment_line(p[3]);
    lemma_comment_line(p[4]);
    assert(p.take(1).drop_last() =~= Seq::<Seq<char>>::empty());
    assert(p.take(1).last() == p[0]);
    assert(p.take(2).last() == p[1]);
    assert(p.take(3).last() == p[2]);
    assert(p.take(4).last() == p[3]);
    assert(p.last() == p[4]);
    assert(read_from(c, p.take(1).drop_last()) == c);
    assert(p.take(2).drop_last() =~= p.take(1));
    assert(p.take(3).drop_last() =~= p.take(2));
    assert(p.take(4).drop_last() =~= p.take(3));
    assert(p.drop_last() =~= p.take(4));
    assert(read_from(c, p.take(1)) == c);
    assert(read_from(c, p.take(2)) == c);
    assert(read_from(c, p.take(3)) == c);
    assert(read_from(c, p.take(4)) == c);
}

/// What is written is what is read back: the settings a `workspace.yaml`
/// was rendered from are the settings read out of it, as long as every
/// chosen value is one the format can hold (see `clean`).
pub proof fn law_written_is_read(c: Chosen)
    requires
        clean_opt(c.python),
        clean_opt(c.models),
        clean_opt(c.ollama),
        clean_opt(c.model),
    ensures
        settings_in(text_of(lines_of(c))) == c,
{
    reveal_strlit("python");
    reveal_strlit("models");
    reveal_strlit("ollama");
    reveal_strlit("model");
    reveal_strlit("localOnlyDefault");
    reveal_strlit("true");
    reveal_strlit("false");
    let n0 = nothing_chosen();
    let p = preamble();
    let a = value_lines("python"@, c.python);
    let b = value_lines("models"@, c.models);
    let o = value_lines("ollama"@, c.ollama);
    let m = value_lines("model"@, c.model);
    let v: Seq<char> = if c.local_only_default { "true"@ } else { "false"@ };
    let last = seq!["localOnlyDefault: "@ + v];
    let ls = lines_of(c);
    assert(ls == p + a + b + o + m + last);
    lemma_preamble(n0);
    assert(!"python"@.contains('\n')) by { if "python"@.contains('\n') { let k = choose|k: int| 0 <= k < "python"@.len() && "python"@[k] == '\n'; } }
    assert(!"models"@.contains('\n')) by { if "models"@.contains('\n') { let k = choose|k: int| 0 <= k < "models"@.len() && "models"@[k] == '\n'; } }
    assert(!"ollama"@.contains('\n')) by { if "ollama"@.contains('\n') { let k = choose|k: int| 0 <= k < "ollama"@.len() && "ollama"@[k] == '\n'; } }
    assert(!"model"@.contains('\n')) by { if "model"@.contains('\n') { let k = choose|k: int| 0 <= k < "model"@.len() && "model"@[k] == '\n'; } }
    assert(!"localOnlyDefault"@.contains('\n')) by { if "localOnlyDefault"@.contains('\n') { let k = choose|k: int| 0 <= k < "localOnlyDefault"@.len() && "localOnlyDefault"@[k] == '\n'; } }
    assert(clean(v)) by {
        assert(!v.contains('\n')) by { if v.contains('\n') { let k = choose|k: int| 0 <= k < v.len() && v[k] == '\n'; } }
        assert(!v.contains('#')) by { if v.contains('#') { let k = choose|k: int| 0 <= k < v.len() && v[k] == '#'; } }
        lemma_trim_keeps(v);
        assert(unquoted_start(v) == v);
        assert(unquoted_end(v) == v);
    }
    lemma_no_break("localOnlyDefault"@, v);
    lemma_value_lines_ok("python"@, c.python);
    lemma_value_lines_ok("models"@, c.models);
    lemma_value_lines_ok("ollama"@, c.ollama);
    lemma_value_lines_ok("model"@, c.model);
    reveal_strlit("localOnlyDefault: ");
    reveal_strlit(": ");
    assert("localOnlyDefault: "@ + v =~= "localOnlyDefault"@ + ": "@ + v);
    assert(single_lines(last)) by { assert(last[0] == "localOnlyDefault"@ + ": "@ + v); }
    lemma_concat_ok(p, a);
    lemma_concat_ok(p + a, b);
    lemma_concat_ok(p + a + b, o);
    lemma_concat_ok(p + a + b + o, m);
    lemma_concat_ok(p + a + b + o + m, last);
    assert(ls.push(seq![]).last() == Seq::<char>::empty());
    assert(single_lines(ls));
    lemma_split_text(ls);
    lemma_read_lines(ls.push(seq![]));
    lemma_blank_line();
    assert(ls.push(seq![]).drop_last() =~= ls);
    lemma_read_concat(n0, p + a + b + o + m, last);
    lemma_read_concat(n0, p + a + b + o, m);
    lemma_read_concat(n0, p + a + b, o);
    lemma_read_concat(n0, p + a, b);
    lemma_read_concat(n0, p, a);
    assert("models"@ != "python"@) by { assert("models"@[0] != "python"@[0]); }
    assert("ollama"@ != "python"@) by { assert("ollama"@[0] != "python"@[0]); }
    assert("ollama"@ != "models"@) by { assert("ollama"@[0] != "models"@[0]); }
    lemma_value_line(n0, "python"@, c.python);
    let c1 = read_from(n0, p + a);
    lemma_value_line(c1, "models"@, c.models);
    let c2 = read_from(n0, p + a + b);
    lemma_value_line(c2, "ollama"@, c.ollama);
    let c3 = read_from(n0, p + a + b + o);
    lemma_value_line(c3, "model"@, c.model);
    let c4 = read_from(n0, p + a + b + o + m);
    reveal_strlit(": ");
    assert(!"localOnlyDefault"@.contains(':') && !"localOnlyDefault"@.contains('#')) by {
        if "localOnlyDefault"@.contains(':') { let k = choose|k: int| 0 <= k < "localOnlyDefault"@.len() && "localOnlyDefault"@[k] == ':'; }
        if "localOnlyDefault"@.contains('#') { let k = choose|k: int| 0 <= k < "localOnlyDefault"@.len() && "localOnlyDefault"@[k] == '#'; }
    }
    lemma_entry("localOnlyDefault"@, v);
    assert(last.drop_last() =~= Seq::<Seq<char>>::empty());
    assert(last.last() == last[0]);
    assert(read_from(c4, last.drop_last()) == c4);
    assert(read_from(c4, last) == apply(c4, last[0]));
    assert(c1 == Chosen { python: c.python, ..n0 });
    assert(c2 == Chosen { models: c.models, ..c1 });
    assert(c3 == Chosen { ollama: c.ollama, ..c2 });
    assert(c4 == Chosen { model: c.model, ..c3 });
    assert(("true"@ != "false"@)) by { assert("true"@.len() != "false"@.len()); }
    assert(apply(c4, last[0]) == c);
    assert(read_from(n0, ls) == read_from(c4, last));
    assert(read_from(n0, ls.push(seq![])) == apply(read_from(n0, ls), seq![]));
    assert(settings_in(text_of(ls)) == read_lines(ls.push(seq![])));
}

} // verus!

verus! {

/// One thing looked for, and what was found.
#[derive(Debug, Clone, PartialEq, Eq)]
pub struct Found {
    pub name: String,
    /// Whether it is there and usable.
    pub ok: bool,
    /// The version, the path, or why not — in words a person can act on.
    pub detail: String,
    /// What to do about it, when there is something to do.
    pub fix: Option<String>,
}

/// What is actually on this machine. Looked for every time the screen is
/// opened rather than once at startup: a person who has just installed
/// ffmpeg in another window should see that by coming back to the screen.
#[derive(Debug, Clone, PartialEq, Eq)]
pub struct Probe {
    pub python: Found,
    pub ffmpeg: Found,
    pub ollama: Found,
    /// Where perception weights would go, and whether anything is there.
    pub models: Found,
}

impl Probe {
    /// The probe, from what each of the four looks found.
    pub fn now(python: Found, ffmpeg: Found, ollama: Found, models: Found) -> (p: Probe)
        ensures
            p.python == python,
            p.ffmpeg == ffmpeg,
            p.ollama == ollama,
            p.models == models,
    {
        Probe { python, ffmpeg, ollama, models }
    }
}

/// What asking a program its version came to.
#[derive(Debug, Clone, PartialEq, Eq)]
pub enum Answer {
    /// It would not take this spelling of the flag; try the other.
    Refused,
    /// It said something: the first line of it, trimmed.
    Said(String),
}

/// The first line of what a program said, trimmed.
pub open spec fn first_line(s: Seq<char>) -> Seq<char> {
    trim_of(split_on(s, '\n')[0])
}

/// Read a program's answer to a version flag. A program that failed and
/// printed nothing did not understand the flag — `--version` is not
/// universal, and ffmpeg wants `-version` — so it is asked the other way.
/// Otherwise what it printed on stdout, or on stderr if stdout is empty, is
/// its version.
pub fn hear(success: bool, stdout: &str, stderr: &str) -> (a: Answer)
    ensures
        !success && stdout@.len() == 0 ==> a == Answer::Refused,
        success || stdout@.len() > 0 ==> (a matches Answer::Said(l) && l@ == first_line(if stdout@.len() == 0 { stderr@ } else { stdout@ })),
{
    let quiet = char_count(stdout) == 0;
    if !success && quiet {
        return Answer::Refused;
    }
    let said = if quiet { stderr } else { stdout };
    let lines = split_char(said, '\n');
    proof { crate::text::lemma_split_nonempty(said@, '\n'); }
    Answer::Said(trimmed(lines[0].as_str()))
}

/// A program that answered.
pub fn installed(name: &str, version: String) -> (f: Found)
    ensures
        f.name@ == name@,
        f.ok,
        f.detail@ == version@,
        f.fix is None,
{
    Found { name: owned(name), ok: true, detail: version, fix: None }
}

/// A program that is not there at all, and what to do about it.
pub fn missing(name: &str, program: &str, fix: Option<&str>) -> (f: Found)
    ensures
        f.name@ == name@,
        !f.ok,
        f.detail@ == "`"@ + program@ + "` is not on the path"@,
        opt(f.fix) == match fix { Some(x) => Some(x@), None => None },
{
    let mut detail = owned("`");
    append(&mut detail, program);
    append(&mut detail, "` is not on the path");
    Found { name: owned(name), ok: false, detail, fix: match fix { Some(x) => Some(owned(x)), None => None } }
}

/// Where Ollama is looked for: the endpoint chosen, or the local default.
pub fn ollama_base(endpoint: Option<&str>) -> (b: String)
    ensures
        b@ == match endpoint { Some(e) => e@, None => "http://127.0.0.1:11434"@ },
{
    match endpoint {
        Some(e) => owned(e),
        None => owned("http://127.0.0.1:11434"),
    }
}

/// What asking Ollama for its models came to: how many it has, or nothing
/// answering at all.
pub fn ollama_found(base: &str, models: Option<u64>) -> (f: Found)
    ensures
        f.name@ == "Ollama"@,
        f.ok == models is Some,
        models matches Some(n) ==> f.detail@ == base@ + " · "@ + decimal(n as nat) + (if n == 1 { " model"@ } else { " models"@ })
            && (f.fix is Some <==> n == 0),
        models is None ==> f.detail@ == "nothing is answering at "@ + base@ && f.fix is Some,
{
    match models {
        Some(n) => {
            let mut detail = owned(base);
            append(&mut detail, " · ");
            let digits = decimal_of(n);
            append(&mut detail, digits.as_str());
            append(&mut detail, if n == 1 { " model" } else { " models" });
            let fix = if n == 0 { Some(owned("Pull a model: `ollama pull llama3.2:3b`.")) } else { None };
            Found { name: owned("Ollama"), ok: true, detail, fix }
        }
        None => {
            let mut detail = owned("nothing is answering at ");
            append(&mut detail, base);
            Found {
                name: owned("Ollama"),
                ok: false,
                detail,
                fix: Some(owned("Start it with `ollama serve`, or set another endpoint here.")),
            }
        }
    }
}

/// Where perception weights are kept: the folder chosen, against the
/// workspace if it is relative, or `models` in the workspace.
pub fn models_folder(chosen: Option<&str>, root: &str) -> (f: String)
    ensures
        f@ == match chosen {
            Some(n) => crate::text::joined(root@, n@),
            None => crate::text::joined(root@, "models"@),
        },
{
    match chosen {
        Some(n) => crate::text::join_path(root, n),
        None => crate::text::join_path(root, "models"),
    }
}

/// What was found in the weights folder.
pub fn models_found(folder: &str, weights: u64) -> (f: Found)
    ensures
        f.name@ == "Models"@,
        f.ok == (weights > 0),
        f.detail@ == folder@ + " · "@ + decimal(weights as nat) + (if weights == 1 { " weight"@ } else { " weights"@ }),
        f.fix is Some <==> weights == 0,
{
    let mut detail = owned(folder);
    append(&mut detail, " · ");
    let digits = decimal_of(weights);
    append(&mut detail, digits.as_str());
    append(&mut detail, if weights == 1 { " weight" } else { " weights" });
    let fix = if weights == 0 {
        Some(owned("Perception blocks need weights here. Downloading them is explicit and resumable, and offline is a supported state."))
    } else {
        None
    };
    Found { name: owned("Models"), ok: weights > 0, detail, fix }
}

} // verus!
