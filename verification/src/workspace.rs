//! A workspace is a folder.
//!
//! Everything the engine serves is relative to one root, so a path that
//! crosses the conversation is the same path on any machine, and a graph
//! that references a sibling file keeps working when the folder moves.
//!
//! Paths here are Unix paths read the way `std::path::Path` reads them:
//! components separated by `/`, empty components and interior `.` dropped, a
//! leading `/` a root of its own.
use vstd::prelude::*;
use crate::text::{
    append, chars_of, joined, join_path, join, last_index, lemma_less_irreflexive, lemma_less_transitive,
    lemma_less_trichotomy, lemma_split_concat, lemma_split_nonempty, lemma_split_sep, less, owned, same, seq_less, split_char,
    split_on, views,
};

verus! {

/// Why a workspace path could not be used.
#[derive(Debug, Clone, PartialEq, Eq)]
pub enum WorkspaceError {
    NotAFolder(String),
    Escapes(String),
    Io { path: String, source: String },
    Parse(String),
}

impl WorkspaceError {
    /// The sentence a person reads.
    pub fn message(&self) -> (s: String)
        ensures
            s@ == match self {
                WorkspaceError::NotAFolder(p) => p@ + " is not a folder"@,
                WorkspaceError::Escapes(p) => "`"@ + p@ + "` leaves the workspace"@,
                WorkspaceError::Io { path, source } => path@ + ": "@ + source@,
                WorkspaceError::Parse(m) => m@,
            },
    {
        match self {
            WorkspaceError::NotAFolder(p) => {
                let mut s = owned(p.as_str());
                append(&mut s, " is not a folder");
                s
            }
            WorkspaceError::Escapes(p) => {
                let mut s = owned("`");
                append(&mut s, p.as_str());
                append(&mut s, "` leaves the workspace");
                s
            }
            WorkspaceError::Io { path, source } => {
                let mut s = owned(path.as_str());
                append(&mut s, ": ");
                append(&mut s, source.as_str());
                s
            }
            WorkspaceError::Parse(m) => m.clone(),
        }
    }
}

/// The pieces of a path between its slashes, empty ones included.
pub open spec fn pieces(p: Seq<char>) -> Seq<Seq<char>> {
    split_on(p, '/')
}

/// The pieces that name something: not empty, and not `.`.
pub open spec fn named(ps: Seq<Seq<char>>) -> Seq<Seq<char>>
    decreases ps.len(),
{
    if ps.len() == 0 {
        seq![]
    } else {
        let rest = named(ps.drop_last());
        if ps.last().len() == 0 || ps.last() == "."@ { rest } else { rest.push(ps.last()) }
    }
}

/// The components of a path, each as the text it stands for: `/` for the
/// root, `.` for a leading current directory, the names otherwise.
pub open spec fn components(p: Seq<char>) -> Seq<Seq<char>> {
    let ps = pieces(p);
    if p.len() > 0 && p[0] == '/' {
        seq!["/"@] + named(ps.drop_first())
    } else if ps[0] == "."@ {
        seq!["."@] + named(ps.drop_first())
    } else {
        named(ps)
    }
}

/// Whether a path is absolute: on Unix, whether it starts at the root.
pub open spec fn absolute(p: Seq<char>) -> bool {
    p.len() > 0 && p[0] == '/'
}

/// How far below where it started a walk through these components ends up.
pub open spec fn depth(cs: Seq<Seq<char>>) -> int
    decreases cs.len(),
{
    if cs.len() == 0 {
        0
    } else {
        let d = depth(cs.drop_last());
        if cs.last() == ".."@ { d - 1 } else if cs.last() == "."@ { d } else { d + 1 }
    }
}

/// Whether a walk through these components ever climbs above where it
/// started.
pub open spec fn climbs_out(cs: Seq<Seq<char>>) -> bool {
    exists|k: int| 1 <= k <= cs.len() && depth(#[trigger] cs.take(k)) < 0
}

/// Whether a path from a request leaves the workspace: an absolute path
/// does, and so does one whose `..` climb above the root at any point.
pub open spec fn escapes(p: Seq<char>) -> bool {
    absolute(p) || climbs_out(components(p))
}





/// The named pieces, in order.
fn named_of(ps: &Vec<String>, from: usize) -> (v: Vec<String>)
    requires
        from <= ps@.len(),
    ensures
        views(v@) == named(views(ps@).skip(from as int)),
{
    let mut v: Vec<String> = Vec::new();
    let mut i: usize = from;
    proof { assert(views(ps@).skip(from as int).take(0) =~= Seq::<Seq<char>>::empty()); }
    while i < ps.len()
        invariant
            from <= i <= ps@.len(),
            views(v@) == named(views(ps@).skip(from as int).take(i - from)),
        decreases ps.len() - i,
    {
        let ghost t = views(ps@).skip(from as int);
        proof {
            assert(t.take(i - from + 1).drop_last() =~= t.take(i - from));
            assert(t.take(i - from + 1).last() == ps@[i as int]@);
        }
        if !(crate::text::char_count(ps[i].as_str()) == 0 || same(ps[i].as_str(), ".")) {
            let ghost pv = views(v@);
            v.push(ps[i].clone());
            proof { assert(views(v@) =~= pv.push(ps@[i as int]@)); }
            proof { assert(views(v@) =~= named(t.take(i - from)).push(ps@[i as int]@)); }
        }
        i = i + 1;
    }
    proof { assert(views(ps@).skip(from as int).take(ps@.len() - from) =~= views(ps@).skip(from as int)); }
    v
}

/// The components of a path.
pub fn components_of(p: &str) -> (v: Vec<String>)
    ensures
        views(v@) == components(p@),
{
    let ps = split_char(p, '/');
    proof { lemma_split_nonempty(p@, '/'); }
    let cs = chars_of(p);
    let mut v: Vec<String> = Vec::new();
    let rest;
    if cs.len() > 0 && cs[0] == '/' {
        v.push(owned("/"));
        rest = named_of(&ps, 1);
    } else if same(ps[0].as_str(), ".") {
        v.push(owned("."));
        rest = named_of(&ps, 1);
    } else {
        rest = named_of(&ps, 0);
        proof { assert(views(ps@).skip(0) =~= views(ps@)); }
    }
    let ghost head = views(v@);
    let mut i: usize = 0;
    while i < rest.len()
        invariant
            i <= rest@.len(),
            views(v@) == head + views(rest@).take(i as int),
        decreases rest.len() - i,
    {
        let ghost pv = views(v@);
        v.push(rest[i].clone());
        proof {
            assert(views(v@) =~= pv.push(rest@[i as int]@));
            assert(views(rest@).take(i + 1) =~= views(rest@).take(i as int).push(rest@[i as int]@));
            assert(views(v@) =~= head + views(rest@).take(i + 1));
        }
        i = i + 1;
    }
    proof {
        assert(views(rest@).take(rest@.len() as int) =~= views(rest@));
        assert(views(ps@).drop_first() =~= views(ps@).skip(1));
    }
    v
}

} // verus!

verus! {

/// The path a file is known by inside the workspace: its components after
/// the root's, or all of them when it is not under the root, joined with
/// forward slashes.
pub open spec fn relative_of(root: Seq<char>, path: Seq<char>) -> Seq<char> {
    let rc = components(root);
    let pc = components(path);
    let rest = if rc.len() <= pc.len() && pc.take(rc.len() as int) == rc { pc.skip(rc.len() as int) } else { pc };
    join(rest, "/"@)
}

pub struct Workspace {
    root: String,
}

impl Workspace {
    pub closed spec fn root_path(&self) -> Seq<char> {
        self.root@
    }

    /// The root is an absolute path: it is the folder as the disk names it
    /// once every link has been followed.
    #[verifier::type_invariant]
    closed spec fn rooted(&self) -> bool {
        absolute(self.root@)
    }

    /// Open the folder at `root`. Whether it is a folder, and what it is
    /// called once every link and `..` in it has been followed, are asked of
    /// the disk and handed in: `is_dir`, and the canonical path or why there
    /// is none. A canonical path is absolute.
    pub fn open(root: &str, is_dir: bool, canonical: Result<String, String>) -> (w: Result<Workspace, WorkspaceError>)
        requires
            canonical matches Ok(c) ==> absolute(c@),
        ensures
            !is_dir ==> (w matches Err(WorkspaceError::NotAFolder(p)) && p@ == root@),
            is_dir ==> match canonical {
                Ok(c) => (w matches Ok(ws) && ws.root_path() == c@),
                Err(e) => (w matches Err(WorkspaceError::Io { path, source }) && path@ == root@ && source@ == e@),
            },
    {
        if !is_dir {
            return Err(WorkspaceError::NotAFolder(owned(root)));
        }
        match canonical {
            Ok(c) => Ok(Workspace { root: c }),
            Err(e) => Err(WorkspaceError::Io { path: owned(root), source: e }),
        }
    }

    pub fn root(&self) -> (r: &str)
        ensures
            r@ == self.root_path(),
            absolute(r@),
    {
        proof { use_type_invariant(self); }
        self.root.as_str()
    }

    /// Turn a relative path from a request into a path in the workspace,
    /// refusing anything that would climb out of it.
    ///
    /// The engine listens on a socket, so a request is not necessarily the
    /// shell: `..` and absolute paths are refused here rather than trusted.
    /// This is not a permission gate — the user owns their machine
    /// — it is a statement about what a workspace path means.
    pub fn resolve(&self, relative: &str) -> (r: Result<String, WorkspaceError>)
        ensures
            match r {
                Ok(p) => !escapes(relative@) && p@ == joined(self.root_path(), relative@),
                Err(e) => escapes(relative@) && (e matches WorkspaceError::Escapes(x) && x@ == relative@),
            },
    {
        let cs = chars_of(relative);
        if cs.len() > 0 && cs[0] == '/' {
            return Err(WorkspaceError::Escapes(owned(relative)));
        }
        let parts = components_of(relative);
        let ghost ps = views(parts@);
        let mut d: i128 = 0;
        let mut i: usize = 0;
        while i < parts.len()
            invariant
                i <= parts@.len(),
                ps == views(parts@),
                ps == components(relative@),
                d == depth(ps.take(i as int)),
                forall|k: int| 1 <= k <= i ==> depth(#[trigger] ps.take(k)) >= 0,
                -1 <= d <= i,
            decreases parts.len() - i,
        {
            proof {
                assert(ps.take(i + 1).drop_last() =~= ps.take(i as int));
                assert(ps.take(i + 1).last() == parts@[i as int]@);
            }
            if same(parts[i].as_str(), "..") {
                d = d - 1;
                if d < 0 {
                    proof { assert(depth(ps.take(i + 1)) < 0); }
                    return Err(WorkspaceError::Escapes(owned(relative)));
                }
            } else if !same(parts[i].as_str(), ".") {
                d = d + 1;
            }
            i = i + 1;
        }
        proof {
            assert(ps.take(ps.len() as int) =~= ps);
            assert(!climbs_out(ps));
        }
        Ok(join_path(self.root.as_str(), relative))
    }

    /// The path a file is known by: relative to the root, forward slashes.
    pub fn relative(&self, path: &str) -> (s: String)
        ensures
            s@ == relative_of(self.root_path(), path@),
    {
        let rc = components_of(self.root.as_str());
        let pc = components_of(path);
        let mut under = rc.len() <= pc.len();
        let mut i: usize = 0;
        while under && i < rc.len()
            invariant
                i <= rc@.len(),
                under ==> rc@.len() <= pc@.len(),
                under ==> forall|k: int| 0 <= k < i ==> rc@[k]@ == pc@[k]@,
                !under ==> !(rc@.len() <= pc@.len() && views(pc@).take(rc@.len() as int) == views(rc@)),
            decreases rc.len() - i,
        {
            if !same(rc[i].as_str(), pc[i].as_str()) {
                proof {
                    if rc@.len() <= pc@.len() && views(pc@).take(rc@.len() as int) == views(rc@) {
                        assert(views(pc@).take(rc@.len() as int)[i as int] == views(rc@)[i as int]);
                    }
                }
                under = false;
            }
            i = i + 1;
        }
        let start: usize = if under { rc.len() } else { 0 };
        proof {
            if under { assert(views(pc@).take(rc@.len() as int) =~= views(rc@)); }
        }
        let mut rest: Vec<String> = Vec::new();
        let mut k: usize = start;
        while k < pc.len()
            invariant
                start <= k <= pc@.len(),
                views(rest@) == views(pc@).subrange(start as int, k as int),
            decreases pc.len() - k,
        {
            let ghost pv = views(rest@);
            rest.push(pc[k].clone());
            proof {
                assert(views(rest@) =~= pv.push(pc@[k as int]@));
                assert(views(rest@) =~= views(pc@).subrange(start as int, k + 1));
            }
            k = k + 1;
        }
        proof {
            assert(views(pc@).subrange(start as int, pc@.len() as int) =~= views(pc@).skip(start as int));
            if !under { assert(views(pc@).skip(0) =~= views(pc@)); }
        }
        crate::text::join_with(&rest, "/")
    }
}

} // verus!

verus! {

/// Folders a graph is never kept in: the engine's own cache, and anything a
/// package manager or git owns.
pub open spec fn skipped(name: Seq<char>) -> bool {
    name == ".cyberloom"@ || name == ".git"@ || name == "node_modules"@ || name == "target"@ || name == ".venv"@
}

pub fn skips(name: &str) -> (r: bool)
    ensures
        r == skipped(name@),
{
    same(name, ".cyberloom") || same(name, ".git") || same(name, "node_modules") || same(name, "target") || same(name, ".venv")
}

/// A file name's extension, as `Path::extension` reads it: what follows the
/// last dot, unless there is no dot or the only one starts the name.
pub open spec fn extension(name: Seq<char>) -> Option<Seq<char>> {
    if name == ".."@ {
        None
    } else {
        match crate::text::last_index(name, '.') {
            Some(i) => if i == 0 { None } else { Some(name.skip(i + 1)) },
            None => None,
        }
    }
}

pub fn extension_of(name: &str) -> (e: Option<String>)
    ensures
        match e {
            Some(x) => extension(name@) == Some(x@),
            None => extension(name@) is None,
        },
{
    if same(name, "..") {
        return None;
    }
    let cs = chars_of(name);
    let mut i = cs.len();
    proof { assert(cs@.take(i as int) =~= cs@); }
    while i > 0 && cs[i - 1] != '.'
        invariant
            i <= cs@.len(),
            cs@ == name@,
            crate::text::last_index(cs@, '.') == crate::text::last_index(cs@.take(i as int), '.'),
        decreases i,
    {
        proof { assert(cs@.take(i as int).drop_last() =~= cs@.take(i - 1)); }
        i = i - 1;
    }
    if i <= 1 {
        proof {
            if i == 0 { assert(cs@.take(0) =~= Seq::<char>::empty()); }
            else { assert(cs@.take(1).last() == cs@[0]); }
        }
        return None;
    }
    proof { assert(cs@.take(i as int).last() == cs@[i - 1]); }
    let n = cs.len();
    let e = crate::text::slice(name, i, n);
    proof { assert(cs@.subrange(i as int, n as int) =~= cs@.skip(i as int)); }
    Some(e)
}

/// Whether a file is a graph: a `.loom` file.
pub fn is_graph(name: &str) -> (r: bool)
    ensures
        r == (extension(name@) == Some("loom"@)),
{
    match extension_of(name) {
        Some(e) => same(e.as_str(), "loom"),
        None => false,
    }
}

/// Whether a file is model weights: `.onnx`, `.gguf` or `.bin`.
pub open spec fn weight_file(name: Seq<char>) -> bool {
    extension(name) == Some("onnx"@) || extension(name) == Some("gguf"@) || extension(name) == Some("bin"@)
}

/// How many of these file names are weights.
pub open spec fn weights_in(names: Seq<Seq<char>>) -> nat
    decreases names.len(),
{
    if names.len() == 0 {
        0
    } else {
        weights_in(names.drop_last()) + if weight_file(names.last()) { 1nat } else { 0nat }
    }
}

pub fn count_weights(names: &Vec<String>) -> (n: u64)
    ensures
        n == weights_in(views(names@)),
{
    let mut n: u64 = 0;
    let mut i: usize = 0;
    while i < names.len()
        invariant
            i <= names@.len(),
            n == weights_in(views(names@).take(i as int)),
            n <= i,
        decreases names.len() - i,
    {
        proof {
            assert(views(names@).take(i + 1).drop_last() =~= views(names@).take(i as int));
            assert(views(names@).take(i + 1).last() == names@[i as int]@);
        }
        let weight = match extension_of(names[i].as_str()) {
            Some(e) => same(e.as_str(), "onnx") || same(e.as_str(), "gguf") || same(e.as_str(), "bin"),
            None => false,
        };
        if weight {
            n = n + 1;
        }
        i = i + 1;
    }
    proof { assert(views(names@).take(names@.len() as int) =~= views(names@)); }
    n
}

} // verus!

verus! {

proof fn lemma_named_concat(x: Seq<Seq<char>>, y: Seq<Seq<char>>)
    ensures
        named(x + y) == named(x) + named(y),
    decreases y.len(),
{
    if y.len() == 0 {
        assert(x + y =~= x);
        assert(named(x) + named(y) =~= named(x));
    } else {
        assert((x + y).drop_last() =~= x + y.drop_last());
        assert((x + y).last() == y.last());
        lemma_named_concat(x, y.drop_last());
        if y.last().len() == 0 || y.last() == "."@ {
        } else {
            assert(named(x) + named(y.drop_last()).push(y.last()) =~= (named(x) + named(y.drop_last())).push(y.last()));
        }
    }
}

/// The components of a relative path joined onto an absolute one are the
/// root's, then the relative path's names.
proof fn lemma_joined_components(root: Seq<char>, rel: Seq<char>)
    requires
        absolute(root),
        !absolute(rel),
    ensures
        components(joined(root, rel)) == components(root) + named(pieces(rel)),
{
    let sr = split_on(root, '/');
    let sl = split_on(rel, '/');
    lemma_split_nonempty(root, '/');
    lemma_split_nonempty(rel, '/');
    let j = joined(root, rel);
    assert(j[0] == '/');
    if root.last() == '/' {
        assert(j == root + rel);
        let r0 = root.drop_last();
        assert(r0.push('/') =~= root);
        lemma_split_sep(r0, '/');
        assert(sr.last() == Seq::<char>::empty());
        lemma_split_concat(root, rel, '/');
        assert(sr.last() + sl[0] =~= sl[0]);
        assert(split_on(j, '/') =~= sr.drop_last() + sl);
        lemma_split_nonempty(r0, '/');
        assert(sr.len() >= 2);
        assert((sr.drop_last() + sl).drop_first() =~= sr.drop_last().drop_first() + sl);
        lemma_named_concat(sr.drop_last().drop_first(), sl);
        let t = sr.drop_first();
        assert(t.last() == Seq::<char>::empty());
        assert(t.drop_last() =~= sr.drop_last().drop_first());
        assert(named(t) == named(t.drop_last()));
        assert(components(j) =~= components(root) + named(sl));
    } else {
        let rs = root.push('/');
        assert(j =~= rs + rel);
        lemma_split_sep(root, '/');
        lemma_split_concat(rs, rel, '/');
        let srs = split_on(rs, '/');
        assert(srs == sr.push(Seq::<char>::empty()));
        assert(srs.last() + sl[0] =~= sl[0]);
        assert(split_on(j, '/') =~= sr + sl);
        crate::text::lemma_last_index_found(root, '/', 0);
        crate::text::lemma_last_index_bound(root, '/');
        let i = last_index(root, '/').unwrap();
        lemma_split_nonempty(root.take(i), '/');
        assert(sr.len() >= 2);
        assert((sr + sl).drop_first() =~= sr.drop_first() + sl);
        lemma_named_concat(sr.drop_first(), sl);
        assert(components(j) =~= components(root) + named(sl));
    }
}

/// A path that resolves reads back as the path that was asked for: the
/// workspace's name for the file `resolve` gives is the request, its empty
/// pieces and `.` left out.
pub proof fn law_resolved_reads_back(root: Seq<char>, rel: Seq<char>)
    requires
        absolute(root),
        !escapes(rel),
    ensures
        relative_of(root, joined(root, rel)) == join(named(pieces(rel)), "/"@),
{
    lemma_joined_components(root, rel);
    let rc = components(root);
    let pc = components(joined(root, rel));
    assert(pc.take(rc.len() as int) =~= rc);
    assert(pc.skip(rc.len() as int) =~= named(pieces(rel)));
}

} // verus!

verus! {

/// Where a component sorts among the kinds of component, as `Path` orders
/// them: the root, then `.`, then `..`, then names. A name is never one of
/// the other three's texts, so the text tells the kind.
pub open spec fn rank(c: Seq<char>) -> nat {
    if c == "/"@ { 0 } else if c == "."@ { 1 } else if c == ".."@ { 2 } else { 3 }
}

/// One component before another: by kind, and two names by their bytes.
pub open spec fn component_less(a: Seq<char>, b: Seq<char>) -> bool {
    rank(a) < rank(b) || (rank(a) == 3 && rank(b) == 3 && seq_less(a, b))
}

/// One path before another, as `Path` orders them: component by component,
/// and a path before any longer path it starts.
pub open spec fn path_less(a: Seq<Seq<char>>, b: Seq<Seq<char>>) -> bool
    decreases a.len(),
{
    if a.len() == 0 {
        b.len() > 0
    } else if b.len() == 0 {
        false
    } else if a[0] != b[0] {
        component_less(a[0], b[0])
    } else {
        path_less(a.drop_first(), b.drop_first())
    }
}

proof fn lemma_component_total(a: Seq<char>, b: Seq<char>)
    ensures
        a == b || component_less(a, b) || component_less(b, a),
        !(component_less(a, b) && component_less(b, a)),
        !component_less(a, a),
{
    lemma_less_trichotomy(a, b);
    lemma_less_irreflexive(a);
}

proof fn lemma_path_total(a: Seq<Seq<char>>, b: Seq<Seq<char>>)
    ensures
        a == b || path_less(a, b) || path_less(b, a),
        !(path_less(a, b) && path_less(b, a)),
    decreases a.len(),
{
    if a.len() > 0 && b.len() > 0 {
        lemma_component_total(a[0], b[0]);
        if a[0] == b[0] {
            lemma_path_total(a.drop_first(), b.drop_first());
            if a.drop_first() == b.drop_first() {
                assert(a =~= seq![a[0]] + a.drop_first());
                assert(b =~= seq![b[0]] + b.drop_first());
            }
        }
    } else if a.len() == 0 && b.len() == 0 {
        assert(a =~= b);
    }
}

proof fn lemma_path_transitive(a: Seq<Seq<char>>, b: Seq<Seq<char>>, c: Seq<Seq<char>>)
    requires
        path_less(a, b),
        path_less(b, c),
    ensures
        path_less(a, c),
    decreases a.len(),
{
    if a.len() > 0 && b.len() > 0 && c.len() > 0 {
        if a[0] == b[0] && b[0] == c[0] {
            lemma_path_transitive(a.drop_first(), b.drop_first(), c.drop_first());
        } else if a[0] != b[0] && b[0] != c[0] {
            if component_less(a[0], b[0]) && component_less(b[0], c[0]) {
                if seq_less(a[0], b[0]) && seq_less(b[0], c[0]) {
                    lemma_less_transitive(a[0], b[0], c[0]);
                }
                lemma_component_total(a[0], c[0]);
                if a[0] == c[0] {
                    lemma_component_total(a[0], b[0]);
                }
            }
        }
    }
}

/// Whether the path at `a` comes before the one at `b` in the order a
/// stable sort of paths leaves them.
pub open spec fn path_before(keys: Seq<Seq<Seq<char>>>, a: int, b: int) -> bool {
    path_less(keys[a], keys[b]) || (keys[a] == keys[b] && a < b)
}

proof fn lemma_path_before_transitive(keys: Seq<Seq<Seq<char>>>, a: int, b: int, c: int)
    requires
        path_before(keys, a, b),
        path_before(keys, b, c),
    ensures
        path_before(keys, a, c),
{
    if path_less(keys[a], keys[b]) && path_less(keys[b], keys[c]) {
        lemma_path_transitive(keys[a], keys[b], keys[c]);
    }
}

fn path_less_of(a: &Vec<String>, b: &Vec<String>) -> (r: bool)
    ensures
        r == path_less(views(a@), views(b@)),
{
    let mut i: usize = 0;
    proof {
        assert(views(a@).skip(0) =~= views(a@));
        assert(views(b@).skip(0) =~= views(b@));
    }
    while i < a.len() && i < b.len()
        invariant
            i <= a@.len(),
            i <= b@.len(),
            path_less(views(a@), views(b@)) == path_less(views(a@).skip(i as int), views(b@).skip(i as int)),
        decreases a.len() - i,
    {
        let x = a[i].as_str();
        let y = b[i].as_str();
        proof {
            assert(views(a@).skip(i as int)[0] == x@);
            assert(views(b@).skip(i as int)[0] == y@);
        }
        if !same(x, y) {
            let rx: u8 = if same(x, "/") { 0 } else if same(x, ".") { 1 } else if same(x, "..") { 2 } else { 3 };
            let ry: u8 = if same(y, "/") { 0 } else if same(y, ".") { 1 } else if same(y, "..") { 2 } else { 3 };
            return rx < ry || (rx == 3 && ry == 3 && less(x, y));
        }
        proof {
            assert(views(a@).skip(i as int).drop_first() =~= views(a@).skip(i + 1));
            assert(views(b@).skip(i as int).drop_first() =~= views(b@).skip(i + 1));
        }
        i = i + 1;
    }
    i == a.len() && i < b.len()
}

pub open spec fn key_views(keys: Seq<Vec<String>>) -> Seq<Seq<Seq<char>>> {
    keys.map_values(|k: Vec<String>| views(k@))
}

/// The positions of these paths, given by their components, in the order a
/// stable sort of paths leaves them.
fn path_order(keys: &Vec<Vec<String>>) -> (order: Vec<usize>)
    ensures
        order@.len() == keys@.len(),
        forall|k: int| 0 <= k < order@.len() ==> order@[k] < keys@.len(),
        forall|p: int, q: int| 0 <= p < q < order@.len() ==> path_before(key_views(keys@), #[trigger] order@[p] as int, #[trigger] order@[q] as int),
{
    let ghost k = key_views(keys@);
    let mut out: Vec<usize> = Vec::new();
    let mut i: usize = 0;
    while i < keys.len()
        invariant
            k == key_views(keys@),
            i <= keys@.len(),
            out@.len() == i,
            forall|m: int| 0 <= m < out@.len() ==> out@[m] < i,
            forall|p: int, q: int| 0 <= p < q < out@.len() ==> path_before(k, #[trigger] out@[p] as int, #[trigger] out@[q] as int),
        decreases keys.len() - i,
    {
        let mut j: usize = out.len();
        while j > 0 && path_less_of(&keys[i], &keys[out[j - 1]])
            invariant
                k == key_views(keys@),
                i < keys@.len(),
                j <= out@.len(),
                out@.len() == i,
                forall|m: int| 0 <= m < out@.len() ==> out@[m] < i,
                forall|q: int| j <= q < out@.len() ==> path_less(k[i as int], k[#[trigger] out@[q] as int]),
            decreases j,
        {
            j = j - 1;
        }
        let ghost old_out = out@;
        proof {
            if j > 0 {
                let last = old_out[j - 1] as int;
                assert(!path_less(k[i as int], k[last]));
                lemma_path_total(k[i as int], k[last]);
                assert(path_before(k, last, i as int));
                assert forall|p: int| 0 <= p < j implies path_before(k, #[trigger] old_out[p] as int, i as int) by {
                    if p < j - 1 {
                        lemma_path_before_transitive(k, old_out[p] as int, last, i as int);
                    }
                }
            }
        }
        out.insert(j, i);
        proof {
            assert forall|p: int, q: int| 0 <= p < q < out@.len() implies path_before(k, #[trigger] out@[p] as int, #[trigger] out@[q] as int) by {
                if q < j {
                    assert(out@[p] == old_out[p] && out@[q] == old_out[q]);
                } else if q == j {
                    assert(out@[p] == old_out[p]);
                } else if p == j {
                    assert(out@[q] == old_out[q - 1]);
                    assert(path_less(k[i as int], k[old_out[q - 1] as int]));
                } else if p < j {
                    assert(out@[p] == old_out[p] && out@[q] == old_out[q - 1]);
                } else {
                    assert(out@[p] == old_out[p - 1] && out@[q] == old_out[q - 1]);
                }
            }
        }
        i = i + 1;
    }
    out
}

pub open spec fn path_keys(paths: Seq<String>) -> Seq<Seq<Seq<char>>> {
    paths.map_values(|p: String| components(p@))
}

/// `sorted` is `found` taken in `order`, and `order` is the one a stable
/// sort of the paths gives.
pub open spec fn sorted_by(found: Seq<String>, sorted: Seq<String>, order: Seq<usize>) -> bool {
    &&& order.len() == found.len()
    &&& sorted.len() == found.len()
    &&& forall|k: int| 0 <= k < order.len() ==> #[trigger] order[k] < found.len() && sorted[k]@ == found[order[k] as int]@
    &&& forall|p: int, q: int| 0 <= p < q < order.len() ==> path_before(path_keys(found), #[trigger] order[p] as int, #[trigger] order[q] as int)
}

impl Workspace {
    /// The graphs a walk of the workspace found, sorted the way `Path` sorts,
    /// so two runs list them the same way. Walking the folder — which files
    /// there are, skipping what `skips` names and keeping what `is_graph`
    /// keeps — is the daemon's.
    pub fn graphs(&self, found: Vec<String>) -> (sorted: Vec<String>)
        ensures
            exists|order: Seq<usize>| #[trigger] sorted_by(found@, sorted@, order),
    {
        let mut keys: Vec<Vec<String>> = Vec::new();
        let mut i: usize = 0;
        while i < found.len()
            invariant
                i <= found@.len(),
                key_views(keys@) == path_keys(found@).take(i as int),
            decreases found.len() - i,
        {
            let c = components_of(found[i].as_str());
            let ghost before = key_views(keys@);
            keys.push(c);
            proof {
                assert(key_views(keys@) =~= before.push(components(found@[i as int]@)));
                assert(path_keys(found@).take(i + 1) =~= path_keys(found@).take(i as int).push(components(found@[i as int]@)));
            }
            i = i + 1;
        }
        proof { assert(path_keys(found@).take(found@.len() as int) =~= path_keys(found@)); }
        let order = path_order(&keys);
        let mut sorted: Vec<String> = Vec::new();
        let mut k: usize = 0;
        while k < order.len()
            invariant
                k <= order@.len(),
                order@.len() == found@.len(),
                forall|m: int| 0 <= m < order@.len() ==> order@[m] < found@.len(),
                sorted@.len() == k,
                forall|m: int| 0 <= m < k ==> sorted@[m]@ == found@[order@[m] as int]@,
            decreases order.len() - k,
        {
            sorted.push(found[order[k]].clone());
            k = k + 1;
        }
        proof {
            assert(key_views(keys@) == path_keys(found@));
            assert(sorted_by(found@, sorted@, order@));
        }
        sorted
    }
}

} // verus!

verus! {

/// A relative path written the way `relative` writes one: its named
/// pieces, one slash between each.
pub open spec fn clean(rel: Seq<char>) -> bool {
    join(named(pieces(rel)), "/"@) == rel
}

/// `resolve` and `relative` undo each other: a path inside the workspace,
/// written plainly, resolved against the root and made relative again, is
/// the path it was. A workspace's root is always absolute (see `root`).
pub proof fn law_resolve_relative_round_trip(root: Seq<char>, rel: Seq<char>)
    requires
        absolute(root),
        !escapes(rel),
        clean(rel),
    ensures
        relative_of(root, joined(root, rel)) == rel,
{
    law_resolved_reads_back(root, rel);
}

} // verus!
