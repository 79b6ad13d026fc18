//! Sources: blocks that emit on their own initiative.
//!
//! Arming a source — a watched folder, a listening port, a timer — is the
//! daemon's. What is here is what it reads: which file names a folder
//! pattern means, how an interval is written, and where a path in a setting
//! points.
use vstd::prelude::*;
use crate::text::{
    char_count, chars_of, find_from, find_text, first_index, is_space, joined, join_path, occurs_at, owned, same, slice,
    parse_u64, space, split_char, split_on, starts_with, trim_of, trim_start_of, trimmed, unsigned_text, views,
};
use crate::run::rig::{lower, lowered};
use crate::text::append;

verus! {

/// Whether the patterns `qs` occur in `s` one after another, in order and
/// without overlapping: what the stars between them allow.
pub open spec fn embeds(s: Seq<char>, qs: Seq<Seq<char>>) -> bool
    decreases qs.len(),
{
    if qs.len() == 0 {
        true
    } else {
        exists|i: int| #[trigger] occurs_at(s, qs[0], i) && embeds(s.skip(i + qs[0].len()), qs.drop_first())
    }
}

/// Whether a file name matches a folder pattern, where `*` stands for any
/// run of characters, the empty one included. A pattern with no `*` is an
/// exact name.
pub open spec fn glob(name: Seq<char>, pattern: Seq<char>) -> bool {
    let parts = split_on(pattern, '*');
    if parts.len() <= 1 {
        name == pattern
    } else {
        let first = parts[0];
        let last = parts.last();
        &&& name.len() >= first.len() + last.len()
        &&& name.take(first.len() as int) == first
        &&& name.skip(name.len() - last.len()) == last
        &&& embeds(name.subrange(first.len() as int, name.len() - last.len()), parts.subrange(1, parts.len() - 1))
    }
}

/// Where the patterns end when each is matched at its first occurrence
/// after the one before it.
pub open spec fn greedy(s: Seq<char>, qs: Seq<Seq<char>>) -> Option<int>
    decreases qs.len(),
{
    if qs.len() == 0 {
        Some(0)
    } else {
        match first_index(s, qs[0]) {
            None => None,
            Some(j) => match greedy(s.skip(j + qs[0].len()), qs.drop_first()) {
                None => None,
                Some(e) => Some(j + qs[0].len() + e),
            },
        }
    }
}

proof fn lemma_find_occurs(s: Seq<char>, q: Seq<char>, k: int)
    ensures
        find_from(s, q, k) matches Some(j) ==> k <= j && occurs_at(s, q, j),
    decreases s.len() + 1 - k,
{
    if !(k < 0 || k + q.len() > s.len()) && !occurs_at(s, q, k) {
        lemma_find_occurs(s, q, k + 1);
    }
}

proof fn lemma_find_leftmost(s: Seq<char>, q: Seq<char>, k: int, i: int)
    requires
        0 <= k <= i,
        occurs_at(s, q, i),
    ensures
        find_from(s, q, k) matches Some(j) && j <= i,
    decreases i - k,
{
    if !occurs_at(s, q, k) {
        lemma_find_leftmost(s, q, k + 1, i);
    }
}

/// A later start never helps: patterns that fit in a tail of `t` fit in
/// `t`.
proof fn lemma_embeds_suffix(t: Seq<char>, d: int, qs: Seq<Seq<char>>)
    requires
        0 <= d <= t.len(),
        embeds(t.skip(d), qs),
    ensures
        embeds(t, qs),
{
    if qs.len() > 0 {
        let u = t.skip(d);
        let i = choose|i: int| #[trigger] occurs_at(u, qs[0], i) && embeds(u.skip(i + qs[0].len()), qs.drop_first());
        assert(t.subrange(d + i, d + i + qs[0].len()) =~= u.subrange(i, i + qs[0].len()));
        assert(occurs_at(t, qs[0], d + i));
        assert(t.skip(d + i + qs[0].len()) =~= u.skip(i + qs[0].len()));
    }
}

/// Matching each pattern at its first occurrence is never wrong: the
/// patterns fit in the first `l` characters exactly when the greedy match
/// ends by `l`.
proof fn lemma_greedy(s: Seq<char>, qs: Seq<Seq<char>>, l: int)
    requires
        0 <= l <= s.len(),
    ensures
        embeds(s.take(l), qs) <==> (greedy(s, qs) matches Some(e) && e <= l),
        greedy(s, qs) matches Some(e) ==> 0 <= e <= s.len(),
    decreases qs.len(),
{
    if qs.len() > 0 {
        let q = qs[0];
        let rest = qs.drop_first();
        let t = s.take(l);
        lemma_find_occurs(s, q, 0);
        if embeds(t, qs) {
            let i = choose|i: int| #[trigger] occurs_at(t, q, i) && embeds(t.skip(i + q.len()), rest);
            assert(s.subrange(i, i + q.len()) =~= t.subrange(i, i + q.len()));
            assert(occurs_at(s, q, i));
            lemma_find_leftmost(s, q, 0, i);
            let j = first_index(s, q).unwrap();
            let s2 = s.skip(j + q.len());
            let l2 = l - j - q.len();
            assert(t.skip(j + q.len()) =~= s2.take(l2));
            assert(t.skip(i + q.len()) =~= s2.take(l2).skip(i - j));
            lemma_embeds_suffix(s2.take(l2), i - j, rest);
            lemma_greedy(s2, rest, l2);
        }
        match first_index(s, q) {
            None => {}
            Some(j) => {
                let s2 = s.skip(j + q.len());
                lemma_greedy(s2, rest, 0);
                if greedy(s, qs) matches Some(e) && e <= l {
                    let l2 = l - j - q.len();
                    lemma_greedy(s2, rest, l2);
                    assert(t.subrange(j, j + q.len()) =~= s.subrange(j, j + q.len()));
                    assert(occurs_at(t, q, j));
                    assert(t.skip(j + q.len()) =~= s2.take(l2));
                    assert(embeds(t, qs));
                }
            }
        }
    }
}

/// Greedy matching one pattern more: match the ones before, then the new
/// one at its first occurrence after them.
proof fn lemma_greedy_push(s: Seq<char>, qs: Seq<Seq<char>>, q: Seq<char>)
    ensures
        greedy(s, qs.push(q)) == match greedy(s, qs) {
            None => None,
            Some(e) => match first_index(s.skip(e), q) {
                None => None,
                Some(j) => Some(e + j + q.len()),
            },
        },
    decreases qs.len(),
{
    lemma_greedy(s, qs, 0);
    if qs.len() == 0 {
        assert(qs.push(q).drop_first() =~= Seq::<Seq<char>>::empty());
        assert(s.skip(0) =~= s);
        let p = qs.push(q);
        assert(p[0] == q);
        match first_index(s, q) {
            None => {}
            Some(j) => {
                assert(greedy(s.skip(j + q.len()), p.drop_first()) == Some(0int));
            }
        }
    } else {
        let p = qs.push(q);
        assert(p[0] == qs[0]);
        assert(p.drop_first() =~= qs.drop_first().push(q));
        match first_index(s, qs[0]) {
            None => {}
            Some(j) => {
                lemma_find_occurs(s, qs[0], 0);
                let s2 = s.skip(j + qs[0].len());
                lemma_greedy_push(s2, qs.drop_first(), q);
                lemma_greedy(s2, qs.drop_first(), 0);
                match greedy(s2, qs.drop_first()) {
                    None => {}
                    Some(e2) => {
                        assert(s2.skip(e2) =~= s.skip(j + qs[0].len() + e2));
                    }
                }
            }
        }
    }
}

} // verus!

verus! {

proof fn lemma_greedy_none(s: Seq<char>, a: Seq<Seq<char>>, b: Seq<Seq<char>>)
    requires
        greedy(s, a) is None,
    ensures
        greedy(s, a + b) is None,
    decreases b.len(),
{
    if b.len() == 0 {
        assert(a + b =~= a);
    } else {
        lemma_greedy_none(s, a, b.drop_last());
        assert(a + b =~= (a + b.drop_last()).push(b.last()));
        lemma_greedy_push(s, a + b.drop_last(), b.last());
    }
}

/// Whether a file name matches a folder pattern: `*.eml`, `report-*`, `*`.
/// Enough of a glob for a folder pattern, and no more. Each piece between
/// the stars is matched at its first occurrence after the one before, which
/// `lemma_greedy` shows is never wrong.
pub fn matches_glob(name: &str, pattern: &str) -> (r: bool)
    ensures
        r == glob(name@, pattern@),
{
    let parts = split_char(pattern, '*');
    let ghost ps = views(parts@);
    proof { crate::text::lemma_split_nonempty(pattern@, '*'); }
    let k = parts.len();
    if k == 1 {
        return same(name, pattern);
    }
    let first = parts[0].as_str();
    if !starts_with(name, first) {
        return false;
    }
    let n = char_count(name);
    let f = char_count(first);
    let ghost s = name@.skip(f as int);
    let mut at = f;
    let mut idx: usize = 1;
    proof { assert(ps.subrange(1, 1) =~= Seq::<Seq<char>>::empty()); }
    while idx < k
        invariant
            1 <= idx <= k,
            k == parts@.len(),
            ps == views(parts@),
            ps == split_on(pattern@, '*'),
            n == name@.len(),
            f == ps[0].len(),
            f <= at <= n,
            s == name@.skip(f as int),
            greedy(s, ps.subrange(1, idx as int)) == Some(at - f),
        decreases k - idx,
    {
        let part = parts[idx].as_str();
        let rest = slice(name, at, n);
        proof {
            assert(rest@ =~= s.skip(at - f));
            assert(ps.subrange(1, idx + 1) =~= ps.subrange(1, idx as int).push(ps[idx as int]));
            lemma_greedy_push(s, ps.subrange(1, idx as int), ps[idx as int]);
        }
        match find_text(rest.as_str(), part) {
            None => {
                proof {
                    lemma_greedy_none(s, ps.subrange(1, idx + 1), ps.subrange(idx + 1, k as int));
                    assert(ps.subrange(1, idx + 1) + ps.subrange(idx + 1, k as int) =~= ps.subrange(1, k as int));
                    lemma_not_glob(name@, pattern@);
                }
                return false;
            }
            Some(j) => {
                proof { crate::run::blocks::lemma_found_fits(rest@, part@, 0); }
                at = at + j + char_count(part);
            }
        }
        idx = idx + 1;
    }
    let last = parts[k - 1].as_str();
    let m = char_count(last);
    proof { lemma_glob_when_found(name@, pattern@, at - f); }
    if m == 0 {
        proof {
            assert(ps.last() == parts@[k - 1]@);
            assert(name@.skip(n as int) =~= ps.last());
        }
        return true;
    }
    if m > n {
        return false;
    }
    let tail = slice(name, n - m, n);
    proof {
        assert(ps.last() == parts@[k - 1]@);
        assert(name@.subrange(n - m, n as int) =~= name@.skip(n - m));
    }
    same(tail.as_str(), last)
}

/// When the greedy match of every piece after the first fails, the name
/// does not match.
proof fn lemma_not_glob(name: Seq<char>, pattern: Seq<char>)
    requires
        split_on(pattern, '*').len() >= 2,
        ({
            let ps = split_on(pattern, '*');
            &&& name.len() >= ps[0].len()
            &&& greedy(name.skip(ps[0].len() as int), ps.subrange(1, ps.len() as int)) is None
        }),
    ensures
        !glob(name, pattern),
{
    let ps = split_on(pattern, '*');
    let k = ps.len() as int;
    let f = ps[0].len() as int;
    let s = name.skip(f);
    let pk = ps.last();
    let mid = ps.subrange(1, k - 1);
    if glob(name, pattern) {
        let m = pk.len() as int;
        assert(name.subrange(f, name.len() - m) =~= s.take(s.len() - m));
        lemma_greedy(s, mid, s.len() - m);
        let e = greedy(s, mid).unwrap();
        assert(ps.subrange(1, k) =~= mid.push(pk));
        lemma_greedy_push(s, mid, pk);
        assert(s.skip(e).subrange(s.len() - m - e, s.len() - e) =~= name.skip(name.len() - m));
        assert(occurs_at(s.skip(e), pk, s.len() - m - e));
        lemma_find_leftmost(s.skip(e), pk, 0, s.len() - m - e);
    }
}

/// When every piece after the first is found, the name matches exactly
/// when it ends with the last piece.
proof fn lemma_glob_when_found(name: Seq<char>, pattern: Seq<char>, e_all: int)
    requires
        split_on(pattern, '*').len() >= 2,
        ({
            let ps = split_on(pattern, '*');
            &&& name.len() >= ps[0].len()
            &&& name.take(ps[0].len() as int) == ps[0]
            &&& greedy(name.skip(ps[0].len() as int), ps.subrange(1, ps.len() as int)) == Some(e_all)
        }),
    ensures
        ({
            let ps = split_on(pattern, '*');
            let last = ps.last();
            glob(name, pattern) == (name.len() >= last.len() && name.skip(name.len() - last.len()) == last)
        }),
{
    let ps = split_on(pattern, '*');
    let k = ps.len() as int;
    let f = ps[0].len() as int;
    let s = name.skip(f);
    let pk = ps.last();
    let m = pk.len() as int;
    let mid = ps.subrange(1, k - 1);
    assert(ps.subrange(1, k) =~= mid.push(pk));
    lemma_greedy_push(s, mid, pk);
    lemma_greedy(s, mid, 0);
    let e = greedy(s, mid).unwrap();
    let j = first_index(s.skip(e), pk).unwrap();
    lemma_find_occurs(s.skip(e), pk, 0);
    assert(e + j + m <= s.len());
    if name.len() >= m && name.skip(name.len() - m) == pk {
        assert(name.subrange(f, name.len() - m) =~= s.take(s.len() - m));
        lemma_greedy(s, mid, s.len() - m);
    }
}

} // verus!

verus! {

/// How many seconds a unit letter stands for, if it is one: `s`, `m`, `h`,
/// `d`.
pub open spec fn unit_secs(c: char) -> Option<u64> {
    if c == 's' { Some(1u64) } else if c == 'm' { Some(60u64) } else if c == 'h' { Some(3600u64) } else if c == 'd' { Some(86400u64) } else { None }
}

/// An interval as written — `30s`, `15m`, `2h`, `1d` — cut into the number
/// and the seconds its unit stands for. A bare number has no unit letter,
/// and stands for `bare` seconds a unit. Nothing written is no interval.
pub open spec fn interval_parts_of(text: Seq<char>, bare: u64) -> Option<(Seq<char>, u64)> {
    let t = crate::text::trim_of(text);
    if t.len() == 0 {
        None
    } else {
        match unit_secs(t.last()) {
            Some(u) => Some((t.drop_last(), u)),
            None => Some((t, bare)),
        }
    }
}

/// The number and the unit of an interval. Reading the number is left to
/// the caller: it may be written with a fraction.
pub fn interval_parts(text: &str, bare: u64) -> (r: Option<(String, u64)>)
    requires
        crate::text::trim_of(text@).len() == 0 || (crate::text::trim_of(text@).last() as int) < 128,
    ensures
        match r {
            Some((n, u)) => interval_parts_of(text@, bare) == Some((n@, u)),
            None => interval_parts_of(text@, bare) is None,
        },
{
    let t = crate::text::trimmed(text);
    let len = char_count(t.as_str());
    if len == 0 {
        return None;
    }
    let cs = crate::text::chars_of(t.as_str());
    let last = cs[len - 1];
    proof { assert(cs@.last() == last); }
    let unit: Option<u64> = if last == 's' { Some(1) } else if last == 'm' { Some(60) } else if last == 'h' { Some(3600) } else if last == 'd' { Some(86400) } else { None };
    match unit {
        Some(u) => {
            let digits = slice(t.as_str(), 0, len - 1);
            proof { assert(t@.subrange(0, len - 1) =~= t@.drop_last()); }
            Some((digits, u))
        }
        None => Some((t, bare)),
    }
}

/// `~/inbox` against the user's home, anything else relative against the
/// workspace, an absolute path as it is. The home folder is the daemon's to
/// look up; without one, `~/` is just a name.
pub open spec fn expanded(path: Seq<char>, root: Seq<char>, home: Option<Seq<char>>) -> Seq<char> {
    if path.len() >= 2 && path.take(2) == "~/"@ && home is Some {
        joined(home.unwrap(), path.skip(2))
    } else {
        joined(root, path)
    }
}

pub fn expand(path: &str, root: &str, home: Option<&str>) -> (p: String)
    ensures
        p@ == expanded(path@, root@, match home { Some(h) => Some(h@), None => None }),
{
    proof { reveal_strlit("~/"); }
    if starts_with(path, "~/") {
        if let Some(h) = home {
            let n = char_count(path);
            let rest = slice(path, 2, n);
            proof { assert(path@.subrange(2, n as int) =~= path@.skip(2)); }
            return join_path(h, rest.as_str());
        }
    }
    join_path(root, path)
}

} // verus!

verus! {

/// Where the first white space in a text is, if it has any.
pub open spec fn first_space(s: Seq<char>) -> Option<int>
    decreases s.len(),
{
    if s.len() == 0 {
        None
    } else if is_space(s[0]) {
        Some(0)
    } else {
        match first_space(s.drop_first()) {
            Some(i) => Some(i + 1),
            None => None,
        }
    }
}

/// The first word of a text, and what follows it, as `split_whitespace`
/// finds them: white space before it is passed over.
pub open spec fn first_word(s: Seq<char>) -> (Seq<char>, Seq<char>) {
    let a = trim_start_of(s);
    match first_space(a) {
        Some(i) => (a.take(i), a.skip(i)),
        None => (a, seq![]),
    }
}

/// The path a request line asks for: its second word, `/` when it has
/// none, and never the query string, which is not part of the path a
/// webhook is bound to. A line with no words at all is no request.
pub open spec fn request_path_of(line: Seq<char>) -> Option<Seq<char>> {
    if trim_start_of(line).len() == 0 {
        None
    } else {
        let rest = first_word(line).1;
        let path = if trim_start_of(rest).len() == 0 { "/"@ } else { first_word(rest).0 };
        Some(match first_index(path, "?"@) {
            Some(i) => path.take(i),
            None => path,
        })
    }
}

fn word_at(cs: &Vec<char>, from: usize) -> (r: (usize, usize))
    requires
        from <= cs@.len(),
    ensures
        from <= r.0 <= r.1 <= cs@.len(),
        trim_start_of(cs@.skip(from as int)) == cs@.skip(r.0 as int),
        first_word(cs@.skip(from as int)).0 == cs@.subrange(r.0 as int, r.1 as int),
        first_word(cs@.skip(from as int)).1 == cs@.skip(r.1 as int),
{
    let mut a = from;
    while a < cs.len() && space(cs[a])
        invariant
            from <= a <= cs@.len(),
            trim_start_of(cs@.skip(from as int)) == trim_start_of(cs@.skip(a as int)),
        decreases cs.len() - a,
    {
        proof { assert(cs@.skip(a as int).drop_first() =~= cs@.skip(a + 1)); }
        a = a + 1;
    }
    proof {
        if a < cs@.len() {
            assert(cs@.skip(a as int)[0] == cs@[a as int]);
        }
        assert(trim_start_of(cs@.skip(a as int)) == cs@.skip(a as int));
    }
    let mut b = a;
    while b < cs.len() && !space(cs[b])
        invariant
            a <= b <= cs@.len(),
            first_space(cs@.skip(a as int)) == match first_space(cs@.skip(b as int)) {
                Some(i) => Some(i + (b - a)),
                None => None,
            },
        decreases cs.len() - b,
    {
        proof {
            assert(cs@.skip(b as int)[0] == cs@[b as int]);
            assert(cs@.skip(b as int).drop_first() =~= cs@.skip(b + 1));
        }
        b = b + 1;
    }
    proof {
        let t = cs@.skip(a as int);
        if b < cs@.len() {
            assert(cs@.skip(b as int)[0] == cs@[b as int]);
            assert(first_space(t) == Some(b - a));
            assert(t.take(b - a) =~= cs@.subrange(a as int, b as int));
            assert(t.skip(b - a) =~= cs@.skip(b as int));
        } else {
            assert(cs@.skip(b as int).len() == 0);
            assert(first_space(t) is None);
            assert(t =~= cs@.subrange(a as int, b as int));
            assert(cs@.skip(b as int) =~= Seq::<char>::empty());
        }
    }
    (a, b)
}

/// Read a request line for the path it asks for.
pub fn request_path(line: &str) -> (r: Option<String>)
    ensures
        match r {
            Some(p) => request_path_of(line@) == Some(p@),
            None => request_path_of(line@) is None,
        },
{
    let cs = chars_of(line);
    proof { assert(cs@.skip(0) =~= cs@); }
    let (m0, m1) = word_at(&cs, 0);
    if m0 == cs.len() {
        proof { assert(trim_start_of(line@).len() == 0); }
        return None;
    }
    let (p0, p1) = word_at(&cs, m1);
    let path = if p0 == cs.len() {
        proof { assert(trim_start_of(cs@.skip(m1 as int)).len() == 0); }
        owned("/")
    } else {
        slice(line, p0, p1)
    };
    proof {
        reveal_strlit("/");
    }
    match find_text(path.as_str(), "?") {
        Some(i) => {
            proof {
                crate::run::blocks::lemma_found_fits(path@, "?"@, 0);
                reveal_strlit("?");
            }
            let p = slice(path.as_str(), 0, i);
            proof { assert(path@.subrange(0, i as int) =~= path@.take(i as int)); }
            Some(p)
        }
        None => Some(path),
    }
}

/// Whether a request is for the path the webhook is bound to. A webhook on
/// `/` also answers a request whose path is nothing but a query.
pub fn is_for(path: &str, want: &str) -> (r: bool)
    ensures
        r == (path@ == want@ || (want@ == "/"@ && path@.len() == 0)),
{
    same(path, want) || (same(want, "/") && char_count(path) == 0)
}

/// The response a webhook sends: it takes the request, or says there is
/// nothing here.
pub fn response_head(matched: bool) -> (s: &'static str)
    ensures
        matched ==> s@ == "HTTP/1.1 200 OK\r\nContent-Length: 0\r\nConnection: close\r\n\r\n"@,
        !matched ==> s@ == "HTTP/1.1 404 Not Found\r\nContent-Length: 0\r\nConnection: close\r\n\r\n"@,
{
    if matched {
        "HTTP/1.1 200 OK\r\nContent-Length: 0\r\nConnection: close\r\n\r\n"
    } else {
        "HTTP/1.1 404 Not Found\r\nContent-Length: 0\r\nConnection: close\r\n\r\n"
    }
}

} // verus!

verus! {

/// What a header line says of the body's length. `Content-Length`, in any
/// case, gives the number it holds, or 0 when it holds none a `usize` can;
/// any other header says nothing of it.
pub open spec fn header_length_of(header: Seq<char>) -> Option<nat> {
    match first_index(header, ":"@) {
        None => None,
        Some(i) => if lowered(header.take(i)) == "content-length"@ {
            Some(match unsigned_text(trim_of(header.skip(i + 1))) {
                Some(v) => if v <= usize::MAX { v } else { 0 },
                None => 0,
            })
        } else {
            None
        },
    }
}

pub fn header_length(header: &str) -> (r: Option<usize>)
    ensures
        match r {
            Some(n) => header_length_of(header@) == Some(n as nat),
            None => header_length_of(header@) is None,
        },
{
    let i = match find_text(header, ":") {
        None => return None,
        Some(i) => i,
    };
    proof {
        crate::run::blocks::lemma_found_fits(header@, ":"@, 0);
        reveal_strlit(":");
    }
    let n = char_count(header);
    let name = chars_of(header);
    let want = chars_of("content-length");
    proof { reveal_strlit("content-length"); }
    let mut same_name = i == want.len();
    let mut k: usize = 0;
    while same_name && k < i
        invariant
            name@ == header@,
            want@ == "content-length"@,
            i <= name@.len(),
            same_name ==> i == want@.len(),
            k <= i,
            same_name ==> forall|j: int| 0 <= j < k ==> lower(name@[j]) == want@[j],
            !same_name ==> lowered(header@.take(i as int)) != "content-length"@,
        decreases i - k,
    {
        if crate::run::rig::lower_of(name[k]) != want[k] {
            proof { assert(lowered(header@.take(i as int))[k as int] == lower(name@[k as int])); }
            same_name = false;
        }
        k = k + 1;
    }
    proof {
        if same_name {
            assert(lowered(header@.take(i as int)) =~= "content-length"@);
        } else if i != want.len() {
            assert(lowered(header@.take(i as int)).len() != "content-length"@.len());
        }
    }
    if !same_name {
        return None;
    }
    let value = slice(header, i + 1, n);
    proof { assert(header@.subrange(i + 1, n as int) =~= header@.skip(i + 1)); }
    let t = trimmed(value.as_str());
    match parse_u64(t.as_str()) {
        Some(v) => {
            if v as u128 <= usize::MAX as u128 { Some(v as usize) } else { Some(0) }
        },
        None => Some(0),
    }
}

} // verus!

verus! {

/// A file in a folder, and when it last changed.
pub open spec fn files_map(v: Seq<(String, u64)>) -> Map<Seq<char>, u64>
    decreases v.len(),
{
    if v.len() == 0 {
        Map::empty()
    } else {
        files_map(v.drop_last()).insert(v.last().0@, v.last().1)
    }
}

pub open spec fn unique_names(v: Seq<(String, u64)>) -> bool {
    forall|i: int, j: int| 0 <= i < j < v.len() ==> (#[trigger] v[i]).0@ != (#[trigger] v[j]).0@
}

/// One file as a listing finds it: its name, when it last changed, and
/// whether it has been left alone long enough to be read whole.
pub open spec fn entry_view(e: (String, u64, bool)) -> (Seq<char>, u64, bool) {
    (e.0@, e.1, e.2)
}

/// What a folder source makes of one listing, file by file: a file it has
/// not seen, or one that has changed since, is reported and remembered —
/// unless the source debounces and the file is still being written, in
/// which case it waits for a later look, since reporting a file half-copied
/// is worse than reporting it late.
pub open spec fn look(seen: Map<Seq<char>, u64>, es: Seq<(Seq<char>, u64, bool)>, debounce: bool) -> (Map<Seq<char>, u64>, Seq<Seq<char>>)
    decreases es.len(),
{
    if es.len() == 0 {
        (seen, seq![])
    } else {
        let (m, reported) = look(seen, es.drop_last(), debounce);
        let (name, modified, settled) = es.last();
        let changed = !m.contains_key(name) || m[name] != modified;
        if changed && (!debounce || settled) {
            (m.insert(name, modified), reported.push(name))
        } else {
            (m, reported)
        }
    }
}

proof fn lemma_files_map_has(v: Seq<(String, u64)>, k: int)
    requires
        unique_names(v),
        0 <= k < v.len(),
    ensures
        files_map(v).contains_key(v[k].0@),
        files_map(v)[v[k].0@] == v[k].1,
    decreases v.len(),
{
    if k < v.len() - 1 {
        assert(v.drop_last()[k] == v[k]);
        lemma_files_map_has(v.drop_last(), k);
        assert(v.last().0@ != v[k].0@);
    }
}

proof fn lemma_files_map_lacks(v: Seq<(String, u64)>, name: Seq<char>)
    requires
        forall|k: int| 0 <= k < v.len() ==> (#[trigger] v[k]).0@ != name,
    ensures
        !files_map(v).contains_key(name),
    decreases v.len(),
{
    if v.len() > 0 {
        assert forall|k: int| 0 <= k < v.drop_last().len() implies (#[trigger] v.drop_last()[k]).0@ != name by {
            assert(v.drop_last()[k] == v[k]);
        }
        lemma_files_map_lacks(v.drop_last(), name);
    }
}

proof fn lemma_files_map_update(v: Seq<(String, u64)>, k: int, e: (String, u64))
    requires
        unique_names(v),
        0 <= k < v.len(),
        e.0@ == v[k].0@,
    ensures
        files_map(v.update(k, e)) == files_map(v).insert(e.0@, e.1),
    decreases v.len(),
{
    let u = v.update(k, e);
    if k == v.len() - 1 {
        assert(u.drop_last() =~= v.drop_last());
        assert(files_map(v).insert(e.0@, e.1) =~= files_map(v.drop_last()).insert(e.0@, e.1));
    } else {
        assert(u.drop_last() =~= v.drop_last().update(k, e));
        assert(v.drop_last()[k] == v[k]);
        lemma_files_map_update(v.drop_last(), k, e);
        assert(v.last().0@ != e.0@);
        assert(files_map(u) =~= files_map(v).insert(e.0@, e.1));
    }
}

/// The names a listing holds.
pub open spec fn listed_names(es: Seq<(Seq<char>, u64, bool)>) -> Set<Seq<char>> {
    Set::new(|n: Seq<char>| exists|i: int| 0 <= i < es.len() && (#[trigger] es[i]).0 == n)
}

/// Two memories that say the same of every name in `names`.
pub open spec fn agree_on(a: Map<Seq<char>, u64>, b: Map<Seq<char>, u64>, names: Set<Seq<char>>) -> bool {
    forall|n: Seq<char>| #[trigger] names.contains(n) ==> (a.contains_key(n) == b.contains_key(n) && (a.contains_key(n) ==> a[n] == b[n]))
}

/// A look goes by what is remembered of the listed names alone.
proof fn lemma_look_agrees(a: Map<Seq<char>, u64>, b: Map<Seq<char>, u64>, es: Seq<(Seq<char>, u64, bool)>, debounce: bool, names: Set<Seq<char>>)
    requires
        agree_on(a, b, names),
        forall|i: int| 0 <= i < es.len() ==> names.contains((#[trigger] es[i]).0),
    ensures
        look(a, es, debounce).1 == look(b, es, debounce).1,
        agree_on(look(a, es, debounce).0, look(b, es, debounce).0, names),
    decreases es.len(),
{
    if es.len() > 0 {
        let r = es.drop_last();
        assert forall|i: int| 0 <= i < r.len() implies names.contains((#[trigger] r[i]).0) by {
            assert(r[i] == es[i]);
        }
        lemma_look_agrees(a, b, r, debounce, names);
        assert(names.contains(es[es.len() - 1].0));
    }
}

/// Whether a file is in the listing.
fn in_listing(name: &str, listing: &Vec<(String, u64, bool)>) -> (r: bool)
    ensures
        r == listed_names(listing@.map_values(|e: (String, u64, bool)| entry_view(e))).contains(name@),
{
    let ghost es = listing@.map_values(|e: (String, u64, bool)| entry_view(e));
    let mut k: usize = 0;
    while k < listing.len()
        invariant
            k <= listing@.len(),
            es == listing@.map_values(|e: (String, u64, bool)| entry_view(e)),
            forall|j: int| 0 <= j < k ==> (#[trigger] es[j]).0 != name@,
        decreases listing.len() - k,
    {
        if same(listing[k].0.as_str(), name) {
            proof { assert(es[k as int].0 == name@); }
            return true;
        }
        proof { assert(es[k as int].0 == listing@[k as int].0@); }
        k = k + 1;
    }
    false
}

/// What a folder source has seen: every file it knows of, and when each
/// last changed. What was in the folder when the source armed is seen
/// already, so only what arrives afterwards is reported.
pub struct Seen {
    files: Vec<(String, u64)>,
}

impl Seen {
    #[verifier::type_invariant]
    closed spec fn distinct(&self) -> bool {
        unique_names(self.files@)
    }

    pub closed spec fn files(&self) -> Map<Seq<char>, u64> {
        files_map(self.files@)
    }

    /// Nothing seen yet.
    pub fn new() -> (s: Seen)
        ensures
            s.files() == Map::<Seq<char>, u64>::empty(),
    {
        Seen { files: Vec::new() }
    }

    /// Take one listing of the folder, in the order it was listed. Answers
    /// with the files to report, in that order. A file the listing no longer
    /// holds is forgotten, so it is reported again if it comes back.
    pub fn look(&mut self, listing: Vec<(String, u64, bool)>, debounce: bool) -> (reported: Vec<String>)
        ensures
            final(self).files() == look(old(self).files(), listing@.map_values(|e: (String, u64, bool)| entry_view(e)), debounce).0
                .restrict(listed_names(listing@.map_values(|e: (String, u64, bool)| entry_view(e)))),
            views(reported@) == look(old(self).files(), listing@.map_values(|e: (String, u64, bool)| entry_view(e)), debounce).1,
    {
        proof { use_type_invariant(&*self); }
        let ghost es = listing@.map_values(|e: (String, u64, bool)| entry_view(e));
        let ghost start = files_map(self.files@);
        let mut files: Vec<(String, u64)> = Vec::new();
        std::mem::swap(&mut files, &mut self.files);
        let mut reported: Vec<String> = Vec::new();
        let mut i: usize = 0;
        proof { assert(es.take(0) =~= Seq::<(Seq<char>, u64, bool)>::empty()); }
        while i < listing.len()
            invariant
                i <= listing@.len(),
                es == listing@.map_values(|e: (String, u64, bool)| entry_view(e)),
                unique_names(files@),
                files_map(files@) == look(start, es.take(i as int), debounce).0,
                views(reported@) == look(start, es.take(i as int), debounce).1,
            decreases listing.len() - i,
        {
            let name = &listing[i].0;
            let modified = listing[i].1;
            let settled = listing[i].2;
            proof {
                assert(es.take(i + 1).drop_last() =~= es.take(i as int));
                assert(es.take(i + 1).last() == entry_view(listing@[i as int]));
            }
            let mut k: usize = 0;
            let mut found: Option<usize> = None;
            while found.is_none() && k < files.len()
                invariant
                    k <= files@.len(),
                    found is None ==> forall|j: int| 0 <= j < k ==> (#[trigger] files@[j]).0@ != name@,
                    found matches Some(x) ==> x < files@.len() && files@[x as int].0@ == name@,
                decreases files.len() - k + if found is None { 1int } else { 0int },
            {
                if same(files[k].0.as_str(), name.as_str()) {
                    found = Some(k);
                } else {
                    k = k + 1;
                }
            }
            let ghost m = files_map(files@);
            match found {
                Some(k) => {
                    proof { lemma_files_map_has(files@, k as int); }
                    if files[k].1 != modified && (!debounce || settled) {
                        let entry = (name.clone(), modified);
                        proof { lemma_files_map_update(files@, k as int, entry); }
                        files.set(k, entry);
                        proof {
                            assert forall|a: int, b: int| 0 <= a < b < files@.len() implies (#[trigger] files@[a]).0@ != (#[trigger] files@[b]).0@ by {
                                if a != k as int && b != k as int {
                                } else if a == k as int {
                                    assert(files@[a].0@ == name@);
                                } else {
                                    assert(files@[b].0@ == name@);
                                }
                            }
                        }
                        let ghost before = views(reported@);
                        reported.push(name.clone());
                        proof { assert(views(reported@) =~= before.push(name@)); }
                    }
                },
                None => {
                    proof {
                        lemma_files_map_lacks(files@, name@);
                    }
                    if !debounce || settled {
                        let ghost old_files = files@;
                        files.push((name.clone(), modified));
                        proof {
                            assert(files@.drop_last() =~= old_files);
                            assert forall|a: int, b: int| 0 <= a < b < files@.len() implies (#[trigger] files@[a]).0@ != (#[trigger] files@[b]).0@ by {
                                if b == files@.len() - 1 {
                                    assert(files@[a] == old_files[a]);
                                } else {
                                    assert(files@[a] == old_files[a] && files@[b] == old_files[b]);
                                }
                            }
                        }
                        let ghost before = views(reported@);
                        reported.push(name.clone());
                        proof { assert(views(reported@) =~= before.push(name@)); }
                    }
                },
            }
            i = i + 1;
        }
        proof { assert(es.take(es.len() as int) =~= es); }
        // A file that went away is forgotten, so it is reported again if it
        // comes back.
        let ghost names = listed_names(es);
        let mut kept: Vec<(String, u64)> = Vec::new();
        let mut j: usize = 0;
        proof { assert(files@.take(0) =~= Seq::<(String, u64)>::empty()); }
        while j < files.len()
            invariant
                j <= files@.len(),
                es == listing@.map_values(|e: (String, u64, bool)| entry_view(e)),
                names == listed_names(es),
                unique_names(files@),
                unique_names(kept@),
                files_map(kept@) == files_map(files@.take(j as int)).restrict(names),
                forall|a: int| 0 <= a < kept@.len() ==> files_map(files@.take(j as int)).contains_key((#[trigger] kept@[a]).0@),
            decreases files.len() - j,
        {
            let ghost upto = files@.take(j as int);
            proof {
                assert(files@.take(j + 1).drop_last() =~= upto);
                assert(files@.take(j + 1).last() == files@[j as int]);
                assert forall|k: int| 0 <= k < upto.len() implies (#[trigger] upto[k]).0@ != files@[j as int].0@ by {
                    assert(upto[k] == files@[k]);
                }
                lemma_files_map_lacks(upto, files@[j as int].0@);
            }
            let listed = in_listing(files[j].0.as_str(), &listing);
            if listed {
                let entry = (files[j].0.clone(), files[j].1);
                let ghost before = kept@;
                kept.push(entry);
                proof {
                    assert(kept@.drop_last() =~= before);
                    assert forall|a: int, b: int| 0 <= a < b < kept@.len() implies (#[trigger] kept@[a]).0@ != (#[trigger] kept@[b]).0@ by {
                        if b == kept@.len() - 1 {
                            assert(kept@[a] == before[a]);
                            assert(files_map(upto).contains_key(before[a].0@));
                        } else {
                            assert(kept@[a] == before[a] && kept@[b] == before[b]);
                        }
                    }
                    assert(files_map(kept@) =~= files_map(files@.take(j + 1)).restrict(names));
                }
            } else {
                proof {
                    assert(files_map(kept@) =~= files_map(files@.take(j + 1)).restrict(names));
                }
            }
            proof {
                assert forall|a: int| 0 <= a < kept@.len() implies files_map(files@.take(j + 1)).contains_key((#[trigger] kept@[a]).0@) by {
                    if a < kept@.len() - 1 || !listed {
                    }
                }
            }
            j = j + 1;
        }
        proof { assert(files@.take(files@.len() as int) =~= files@); }
        self.files = kept;
        reported
    }
}

/// A file is reported once per change: looking again at a listing that has
/// not changed reports nothing, so a folder source never reports the same
/// arrival twice.
pub proof fn law_reported_once(seen: Map<Seq<char>, u64>, es: Seq<(Seq<char>, u64, bool)>, debounce: bool)
    requires
        forall|i: int, j: int| 0 <= i < j < es.len() ==> (#[trigger] es[i]).0 != (#[trigger] es[j]).0,
    ensures
        look(look(seen, es, debounce).0.restrict(listed_names(es)), es, debounce).1.len() == 0,
{
    let after = look(seen, es, debounce).0;
    let names = listed_names(es);
    lemma_look_settles(seen, es, debounce, es.len() as int);
    assert(es.take(es.len() as int) =~= es);
    assert forall|i: int| 0 <= i < es.len() implies names.contains((#[trigger] es[i]).0) by {
        assert(es[i].0 == es[i].0);
    }
    lemma_look_agrees(after.restrict(names), after, es, debounce, names);
}

/// After a look, every file of the listing that was let through is
/// remembered as it was listed, and what waits is still waiting.
proof fn lemma_look_remembers(seen: Map<Seq<char>, u64>, es: Seq<(Seq<char>, u64, bool)>, debounce: bool, i: int)
    requires
        forall|a: int, b: int| 0 <= a < b < es.len() ==> (#[trigger] es[a]).0 != (#[trigger] es[b]).0,
        0 <= i < es.len(),
        !debounce || es[i].2,
    ensures
        look(seen, es, debounce).0.contains_key(es[i].0),
        look(seen, es, debounce).0[es[i].0] == es[i].1,
    decreases es.len(),
{
    if i < es.len() - 1 {
        let r = es.drop_last();
        assert(r[i] == es[i]);
        assert forall|a: int, b: int| 0 <= a < b < r.len() implies (#[trigger] r[a]).0 != (#[trigger] r[b]).0 by {
            assert(r[a] == es[a] && r[b] == es[b]);
        }
        lemma_look_remembers(seen, r, debounce, i);
        assert(es.last().0 != es[i].0);
    }
}

/// Looking at the first `n` entries of the same listing again, after a look
/// at all of it, reports nothing and changes nothing.
proof fn lemma_look_settles(seen: Map<Seq<char>, u64>, es: Seq<(Seq<char>, u64, bool)>, debounce: bool, n: int)
    requires
        forall|i: int, j: int| 0 <= i < j < es.len() ==> (#[trigger] es[i]).0 != (#[trigger] es[j]).0,
        0 <= n <= es.len(),
    ensures
        look(look(seen, es, debounce).0, es.take(n), debounce).1.len() == 0,
        look(look(seen, es, debounce).0, es.take(n), debounce).0 == look(seen, es, debounce).0,
    decreases n,
{
    let after = look(seen, es, debounce).0;
    if n > 0 {
        assert(es.take(n).drop_last() =~= es.take(n - 1));
        assert(es.take(n).last() == es[n - 1]);
        lemma_look_settles(seen, es, debounce, n - 1);
        if !debounce || es[n - 1].2 {
            lemma_look_remembers(seen, es, debounce, n - 1);
        }
    } else {
        assert(es.take(0).len() == 0);
    }
}

} // verus!

verus! {

proof fn lemma_no_star(p: Seq<char>)
    requires
        forall|i: int| 0 <= i < p.len() ==> p[i] != '*',
    ensures
        crate::text::last_index(p, '*') is None,
    decreases p.len(),
{
    if p.len() > 0 {
        assert(p.last() != '*');
        lemma_no_star(p.drop_last());
    }
}

/// A pattern with no `*` matches the one name that is the pattern, and `*`
/// alone matches every name.
pub proof fn law_glob_plain_and_star(name: Seq<char>, pattern: Seq<char>)
    ensures
        (forall|i: int| 0 <= i < pattern.len() ==> pattern[i] != '*') ==> (glob(name, pattern) <==> name == pattern),
        glob(name, "*"@),
{
    if forall|i: int| 0 <= i < pattern.len() ==> pattern[i] != '*' {
        lemma_no_star(pattern);
        assert(split_on(pattern, '*') == seq![pattern]);
    }
    reveal_strlit("*");
    let star = "*"@;
    assert(star.len() == 1 && star[0] == '*');
    assert(crate::text::last_index(star, '*') == Some(0int));
    assert(star.take(0) =~= Seq::<char>::empty());
    assert(star.skip(1) =~= Seq::<char>::empty());
    assert(crate::text::last_index(Seq::<char>::empty(), '*') is None);
    let parts = split_on(star, '*');
    assert(split_on(Seq::<char>::empty(), '*') == seq![Seq::<char>::empty()]);
    assert(parts == split_on(star.take(0), '*').push(star.skip(1)));
    assert(parts =~= seq![Seq::<char>::empty(), Seq::<char>::empty()]);
    assert(name.take(0) =~= Seq::<char>::empty());
    assert(name.skip(name.len() as int) =~= Seq::<char>::empty());
    assert(parts.subrange(1, 1) =~= Seq::<Seq<char>>::empty());
}

} // verus!

verus! {

/// Runs of characters `xs` between the patterns `qs`: the first run, the
/// first pattern, the second run, and so on, ending with a run.
pub open spec fn weave(qs: Seq<Seq<char>>, xs: Seq<Seq<char>>) -> Seq<char>
    decreases qs.len(),
{
    if qs.len() == 0 {
        xs[0]
    } else {
        xs[0] + qs[0] + weave(qs.drop_first(), xs.drop_first())
    }
}

/// The pattern's pieces with the runs `xs` put where its stars are: the
/// first piece, the first run, the second piece, and so on.
pub open spec fn fill(parts: Seq<Seq<char>>, xs: Seq<Seq<char>>) -> Seq<char>
    decreases xs.len(),
{
    if xs.len() == 0 {
        parts[0]
    } else {
        parts[0] + xs[0] + fill(parts.drop_first(), xs.drop_first())
    }
}

/// Whether some choice of runs for the stars makes the name.
pub open spec fn star_language(name: Seq<char>, parts: Seq<Seq<char>>) -> bool {
    exists|xs: Seq<Seq<char>>| xs.len() + 1 == parts.len() && name == #[trigger] fill(parts, xs)
}

proof fn lemma_embeds_woven(s: Seq<char>, qs: Seq<Seq<char>>)
    requires
        embeds(s, qs),
    ensures
        exists|xs: Seq<Seq<char>>| xs.len() == qs.len() + 1 && s == #[trigger] weave(qs, xs),
    decreases qs.len(),
{
    if qs.len() == 0 {
        let xs = seq![s];
        assert(weave(qs, xs) == s);
    } else {
        let i = choose|i: int| #[trigger] occurs_at(s, qs[0], i) && embeds(s.skip(i + qs[0].len()), qs.drop_first());
        let rest = s.skip(i + qs[0].len());
        lemma_embeds_woven(rest, qs.drop_first());
        let ys = choose|ys: Seq<Seq<char>>| ys.len() == qs.drop_first().len() + 1 && rest == #[trigger] weave(qs.drop_first(), ys);
        let xs = seq![s.take(i)] + ys;
        assert(xs.drop_first() =~= ys);
        assert(xs[0] == s.take(i));
        assert(s =~= s.take(i) + qs[0] + rest);
        assert(weave(qs, xs) == xs[0] + qs[0] + weave(qs.drop_first(), xs.drop_first()));
    }
}

proof fn lemma_woven_embeds(qs: Seq<Seq<char>>, xs: Seq<Seq<char>>)
    requires
        xs.len() == qs.len() + 1,
    ensures
        embeds(weave(qs, xs), qs),
    decreases qs.len(),
{
    if qs.len() > 0 {
        let s = weave(qs, xs);
        let i = xs[0].len() as int;
        let rest = weave(qs.drop_first(), xs.drop_first());
        lemma_woven_embeds(qs.drop_first(), xs.drop_first());
        assert(s.subrange(i, i + qs[0].len()) =~= qs[0]);
        assert(s.skip(i + qs[0].len()) =~= rest);
        assert(occurs_at(s, qs[0], i));
    }
}

proof fn lemma_fill_split(parts: Seq<Seq<char>>, xs: Seq<Seq<char>>)
    requires
        parts.len() >= 2,
        xs.len() + 1 == parts.len(),
    ensures
        fill(parts, xs) == parts[0] + weave(parts.subrange(1, parts.len() - 1), xs) + parts.last(),
    decreases xs.len(),
{
    let mid = parts.subrange(1, parts.len() - 1);
    if xs.len() == 1 {
        assert(mid.len() == 0);
        assert(fill(parts.drop_first(), xs.drop_first()) == parts.drop_first()[0]);
        assert(parts.drop_first()[0] == parts.last());
        assert(weave(mid, xs) == xs[0]);
        assert(fill(parts, xs) =~= parts[0] + xs[0] + parts.last());
    } else {
        let p = parts.drop_first();
        lemma_fill_split(p, xs.drop_first());
        assert(p.subrange(1, p.len() - 1) =~= mid.drop_first());
        assert(mid[0] == parts[1]);
        assert(p.last() == parts.last());
        assert(weave(mid, xs) == xs[0] + mid[0] + weave(mid.drop_first(), xs.drop_first()));
        assert(fill(parts, xs) =~= parts[0] + weave(mid, xs) + parts.last());
    }
}

/// A folder pattern is read as a glob where each `*` stands for any run of
/// characters, the empty one included, and everything else stands for
/// itself: a name matches exactly when some choice of runs put where the
/// pattern's stars are spells it.
pub proof fn law_glob_is_the_star_language(name: Seq<char>, pattern: Seq<char>)
    ensures
        glob(name, pattern) <==> star_language(name, split_on(pattern, '*')),
{
    let parts = split_on(pattern, '*');
    crate::text::lemma_split_nonempty(pattern, '*');
    if parts.len() <= 1 {
        match crate::text::last_index(pattern, '*') {
            None => {},
            Some(i) => {
                crate::text::lemma_split_nonempty(pattern.take(i), '*');
            },
        }
        assert(parts == seq![pattern]);
        let e = Seq::<Seq<char>>::empty();
        assert(fill(parts, e) == pattern);
        if star_language(name, parts) {
            let xs = choose|xs: Seq<Seq<char>>| xs.len() + 1 == parts.len() && name == #[trigger] fill(parts, xs);
            assert(xs.len() == 0);
        }
        if name == pattern {
            assert(name == fill(parts, e));
        }
    } else {
        let first = parts[0];
        let last = parts.last();
        let mid = parts.subrange(1, parts.len() - 1);
        if glob(name, pattern) {
            let middle = name.subrange(first.len() as int, name.len() - last.len());
            lemma_embeds_woven(middle, mid);
            let xs = choose|xs: Seq<Seq<char>>| xs.len() == mid.len() + 1 && middle == #[trigger] weave(mid, xs);
            lemma_fill_split(parts, xs);
            assert(name =~= first + middle + last);
            assert(name == fill(parts, xs));
        }
        if star_language(name, parts) {
            let xs = choose|xs: Seq<Seq<char>>| xs.len() + 1 == parts.len() && name == #[trigger] fill(parts, xs);
            lemma_fill_split(parts, xs);
            let w = weave(mid, xs);
            lemma_woven_embeds(mid, xs);
            assert(name.take(first.len() as int) =~= first);
            assert(name.skip(name.len() - last.len()) =~= last);
            assert(name.subrange(first.len() as int, name.len() - last.len()) =~= w);
        }
    }
}

} // verus!

verus! {

/// How a source block is armed, and what its header chip says meanwhile.
pub enum ArmPlan {
    /// Fire every interval, as written.
    Schedule { every: String, state: String },
    /// Watch a folder for files matching a pattern.
    Watch { path: String, pattern: String, state: String },
    /// Listen on a port for requests to a path.
    Webhook { port: u16, route: String, state: String },
}

/// An arming as the contracts see it: which (schedule, watch, webhook), its
/// text (interval or folder), its pattern or path, its port, and its chip.
pub open spec fn arm_view(a: ArmPlan) -> (nat, Seq<char>, Seq<char>, u16, Seq<char>) {
    match a {
        ArmPlan::Schedule { every, state } => (0, every@, seq![], 0, state@),
        ArmPlan::Watch { path, pattern, state } => (1, path@, pattern@, 0, state@),
        ArmPlan::Webhook { port, route, state } => (2, seq![], route@, port, state@),
    }
}

pub open spec fn or_default(o: Option<&str>, d: Seq<char>) -> Seq<char> {
    match o {
        Some(s) => s@,
        None => d,
    }
}

/// How a block of this kind is armed from its settings, or why it cannot
/// be; a block that is not a source arms into nothing. Whether the interval
/// reads as one is asked by whoever reads its number.
pub open spec fn arm_plan_of(kind: Seq<char>, every: Option<&str>, path: Option<&str>, pattern: Option<&str>, port: Option<u16>, route: Option<&str>)
    -> Result<Option<(nat, Seq<char>, Seq<char>, u16, Seq<char>)>, Seq<char>>
{
    if kind == "schedule"@ {
        match every {
            None => Err("the Schedule has no interval: set Every to something like `15m`"@),
            Some(e) => Ok(Some((0, e@, seq![], 0, "every "@ + e@))),
        }
    } else if kind == "watch-folder"@ {
        match path {
            None => Err("the Watch folder has no path"@),
            Some(p) => Ok(Some((1, p@, or_default(pattern, "*"@), 0, "watching "@ + p@))),
        }
    } else if kind == "webhook"@ {
        match port {
            None => Err("the Webhook has no port"@),
            Some(n) => Ok(Some((2, seq![], or_default(route, "/"@), n, "listening on :"@ + crate::text::decimal(n as nat) + or_default(route, "/"@)))),
        }
    } else {
        Ok(None)
    }
}

fn given_or(o: Option<&str>, d: &str) -> (s: String)
    ensures
        s@ == or_default(o, d@),
{
    match o {
        Some(x) => owned(x),
        None => owned(d),
    }
}

/// Decide how to arm a source block.
pub fn arm_plan(kind: &str, every: Option<&str>, path: Option<&str>, pattern: Option<&str>, port: Option<u16>, route: Option<&str>) -> (r: Result<Option<ArmPlan>, String>)
    ensures
        match r {
            Ok(Some(a)) => arm_plan_of(kind@, every, path, pattern, port, route) == Ok::<_, Seq<char>>(Some(arm_view(a))),
            Ok(None) => arm_plan_of(kind@, every, path, pattern, port, route) == Ok::<Option<(nat, Seq<char>, Seq<char>, u16, Seq<char>)>, Seq<char>>(None),
            Err(e) => arm_plan_of(kind@, every, path, pattern, port, route) == Err::<Option<(nat, Seq<char>, Seq<char>, u16, Seq<char>)>, Seq<char>>(e@),
        },
{
    proof {
        reveal_strlit("schedule");
        reveal_strlit("watch-folder");
        reveal_strlit("webhook");
        reveal_strlit("*");
        reveal_strlit("/");
    }
    if same(kind, "schedule") {
        match every {
            None => Err(owned("the Schedule has no interval: set Every to something like `15m`")),
            Some(e) => {
                let mut state = owned("every ");
                append(&mut state, e);
                Ok(Some(ArmPlan::Schedule { every: owned(e), state }))
            },
        }
    } else if same(kind, "watch-folder") {
        match path {
            None => Err(owned("the Watch folder has no path")),
            Some(p) => {
                let mut state = owned("watching ");
                append(&mut state, p);
                Ok(Some(ArmPlan::Watch { path: owned(p), pattern: given_or(pattern, "*"), state }))
            },
        }
    } else if same(kind, "webhook") {
        match port {
            None => Err(owned("the Webhook has no port")),
            Some(n) => {
                let r = given_or(route, "/");
                let mut state = owned("listening on :");
                let digits = crate::text::decimal_of(n as u64);
                append(&mut state, digits.as_str());
                append(&mut state, r.as_str());
                Ok(Some(ArmPlan::Webhook { port: n, route: r, state }))
            },
        }
    } else {
        Ok(None)
    }
}

/// What a Schedule says when its interval does not read as one.
pub fn not_an_interval(every: &str) -> (s: String)
    ensures
        s@ == "`"@ + every@ + "` is not an interval; try `30s`, `15m` or `2h`"@,
{
    let mut s = owned("`");
    append(&mut s, every);
    append(&mut s, "` is not an interval; try `30s`, `15m` or `2h`");
    s
}

} // verus!

verus! {

proof fn lemma_look_leaves_others(seen: Map<Seq<char>, u64>, es: Seq<(Seq<char>, u64, bool)>, debounce: bool, name: Seq<char>)
    requires
        forall|i: int| 0 <= i < es.len() ==> (#[trigger] es[i]).0 != name,
    ensures
        look(seen, es, debounce).0.contains_key(name) == seen.contains_key(name),
        seen.contains_key(name) ==> look(seen, es, debounce).0[name] == seen[name],
        !look(seen, es, debounce).1.contains(name),
    decreases es.len(),
{
    if es.len() > 0 {
        let r = es.drop_last();
        assert forall|i: int| 0 <= i < r.len() implies (#[trigger] r[i]).0 != name by {
            assert(r[i] == es[i]);
        }
        lemma_look_leaves_others(seen, r, debounce, name);
        assert(es[es.len() - 1].0 != name);
        let (m, rep) = look(seen, r, debounce);
        let last = es.last();
        if rep.push(last.0).contains(name) {
            let k = choose|k: int| 0 <= k < rep.push(last.0).len() && rep.push(last.0)[k] == name;
            if k < rep.len() {
                assert(rep[k] == name);
            }
        }
    }
}

/// A look at a listing, each file in it once, reports exactly the files
/// that are new or have changed since they were last seen — waiting, when
/// the source debounces, for one still being written — and remembers each
/// one it reports as listed.
pub proof fn law_look_reports_what_changed(seen: Map<Seq<char>, u64>, es: Seq<(Seq<char>, u64, bool)>, debounce: bool)
    requires
        forall|i: int, j: int| 0 <= i < j < es.len() ==> (#[trigger] es[i]).0 != (#[trigger] es[j]).0,
    ensures
        forall|i: int| 0 <= i < es.len() ==> (look(seen, es, debounce).1.contains((#[trigger] es[i]).0)
            <==> ((!seen.contains_key(es[i].0) || seen[es[i].0] != es[i].1) && (!debounce || es[i].2))),
    decreases es.len(),
{
    if es.len() > 0 {
        let r = es.drop_last();
        assert forall|i: int, j: int| 0 <= i < j < r.len() implies (#[trigger] r[i]).0 != (#[trigger] r[j]).0 by {
            assert(r[i] == es[i] && r[j] == es[j]);
        }
        law_look_reports_what_changed(seen, r, debounce);
        let last = es.last();
        assert forall|i: int| 0 <= i < r.len() implies (#[trigger] r[i]).0 != last.0 by {
            assert(r[i] == es[i]);
        }
        lemma_look_leaves_others(seen, r, debounce, last.0);
        let (m, rep) = look(seen, r, debounce);
        assert forall|i: int| 0 <= i < es.len() implies (look(seen, es, debounce).1.contains((#[trigger] es[i]).0)
            <==> ((!seen.contains_key(es[i].0) || seen[es[i].0] != es[i].1) && (!debounce || es[i].2))) by {
            let out = look(seen, es, debounce).1;
            if i < r.len() {
                assert(es[i] == r[i]);
                assert(es[i].0 != last.0);
                if out.contains(es[i].0) && !rep.contains(es[i].0) {
                    let k = choose|k: int| 0 <= k < out.len() && out[k] == es[i].0;
                    assert(out == rep || out == rep.push(last.0));
                    if out == rep.push(last.0) && k < rep.len() {
                        assert(rep[k] == es[i].0);
                    }
                }
                if rep.contains(es[i].0) {
                    let k = choose|k: int| 0 <= k < rep.len() && rep[k] == es[i].0;
                    assert(out == rep || out == rep.push(last.0));
                    if out == rep.push(last.0) {
                        assert(out[k] == es[i].0);
                    }
                }
            } else {
                assert(es[i] == last);
                let changed = !m.contains_key(last.0) || m[last.0] != last.1;
                if changed && (!debounce || last.2) {
                    assert(out == rep.push(last.0));
                    assert(out[rep.len() as int] == last.0);
                } else {
                    assert(out == rep);
                }
            }
        }
    }
}

} // verus!
