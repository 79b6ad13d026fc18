//! What travels along a wire, as far as the library needs to know it.
use vstd::prelude::*;
use crate::text::{char_count, chars_of, is_space, join, join_with, push_char, slice, space, string_of, views};

verus! {

/// Bytes that are too big to put in an event, named by where they landed.
///
/// An image or an audio buffer goes to a file in the run's scratch folder and
/// travels as a reference; the alternative is base64 in a JSON line, which
/// would make the console unreadable and the socket the bottleneck.
#[derive(Debug, Clone, PartialEq, Eq)]
pub struct Media {
    pub path: String,
    /// `image/png`, `audio/wav`. The shell picks a preview from it.
    pub mime: String,
    pub bytes: u32,
}

} // verus!

verus! {

/// A text cut at every white space character, empty pieces included.
pub open spec fn split_space(s: Seq<char>) -> Seq<Seq<char>>
    decreases s.len(),
{
    if s.len() == 0 {
        seq![seq![]]
    } else {
        let p = split_space(s.drop_last());
        if is_space(s.last()) { p.push(seq![]) } else { p.drop_last().push(p.last().push(s.last())) }
    }
}

/// The pieces that are not empty: the words.
pub open spec fn nonempty(ps: Seq<Seq<char>>) -> Seq<Seq<char>>
    decreases ps.len(),
{
    if ps.len() == 0 {
        seq![]
    } else {
        let rest = nonempty(ps.drop_last());
        if ps.last().len() == 0 { rest } else { rest.push(ps.last()) }
    }
}

/// The words of a text, as `split_whitespace` finds them.
pub open spec fn words(s: Seq<char>) -> Seq<Seq<char>> {
    nonempty(split_space(s))
}

/// A text on one line: its words, one space between each.
pub open spec fn flat(s: Seq<char>) -> Seq<char> {
    join(words(s), " "@)
}

/// A text fit to show on a block while a run is in flight: on one line, and
/// never more than `width` characters, the last of them an ellipsis when
/// some had to go.
pub open spec fn fitted(s: Seq<char>, width: nat) -> Seq<char> {
    let f = flat(s);
    if f.len() <= width {
        f
    } else if width == 0 {
        seq![]
    } else {
        f.take(width - 1) + seq!['…']
    }
}

proof fn lemma_split_space_nonempty(s: Seq<char>)
    ensures
        split_space(s).len() >= 1,
    decreases s.len(),
{
    if s.len() > 0 {
        lemma_split_space_nonempty(s.drop_last());
    }
}

/// The words of a text, in order.
fn words_of(s: &str) -> (v: Vec<String>)
    ensures
        views(v@) == words(s@),
{
    let cs = chars_of(s);
    let mut done: Vec<String> = Vec::new();
    let mut cur: Vec<char> = Vec::new();
    let mut i: usize = 0;
    proof {
        assert(cs@.take(0) =~= Seq::<char>::empty());
        assert(nonempty(split_space(Seq::<char>::empty()).drop_last()) =~= Seq::<Seq<char>>::empty());
    }
    while i < cs.len()
        invariant
            i <= cs@.len(),
            cs@ == s@,
            split_space(cs@.take(i as int)).len() >= 1,
            cur@ == split_space(cs@.take(i as int)).last(),
            views(done@) == nonempty(split_space(cs@.take(i as int)).drop_last()),
        decreases cs.len() - i,
    {
        let c = cs[i];
        let ghost pre = cs@.take(i as int);
        let ghost p = split_space(pre);
        proof {
            assert(cs@.take(i + 1).drop_last() =~= pre);
            assert(cs@.take(i + 1).last() == c);
            lemma_split_space_nonempty(pre);
        }
        if space(c) {
            if cur.len() > 0 {
                let word = string_of(cur.as_slice());
                let ghost before = views(done@);
                done.push(word);
                proof {
                    assert(views(done@) =~= before.push(p.last()));
                    assert(p.push(seq![]).drop_last() =~= p);
                    assert(p =~= p.drop_last().push(p.last()));
                }
            } else {
                proof {
                    assert(p.push(seq![]).drop_last() =~= p);
                    assert(p =~= p.drop_last().push(p.last()));
                }
            }
            cur = Vec::new();
        } else {
            cur.push(c);
            proof {
                assert(p.drop_last().push(p.last().push(c)).drop_last() =~= p.drop_last());
            }
        }
        i = i + 1;
    }
    proof {
        assert(cs@.take(cs@.len() as int) =~= cs@);
        let p = split_space(s@);
        assert(p =~= p.drop_last().push(p.last()));
    }
    if cur.len() > 0 {
        let word = string_of(cur.as_slice());
        let ghost before = views(done@);
        done.push(word);
        proof { assert(views(done@) =~= before.push(split_space(s@).last())); }
    }
    done
}

/// The line a block shows for a value while the run is in flight, from the
/// value's text: its words on one line, cut to `width` characters.
pub fn one_line(text: &str, width: usize) -> (s: String)
    ensures
        s@ == fitted(text@, width as nat),
{
    let ws = words_of(text);
    let f = join_with(&ws, " ");
    let n = char_count(f.as_str());
    if n <= width {
        return f;
    }
    if width == 0 {
        return String::new();
    }
    let keep: usize = width - 1;
    let mut s = slice(f.as_str(), 0, keep);
    proof { assert(f@.subrange(0, keep as int) =~= f@.take(keep as int)); }
    push_char(&mut s, '…');
    s
}

} // verus!

verus! {

pub open spec fn spaceless(s: Seq<char>) -> bool {
    forall|i: int| 0 <= i < s.len() ==> !is_space(#[trigger] s[i])
}

proof fn lemma_split_spaceless(s: Seq<char>)
    ensures
        forall|k: int| 0 <= k < split_space(s).len() ==> spaceless(#[trigger] split_space(s)[k]),
    decreases s.len(),
{
    if s.len() > 0 {
        lemma_split_spaceless(s.drop_last());
        lemma_split_space_nonempty(s.drop_last());
        let p = split_space(s.drop_last());
        if !is_space(s.last()) {
            let q = p.drop_last().push(p.last().push(s.last()));
            assert forall|k: int| 0 <= k < q.len() implies spaceless(#[trigger] q[k]) by {
                if k < p.len() - 1 {
                    assert(q[k] == p[k]);
                } else {
                    assert(spaceless(p[p.len() - 1]));
                    assert forall|i: int| 0 <= i < q[k].len() implies !is_space(#[trigger] q[k][i]) by {
                        if i < p.last().len() {
                            assert(q[k][i] == p.last()[i]);
                        }
                    }
                }
            }
        } else {
            let q = p.push(seq![]);
            assert forall|k: int| 0 <= k < q.len() implies spaceless(#[trigger] q[k]) by {
                if k < p.len() {
                    assert(q[k] == p[k]);
                }
            }
        }
    }
}

proof fn lemma_nonempty_keeps(ps: Seq<Seq<char>>)
    requires
        forall|k: int| 0 <= k < ps.len() ==> spaceless(#[trigger] ps[k]),
    ensures
        forall|k: int| 0 <= k < nonempty(ps).len() ==> spaceless(#[trigger] nonempty(ps)[k]),
    decreases ps.len(),
{
    if ps.len() > 0 {
        let r = ps.drop_last();
        assert forall|k: int| 0 <= k < r.len() implies spaceless(#[trigger] r[k]) by {
            assert(r[k] == ps[k]);
        }
        lemma_nonempty_keeps(r);
        let rest = nonempty(r);
        if ps.last().len() > 0 {
            assert forall|k: int| 0 <= k < rest.push(ps.last()).len() implies spaceless(#[trigger] rest.push(ps.last())[k]) by {
                if k < rest.len() {
                    assert(rest.push(ps.last())[k] == rest[k]);
                } else {
                    assert(spaceless(ps[ps.len() - 1]));
                }
            }
        }
    }
}

proof fn lemma_join_no_newline(parts: Seq<Seq<char>>)
    requires
        forall|k: int| 0 <= k < parts.len() ==> spaceless(#[trigger] parts[k]),
    ensures
        !join(parts, " "@).contains('\n'),
    decreases parts.len(),
{
    reveal_strlit(" ");
    if parts.len() == 1 {
        assert(spaceless(parts[0]));
        if parts[0].contains('\n') {
            let i = choose|i: int| 0 <= i < parts[0].len() && parts[0][i] == '\n';
            assert(is_space(parts[0][i]));
        }
    } else if parts.len() > 1 {
        let r = parts.drop_last();
        assert forall|k: int| 0 <= k < r.len() implies spaceless(#[trigger] r[k]) by {
            assert(r[k] == parts[k]);
        }
        lemma_join_no_newline(r);
        let a = join(r, " "@);
        let l = parts.last();
        assert(spaceless(parts[parts.len() - 1]));
        let j = a + " "@ + l;
        if j.contains('\n') {
            let i = choose|i: int| 0 <= i < j.len() && j[i] == '\n';
            if i < a.len() {
                assert(a[i] == j[i]);
            } else if i == a.len() {
                assert(j[i] == ' ');
            } else {
                assert(j[i] == l[i - a.len() - 1]);
                assert(is_space(l[i - a.len() - 1]));
            }
        }
    }
}

/// A value's line never holds a newline, so a block's height does not
/// change while a run is in flight; and it is never wider than asked.
pub proof fn law_one_line_is_one_line(s: Seq<char>, width: nat)
    ensures
        !fitted(s, width).contains('\n'),
        fitted(s, width).len() <= width,
{
    lemma_split_spaceless(s);
    lemma_nonempty_keeps(split_space(s));
    lemma_join_no_newline(words(s));
    let f = flat(s);
    if f.len() > width && width > 0 {
        let t = f.take(width - 1) + seq!['…'];
        if t.contains('\n') {
            let i = choose|i: int| 0 <= i < t.len() && t[i] == '\n';
            if i < width - 1 {
                assert(t[i] == f[i]);
                assert(f.contains('\n'));
            }
        }
    }
}

} // verus!

verus! {

/// The line a block shows for a value: a port that produced nothing shows a
/// dash, and anything else its text, on one line, cut to `width`.
pub fn value_line(text: Option<&str>, width: usize) -> (s: String)
    ensures
        s@ == match text { Some(t) => fitted(t@, width as nat), None => "—"@ },
{
    match text {
        Some(t) => one_line(t, width),
        None => crate::text::owned("—"),
    }
}

} // verus!
