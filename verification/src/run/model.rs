//! Names a model sees, and what can go wrong asking one.
//!
//! A Terminal is offered to a model as `terminal.run`, and that is the name the console and the trace show. It is not the name sent
//! to the model: the function-calling schema limits a name to letters,
//! digits, underscore and dash, so the dot becomes an underscore on the wire
//! and comes back as a dot on the way in. A block id may hold a dash or an
//! underscore already, which is why the way back splits at the last
//! underscore.
use vstd::prelude::*;
use crate::text::{chars_of, last_index, string_of};

verus! {

/// Every `from` in a text turned into `to`.
pub open spec fn swapped(s: Seq<char>, from: char, to: char) -> Seq<char> {
    s.map_values(|c: char| if c == from { to } else { c })
}

/// The name a person reads, from the name on the wire: the last underscore
/// is the dot, and a name without one is left as it is.
pub open spec fn display_of(wire: Seq<char>) -> Seq<char> {
    match last_index(wire, '_') {
        Some(i) => wire.take(i) + seq!['.'] + wire.skip(i + 1),
        None => wire,
    }
}

/// The name a tool is given on the wire: every dot an underscore.
pub fn wire_name(display: &str) -> (w: String)
    ensures
        w@ == swapped(display@, '.', '_'),
{
    let cs = chars_of(display);
    let mut out: Vec<char> = Vec::new();
    let mut i: usize = 0;
    while i < cs.len()
        invariant
            i <= cs@.len(),
            cs@ == display@,
            out@ == swapped(cs@.take(i as int), '.', '_'),
        decreases cs.len() - i,
    {
        let c = cs[i];
        out.push(if c == '.' { '_' } else { c });
        proof { assert(swapped(cs@.take(i + 1), '.', '_') =~= swapped(cs@.take(i as int), '.', '_').push(if c == '.' { '_' } else { c })); }
        i = i + 1;
    }
    proof { assert(cs@.take(cs@.len() as int) =~= cs@); }
    string_of(&out)
}

/// Turn a wire name back into the name a person reads.
pub fn display_name(wire: &str) -> (d: String)
    ensures
        d@ == display_of(wire@),
{
    let cs = chars_of(wire);
    let mut i = cs.len();
    proof { assert(cs@.take(i as int) =~= cs@); }
    while i > 0
        invariant
            i <= cs@.len(),
            cs@ == wire@,
            last_index(cs@, '_') == last_index(cs@.take(i as int), '_'),
        decreases i,
    {
        proof { assert(cs@.take(i as int).drop_last() =~= cs@.take(i - 1)); }
        if cs[i - 1] == '_' {
            let mut out: Vec<char> = Vec::new();
            let mut k: usize = 0;
            while k < cs.len()
                invariant
                    k <= cs@.len(),
                    i >= 1,
                    i <= cs@.len(),
                    out@ == Seq::new(k as nat, |j: int| if j == i - 1 { '.' } else { cs@[j] }),
                decreases cs.len() - k,
            {
                out.push(if k == i - 1 { '.' } else { cs[k] });
                proof {
                    assert(out@ =~= Seq::new((k + 1) as nat, |j: int| if j == i - 1 { '.' } else { cs@[j] }));
                }
                k = k + 1;
            }
            proof {
                assert(out@ =~= cs@.take(i - 1) + seq!['.'] + cs@.skip(i as int));
            }
            return string_of(&out);
        }
        i = i - 1;
    }
    string_of(&cs)
}

proof fn lemma_last_index_none(s: Seq<char>, c: char)
    requires
        !s.contains(c),
    ensures
        last_index(s, c) is None,
    decreases s.len(),
{
    if s.len() > 0 {
        assert(s.last() == s[s.len() - 1]);
        assert(!s.drop_last().contains(c)) by {
            if s.drop_last().contains(c) {
                let k = choose|k: int| 0 <= k < s.drop_last().len() && s.drop_last()[k] == c;
                assert(s[k] == c);
            }
        }
        lemma_last_index_none(s.drop_last(), c);
    }
}

proof fn lemma_last_index_tail(a: Seq<char>, b: Seq<char>, c: char)
    requires
        !b.contains(c),
    ensures
        last_index(a.push(c) + b, c) == Some(a.len() as int),
    decreases b.len(),
{
    if b.len() == 0 {
        assert(a.push(c) + b =~= a.push(c));
    } else {
        assert(b.last() == b[b.len() - 1]);
        assert(!b.drop_last().contains(c)) by {
            if b.drop_last().contains(c) {
                let k = choose|k: int| 0 <= k < b.drop_last().len() && b.drop_last()[k] == c;
                assert(b[k] == c);
            }
        }
        assert((a.push(c) + b).drop_last() =~= a.push(c) + b.drop_last());
        lemma_last_index_tail(a, b.drop_last(), c);
    }
}

/// A tool name survives the trip to the model and back: `terminal.run` goes
/// out as `terminal_run` and comes back as `terminal.run`, and a block id
/// with a dash or an underscore in it keeps them, because the way back
/// splits at the last underscore and a verb has none.
pub proof fn law_round_trip(block: Seq<char>, verb: Seq<char>)
    requires
        !block.contains('.'),
        !verb.contains('.'),
        !verb.contains('_'),
    ensures
        display_of(swapped(block + seq!['.'] + verb, '.', '_')) == block + seq!['.'] + verb,
{
    let w = swapped(block + seq!['.'] + verb, '.', '_');
    assert(swapped(block, '.', '_') =~= block) by {
        assert forall|k: int| 0 <= k < block.len() implies block[k] != '.' by {
            if block[k] == '.' { assert(block.contains('.')); }
        }
    }
    assert(swapped(verb, '.', '_') =~= verb) by {
        assert forall|k: int| 0 <= k < verb.len() implies verb[k] != '.' by {
            if verb[k] == '.' { assert(verb.contains('.')); }
        }
    }
    assert(w =~= block.push('_') + verb);
    lemma_last_index_tail(block, verb, '_');
    assert(w.take(block.len() as int) =~= block);
    assert(w.skip(block.len() + 1int) =~= verb);
}

/// What can go wrong asking a model.
#[derive(Debug, Clone, PartialEq, Eq)]
pub enum ModelError {
    /// The provider could not be reached at all. Its own sentence, because
    /// "connection refused" is not something to show a person.
    Unreachable(String),
    /// It answered, and said no.
    Refused(String),
    /// It answered with something this does not understand.
    Malformed(String),
}

impl ModelError {
    /// The sentence a person reads, which is the one the error carries.
    pub fn message(&self) -> (s: String)
        ensures
            s@ == match self {
                ModelError::Unreachable(m) => m@,
                ModelError::Refused(m) => m@,
                ModelError::Malformed(m) => m@,
            },
    {
        match self {
            ModelError::Unreachable(m) => m.clone(),
            ModelError::Refused(m) => m.clone(),
            ModelError::Malformed(m) => m.clone(),
        }
    }
}

} // verus!
