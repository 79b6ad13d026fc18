//! Strings as sequences of characters: what the rest of the library reads
//! and writes text with.
use vstd::prelude::*;

verus! {

/// The Unicode scalar value of a character.
pub fn code_point(c: char) -> (n: u32)
    ensures
        n as int == c as int,
{
    c as u32
}

/// Appends one character. `String::push`, whose documentation says it
/// appends the given `char` to the end of the string.
#[verifier::external_body]
pub fn push_char(s: &mut String, c: char)
    ensures
        final(s)@ == old(s)@.push(c),
{
    s.push(c);
}

/// The characters of a string, in order.
pub fn chars_of(s: &str) -> (v: Vec<char>)
    ensures
        v@ == s@,
{
    let mut v: Vec<char> = Vec::new();
    for c in it: s.chars()
        invariant
            v@ == it.seq().take(it.index() as int),
            it.seq() == s@,
    {
        v.push(c);
    }
    v
}

/// A string holding exactly these characters.
pub fn string_of(v: &[char]) -> (s: String)
    ensures
        s@ == v@,
{
    let mut s = String::new();
    let mut i: usize = 0;
    while i < v.len()
        invariant
            i <= v.len(),
            s@ == v@.take(i as int),
        decreases v.len() - i,
    {
        push_char(&mut s, v[i]);
        i = i + 1;
    }
    s
}

} // verus!

verus! {

/// The decimal digits of a number, most significant first, as `Display`
/// writes an unsigned integer.
pub open spec fn decimal(n: nat) -> Seq<char>
    decreases n,
{
    if n < 10 {
        seq![digit(n)]
    } else {
        decimal(n / 10).push(digit(n % 10))
    }
}

pub open spec fn digit(d: nat) -> char {
    if d == 0 { '0' } else if d == 1 { '1' } else if d == 2 { '2' } else if d == 3 { '3' }
    else if d == 4 { '4' } else if d == 5 { '5' } else if d == 6 { '6' } else if d == 7 { '7' }
    else if d == 8 { '8' } else { '9' }
}

fn digit_char(d: u64) -> (c: char)
    requires d < 10,
    ensures c == digit(d as nat),
{
    if d == 0 { '0' } else if d == 1 { '1' } else if d == 2 { '2' } else if d == 3 { '3' }
    else if d == 4 { '4' } else if d == 5 { '5' } else if d == 6 { '6' } else if d == 7 { '7' }
    else if d == 8 { '8' } else { '9' }
}

/// A number written out in decimal.
pub fn decimal_of(n: u64) -> (s: String)
    ensures
        s@ == decimal(n as nat),
    decreases n,
{
    if n < 10 {
        let mut s = String::new();
        push_char(&mut s, digit_char(n));
        s
    } else {
        let mut s = decimal_of(n / 10);
        push_char(&mut s, digit_char(n % 10));
        s
    }
}

/// Text followed by more text.
pub fn append(s: &mut String, more: &str)
    ensures
        final(s)@ == old(s)@ + more@,
{
    s.append(more);
}

/// A string with the same characters as a literal.
pub fn owned(s: &str) -> (r: String)
    ensures
        r@ == s@,
{
    s.to_owned()
}

} // verus!

verus! {

/// Byte order on strings, which is code point order on their characters:
/// the order a `BTreeSet<String>` keeps.
pub open spec fn seq_less(a: Seq<char>, b: Seq<char>) -> bool
    decreases a.len(),
{
    if a.len() == 0 {
        b.len() > 0
    } else if b.len() == 0 {
        false
    } else if a[0] != b[0] {
        (a[0] as int) < (b[0] as int)
    } else {
        seq_less(a.drop_first(), b.drop_first())
    }
}

pub proof fn lemma_less_irreflexive(a: Seq<char>)
    ensures
        !seq_less(a, a),
    decreases a.len(),
{
    if a.len() > 0 {
        lemma_less_irreflexive(a.drop_first());
    }
}

pub proof fn lemma_less_trichotomy(a: Seq<char>, b: Seq<char>)
    ensures
        seq_less(a, b) || seq_less(b, a) || a == b,
        !(seq_less(a, b) && seq_less(b, a)),
    decreases a.len(),
{
    if a.len() > 0 && b.len() > 0 {
        if a[0] == b[0] {
            lemma_less_trichotomy(a.drop_first(), b.drop_first());
            if a.drop_first() == b.drop_first() && a.len() == b.len() {
                assert forall|k: int| 0 <= k < a.len() implies a[k] == b[k] by {
                    if k > 0 {
                        assert(a[k] == a.drop_first()[k - 1]);
                        assert(b[k] == b.drop_first()[k - 1]);
                    }
                }
                assert(a =~= b);
            }
        } else {
            assert((a[0] as int) != (b[0] as int));
        }
    } else if a.len() == 0 && b.len() == 0 {
        assert(a =~= b);
    }
}

pub proof fn lemma_less_transitive(a: Seq<char>, b: Seq<char>, c: Seq<char>)
    requires
        seq_less(a, b),
        seq_less(b, c),
    ensures
        seq_less(a, c),
    decreases a.len(),
{
    if a.len() > 0 && b.len() > 0 && c.len() > 0 {
        if a[0] == b[0] && b[0] == c[0] {
            lemma_less_transitive(a.drop_first(), b.drop_first(), c.drop_first());
        }
    }
}

/// Whether `a` sorts before `b`.
pub fn less(a: &str, b: &str) -> (r: bool)
    ensures
        r == seq_less(a@, b@),
{
    let x = chars_of(a);
    let y = chars_of(b);
    let mut i: usize = 0;
    proof {
        assert(a@.skip(0) =~= a@);
        assert(b@.skip(0) =~= b@);
    }
    while i < x.len() && i < y.len()
        invariant
            i <= x@.len(),
            i <= y@.len(),
            x@ == a@,
            y@ == b@,
            forall|j: int| 0 <= j < i ==> x@[j] == y@[j],
            seq_less(a@, b@) == seq_less(a@.skip(i as int), b@.skip(i as int)),
        decreases x.len() - i,
    {
        if x[i] != y[i] {
            let c: char = x[i];
            let d: char = y[i];
            let r = code_point(c) < code_point(d);
            proof {
                assert(a@.skip(i as int).len() > 0 && b@.skip(i as int).len() > 0);
                assert(a@.skip(i as int)[0] == x@[i as int]);
                assert(b@.skip(i as int)[0] == y@[i as int]);
                assert(r == ((x@[i as int] as int) < (y@[i as int] as int)));
            }
            return r;
        }
        proof {
            assert(a@.skip(i as int).drop_first() =~= a@.skip(i + 1));
            assert(b@.skip(i as int).drop_first() =~= b@.skip(i + 1));
        }
        i = i + 1;
    }
    i == x.len() && i < y.len()
}

/// Strictly increasing, so no two the same.
pub open spec fn sorted_unique(v: Seq<Seq<char>>) -> bool {
    forall|i: int, j: int| 0 <= i < j < v.len() ==> seq_less(#[trigger] v[i], #[trigger] v[j])
}

pub open spec fn views(v: Seq<String>) -> Seq<Seq<char>> {
    v.map_values(|s: String| s@)
}

/// Adds a string to a sorted set of strings, keeping it sorted; a string
/// already there is not added twice.
pub fn insert_sorted(v: &mut Vec<String>, s: String)
    requires
        sorted_unique(views(old(v)@)),
    ensures
        sorted_unique(views(final(v)@)),
        views(final(v)@).to_set() == views(old(v)@).to_set().insert(s@),
{
    let ghost before = views(v@);
    let mut p: usize = 0;
    while p < v.len() && less(v[p].as_str(), s.as_str())
        invariant
            p <= v@.len(),
            views(v@) == before,
            sorted_unique(before),
            forall|j: int| 0 <= j < p ==> seq_less(#[trigger] before[j], s@),
        decreases v.len() - p,
    {
        p = p + 1;
    }
    if p < v.len() && v[p] == s {
        proof {
            assert(before[p as int] == s@);
            assert(before.to_set().insert(s@) =~= before.to_set());
        }
        return;
    }
    proof {
        if p < v@.len() {
            lemma_less_trichotomy(before[p as int], s@);
            assert(seq_less(s@, before[p as int]));
        }
    }
    v.insert(p, s);
    proof {
        let after = views(v@);
        assert forall|i: int, j: int| 0 <= i < j < after.len() implies seq_less(#[trigger] after[i], #[trigger] after[j]) by {
            if j < p {
                assert(after[i] == before[i] && after[j] == before[j]);
            } else if j == p {
                assert(after[i] == before[i]);
            } else if i < p {
                assert(after[i] == before[i] && after[j] == before[j - 1]);
                if j - 1 > p {
                    lemma_less_transitive(s@, before[p as int], before[j - 1]);
                }
                lemma_less_transitive(before[i], s@, before[j - 1]);
            } else if i == p {
                assert(after[j] == before[j - 1]);
                if j - 1 > p {
                    lemma_less_transitive(s@, before[p as int], before[j - 1]);
                }
            } else {
                assert(after[i] == before[i - 1] && after[j] == before[j - 1]);
            }
        }
        assert(after.to_set() =~= before.to_set().insert(s@)) by {
            assert forall|x: Seq<char>| after.to_set().contains(x) implies before.to_set().insert(s@).contains(x) by {
                let k = choose|k: int| 0 <= k < after.len() && after[k] == x;
                if k < p { assert(before[k] == x); } else if k > p { assert(before[k - 1] == x); }
            }
            assert forall|x: Seq<char>| before.to_set().insert(s@).contains(x) implies after.to_set().contains(x) by {
                if x == s@ {
                    assert(after[p as int] == x);
                } else {
                    let k = choose|k: int| 0 <= k < before.len() && before[k] == x;
                    if k < p { assert(after[k] == x); } else { assert(after[k + 1] == x); }
                }
            }
        }
    }
}

} // verus!

verus! {

/// Whether a list of strings holds this one.
pub fn contains(v: &Vec<String>, s: &String) -> (r: bool)
    ensures
        r == views(v@).contains(s@),
{
    let mut i: usize = 0;
    while i < v.len()
        invariant
            i <= v@.len(),
            forall|j: int| 0 <= j < i ==> v@[j]@ != s@,
        decreases v.len() - i,
    {
        if v[i] == *s {
            proof { assert(views(v@)[i as int] == s@); }
            return true;
        }
        i = i + 1;
    }
    proof {
        if views(v@).contains(s@) {
            let k = choose|k: int| 0 <= k < views(v@).len() && views(v@)[k] == s@;
            assert(v@[k]@ == s@);
        }
    }
    false
}

/// Copies of these strings.
pub fn copies(v: &Vec<String>) -> (c: Vec<String>)
    ensures
        views(c@) == views(v@),
{
    let mut c: Vec<String> = Vec::new();
    let mut i: usize = 0;
    while i < v.len()
        invariant
            i <= v@.len(),
            views(c@) == views(v@).take(i as int),
        decreases v.len() - i,
    {
        c.push(v[i].clone());
        proof { assert(views(v@).take(i + 1) =~= views(v@).take(i as int).push(v@[i as int]@)); }
        i = i + 1;
    }
    proof { assert(views(v@).take(v@.len() as int) =~= views(v@)); }
    c
}

/// Pieces of text with a separator between each two.
pub open spec fn join(parts: Seq<Seq<char>>, sep: Seq<char>) -> Seq<char>
    decreases parts.len(),
{
    if parts.len() == 0 {
        seq![]
    } else if parts.len() == 1 {
        parts[0]
    } else {
        join(parts.drop_last(), sep) + sep + parts.last()
    }
}

pub fn join_with(parts: &Vec<String>, sep: &str) -> (s: String)
    ensures
        s@ == join(views(parts@), sep@),
{
    let mut s = String::new();
    let mut i: usize = 0;
    while i < parts.len()
        invariant
            i <= parts@.len(),
            s@ == join(views(parts@).take(i as int), sep@),
        decreases parts.len() - i,
    {
        proof {
            assert(views(parts@).take(i + 1).drop_last() =~= views(parts@).take(i as int));
        }
        if i > 0 {
            append(&mut s, sep);
        }
        append(&mut s, parts[i].as_str());
        proof {
            if i == 0 {
                assert(s@ =~= views(parts@).take(1)[0]);
            }
        }
        i = i + 1;
    }
    proof { assert(views(parts@).take(parts@.len() as int) =~= views(parts@)); }
    s
}

} // verus!

verus! {

/// Whether two strings hold the same characters.
pub fn same(a: &str, b: &str) -> (r: bool)
    ensures
        r == (a@ == b@),
{
    let x = chars_of(a);
    let y = chars_of(b);
    if x.len() != y.len() {
        return false;
    }
    let mut i: usize = 0;
    while i < x.len()
        invariant
            i <= x@.len(),
            x@.len() == y@.len(),
            x@ == a@,
            y@ == b@,
            forall|j: int| 0 <= j < i ==> x@[j] == y@[j],
        decreases x.len() - i,
    {
        if x[i] != y[i] {
            return false;
        }
        i = i + 1;
    }
    proof { assert(x@ =~= y@); }
    true
}

} // verus!

verus! {

pub open spec fn is_digit(c: char) -> bool {
    '0' <= c && c <= '9'
}

pub proof fn lemma_digit_is_digit(d: nat)
    ensures
        is_digit(digit(d)),
        d < 10 ==> digit(d) == digit(d % 10),
{
}

pub proof fn lemma_digit_injective(a: nat, b: nat)
    requires
        a < 10,
        b < 10,
        digit(a) == digit(b),
    ensures
        a == b,
{
}

/// Decimal digits and nothing else, at least one of them.
pub proof fn lemma_decimal_digits(n: nat)
    ensures
        decimal(n).len() >= 1,
        n >= 10 ==> decimal(n).len() >= 2,
        forall|i: int| 0 <= i < decimal(n).len() ==> is_digit(#[trigger] decimal(n)[i]),
    decreases n,
{
    if n >= 10 {
        lemma_decimal_digits(n / 10);
        lemma_digit_is_digit(n % 10);
        let s = decimal(n);
        assert forall|i: int| 0 <= i < s.len() implies is_digit(#[trigger] s[i]) by {
            if i < s.len() - 1 {
                assert(s[i] == decimal(n / 10)[i]);
            }
        }
    } else {
        lemma_digit_is_digit(n);
    }
}

/// Two numbers written the same way are the same number.
pub proof fn lemma_decimal_injective(a: nat, b: nat)
    requires
        decimal(a) == decimal(b),
    ensures
        a == b,
    decreases a,
{
    lemma_decimal_digits(a);
    lemma_decimal_digits(b);
    if a < 10 && b < 10 {
        assert(decimal(a)[0] == digit(a));
        assert(decimal(b)[0] == digit(b));
        assert(decimal(a)[0] == decimal(b)[0]);
        lemma_digit_injective(a, b);
    } else if a >= 10 && b >= 10 {
        let da = decimal(a);
        let db = decimal(b);
        assert(da.last() == digit(a % 10));
        assert(db.last() == digit(b % 10));
        lemma_digit_injective(a % 10, b % 10);
        assert(decimal(a / 10) =~= da.drop_last());
        assert(decimal(b / 10) =~= db.drop_last());
        lemma_decimal_injective(a / 10, b / 10);
    } else {
        assert(decimal(a).len() != decimal(b).len());
    }
}

} // verus!

verus! {

/// Whether a character is white space, as `char::is_whitespace` documents
/// it: the Unicode `White_Space` property.
pub open spec fn is_space(c: char) -> bool {
    let n = c as int;
    ||| 0x09 <= n <= 0x0d
    ||| n == 0x20 || n == 0x85 || n == 0xa0 || n == 0x1680
    ||| 0x2000 <= n <= 0x200a
    ||| n == 0x2028 || n == 0x2029 || n == 0x202f || n == 0x205f || n == 0x3000
}

pub fn space(c: char) -> (r: bool)
    ensures
        r == is_space(c),
{
    let n = code_point(c);
    (0x09 <= n && n <= 0x0d) || n == 0x20 || n == 0x85 || n == 0xa0 || n == 0x1680
        || (0x2000 <= n && n <= 0x200a) || n == 0x2028 || n == 0x2029 || n == 0x202f
        || n == 0x205f || n == 0x3000
}

/// Nothing but white space, which is what `trim().is_empty()` asks.
pub open spec fn all_space(s: Seq<char>) -> bool {
    forall|i: int| 0 <= i < s.len() ==> is_space(#[trigger] s[i])
}

/// The text with its trailing white space taken off.
pub open spec fn trim_end_of(s: Seq<char>) -> Seq<char>
    decreases s.len(),
{
    if s.len() > 0 && is_space(s.last()) { trim_end_of(s.drop_last()) } else { s }
}

/// The text with its leading white space taken off.
pub open spec fn trim_start_of(s: Seq<char>) -> Seq<char>
    decreases s.len(),
{
    if s.len() > 0 && is_space(s[0]) { trim_start_of(s.drop_first()) } else { s }
}

/// The text with white space taken off both ends.
pub open spec fn trim_of(s: Seq<char>) -> Seq<char> {
    trim_start_of(trim_end_of(s))
}

pub fn is_blank(s: &str) -> (r: bool)
    ensures
        r == all_space(s@),
{
    let cs = chars_of(s);
    let mut i: usize = 0;
    while i < cs.len()
        invariant
            i <= cs@.len(),
            cs@ == s@,
            forall|j: int| 0 <= j < i ==> is_space(#[trigger] cs@[j]),
        decreases cs.len() - i,
    {
        if !space(cs[i]) {
            return false;
        }
        i = i + 1;
    }
    true
}

/// How much of the end of `s` is white space.
fn end_of_text(cs: &Vec<char>) -> (n: usize)
    ensures
        n <= cs@.len(),
        trim_end_of(cs@) == cs@.take(n as int),
{
    let mut n = cs.len();
    proof { assert(cs@.take(n as int) =~= cs@); }
    while n > 0 && space(cs[n - 1])
        invariant
            n <= cs@.len(),
            trim_end_of(cs@) == trim_end_of(cs@.take(n as int)),
        decreases n,
    {
        proof { assert(cs@.take(n as int).drop_last() =~= cs@.take(n - 1)); }
        n = n - 1;
    }
    n
}

pub fn trimmed_end(s: &str) -> (r: String)
    ensures
        r@ == trim_end_of(s@),
{
    let cs = chars_of(s);
    let n = end_of_text(&cs);
    let mut out: Vec<char> = Vec::new();
    let mut i: usize = 0;
    while i < n
        invariant
            i <= n <= cs@.len(),
            out@ == cs@.take(i as int),
        decreases n - i,
    {
        out.push(cs[i]);
        proof { assert(cs@.take(i + 1) =~= cs@.take(i as int).push(cs@[i as int])); }
        i = i + 1;
    }
    string_of(&out)
}

pub fn trimmed(s: &str) -> (r: String)
    ensures
        r@ == trim_of(s@),
{
    let cs = chars_of(s);
    let n = end_of_text(&cs);
    let mut start: usize = 0;
    proof { assert(cs@.take(n as int).skip(0) =~= cs@.take(n as int)); }
    while start < n && space(cs[start])
        invariant
            start <= n <= cs@.len(),
            trim_of(s@) == trim_start_of(cs@.take(n as int).skip(start as int)),
            cs@ == s@,
        decreases n - start,
    {
        proof { assert(cs@.take(n as int).skip(start as int).drop_first() =~= cs@.take(n as int).skip(start + 1)); }
        start = start + 1;
    }
    let mut out: Vec<char> = Vec::new();
    let mut i: usize = start;
    while i < n
        invariant
            start <= i <= n <= cs@.len(),
            out@ == cs@.subrange(start as int, i as int),
        decreases n - i,
    {
        out.push(cs[i]);
        proof { assert(cs@.subrange(start as int, i + 1) =~= cs@.subrange(start as int, i as int).push(cs@[i as int])); }
        i = i + 1;
    }
    proof {
        assert(cs@.take(n as int).skip(start as int) =~= cs@.subrange(start as int, n as int));
    }
    string_of(&out)
}

/// How many lines `str::lines` finds: one for every place a line starts,
/// which is the first character and every character after a line break.
pub open spec fn line_count(s: Seq<char>) -> nat
    decreases s.len(),
{
    if s.len() == 0 {
        0
    } else {
        let rest = line_count(s.drop_last());
        if s.len() == 1 || s[s.len() - 2] == '\n' {
            rest + 1
        } else {
            rest
        }
    }
}

pub fn count_lines(s: &str) -> (n: usize)
    ensures
        n == line_count(s@),
{
    let cs = chars_of(s);
    let mut n: usize = 0;
    let mut i: usize = 0;
    while i < cs.len()
        invariant
            i <= cs@.len(),
            cs@ == s@,
            n <= i,
            n == line_count(cs@.take(i as int)),
        decreases cs.len() - i,
    {
        proof { assert(cs@.take(i + 1).drop_last() =~= cs@.take(i as int)); }
        if i == 0 || cs[i - 1] == '\n' {
            n = n + 1;
        }
        i = i + 1;
    }
    proof { assert(cs@.take(cs@.len() as int) =~= cs@); }
    n
}

/// A signed number written out in decimal, with a minus sign when negative.
pub open spec fn signed(n: int) -> Seq<char> {
    if n < 0 { seq!['-'] + decimal((-n) as nat) } else { decimal(n as nat) }
}

pub fn signed_of(n: i64) -> (s: String)
    ensures
        s@ == signed(n as int),
{
    if n < 0 {
        let mut s = owned("-");
        let m: u64 = if n == i64::MIN { 9223372036854775808u64 } else { (-n) as u64 };
        let digits = decimal_of(m);
        append(&mut s, digits.as_str());
        proof { reveal_strlit("-"); }
        s
    } else {
        decimal_of(n as u64)
    }
}

/// A wide number written out in decimal.
pub fn decimal_wide(n: u128) -> (s: String)
    ensures
        s@ == decimal(n as nat),
    decreases n,
{
    if n < 10 {
        let mut s = String::new();
        push_char(&mut s, digit_char(n as u64));
        s
    } else {
        let mut s = decimal_wide(n / 10);
        push_char(&mut s, digit_char((n % 10) as u64));
        s
    }
}

} // verus!

verus! {

/// Whether `pat` occurs in `s` starting at `i`.
pub open spec fn occurs_at(s: Seq<char>, pat: Seq<char>, i: int) -> bool {
    0 <= i && i + pat.len() <= s.len() && s.subrange(i, i + pat.len()) == pat
}

/// The first place at or after `i` where `pat` occurs in `s`.
pub open spec fn find_from(s: Seq<char>, pat: Seq<char>, i: int) -> Option<int>
    decreases s.len() + 1 - i,
{
    if i < 0 || i + pat.len() > s.len() {
        None
    } else if occurs_at(s, pat, i) {
        Some(i)
    } else {
        find_from(s, pat, i + 1)
    }
}

/// The first place `pat` occurs in `s`, as `str::find` reports it.
pub open spec fn first_index(s: Seq<char>, pat: Seq<char>) -> Option<int> {
    find_from(s, pat, 0)
}

pub fn find_text(s: &str, pat: &str) -> (r: Option<usize>)
    ensures
        match r {
            Some(i) => first_index(s@, pat@) == Some(i as int),
            None => first_index(s@, pat@) is None,
        },
{
    let cs = chars_of(s);
    let ps = chars_of(pat);
    let mut i: usize = 0;
    while ps.len() <= cs.len() - i
        invariant
            cs@ == s@,
            ps@ == pat@,
            i <= cs@.len(),
            find_from(s@, pat@, 0) == find_from(s@, pat@, i as int),
        decreases cs.len() - i,
    {
        let mut k: usize = 0;
        let mut hit = true;
        while k < ps.len()
            invariant
                i + ps@.len() <= cs@.len(),
                cs@.len() <= usize::MAX,
                k <= ps@.len(),
                hit == (forall|j: int| 0 <= j < k ==> cs@[i + j] == ps@[j]),
            decreases ps.len() - k,
        {
            if cs[i + k] != ps[k] {
                hit = false;
            }
            k = k + 1;
        }
        proof {
            if hit {
                assert(cs@.subrange(i as int, i + ps@.len()) =~= ps@);
            } else {
                let j = choose|j: int| 0 <= j < ps@.len() && cs@[i + j] != ps@[j];
                assert(cs@.subrange(i as int, i + ps@.len())[j] != ps@[j]);
            }
        }
        if hit {
            return Some(i);
        }
        i = i + 1;
    }
    None
}

/// The part of a text from `start` up to `end`.
pub fn slice(s: &str, start: usize, end: usize) -> (r: String)
    requires
        start <= end <= s@.len(),
    ensures
        r@ == s@.subrange(start as int, end as int),
{
    let cs = chars_of(s);
    let mut out: Vec<char> = Vec::new();
    let mut i: usize = start;
    while i < end
        invariant
            start <= i <= end <= cs@.len(),
            cs@ == s@,
            out@ == cs@.subrange(start as int, i as int),
        decreases end - i,
    {
        out.push(cs[i]);
        proof { assert(cs@.subrange(start as int, i + 1) =~= cs@.subrange(start as int, i as int).push(cs@[i as int])); }
        i = i + 1;
    }
    string_of(&out)
}

pub fn char_count(s: &str) -> (n: usize)
    ensures
        n == s@.len(),
{
    let cs = chars_of(s);
    cs.len()
}

} // verus!

verus! {

/// `Path::join` on Unix: an absolute path replaces the base; otherwise the
/// two are put together with one separator between them.
pub open spec fn joined(base: Seq<char>, rest: Seq<char>) -> Seq<char> {
    if rest.len() > 0 && rest[0] == '/' {
        rest
    } else if base.len() == 0 || base.last() == '/' {
        base + rest
    } else {
        base + seq!['/'] + rest
    }
}

pub fn join_path(base: &str, rest: &str) -> (p: String)
    ensures
        p@ == joined(base@, rest@),
{
    let r = chars_of(rest);
    if r.len() > 0 && r[0] == '/' {
        return owned(rest);
    }
    let b = chars_of(base);
    let mut p = owned(base);
    if !(b.len() == 0 || b[b.len() - 1] == '/') {
        push_char(&mut p, '/');
    }
    append(&mut p, rest);
    p
}

/// Whether a text begins with another.
pub fn starts_with(s: &str, prefix: &str) -> (r: bool)
    ensures
        r == (prefix@.len() <= s@.len() && s@.take(prefix@.len() as int) == prefix@),
{
    let a = chars_of(s);
    let b = chars_of(prefix);
    if b.len() > a.len() {
        return false;
    }
    let mut i: usize = 0;
    while i < b.len()
        invariant
            i <= b@.len() <= a@.len(),
            a@ == s@,
            b@ == prefix@,
            forall|j: int| 0 <= j < i ==> a@[j] == b@[j],
        decreases b.len() - i,
    {
        if a[i] != b[i] {
            proof { assert(s@.take(prefix@.len() as int)[i as int] != prefix@[i as int]); }
            return false;
        }
        i = i + 1;
    }
    proof { assert(s@.take(prefix@.len() as int) =~= prefix@); }
    true
}

} // verus!

verus! {

/// Where the last `c` in a text is, if it has one.
pub open spec fn last_index(s: Seq<char>, c: char) -> Option<int>
    decreases s.len(),
{
    if s.len() == 0 {
        None
    } else if s.last() == c {
        Some(s.len() - 1)
    } else {
        last_index(s.drop_last(), c)
    }
}

/// The last line of a text with anything in it, trimmed: what a program's
/// stderr says went wrong, the rest being what led up to it.
pub open spec fn last_said(s: Seq<char>) -> Option<Seq<char>> {
    let e = trim_end_of(s);
    if e.len() == 0 {
        None
    } else {
        match last_index(e, '\n') {
            Some(i) => Some(trim_of(e.skip(i + 1))),
            None => Some(trim_of(e)),
        }
    }
}

pub fn last_line(s: &str) -> (r: Option<String>)
    ensures
        match r {
            Some(l) => last_said(s@) == Some(l@),
            None => last_said(s@) is None,
        },
{
    let e = trimmed_end(s);
    let cs = chars_of(e.as_str());
    if cs.len() == 0 {
        return None;
    }
    let mut i = cs.len();
    proof { assert(cs@.take(i as int) =~= cs@); }
    while i > 0 && cs[i - 1] != '\n'
        invariant
            i <= cs@.len(),
            cs@ == e@,
            last_index(cs@, '\n') == last_index(cs@.take(i as int), '\n'),
        decreases i,
    {
        proof { assert(cs@.take(i as int).drop_last() =~= cs@.take(i - 1)); }
        i = i - 1;
    }
    let n = cs.len();
    let line = slice(e.as_str(), i, n);
    let l = trimmed(line.as_str());
    proof {
        assert(cs@.subrange(i as int, n as int) =~= cs@.skip(i as int));
        if i == 0 {
            assert(cs@.take(0) =~= Seq::<char>::empty());
            assert(cs@.skip(0) =~= cs@);
        } else {
            assert(cs@.take(i as int).last() == cs@[i - 1]);
        }
    }
    Some(l)
}

} // verus!

verus! {

pub proof fn lemma_last_index_bound(s: Seq<char>, c: char)
    ensures
        last_index(s, c) matches Some(i) ==> 0 <= i < s.len() && s[i] == c,
    decreases s.len(),
{
    if s.len() > 0 && s.last() != c {
        lemma_last_index_bound(s.drop_last(), c);
    }
}

/// The pieces of a text between the occurrences of a separator, empty ones
/// included, as `str::split` gives them.
pub open spec fn split_on(p: Seq<char>, c: char) -> Seq<Seq<char>>
    decreases p.len(),
{
    match last_index(p, c) {
        None => seq![p],
        Some(i) => {
            proof { lemma_last_index_bound(p, c); }
            split_on(p.take(i), c).push(p.skip(i + 1))
        },
    }
}

pub proof fn lemma_split_push(s: Seq<char>, sep: char, c: char)
    requires
        c != sep,
    ensures
        split_on(s.push(c), sep) == split_on(s, sep).drop_last().push(split_on(s, sep).last().push(c)),
        split_on(s, sep).len() >= 1,
{
    assert(s.push(c).drop_last() =~= s);
    lemma_split_nonempty(s, sep);
    match last_index(s, sep) {
        None => {}
        Some(i) => {
            lemma_last_index_bound(s, sep);
            assert(s.push(c).take(i) =~= s.take(i));
            assert(s.push(c).skip(i + 1) =~= s.skip(i + 1).push(c));
        }
    }
}

pub proof fn lemma_split_nonempty(s: Seq<char>, sep: char)
    ensures
        split_on(s, sep).len() >= 1,
    decreases s.len(),
{
    match last_index(s, sep) {
        None => {}
        Some(i) => {
            lemma_last_index_bound(s, sep);
            lemma_split_nonempty(s.take(i), sep);
        }
    }
}

pub proof fn lemma_split_sep(s: Seq<char>, sep: char)
    ensures
        split_on(s.push(sep), sep) == split_on(s, sep).push(seq![]),
{
    assert(s.push(sep).take(s.len() as int) =~= s);
    assert(s.push(sep).skip(s.len() + 1int) =~= Seq::<char>::empty());
}

/// A text cut at every separator.
pub fn split_char(p: &str, sep: char) -> (v: Vec<String>)
    ensures
        views(v@) == split_on(p@, sep),
{
    let cs = chars_of(p);
    let mut done: Vec<String> = Vec::new();
    let mut cur = String::new();
    let mut i: usize = 0;
    proof { assert(cs@.take(0) =~= Seq::<char>::empty()); }
    while i < cs.len()
        invariant
            i <= cs@.len(),
            cs@ == p@,
            split_on(cs@.take(i as int), sep) == views(done@).push(cur@),
        decreases cs.len() - i,
    {
        let c = cs[i];
        proof { assert(cs@.take(i + 1) =~= cs@.take(i as int).push(c)); }
        if c == sep {
            proof { lemma_split_sep(cs@.take(i as int), sep); }
            let ghost pv = views(done@);
            done.push(cur);
            proof { assert(views(done@) =~= pv.push(views(done@).last())); }
            cur = String::new();
            proof { assert(views(done@).push(cur@) =~= split_on(cs@.take(i + 1), sep)); }
        } else {
            proof {
                lemma_split_push(cs@.take(i as int), sep, c);
                assert(views(done@).push(cur@).drop_last() =~= views(done@));
            }
            push_char(&mut cur, c);
            proof { assert(views(done@).push(cur@) =~= split_on(cs@.take(i + 1), sep)); }
        }
        i = i + 1;
    }
    proof { assert(cs@.take(cs@.len() as int) =~= cs@); }
    let ghost pv = views(done@);
    done.push(cur);
    proof { assert(views(done@) =~= pv.push(cur@)); }
    done
}

} // verus!

verus! {

/// The value of a digit character.
pub open spec fn digit_value(c: char) -> nat {
    (c as int - '0' as int) as nat
}

/// The value a run of decimal digits spells, most significant first.
pub open spec fn digits_value(s: Seq<char>) -> nat
    decreases s.len(),
{
    if s.len() == 0 {
        0
    } else {
        digits_value(s.drop_last()) * 10 + digit_value(s.last())
    }
}

pub open spec fn all_digits(s: Seq<char>) -> bool {
    forall|i: int| 0 <= i < s.len() ==> is_digit(#[trigger] s[i])
}

/// What an unsigned integer's `from_str` reads: an optional `+`, then one or
/// more decimal digits, leading zeros allowed. The value, whatever its size.
pub open spec fn unsigned_text(s: Seq<char>) -> Option<nat> {
    let body = if s.len() > 0 && s[0] == '+' { s.skip(1) } else { s };
    if body.len() > 0 && all_digits(body) { Some(digits_value(body)) } else { None }
}

/// A longer run of digits is worth at least as much as any start of it.
pub proof fn lemma_digits_grow(s: Seq<char>, k: int)
    requires
        0 <= k <= s.len(),
    ensures
        digits_value(s.take(k)) <= digits_value(s),
    decreases s.len(),
{
    if k < s.len() {
        assert(s.drop_last().take(k) =~= s.take(k));
        lemma_digits_grow(s.drop_last(), k);
    } else {
        assert(s.take(k) =~= s);
    }
}

/// `u64::from_str`: the number, or nothing for text that is not one or a
/// number too big for 64 bits.
pub fn parse_u64(s: &str) -> (r: Option<u64>)
    ensures
        r == match unsigned_text(s@) {
            Some(v) => if v <= u64::MAX { Some(v as u64) } else { None },
            None => None,
        },
{
    let cs = chars_of(s);
    let start: usize = if cs.len() > 0 && cs[0] == '+' { 1 } else { 0 };
    let ghost body = if s@.len() > 0 && s@[0] == '+' { s@.skip(1) } else { s@ };
    if start == cs.len() {
        return None;
    }
    let mut acc: u64 = 0;
    let mut i: usize = start;
    while i < cs.len()
        invariant
            cs@ == s@,
            start <= i <= cs@.len(),
            body == cs@.skip(start as int),
            body == (if s@.len() > 0 && s@[0] == '+' { s@.skip(1) } else { s@ }),
            all_digits(cs@.subrange(start as int, i as int)),
            acc as nat == digits_value(body.take(i - start)),
        decreases cs.len() - i,
    {
        let c = cs[i];
        if !('0' <= c && c <= '9') {
            proof {
                assert(body[i - start] == c);
                assert(!is_digit(body[i - start]));
                assert(!all_digits(body));
            }
            return None;
        }
        let d: u64 = (code_point(c) - 48) as u64;
        proof {
            assert(body.take(i - start + 1).drop_last() =~= body.take(i - start));
            assert(body.take(i - start + 1).last() == c);
            assert(cs@.subrange(start as int, i + 1) =~= cs@.subrange(start as int, i as int).push(c));
        }
        if acc > 1844674407370955161 || (acc == 1844674407370955161 && d > 5) {
            proof {
                let a = acc as int;
                assert(digit_value(c) == d);
                assert(a * 10 + d > u64::MAX) by (nonlinear_arith)
                    requires
                        a > 1844674407370955161 || (a == 1844674407370955161 && d > 5);
                assert(digits_value(body.take(i - start + 1)) > u64::MAX);
                lemma_digits_grow(body, i - start + 1);
                if all_digits(body) {
                    assert(digits_value(body) > u64::MAX);
                }
            }
            return None;
        }
        proof {
            let a = acc as int;
            assert(digit_value(c) == d);
            assert(a * 10 + d <= u64::MAX) by (nonlinear_arith)
                requires
                    a <= 1844674407370955161,
                    a < 1844674407370955161 || d <= 5,
                    d <= 9;
        }
        acc = acc * 10 + d;
        i = i + 1;
    }
    proof {
        assert(body.take(body.len() as int) =~= body);
        assert(cs@.subrange(start as int, cs@.len() as int) =~= body);
    }
    Some(acc)
}

} // verus!

verus! {

/// Whether the item at `a` comes before the item at `b` in the order a
/// stable sort by these keys leaves them: by key, and by where they stood
/// when the keys are equal.
pub open spec fn before_in(keys: Seq<Seq<char>>, a: int, b: int) -> bool {
    seq_less(keys[a], keys[b]) || (keys[a] == keys[b] && a < b)
}

/// `order` lists every position of `keys` once, in the order a stable sort
/// by key puts them.
pub open spec fn stable_order(keys: Seq<Seq<char>>, order: Seq<usize>) -> bool {
    &&& order.len() == keys.len()
    &&& forall|k: int| 0 <= k < order.len() ==> order[k] < keys.len()
    &&& forall|p: int, q: int| 0 <= p < q < order.len() ==> before_in(keys, #[trigger] order[p] as int, #[trigger] order[q] as int)
}

pub proof fn lemma_before_transitive(keys: Seq<Seq<char>>, a: int, b: int, c: int)
    requires
        before_in(keys, a, b),
        before_in(keys, b, c),
    ensures
        before_in(keys, a, c),
{
    if seq_less(keys[a], keys[b]) && seq_less(keys[b], keys[c]) {
        lemma_less_transitive(keys[a], keys[b], keys[c]);
    }
}

/// The positions of `keys` in the order a stable sort by key leaves them:
/// what `sort_by` comparing the keys does to the items they belong to.
pub fn stable_order_of(keys: &Vec<String>) -> (order: Vec<usize>)
    ensures
        stable_order(views(keys@), order@),
{
    let ghost k = views(keys@);
    let mut out: Vec<usize> = Vec::new();
    let mut i: usize = 0;
    while i < keys.len()
        invariant
            k == views(keys@),
            i <= keys@.len(),
            out@.len() == i,
            forall|m: int| 0 <= m < out@.len() ==> out@[m] < i,
            forall|p: int, q: int| 0 <= p < q < out@.len() ==> before_in(k, #[trigger] out@[p] as int, #[trigger] out@[q] as int),
        decreases keys.len() - i,
    {
        let mut j: usize = out.len();
        while j > 0 && less(keys[i].as_str(), keys[out[j - 1]].as_str())
            invariant
                k == views(keys@),
                i < keys@.len(),
                j <= out@.len(),
                out@.len() == i,
                forall|m: int| 0 <= m < out@.len() ==> out@[m] < i,
                forall|q: int| j <= q < out@.len() ==> seq_less(k[i as int], k[#[trigger] out@[q] as int]),
            decreases j,
        {
            j = j - 1;
        }
        let ghost old_out = out@;
        proof {
            if j > 0 {
                let last = old_out[j - 1] as int;
                assert(!seq_less(k[i as int], k[last]));
                lemma_less_trichotomy(k[i as int], k[last]);
                assert(before_in(k, last, i as int));
                assert forall|p: int| 0 <= p < j implies before_in(k, #[trigger] old_out[p] as int, i as int) by {
                    if p < j - 1 {
                        lemma_before_transitive(k, old_out[p] as int, last, i as int);
                    }
                }
            }
        }
        out.insert(j, i);
        proof {
            assert forall|p: int, q: int| 0 <= p < q < out@.len() implies before_in(k, #[trigger] out@[p] as int, #[trigger] out@[q] as int) by {
                if q < j {
                    assert(out@[p] == old_out[p] && out@[q] == old_out[q]);
                } else if q == j {
                    assert(out@[p] == old_out[p]);
                } else if p == j {
                    assert(out@[q] == old_out[q - 1]);
                    assert(seq_less(k[i as int], k[old_out[q - 1] as int]));
                } else if p < j {
                    assert(out@[p] == old_out[p] && out@[q] == old_out[q - 1]);
                } else {
                    assert(out@[p] == old_out[p - 1] && out@[q] == old_out[q - 1]);
                }
            }
        }
        i = i + 1;
    }
    out
}

} // verus!

verus! {

/// The pieces of two texts run together: the last piece of the first and the
/// first piece of the second become one.
pub open spec fn glued(x: Seq<Seq<char>>, y: Seq<Seq<char>>) -> Seq<Seq<char>> {
    x.drop_last() + seq![x.last() + y[0]] + y.drop_first()
}

pub proof fn lemma_split_concat(a: Seq<char>, b: Seq<char>, sep: char)
    ensures
        split_on(a + b, sep) == glued(split_on(a, sep), split_on(b, sep)),
    decreases b.len(),
{
    lemma_split_nonempty(a, sep);
    let x = split_on(a, sep);
    if b.len() == 0 {
        assert(a + b =~= a);
        assert(split_on(b, sep) == seq![b]);
        assert(x.last() + b =~= x.last());
        assert(glued(x, split_on(b, sep)) =~= x);
    } else {
        let b0 = b.drop_last();
        let c = b.last();
        assert(b0.push(c) =~= b);
        assert((a + b0).push(c) =~= a + b);
        lemma_split_concat(a, b0, sep);
        lemma_split_nonempty(b0, sep);
        let y0 = split_on(b0, sep);
        let s0 = split_on(a + b0, sep);
        if c == sep {
            lemma_split_sep(a + b0, sep);
            lemma_split_sep(b0, sep);
            let y = y0.push(seq![]);
            assert(glued(x, y) =~= s0.push(seq![]));
        } else {
            lemma_split_push(a + b0, sep, c);
            lemma_split_push(b0, sep, c);
            let y = y0.drop_last().push(y0.last().push(c));
            if y0.len() == 1 {
                assert(y =~= seq![y0[0].push(c)]);
                assert(x.last() + y0[0].push(c) =~= (x.last() + y0[0]).push(c));
                assert(glued(x, y) =~= s0.drop_last().push(s0.last().push(c)));
            } else {
                assert(y[0] == y0[0]);
                assert(y.drop_first() =~= y0.drop_first().drop_last().push(y0.last().push(c)));
                assert(s0.last() == y0.last());
                assert(glued(x, y) =~= s0.drop_last().push(s0.last().push(c)));
            }
        }
    }
}

} // verus!

verus! {

pub proof fn lemma_last_index_found(s: Seq<char>, c: char, k: int)
    requires
        0 <= k < s.len(),
        s[k] == c,
    ensures
        last_index(s, c) is Some,
    decreases s.len(),
{
    if s.last() != c {
        assert(s.drop_last()[k] == c);
        lemma_last_index_found(s.drop_last(), c, k);
    }
}

} // verus!
