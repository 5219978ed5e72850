//! The string functions of XPath that compute on characters alone:
//! `starts-with`, `contains`, `substring-before`, `substring-after`,
//! `normalize-space` and `translate`

use vstd::prelude::*;

use super::lexer::{char_is_whitespace, chars_of, spec_is_whitespace, string_of};

verus! {

/// `p` occurs in `s` at character position `i`.
pub open spec fn occurs_at(s: Seq<char>, p: Seq<char>, i: int) -> bool {
    0 <= i && i + p.len() <= s.len() && s.subrange(i, i + p.len()) == p
}

/// The first position at or after `i` where `p` occurs in `s`, if any.
pub open spec fn first_occurrence(s: Seq<char>, p: Seq<char>, i: int) -> Option<int>
    decreases s.len() + 1 - i,
{
    if i < 0 || i + p.len() > s.len() {
        None
    } else if occurs_at(s, p, i) {
        Some(i)
    } else {
        first_occurrence(s, p, i + 1)
    }
}

proof fn lemma_first_occurrence(s: Seq<char>, p: Seq<char>, i: int)
    requires
        0 <= i,
    ensures
        match first_occurrence(s, p, i) {
            Some(k) => i <= k && occurs_at(s, p, k) && forall|j: int| i <= j < k ==> !occurs_at(s, p, j),
            None => forall|j: int| i <= j ==> !occurs_at(s, p, j),
        },
    decreases s.len() + 1 - i,
{
    if i + p.len() > s.len() {
    } else if occurs_at(s, p, i) {
    } else {
        lemma_first_occurrence(s, p, i + 1);
    }
}

/// Whether `p` occurs in `s` at position `i`, comparing character by character.
fn matches_at(s: &Vec<char>, p: &Vec<char>, i: usize) -> (r: bool)
    requires
        i + p@.len() <= s@.len(),
    ensures
        r == occurs_at(s@, p@, i as int),
{
    let mut k: usize = 0;
    while k < p.len()
        invariant
            i + p.len() <= s.len(),
            k <= p@.len(),
            forall|j: int| 0 <= j < k ==> s@[i + j] == p@[j],
        decreases p@.len() - k,
    {
        if s[i + k] != p[k] {
            assert(s@.subrange(i as int, i + p@.len())[k as int] != p@[k as int]);
            return false;
        }
        k = k + 1;
    }
    assert(s@.subrange(i as int, i + p@.len()) =~= p@);
    true
}

/// The first position where `p` occurs in `s`.
fn find_first(s: &Vec<char>, p: &Vec<char>) -> (r: Option<usize>)
    ensures
        r matches Some(k) ==> first_occurrence(s@, p@, 0) == Some(k as int),
        r is None ==> first_occurrence(s@, p@, 0) is None,
{
    if p.len() > s.len() {
        return None;
    }
    if p.len() == 0 {
        assert(occurs_at(s@, p@, 0)) by {
            assert(s@.subrange(0, 0) =~= p@);
        }
        return Some(0);
    }
    let last = s.len() - p.len();
    let mut i: usize = 0;
    while i <= last
        invariant
            last + p.len() == s.len(),
            p.len() >= 1,
            i <= last + 1,
            first_occurrence(s@, p@, 0) == first_occurrence(s@, p@, i as int),
        decreases last + 1 - i,
    {
        if matches_at(s, p, i) {
            return Some(i);
        }
        i = i + 1;
    }
    None
}

/// `starts-with(s, prefix)`: `prefix` is a prefix of `s`
pub fn starts_with(s: &str, prefix: &str) -> (r: bool)
    ensures
        r == occurs_at(s@, prefix@, 0),
{
    let cs = chars_of(s);
    let ps = chars_of(prefix);
    if ps.len() > cs.len() {
        false
    } else {
        matches_at(&cs, &ps, 0)
    }
}

/// `contains(s, pattern)`: `pattern` occurs somewhere in `s`
pub fn contains(s: &str, pattern: &str) -> (r: bool)
    ensures
        r == (exists|i: int| occurs_at(s@, pattern@, i)),
{
    let cs = chars_of(s);
    let ps = chars_of(pattern);
    let found = find_first(&cs, &ps);
    proof {
        lemma_first_occurrence(s@, pattern@, 0);
    }
    match found {
        Some(k) => {
            assert(occurs_at(s@, pattern@, k as int));
            true
        },
        None => false,
    }
}

/// The characters `s[from..]` as a string.
fn string_from(cs: &Vec<char>, from: usize) -> (r: String)
    requires
        from <= cs@.len(),
    ensures
        r@ == cs@.skip(from as int),
{
    let mut v: Vec<char> = Vec::new();
    let mut i: usize = from;
    while i < cs.len()
        invariant
            from <= i <= cs@.len(),
            v@ == cs@.subrange(from as int, i as int),
        decreases cs@.len() - i,
    {
        v.push(cs[i]);
        i = i + 1;
    }
    assert(v@ =~= cs@.skip(from as int));
    string_of(v.as_slice())
}

/// The characters `s[..to]` as a string.
fn string_to(cs: &Vec<char>, to: usize) -> (r: String)
    requires
        to <= cs@.len(),
    ensures
        r@ == cs@.take(to as int),
{
    let mut v: Vec<char> = Vec::new();
    let mut i: usize = 0;
    while i < to
        invariant
            i <= to <= cs@.len(),
            v@ == cs@.take(i as int),
        decreases to - i,
    {
        v.push(cs[i]);
        i = i + 1;
        assert(v@ =~= cs@.take(i as int));
    }
    string_of(v.as_slice())
}

/// What `substring-before(s, pattern)` gives: the characters before the first
/// occurrence of `pattern`, or nothing where it does not occur.
pub open spec fn before_first(s: Seq<char>, p: Seq<char>) -> Seq<char> {
    match first_occurrence(s, p, 0) {
        Some(k) => s.take(k),
        None => seq![],
    }
}

/// What `substring-after(s, pattern)` gives: the characters after the first
/// occurrence of `pattern`, or nothing where it does not occur.
pub open spec fn after_first(s: Seq<char>, p: Seq<char>) -> Seq<char> {
    match first_occurrence(s, p, 0) {
        Some(k) => s.skip(k + p.len()),
        None => seq![],
    }
}

/// `substring-before(s, pattern)`
pub fn substring_before(s: &str, pattern: &str) -> (r: String)
    ensures
        r@ == before_first(s@, pattern@),
{
    let cs = chars_of(s);
    let ps = chars_of(pattern);
    proof {
        lemma_first_occurrence(s@, pattern@, 0);
    }
    match find_first(&cs, &ps) {
        Some(k) => string_to(&cs, k),
        None => string_of(Vec::<char>::new().as_slice()),
    }
}

/// `substring-after(s, pattern)`
pub fn substring_after(s: &str, pattern: &str) -> (r: String)
    ensures
        r@ == after_first(s@, pattern@),
{
    let cs = chars_of(s);
    let ps = chars_of(pattern);
    proof {
        lemma_first_occurrence(s@, pattern@, 0);
    }
    match find_first(&cs, &ps) {
        Some(k) => {
            assert(occurs_at(cs@, ps@, k as int));
            assert(k + ps.len() <= cs.len());
            string_from(&cs, k + ps.len())
        },
        None => string_of(Vec::<char>::new().as_slice()),
    }
}

/// `normalize-space(s)`: the whitespace-separated words of `s` joined by single spaces,
/// built character by character: whitespace is dropped, a character after a word
/// character extends that word, and the first character of a later word comes after
/// one space.
pub open spec fn normalized(s: Seq<char>) -> Seq<char>
    decreases s.len(),
{
    if s.len() == 0 {
        seq![]
    } else {
        let t = normalized(s.drop_last());
        let c = s.last();
        if spec_is_whitespace(c) {
            t
        } else if s.len() >= 2 && !spec_is_whitespace(s[s.len() - 2]) {
            t.push(c)
        } else if t.len() == 0 {
            t.push(c)
        } else {
            t.push(' ').push(c)
        }
    }
}

/// `normalize-space(s)`
pub fn normalize_space(s: &str) -> (r: String)
    ensures
        r@ == normalized(s@),
{
    let cs = chars_of(s);
    let mut out: Vec<char> = Vec::new();
    let mut prev_ws = true;
    let mut i: usize = 0;
    while i < cs.len()
        invariant
            i <= cs@.len(),
            cs@ == s@,
            out@ == normalized(cs@.take(i as int)),
            prev_ws == (i == 0 || spec_is_whitespace(cs@[i - 1])),
        decreases cs@.len() - i,
    {
        let c = cs[i];
        let ws = char_is_whitespace(c);
        proof {
            let t = cs@.take(i + 1);
            assert(t.drop_last() =~= cs@.take(i as int));
            assert(t.last() == c);
            if i >= 1 {
                assert(t[t.len() - 2] == cs@[i - 1]);
            }
        }
        if !ws {
            if !prev_ws || out.len() == 0 {
                out.push(c);
            } else {
                out.push(' ');
                out.push(c);
            }
        }
        prev_ws = ws;
        i = i + 1;
    }
    assert(cs@.take(cs@.len() as int) =~= cs@);
    string_of(out.as_slice())
}

/// The first position of `c` in `v`, if any.
pub open spec fn position_of(v: Seq<char>, c: char) -> Option<int>
    decreases v.len(),
{
    if v.len() == 0 {
        None
    } else if v[0] == c {
        Some(0)
    } else {
        match position_of(v.drop_first(), c) {
            Some(k) => Some(k + 1),
            None => None,
        }
    }
}

/// What `translate` makes of one character: the character at the same position of
/// `to` as its first position in `from`, nothing where `to` is shorter, and the
/// character itself where it is not in `from`.
pub open spec fn translated_char(c: char, from: Seq<char>, to: Seq<char>) -> Seq<char> {
    match position_of(from, c) {
        Some(k) => if k < to.len() {
            seq![to[k]]
        } else {
            seq![]
        },
        None => seq![c],
    }
}

/// `translate(s, from, to)`: each character of `s` translated in turn.
pub open spec fn translated(s: Seq<char>, from: Seq<char>, to: Seq<char>) -> Seq<char>
    decreases s.len(),
{
    if s.len() == 0 {
        seq![]
    } else {
        translated(s.drop_last(), from, to) + translated_char(s.last(), from, to)
    }
}

/// The first position of `c` in `v`.
fn find_char(v: &Vec<char>, c: char) -> (r: Option<usize>)
    ensures
        r matches Some(k) ==> position_of(v@, c) == Some(k as int),
        r is None ==> position_of(v@, c) is None,
{
    let mut i: usize = 0;
    while i < v.len()
        invariant
            i <= v@.len(),
            forall|j: int| 0 <= j < i ==> v@[j] != c,
        decreases v@.len() - i,
    {
        if v[i] == c {
            proof {
                lemma_position_of(v@, c, i as int);
            }
            return Some(i);
        }
        i = i + 1;
    }
    proof {
        lemma_position_absent(v@, c);
    }
    None
}

proof fn lemma_position_of(v: Seq<char>, c: char, i: int)
    requires
        0 <= i < v.len(),
        v[i] == c,
        forall|j: int| 0 <= j < i ==> v[j] != c,
    ensures
        position_of(v, c) == Some(i),
    decreases v.len(),
{
    if i > 0 {
        lemma_position_of(v.drop_first(), c, i - 1);
    }
}

proof fn lemma_position_absent(v: Seq<char>, c: char)
    requires
        forall|j: int| 0 <= j < v.len() ==> v[j] != c,
    ensures
        position_of(v, c) is None,
    decreases v.len(),
{
    if v.len() > 0 {
        lemma_position_absent(v.drop_first(), c);
    }
}

/// `translate(s, from, to)`
pub fn translate(s: &str, from: &str, to: &str) -> (r: String)
    ensures
        r@ == translated(s@, from@, to@),
{
    let cs = chars_of(s);
    let fs = chars_of(from);
    let ts = chars_of(to);
    let mut out: Vec<char> = Vec::new();
    let mut i: usize = 0;
    while i < cs.len()
        invariant
            i <= cs@.len(),
            cs@ == s@,
            fs@ == from@,
            ts@ == to@,
            out@ == translated(cs@.take(i as int), fs@, ts@),
        decreases cs@.len() - i,
    {
        let c = cs[i];
        proof {
            let t = cs@.take(i + 1);
            assert(t.drop_last() =~= cs@.take(i as int));
            assert(t.last() == c);
        }
        match find_char(&fs, c) {
            Some(k) => {
                if k < ts.len() {
                    out.push(ts[k]);
                }
            },
            None => {
                out.push(c);
            },
        }
        proof {
            assert(out@ =~= translated(cs@.take(i + 1), fs@, ts@));
        }
        i = i + 1;
    }
    assert(cs@.take(cs@.len() as int) =~= cs@);
    string_of(out.as_slice())
}

} // verus!
