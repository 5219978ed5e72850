//! SIMD-accelerated XML scanning using memchr
//!
//! Uses the memchr crate for fast byte searching with SIMD acceleration.

use vstd::prelude::*;

use super::attributes::lemma_first_index;
use super::primitives::{
    has_prefix, index_of, is_first_index, is_one_of2, is_one_of3, is_ws, lemma_index_of,
    lemma_ws_prefix_len, is_ws_byte, memchr, memchr2, memchr3, starts_with as bytes_starts_with,
    ws_prefix_len,
};

verus! {

/// Scanner for XML delimiter detection
pub struct Scanner<'a> {
    input: &'a [u8],
    pos: usize,
}

/// Position of the first `>` at or after `from` that lies outside single and double
/// quotes, with the quote state (`sq`, `dq`) in force at `from`.
pub open spec fn gt_outside_quotes(s: Seq<u8>, from: int, sq: bool, dq: bool) -> Option<int>
    decreases s.len() - from,
{
    if from < 0 || from >= s.len() {
        None
    } else {
        let b = s[from];
        if b == 0x22 && !sq {
            gt_outside_quotes(s, from + 1, sq, !dq)
        } else if b == 0x27 && !dq {
            gt_outside_quotes(s, from + 1, !sq, dq)
        } else if b == 0x3E && !sq && !dq {
            Some(from)
        } else {
            gt_outside_quotes(s, from + 1, sq, dq)
        }
    }
}

/// An optional position as a mathematical integer.
pub open spec fn opt_int(r: Option<usize>) -> Option<int> {
    match r {
        Some(p) => Some(p as int),
        None => None,
    }
}

/// Check if byte is valid XML name start character
/// Allows ASCII letters, underscore, colon, and non-ASCII (UTF-8 Unicode)
pub open spec fn spec_name_start(b: u8) -> bool {
    (0x41 <= b && b <= 0x5A) || (0x61 <= b && b <= 0x7A) || b == 0x5F || b == 0x3A || b >= 0x80
}

/// Check if byte is valid XML name character
/// Allows ASCII alphanumeric, punctuation, and non-ASCII (UTF-8 Unicode)
pub open spec fn spec_name_char(b: u8) -> bool {
    (0x41 <= b && b <= 0x5A) || (0x61 <= b && b <= 0x7A) || (0x30 <= b && b <= 0x39) || b == 0x5F
        || b == 0x2D || b == 0x2E || b == 0x3A || b >= 0x80
}

/// Length of the run of name bytes at the front of `s`.
pub open spec fn name_char_run(s: Seq<u8>) -> int
    decreases s.len(),
{
    if s.len() > 0 && spec_name_char(s[0]) {
        1 + name_char_run(s.drop_first())
    } else {
        0
    }
}

pub proof fn lemma_name_char_run(s: Seq<u8>)
    ensures
        0 <= name_char_run(s) <= s.len(),
        forall|j: int| 0 <= j < name_char_run(s) ==> spec_name_char(#[trigger] s[j]),
        name_char_run(s) < s.len() ==> !spec_name_char(s[name_char_run(s)]),
    decreases s.len(),
{
    if s.len() > 0 && spec_name_char(s[0]) {
        lemma_name_char_run(s.drop_first());
        assert forall|j: int| 0 <= j < name_char_run(s) implies spec_name_char(#[trigger] s[j]) by {
            if j > 0 {
                assert(s[j] == s.drop_first()[j - 1]);
            }
        }
    }
}

/// The length of the XML name at the front of `s`: a name start byte followed by name
/// bytes, or `None` when `s` does not start with a name start byte.
pub open spec fn name_len_at(s: Seq<u8>) -> Option<int> {
    if s.len() == 0 || !spec_name_start(s[0]) {
        None
    } else {
        Some(1 + name_char_run(s.drop_first()))
    }
}

impl<'a> Scanner<'a> {
    /// The input being scanned.
    pub closed spec fn spec_input(&self) -> Seq<u8> {
        self.input@
    }

    /// The current position.
    pub closed spec fn spec_pos(&self) -> int {
        self.pos as int
    }

    /// The bytes from the current position on.
    pub open spec fn spec_rest(&self) -> Seq<u8> {
        self.spec_input().subrange(self.spec_pos(), self.spec_input().len() as int)
    }

    /// Whether the position lies within the input (or at its end).
    pub open spec fn in_bounds(&self) -> bool {
        self.spec_pos() <= self.spec_input().len()
    }

    /// Create a new scanner for the given input
    pub fn new(input: &'a [u8]) -> (r: Self)
        ensures
            r.spec_input() == input@,
            r.spec_pos() == 0,
    {
        Scanner { input, pos: 0 }
    }

    /// The input slice.
    pub fn input(&self) -> (r: &'a [u8])
        ensures
            r@ == self.spec_input(),
    {
        self.input
    }

    /// Get the current position
    pub fn position(&self) -> (r: usize)
        ensures
            r == self.spec_pos(),
    {
        self.pos
    }

    /// Set the current position
    pub fn set_position(&mut self, pos: usize)
        ensures
            final(self).spec_pos() == pos,
            final(self).spec_input() == old(self).spec_input(),
    {
        self.pos = pos;
    }

    /// Check if we've reached the end
    pub fn is_eof(&self) -> (r: bool)
        ensures
            r == (self.spec_pos() >= self.spec_input().len()),
    {
        self.pos >= self.input.len()
    }

    /// Get remaining bytes
    pub fn remaining(&self) -> (r: &'a [u8])
        requires
            self.in_bounds(),
        ensures
            r@ == self.spec_rest(),
    {
        &self.input[self.pos..self.input.len()]
    }

    /// Get a slice from start to end positions
    pub fn slice(&self, start: usize, end: usize) -> (r: &'a [u8])
        requires
            start <= end <= self.spec_input().len(),
        ensures
            r@ == self.spec_input().subrange(start as int, end as int),
    {
        &self.input[start..end]
    }

    /// Peek at current byte without advancing
    pub fn peek(&self) -> (r: Option<u8>)
        ensures
            self.spec_pos() < self.spec_input().len() ==> r == Some(
                self.spec_input()[self.spec_pos()],
            ),
            self.spec_pos() >= self.spec_input().len() ==> r is None,
    {
        if self.pos < self.input.len() {
            Some(self.input[self.pos])
        } else {
            None
        }
    }

    /// Peek at byte at offset from current position
    pub fn peek_at(&self, offset: usize) -> (r: Option<u8>)
        requires
            self.spec_pos() + offset <= usize::MAX,
        ensures
            self.spec_pos() + offset < self.spec_input().len() ==> r == Some(
                self.spec_input()[self.spec_pos() + offset],
            ),
            self.spec_pos() + offset >= self.spec_input().len() ==> r is None,
    {
        let p = self.pos + offset;
        if p < self.input.len() {
            Some(self.input[p])
        } else {
            None
        }
    }

    /// Advance by n bytes
    pub fn advance(&mut self, n: usize)
        requires
            old(self).spec_pos() + n <= usize::MAX,
        ensures
            final(self).spec_pos() == old(self).spec_pos() + n,
            final(self).spec_input() == old(self).spec_input(),
    {
        self.pos = self.pos + n;
    }

    /// Skip whitespace characters (space, tab, newline, carriage return)
    pub fn skip_whitespace(&mut self)
        ensures
            final(self).spec_input() == old(self).spec_input(),
            old(self).in_bounds() ==> final(self).spec_pos() == old(self).spec_pos()
                + ws_prefix_len(old(self).spec_rest()),
            !old(self).in_bounds() ==> final(self).spec_pos() == old(self).spec_pos(),
    {
        let ghost start = self.pos as int;
        let ghost inp = self.input@;
        while self.pos < self.input.len() && is_ws_byte(self.input[self.pos])
            invariant
                self.input@ == inp,
                start <= self.pos,
                start <= inp.len() ==> self.pos <= inp.len() && ws_prefix_len(
                    inp.subrange(start, inp.len() as int),
                ) == (self.pos - start) + ws_prefix_len(
                    inp.subrange(self.pos as int, inp.len() as int),
                ),
                start > inp.len() ==> self.pos == start,
            decreases self.input.len() - self.pos,
        {
            assert(inp.subrange(self.pos as int, inp.len() as int).drop_first() =~= inp.subrange(
                self.pos + 1,
                inp.len() as int,
            ));
            self.pos += 1;
        }
        proof {
            if start <= inp.len() && self.pos < inp.len() {
                assert(inp.subrange(self.pos as int, inp.len() as int)[0] == inp[self.pos as int]);
            }
        }
    }

    /// Find next '<' (tag start) using SIMD
    pub fn find_tag_start(&self) -> (r: Option<usize>)
        requires
            self.in_bounds(),
        ensures
            self.find_spec(r, 0x3C),
    {
        self.find_byte(0x3C)
    }

    /// The contract of a single-byte search from the current position.
    pub open spec fn find_spec(&self, r: Option<usize>, b: u8) -> bool {
        &&& r matches Some(i) ==> self.spec_pos() <= i && is_first_index(
            self.spec_rest(),
            b,
            i - self.spec_pos(),
        )
        &&& r is None ==> index_of(self.spec_rest(), b) == -1
    }

    /// Find next '>' (tag end) using SIMD
    /// Note: Does not handle '>' inside quotes - use find_tag_end_quoted for that
    pub fn find_tag_end(&self) -> (r: Option<usize>)
        requires
            self.in_bounds(),
        ensures
            self.find_spec(r, 0x3E),
    {
        self.find_byte(0x3E)
    }

    /// Find tag end while handling quotes properly
    /// Returns the position of '>' that is not inside quotes
    pub fn find_tag_end_quoted(&self) -> (r: Option<usize>)
        ensures
            opt_int(r) == gt_outside_quotes(self.spec_input(), self.spec_pos(), false, false),
    {
        let mut pos = self.pos;
        let mut in_single_quote = false;
        let mut in_double_quote = false;
        while pos < self.input.len()
            invariant
                self.pos <= pos,
                gt_outside_quotes(self.input@, self.pos as int, false, false) == gt_outside_quotes(
                    self.input@,
                    pos as int,
                    in_single_quote,
                    in_double_quote,
                ),
            decreases self.input.len() - pos,
        {
            let b = self.input[pos];
            if b == 0x22 && !in_single_quote {
                in_double_quote = !in_double_quote;
            } else if b == 0x27 && !in_double_quote {
                in_single_quote = !in_single_quote;
            } else if b == 0x3E && !in_single_quote && !in_double_quote {
                return Some(pos);
            }
            pos += 1;
        }
        None
    }

    /// Find next entity reference start '&' using SIMD
    pub fn find_entity_start(&self) -> (r: Option<usize>)
        requires
            self.in_bounds(),
        ensures
            self.find_spec(r, 0x26),
    {
        self.find_byte(0x26)
    }

    /// Find content break: '<', '&', or ']' (for CDATA end detection)
    pub fn find_content_break(&self) -> (r: Option<usize>)
        requires
            self.in_bounds(),
        ensures
            r matches Some(i) ==> {
                &&& self.spec_pos() <= i < self.spec_input().len()
                &&& is_one_of3(self.spec_input()[i as int], 0x3C, 0x26, 0x5D)
                &&& forall|j: int|
                    self.spec_pos() <= j < i ==> !is_one_of3(self.spec_input()[j], 0x3C, 0x26, 0x5D)
            },
            r is None ==> forall|j: int|
                self.spec_pos() <= j < self.spec_input().len() ==> !is_one_of3(
                    self.spec_input()[j],
                    0x3C,
                    0x26,
                    0x5D,
                ),
    {
        let rest = &self.input[self.pos..self.input.len()];
        match memchr3(0x3C, 0x26, 0x5D, rest) {
            Some(i) => {
                assert forall|j: int| self.pos <= j < self.pos + i implies !is_one_of3(
                    self.input@[j],
                    0x3C,
                    0x26,
                    0x5D,
                ) by {
                    assert(rest@[j - self.pos] == self.input@[j]);
                }
                assert(rest@[i as int] == self.input@[self.pos + i]);
                Some(self.pos + i)
            },
            None => {
                assert forall|j: int| self.pos <= j < self.input@.len() implies !is_one_of3(
                    self.input@[j],
                    0x3C,
                    0x26,
                    0x5D,
                ) by {
                    assert(rest@[j - self.pos] == self.input@[j]);
                }
                None
            },
        }
    }

    /// Find next '<' or '&' (text content boundaries)
    pub fn find_text_boundary(&self) -> (r: Option<usize>)
        requires
            self.in_bounds(),
        ensures
            r matches Some(i) ==> {
                &&& self.spec_pos() <= i < self.spec_input().len()
                &&& is_one_of2(self.spec_input()[i as int], 0x3C, 0x26)
                &&& forall|j: int|
                    self.spec_pos() <= j < i ==> !is_one_of2(self.spec_input()[j], 0x3C, 0x26)
            },
            r is None ==> forall|j: int|
                self.spec_pos() <= j < self.spec_input().len() ==> !is_one_of2(
                    self.spec_input()[j],
                    0x3C,
                    0x26,
                ),
    {
        self.find_byte2(0x3C, 0x26)
    }

    /// Find next occurrence of a specific byte
    pub fn find_byte(&self, byte: u8) -> (r: Option<usize>)
        requires
            self.in_bounds(),
        ensures
            self.find_spec(r, byte),
    {
        let rest = &self.input[self.pos..self.input.len()];
        proof {
            lemma_index_of(rest@, byte);
        }
        match memchr(byte, rest) {
            Some(i) => {
                assert(i < rest@.len());
                Some(self.pos + i)
            },
            None => None,
        }
    }

    /// Find next occurrence of either of two bytes
    pub fn find_byte2(&self, b1: u8, b2: u8) -> (r: Option<usize>)
        requires
            self.in_bounds(),
        ensures
            r matches Some(i) ==> {
                &&& self.spec_pos() <= i < self.spec_input().len()
                &&& is_one_of2(self.spec_input()[i as int], b1, b2)
                &&& forall|j: int|
                    self.spec_pos() <= j < i ==> !is_one_of2(self.spec_input()[j], b1, b2)
            },
            r is None ==> forall|j: int|
                self.spec_pos() <= j < self.spec_input().len() ==> !is_one_of2(
                    self.spec_input()[j],
                    b1,
                    b2,
                ),
    {
        let rest = &self.input[self.pos..self.input.len()];
        match memchr2(b1, b2, rest) {
            Some(i) => {
                assert forall|j: int| self.pos <= j < self.pos + i implies !is_one_of2(
                    self.input@[j],
                    b1,
                    b2,
                ) by {
                    assert(rest@[j - self.pos] == self.input@[j]);
                }
                assert(rest@[i as int] == self.input@[self.pos + i]);
                Some(self.pos + i)
            },
            None => {
                assert forall|j: int| self.pos <= j < self.input@.len() implies !is_one_of2(
                    self.input@[j],
                    b1,
                    b2,
                ) by {
                    assert(rest@[j - self.pos] == self.input@[j]);
                }
                None
            },
        }
    }

    /// Check if input starts with a byte sequence at current position
    pub fn starts_with(&self, needle: &[u8]) -> (r: bool)
        requires
            self.in_bounds(),
        ensures
            r == has_prefix(self.spec_rest(), needle@),
    {
        bytes_starts_with(&self.input[self.pos..self.input.len()], needle)
    }

    /// Check if we have at least n bytes remaining
    pub fn has_remaining(&self, n: usize) -> (r: bool)
        requires
            self.spec_pos() + n <= usize::MAX,
        ensures
            r == (self.spec_pos() + n <= self.spec_input().len()),
    {
        self.pos + n <= self.input.len()
    }

    /// Read bytes until a delimiter, returning the slice and advancing past delimiter
    pub fn read_until(&mut self, delimiter: u8) -> (r: Option<&'a [u8]>)
        requires
            old(self).in_bounds(),
        ensures
            final(self).spec_input() == old(self).spec_input(),
            match r {
                Some(sl) => {
                    let k = index_of(old(self).spec_rest(), delimiter);
                    &&& k >= 0
                    &&& sl@ == old(self).spec_rest().take(k)
                    &&& final(self).spec_pos() == old(self).spec_pos() + k + 1
                },
                None => index_of(old(self).spec_rest(), delimiter) == -1 && final(self).spec_pos()
                    == old(self).spec_pos(),
            },
    {
        let start = self.pos;
        let rest = &self.input[start..self.input.len()];
        match memchr(delimiter, rest) {
            Some(end) => {
                proof {
                    lemma_first_index(rest@, delimiter, end as int);
                }
                let slice = &self.input[start..start + end];
                assert(slice@ =~= rest@.take(end as int));
                self.pos = start + end + 1;
                Some(slice)
            },
            None => {
                proof {
                    lemma_index_of(rest@, delimiter);
                }
                None
            },
        }
    }

    /// Read an XML name (starts with letter/underscore, continues with
    /// letters/digits/hyphens/underscores/periods)
    pub fn read_name(&mut self) -> (r: Option<&'a [u8]>)
        ensures
            final(self).spec_input() == old(self).spec_input(),
            old(self).in_bounds() ==> match name_len_at(old(self).spec_rest()) {
                Some(n) => r matches Some(sl) && sl@ == old(self).spec_rest().take(n)
                    && final(self).spec_pos() == old(self).spec_pos() + n,
                None => r is None && final(self).spec_pos() == old(self).spec_pos(),
            },
            !old(self).in_bounds() ==> r is None && final(self).spec_pos() == old(self).spec_pos(),
    {
        let start = self.pos;
        if start >= self.input.len() {
            return None;
        }
        let ghost rest = self.input@.subrange(start as int, self.input@.len() as int);
        let first = self.input[start];
        assert(rest[0] == first);
        if !is_name_start_char(first) {
            return None;
        }
        self.pos += 1;
        let ghost tail = rest.drop_first();
        assert(tail =~= self.input@.subrange(start + 1, self.input@.len() as int));
        while self.pos < self.input.len() && is_name_char(self.input[self.pos])
            invariant
                start + 1 <= self.pos <= self.input@.len(),
                self.input@ == old(self).spec_input(),
                tail == self.input@.subrange(start + 1, self.input@.len() as int),
                name_char_run(tail) == (self.pos - start - 1) + name_char_run(
                    self.input@.subrange(self.pos as int, self.input@.len() as int),
                ),
            decreases self.input.len() - self.pos,
        {
            assert(self.input@.subrange(self.pos as int, self.input@.len() as int).drop_first()
                =~= self.input@.subrange(self.pos + 1, self.input@.len() as int));
            self.pos += 1;
        }
        proof {
            let t2 = self.input@.subrange(self.pos as int, self.input@.len() as int);
            lemma_name_char_run(t2);
            if self.pos < self.input@.len() {
                assert(t2[0] == self.input@[self.pos as int]);
            }
        }
        let r = &self.input[start..self.pos];
        assert(r@ =~= rest.take(self.pos - start));
        Some(r)
    }
}

/// Check if byte is valid XML name start character
pub fn is_name_start_char(b: u8) -> (r: bool)
    ensures
        r == spec_name_start(b),
{
    (0x41 <= b && b <= 0x5A) || (0x61 <= b && b <= 0x7A) || b == 0x5F || b == 0x3A || b >= 0x80
}

/// Check if byte is valid XML name character
pub fn is_name_char(b: u8) -> (r: bool)
    ensures
        r == spec_name_char(b),
{
    (0x41 <= b && b <= 0x5A) || (0x61 <= b && b <= 0x7A) || (0x30 <= b && b <= 0x39) || b == 0x5F
        || b == 0x2D || b == 0x2E || b == 0x3A || b >= 0x80
}

} // verus!
