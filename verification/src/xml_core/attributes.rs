//! XML Attribute Parsing
//!
//! Parses XML attributes from tag content.

use std::borrow::Cow;
use vstd::prelude::*;
use vstd::utf8::*;

use super::entities::{
    decode_text, decode_text_strict, decoded, text_strict,
};
use super::primitives::{
    index_of, is_first_index, is_ws, lemma_index_of, lemma_ws_prefix_len, memchr, skip_ws_from,
    utf8_str, ws_prefix_len,
};
use super::unicode::{name_check, validate_name_fast};

verus! {

/// A parsed XML attribute
#[derive(Debug)]
pub struct Attribute<'a> {
    /// Attribute name (may include namespace prefix)
    pub name: Cow<'a, [u8]>,
    /// Attribute value (entities decoded)
    pub value: Cow<'a, [u8]>,
    /// Local name (after colon, if namespaced)
    pub local_name: Cow<'a, [u8]>,
    /// Namespace prefix (before colon), if any
    pub prefix: Option<Cow<'a, [u8]>>,
}

/// Copy a byte `Cow`, keeping a borrowed value borrowed.
pub fn clone_cow<'a>(c: &Cow<'a, [u8]>) -> (r: Cow<'a, [u8]>)
    ensures
        r@ == c@,
{
    match c {
        Cow::Borrowed(b) => Cow::Borrowed(*b),
        Cow::Owned(v) => Cow::Owned(v.clone()),
    }
}

impl<'a> Clone for Attribute<'a> {
    fn clone(&self) -> (r: Self)
        ensures
            r.name@ == self.name@,
            r.value@ == self.value@,
            r.local_name@ == self.local_name@,
            opt_view(r.prefix) == opt_view(self.prefix),
    {
        Attribute {
            name: clone_cow(&self.name),
            value: clone_cow(&self.value),
            local_name: clone_cow(&self.local_name),
            prefix: match &self.prefix {
                Some(p) => Some(clone_cow(p)),
                None => None,
            },
        }
    }
}

/// The part of a name before its first colon, if it has one.
pub open spec fn name_prefix(name: Seq<u8>) -> Option<Seq<u8>> {
    let k = index_of(name, 0x3A);
    if k < 0 {
        None
    } else {
        Some(name.take(k))
    }
}

/// The part of a name after its first colon (the whole name without a colon).
pub open spec fn name_local(name: Seq<u8>) -> Seq<u8> {
    let k = index_of(name, 0x3A);
    if k < 0 {
        name
    } else {
        name.skip(k + 1)
    }
}

/// The view of an optional prefix.
pub open spec fn opt_view<'a>(p: Option<Cow<'a, [u8]>>) -> Option<Seq<u8>> {
    match p {
        Some(c) => Some(c@),
        None => None,
    }
}

impl<'a> Attribute<'a> {
    /// The prefix and local name are the split of the name at its first colon.
    pub open spec fn wf(&self) -> bool {
        &&& self.local_name@ == name_local(self.name@)
        &&& opt_view(self.prefix) == name_prefix(self.name@)
    }

    /// Create a new attribute
    pub fn new(name: &'a [u8], value: Cow<'a, [u8]>) -> (r: Self)
        ensures
            r.name@ == name@,
            r.value@ == value@,
            r.wf(),
    {
        let (prefix, local_name) = split_name(name);
        Attribute {
            name: Cow::Borrowed(name),
            value,
            local_name: Cow::Borrowed(local_name),
            prefix: match prefix {
                Some(p) => Some(Cow::Borrowed(p)),
                None => None,
            },
        }
    }

    /// Get the name as a string
    pub fn name_str(&self) -> (r: Option<&str>)
        ensures
            r is Some <==> valid_utf8(self.name@),
            r matches Some(s) ==> s@ == decode_utf8(self.name@),
    {
        cow_str(&self.name)
    }

    /// Get the value as a string
    pub fn value_str(&self) -> (r: Option<&str>)
        ensures
            r is Some <==> valid_utf8(self.value@),
            r matches Some(s) ==> s@ == decode_utf8(self.value@),
    {
        cow_str(&self.value)
    }

    /// Get the local name as a string
    pub fn local_name_str(&self) -> (r: Option<&str>)
        ensures
            r is Some <==> valid_utf8(self.local_name@),
            r matches Some(s) ==> s@ == decode_utf8(self.local_name@),
    {
        cow_str(&self.local_name)
    }

    /// Get the prefix as a string
    pub fn prefix_str(&self) -> (r: Option<&str>)
        ensures
            r is Some <==> (self.prefix matches Some(p) && valid_utf8(p@)),
            r matches Some(s) ==> (self.prefix matches Some(p) && s@ == decode_utf8(p@)),
    {
        match &self.prefix {
            Some(p) => cow_str(p),
            None => None,
        }
    }
}

/// The bytes a byte `Cow` holds, borrowed or owned.
pub fn cow_bytes<'b>(c: &'b Cow<'_, [u8]>) -> (r: &'b [u8])
    ensures
        r@ == c@,
{
    match c {
        Cow::Borrowed(b) => b,
        Cow::Owned(v) => v.as_slice(),
    }
}

/// View a byte `Cow` as UTF-8 text.
pub fn cow_str<'b>(c: &'b Cow<'_, [u8]>) -> (r: Option<&'b str>)
    ensures
        r is Some <==> valid_utf8(c@),
        r matches Some(s) ==> s@ == decode_utf8(c@),
{
    match c {
        Cow::Borrowed(b) => utf8_str(b),
        Cow::Owned(v) => utf8_str(v.as_slice()),
    }
}

/// Split a name into prefix and local name at the colon
pub fn split_name(name: &[u8]) -> (r: (Option<&[u8]>, &[u8]))
    ensures
        r.1@ == name_local(name@),
        match r.0 {
            Some(p) => name_prefix(name@) == Some(p@),
            None => name_prefix(name@) is None,
        },
{
    proof {
        lemma_index_of(name@, 0x3A);
    }
    match memchr(0x3A, name) {
        Some(colon_pos) => {
            assert(colon_pos < name.len());
            proof {
                lemma_first_index(name@, 0x3A, colon_pos as int);
            }
            let p = &name[0..colon_pos];
            let l = &name[colon_pos + 1..name.len()];
            assert(p@ =~= name@.take(colon_pos as int));
            assert(l@ =~= name@.skip(colon_pos + 1));
            (Some(p), l)
        },
        None => (None, name),
    }
}

pub proof fn lemma_first_index(s: Seq<u8>, b: u8, i: int)
    requires
        is_first_index(s, b, i),
    ensures
        index_of(s, b) == i,
{
    lemma_index_of(s, b);
    if index_of(s, b) == -1 {
        assert(s[i] != b);
    } else if index_of(s, b) < i {
        assert(s[index_of(s, b)] != b);
    } else if index_of(s, b) > i {
        assert(s[i] != b);
    }
}

// =============================================================================
// Specification of attribute parsing
// =============================================================================
/// Check if byte is a valid XML NameStartChar (ASCII only, non-ASCII handled elsewhere)
pub open spec fn spec_attr_name_start(b: u8) -> bool {
    (0x41 <= b && b <= 0x5A) || (0x61 <= b && b <= 0x7A) || b == 0x5F || b == 0x3A || b >= 0x80
}

/// Check if byte may stand in an attribute name: ASCII letters, digits, `_-.:`, or any
/// byte of a multi-byte UTF-8 sequence (the name as a whole is checked against the XML
/// `NameStartChar` / `NameChar` classes in strict mode).
pub open spec fn spec_attr_name_char(b: u8) -> bool {
    (0x41 <= b && b <= 0x5A) || (0x61 <= b && b <= 0x7A) || (0x30 <= b && b <= 0x39) || b == 0x5F
        || b == 0x2D || b == 0x2E || b == 0x3A || b >= 0x80
}

/// Length of the run of bytes at the front of `s` that satisfy the attribute name class.
pub open spec fn name_run(s: Seq<u8>) -> int
    decreases s.len(),
{
    if s.len() > 0 && spec_attr_name_char(s[0]) {
        1 + name_run(s.drop_first())
    } else {
        0
    }
}

/// Length of the run of bytes at the front of `s` that end an unquoted value: anything
/// but whitespace, `/` and `>`.
pub open spec fn unquoted_run(s: Seq<u8>) -> int
    decreases s.len(),
{
    if s.len() > 0 && !is_ws(s[0]) && s[0] != 0x2F && s[0] != 0x3E {
        1 + unquoted_run(s.drop_first())
    } else {
        0
    }
}

pub proof fn lemma_name_run(s: Seq<u8>)
    ensures
        0 <= name_run(s) <= s.len(),
        forall|j: int| 0 <= j < name_run(s) ==> spec_attr_name_char(#[trigger] s[j]),
        name_run(s) < s.len() ==> !spec_attr_name_char(s[name_run(s)]),
    decreases s.len(),
{
    if s.len() > 0 && spec_attr_name_char(s[0]) {
        lemma_name_run(s.drop_first());
        assert forall|j: int| 0 <= j < name_run(s) implies spec_attr_name_char(#[trigger] s[j]) by {
            if j > 0 {
                assert(s[j] == s.drop_first()[j - 1]);
            }
        }
    }
}

pub proof fn lemma_unquoted_run(s: Seq<u8>)
    ensures
        0 <= unquoted_run(s) <= s.len(),
        unquoted_run(s) < s.len() ==> (is_ws(s[unquoted_run(s)]) || s[unquoted_run(s)] == 0x2F
            || s[unquoted_run(s)] == 0x3E),
    decreases s.len(),
{
    if s.len() > 0 && !is_ws(s[0]) && s[0] != 0x2F && s[0] != 0x3E {
        lemma_unquoted_run(s.drop_first());
    }
}

/// Position of the first non-whitespace byte at or after `p`.
pub open spec fn after_ws(s: Seq<u8>, p: int) -> int {
    p + ws_prefix_len(s.subrange(p, s.len() as int))
}

/// End of the quoted value starting at `vs`: the first `quote` at or after `vs`, or the end.
pub open spec fn value_end(s: Seq<u8>, vs: int, quote: u8) -> int {
    let k = index_of(s.subrange(vs, s.len() as int), quote);
    if k < 0 {
        s.len() as int
    } else {
        vs + k
    }
}

/// In strict mode, a byte of a quoted value that makes the value malformed: a `<`, or an
/// `&` not followed by `#` or a name start byte.
pub open spec fn bad_value_byte(s: Seq<u8>, p: int) -> bool {
    s[p] == 0x3C || (s[p] == 0x26 && (p + 1 >= s.len() || !(s[p + 1] == 0x23
        || spec_attr_name_start(s[p + 1]))))
}

/// The first malformed value byte in `[vs, end)`, if any.
pub open spec fn first_bad_value_byte(s: Seq<u8>, vs: int, end: int) -> Option<int>
    decreases end - vs,
{
    if vs >= end {
        None
    } else if bad_value_byte(s, vs) {
        Some(vs)
    } else {
        first_bad_value_byte(s, vs + 1, end)
    }
}

/// The message for a malformed value byte.
pub open spec fn bad_value_message(s: Seq<u8>, p: int) -> &'static str {
    if s[p] == 0x3C {
        "Attribute value cannot contain '<'"
    } else {
        "Bare '&' not allowed in attribute value"
    }
}

/// One step of attribute parsing from position `pos`.
pub enum AttrStep {
    /// Parsing stops without error.
    Done,
    /// Parsing stops with the given error (strict mode only).
    Fail(&'static str),
    /// Parsing skips ahead to the given position.
    Skip(int),
    /// An attribute (name, value) is produced and parsing resumes at the given position.
    Emit(Seq<u8>, Seq<u8>, int),
}

/// What parsing does at `pos`, per the attribute grammar with its lenient recoveries.
pub open spec fn attr_step(s: Seq<u8>, pos: int, strict: bool) -> AttrStep {
    let p1 = after_ws(s, pos);
    if p1 >= s.len() {
        AttrStep::Done
    } else if s[p1] == 0x2F || s[p1] == 0x3E {
        AttrStep::Done
    } else if !spec_attr_name_start(s[p1]) {
        if strict {
            AttrStep::Fail("Attribute name must start with letter, underscore, or colon")
        } else {
            AttrStep::Skip(p1 + 1)
        }
    } else {
        let p2 = p1 + name_run(s.subrange(p1, s.len() as int));
        if p2 == p1 {
            AttrStep::Skip(p1 + 1)
        } else {
            let name = s.subrange(p1, p2);
            if strict && name_check(name, true) is Err {
                AttrStep::Fail(name_check(name, true)->Err_0)
            } else {
                let p3 = after_ws(s, p2);
                if p3 >= s.len() || s[p3] != 0x3D {
                    if strict {
                        AttrStep::Fail("Attribute value required")
                    } else {
                        AttrStep::Emit(name, seq![], p3)
                    }
                } else {
                    let p4 = after_ws(s, p3 + 1);
                    if p4 >= s.len() {
                        AttrStep::Done
                    } else if s[p4] != 0x22 && s[p4] != 0x27 {
                        if strict {
                            AttrStep::Fail("Attribute value must be quoted")
                        } else {
                            let p5 = p4 + unquoted_run(s.subrange(p4, s.len() as int));
                            AttrStep::Emit(name, decoded(s.subrange(p4, p5)), p5)
                        }
                    } else {
                        let vs = p4 + 1;
                        let close = value_end(s, vs, s[p4]);
                        let next = if close < s.len() {
                            close + 1
                        } else {
                            close
                        };
                        if strict {
                            match first_bad_value_byte(s, vs, close) {
                                Some(b) => AttrStep::Fail(bad_value_message(s, b)),
                                None => if close >= s.len() {
                                    AttrStep::Fail("Attribute value has mismatched quotes")
                                } else {
                                    match text_strict(s.subrange(vs, close)) {
                                        Ok(v) => AttrStep::Emit(name, v, next),
                                        Err(m) => AttrStep::Fail(m),
                                    }
                                },
                            }
                        } else {
                            AttrStep::Emit(name, decoded(s.subrange(vs, close)), next)
                        }
                    }
                }
            }
        }
    }
}

pub proof fn lemma_after_ws(s: Seq<u8>, p: int)
    requires
        0 <= p <= s.len(),
    ensures
        p <= after_ws(s, p) <= s.len(),
{
    lemma_ws_prefix_len(s.subrange(p, s.len() as int));
}

pub proof fn lemma_value_end(s: Seq<u8>, vs: int, quote: u8)
    requires
        0 <= vs <= s.len(),
    ensures
        vs <= value_end(s, vs, quote) <= s.len(),
{
    lemma_index_of(s.subrange(vs, s.len() as int), quote);
}

pub proof fn lemma_attr_step_progress(s: Seq<u8>, pos: int, strict: bool)
    requires
        0 <= pos < s.len(),
    ensures
        attr_step(s, pos, strict) matches AttrStep::Skip(p) ==> pos < p <= s.len(),
        attr_step(s, pos, strict) matches AttrStep::Emit(_, _, p) ==> pos < p <= s.len(),
{
    lemma_after_ws(s, pos);
    let p1 = after_ws(s, pos);
    if p1 < s.len() {
        lemma_name_run(s.subrange(p1, s.len() as int));
        let p2 = p1 + name_run(s.subrange(p1, s.len() as int));
        lemma_after_ws(s, p2);
        let p3 = after_ws(s, p2);
        if p3 < s.len() {
            lemma_after_ws(s, p3 + 1);
            let p4 = after_ws(s, p3 + 1);
            if p4 < s.len() {
                lemma_unquoted_run(s.subrange(p4, s.len() as int));
                lemma_value_end(s, p4 + 1, s[p4]);
            }
        }
    }
}

/// The attributes (name, value) produced from `pos` on, and the error that stopped
/// parsing, if any.
pub open spec fn attrs_from(s: Seq<u8>, pos: int, strict: bool) -> (
    Seq<(Seq<u8>, Seq<u8>)>,
    Option<&'static str>,
)
    decreases s.len() - pos,
{
    if pos < 0 || pos >= s.len() {
        (seq![], None)
    } else {
        proof {
            lemma_attr_step_progress(s, pos, strict);
        }
        match attr_step(s, pos, strict) {
            AttrStep::Done => (seq![], None),
            AttrStep::Fail(m) => (seq![], Some(m)),
            AttrStep::Skip(p) => attrs_from(s, p, strict),
            AttrStep::Emit(n, v, p) => {
                let r = attrs_from(s, p, strict);
                (seq![(n, v)] + r.0, r.1)
            },
        }
    }
}

/// The (name, value) pairs of a list of attributes.
pub open spec fn attrs_model<'a>(attrs: Seq<Attribute<'a>>) -> Seq<(Seq<u8>, Seq<u8>)> {
    attrs.map_values(|a: Attribute<'a>| (a.name@, a.value@))
}

/// Every attribute's prefix and local name agree with its name.
pub open spec fn all_wf<'a>(attrs: Seq<Attribute<'a>>) -> bool {
    forall|i: int| 0 <= i < attrs.len() ==> (#[trigger] attrs[i]).wf()
}

// =============================================================================
// Executable parsing
// =============================================================================
/// Parse attributes from raw tag content (after the element name)
///
/// Input should be the content between element name and '>' or '/>'
pub fn parse_attributes(input: &[u8]) -> (r: Vec<Attribute<'_>>)
    ensures
        attrs_model(r@) == attrs_from(input@, 0, false).0,
        all_wf(r@),
{
    let (attrs, _) = parse_attributes_with_validation(input, false);
    attrs
}

/// Parse attributes with optional strict validation
/// Returns (attributes, error_message if any)
pub fn parse_attributes_strict(input: &[u8]) -> (r: Result<Vec<Attribute<'_>>, &'static str>)
    ensures
        match r {
            Ok(v) => attrs_from(input@, 0, true).1 is None && attrs_model(v@) == attrs_from(
                input@,
                0,
                true,
            ).0 && all_wf(v@),
            Err(m) => attrs_from(input@, 0, true).1 == Some(m),
        },
{
    let (attrs, error) = parse_attributes_with_validation(input, true);
    match error {
        Some(msg) => Err(msg),
        None => Ok(attrs),
    }
}

fn name_run_end(input: &[u8], start: usize) -> (r: usize)
    requires
        start <= input@.len(),
    ensures
        r == start + name_run(input@.subrange(start as int, input@.len() as int)),
        start <= r <= input@.len(),
{
    let mut pos = start;
    while pos < input.len() && is_name_char(input[pos])
        invariant
            start <= pos <= input@.len(),
            name_run(input@.subrange(start as int, input@.len() as int)) == (pos - start)
                + name_run(input@.subrange(pos as int, input@.len() as int)),
        decreases input.len() - pos,
    {
        assert(input@.subrange(pos as int, input@.len() as int).drop_first() =~= input@.subrange(
            pos + 1,
            input@.len() as int,
        ));
        pos += 1;
    }
    proof {
        lemma_name_run(input@.subrange(pos as int, input@.len() as int));
        if pos < input@.len() {
            assert(input@.subrange(pos as int, input@.len() as int)[0] == input@[pos as int]);
        }
    }
    pos
}

fn unquoted_end(input: &[u8], start: usize) -> (r: usize)
    requires
        start <= input@.len(),
    ensures
        r == start + unquoted_run(input@.subrange(start as int, input@.len() as int)),
        start <= r <= input@.len(),
{
    let mut pos = start;
    while pos < input.len() && !is_whitespace(input[pos]) && input[pos] != 0x2F && input[pos]
        != 0x3E
        invariant
            start <= pos <= input@.len(),
            unquoted_run(input@.subrange(start as int, input@.len() as int)) == (pos - start)
                + unquoted_run(input@.subrange(pos as int, input@.len() as int)),
        decreases input.len() - pos,
    {
        assert(input@.subrange(pos as int, input@.len() as int).drop_first() =~= input@.subrange(
            pos + 1,
            input@.len() as int,
        ));
        pos += 1;
    }
    proof {
        lemma_unquoted_run(input@.subrange(pos as int, input@.len() as int));
        if pos < input@.len() {
            assert(input@.subrange(pos as int, input@.len() as int)[0] == input@[pos as int]);
        }
    }
    pos
}

/// Scan a quoted value from `vs` to its closing quote (or the end), reporting in strict
/// mode the first malformed byte.
fn scan_value(input: &[u8], vs: usize, quote: u8, strict: bool) -> (r: (usize, Option<
    &'static str,
>))
    requires
        vs <= input@.len(),
    ensures
        r.0 == value_end(input@, vs as int, quote),
        strict ==> match first_bad_value_byte(input@, vs as int, r.0 as int) {
            Some(b) => r.1 == Some(bad_value_message(input@, b)),
            None => r.1 is None,
        },
        !strict ==> r.1 is None,
{
    let ghost t = input@.subrange(vs as int, input@.len() as int);
    proof {
        lemma_index_of(t, quote);
    }
    let mut pos = vs;
    while pos < input.len() && input[pos] != quote
        invariant
            vs <= pos <= input@.len(),
            t == input@.subrange(vs as int, input@.len() as int),
            forall|j: int| vs <= j < pos ==> input@[j] != quote,
            -1 <= index_of(t, quote) < t.len(),
            index_of(t, quote) == -1 <==> (forall|j: int| 0 <= j < t.len() ==> t[j] != quote),
            index_of(t, quote) >= 0 ==> t[index_of(t, quote)] == quote,
            forall|j: int| 0 <= j < index_of(t, quote) ==> t[j] != quote,
            strict ==> first_bad_value_byte(input@, vs as int, pos as int) is None,
        decreases input.len() - pos,
    {
        if strict {
            let b = input[pos];
            let bad = if b == 0x3C {
                true
            } else if b == 0x26 {
                if pos + 1 < input.len() {
                    let next = input[pos + 1];
                    !(next == 0x23 || is_name_start_char(next))
                } else {
                    true
                }
            } else {
                false
            };
            proof {
                lemma_first_bad_extend(input@, vs as int, pos as int);
            }
            if bad {
                let msg = if b == 0x3C {
                    "Attribute value cannot contain '<'"
                } else {
                    "Bare '&' not allowed in attribute value"
                };
                let ghost close = value_end(input@, vs as int, quote);
                proof {
                    assert(t[pos - vs] == input@[pos as int]);
                    if index_of(t, quote) >= 0 && index_of(t, quote) <= pos - vs {
                        assert(t[index_of(t, quote)] == input@[vs + index_of(t, quote)]);
                    }
                    lemma_first_bad_prefix(input@, vs as int, pos as int, close);
                }
                let c = find_close(input, pos, quote, vs);
                return (c, Some(msg));
            }
        }
        pos += 1;
    }
    proof {
        if pos < input@.len() {
            assert(t[pos - vs] == input@[pos as int]);
            assert(is_first_index(t, quote, pos - vs)) by {
                assert forall|j: int| 0 <= j < pos - vs implies t[j] != quote by {
                    assert(t[j] == input@[vs + j]);
                }
            }
            lemma_first_index(t, quote, pos - vs);
        } else {
            assert forall|j: int| 0 <= j < t.len() implies t[j] != quote by {
                assert(t[j] == input@[vs + j]);
            }
        }
    }
    (pos, None)
}

/// Continue to the closing quote from a position before it.
fn find_close(input: &[u8], from: usize, quote: u8, vs: usize) -> (r: usize)
    requires
        vs <= from <= input@.len(),
        forall|j: int| vs <= j < from ==> input@[j] != quote,
    ensures
        r == value_end(input@, vs as int, quote),
{
    let ghost t = input@.subrange(vs as int, input@.len() as int);
    let mut pos = from;
    while pos < input.len() && input[pos] != quote
        invariant
            vs <= pos <= input@.len(),
            t == input@.subrange(vs as int, input@.len() as int),
            forall|j: int| vs <= j < pos ==> input@[j] != quote,
        decreases input.len() - pos,
    {
        pos += 1;
    }
    proof {
        lemma_index_of(t, quote);
        if pos < input@.len() {
            assert(t[pos - vs] == input@[pos as int]);
            assert(is_first_index(t, quote, pos - vs)) by {
                assert forall|j: int| 0 <= j < pos - vs implies t[j] != quote by {
                    assert(t[j] == input@[vs + j]);
                }
            }
            lemma_first_index(t, quote, pos - vs);
        } else {
            assert forall|j: int| 0 <= j < t.len() implies t[j] != quote by {
                assert(t[j] == input@[vs + j]);
            }
        }
    }
    pos
}

proof fn lemma_first_bad_extend(s: Seq<u8>, vs: int, p: int)
    requires
        vs <= p < s.len(),
        first_bad_value_byte(s, vs, p) is None,
    ensures
        first_bad_value_byte(s, vs, p + 1) == (if bad_value_byte(s, p) {
            Some(p)
        } else {
            None::<int>
        }),
    decreases p - vs,
{
    reveal_with_fuel(first_bad_value_byte, 2);
    if vs < p {
        lemma_first_bad_extend(s, vs + 1, p);
    }
}

proof fn lemma_first_bad_prefix(s: Seq<u8>, vs: int, p: int, end: int)
    requires
        vs <= p < end,
        first_bad_value_byte(s, vs, p + 1) == Some(p),
    ensures
        first_bad_value_byte(s, vs, end) == Some(p),
    decreases p - vs,
{
    reveal_with_fuel(first_bad_value_byte, 2);
    if vs < p {
        lemma_first_bad_prefix(s, vs + 1, p, end);
    }
}

/// The outcome of one parsing step.
enum StepOut<'a> {
    Done,
    Fail(&'static str),
    Skip(usize),
    Emit(Attribute<'a>, usize),
}

/// One step of attribute parsing at `pos`.
#[verifier::rlimit(60)]
fn parse_step<'a>(input: &'a [u8], pos: usize, strict: bool) -> (r: StepOut<'a>)
    requires
        pos < input@.len(),
    ensures
        match r {
            StepOut::Done => attr_step(input@, pos as int, strict) == AttrStep::Done,
            StepOut::Fail(m) => attr_step(input@, pos as int, strict) == AttrStep::Fail(m),
            StepOut::Skip(p) => attr_step(input@, pos as int, strict) == AttrStep::Skip(p as int),
            StepOut::Emit(a, p) => attr_step(input@, pos as int, strict) == AttrStep::Emit(
                a.name@,
                a.value@,
                p as int,
            ) && a.wf(),
        },
{
    let ghost s = input@;
    proof {
        lemma_after_ws(s, pos as int);
    }
    // Skip whitespace
    let mut pos = skip_ws_from(input, pos);
    if pos >= input.len() {
        return StepOut::Done;
    }
    // Check for end of attributes (/ or >)
    if input[pos] == 0x2F || input[pos] == 0x3E {
        return StepOut::Done;
    }
    let name_start = pos;
    let first = input[pos];
    if !is_name_start_char(first) {
        if strict {
            return StepOut::Fail("Attribute name must start with letter, underscore, or colon");
        }
        return StepOut::Skip(pos + 1);
    }
    pos = name_run_end(input, pos);
    if pos == name_start {
        return StepOut::Skip(pos + 1);
    }
    let name = &input[name_start..pos];
    let ghost p2 = pos as int;
    if strict {
        if let Err(msg) = validate_name_fast(name) {
            return StepOut::Fail(msg);
        }
    }
    proof {
        lemma_after_ws(s, p2);
    }
    pos = skip_ws_from(input, pos);
    if pos >= input.len() || input[pos] != 0x3D {
        if strict {
            return StepOut::Fail("Attribute value required");
        }
        // Attribute without value (like HTML boolean attributes)
        let empty: &[u8] = &input[0..0];
        assert(empty@ =~= Seq::<u8>::empty());
        return StepOut::Emit(Attribute::new(name, Cow::Borrowed(empty)), pos);
    }
    let ghost p3 = pos as int;
    proof {
        lemma_after_ws(s, p3 + 1);
    }
    pos = skip_ws_from(input, pos + 1);
    if pos >= input.len() {
        return StepOut::Done;
    }
    let quote = input[pos];
    if quote != 0x22 && quote != 0x27 {
        if strict {
            return StepOut::Fail("Attribute value must be quoted");
        }
        let value_start = pos;
        pos = unquoted_end(input, pos);
        let value = decode_text(&input[value_start..pos]);
        return StepOut::Emit(Attribute::new(name, value), pos);
    }
    pos += 1;
    let value_start = pos;
    proof {
        lemma_value_end(s, value_start as int, quote);
    }
    let (close, bad) = scan_value(input, value_start, quote, strict);
    if let Some(msg) = bad {
        return StepOut::Fail(msg);
    }
    pos = close;
    if strict && pos >= input.len() {
        return StepOut::Fail("Attribute value has mismatched quotes");
    }
    let value_bytes = &input[value_start..pos];
    let value = if strict {
        match decode_text_strict(value_bytes) {
            Ok(v) => v,
            Err(msg) => {
                return StepOut::Fail(msg);
            },
        }
    } else {
        decode_text(value_bytes)
    };
    let attr = Attribute::new(name, value);
    if pos < input.len() {
        pos += 1;
    }
    StepOut::Emit(attr, pos)
}

/// Parse attributes, in strict mode stopping at the first malformed construct.
pub fn parse_attributes_with_validation(input: &[u8], strict: bool) -> (r: (
    Vec<Attribute<'_>>,
    Option<&'static str>,
))
    ensures
        attrs_model(r.0@) == attrs_from(input@, 0, strict).0,
        r.1 == attrs_from(input@, 0, strict).1,
        all_wf(r.0@),
{
    let mut attrs: Vec<Attribute<'_>> = Vec::new();
    let mut pos: usize = 0;
    while pos < input.len()
        invariant
            pos <= input@.len(),
            attrs_from(input@, 0, strict).0 == attrs_model(attrs@) + attrs_from(
                input@,
                pos as int,
                strict,
            ).0,
            attrs_from(input@, 0, strict).1 == attrs_from(input@, pos as int, strict).1,
            all_wf(attrs@),
        decreases input.len() - pos,
    {
        let ghost old_attrs = attrs@;
        let ghost old_pos = pos as int;
        proof {
            lemma_attr_step_progress(input@, old_pos, strict);
        }
        match parse_step(input, pos, strict) {
            StepOut::Done => {
                proof {
                    assert(attrs_from(input@, old_pos, strict).0 =~= Seq::<(Seq<u8>, Seq<u8>)>::empty());
                    assert(attrs_model(attrs@) + Seq::<(Seq<u8>, Seq<u8>)>::empty() =~= attrs_model(attrs@));
                }
                return (attrs, None);
            },
            StepOut::Fail(m) => {
                proof {
                    assert(attrs_from(input@, old_pos, strict).0 =~= Seq::<(Seq<u8>, Seq<u8>)>::empty());
                    assert(attrs_model(attrs@) + Seq::<(Seq<u8>, Seq<u8>)>::empty() =~= attrs_model(attrs@));
                }
                return (attrs, Some(m));
            },
            StepOut::Skip(p) => {
                pos = p;
            },
            StepOut::Emit(a, p) => {
                let ghost av = (a.name@, a.value@);
                attrs.push(a);
                proof {
                    lemma_model_push(old_attrs, attrs@.last());
                    assert(attrs@ =~= old_attrs.push(attrs@.last()));
                    assert(attrs_model(old_attrs) + (seq![av] + attrs_from(input@, p as int, strict).0)
                        =~= attrs_model(attrs@) + attrs_from(input@, p as int, strict).0);
                }
                pos = p;
            },
        }
    }
    proof {
        assert(attrs_from(input@, pos as int, strict).0 =~= Seq::<(Seq<u8>, Seq<u8>)>::empty());
        assert(attrs_model(attrs@) + Seq::<(Seq<u8>, Seq<u8>)>::empty() =~= attrs_model(attrs@));
    }
    (attrs, None)
}

proof fn lemma_model_push<'a>(attrs: Seq<Attribute<'a>>, a: Attribute<'a>)
    ensures
        attrs_model(attrs.push(a)) == attrs_model(attrs).push((a.name@, a.value@)),
{
    assert(attrs_model(attrs.push(a)) =~= attrs_model(attrs).push((a.name@, a.value@)));
}

/// Check if byte is a valid XML NameStartChar (ASCII only, non-ASCII handled elsewhere)
fn is_name_start_char(b: u8) -> (r: bool)
    ensures
        r == spec_attr_name_start(b),
{
    (0x41 <= b && b <= 0x5A) || (0x61 <= b && b <= 0x7A) || b == 0x5F || b == 0x3A || b >= 0x80
}

/// Check if byte is whitespace
fn is_whitespace(b: u8) -> (r: bool)
    ensures
        r == is_ws(b),
{
    b == 0x20 || b == 0x09 || b == 0x0A || b == 0x0D
}

/// Check if byte is valid in XML name
fn is_name_char(b: u8) -> (r: bool)
    ensures
        r == spec_attr_name_char(b),
{
    (0x41 <= b && b <= 0x5A) || (0x61 <= b && b <= 0x7A) || (0x30 <= b && b <= 0x39) || b == 0x5F
        || b == 0x2D || b == 0x2E || b == 0x3A || b >= 0x80
}

} // verus!
