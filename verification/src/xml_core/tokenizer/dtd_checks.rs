//! Strict mode checks of the declarations of a DTD internal subset: keyword case,
//! content models, attribute list types and entity values.

use vstd::prelude::*;

use super::checks::{first_or_len, position_of, skip_ws, trim_ws, word_at, find_word};
use crate::xml_core::primitives::{
    bytes_eq, eq_ignore_ascii_case, eq_ignore_case, has_prefix, is_ws, is_ws_byte,
    lemma_ws_prefix_len, starts_with, ws_prefix_len,
};
use crate::xml_core::scanner::{
    is_name_char, is_name_start_char, lemma_name_char_run, name_char_run, spec_name_char,
    spec_name_start,
};

verus! {

/// The position after the whitespace that starts at `pos` in `s`.
pub open spec fn ws_end(s: Seq<u8>, pos: int) -> int {
    pos + ws_prefix_len(s.skip(pos))
}

/// The position after the run of name bytes that starts at `pos` in `s`.
pub open spec fn name_end(s: Seq<u8>, pos: int) -> int {
    pos + name_char_run(s.skip(pos))
}

pub proof fn lemma_ws_end(s: Seq<u8>, pos: int)
    requires
        0 <= pos <= s.len(),
    ensures
        pos <= ws_end(s, pos) <= s.len(),
        ws_end(s, pos) < s.len() ==> !is_ws(s[ws_end(s, pos)]),
{
    lemma_ws_prefix_len(s.skip(pos));
    if ws_end(s, pos) < s.len() {
        assert(s.skip(pos)[ws_prefix_len(s.skip(pos))] == s[ws_end(s, pos)]);
    }
}

pub proof fn lemma_name_end(s: Seq<u8>, pos: int)
    requires
        0 <= pos <= s.len(),
    ensures
        pos <= name_end(s, pos) <= s.len(),
        pos < s.len() && spec_name_char(s[pos]) ==> pos < name_end(s, pos),
{
    lemma_name_char_run(s.skip(pos));
    if pos < s.len() {
        assert(s.skip(pos)[0] == s[pos]);
    }
}

/// Position after the whitespace at `pos`.
fn ws_from(s: &[u8], pos: usize) -> (r: usize)
    requires
        pos <= s@.len(),
    ensures
        r == ws_end(s@, pos as int),
        pos <= r <= s@.len(),
{
    let r = crate::xml_core::primitives::skip_ws_from(s, pos);
    assert(s@.skip(pos as int) =~= s@.subrange(pos as int, s@.len() as int));
    r
}

/// Position after the name bytes at `pos`.
fn name_from(s: &[u8], pos: usize) -> (r: usize)
    requires
        pos <= s@.len(),
    ensures
        r == name_end(s@, pos as int),
        pos <= r <= s@.len(),
{
    let mut p = pos;
    while p < s.len() && is_name_char(s[p])
        invariant
            pos <= p <= s@.len(),
            name_char_run(s@.skip(pos as int)) == (p - pos) + name_char_run(s@.skip(p as int)),
        decreases s.len() - p,
    {
        assert(s@.skip(p as int).drop_first() =~= s@.skip(p + 1));
        p += 1;
    }
    proof {
        lemma_name_char_run(s@.skip(p as int));
        if p < s@.len() {
            assert(s@.skip(p as int)[0] == s@[p as int]);
        }
    }
    p
}

pub open spec fn lit_empty() -> Seq<u8> {
    seq![0x45u8, 0x4Du8, 0x50u8, 0x54u8, 0x59u8]
}

pub open spec fn lit_any() -> Seq<u8> {
    seq![0x41u8, 0x4Eu8, 0x59u8]
}

pub open spec fn lit_pcdata() -> Seq<u8> {
    seq![0x23u8, 0x50u8, 0x43u8, 0x44u8, 0x41u8, 0x54u8, 0x41u8]
}

/// The outcome of checking a mixed content model from `pos` (after `#PCDATA`).
pub open spec fn mixed_check(s: Seq<u8>, pos: int, has_alt: bool) -> Result<(), &'static str>
    decreases s.len() - pos,
{
    if pos < 0 || pos > s.len() {
        Err("Unclosed mixed content model")
    } else {
        let p = ws_end(s, pos);
        proof {
            lemma_ws_end(s, pos);
        }
        if p >= s.len() {
            Err("Unclosed mixed content model")
        } else if s[p] == 0x29 {
            if has_alt && (p + 1 >= s.len() || s[p + 1] != 0x2A) {
                Err("Mixed content with element names must end with ')*'")
            } else {
                Ok(())
            }
        } else if s[p] == 0x7C {
            let q = ws_end(s, p + 1);
            proof {
                lemma_ws_end(s, p + 1);
            }
            if q >= s.len() || !spec_name_start(s[q]) {
                Err("Expected element name after '|' in mixed content")
            } else {
                proof {
                    lemma_name_end(s, q);
                }
                mixed_check(s, name_end(s, q), true)
            }
        } else {
            Err("Invalid character in mixed content model")
        }
    }
}

/// Validate Mixed content model after #PCDATA
pub fn validate_mixed_content(content: &[u8]) -> (r: Result<(), &'static str>)
    ensures
        r == mixed_check(content@, 0, false),
{
    let len = content.len();
    let mut pos: usize = 0;
    let mut has_alternation = false;
    while pos < len
        invariant
            len == content@.len(),
            pos <= len,
            mixed_check(content@, 0, false) == mixed_check(content@, pos as int, has_alternation),
        decreases len - pos,
    {
        pos = ws_from(content, pos);
        proof {
            lemma_ws_end(content@, pos as int);
        }
        if pos >= len {
            return Err("Unclosed mixed content model");
        }
        if content[pos] == 0x29 {
            pos += 1;
            if has_alternation {
                if pos >= len || content[pos] != 0x2A {
                    return Err("Mixed content with element names must end with ')*'");
                }
            }
            return Ok(());
        } else if content[pos] == 0x7C {
            has_alternation = true;
            pos += 1;
            pos = ws_from(content, pos);
            if pos >= len || !is_name_start_char(content[pos]) {
                return Err("Expected element name after '|' in mixed content");
            }
            proof {
                lemma_name_end(content@, pos as int);
            }
            pos = name_from(content, pos);
        } else {
            return Err("Invalid character in mixed content model");
        }
    }
    Err("Unclosed mixed content model")
}

/// The final outcome of a children content model scan at nesting `depth`.
pub open spec fn children_final(depth: int) -> Result<(), &'static str> {
    if depth != 0 {
        Err("Unbalanced parentheses in content model")
    } else {
        Ok(())
    }
}

/// The outcome of checking a children content model from `pos`, with `depth` open
/// parentheses and what came last (an occurrence indicator, a separator, a `)`).
pub open spec fn children_check(
    s: Seq<u8>,
    pos: int,
    depth: int,
    occ: bool,
    sep: bool,
    close: bool,
) -> Result<(), &'static str>
    decreases s.len() - pos,
{
    if pos < 0 || pos >= s.len() || depth <= 0 {
        children_final(depth)
    } else {
        let p = ws_end(s, pos);
        proof {
            lemma_ws_end(s, pos);
        }
        if p >= s.len() {
            children_final(depth)
        } else {
            let b = s[p];
            if b == 0x28 {
                children_check(s, p + 1, depth + 1, false, true, false)
            } else if b == 0x29 {
                children_check(s, p + 1, depth - 1, false, false, true)
            } else if b == 0x3F || b == 0x2A || b == 0x2B {
                if occ {
                    Err("Invalid double occurrence indicator in content model")
                } else if sep {
                    Err("Occurrence indicator cannot follow separator")
                } else {
                    children_check(s, p + 1, depth, true, false, false)
                }
            } else if b == 0x2C || b == 0x7C {
                children_check(s, p + 1, depth, false, true, false)
            } else if spec_name_start(b) {
                if !sep {
                    Err("Expected separator before element name in content model")
                } else {
                    proof {
                        lemma_name_end(s, p);
                    }
                    children_check(s, name_end(s, p), depth, false, false, false)
                }
            } else {
                Err("Invalid character in content model")
            }
        }
    }
}

/// Validate children content model (after its opening `(`)
pub fn validate_children_content(content: &[u8]) -> (r: Result<(), &'static str>)
    ensures
        r == children_check(content@, 0, 1, false, true, false),
{
    let len = content.len();
    let mut pos: usize = 0;
    // The nesting depth is 1 + opens - closes
    let mut opens: usize = 0;
    let mut closes: usize = 0;
    let mut last_was_occurrence = false;
    let mut last_was_separator = true;
    let mut last_was_close_paren = false;
    while pos < len && opens + 1 > closes
        invariant
            len == content@.len(),
            pos <= len,
            opens <= pos,
            closes <= pos,
            closes <= opens + 1,
            children_check(content@, 0, 1, false, true, false) == children_check(
                content@,
                pos as int,
                1 + opens - closes,
                last_was_occurrence,
                last_was_separator,
                last_was_close_paren,
            ),
        ensures
            pos >= len || closes >= opens + 1,
        decreases len - pos,
    {
        pos = ws_from(content, pos);
        if pos >= len {
            break;
        }
        let b = content[pos];
        if b == 0x28 {
            opens += 1;
            last_was_occurrence = false;
            last_was_separator = true;
            last_was_close_paren = false;
            pos += 1;
        } else if b == 0x29 {
            closes += 1;
            last_was_occurrence = false;
            last_was_separator = false;
            last_was_close_paren = true;
            pos += 1;
        } else if b == 0x3F || b == 0x2A || b == 0x2B {
            if last_was_occurrence {
                return Err("Invalid double occurrence indicator in content model");
            }
            if last_was_separator {
                return Err("Occurrence indicator cannot follow separator");
            }
            last_was_occurrence = true;
            last_was_separator = false;
            last_was_close_paren = false;
            pos += 1;
        } else if b == 0x2C || b == 0x7C {
            last_was_occurrence = false;
            last_was_separator = true;
            last_was_close_paren = false;
            pos += 1;
        } else if is_name_start_char(b) {
            if !last_was_separator {
                return Err("Expected separator before element name in content model");
            }
            proof {
                lemma_name_end(content@, pos as int);
            }
            pos = name_from(content, pos);
            last_was_occurrence = false;
            last_was_separator = false;
            last_was_close_paren = false;
        } else {
            return Err("Invalid character in content model");
        }
    }
    if closes == 0 || closes - 1 != opens {
        return Err("Unbalanced parentheses in content model");
    }
    Ok(())
}

/// The outcome of checking a content model (after its opening `(`).
pub open spec fn content_model_check(s: Seq<u8>) -> Result<(), &'static str> {
    let c = trim_ws(s);
    if has_prefix(c, lit_pcdata()) {
        mixed_check(c.skip(7), 0, false)
    } else if c.len() >= 7 && eq_ignore_case(c.take(7), lit_pcdata()) {
        Err("'#PCDATA' must be uppercase")
    } else {
        children_check(c, 0, 1, false, true, false)
    }
}

/// Validate content model (Mixed or children)
pub fn validate_content_model(content: &[u8]) -> (r: Result<(), &'static str>)
    ensures
        r == content_model_check(content@),
{
    let pcdata: &[u8] = &[0x23u8, 0x50u8, 0x43u8, 0x44u8, 0x41u8, 0x54u8, 0x41u8];
    assert(pcdata@ =~= lit_pcdata());
    let c = skip_ws(content);
    if starts_with(c, pcdata) {
        assert(c@.skip(7) =~= c@.subrange(7, c@.len() as int));
        return validate_mixed_content(&c[7..c.len()]);
    }
    if c.len() >= 7 && eq_ignore_ascii_case(&c[0..7], pcdata) {
        return Err("'#PCDATA' must be uppercase");
    }
    validate_children_content(c)
}

/// The outcome of checking the content of an ELEMENT declaration.
pub open spec fn element_content_check(s: Seq<u8>) -> Result<(), &'static str> {
    let c = trim_ws(s);
    if c.len() == 0 {
        Err("Missing content specification in ELEMENT declaration")
    } else if has_prefix(c, lit_empty()) {
        Ok(())
    } else if c.len() >= 5 && eq_ignore_case(c.take(5), lit_empty()) {
        Err("'EMPTY' must be uppercase")
    } else if has_prefix(c, lit_any()) {
        Ok(())
    } else if c.len() >= 3 && eq_ignore_case(c.take(3), lit_any()) {
        Err("'ANY' must be uppercase")
    } else if c[0] == 0x28 {
        content_model_check(c.skip(1))
    } else {
        Err("Invalid content specification in ELEMENT declaration")
    }
}

/// Validate ELEMENT declaration content (contentspec keywords)
pub fn validate_element_content(content: &[u8]) -> (r: Result<(), &'static str>)
    ensures
        r == element_content_check(content@),
{
    let empty: &[u8] = &[0x45u8, 0x4Du8, 0x50u8, 0x54u8, 0x59u8];
    let any: &[u8] = &[0x41u8, 0x4Eu8, 0x59u8];
    assert(empty@ =~= lit_empty());
    assert(any@ =~= lit_any());
    let c = skip_ws(content);
    if c.len() == 0 {
        return Err("Missing content specification in ELEMENT declaration");
    }
    if starts_with(c, empty) {
        return Ok(());
    }
    if c.len() >= 5 && eq_ignore_ascii_case(&c[0..5], empty) {
        return Err("'EMPTY' must be uppercase");
    }
    if starts_with(c, any) {
        return Ok(());
    }
    if c.len() >= 3 && eq_ignore_ascii_case(&c[0..3], any) {
        return Err("'ANY' must be uppercase");
    }
    if c[0] == 0x28 {
        assert(c@.skip(1) =~= c@.subrange(1, c@.len() as int));
        return validate_content_model(&c[1..c.len()]);
    }
    Err("Invalid content specification in ELEMENT declaration")
}

/// Whether `b` continues a word (ASCII letter, digit or `_`).
pub open spec fn is_word_byte(b: u8) -> bool {
    (0x41 <= b <= 0x5A) || (0x61 <= b <= 0x7A) || (0x30 <= b <= 0x39) || b == 0x5F
}

/// Whether the keyword `kw` stands at `pos` in `s` in another case than its own, as a
/// whole word.
pub open spec fn case_slip_at(s: Seq<u8>, pos: int, kw: Seq<u8>) -> bool {
    &&& pos + kw.len() <= s.len()
    &&& eq_ignore_case(s.subrange(pos, pos + kw.len()), kw)
    &&& s.subrange(pos, pos + kw.len()) != kw
    &&& (pos + kw.len() >= s.len() || !is_word_byte(s[pos + kw.len()]))
}

/// Whether the keyword `kw` stands at `pos` in `content` in another case than its own.
fn case_slip(content: &[u8], pos: usize, kw: &[u8]) -> (r: bool)
    requires
        pos <= content@.len(),
    ensures
        r == case_slip_at(content@, pos as int, kw@),
{
    if kw.len() > content.len() - pos {
        return false;
    }
    let slice = &content[pos..pos + kw.len()];
    if eq_ignore_ascii_case(slice, kw) && !bytes_eq(slice, kw) {
        let at_end = pos + kw.len() >= content.len();
        if at_end {
            return true;
        }
        let b = content[pos + kw.len()];
        !((0x41 <= b && b <= 0x5A) || (0x61 <= b && b <= 0x7A) || (0x30 <= b && b <= 0x39)
            || b == 0x5F)
    } else {
        false
    }
}

pub open spec fn att_kw_cdata() -> Seq<u8> {
    seq![0x43u8, 0x44u8, 0x41u8, 0x54u8, 0x41u8]
}

pub open spec fn att_kw_idrefs() -> Seq<u8> {
    seq![0x49u8, 0x44u8, 0x52u8, 0x45u8, 0x46u8, 0x53u8]
}

pub open spec fn att_kw_idref() -> Seq<u8> {
    seq![0x49u8, 0x44u8, 0x52u8, 0x45u8, 0x46u8]
}

pub open spec fn att_kw_id() -> Seq<u8> {
    seq![0x49u8, 0x44u8]
}

pub open spec fn att_kw_entities() -> Seq<u8> {
    seq![0x45u8, 0x4Eu8, 0x54u8, 0x49u8, 0x54u8, 0x49u8, 0x45u8, 0x53u8]
}

pub open spec fn att_kw_entity() -> Seq<u8> {
    seq![0x45u8, 0x4Eu8, 0x54u8, 0x49u8, 0x54u8, 0x59u8]
}

pub open spec fn att_kw_nmtokens() -> Seq<u8> {
    seq![0x4Eu8, 0x4Du8, 0x54u8, 0x4Fu8, 0x4Bu8, 0x45u8, 0x4Eu8, 0x53u8]
}

pub open spec fn att_kw_nmtoken() -> Seq<u8> {
    seq![0x4Eu8, 0x4Du8, 0x54u8, 0x4Fu8, 0x4Bu8, 0x45u8, 0x4Eu8]
}

pub open spec fn att_kw_notation() -> Seq<u8> {
    seq![0x4Eu8, 0x4Fu8, 0x54u8, 0x41u8, 0x54u8, 0x49u8, 0x4Fu8, 0x4Eu8]
}

pub open spec fn att_kw_required() -> Seq<u8> {
    seq![0x23u8, 0x52u8, 0x45u8, 0x51u8, 0x55u8, 0x49u8, 0x52u8, 0x45u8, 0x44u8]
}

pub open spec fn att_kw_implied() -> Seq<u8> {
    seq![0x23u8, 0x49u8, 0x4Du8, 0x50u8, 0x4Cu8, 0x49u8, 0x45u8, 0x44u8]
}

pub open spec fn att_kw_fixed() -> Seq<u8> {
    seq![0x23u8, 0x46u8, 0x49u8, 0x58u8, 0x45u8, 0x44u8]
}

/// The error for the first attribute list keyword, in a fixed order, that stands at
/// `pos` in another case than its own.
pub open spec fn attlist_kw_error(s: Seq<u8>, pos: int) -> Option<&'static str> {
    if case_slip_at(s, pos, att_kw_cdata()) {
        Some("'CDATA' must be uppercase")
    } else if case_slip_at(s, pos, att_kw_idrefs()) {
        Some("'IDREFS' must be uppercase")
    } else if case_slip_at(s, pos, att_kw_idref()) {
        Some("'IDREF' must be uppercase")
    } else if case_slip_at(s, pos, att_kw_id()) {
        Some("'ID' must be uppercase")
    } else if case_slip_at(s, pos, att_kw_entities()) {
        Some("'ENTITIES' must be uppercase")
    } else if case_slip_at(s, pos, att_kw_entity()) {
        Some("'ENTITY' must be uppercase")
    } else if case_slip_at(s, pos, att_kw_nmtokens()) {
        Some("'NMTOKENS' must be uppercase")
    } else if case_slip_at(s, pos, att_kw_nmtoken()) {
        Some("'NMTOKEN' must be uppercase")
    } else if case_slip_at(s, pos, att_kw_notation()) {
        Some("'NOTATION' must be uppercase")
    } else if case_slip_at(s, pos, att_kw_required()) {
        Some("'#REQUIRED' must be uppercase")
    } else if case_slip_at(s, pos, att_kw_implied()) {
        Some("'#IMPLIED' must be uppercase")
    } else if case_slip_at(s, pos, att_kw_fixed()) {
        Some("'#FIXED' must be uppercase")
    } else {
        None
    }
}

/// The outcome of checking attribute list declaration content from `pos` on:
/// quoted strings are skipped, and every keyword must be upper case.
pub open spec fn attlist_check(s: Seq<u8>, pos: int) -> Result<(), &'static str>
    decreases s.len() + 1 - pos,
{
    if pos < 0 || pos >= s.len() {
        Ok(())
    } else if s[pos] == 0x22 || s[pos] == 0x27 {
        let skip = first_or_len(s.skip(pos + 1), s[pos]);
        proof {
            crate::xml_core::primitives::lemma_index_of(s.skip(pos + 1), s[pos]);
        }
        attlist_check(s, pos + 1 + skip + 1)
    } else {
        match attlist_kw_error(s, pos) {
            Some(m) => Err(m),
            None => attlist_check(s, pos + 1),
        }
    }
}

/// Validate ATTLIST declaration content
#[verifier::loop_isolation(false)]
pub fn validate_attlist_content(content: &[u8]) -> (r: Result<(), &'static str>)
    ensures
        r == attlist_check(content@, 0),
{
    let len = content.len();
    let mut pos: usize = 0;
    while pos < len
        invariant
            len == content@.len(),
            pos <= len,
            attlist_check(content@, 0) == attlist_check(content@, pos as int),
        decreases len - pos,
    {
        if content[pos] == 0x22 || content[pos] == 0x27 {
            let quote = content[pos];
            let ghost start = pos;
            pos += 1;
            while pos < len && content[pos] != quote
                invariant
                    len == content@.len(),
                    start + 1 <= pos <= len,
                    forall|j: int| start + 1 <= j < pos ==> content@[j] != quote,
                decreases len - pos,
            {
                pos += 1;
            }
            proof {
                let t = content@.skip(start + 1);
                crate::xml_core::primitives::lemma_index_of(t, quote);
                if pos < len {
                    assert(t[pos - start - 1] == quote);
                    assert forall|j: int| 0 <= j < pos - start - 1 implies t[j] != quote by {
                        assert(t[j] == content@[start + 1 + j]);
                    }
                    crate::xml_core::attributes::lemma_first_index(t, quote, pos - start - 1);
                } else if crate::xml_core::primitives::index_of(t, quote) >= 0 {
                    let k = crate::xml_core::primitives::index_of(t, quote);
                    assert(t[k] == content@[start + 1 + k]);
                }
            }
            proof {
                let t = content@.skip(start + 1);
                assert(first_or_len(t, quote) == pos - start - 1);
                assert(attlist_check(content@, start as int) == attlist_check(content@, pos + 1));
                if pos >= len {
                    assert(attlist_check(content@, pos + 1) == attlist_check(content@, pos as int));
                }
            }
            if pos < len {
                pos += 1;
            }
        } else {
        let kw: &[u8] = &[0x43u8, 0x44u8, 0x41u8, 0x54u8, 0x41u8];
        assert(kw@ =~= att_kw_cdata());
        if case_slip(content, pos, kw) {
            return Err("'CDATA' must be uppercase");
        }
        let kw: &[u8] = &[0x49u8, 0x44u8, 0x52u8, 0x45u8, 0x46u8, 0x53u8];
        assert(kw@ =~= att_kw_idrefs());
        if case_slip(content, pos, kw) {
            return Err("'IDREFS' must be uppercase");
        }
        let kw: &[u8] = &[0x49u8, 0x44u8, 0x52u8, 0x45u8, 0x46u8];
        assert(kw@ =~= att_kw_idref());
        if case_slip(content, pos, kw) {
            return Err("'IDREF' must be uppercase");
        }
        let kw: &[u8] = &[0x49u8, 0x44u8];
        assert(kw@ =~= att_kw_id());
        if case_slip(content, pos, kw) {
            return Err("'ID' must be uppercase");
        }
        let kw: &[u8] = &[0x45u8, 0x4Eu8, 0x54u8, 0x49u8, 0x54u8, 0x49u8, 0x45u8, 0x53u8];
        assert(kw@ =~= att_kw_entities());
        if case_slip(content, pos, kw) {
            return Err("'ENTITIES' must be uppercase");
        }
        let kw: &[u8] = &[0x45u8, 0x4Eu8, 0x54u8, 0x49u8, 0x54u8, 0x59u8];
        assert(kw@ =~= att_kw_entity());
        if case_slip(content, pos, kw) {
            return Err("'ENTITY' must be uppercase");
        }
        let kw: &[u8] = &[0x4Eu8, 0x4Du8, 0x54u8, 0x4Fu8, 0x4Bu8, 0x45u8, 0x4Eu8, 0x53u8];
        assert(kw@ =~= att_kw_nmtokens());
        if case_slip(content, pos, kw) {
            return Err("'NMTOKENS' must be uppercase");
        }
        let kw: &[u8] = &[0x4Eu8, 0x4Du8, 0x54u8, 0x4Fu8, 0x4Bu8, 0x45u8, 0x4Eu8];
        assert(kw@ =~= att_kw_nmtoken());
        if case_slip(content, pos, kw) {
            return Err("'NMTOKEN' must be uppercase");
        }
        let kw: &[u8] = &[0x4Eu8, 0x4Fu8, 0x54u8, 0x41u8, 0x54u8, 0x49u8, 0x4Fu8, 0x4Eu8];
        assert(kw@ =~= att_kw_notation());
        if case_slip(content, pos, kw) {
            return Err("'NOTATION' must be uppercase");
        }
        let kw: &[u8] = &[0x23u8, 0x52u8, 0x45u8, 0x51u8, 0x55u8, 0x49u8, 0x52u8, 0x45u8, 0x44u8];
        assert(kw@ =~= att_kw_required());
        if case_slip(content, pos, kw) {
            return Err("'#REQUIRED' must be uppercase");
        }
        let kw: &[u8] = &[0x23u8, 0x49u8, 0x4Du8, 0x50u8, 0x4Cu8, 0x49u8, 0x45u8, 0x44u8];
        assert(kw@ =~= att_kw_implied());
        if case_slip(content, pos, kw) {
            return Err("'#IMPLIED' must be uppercase");
        }
        let kw: &[u8] = &[0x23u8, 0x46u8, 0x49u8, 0x58u8, 0x45u8, 0x44u8];
        assert(kw@ =~= att_kw_fixed());
        if case_slip(content, pos, kw) {
            return Err("'#FIXED' must be uppercase");
        }
            pos += 1;
        }
    }
    Ok(())
}

pub open spec fn ent_kw_system() -> Seq<u8> {
    seq![0x53u8, 0x59u8, 0x53u8, 0x54u8, 0x45u8, 0x4Du8]
}

pub open spec fn ent_kw_public() -> Seq<u8> {
    seq![0x50u8, 0x55u8, 0x42u8, 0x4Cu8, 0x49u8, 0x43u8]
}

pub open spec fn ent_kw_ndata() -> Seq<u8> {
    seq![0x4Eu8, 0x44u8, 0x41u8, 0x54u8, 0x41u8]
}

/// Whether the first case-insensitive occurrence of `kw` in `c` is in another case.
pub open spec fn first_word_slips(c: Seq<u8>, kw: Seq<u8>) -> bool {
    let k = word_at(c, kw, 0);
    k >= 0 && eq_ignore_case(c.subrange(k, k + kw.len()), kw) && c.subrange(k, k + kw.len()) != kw
}

/// Where a reference in an entity value stops: at `;`, at the closing quote `q`, or
/// at the end.
pub open spec fn ref_stop(s: Seq<u8>, p: int, q: u8) -> int
    decreases s.len() - p,
{
    if p < 0 || p >= s.len() || s[p] == 0x3B || s[p] == q {
        p
    } else {
        ref_stop(s, p + 1, q)
    }
}

pub proof fn lemma_ref_stop(s: Seq<u8>, p: int, q: u8)
    requires
        0 <= p,
    ensures
        p <= ref_stop(s, p, q),
        ref_stop(s, p, q) <= s.len() || ref_stop(s, p, q) == p,
    decreases s.len() - p,
{
    if p < s.len() && s[p] != 0x3B && s[p] != q {
        lemma_ref_stop(s, p + 1, q);
    }
}

/// The outcome of checking entity declaration content from `pos`, outside quotes.
pub open spec fn ent_outside(s: Seq<u8>, pos: int) -> Result<(), &'static str>
    decreases s.len() - pos, 1int,
{
    if pos < 0 || pos >= s.len() {
        Ok(())
    } else if s[pos] == 0x22 || s[pos] == 0x27 {
        ent_inside(s, pos + 1, s[pos])
    } else {
        ent_outside(s, pos + 1)
    }
}

/// The outcome of checking entity declaration content from `pos`, inside a string
/// quoted with `q`: every `&` must start a complete reference.
pub open spec fn ent_inside(s: Seq<u8>, pos: int, q: u8) -> Result<(), &'static str>
    decreases s.len() - pos, 0int,
{
    if pos < 0 || pos >= s.len() {
        Err("Unclosed quoted string in entity declaration")
    } else if s[pos] == q {
        ent_outside(s, pos + 1)
    } else if s[pos] == 0x26 {
        let p = pos + 1;
        if p >= s.len() {
            Err("Unescaped '&' in entity value")
        } else if s[p] == 0x23 || spec_name_start(s[p]) {
            let e = ref_stop(s, p, q);
            proof {
                lemma_ref_stop(s, p, q);
            }
            if e >= s.len() || s[e] != 0x3B {
                if s[p] == 0x23 {
                    Err("Invalid character reference in entity value")
                } else {
                    Err("Invalid entity reference in entity value")
                }
            } else {
                ent_inside(s, e + 1, q)
            }
        } else {
            Err("Unescaped '&' in entity value")
        }
    } else {
        ent_inside(s, pos + 1, q)
    }
}

/// The outcome of checking the content of an ENTITY declaration: the SYSTEM,
/// PUBLIC and NDATA keywords in upper case, and complete references in its strings.
pub open spec fn entity_content_check(s: Seq<u8>) -> Result<(), &'static str> {
    let c = trim_ws(s);
    if first_word_slips(c, ent_kw_system()) {
        Err("'SYSTEM' must be uppercase")
    } else if first_word_slips(c, ent_kw_public()) {
        Err("'PUBLIC' must be uppercase")
    } else if first_word_slips(c, ent_kw_ndata()) {
        Err("'NDATA' must be uppercase")
    } else {
        ent_outside(c, 0)
    }
}

/// Whether the first case-insensitive occurrence of `kw` in `c` is in another case.
fn first_word_slips_exec(c: &[u8], kw: &[u8]) -> (r: bool)
    ensures
        r == first_word_slips(c@, kw@),
{
    match find_word(c, kw) {
        Some(idx) => {
            let n = c.len();
            proof {
                lemma_word_at_fits(c@, kw@, 0);
            }
            let slice = &c[idx..idx + kw.len()];
            eq_ignore_ascii_case(slice, kw) && !bytes_eq(slice, kw)
        },
        None => false,
    }
}

pub proof fn lemma_word_at_fits(s: Seq<u8>, w: Seq<u8>, from: int)
    ensures
        word_at(s, w, from) >= 0 ==> from <= word_at(s, w, from) && word_at(s, w, from) + w.len()
            <= s.len(),
    decreases s.len() - from,
{
    if from >= 0 && from + w.len() <= s.len() && !eq_ignore_case(s.subrange(from, from + w.len()), w) {
        lemma_word_at_fits(s, w, from + 1);
    }
}

/// Validate ENTITY declaration content
#[verifier::loop_isolation(false)]
pub fn validate_entity_content(content: &[u8]) -> (r: Result<(), &'static str>)
    ensures
        r == entity_content_check(content@),
{
    let content = skip_ws(content);
    let system: &[u8] = &[0x53u8, 0x59u8, 0x53u8, 0x54u8, 0x45u8, 0x4Du8];
    let public: &[u8] = &[0x50u8, 0x55u8, 0x42u8, 0x4Cu8, 0x49u8, 0x43u8];
    let ndata: &[u8] = &[0x4Eu8, 0x44u8, 0x41u8, 0x54u8, 0x41u8];
    assert(system@ =~= ent_kw_system());
    assert(public@ =~= ent_kw_public());
    assert(ndata@ =~= ent_kw_ndata());
    if first_word_slips_exec(content, system) {
        return Err("'SYSTEM' must be uppercase");
    }
    if first_word_slips_exec(content, public) {
        return Err("'PUBLIC' must be uppercase");
    }
    if first_word_slips_exec(content, ndata) {
        return Err("'NDATA' must be uppercase");
    }
    let len = content.len();
    let mut pos: usize = 0;
    while pos < len
        invariant
            len == content@.len(),
            pos <= len,
            ent_outside(content@, 0) == ent_outside(content@, pos as int),
        decreases len - pos,
    {
        let ghost outer = pos;
        if content[pos] == 0x22 || content[pos] == 0x27 {
            let quote = content[pos];
            pos += 1;
            while pos < len && content[pos] != quote
                invariant
                    len == content@.len(),
                    outer < pos <= len,
                    ent_outside(content@, 0) == ent_inside(content@, pos as int, quote),
                decreases len - pos,
            {
                if content[pos] == 0x26 {
                    pos += 1;
                    if pos >= len {
                        return Err("Unescaped '&' in entity value");
                    }
                    if content[pos] == 0x23 || is_name_start_char(content[pos]) {
                        let is_char_ref = content[pos] == 0x23;
                        let ghost p = pos;
                        proof {
                            lemma_ref_stop(content@, p as int, quote);
                        }
                        while pos < len && content[pos] != 0x3B && content[pos] != quote
                            invariant
                                len == content@.len(),
                                outer < p <= pos <= len,
                                ref_stop(content@, p as int, quote) == ref_stop(content@, pos as int, quote),
                            decreases len - pos,
                        {
                            pos += 1;
                        }
                        if pos >= len || content[pos] != 0x3B {
                            if is_char_ref {
                                return Err("Invalid character reference in entity value");
                            }
                            return Err("Invalid entity reference in entity value");
                        }
                    } else {
                        return Err("Unescaped '&' in entity value");
                    }
                }
                pos += 1;
            }
            if pos >= len {
                return Err("Unclosed quoted string in entity declaration");
            }
            pos += 1;
        } else {
            pos += 1;
        }
    }
    Ok(())
}

} // verus!
