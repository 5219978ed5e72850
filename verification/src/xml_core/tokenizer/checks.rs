//! Strict Mode Validation Functions
//!
//! Each check reads its input from the front and reports the first problem it
//! meets; the spec function beside each states that outcome.

use vstd::prelude::*;

use crate::xml_core::entities::{
    content_check, cp2, cp3, cp4, is_cont, is_valid_xml_char, spec_is_valid_xml_char,
    validate_xml_content,
};
use crate::xml_core::primitives::{
    eq_ignore_ascii_case, eq_ignore_case, has_prefix, index_of, is_ws, is_ws_byte,
    lemma_index_of, lemma_ws_prefix_len, starts_with, ws_prefix_len,
};
use crate::xml_core::scanner::{
    is_name_char as scan_name_char, is_name_start_char as scan_name_start, lemma_name_char_run,
    name_char_run, spec_name_char, spec_name_start,
};
use crate::xml_core::unicode::{name_check, validate_name_fast};

verus! {

/// Check if a character is a valid XML NameStartChar
/// Per XML 1.0: Letter | '_' | ':'
/// Non-ASCII bytes (>= 0x80) are allowed as they may be UTF-8 encoded Unicode letters
pub fn is_name_start_char(c: u8) -> (r: bool)
    ensures
        r == spec_name_start(c),
{
    scan_name_start(c)
}

/// Check if a character is a valid XML NameChar
/// Per XML 1.0: Letter | Digit | '.' | '-' | '_' | ':' | CombiningChar | Extender
/// Non-ASCII bytes (>= 0x80) are allowed as they may be UTF-8 encoded Unicode
pub fn is_name_char(c: u8) -> (r: bool)
    ensures
        r == spec_name_char(c),
{
    scan_name_char(c)
}

/// Validate an XML Name using full Unicode character class validation
pub fn validate_name(name: &[u8]) -> (r: Result<(), &'static str>)
    ensures
        r == name_check(name@, true),
{
    validate_name_fast(name)
}

/// Whether `--` starts at `i` in `s`.
pub open spec fn dashes_at(s: Seq<u8>, i: int) -> bool {
    0 <= i && i + 1 < s.len() && s[i] == 0x2D && s[i + 1] == 0x2D
}

/// Whether `s` holds `--` somewhere.
pub open spec fn has_double_dash(s: Seq<u8>) -> bool {
    exists|i: int| #[trigger] dashes_at(s, i)
}

/// The outcome of checking comment content.
pub open spec fn comment_check(s: Seq<u8>) -> Result<(), &'static str> {
    if has_double_dash(s) {
        Err("Comment cannot contain '--'")
    } else if s.len() > 0 && s.last() == 0x2D {
        Err("Comment cannot end with '-'")
    } else {
        Ok(())
    }
}

/// Validate comment content (no '--' allowed, and no '-' at the end)
pub fn validate_comment(content: &[u8]) -> (r: Result<(), &'static str>)
    ensures
        r == comment_check(content@),
{
    let n = content.len();
    let mut i: usize = 0;
    while n >= 2 && i <= n - 2
        invariant
            n == content@.len(),
            forall|j: int| j < i ==> !#[trigger] dashes_at(content@, j),
        decreases n - i,
    {
        if content[i] == 0x2D && content[i + 1] == 0x2D {
            assert(dashes_at(content@, i as int));
            return Err("Comment cannot contain '--'");
        }
        i += 1;
    }
    if n > 0 && content[n - 1] == 0x2D {
        return Err("Comment cannot end with '-'");
    }
    Ok(())
}

/// Validate a character reference value
pub fn validate_char_ref(value: u32) -> (r: Result<(), &'static str>)
    ensures
        r == if spec_is_valid_xml_char(value) {
            Ok::<(), &'static str>(())
        } else {
            Err("Invalid character reference")
        },
{
    if is_valid_xml_char(value) {
        Ok(())
    } else {
        Err("Invalid character reference")
    }
}

/// Whether `]]>` starts at `i` in `s`.
pub open spec fn cdata_end_at(s: Seq<u8>, i: int) -> bool {
    0 <= i && i + 2 < s.len() && s[i] == 0x5D && s[i + 1] == 0x5D && s[i + 2] == 0x3E
}

/// Whether `s` holds `]]>` somewhere.
pub open spec fn has_cdata_end(s: Seq<u8>) -> bool {
    exists|i: int| #[trigger] cdata_end_at(s, i)
}

/// Validate text content (no ']]>' allowed outside CDATA)
pub fn validate_text_content(content: &[u8]) -> (r: Result<(), &'static str>)
    ensures
        r == if has_cdata_end(content@) {
            Err("Text content cannot contain ']]>'")
        } else {
            Ok::<(), &'static str>(())
        },
{
    let n = content.len();
    let mut i: usize = 0;
    while n >= 3 && i <= n - 3
        invariant
            n == content@.len(),
            forall|j: int| j < i ==> !#[trigger] cdata_end_at(content@, j),
        decreases n - i,
    {
        if content[i] == 0x5D && content[i + 1] == 0x5D && content[i + 2] == 0x3E {
            assert(cdata_end_at(content@, i as int));
            return Err("Text content cannot contain ']]>'");
        }
        i += 1;
    }
    Ok(())
}

/// Validate that content contains only valid XML characters
/// Uses proper UTF-8 decoding to validate codepoints (including U+FFFE/U+FFFF)
pub fn validate_xml_chars(content: &[u8]) -> (r: Result<(), &'static str>)
    ensures
        r == content_check(content@),
{
    validate_xml_content(content)
}

/// The bytes of `s` after its leading whitespace.
pub open spec fn trim_ws(s: Seq<u8>) -> Seq<u8> {
    s.skip(ws_prefix_len(s))
}

/// Skip leading whitespace
pub fn skip_ws(content: &[u8]) -> (r: &[u8])
    ensures
        r@ == trim_ws(content@),
{
    let p = crate::xml_core::primitives::skip_ws_from(content, 0);
    assert(content@.subrange(0, content@.len() as int) =~= content@);
    &content[p..content.len()]
}

/// The first position at or after `from` where the case-insensitive `word` starts, or -1.
pub open spec fn word_at(s: Seq<u8>, word: Seq<u8>, from: int) -> int
    decreases s.len() - from,
{
    if from < 0 || from + word.len() > s.len() {
        -1
    } else if eq_ignore_case(s.subrange(from, from + word.len()), word) {
        from
    } else {
        word_at(s, word, from + 1)
    }
}

/// Find a word in content (case-insensitive search)
pub fn find_word(content: &[u8], word: &[u8]) -> (r: Option<usize>)
    ensures
        match r {
            Some(p) => p == word_at(content@, word@, 0),
            None => word_at(content@, word@, 0) == -1,
        },
{
    let mut pos: usize = 0;
    while word.len() <= content.len() && pos <= content.len() - word.len()
        invariant
            word_at(content@, word@, 0) == word_at(content@, word@, pos as int),
        decreases content.len() - pos,
    {
        if eq_ignore_ascii_case(&content[pos..pos + word.len()], word) {
            return Some(pos);
        }
        pos += 1;
    }
    None
}

/// Whether `b` is an ASCII letter.
pub open spec fn is_letter(b: u8) -> bool {
    (0x41 <= b <= 0x5A) || (0x61 <= b <= 0x7A)
}

/// Whether `b` may continue an encoding name.
pub open spec fn is_enc_char(b: u8) -> bool {
    is_letter(b) || (0x30 <= b <= 0x39) || b == 0x2E || b == 0x5F || b == 0x2D
}

/// The first byte of `s` from `i` on that cannot continue an encoding name, or -1.
pub open spec fn first_bad_enc(s: Seq<u8>, i: int) -> int
    decreases s.len() - i,
{
    if i < 0 || i >= s.len() {
        -1
    } else if !is_enc_char(s[i]) {
        i
    } else {
        first_bad_enc(s, i + 1)
    }
}

/// The outcome of checking an encoding name: `[A-Za-z] ([A-Za-z0-9._] | '-')*`.
pub open spec fn enc_check(s: Seq<u8>) -> Result<(), &'static str> {
    if s.len() == 0 {
        Err("Encoding name cannot be empty")
    } else if !is_letter(s[0]) {
        Err("Encoding name must start with a letter")
    } else {
        let k = first_bad_enc(s, 1);
        if k < 0 {
            Ok(())
        } else if is_ws(s[k]) {
            Err("Encoding name cannot contain whitespace")
        } else {
            Err("Invalid character in encoding name")
        }
    }
}

/// Validate encoding name per XML spec: [A-Za-z] ([A-Za-z0-9._] | '-')*
pub fn validate_enc_name(name: &[u8]) -> (r: Result<(), &'static str>)
    ensures
        r == enc_check(name@),
{
    if name.len() == 0 {
        return Err("Encoding name cannot be empty");
    }
    let first = name[0];
    if !((0x41 <= first && first <= 0x5A) || (0x61 <= first && first <= 0x7A)) {
        return Err("Encoding name must start with a letter");
    }
    let mut i: usize = 1;
    while i < name.len()
        invariant
            1 <= i <= name@.len(),
            is_letter(name@[0]),
            first_bad_enc(name@, 1) == first_bad_enc(name@, i as int),
        decreases name.len() - i,
    {
        let b = name[i];
        if !((0x41 <= b && b <= 0x5A) || (0x61 <= b && b <= 0x7A) || (0x30 <= b && b <= 0x39)
            || b == 0x2E || b == 0x5F || b == 0x2D) {
            if is_ws_byte(b) {
                return Err("Encoding name cannot contain whitespace");
            }
            return Err("Invalid character in encoding name");
        }
        i += 1;
    }
    Ok(())
}

/// `ELEMENT`, `ATTLIST`, `ENTITY` and `NOTATION`.
pub open spec fn kw_element() -> Seq<u8> {
    seq![0x45u8, 0x4Cu8, 0x45u8, 0x4Du8, 0x45u8, 0x4Eu8, 0x54u8]
}

pub open spec fn kw_attlist() -> Seq<u8> {
    seq![0x41u8, 0x54u8, 0x54u8, 0x4Cu8, 0x49u8, 0x53u8, 0x54u8]
}

pub open spec fn kw_entity() -> Seq<u8> {
    seq![0x45u8, 0x4Eu8, 0x54u8, 0x49u8, 0x54u8, 0x59u8]
}

pub open spec fn kw_notation() -> Seq<u8> {
    seq![0x4Eu8, 0x4Fu8, 0x54u8, 0x41u8, 0x54u8, 0x49u8, 0x4Fu8, 0x4Eu8]
}

/// The outcome of checking a DTD declaration keyword.
pub open spec fn dtd_keyword_check(k: Seq<u8>) -> Result<(), &'static str> {
    if k == kw_element() || k == kw_attlist() || k == kw_entity() || k == kw_notation() {
        Ok(())
    } else if eq_ignore_case(k, kw_element()) {
        Err("'ELEMENT' must be uppercase")
    } else if eq_ignore_case(k, kw_attlist()) {
        Err("'ATTLIST' must be uppercase")
    } else if eq_ignore_case(k, kw_entity()) {
        Err("'ENTITY' must be uppercase")
    } else if eq_ignore_case(k, kw_notation()) {
        Err("'NOTATION' must be uppercase")
    } else {
        Ok(())
    }
}

/// Validate DTD declaration keyword (ELEMENT, ATTLIST, ENTITY, NOTATION); unknown
/// keywords are allowed
pub fn validate_dtd_keyword(keyword: &[u8]) -> (r: Result<(), &'static str>)
    ensures
        r == dtd_keyword_check(keyword@),
{
    let element: &[u8] = &[0x45u8, 0x4Cu8, 0x45u8, 0x4Du8, 0x45u8, 0x4Eu8, 0x54u8];
    let attlist: &[u8] = &[0x41u8, 0x54u8, 0x54u8, 0x4Cu8, 0x49u8, 0x53u8, 0x54u8];
    let entity: &[u8] = &[0x45u8, 0x4Eu8, 0x54u8, 0x49u8, 0x54u8, 0x59u8];
    let notation: &[u8] = &[0x4Eu8, 0x4Fu8, 0x54u8, 0x41u8, 0x54u8, 0x49u8, 0x4Fu8, 0x4Eu8];
    assert(element@ =~= kw_element());
    assert(attlist@ =~= kw_attlist());
    assert(entity@ =~= kw_entity());
    assert(notation@ =~= kw_notation());
    if crate::xml_core::primitives::bytes_eq(keyword, element)
        || crate::xml_core::primitives::bytes_eq(keyword, attlist)
        || crate::xml_core::primitives::bytes_eq(keyword, entity)
        || crate::xml_core::primitives::bytes_eq(keyword, notation) {
        return Ok(());
    }
    if eq_ignore_ascii_case(keyword, element) {
        return Err("'ELEMENT' must be uppercase");
    }
    if eq_ignore_ascii_case(keyword, attlist) {
        return Err("'ATTLIST' must be uppercase");
    }
    if eq_ignore_ascii_case(keyword, entity) {
        return Err("'ENTITY' must be uppercase");
    }
    if eq_ignore_ascii_case(keyword, notation) {
        return Err("'NOTATION' must be uppercase");
    }
    Ok(())
}

/// Whether `b` is a hexadecimal digit.
pub open spec fn is_hex(b: u8) -> bool {
    (0x30 <= b <= 0x39) || (0x61 <= b <= 0x66) || (0x41 <= b <= 0x46)
}

/// Where a run of hexadecimal digits from `q` stops: at a `;`, another byte, or the end.
pub open spec fn hex_run_end(s: Seq<u8>, q: int) -> int
    decreases s.len() - q,
{
    if q < 0 || q >= s.len() || s[q] == 0x3B || !is_hex(s[q]) {
        q
    } else {
        hex_run_end(s, q + 1)
    }
}

/// The outcome of checking the references in an attribute value from `pos` on.
pub open spec fn attr_value_check(s: Seq<u8>, pos: int) -> Result<(), &'static str>
    decreases s.len() - pos,
{
    if pos < 0 || pos >= s.len() {
        Ok(())
    } else if s[pos] != 0x26 {
        attr_value_check(s, pos + 1)
    } else {
        let p = pos + 1;
        if p >= s.len() {
            Err("'&' at end of attribute value must be escaped as '&amp;'")
        } else if s[p] == 0x23 {
            let p2 = p + 1;
            if p2 >= s.len() {
                Err("Invalid character reference in attribute value")
            } else {
                let p3 = if s[p2] == 0x78 || s[p2] == 0x58 {
                    p2 + 1
                } else {
                    p2
                };
                let q = hex_run_end(s, p3);
                proof {
                    lemma_hex_run_end(s, p3);
                }
                if q < s.len() && s[q] != 0x3B {
                    Err("Invalid character reference in attribute value")
                } else if q >= s.len() || q == p3 {
                    Err("Invalid character reference in attribute value")
                } else {
                    attr_value_check(s, q + 1)
                }
            }
        } else {
            let q = p + name_char_run(s.skip(p));
            proof {
                lemma_name_char_run(s.skip(p));
            }
            if q == p {
                Err("'&' must be followed by entity name or '#' in attribute value")
            } else if q >= s.len() || s[q] != 0x3B {
                Err("Entity reference in attribute value must end with ';'")
            } else {
                attr_value_check(s, q + 1)
            }
        }
    }
}

pub proof fn lemma_hex_run_end(s: Seq<u8>, q: int)
    requires
        0 <= q,
    ensures
        q <= hex_run_end(s, q),
        hex_run_end(s, q) <= s.len() || hex_run_end(s, q) == q,
    decreases s.len() - q,
{
    if q < s.len() && s[q] != 0x3B && is_hex(s[q]) {
        lemma_hex_run_end(s, q + 1);
    }
}

/// The end of the run of name bytes of `s` from `p`.
fn name_run_end(s: &[u8], p: usize) -> (r: usize)
    requires
        p <= s@.len(),
    ensures
        r == p + name_char_run(s@.skip(p as int)),
        p <= r <= s@.len(),
{
    let mut pos = p;
    while pos < s.len() && is_name_char(s[pos])
        invariant
            p <= pos <= s@.len(),
            name_char_run(s@.skip(p as int)) == (pos - p) + name_char_run(s@.skip(pos as int)),
        decreases s.len() - pos,
    {
        assert(s@.skip(pos as int).drop_first() =~= s@.skip(pos + 1));
        pos += 1;
    }
    proof {
        lemma_name_char_run(s@.skip(pos as int));
        if pos < s@.len() {
            assert(s@.skip(pos as int)[0] == s@[pos as int]);
        }
    }
    pos
}

/// Validate attribute value content
/// Checks that & is followed by valid entity reference
#[verifier::loop_isolation(false)]
pub fn validate_attr_value(value: &[u8]) -> (r: Result<(), &'static str>)
    ensures
        r == attr_value_check(value@, 0),
{
    let len = value.len();
    let mut pos: usize = 0;
    while pos < len
        invariant
            len == value@.len(),
            pos <= len + 1,
            attr_value_check(value@, 0) == attr_value_check(value@, pos as int),
        decreases len + 1 - pos,
    {
        if value[pos] == 0x26 {
            pos += 1;
            if pos >= len {
                return Err("'&' at end of attribute value must be escaped as '&amp;'");
            }
            if value[pos] == 0x23 {
                pos += 1;
                if pos >= len {
                    return Err("Invalid character reference in attribute value");
                }
                if value[pos] == 0x78 || value[pos] == 0x58 {
                    pos += 1;
                }
                let ref_start = pos;
                while pos < len && value[pos] != 0x3B
                    invariant
                        len == value@.len(),
                        ref_start <= pos <= len,
                        hex_run_end(value@, ref_start as int) == hex_run_end(value@, pos as int),
                    decreases len - pos,
                {
                    let c = value[pos];
                    if !((0x30 <= c && c <= 0x39) || (0x61 <= c && c <= 0x66) || (0x41 <= c && c <= 0x46)) {
                        return Err("Invalid character reference in attribute value");
                    }
                    pos += 1;
                }
                if pos >= len || pos == ref_start {
                    return Err("Invalid character reference in attribute value");
                }
            } else {
                let name_start = pos;
                pos = name_run_end(value, pos);
                if pos == name_start {
                    return Err("'&' must be followed by entity name or '#' in attribute value");
                }
                if pos >= len || value[pos] != 0x3B {
                    return Err("Entity reference in attribute value must end with ';'");
                }
            }
        }
        pos += 1;
    }
    Ok(())
}

/// The outcome of checking the characters of a tag's content from `pos` on, inside
/// a quoted value (opened by `qc`, whose value starts at `avs`) or not.
pub open spec fn tag_chars_check(s: Seq<u8>, pos: int, in_q: bool, qc: u8, avs: int) -> Result<
    (),
    &'static str,
>
    decreases s.len() - pos,
{
    if pos < 0 || pos >= s.len() {
        Ok(())
    } else {
        let b = s[pos];
        if !in_q && (b == 0x22 || b == 0x27) {
            tag_chars_check(s, pos + 1, true, b, pos + 1)
        } else if in_q && b == qc {
            match attr_value_check(s.subrange(avs, pos), 0) {
                Err(e) => Err(e),
                Ok(_) => tag_chars_check(s, pos + 1, false, qc, avs),
            }
        } else if b < 0x80 {
            if b < 0x20 && b != 0x09 && b != 0x0A && b != 0x0D {
                Err("Invalid XML character in tag (control character not allowed)")
            } else if b == 0x7F {
                Err("Invalid XML character in tag (DEL not allowed)")
            } else if in_q && b == 0x3C {
                Err("'<' not allowed in attribute value")
            } else {
                tag_chars_check(s, pos + 1, in_q, qc, avs)
            }
        } else if b < 0xC0 {
            Err("Invalid UTF-8 encoding in tag")
        } else if b < 0xE0 {
            if pos + 1 >= s.len() {
                Err("Invalid UTF-8 encoding in tag: truncated sequence")
            } else if !is_cont(s[pos + 1]) {
                Err("Invalid UTF-8 encoding in tag")
            } else if !spec_is_valid_xml_char(cp2(b, s[pos + 1])) {
                Err("Invalid XML character in tag")
            } else {
                tag_chars_check(s, pos + 2, in_q, qc, avs)
            }
        } else if b < 0xF0 {
            if pos + 2 >= s.len() {
                Err("Invalid UTF-8 encoding in tag: truncated sequence")
            } else if !is_cont(s[pos + 1]) || !is_cont(s[pos + 2]) {
                Err("Invalid UTF-8 encoding in tag")
            } else if !spec_is_valid_xml_char(cp3(b, s[pos + 1], s[pos + 2])) {
                Err("Invalid XML character in tag (U+FFFE/U+FFFF not allowed)")
            } else {
                tag_chars_check(s, pos + 3, in_q, qc, avs)
            }
        } else if b < 0xF8 {
            if pos + 3 >= s.len() {
                Err("Invalid UTF-8 encoding in tag: truncated sequence")
            } else if !is_cont(s[pos + 1]) || !is_cont(s[pos + 2]) || !is_cont(s[pos + 3]) {
                Err("Invalid UTF-8 encoding in tag")
            } else if !spec_is_valid_xml_char(cp4(b, s[pos + 1], s[pos + 2], s[pos + 3])) {
                Err("Invalid XML character in tag")
            } else {
                tag_chars_check(s, pos + 4, in_q, qc, avs)
            }
        } else {
            Err("Invalid UTF-8 encoding in tag: byte too large")
        }
    }
}

/// Plain ASCII outside quotes: a byte from space to `~` that is no quote.
pub open spec fn plain_tag_byte(b: u8) -> bool {
    0x20 <= b && b < 0x7F && b != 0x22 && b != 0x27
}

proof fn lemma_plain_from(s: Seq<u8>, pos: int, qc: u8, avs: int)
    requires
        0 <= pos,
        forall|i: int| pos <= i < s.len() ==> plain_tag_byte(#[trigger] s[i]),
    ensures
        tag_chars_check(s, pos, false, qc, avs) == Ok::<(), &'static str>(()),
    decreases s.len() - pos,
{
    if pos < s.len() {
        lemma_plain_from(s, pos + 1, qc, avs);
    }
}

/// A tag whose bytes are all printable ASCII, with no quote, passes the character
/// checks.
pub proof fn law_plain_tag_passes(s: Seq<u8>)
    requires
        forall|i: int| 0 <= i < s.len() ==> plain_tag_byte(#[trigger] s[i]),
    ensures
        tag_chars_check(s, 0, false, 0, 0) == Ok::<(), &'static str>(()),
{
    lemma_plain_from(s, 0, 0, 0);
}

proof fn lemma_control_from(s: Seq<u8>, pos: int, k: int, qc: u8, avs: int)
    requires
        0 <= pos <= k < s.len(),
        forall|i: int| pos <= i < k ==> plain_tag_byte(#[trigger] s[i]),
        s[k] < 0x20 && s[k] != 0x09 && s[k] != 0x0A && s[k] != 0x0D,
    ensures
        tag_chars_check(s, pos, false, qc, avs) == Err::<(), &'static str>(
            "Invalid XML character in tag (control character not allowed)",
        ),
    decreases k - pos,
{
    if pos < k {
        lemma_control_from(s, pos + 1, k, qc, avs);
    }
}

/// A control character (other than tab, line feed and carriage return) after plain
/// ASCII bytes with no quote makes the tag fail, with the control-character message.
pub proof fn law_control_char_fails(s: Seq<u8>, k: int)
    requires
        0 <= k < s.len(),
        forall|i: int| 0 <= i < k ==> plain_tag_byte(#[trigger] s[i]),
        s[k] < 0x20 && s[k] != 0x09 && s[k] != 0x0A && s[k] != 0x0D,
    ensures
        tag_chars_check(s, 0, false, 0, 0) == Err::<(), &'static str>(
            "Invalid XML character in tag (control character not allowed)",
        ),
{
    lemma_control_from(s, 0, k, 0, 0);
}

/// Validate all characters in a tag (between < and >)
/// Handles quoted strings properly - validates both inside and outside quotes
/// Also validates UTF-8 codepoints for invalid XML characters like U+FFFE/U+FFFF
pub fn validate_tag_chars(content: &[u8]) -> (r: Result<(), &'static str>)
    ensures
        r == tag_chars_check(content@, 0, false, 0, 0),
{
    let len = content.len();
    let mut pos: usize = 0;
    let mut in_quote = false;
    let mut quote_char: u8 = 0;
    let mut attr_value_start: usize = 0;
    while pos < len
        invariant
            len == content@.len(),
            pos <= len,
            in_quote ==> attr_value_start <= pos,
            tag_chars_check(content@, 0, false, 0, 0) == tag_chars_check(
                content@,
                pos as int,
                in_quote,
                quote_char,
                attr_value_start as int,
            ),
        decreases len - pos,
    {
        let b = content[pos];
        if !in_quote && (b == 0x22 || b == 0x27) {
            in_quote = true;
            quote_char = b;
            attr_value_start = pos + 1;
            pos += 1;
        } else if in_quote && b == quote_char {
            let attr_value = &content[attr_value_start..pos];
            match validate_attr_value(attr_value) {
                Err(e) => {
                    return Err(e);
                },
                Ok(_) => {},
            }
            in_quote = false;
            pos += 1;
        } else if b < 0x80 {
            if b < 0x20 && b != 0x09 && b != 0x0A && b != 0x0D {
                return Err("Invalid XML character in tag (control character not allowed)");
            }
            if b == 0x7F {
                return Err("Invalid XML character in tag (DEL not allowed)");
            }
            if in_quote && b == 0x3C {
                return Err("'<' not allowed in attribute value");
            }
            pos += 1;
        } else if b < 0xC0 {
            return Err("Invalid UTF-8 encoding in tag");
        } else if b < 0xE0 {
            if len - pos <= 1 {
                return Err("Invalid UTF-8 encoding in tag: truncated sequence");
            }
            let c1 = content[pos + 1];
            if c1 & 0xC0 != 0x80 {
                return Err("Invalid UTF-8 encoding in tag");
            }
            let cp = ((b as u32 & 0x1F) << 6) | (c1 as u32 & 0x3F);
            if !is_valid_xml_char(cp) {
                return Err("Invalid XML character in tag");
            }
            pos += 2;
        } else if b < 0xF0 {
            if len - pos <= 2 {
                return Err("Invalid UTF-8 encoding in tag: truncated sequence");
            }
            let c1 = content[pos + 1];
            let c2 = content[pos + 2];
            if c1 & 0xC0 != 0x80 || c2 & 0xC0 != 0x80 {
                return Err("Invalid UTF-8 encoding in tag");
            }
            let cp = ((b as u32 & 0x0F) << 12) | ((c1 as u32 & 0x3F) << 6) | (c2 as u32 & 0x3F);
            if !is_valid_xml_char(cp) {
                return Err("Invalid XML character in tag (U+FFFE/U+FFFF not allowed)");
            }
            pos += 3;
        } else if b < 0xF8 {
            if len - pos <= 3 {
                return Err("Invalid UTF-8 encoding in tag: truncated sequence");
            }
            let c1 = content[pos + 1];
            let c2 = content[pos + 2];
            let c3 = content[pos + 3];
            if c1 & 0xC0 != 0x80 || c2 & 0xC0 != 0x80 || c3 & 0xC0 != 0x80 {
                return Err("Invalid UTF-8 encoding in tag");
            }
            let cp = ((b as u32 & 0x07) << 18) | ((c1 as u32 & 0x3F) << 12) | ((c2 as u32
                & 0x3F) << 6) | (c3 as u32 & 0x3F);
            if !is_valid_xml_char(cp) {
                return Err("Invalid XML character in tag");
            }
            pos += 4;
        } else {
            return Err("Invalid UTF-8 encoding in tag: byte too large");
        }
    }
    Ok(())
}

/// The position of the first `b` in `s`, or its length.
pub open spec fn first_or_len(s: Seq<u8>, b: u8) -> int {
    if index_of(s, b) >= 0 {
        index_of(s, b)
    } else {
        s.len() as int
    }
}

/// Position of the first `b` in `s`.
pub fn position_of(s: &[u8], b: u8) -> (r: Option<usize>)
    ensures
        match r {
            Some(i) => i == index_of(s@, b) && i < s@.len(),
            None => index_of(s@, b) == -1,
        },
{
    let mut i: usize = 0;
    while i < s.len()
        invariant
            i <= s@.len(),
            forall|j: int| 0 <= j < i ==> s@[j] != b,
        decreases s.len() - i,
    {
        if s[i] == b {
            proof {
                crate::xml_core::attributes::lemma_first_index(s@, b, i as int);
            }
            return Some(i);
        }
        i += 1;
    }
    proof {
        lemma_index_of(s@, b);
        if index_of(s@, b) >= 0 {
            assert(s@[index_of(s@, b)] == b);
        }
    }
    None
}

/// `version`, `encoding`.
pub open spec fn lit_version() -> Seq<u8> {
    seq![0x76u8, 0x65u8, 0x72u8, 0x73u8, 0x69u8, 0x6Fu8, 0x6Eu8]
}

pub open spec fn lit_encoding() -> Seq<u8> {
    seq![0x65u8, 0x6Eu8, 0x63u8, 0x6Fu8, 0x64u8, 0x69u8, 0x6Eu8, 0x67u8]
}

/// The outcome of checking the content of an XML declaration (after `<?xml`): a
/// version pseudo-attribute first, whitespace before what follows it, and a valid
/// encoding name when an encoding follows.
pub open spec fn xml_decl_check(s: Seq<u8>) -> Result<(), &'static str> {
    let c = trim_ws(s);
    if !has_prefix(c, lit_version()) {
        Err("XML declaration must have version attribute")
    } else {
        let r1 = trim_ws(c.skip(7));
        if r1.len() == 0 || r1[0] != 0x3D {
            Err("XML declaration version attribute must have '='")
        } else {
            let r2 = trim_ws(r1.skip(1));
            if r2.len() == 0 || (r2[0] != 0x22 && r2[0] != 0x27) {
                Err("XML declaration version value must be quoted")
            } else {
                let v = r2.skip(1);
                let ve = first_or_len(v, r2[0]);
                let rest = if ve + 1 <= v.len() {
                    v.skip(ve + 1)
                } else {
                    seq![]
                };
                if rest.len() == 0 {
                    Ok(())
                } else if !is_ws(rest[0]) {
                    Err("Whitespace required before encoding or standalone in XML declaration")
                } else {
                    let r3 = trim_ws(rest);
                    if has_prefix(r3, lit_encoding()) {
                        let ae = trim_ws(r3.skip(8));
                        if ae.len() == 0 || ae[0] != 0x3D {
                            Err("encoding attribute must have '='")
                        } else {
                            let aq = trim_ws(ae.skip(1));
                            if aq.len() == 0 || (aq[0] != 0x22 && aq[0] != 0x27) {
                                Err("encoding value must be quoted")
                            } else {
                                let k = index_of(aq.skip(1), aq[0]);
                                if k >= 0 {
                                    enc_check(aq.subrange(1, 1 + k))
                                } else {
                                    Ok(())
                                }
                            }
                        }
                    } else {
                        Ok(())
                    }
                }
            }
        }
    }
}

/// Validate XML declaration content
/// XMLDecl must have version attribute: <?xml version="..." ...?>
/// Whitespace required between pseudo-attributes
pub fn validate_xml_decl(content: &[u8]) -> (r: Result<(), &'static str>)
    ensures
        r == xml_decl_check(content@),
{
    let version: &[u8] = &[0x76u8, 0x65u8, 0x72u8, 0x73u8, 0x69u8, 0x6Fu8, 0x6Eu8];
    let encoding: &[u8] = &[0x65u8, 0x6Eu8, 0x63u8, 0x6Fu8, 0x64u8, 0x69u8, 0x6Eu8, 0x67u8];
    assert(version@ =~= lit_version());
    assert(encoding@ =~= lit_encoding());
    let c = skip_ws(content);
    if !starts_with(c, version) {
        return Err("XML declaration must have version attribute");
    }
    let r1 = skip_ws(&c[7..c.len()]);
    assert(c@.skip(7) =~= c@.subrange(7, c@.len() as int));
    if r1.len() == 0 || r1[0] != 0x3D {
        return Err("XML declaration version attribute must have '='");
    }
    assert(r1@.skip(1) =~= r1@.subrange(1, r1@.len() as int));
    let r2 = skip_ws(&r1[1..r1.len()]);
    if r2.len() == 0 || (r2[0] != 0x22 && r2[0] != 0x27) {
        return Err("XML declaration version value must be quoted");
    }
    let quote = r2[0];
    let v = &r2[1..r2.len()];
    assert(v@ =~= r2@.skip(1));
    let value_end = match position_of(v, quote) {
        Some(i) => i,
        None => v.len(),
    };
    let rest: &[u8] = if value_end + 1 <= v.len() {
        &v[value_end + 1..v.len()]
    } else {
        &[]
    };
    assert(value_end + 1 <= v@.len() ==> rest@ =~= v@.skip(value_end + 1));
    assert(value_end + 1 > v@.len() ==> rest@ =~= Seq::<u8>::empty());
    if rest.len() > 0 {
        if !is_ws_byte(rest[0]) {
            return Err("Whitespace required before encoding or standalone in XML declaration");
        }
        let r3 = skip_ws(rest);
        if starts_with(r3, encoding) {
            assert(r3@.skip(8) =~= r3@.subrange(8, r3@.len() as int));
            let after_enc = skip_ws(&r3[8..r3.len()]);
            if after_enc.len() == 0 || after_enc[0] != 0x3D {
                return Err("encoding attribute must have '='");
            }
            assert(after_enc@.skip(1) =~= after_enc@.subrange(1, after_enc@.len() as int));
            let after_eq = skip_ws(&after_enc[1..after_enc.len()]);
            if after_eq.len() == 0 || (after_eq[0] != 0x22 && after_eq[0] != 0x27) {
                return Err("encoding value must be quoted");
            }
            let q = after_eq[0];
            let tail = &after_eq[1..after_eq.len()];
            assert(tail@ =~= after_eq@.skip(1));
            if let Some(value_end) = position_of(tail, q) {
                let enc_value = &after_eq[1..1 + value_end];
                return validate_enc_name(enc_value);
            }
        }
    }
    Ok(())
}

} // verus!
