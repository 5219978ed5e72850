//! XML entity decoding and encoding.
//!
//! Decoding handles the five built-in entities (`&lt;` `&gt;` `&amp;` `&quot;`
//! `&apos;`) and numeric character references (`&#123;`, `&#x7B;`). Unknown
//! entities are kept as-is: no other entity is ever expanded. Decoding returns the
//! input unchanged (borrowed) when it holds no `&`.

use std::borrow::Cow;
use vstd::prelude::*;
use vstd::utf8::*;

use super::primitives::{bytes_eq, index_of, is_first_index, lemma_index_of, memchr};

verus! {

pub open spec fn AMP() -> u8 {
    0x26
}

pub open spec fn SEMI() -> u8 {
    0x3B
}

// =============================================================================
// Character classes
// =============================================================================
/// XML 1.0 `Char` production:
/// `#x9 | #xA | #xD | [#x20-#xD7FF] | [#xE000-#xFFFD] | [#x10000-#x10FFFF]`.
pub open spec fn spec_is_valid_xml_char(cp: u32) -> bool {
    cp == 0x9 || cp == 0xA || cp == 0xD || (0x20 <= cp && cp <= 0xD7FF) || (0xE000 <= cp && cp
        <= 0xFFFD) || (0x10000 <= cp && cp <= 0x10FFFF)
}

/// Check if a code point is a valid XML 1.0 Char.
pub fn is_valid_xml_char(codepoint: u32) -> (r: bool)
    ensures
        r == spec_is_valid_xml_char(codepoint),
{
    codepoint == 0x9 || codepoint == 0xA || codepoint == 0xD || (0x20 <= codepoint && codepoint
        <= 0xD7FF) || (0xE000 <= codepoint && codepoint <= 0xFFFD) || (0x10000 <= codepoint
        && codepoint <= 0x10FFFF)
}

/// A byte that may occur in XML content on its own: tab, LF, CR, 0x20..0x7F, or any byte
/// of a multi-byte UTF-8 sequence (0x80 and above).
pub open spec fn spec_is_valid_xml_byte(b: u8) -> bool {
    b == 0x9 || b == 0xA || b == 0xD || (0x20 <= b && b <= 0x7F) || b >= 0x80
}

/// Check if a byte is a valid XML Char (for single-byte content validation).
pub fn is_valid_xml_byte(b: u8) -> (r: bool)
    ensures
        r == spec_is_valid_xml_byte(b),
{
    b == 0x9 || b == 0xA || b == 0xD || (0x20 <= b && b <= 0x7F) || b >= 0x80
}

// =============================================================================
// UTF-8 content validation
// =============================================================================
pub open spec fn cp2(b: u8, c1: u8) -> u32 {
    ((b as u32 & 0x1F) << 6) | (c1 as u32 & 0x3F)
}

pub open spec fn cp3(b: u8, c1: u8, c2: u8) -> u32 {
    ((b as u32 & 0x0F) << 12) | ((c1 as u32 & 0x3F) << 6) | (c2 as u32 & 0x3F)
}

pub open spec fn cp4(b: u8, c1: u8, c2: u8, c3: u8) -> u32 {
    ((b as u32 & 0x07) << 18) | ((c1 as u32 & 0x3F) << 12) | ((c2 as u32 & 0x3F) << 6) | (
    c3 as u32 & 0x3F)
}

pub open spec fn is_cont(c: u8) -> bool {
    c & 0xC0 == 0x80
}

/// The outcome of checking UTF-8 content for characters that XML 1.0 does not allow,
/// reading one encoded character at a time from the front.
pub open spec fn content_check(s: Seq<u8>) -> Result<(), &'static str>
    decreases s.len(),
{
    if s.len() == 0 {
        Ok(())
    } else {
        let b = s[0];
        if b < 0x80 {
            if b < 0x20 && b != 0x09 && b != 0x0A && b != 0x0D {
                Err("Invalid XML character: control character not allowed")
            } else {
                content_check(s.drop_first())
            }
        } else if b < 0xC0 {
            Err("Invalid UTF-8 encoding")
        } else if b < 0xE0 {
            if s.len() < 2 {
                Err("Invalid UTF-8 encoding: truncated sequence")
            } else if !is_cont(s[1]) {
                Err("Invalid UTF-8 encoding: bad continuation byte")
            } else if !spec_is_valid_xml_char(cp2(b, s[1])) {
                Err("Invalid XML character")
            } else {
                content_check(s.skip(2))
            }
        } else if b < 0xF0 {
            if s.len() < 3 {
                Err("Invalid UTF-8 encoding: truncated sequence")
            } else if !is_cont(s[1]) || !is_cont(s[2]) {
                Err("Invalid UTF-8 encoding: bad continuation byte")
            } else if !spec_is_valid_xml_char(cp3(b, s[1], s[2])) {
                Err("Invalid XML character: U+FFFE/U+FFFF not allowed")
            } else {
                content_check(s.skip(3))
            }
        } else if b < 0xF8 {
            if s.len() < 4 {
                Err("Invalid UTF-8 encoding: truncated sequence")
            } else if !is_cont(s[1]) || !is_cont(s[2]) || !is_cont(s[3]) {
                Err("Invalid UTF-8 encoding: bad continuation byte")
            } else if !spec_is_valid_xml_char(cp4(b, s[1], s[2], s[3])) {
                Err("Invalid XML character")
            } else {
                content_check(s.skip(4))
            }
        } else {
            Err("Invalid UTF-8 encoding: byte too large")
        }
    }
}

/// The byte arithmetic of the content check agrees with the UTF-8 decoding.
proof fn lemma_utf8_bits(b: u8, c1: u8, c2: u8, c3: u8)
    by (bit_vector)
    ensures
        b < 0x80 ==> (b & 0x7F) as u32 == b as u32,
        (c1 & 0xC0 == 0x80) == (0x80 <= c1 && c1 <= 0xbf),
        (c2 & 0xC0 == 0x80) == (0x80 <= c2 && c2 <= 0xbf),
        (c3 & 0xC0 == 0x80) == (0x80 <= c3 && c3 <= 0xbf),
        ((b as u32 & 0x1F) << 6) | (c1 as u32 & 0x3F) == (((b & 0x1F) as u32) << 6) | ((c1
            & 0x3f) as u32),
        ((b as u32 & 0x0F) << 12) | ((c1 as u32 & 0x3F) << 6) | (c2 as u32 & 0x3F) == (((b
            & 0x0F) as u32) << 12) | (((c1 & 0x3f) as u32) << 6) | ((c2 & 0x3f) as u32),
        ((b as u32 & 0x07) << 18) | ((c1 as u32 & 0x3F) << 12) | ((c2 as u32 & 0x3F) << 6) | (
        c3 as u32 & 0x3F) == (((b & 0x07) as u32) << 18) | (((c1 & 0x3f) as u32) << 12) | (((c2
            & 0x3f) as u32) << 6) | ((c3 & 0x3f) as u32),
        ((b as u32 & 0x1F) << 6) | (c1 as u32 & 0x3F) <= 0x7FF,
        ((b as u32 & 0x0F) << 12) | ((c1 as u32 & 0x3F) << 6) | (c2 as u32 & 0x3F) <= 0xFFFF,
{
}

/// On valid UTF-8, the content check accepts exactly the texts whose every character is
/// an XML 1.0 `Char`.
pub proof fn lemma_content_check_chars(s: Seq<u8>)
    requires
        valid_utf8(s),
    ensures
        (content_check(s) is Ok) == (forall|i: int|
            0 <= i < decode_utf8(s).len() ==> spec_is_valid_xml_char(
                #[trigger] decode_utf8(s)[i] as u32,
            )),
    decreases s.len(),
{
    if s.len() > 0 {
        let b = s[0];
        let c1 = if s.len() > 1 { s[1] } else { 0u8 };
        let c2 = if s.len() > 2 { s[2] } else { 0u8 };
        let c3 = if s.len() > 3 { s[3] } else { 0u8 };
        lemma_utf8_bits(b, c1, c2, c3);
        let rest = pop_first_scalar(s);
        let cp = decode_first_scalar(s);
        lemma_content_check_chars(rest);
        let d = decode_utf8(s);
        assert(d == seq![cp as char] + decode_utf8(rest));
        let k = length_of_first_scalar(s);
        if b < 0x80 {
            assert(rest =~= s.drop_first());
        } else if b < 0xE0 {
            assert(rest =~= s.skip(2));
        } else if b < 0xF0 {
            assert(rest =~= s.skip(3));
        } else {
            assert(rest =~= s.skip(4));
        }
        assert((cp as char) as u32 == cp);
        assert(d[0] as u32 == cp);
        assert forall|i: int| 0 <= i < decode_utf8(rest).len() implies #[trigger] decode_utf8(
            rest,
        )[i] == d[i + 1] by {}
        if content_check(s) is Ok {
            assert forall|i: int| 0 <= i < d.len() implies spec_is_valid_xml_char(
                #[trigger] d[i] as u32,
            ) by {
                if i > 0 {
                    assert(d[i] == decode_utf8(rest)[i - 1]);
                }
            }
        } else {
            if spec_is_valid_xml_char(cp) {
                assert(!(content_check(rest) is Ok));
                let j = choose|j: int|
                    0 <= j < decode_utf8(rest).len() && !spec_is_valid_xml_char(
                        #[trigger] decode_utf8(rest)[j] as u32,
                    );
                assert(d[j + 1] == decode_utf8(rest)[j]);
            }
        }
    }
}

/// Validate UTF-8 content for invalid XML characters.
/// Returns Err if content contains characters not allowed in XML 1.0.
pub fn validate_xml_content(content: &[u8]) -> (r: Result<(), &'static str>)
    ensures
        r == content_check(content@),
        valid_utf8(content@) ==> ((r is Ok) <==> forall|i: int|
            0 <= i < decode_utf8(content@).len() ==> spec_is_valid_xml_char(
                #[trigger] decode_utf8(content@)[i] as u32,
            )),
{
    proof {
        if valid_utf8(content@) {
            lemma_content_check_chars(content@);
        }
    }
    let mut pos: usize = 0;
    assert(content@.skip(0) =~= content@);
    while pos < content.len()
        invariant
            pos <= content@.len(),
            content_check(content@) == content_check(content@.skip(pos as int)),
            valid_utf8(content@) ==> ((content_check(content@) is Ok) <==> forall|i: int|
                0 <= i < decode_utf8(content@).len() ==> spec_is_valid_xml_char(
                    #[trigger] decode_utf8(content@)[i] as u32,
                )),
        decreases content.len() - pos,
    {
        let ghost rest = content@.skip(pos as int);
        let b = content[pos];
        if b < 0x80 {
            if b < 0x20 && b != 0x09 && b != 0x0A && b != 0x0D {
                return Err("Invalid XML character: control character not allowed");
            }
            assert(rest.drop_first() =~= content@.skip(pos + 1));
            pos += 1;
        } else if b < 0xC0 {
            return Err("Invalid UTF-8 encoding");
        } else if b < 0xE0 {
            if pos + 1 >= content.len() {
                return Err("Invalid UTF-8 encoding: truncated sequence");
            }
            let c1 = content[pos + 1];
            if c1 & 0xC0 != 0x80 {
                return Err("Invalid UTF-8 encoding: bad continuation byte");
            }
            let cp = ((b as u32 & 0x1F) << 6) | (c1 as u32 & 0x3F);
            if !is_valid_xml_char(cp) {
                return Err("Invalid XML character");
            }
            assert(rest.skip(2) =~= content@.skip(pos + 2));
            pos += 2;
        } else if b < 0xF0 {
            if content.len() - pos <= 2 {
                return Err("Invalid UTF-8 encoding: truncated sequence");
            }
            let c1 = content[pos + 1];
            let c2 = content[pos + 2];
            if c1 & 0xC0 != 0x80 || c2 & 0xC0 != 0x80 {
                return Err("Invalid UTF-8 encoding: bad continuation byte");
            }
            let cp = ((b as u32 & 0x0F) << 12) | ((c1 as u32 & 0x3F) << 6) | (c2 as u32 & 0x3F);
            if !is_valid_xml_char(cp) {
                return Err("Invalid XML character: U+FFFE/U+FFFF not allowed");
            }
            assert(rest.skip(3) =~= content@.skip(pos + 3));
            pos += 3;
        } else if b < 0xF8 {
            if content.len() - pos <= 3 {
                return Err("Invalid UTF-8 encoding: truncated sequence");
            }
            let c1 = content[pos + 1];
            let c2 = content[pos + 2];
            let c3 = content[pos + 3];
            if c1 & 0xC0 != 0x80 || c2 & 0xC0 != 0x80 || c3 & 0xC0 != 0x80 {
                return Err("Invalid UTF-8 encoding: bad continuation byte");
            }
            let cp = ((b as u32 & 0x07) << 18) | ((c1 as u32 & 0x3F) << 12) | ((c2 as u32
                & 0x3F) << 6) | (c3 as u32 & 0x3F);
            if !is_valid_xml_char(cp) {
                return Err("Invalid XML character");
            }
            assert(rest.skip(4) =~= content@.skip(pos + 4));
            pos += 4;
        } else {
            return Err("Invalid UTF-8 encoding: byte too large");
        }
    }
    assert(content@.skip(pos as int).len() == 0);
    Ok(())
}

// =============================================================================
// Entity values
// =============================================================================
/// Value of one digit in the given radix (10 or 16), as `char::to_digit` gives it.
pub open spec fn digit_value(c: u8, radix: u32) -> Option<u32> {
    if 0x30 <= c <= 0x39 {
        Some((c - 0x30) as u32)
    } else if radix == 16 && 0x61 <= c <= 0x66 {
        Some((c - 0x61 + 10) as u32)
    } else if radix == 16 && 0x41 <= c <= 0x46 {
        Some((c - 0x41 + 10) as u32)
    } else {
        None
    }
}

/// Left-to-right accumulation of digits into a `u32`, failing on a non-digit or on
/// overflow.
pub open spec fn fold_digits(d: Seq<u8>, radix: u32, acc: u32) -> Option<u32>
    decreases d.len(),
{
    if d.len() == 0 {
        Some(acc)
    } else {
        match digit_value(d[0], radix) {
            None => None,
            Some(v) => {
                let n = acc * radix + v;
                if n > u32::MAX {
                    None
                } else {
                    fold_digits(d.drop_first(), radix, n as u32)
                }
            },
        }
    }
}

/// `u32::from_str_radix` on ASCII input: an optional leading `+`, then at least one
/// digit, with no overflow.
pub open spec fn parse_u32_radix(s: Seq<u8>, radix: u32) -> Option<u32> {
    if s.len() == 0 {
        None
    } else if s[0] == 0x2B {
        if s.len() == 1 {
            None
        } else {
            fold_digits(s.drop_first(), radix, 0)
        }
    } else {
        fold_digits(s, radix, 0)
    }
}

/// The code point that a numeric character reference names (the part after `&#`).
pub open spec fn numeric_ref_value(e: Seq<u8>) -> Option<u32> {
    if e.len() == 0 {
        None
    } else if e[0] == 0x78 || e[0] == 0x58 {
        parse_u32_radix(e.drop_first(), 16)
    } else {
        parse_u32_radix(e, 10)
    }
}

/// The code point of a built-in XML entity name (`lt`, `gt`, `amp`, `quot`, `apos`).
pub open spec fn builtin_entity(e: Seq<u8>) -> Option<u32> {
    if e == seq![0x6Cu8, 0x74] {
        Some(0x3C)
    } else if e == seq![0x67u8, 0x74] {
        Some(0x3E)
    } else if e == seq![0x61u8, 0x6D, 0x70] {
        Some(0x26)
    } else if e == seq![0x71u8, 0x75, 0x6F, 0x74] {
        Some(0x22)
    } else if e == seq![0x61u8, 0x70, 0x6F, 0x73] {
        Some(0x27)
    } else {
        None
    }
}

/// Lenient value of an entity body (the bytes between `&` and `;`): the UTF-8 bytes it
/// stands for, or `None` for an entity that is left as written.
pub open spec fn entity_value(e: Seq<u8>) -> Option<Seq<u8>> {
    if e.len() == 0 {
        None
    } else if e[0] == 0x23 {
        match numeric_ref_value(e.drop_first()) {
            Some(cp) => if is_scalar(cp) {
                Some(encode_scalar(cp))
            } else {
                None
            },
            None => None,
        }
    } else {
        match builtin_entity(e) {
            Some(cp) => Some(encode_scalar(cp)),
            None => None,
        }
    }
}

/// Strict value of an entity body: numeric references must name an XML `Char`
/// (otherwise decoding fails); only the five built-in names are known.
pub open spec fn entity_value_strict(e: Seq<u8>) -> Result<Option<Seq<u8>>, &'static str> {
    if e.len() == 0 {
        Ok(None)
    } else if e[0] == 0x23 {
        match numeric_ref_value(e.drop_first()) {
            Some(cp) => if spec_is_valid_xml_char(cp) && is_scalar(cp) {
                Ok(Some(encode_scalar(cp)))
            } else {
                Err("Invalid character reference")
            },
            None => Err("Invalid character reference"),
        }
    } else {
        match builtin_entity(e) {
            Some(cp) => Ok(Some(encode_scalar(cp))),
            None => Ok(None),
        }
    }
}

// =============================================================================
// Decoding specifications
// =============================================================================
/// Lenient decoding of text: each `&name;` whose value is known is replaced by that
/// value; every other byte (including an `&` that starts no known entity) is kept.
pub open spec fn decoded(s: Seq<u8>) -> Seq<u8>
    decreases s.len(),
{
    if s.len() == 0 {
        seq![]
    } else if s[0] != AMP() {
        seq![s[0]] + decoded(s.drop_first())
    } else {
        let k = index_of(s, SEMI());
        if k < 0 {
            seq![AMP()] + decoded(s.drop_first())
        } else {
            proof {
                lemma_index_of(s, SEMI());
            }
            match entity_value(s.subrange(1, k)) {
                Some(v) => v + decoded(s.skip(k + 1)),
                None => seq![AMP()] + decoded(s.drop_first()),
            }
        }
    }
}

/// Strict decoding of text: as `decoded`, with only the built-in names, and failing on
/// a numeric reference that is not an XML `Char`.
pub open spec fn decoded_strict(s: Seq<u8>) -> Result<Seq<u8>, &'static str>
    decreases s.len(),
{
    if s.len() == 0 {
        Ok(seq![])
    } else if s[0] != AMP() {
        match decoded_strict(s.drop_first()) {
            Ok(r) => Ok(seq![s[0]] + r),
            Err(m) => Err(m),
        }
    } else {
        let k = index_of(s, SEMI());
        if k < 0 {
            match decoded_strict(s.drop_first()) {
                Ok(r) => Ok(seq![AMP()] + r),
                Err(m) => Err(m),
            }
        } else {
            proof {
                lemma_index_of(s, SEMI());
            }
            match entity_value_strict(s.subrange(1, k)) {
                Err(m) => Err(m),
                Ok(Some(v)) => match decoded_strict(s.skip(k + 1)) {
                    Ok(r) => Ok(v + r),
                    Err(m) => Err(m),
                },
                Ok(None) => match decoded_strict(s.drop_first()) {
                    Ok(r) => Ok(seq![AMP()] + r),
                    Err(m) => Err(m),
                },
            }
        }
    }
}

/// Whether `s` holds no `&`.
pub open spec fn no_amp(s: Seq<u8>) -> bool {
    forall|j: int| 0 <= j < s.len() ==> s[j] != AMP()
}

/// A prefix without `&` decodes to itself.
pub proof fn lemma_decoded_plain_prefix(s: Seq<u8>, a: int)
    requires
        0 <= a <= s.len(),
        no_amp(s.take(a)),
    ensures
        decoded(s) == s.take(a) + decoded(s.skip(a)),
    decreases a,
{
    if a > 0 {
        assert(s[0] == s.take(a)[0]);
        assert forall|j: int| 0 <= j < a - 1 implies #[trigger] s.drop_first().take(a - 1)[j] != AMP() by {
            assert(s.drop_first().take(a - 1)[j] == s.take(a)[j + 1]);
        }
        lemma_decoded_plain_prefix(s.drop_first(), a - 1);
        assert(s.drop_first().skip(a - 1) =~= s.skip(a));
        assert(s.take(a) =~= seq![s[0]] + s.drop_first().take(a - 1));
    } else {
        assert(s.take(0) =~= Seq::<u8>::empty());
        assert(s.skip(0) =~= s);
    }
}

/// Strict counterpart of `lemma_decoded_plain_prefix`.
pub proof fn lemma_decoded_strict_plain_prefix(s: Seq<u8>, a: int)
    requires
        0 <= a <= s.len(),
        no_amp(s.take(a)),
    ensures
        decoded_strict(s) == (match decoded_strict(s.skip(a)) {
            Ok(r) => Ok(s.take(a) + r),
            Err(m) => Err(m),
        }),
    decreases a,
{
    if a > 0 {
        assert(s[0] == s.take(a)[0]);
        assert forall|j: int| 0 <= j < a - 1 implies #[trigger] s.drop_first().take(a - 1)[j] != AMP() by {
            assert(s.drop_first().take(a - 1)[j] == s.take(a)[j + 1]);
        }
        lemma_decoded_strict_plain_prefix(s.drop_first(), a - 1);
        assert(s.drop_first().skip(a - 1) =~= s.skip(a));
        assert(s.take(a) =~= seq![s[0]] + s.drop_first().take(a - 1));
        match decoded_strict(s.skip(a)) {
            Ok(r) => {
                assert(seq![s[0]] + (s.drop_first().take(a - 1) + r) =~= s.take(a) + r);
            },
            Err(m) => {},
        }
    } else {
        assert(s.take(0) =~= Seq::<u8>::empty());
        assert(s.skip(0) =~= s);
        match decoded_strict(s) {
            Ok(r) => {
                assert(Seq::<u8>::empty() + r =~= r);
            },
            Err(m) => {},
        }
    }
}

/// Text without `&` decodes to itself.
pub proof fn lemma_decoded_no_amp(s: Seq<u8>)
    requires
        no_amp(s),
    ensures
        decoded(s) == s,
        decoded_strict(s) == Ok::<Seq<u8>, &'static str>(s),
{
    assert(s.take(s.len() as int) =~= s);
    lemma_decoded_plain_prefix(s, s.len() as int);
    lemma_decoded_strict_plain_prefix(s, s.len() as int);
    assert(s.skip(s.len() as int) =~= Seq::<u8>::empty());
    assert(s + Seq::<u8>::empty() =~= s);
}

proof fn lemma_first_index_is_index_of(s: Seq<u8>, b: u8, i: int)
    requires
        is_first_index(s, b, i),
    ensures
        index_of(s, b) == i,
{
    lemma_index_of(s, b);
    if index_of(s, b) == -1 {
        assert(s[i] != b);
    } else if index_of(s, b) < i {
        assert(s[index_of(s, b)] != b);
    } else if index_of(s, b) > i {
        assert(s[i] != b);
    }
}

// =============================================================================
// Executable decoding
// =============================================================================
/// Parse ASCII digits in the given radix, as `u32::from_str_radix` does.
fn parse_u32(s: &[u8], radix: u32) -> (r: Option<u32>)
    requires
        radix == 10 || radix == 16,
    ensures
        r == parse_u32_radix(s@, radix),
{
    if s.len() == 0 {
        return None;
    }
    let mut start: usize = 0;
    if s[0] == 0x2B {
        if s.len() == 1 {
            return None;
        }
        start = 1;
    }
    let ghost d = s@.skip(start as int);
    assert(start == 1 ==> d =~= s@.drop_first());
    assert(start == 0 ==> d =~= s@);
    assert(parse_u32_radix(s@, radix) == fold_digits(d, radix, 0));
    let mut acc: u32 = 0;
    let mut i: usize = start;
    while i < s.len()
        invariant
            radix == 10 || radix == 16,
            start <= i <= s@.len(),
            d == s@.skip(start as int),
            parse_u32_radix(s@, radix) == fold_digits(d, radix, 0),
            fold_digits(d, radix, 0) == fold_digits(s@.skip(i as int), radix, acc),
        decreases s.len() - i,
    {
        let c = s[i];
        assert(s@.skip(i as int)[0] == c);
        let v: u32;
        if 0x30 <= c && c <= 0x39 {
            v = (c - 0x30) as u32;
        } else if radix == 16 && 0x61 <= c && c <= 0x66 {
            v = (c - 0x61 + 10) as u32;
        } else if radix == 16 && 0x41 <= c && c <= 0x46 {
            v = (c - 0x41 + 10) as u32;
        } else {
            assert(digit_value(c, radix) is None);
            assert(fold_digits(s@.skip(i as int), radix, acc) is None);
            return None;
        }
        assert(digit_value(c, radix) == Some(v));
        assert(s@.skip(i as int).drop_first() =~= s@.skip(i + 1));
        let m = acc.checked_mul(radix);
        match m {
            None => {
                assert(acc * radix + v > u32::MAX) by (nonlinear_arith)
                    requires
                        acc * radix > u32::MAX,
                        v >= 0,
                ;
                assert(fold_digits(s@.skip(i as int), radix, acc) is None);
                return None;
            },
            Some(m) => {
                match m.checked_add(v) {
                    None => {
                        assert(fold_digits(s@.skip(i as int), radix, acc) is None);
                        return None;
                    },
                    Some(n) => {
                        acc = n;
                    },
                }
            },
        }
        i += 1;
    }
    assert(s@.skip(i as int).len() == 0);
    Some(acc)
}

/// Parse a numeric character reference body (after `&#`) and convert it to UTF-8,
/// checking it against the XML `Char` production in strict mode.
fn decode_numeric_entity_impl(entity: &[u8], strict: bool) -> (r: Option<Vec<u8>>)
    ensures
        r matches Some(v) ==> {
            &&& numeric_ref_value(entity@) matches Some(cp)
            &&& is_scalar(cp)
            &&& (strict ==> spec_is_valid_xml_char(cp))
            &&& v@ == encode_scalar(cp)
        },
        r is None ==> match numeric_ref_value(entity@) {
            Some(cp) => !is_scalar(cp) || (strict && !spec_is_valid_xml_char(cp)),
            None => true,
        },
{
    if entity.len() == 0 {
        return None;
    }
    let codepoint = if entity[0] == 0x78 || entity[0] == 0x58 {
        let hex = &entity[1..entity.len()];
        assert(hex@ =~= entity@.drop_first());
        match parse_u32(hex, 16) {
            Some(c) => c,
            None => {
                return None;
            },
        }
    } else {
        match parse_u32(entity, 10) {
            Some(c) => c,
            None => {
                return None;
            },
        }
    };
    if strict && !is_valid_xml_char(codepoint) {
        return None;
    }
    encode_utf8_scalar(codepoint)
}

/// The UTF-8 bytes of a code point (as `char::from_u32` then `char::to_string` give
/// them), or `None` when the value is not a Unicode scalar.
pub fn encode_utf8_scalar(cp: u32) -> (r: Option<Vec<u8>>)
    ensures
        r is Some <==> is_scalar(cp),
        r matches Some(v) ==> v@ == encode_scalar(cp),
{
    let mut v: Vec<u8> = Vec::new();
    if cp <= 0x7F {
        v.push((cp & 0x7F) as u8);
    } else if cp <= 0x7FF {
        v.push(0xC0 | ((cp >> 6) & 0x1F) as u8);
        v.push(0x80 | (cp & 0x3F) as u8);
    } else if cp <= 0xFFFF {
        if 0xD800 <= cp && cp <= 0xDFFF {
            return None;
        }
        v.push(0xE0 | ((cp >> 12) & 0x0F) as u8);
        v.push(0x80 | ((cp >> 6) & 0x3F) as u8);
        v.push(0x80 | (cp & 0x3F) as u8);
    } else if cp <= 0x10FFFF {
        v.push(0xF0 | ((cp >> 18) & 0x7) as u8);
        v.push(0x80 | ((cp >> 12) & 0x3F) as u8);
        v.push(0x80 | ((cp >> 6) & 0x3F) as u8);
        v.push(0x80 | (cp & 0x3F) as u8);
    } else {
        return None;
    }
    assert(v@ =~= encode_scalar(cp));
    Some(v)
}

/// Code point of a built-in entity name.
pub(crate) fn builtin_entity_cp(entity: &[u8]) -> (r: Option<u32>)
    ensures
        r == builtin_entity(entity@),
{
    if bytes_eq(entity, &[0x6C, 0x74]) {
        Some(0x3C)
    } else if bytes_eq(entity, &[0x67, 0x74]) {
        Some(0x3E)
    } else if bytes_eq(entity, &[0x61, 0x6D, 0x70]) {
        Some(0x26)
    } else if bytes_eq(entity, &[0x71, 0x75, 0x6F, 0x74]) {
        Some(0x22)
    } else if bytes_eq(entity, &[0x61, 0x70, 0x6F, 0x73]) {
        Some(0x27)
    } else {
        None
    }
}

/// An entity reference `&name;` from `i` to `k` (the first `;` after `i`) whose name is
/// neither numeric nor one of the five built-in names: a reference that this library
/// cannot expand.
pub open spec fn unknown_ref_at(s: Seq<u8>, i: int, k: int) -> bool {
    &&& 0 <= i && i + 1 < k && k < s.len()
    &&& s[i] == AMP()
    &&& s[k] == SEMI()
    &&& forall|j: int| i < j < k ==> s[j] != SEMI()
    &&& s[i + 1] != 0x23
    &&& builtin_entity(s.subrange(i + 1, k)) is None
}

/// Decode a single entity (without & and ;) in lenient mode.
pub fn decode_entity(entity: &[u8]) -> (r: Option<Vec<u8>>)
    ensures
        r matches Some(v) ==> entity_value(entity@) == Some(v@),
        r is None ==> entity_value(entity@) is None,
{
    if entity.len() == 0 {
        return None;
    }
    if entity[0] == 0x23 {
        let num = &entity[1..entity.len()];
        assert(num@ =~= entity@.drop_first());
        return decode_numeric_entity_impl(num, false);
    }
    match builtin_entity_cp(entity) {
        Some(cp) => encode_utf8_scalar(cp),
        None => None,
    }
}

/// Decode a single entity with strict validation.
fn decode_entity_strict(entity: &[u8]) -> (r: Result<Option<Vec<u8>>, &'static str>)
    ensures
        match r {
            Ok(Some(v)) => entity_value_strict(entity@) == Ok::<Option<Seq<u8>>, &'static str>(
                Some(v@),
            ),
            Ok(None) => entity_value_strict(entity@) == Ok::<Option<Seq<u8>>, &'static str>(
                None,
            ),
            Err(m) => entity_value_strict(entity@) == Err::<Option<Seq<u8>>, &'static str>(m),
        },
{
    if entity.len() == 0 {
        return Ok(None);
    }
    if entity[0] == 0x23 {
        let num = &entity[1..entity.len()];
        assert(num@ =~= entity@.drop_first());
        match decode_numeric_entity_impl(num, true) {
            Some(s) => Ok(Some(s)),
            None => Err("Invalid character reference"),
        }
    } else {
        match builtin_entity_cp(entity) {
            Some(cp) => match encode_utf8_scalar(cp) {
                Some(v) => Ok(Some(v)),
                None => Ok(None),
            },
            None => Ok(None),
        }
    }
}

fn push_all(result: &mut Vec<u8>, bytes: &[u8])
    ensures
        final(result)@ == old(result)@ + bytes@,
{
    let mut i: usize = 0;
    while i < bytes.len()
        invariant
            i <= bytes@.len(),
            result@ == old(result)@ + bytes@.take(i as int),
        decreases bytes.len() - i,
    {
        result.push(bytes[i]);
        assert(bytes@.take(i + 1) =~= bytes@.take(i as int).push(bytes@[i as int]));
        i += 1;
    }
    assert(bytes@.take(i as int) =~= bytes@);
}

/// Decode all entity references in the input.
pub fn decode_entities(input: &[u8]) -> (r: Vec<u8>)
    ensures
        r@ == decoded(input@),
{
    let mut result: Vec<u8> = Vec::with_capacity(input.len());
    let mut pos: usize = 0;
    assert(input@.skip(0) =~= input@);
    assert(result@ + decoded(input@) =~= decoded(input@));
    proof {
        match decoded_strict(input@) {
            Ok(r) => {
                assert(result@ + r =~= r);
            },
            Err(m) => {},
        }
    }
    while pos < input.len()
        invariant
            pos <= input@.len(),
            result@ + decoded(input@.skip(pos as int)) == decoded(input@),
        decreases input.len() - pos,
    {
        let rest = &input[pos..input.len()];
        let ghost s = input@.skip(pos as int);
        assert(rest@ =~= s);
        match memchr(0x26, rest) {
            Some(amp_pos) => {
                let plain = &rest[0..amp_pos];
                push_all(&mut result, plain);
                proof {
                    assert(plain@ =~= s.take(amp_pos as int));
                    lemma_decoded_plain_prefix(s, amp_pos as int);
                    assert(s.skip(amp_pos as int) =~= input@.skip(pos + amp_pos));
                    assert(result@ + decoded(input@.skip(pos + amp_pos)) =~= decoded(input@));
                }
                pos += amp_pos;
                let rest2 = &input[pos..input.len()];
                let ghost t = input@.skip(pos as int);
                assert(rest2@ =~= t);
                assert(t[0] == AMP());
                match memchr(0x3B, rest2) {
                    Some(semi_offset) => {
                        proof {
                            lemma_first_index_is_index_of(t, SEMI(), semi_offset as int);
                        }
                        let entity = &input[pos + 1..pos + semi_offset];
                        assert(entity@ =~= t.subrange(1, semi_offset as int));
                        match decode_entity(entity) {
                            Some(decoded_bytes) => {
                                push_all(&mut result, decoded_bytes.as_slice());
                                assert(t.skip(semi_offset + 1) =~= input@.skip(
                                    pos + semi_offset + 1,
                                ));
                                pos += semi_offset + 1;
                            },
                            None => {
                                result.push(0x26);
                                assert(t.drop_first() =~= input@.skip(pos + 1));
                                pos += 1;
                            },
                        }
                    },
                    None => {
                        proof {
                            lemma_index_of(t, SEMI());
                        }
                        result.push(0x26);
                        assert(t.drop_first() =~= input@.skip(pos + 1));
                        pos += 1;
                    },
                }
            },
            None => {
                push_all(&mut result, rest);
                proof {
                    lemma_decoded_no_amp(s);
                    assert(input@.skip(input@.len() as int) =~= Seq::<u8>::empty());
                }
                pos = input.len();
            },
        }
    }
    assert(input@.skip(pos as int) =~= Seq::<u8>::empty());
    assert(result@ + Seq::<u8>::empty() =~= result@);
    result
}

/// Decode all entity references with strict XML character validation.
#[verifier::rlimit(80)]
fn decode_entities_strict(input: &[u8]) -> (r: Result<Vec<u8>, &'static str>)
    ensures
        match r {
            Ok(v) => decoded_strict(input@) == Ok::<Seq<u8>, &'static str>(v@),
            Err(m) => decoded_strict(input@) == Err::<Seq<u8>, &'static str>(m),
        },
{
    let mut result: Vec<u8> = Vec::with_capacity(input.len());
    let mut pos: usize = 0;
    assert(input@.skip(0) =~= input@);
    assert(result@ + decoded(input@) =~= decoded(input@));
    proof {
        match decoded_strict(input@) {
            Ok(r) => {
                assert(result@ + r =~= r);
            },
            Err(m) => {},
        }
    }
    while pos < input.len()
        invariant
            pos <= input@.len(),
            decoded_strict(input@) == (match decoded_strict(input@.skip(pos as int)) {
                Ok(r) => Ok(result@ + r),
                Err(m) => Err(m),
            }),
        decreases input.len() - pos,
    {
        let rest = &input[pos..input.len()];
        let ghost s = input@.skip(pos as int);
        let ghost old_result = result@;
        assert(rest@ =~= s);
        match memchr(0x26, rest) {
            Some(amp_pos) => {
                let plain = &rest[0..amp_pos];
                push_all(&mut result, plain);
                proof {
                    assert(plain@ =~= s.take(amp_pos as int));
                    lemma_decoded_strict_plain_prefix(s, amp_pos as int);
                    assert(s.skip(amp_pos as int) =~= input@.skip(pos + amp_pos));
                    match decoded_strict(s.skip(amp_pos as int)) {
                        Ok(r) => {
                            assert(old_result + (s.take(amp_pos as int) + r) =~= result@ + r);
                        },
                        Err(m) => {},
                    }
                }
                pos += amp_pos;
                let rest2 = &input[pos..input.len()];
                let ghost t = input@.skip(pos as int);
                let ghost mid_result = result@;
                assert(rest2@ =~= t);
                assert(t[0] == AMP());
                match memchr(0x3B, rest2) {
                    Some(semi_offset) => {
                        proof {
                            lemma_first_index_is_index_of(t, SEMI(), semi_offset as int);
                        }
                        let entity = &input[pos + 1..pos + semi_offset];
                        assert(entity@ =~= t.subrange(1, semi_offset as int));
                        match decode_entity_strict(entity) {
                            Err(m) => {
                                return Err(m);
                            },
                            Ok(Some(decoded_bytes)) => {
                                push_all(&mut result, decoded_bytes.as_slice());
                                assert(t.skip(semi_offset + 1) =~= input@.skip(
                                    pos + semi_offset + 1,
                                ));
                                proof {
                                    match decoded_strict(t.skip(semi_offset + 1)) {
                                        Ok(r) => {
                                            assert(mid_result + (decoded_bytes@ + r)
                                                =~= result@ + r);
                                        },
                                        Err(m) => {},
                                    }
                                }
                                pos += semi_offset + 1;
                            },
                            Ok(None) => {
                                result.push(0x26);
                                assert(t.drop_first() =~= input@.skip(pos + 1));
                                proof {
                                    match decoded_strict(t.drop_first()) {
                                        Ok(r) => {
                                            assert(mid_result + (seq![AMP()] + r) =~= result@
                                                + r);
                                        },
                                        Err(m) => {},
                                    }
                                }
                                pos += 1;
                            },
                        }
                    },
                    None => {
                        proof {
                            lemma_index_of(t, SEMI());
                        }
                        result.push(0x26);
                        assert(t.drop_first() =~= input@.skip(pos + 1));
                        proof {
                            match decoded_strict(t.drop_first()) {
                                Ok(r) => {
                                    assert(mid_result + (seq![AMP()] + r) =~= result@ + r);
                                },
                                Err(m) => {},
                            }
                        }
                        pos += 1;
                    },
                }
            },
            None => {
                push_all(&mut result, rest);
                proof {
                    lemma_decoded_no_amp(s);
                    assert(input@.skip(input@.len() as int) =~= Seq::<u8>::empty());
                    assert(old_result + s + Seq::<u8>::empty() =~= result@ + Seq::<u8>::empty());
                }
                pos = input.len();
            },
        }
    }
    assert(input@.skip(pos as int) =~= Seq::<u8>::empty());
    assert(result@ + Seq::<u8>::empty() =~= result@);
    Ok(result)
}

/// Decode text content, handling entity references.
///
/// Returns Borrowed if no entities present (zero-copy), returns Owned if entities were
/// decoded.
pub fn decode_text(input: &[u8]) -> (r: Cow<'_, [u8]>)
    ensures
        r@ == decoded(input@),
        r is Borrowed <==> no_amp(input@),
        r matches Cow::Borrowed(b) ==> b@ == input@,
{
    match memchr(0x26, input) {
        None => {
            proof {
                lemma_decoded_no_amp(input@);
            }
            Cow::Borrowed(input)
        },
        Some(_) => Cow::Owned(decode_entities(input)),
    }
}

/// Whether every byte of `s` may stand in XML content.
pub open spec fn all_valid_xml_bytes(s: Seq<u8>) -> bool {
    forall|j: int| 0 <= j < s.len() ==> spec_is_valid_xml_byte(s[j])
}

/// The outcome of strict text decoding: a byte that XML does not allow fails first;
/// otherwise the strict decoding of entities.
pub open spec fn text_strict(s: Seq<u8>) -> Result<Seq<u8>, &'static str> {
    if !all_valid_xml_bytes(s) {
        Err("Invalid XML character in content")
    } else {
        decoded_strict(s)
    }
}

/// Decode text content in strict mode.
/// Returns Err if any character reference refers to an invalid XML character.
pub fn decode_text_strict(input: &[u8]) -> (r: Result<Cow<'_, [u8]>, &'static str>)
    ensures
        match r {
            Ok(c) => text_strict(input@) == Ok::<Seq<u8>, &'static str>(c@),
            Err(m) => text_strict(input@) == Err::<Seq<u8>, &'static str>(m),
        },
        r matches Ok(Cow::Borrowed(b)) ==> b@ == input@,
        r matches Ok(c) ==> (c is Borrowed <==> no_amp(input@)),
{
    let mut i: usize = 0;
    while i < input.len()
        invariant
            i <= input@.len(),
            forall|j: int| 0 <= j < i ==> spec_is_valid_xml_byte(input@[j]),
        decreases input.len() - i,
    {
        if !is_valid_xml_byte(input[i]) {
            return Err("Invalid XML character in content");
        }
        i += 1;
    }
    match memchr(0x26, input) {
        None => {
            proof {
                lemma_decoded_no_amp(input@);
            }
            Ok(Cow::Borrowed(input))
        },
        Some(_) => match decode_entities_strict(input) {
            Ok(v) => Ok(Cow::Owned(v)),
            Err(m) => Err(m),
        },
    }
}

// =============================================================================
// Encoding
// =============================================================================
/// Characters that are escaped on output.
pub open spec fn needs_escape(c: char) -> bool {
    c == '<' || c == '>' || c == '&' || c == '"' || c == '\''
}

/// The replacement text of one character.
pub open spec fn escape_char(c: char) -> Seq<char> {
    if c == '<' {
        seq!['&', 'l', 't', ';']
    } else if c == '>' {
        seq!['&', 'g', 't', ';']
    } else if c == '&' {
        seq!['&', 'a', 'm', 'p', ';']
    } else if c == '"' {
        seq!['&', 'q', 'u', 'o', 't', ';']
    } else if c == '\'' {
        seq!['&', 'a', 'p', 'o', 's', ';']
    } else {
        seq![c]
    }
}

/// Text with each special character replaced by its entity.
pub open spec fn escaped(s: Seq<char>) -> Seq<char>
    decreases s.len(),
{
    if s.len() == 0 {
        seq![]
    } else {
        escape_char(s[0]) + escaped(s.drop_first())
    }
}

proof fn lemma_escaped_snoc(s: Seq<char>, c: char)
    ensures
        escaped(s.push(c)) == escaped(s) + escape_char(c),
    decreases s.len(),
{
    if s.len() == 0 {
        assert(s.push(c) =~= seq![c]);
        assert(seq![c].drop_first() =~= Seq::<char>::empty());
        assert(escaped(Seq::<char>::empty()) == Seq::<char>::empty());
        assert(escaped(seq![c]) == escape_char(c) + escaped(Seq::<char>::empty()));
        assert(s.push(c).drop_first() =~= Seq::<char>::empty());
        assert(escape_char(c) + Seq::<char>::empty() =~= escape_char(c));
        assert(Seq::<char>::empty() + escape_char(c) =~= escape_char(c));
    } else {
        assert(s.push(c).drop_first() =~= s.drop_first().push(c));
        lemma_escaped_snoc(s.drop_first(), c);
        assert(escape_char(s[0]) + (escaped(s.drop_first()) + escape_char(c)) =~= (escape_char(
            s[0],
        ) + escaped(s.drop_first())) + escape_char(c));
    }
}

proof fn lemma_escaped_plain(s: Seq<char>)
    requires
        forall|j: int| 0 <= j < s.len() ==> !needs_escape(s[j]),
    ensures
        escaped(s) == s,
    decreases s.len(),
{
    if s.len() > 0 {
        lemma_escaped_plain(s.drop_first());
        assert(seq![s[0]] + s.drop_first() =~= s);
    }
}

/// Encode text for XML output (escape special characters).
pub fn encode_text(input: &str) -> (r: Cow<'_, str>)
    ensures
        r@ == escaped(input@),
        r is Borrowed <==> (forall|j: int| 0 <= j < input@.len() ==> !needs_escape(input@[j])),
{
    let n = input.unicode_len();
    let mut i: usize = 0;
    let mut any = false;
    while i < n
        invariant
            n == input@.len(),
            i <= n,
            !any ==> forall|j: int| 0 <= j < i ==> !needs_escape(input@[j]),
            any ==> exists|j: int| 0 <= j < n && needs_escape(input@[j]),
        decreases n - i,
    {
        let c = input.get_char(i);
        if c == '<' || c == '>' || c == '&' || c == '"' || c == '\'' {
            any = true;
        }
        i += 1;
    }
    if !any {
        proof {
            lemma_escaped_plain(input@);
        }
        return Cow::Borrowed(input);
    }
    let mut result = String::new();
    let mut run_start: usize = 0;
    let mut i: usize = 0;
    while i < n
        invariant
            n == input@.len(),
            run_start <= i <= n,
            result@ + input@.subrange(run_start as int, i as int) == escaped(input@.take(i as int)),
            forall|j: int| run_start <= j < i ==> !needs_escape(input@[j]),
        decreases n - i,
    {
        let c = input.get_char(i);
        proof {
            assert(input@.take(i + 1) =~= input@.take(i as int).push(c));
            lemma_escaped_snoc(input@.take(i as int), c);
        }
        if c == '<' || c == '>' || c == '&' || c == '"' || c == '\'' {
            let run = input.substring_char(run_start, i);
            result.append(run);
            if c == '<' {
                proof {
                    reveal_strlit("&lt;");
                }
                result.append("&lt;");
            } else if c == '>' {
                proof {
                    reveal_strlit("&gt;");
                }
                result.append("&gt;");
            } else if c == '&' {
                proof {
                    reveal_strlit("&amp;");
                }
                result.append("&amp;");
            } else if c == '"' {
                proof {
                    reveal_strlit("&quot;");
                }
                result.append("&quot;");
            } else {
                proof {
                    reveal_strlit("&apos;");
                }
                result.append("&apos;");
            }
            run_start = i + 1;
            assert(input@.subrange(run_start as int, i + 1) =~= Seq::<char>::empty());
            assert(result@ + input@.subrange(run_start as int, i + 1) =~= escaped(
                input@.take(i + 1),
            ));
        } else {
            assert(input@.subrange(run_start as int, i + 1) =~= input@.subrange(
                run_start as int,
                i as int,
            ).push(c));
        }
        i += 1;
    }
    let run = input.substring_char(run_start, n);
    result.append(run);
    assert(input@.take(n as int) =~= input@);
    Cow::Owned(result)
}

/// Encode text for use in XML attributes.
pub fn encode_attribute(input: &str) -> (r: Cow<'_, str>)
    ensures
        r@ == escaped(input@),
{
    encode_text(input)
}

// =============================================================================
// Round trip
// =============================================================================
proof fn lemma_encode_utf8_concat(a: Seq<char>, b: Seq<char>)
    ensures
        encode_utf8(a + b) == encode_utf8(a) + encode_utf8(b),
    decreases a.len(),
{
    if a.len() == 0 {
        assert(a + b =~= b);
        assert(encode_utf8(a) =~= Seq::<u8>::empty());
        assert(Seq::<u8>::empty() + encode_utf8(b) =~= encode_utf8(b));
    } else {
        assert((a + b).drop_first() =~= a.drop_first() + b);
        assert((a + b)[0] == a[0]);
        lemma_encode_utf8_concat(a.drop_first(), b);
        assert(encode_scalar(a[0] as u32) + (encode_utf8(a.drop_first()) + encode_utf8(b))
            =~= (encode_scalar(a[0] as u32) + encode_utf8(a.drop_first())) + encode_utf8(b));
    }
}

proof fn lemma_encode_ascii(c: char)
    requires
        (c as u32) < 0x80,
    ensures
        encode_scalar(c as u32) == seq![(c as u32) as u8],
{
    let v = c as u32;
    assert(v < 0x80 ==> (v & 0x7F) == v) by (bit_vector);
}

proof fn lemma_encode4(a: char, b: char, c: char, d: char)
    requires
        (a as u32) < 0x80,
        (b as u32) < 0x80,
        (c as u32) < 0x80,
        (d as u32) < 0x80,
    ensures
        encode_utf8(seq![a, b, c, d]) == seq![(a as u32) as u8, (b as u32) as u8, (c as u32) as u8, (d as u32) as u8],
{
    lemma_encode_ascii(a);
    lemma_encode_ascii(b);
    lemma_encode_ascii(c);
    lemma_encode_ascii(d);
    reveal_with_fuel(encode_utf8, 5);
    assert(seq![a, b, c, d].drop_first() =~= seq![b, c, d]);
    assert(seq![b, c, d].drop_first() =~= seq![c, d]);
    assert(seq![c, d].drop_first() =~= seq![d]);
    assert(seq![d].drop_first() =~= Seq::<char>::empty());
    assert(encode_utf8(seq![a, b, c, d]) =~= seq![(a as u32) as u8, (b as u32) as u8, (c as u32) as u8, (d as u32) as u8]);
}

proof fn lemma_encode5(a: char, b: char, c: char, d: char, e: char)
    requires
        (a as u32) < 0x80,
        (b as u32) < 0x80,
        (c as u32) < 0x80,
        (d as u32) < 0x80,
        (e as u32) < 0x80,
    ensures
        encode_utf8(seq![a, b, c, d, e]) == seq![(a as u32) as u8, (b as u32) as u8, (c as u32) as u8, (d as u32) as u8, (e as u32) as u8],
{
    lemma_encode_ascii(a);
    lemma_encode4(b, c, d, e);
    assert(seq![a, b, c, d, e].drop_first() =~= seq![b, c, d, e]);
    assert(encode_utf8(seq![a, b, c, d, e]) =~= seq![(a as u32) as u8, (b as u32) as u8, (c as u32) as u8, (d as u32) as u8, (e as u32) as u8]);
}

proof fn lemma_encode6(a: char, b: char, c: char, d: char, e: char, f: char)
    requires
        (a as u32) < 0x80,
        (b as u32) < 0x80,
        (c as u32) < 0x80,
        (d as u32) < 0x80,
        (e as u32) < 0x80,
        (f as u32) < 0x80,
    ensures
        encode_utf8(seq![a, b, c, d, e, f]) == seq![(a as u32) as u8, (b as u32) as u8, (c as u32) as u8, (d as u32) as u8, (e as u32) as u8, (f as u32) as u8],
{
    lemma_encode_ascii(a);
    lemma_encode5(b, c, d, e, f);
    assert(seq![a, b, c, d, e, f].drop_first() =~= seq![b, c, d, e, f]);
    assert(encode_utf8(seq![a, b, c, d, e, f]) =~= seq![(a as u32) as u8, (b as u32) as u8, (c as u32) as u8, (d as u32) as u8, (e as u32) as u8, (f as u32) as u8]);
}

/// The UTF-8 encoding of a character other than `&` holds no `&` byte.
proof fn lemma_encode_scalar_no_amp(c: char)
    requires
        c != '&',
    ensures
        no_amp(encode_scalar(c as u32)),
{
    let v = c as u32;
    assert(0xC0u8 | ((v >> 6) & 0x1F) as u8 >= 0x80) by (bit_vector);
    assert(0xE0u8 | ((v >> 12) & 0x0F) as u8 >= 0x80) by (bit_vector);
    assert(0xF0u8 | ((v >> 18) & 0x7) as u8 >= 0x80) by (bit_vector);
    assert(0x80u8 | (v & 0x3F) as u8 >= 0x80) by (bit_vector);
    assert(0x80u8 | ((v >> 6) & 0x3F) as u8 >= 0x80) by (bit_vector);
    assert(0x80u8 | ((v >> 12) & 0x3F) as u8 >= 0x80) by (bit_vector);
    assert(v <= 0x7F ==> (v & 0x7F) as u8 == v as u8 && v == (v as u8) as u32) by (bit_vector);
}

/// The bytes of an escape sequence `&name;` followed by `rest` decode to the escaped
/// character followed by the decoding of `rest`.
proof fn lemma_decode_escape(e: Seq<u8>, name: Seq<u8>, cp: u32, rest: Seq<u8>)
    requires
        e.len() == name.len() + 2,
        e[0] == AMP(),
        e[e.len() - 1] == SEMI(),
        e.subrange(1, e.len() - 1) == name,
        forall|j: int| 0 <= j < name.len() ==> name[j] != SEMI(),
        builtin_entity(name) == Some(cp),
        name[0] != 0x23,
    ensures
        decoded(e + rest) == encode_scalar(cp) + decoded(rest),
{
    let s = e + rest;
    let k = e.len() - 1;
    assert(is_first_index(s, SEMI(), k)) by {
        assert forall|j: int| 0 <= j < k implies s[j] != SEMI() by {
            if j > 0 {
                assert(s[j] == name[j - 1]);
            }
        }
    }
    lemma_first_index_is_index_of(s, SEMI(), k);
    assert(s.subrange(1, k) =~= name);
    assert(s.skip(k + 1) =~= rest);
    assert(s[0] == AMP());
}

/// Escaping text for XML output and then decoding it gives back the original text:
/// `decode_text(encode_text(s)) == s`, stated over the UTF-8 bytes of both strings.
pub proof fn lemma_decode_encode_roundtrip(s: Seq<char>)
    ensures
        decoded(encode_utf8(escaped(s))) == encode_utf8(s),
    decreases s.len(),
{
    if s.len() == 0 {
        assert(encode_utf8(Seq::<char>::empty()) =~= Seq::<u8>::empty());
    } else {
        let c = s[0];
        let rest = s.drop_first();
        lemma_decode_encode_roundtrip(rest);
        lemma_encode_utf8_concat(escape_char(c), escaped(rest));
        let r = encode_utf8(escaped(rest));
        assert(encode_utf8(s) == encode_scalar(c as u32) + encode_utf8(rest));
        if c == '<' {
            lemma_encode4('&', 'l', 't', ';');
            assert(seq![0x26u8, 0x6C, 0x74, 0x3B].subrange(1, seq![0x26u8, 0x6C, 0x74, 0x3B].len() - 1) =~= seq![0x6Cu8, 0x74]);
            lemma_decode_escape(seq![0x26u8, 0x6C, 0x74, 0x3B], seq![0x6Cu8, 0x74], 0x3C, r);
            lemma_encode_ascii(c);
        } else if c == '>' {
            lemma_encode4('&', 'g', 't', ';');
            assert(seq![0x26u8, 0x67, 0x74, 0x3B].subrange(1, seq![0x26u8, 0x67, 0x74, 0x3B].len() - 1) =~= seq![0x67u8, 0x74]);
            lemma_decode_escape(seq![0x26u8, 0x67, 0x74, 0x3B], seq![0x67u8, 0x74], 0x3E, r);
            lemma_encode_ascii(c);
        } else if c == '&' {
            lemma_encode5('&', 'a', 'm', 'p', ';');
            assert(seq![0x26u8, 0x61, 0x6D, 0x70, 0x3B].subrange(1, seq![0x26u8, 0x61, 0x6D, 0x70, 0x3B].len() - 1) =~= seq![0x61u8, 0x6D, 0x70]);
            lemma_decode_escape(seq![0x26u8, 0x61, 0x6D, 0x70, 0x3B], seq![0x61u8, 0x6D, 0x70], 0x26, r);
            lemma_encode_ascii(c);
        } else if c == '"' {
            lemma_encode6('&', 'q', 'u', 'o', 't', ';');
            assert(seq![0x26u8, 0x71, 0x75, 0x6F, 0x74, 0x3B].subrange(1, seq![0x26u8, 0x71, 0x75, 0x6F, 0x74, 0x3B].len() - 1) =~= seq![0x71u8, 0x75, 0x6F, 0x74]);
            lemma_decode_escape(seq![0x26u8, 0x71, 0x75, 0x6F, 0x74, 0x3B], seq![0x71u8, 0x75, 0x6F, 0x74], 0x22, r);
            lemma_encode_ascii(c);
        } else if c == '\'' {
            lemma_encode6('&', 'a', 'p', 'o', 's', ';');
            assert(seq![0x26u8, 0x61, 0x70, 0x6F, 0x73, 0x3B].subrange(1, seq![0x26u8, 0x61, 0x70, 0x6F, 0x73, 0x3B].len() - 1) =~= seq![0x61u8, 0x70, 0x6F, 0x73]);
            lemma_decode_escape(seq![0x26u8, 0x61, 0x70, 0x6F, 0x73, 0x3B], seq![0x61u8, 0x70, 0x6F, 0x73], 0x27, r);
            lemma_encode_ascii(c);
        } else {
            let e = encode_scalar(c as u32);
            assert(escape_char(c) == seq![c]);
            assert(seq![c].drop_first() =~= Seq::<char>::empty());
            assert(seq![c][0] == c);
            assert(encode_utf8(seq![c]) == e + encode_utf8(Seq::<char>::empty()));
            assert(encode_utf8(seq![c]) =~= e);
            lemma_encode_scalar_no_amp(c);
            assert((e + r).take(e.len() as int) =~= e);
            lemma_decoded_plain_prefix(e + r, e.len() as int);
            assert((e + r).skip(e.len() as int) =~= r);
        }
    }
}

} // verus!
