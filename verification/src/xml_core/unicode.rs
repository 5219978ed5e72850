//! XML 1.0 name validation over UTF-8 bytes.
//!
//! `Name ::= NameStartChar (NameChar)*` with the character classes of XML 1.0
//! (fifth edition), decoding the UTF-8 encoding of the name one character at a time.

use vstd::prelude::*;

use super::entities::{cp2, cp3, cp4, is_cont};

verus! {

/// XML 1.0 `NameStartChar`.
pub open spec fn spec_is_name_start_cp(c: u32) -> bool {
    c == 0x3A || (0x41 <= c && c <= 0x5A) || c == 0x5F || (0x61 <= c && c <= 0x7A) || (0xC0 <= c
        && c <= 0xD6) || (0xD8 <= c && c <= 0xF6) || (0xF8 <= c && c <= 0x2FF) || (0x370 <= c
        && c <= 0x37D) || (0x37F <= c && c <= 0x1FFF) || (0x200C <= c && c <= 0x200D) || (0x2070
        <= c && c <= 0x218F) || (0x2C00 <= c && c <= 0x2FEF) || (0x3001 <= c && c <= 0xD7FF) || (
    0xF900 <= c && c <= 0xFDCF) || (0xFDF0 <= c && c <= 0xFFFD) || (0x10000 <= c && c <= 0xEFFFF)
}

/// XML 1.0 `NameChar`.
pub open spec fn spec_is_name_cp(c: u32) -> bool {
    spec_is_name_start_cp(c) || c == 0x2D || c == 0x2E || (0x30 <= c && c <= 0x39) || c == 0xB7
        || (0x300 <= c && c <= 0x36F) || (0x203F <= c && c <= 0x2040)
}

pub fn is_name_start_cp(c: u32) -> (r: bool)
    ensures
        r == spec_is_name_start_cp(c),
{
    c == 0x3A || (0x41 <= c && c <= 0x5A) || c == 0x5F || (0x61 <= c && c <= 0x7A) || (0xC0 <= c
        && c <= 0xD6) || (0xD8 <= c && c <= 0xF6) || (0xF8 <= c && c <= 0x2FF) || (0x370 <= c
        && c <= 0x37D) || (0x37F <= c && c <= 0x1FFF) || (0x200C <= c && c <= 0x200D) || (0x2070
        <= c && c <= 0x218F) || (0x2C00 <= c && c <= 0x2FEF) || (0x3001 <= c && c <= 0xD7FF) || (
    0xF900 <= c && c <= 0xFDCF) || (0xFDF0 <= c && c <= 0xFFFD) || (0x10000 <= c && c <= 0xEFFFF)
}

pub fn is_name_cp(c: u32) -> (r: bool)
    ensures
        r == spec_is_name_cp(c),
{
    is_name_start_cp(c) || c == 0x2D || c == 0x2E || (0x30 <= c && c <= 0x39) || c == 0xB7 || (
    0x300 <= c && c <= 0x36F) || (0x203F <= c && c <= 0x2040)
}

/// The first UTF-8 encoded character of `s` as (code point, byte length), or `None`
/// when `s` does not begin with a well-formed sequence.
pub open spec fn first_char(s: Seq<u8>) -> Option<(u32, int)> {
    if s.len() == 0 {
        None
    } else if s[0] < 0x80 {
        Some((s[0] as u32, 1))
    } else if s[0] < 0xC0 {
        None
    } else if s[0] < 0xE0 {
        if s.len() >= 2 && is_cont(s[1]) {
            Some((cp2(s[0], s[1]), 2))
        } else {
            None
        }
    } else if s[0] < 0xF0 {
        if s.len() >= 3 && is_cont(s[1]) && is_cont(s[2]) {
            Some((cp3(s[0], s[1], s[2]), 3))
        } else {
            None
        }
    } else if s[0] < 0xF8 {
        if s.len() >= 4 && is_cont(s[1]) && is_cont(s[2]) && is_cont(s[3]) {
            Some((cp4(s[0], s[1], s[2], s[3]), 4))
        } else {
            None
        }
    } else {
        None
    }
}

/// Checks the characters of a name from the front; `first` marks the start character.
pub open spec fn name_check(s: Seq<u8>, first: bool) -> Result<(), &'static str>
    decreases s.len(),
{
    if s.len() == 0 {
        if first {
            Err("Name cannot be empty")
        } else {
            Ok(())
        }
    } else {
        match first_char(s) {
            None => Err("Invalid UTF-8 in name"),
            Some((c, n)) => if first && !spec_is_name_start_cp(c) {
                Err("Invalid name start character")
            } else if !first && !spec_is_name_cp(c) {
                Err("Invalid name character")
            } else {
                name_check(s.skip(n), false)
            },
        }
    }
}

/// Decode the UTF-8 character starting at `pos`.
fn decode_char_at(s: &[u8], pos: usize) -> (r: Option<(u32, usize)>)
    requires
        pos < s@.len(),
    ensures
        match first_char(s@.skip(pos as int)) {
            Some((c, n)) => r == Some((c, n as usize)),
            None => r is None,
        },
{
    let ghost t = s@.skip(pos as int);
    let b = s[pos];
    assert(t[0] == b);
    if b < 0x80 {
        Some((b as u32, 1))
    } else if b < 0xC0 {
        None
    } else if b < 0xE0 {
        if s.len() - pos >= 2 && s[pos + 1] & 0xC0 == 0x80 {
            assert(t[1] == s@[pos + 1]);
            let c1 = s[pos + 1];
            Some((((b as u32 & 0x1F) << 6) | (c1 as u32 & 0x3F), 2))
        } else {
            None
        }
    } else if b < 0xF0 {
        if s.len() - pos >= 3 && s[pos + 1] & 0xC0 == 0x80 && s[pos + 2] & 0xC0 == 0x80 {
            assert(t[1] == s@[pos + 1] && t[2] == s@[pos + 2]);
            let c1 = s[pos + 1];
            let c2 = s[pos + 2];
            Some((((b as u32 & 0x0F) << 12) | ((c1 as u32 & 0x3F) << 6) | (c2 as u32 & 0x3F), 3))
        } else {
            None
        }
    } else if b < 0xF8 {
        if s.len() - pos >= 4 && s[pos + 1] & 0xC0 == 0x80 && s[pos + 2] & 0xC0 == 0x80 && s[pos
            + 3] & 0xC0 == 0x80 {
            assert(t[1] == s@[pos + 1] && t[2] == s@[pos + 2] && t[3] == s@[pos + 3]);
            let c1 = s[pos + 1];
            let c2 = s[pos + 2];
            let c3 = s[pos + 3];
            Some(
                (
                    ((b as u32 & 0x07) << 18) | ((c1 as u32 & 0x3F) << 12) | ((c2 as u32 & 0x3F)
                        << 6) | (c3 as u32 & 0x3F),
                    4,
                ),
            )
        } else {
            None
        }
    } else {
        None
    }
}

/// Validate an XML `Name`: a start character followed by name characters, all
/// well-formed UTF-8.
pub fn validate_name_fast(name: &[u8]) -> (r: Result<(), &'static str>)
    ensures
        r == name_check(name@, true),
{
    if name.len() == 0 {
        return Err("Name cannot be empty");
    }
    let mut pos: usize = 0;
    let mut first = true;
    assert(name@.skip(0) =~= name@);
    while pos < name.len()
        invariant
            pos <= name@.len(),
            first ==> pos == 0,
            name_check(name@, true) == name_check(name@.skip(pos as int), first),
            pos < name@.len() || !first,
        decreases name.len() - pos,
    {
        match decode_char_at(name, pos) {
            None => {
                return Err("Invalid UTF-8 in name");
            },
            Some((c, n)) => {
                if first && !is_name_start_cp(c) {
                    return Err("Invalid name start character");
                }
                if !first && !is_name_cp(c) {
                    return Err("Invalid name character");
                }
                assert(name@.skip(pos as int).skip(n as int) =~= name@.skip(pos + n));
                pos += n;
                first = false;
            },
        }
    }
    assert(name@.skip(pos as int).len() == 0);
    Ok(())
}

} // verus!
