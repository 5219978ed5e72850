//! XML Encoding Detection and Conversion
//!
//! Handles detection of UTF-16 and other encodings based on BOM and XML declaration.
//! Converts non-UTF-8 encodings to UTF-8 for parsing.

use vstd::prelude::*;
use vstd::utf8::*;

verus! {

/// Detect the encoding of XML input based on BOM or byte patterns
#[derive(Debug, Clone, Copy, PartialEq, Eq, Structural)]
pub enum XmlEncoding {
    Utf8,
    Utf16Le,
    Utf16Be,
}

/// The encoding that the first bytes of a document announce.
pub open spec fn spec_detect(s: Seq<u8>) -> XmlEncoding {
    if s.len() < 2 {
        XmlEncoding::Utf8
    } else if s[0] == 0xFF && s[1] == 0xFE {
        XmlEncoding::Utf16Le
    } else if s[0] == 0xFE && s[1] == 0xFF {
        XmlEncoding::Utf16Be
    } else if s[0] == 0x00 && s[1] == 0x3C {
        XmlEncoding::Utf16Be
    } else if s[0] == 0x3C && s[1] == 0x00 {
        XmlEncoding::Utf16Le
    } else {
        XmlEncoding::Utf8
    }
}

impl XmlEncoding {
    /// Detect encoding from byte order mark or initial bytes
    pub fn detect(input: &[u8]) -> (r: Self)
        ensures
            r == spec_detect(input@),
    {
        if input.len() < 2 {
            return XmlEncoding::Utf8;
        }
        let (a, b) = (input[0], input[1]);
        if a == 0xFF && b == 0xFE {
            XmlEncoding::Utf16Le
        } else if a == 0xFE && b == 0xFF {
            XmlEncoding::Utf16Be
        } else if a == 0xEF && b == 0xBB && input.len() >= 3 && input[2] == 0xBF {
            // UTF-8 BOM: treated as UTF-8
            XmlEncoding::Utf8
        } else if a == 0x00 && b == 0x3C {
            XmlEncoding::Utf16Be
        } else if a == 0x3C && b == 0x00 {
            XmlEncoding::Utf16Le
        } else {
            XmlEncoding::Utf8
        }
    }
}

/// UTF-16 decoding: units outside the surrogate range stand for themselves; a high
/// surrogate followed by a low surrogate stands for one supplementary character; any
/// other surrogate makes the input invalid.
pub open spec fn utf16_decode(u: Seq<u16>) -> Option<Seq<char>>
    decreases u.len(),
{
    if u.len() == 0 {
        Some(seq![])
    } else if u[0] < 0xD800 || u[0] > 0xDFFF {
        match utf16_decode(u.drop_first()) {
            Some(r) => Some(seq![u[0] as u32 as char] + r),
            None => None,
        }
    } else if u[0] <= 0xDBFF && u.len() >= 2 && 0xDC00 <= u[1] && u[1] <= 0xDFFF {
        let cp = 0x10000 + (u[0] - 0xD800) * 0x400 + (u[1] - 0xDC00);
        match utf16_decode(u.skip(2)) {
            Some(r) => Some(seq![cp as u32 as char] + r),
            None => None,
        }
    } else {
        None
    }
}

/// The error `String::from_utf16` reports.
#[verifier::external_type_specification]
#[verifier::external_body]
pub struct ExFromUtf16Error(std::string::FromUtf16Error);

/// `String::from_utf16`: the decoded text when the units are valid UTF-16, an error
/// otherwise.
#[verifier::external_body]
fn string_from_utf16(units: &[u16]) -> (r: Result<String, std::string::FromUtf16Error>)
    ensures
        r is Ok <==> utf16_decode(units@) is Some,
        r matches Ok(t) ==> t@ == utf16_decode(units@)->Some_0,
{
    String::from_utf16(units)
}

/// The text of a `FromUtf16Error` (its `Display`). What the text says is not stated.
#[verifier::external_body]
fn utf16_error_text(e: &std::string::FromUtf16Error) -> (r: String) {
    e.to_string()
}

/// The 16-bit code units of a byte sequence of even length, little or big endian.
pub open spec fn code_units(s: Seq<u8>, little_endian: bool) -> Seq<u16> {
    Seq::new(
        s.len() / 2,
        |i: int|
            if little_endian {
                (s[2 * i] + s[2 * i + 1] * 256) as u16
            } else {
                (s[2 * i] * 256 + s[2 * i + 1]) as u16
            },
    )
}

/// The bytes after a byte order mark `b0 b1`, or all bytes when there is none.
pub open spec fn after_bom(s: Seq<u8>, b0: u8, b1: u8) -> Seq<u8> {
    if s.len() >= 2 && s[0] == b0 && s[1] == b1 {
        s.skip(2)
    } else {
        s
    }
}

/// Outcome of converting UTF-16 bytes to UTF-8: `Some(bytes)` on success, `None` on odd
/// length or invalid UTF-16.
pub open spec fn utf16_to_utf8(s: Seq<u8>, little_endian: bool) -> Option<Seq<u8>> {
    let body = if little_endian {
        after_bom(s, 0xFF, 0xFE)
    } else {
        after_bom(s, 0xFE, 0xFF)
    };
    if body.len() % 2 != 0 {
        None
    } else {
        match utf16_decode(code_units(body, little_endian)) {
            Some(cs) => Some(encode_utf8(cs)),
            None => None,
        }
    }
}

/// The UTF-8 form of a document: UTF-8 input without its BOM, or converted UTF-16; where
/// the UTF-16 conversion fails (odd length or invalid UTF-16), the input itself.
pub open spec fn spec_convert(s: Seq<u8>) -> Seq<u8> {
    match spec_detect(s) {
        XmlEncoding::Utf8 => if s.len() >= 3 && s[0] == 0xEF && s[1] == 0xBB && s[2] == 0xBF {
            s.skip(3)
        } else {
            s
        },
        XmlEncoding::Utf16Le => match utf16_to_utf8(s, true) {
            Some(b) => b,
            None => s,
        },
        XmlEncoding::Utf16Be => match utf16_to_utf8(s, false) {
            Some(b) => b,
            None => s,
        },
    }
}

/// Convert UTF-16 bytes to UTF-8
///
/// Takes raw bytes that may be UTF-16 LE or BE encoded and converts to UTF-8.
/// Returns the original bytes if already UTF-8 or conversion fails.
pub fn convert_to_utf8(input: Vec<u8>) -> (r: Result<Vec<u8>, String>)
    ensures
        r matches Ok(v) && v@ == spec_convert(input@),
{
    let encoding = XmlEncoding::detect(input.as_slice());
    match encoding {
        XmlEncoding::Utf8 => {
            if input.len() >= 3 && input[0] == 0xEF && input[1] == 0xBB && input[2] == 0xBF {
                let mut out: Vec<u8> = Vec::with_capacity(input.len() - 3);
                let mut i: usize = 3;
                while i < input.len()
                    invariant
                        3 <= i <= input@.len(),
                        out@ == input@.subrange(3, i as int),
                    decreases input.len() - i,
                {
                    out.push(input[i]);
                    assert(input@.subrange(3, i + 1) =~= input@.subrange(3, i as int).push(
                        input@[i as int],
                    ));
                    i += 1;
                }
                assert(out@ =~= input@.skip(3));
                Ok(out)
            } else {
                Ok(input)
            }
        },
        XmlEncoding::Utf16Le => match convert_utf16_to_utf8(input.as_slice(), true) {
            Ok(v) => Ok(v),
            Err(_) => Ok(input),
        },
        XmlEncoding::Utf16Be => match convert_utf16_to_utf8(input.as_slice(), false) {
            Ok(v) => Ok(v),
            Err(_) => Ok(input),
        },
    }
}

/// Convert UTF-16 (little or big endian, optional BOM) to UTF-8
fn convert_utf16_to_utf8(input: &[u8], little_endian: bool) -> (r: Result<Vec<u8>, String>)
    ensures
        r is Ok <==> utf16_to_utf8(input@, little_endian) is Some,
        r matches Ok(v) ==> utf16_to_utf8(input@, little_endian) == Some(v@),
{
    let (b0, b1): (u8, u8) = if little_endian {
        (0xFF, 0xFE)
    } else {
        (0xFE, 0xFF)
    };
    let start: usize = if input.len() >= 2 && input[0] == b0 && input[1] == b1 {
        2
    } else {
        0
    };
    let bytes = &input[start..input.len()];
    assert(bytes@ =~= after_bom(input@, b0, b1));
    if bytes.len() % 2 != 0 {
        if little_endian {
            return Err(String::from_str("Invalid UTF-16 LE: odd number of bytes"));
        } else {
            return Err(String::from_str("Invalid UTF-16 BE: odd number of bytes"));
        }
    }
    let n = bytes.len() / 2;
    let mut units: Vec<u16> = Vec::with_capacity(n);
    let mut i: usize = 0;
    while i < n
        invariant
            n == bytes@.len() / 2,
            bytes@.len() == bytes.len(),
            bytes@.len() % 2 == 0,
            i <= n,
            units@ == code_units(bytes@, little_endian).take(i as int),
        decreases n - i,
    {
        assert(2 * i + 1 < bytes@.len());
        let lo = bytes[2 * i];
        let hi = bytes[2 * i + 1];
        let unit: u16 = if little_endian {
            (lo as u16) + (hi as u16) * 256
        } else {
            (lo as u16) * 256 + (hi as u16)
        };
        units.push(unit);
        assert(units@ =~= code_units(bytes@, little_endian).take(i + 1));
        i += 1;
    }
    assert(units@ =~= code_units(bytes@, little_endian));
    match string_from_utf16(units.as_slice()) {
        Ok(t) => {
            let v = vstd::slice::slice_to_vec(t.as_str().as_bytes());
            Ok(v)
        },
        Err(err) => {
            let e = utf16_error_text(&err);
            let mut msg = if little_endian {
                String::from_str("Invalid UTF-16 LE: ")
            } else {
                String::from_str("Invalid UTF-16 BE: ")
            };
            msg.append(e.as_str());
            Err(msg)
        },
    }
}

} // verus!
