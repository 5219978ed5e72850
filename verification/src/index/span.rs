//! Span - offset and length into original input
//!
//! Zero-copy reference to a portion of the input document.
//! Used for element names, attribute names/values, and text content.

use vstd::prelude::*;
use vstd::utf8::*;

use crate::xml_core::primitives::{offset_within, utf8_str};

verus! {

/// A span referencing a portion of the input document.
///
/// Size: 6 bytes (offset: 4 bytes, len: 2 bytes)
/// Max string length: 64KB (u16::MAX)
#[derive(Debug, Clone, Copy, PartialEq, Eq, Structural)]
pub struct Span {
    /// Byte offset into the original input
    pub offset: u32,
    /// Length in bytes (max 64KB)
    pub len: u16,
}

/// The bytes `[start, start + len)` of `input`, or nothing when they do not lie within it.
pub open spec fn bytes_at(input: Seq<u8>, start: int, len: int) -> Seq<u8> {
    if start + len <= input.len() {
        input.subrange(start, start + len)
    } else {
        seq![]
    }
}

impl Span {
    /// The bytes of the input that this span refers to.
    pub open spec fn spec_slice(&self, input: Seq<u8>) -> Seq<u8> {
        bytes_at(input, self.offset as int, self.len as int)
    }

    /// Create a new span
    pub fn new(offset: u32, len: u16) -> (r: Self)
        ensures
            r.offset == offset,
            r.len == len,
    {
        Self { offset, len }
    }

    /// The empty span.
    pub open spec fn empty_spec() -> Span {
        Span { offset: 0, len: 0 }
    }

    /// Create an empty span (used for "no value")
    pub fn empty() -> (r: Self)
        ensures
            r.offset == 0,
            r.len == 0,
            r == Span::empty_spec(),
    {
        Self { offset: 0, len: 0 }
    }

    /// Check if this span is empty
    pub fn is_empty(&self) -> (r: bool)
        ensures
            r == (self.len == 0),
    {
        self.len == 0
    }

    /// Get the end offset (exclusive), saturating at `u32::MAX`
    pub fn end(&self) -> (r: u32)
        ensures
            r == if self.offset + self.len <= u32::MAX {
                self.offset + self.len
            } else {
                u32::MAX as int
            },
    {
        self.offset.saturating_add(self.len as u32)
    }

    /// Extract the byte slice from input
    pub fn slice<'a>(&self, input: &'a [u8]) -> (r: &'a [u8])
        ensures
            r@ == self.spec_slice(input@),
    {
        let start = self.offset as usize;
        let n = self.len as usize;
        if n <= input.len() && start <= input.len() - n {
            &input[start..start + n]
        } else {
            assert(input@.subrange(0, 0) =~= Seq::<u8>::empty());
            &input[0..0]
        }
    }

    /// Extract as UTF-8 string from input
    pub fn as_str<'a>(&self, input: &'a [u8]) -> (r: Option<&'a str>)
        ensures
            r is Some <==> valid_utf8(self.spec_slice(input@)),
            r matches Some(s) ==> s@ == decode_utf8(self.spec_slice(input@)),
    {
        utf8_str(self.slice(input))
    }

    /// Create a span from a slice that points into input: its offset is the slice's
    /// position in the input (found from the two addresses) and its length the slice's
    /// length, capped at `u16::MAX`. `None` when the slice does not start inside the input.
    pub fn from_slice(slice: &[u8], input: &[u8]) -> (r: Option<Self>)
        ensures
            r matches Some(s) ==> (input@.len() <= u32::MAX ==> s.offset < input@.len()),
            r matches Some(s) ==> s.len == if slice@.len() <= u16::MAX {
                slice@.len() as int
            } else {
                u16::MAX as int
            },
    {
        match offset_within(slice, input) {
            Some(off) => {
                let len: u16 = if slice.len() <= 0xFFFF {
                    slice.len() as u16
                } else {
                    0xFFFF
                };
                let offset: u32 = #[verifier::truncate] (off as u32);
                Some(Self::new(offset, len))
            },
            None => None,
        }
    }
}

/// Extended span for text nodes that might exceed 64KB
///
/// For most text nodes, the regular len field is used.
/// For text > 64KB, extended_len is set and len is set to u16::MAX.
#[derive(Debug, Clone, Copy, PartialEq, Eq, Structural)]
pub struct ExtendedSpan {
    /// Base span (offset + short len)
    pub span: Span,
    /// Extended length for text > 64KB (0 means use span.len)
    pub extended_len: u32,
}

/// The extended span that `ExtendedSpan::new(offset, len)` makes.
pub open spec fn ext_span(offset: u32, len: int) -> ExtendedSpan {
    if len <= 0xFFFF {
        ExtendedSpan { span: Span { offset, len: len as u16 }, extended_len: 0 }
    } else {
        ExtendedSpan { span: Span { offset, len: 0xFFFF }, extended_len: len as u32 }
    }
}

impl ExtendedSpan {
    /// The length that this span stands for.
    pub open spec fn spec_len(&self) -> int {
        if self.extended_len > 0 {
            self.extended_len as int
        } else {
            self.span.len as int
        }
    }

    /// The bytes of the input that this span refers to.
    pub open spec fn spec_slice(&self, input: Seq<u8>) -> Seq<u8> {
        bytes_at(input, self.span.offset as int, self.spec_len())
    }

    /// Create a new extended span
    pub fn new(offset: u32, len: usize) -> (r: Self)
        requires
            len <= u32::MAX,
        ensures
            r.span.offset == offset,
            r.spec_len() == len,
            len <= u16::MAX ==> r.span.len == len && r.extended_len == 0,
            len > u16::MAX ==> r.span.len == u16::MAX && r.extended_len == len,
            r == ext_span(offset, len as int),
    {
        if len <= 0xFFFF {
            Self { span: Span::new(offset, len as u16), extended_len: 0 }
        } else {
            Self { span: Span::new(offset, 0xFFFF), extended_len: len as u32 }
        }
    }

    /// Get the actual length
    pub fn len(&self) -> (r: usize)
        ensures
            r == self.spec_len(),
    {
        if self.extended_len > 0 {
            self.extended_len as usize
        } else {
            self.span.len as usize
        }
    }

    /// Check if empty
    pub fn is_empty(&self) -> (r: bool)
        ensures
            r == (self.spec_len() == 0),
    {
        self.len() == 0
    }

    /// Extract the byte slice from input
    pub fn slice<'a>(&self, input: &'a [u8]) -> (r: &'a [u8])
        ensures
            r@ == self.spec_slice(input@),
    {
        let start = self.span.offset as usize;
        let n = self.len();
        if n <= input.len() && start <= input.len() - n {
            &input[start..start + n]
        } else {
            assert(input@.subrange(0, 0) =~= Seq::<u8>::empty());
            &input[0..0]
        }
    }

    /// Extract as UTF-8 string from input
    pub fn as_str<'a>(&self, input: &'a [u8]) -> (r: Option<&'a str>)
        ensures
            r is Some <==> valid_utf8(self.spec_slice(input@)),
            r matches Some(s) ==> s@ == decode_utf8(self.spec_slice(input@)),
    {
        utf8_str(self.slice(input))
    }
}

} // verus!
