//! Flags for IndexText

use vstd::prelude::*;

verus! {

/// Text needs entity decoding (contains &amp; etc.)
pub const NEEDS_ENTITY_DECODE: u16 = 0x0001;

/// Text is CDATA section
pub const IS_CDATA: u16 = 0x0002;

/// Text is a comment
pub const IS_COMMENT: u16 = 0x0004;

/// Text is a processing instruction
pub const IS_PI: u16 = 0x0008;

} // verus!
