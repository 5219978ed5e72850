//! Flags for IndexElement

use vstd::prelude::*;

verus! {

/// Element has namespace prefix
pub const HAS_PREFIX: u16 = 0x0001;

/// Element has namespace URI
pub const HAS_NAMESPACE: u16 = 0x0002;

/// Element is empty (self-closing)
pub const IS_EMPTY: u16 = 0x0004;

} // verus!
