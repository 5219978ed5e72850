//! XML Reader Module
//!
//! - SliceReader: Zero-copy slice parser
//! - Events: XML event types for pull parsing

pub mod buffered;
pub mod events;
pub mod slice;
