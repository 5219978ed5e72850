//! Structural Index Module
//!
//! A memory-efficient representation of XML documents using only byte offsets into the
//! original input: element names, attribute values and text content are
//! (offset, length) spans.

pub mod element;
pub mod sort_keys;
pub mod span;
pub mod builder;
pub mod structural;
pub mod view;

pub use span::Span;
