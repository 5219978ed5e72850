//! SAX (Simple API for XML) Module
//!
//! Event-based XML parsing: the unified scanner with a `SaxCollector` handler produces
//! compact events whose spans point into the original input.

pub mod collector;
pub mod events;
pub mod stream;

pub use events::CompactSaxEvent;
