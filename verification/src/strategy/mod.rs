//! Parsing Strategy Module
//!
//! - Streaming tag parser (for large files), fed in chunks

pub mod streaming;


