//! Core XML parsing primitives: byte scanning, entities, attributes, encodings,
//! name validation, DTD declarations and the tokenizers.

pub mod attributes;
pub mod dtd;
pub mod encoding;
pub mod entities;
pub mod primitives;
pub mod scanner;
pub mod tokenizer;
pub mod unicode;
pub mod unified_scanner;
