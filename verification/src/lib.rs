//! RustyXML: XML parsing primitives, a structural index, SAX event collection and a
//! streaming tag parser, with their contracts proved by Verus.

pub mod xml_core;
pub mod dom;
pub mod index;
pub mod reader;
pub mod sax;
pub mod resource;
pub mod strategy;
pub mod xpath;
