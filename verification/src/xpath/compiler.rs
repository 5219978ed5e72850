//! Compiled node tests

use vstd::prelude::*;

verus! {

/// A node test as the evaluator uses it
#[derive(Debug, Clone)]
pub enum CompiledNodeTest {
    Any,
    Name(String),
    QName(String, String),
    NamespaceWildcard(String),
    Node,
    Text,
    Comment,
    ProcessingInstruction(Option<String>),
}

} // verus!
