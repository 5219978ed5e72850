//! Evaluation context

use vstd::prelude::*;

use crate::dom::{DocumentAccess, NodeId};

verus! {

/// Evaluation context - generic over document type
pub struct EvalContext<'a, D: DocumentAccess> {
    pub doc: &'a D,
    pub context_node: NodeId,
    pub context_position: usize,
    pub context_size: usize,
}

} // verus!
