//! Indexed Document View
//!
//! Provides a DocumentAccess implementation for StructuralIndex,
//! enabling XPath evaluation on memory-efficient indexed documents.

use vstd::prelude::*;
use vstd::string::StringSliceAdditionalSpecFns;
use vstd::utf8::*;

use super::element::{
    lemma_child_ref_roundtrip, text_flags, ChildRef, IndexText, NO_NODE, TEXT_BIT,
};
use super::builder::{model_of, top, apply_event};
use super::span::ext_span;
use crate::xml_core::unified_scanner::ScanEvent;
use super::structural::{desc_below, first_attr_named, local_part, utf8_pairs, StructuralIndex};
use crate::dom::node::{NodeId, NodeKind, XmlNode};
use crate::dom::document::pairs_text;
use crate::dom::DocumentAccess;
use crate::xml_core::primitives::utf8_str;

verus! {

/// Bit flag for encoding text node IDs
/// High bit = 1 means text node, high bit = 0 means element
pub const TEXT_NODE_FLAG: u32 = 0x8000_0000;

/// Special node ID for the virtual document node
/// This allows XPath absolute paths like /root to work correctly
pub const DOCUMENT_NODE_ID: u32 = 0x7FFF_FFFF;

/// A node id as (is a text node, index).
pub open spec fn spec_decode(id: u32) -> (bool, u32) {
    (id & TEXT_NODE_FLAG != 0, id & !TEXT_NODE_FLAG)
}

/// Encode an element index as a NodeId
pub fn encode_element_id(idx: u32) -> (r: NodeId)
    ensures
        r == idx,
{
    idx
}

/// Encode a text node index as a NodeId
pub fn encode_text_id(idx: u32) -> (r: NodeId)
    ensures
        r == idx | TEXT_NODE_FLAG,
{
    idx | TEXT_NODE_FLAG
}

/// Decode a NodeId into (is_text, index)
pub fn decode_node_id(id: NodeId) -> (r: (bool, u32))
    ensures
        r == spec_decode(id),
{
    let is_text = (id & TEXT_NODE_FLAG) != 0;
    let idx = id & !TEXT_NODE_FLAG;
    (is_text, idx)
}

/// Check if a NodeId represents a text node
pub fn is_text_node_id(id: NodeId) -> (r: bool)
    ensures
        r == spec_decode(id).0,
{
    (id & TEXT_NODE_FLAG) != 0
}

/// Check if a NodeId represents the virtual document node
pub fn is_document_node_id(id: NodeId) -> (r: bool)
    ensures
        r == (id == DOCUMENT_NODE_ID),
{
    id == DOCUMENT_NODE_ID
}

/// Decoding gives back what was encoded, for every index below the flag bit.
pub proof fn lemma_node_id_roundtrip(idx: u32)
    requires
        idx < TEXT_NODE_FLAG,
    ensures
        spec_decode(idx) == (false, idx),
        spec_decode(idx | TEXT_NODE_FLAG) == (true, idx),
{
    assert(idx < 0x8000_0000u32 ==> idx & 0x8000_0000u32 == 0 && idx & !0x8000_0000u32 == idx
        && (idx | 0x8000_0000u32) & 0x8000_0000u32 != 0 && (idx | 0x8000_0000u32)
        & !0x8000_0000u32 == idx) by (bit_vector);
}

/// The node id of a child reference: its raw value.
pub open spec fn child_id(c: ChildRef) -> NodeId {
    c.spec_raw()
}

/// The node ids of child references.
pub open spec fn child_ids(refs: Seq<ChildRef>) -> Seq<NodeId> {
    refs.map_values(|c: ChildRef| child_id(c))
}

/// The sibling after the first occurrence of `target` that has one, or `None`.
pub open spec fn next_after(kids: Seq<ChildRef>, target: u32, from: int) -> Option<NodeId>
    decreases kids.len() - from,
{
    if from < 0 || from >= kids.len() {
        None
    } else if kids[from].spec_raw() == target && from + 1 < kids.len() {
        Some(child_id(kids[from + 1]))
    } else {
        next_after(kids, target, from + 1)
    }
}

/// The sibling before the first occurrence of `target` that has one, or `None`.
pub open spec fn prev_before(kids: Seq<ChildRef>, target: u32, from: int) -> Option<NodeId>
    decreases kids.len() - from,
{
    if from < 0 || from >= kids.len() {
        None
    } else if kids[from].spec_raw() == target && from > 0 {
        Some(child_id(kids[from - 1]))
    } else {
        prev_before(kids, target, from + 1)
    }
}

/// A view into an indexed document for XPath evaluation
///
/// Combines a StructuralIndex reference with the input bytes to provide
/// zero-copy string access. Implements DocumentAccess for XPath compatibility.
pub struct IndexedDocumentView<'a> {
    pub index: &'a StructuralIndex,
    pub input: &'a [u8],
}

/// The kind of a text node from its flags.
pub open spec fn text_kind(t: IndexText) -> NodeKind {
    if t.flags & text_flags::IS_CDATA != 0 {
        NodeKind::CData
    } else if t.flags & text_flags::IS_COMMENT != 0 {
        NodeKind::Comment
    } else if t.flags & text_flags::IS_PI != 0 {
        NodeKind::ProcessingInstruction
    } else {
        NodeKind::Text
    }
}

impl<'a> IndexedDocumentView<'a> {
    /// The kind of the node with id `id`.
    pub open spec fn spec_node_kind(&self, id: NodeId) -> NodeKind {
        if id == DOCUMENT_NODE_ID {
            NodeKind::Document
        } else {
            let (is_text, idx) = spec_decode(id);
            if is_text {
                if idx < self.index.texts@.len() {
                    text_kind(self.index.texts@[idx as int])
                } else {
                    NodeKind::Text
                }
            } else {
                NodeKind::Element
            }
        }
    }

    /// The parent of the node with id `id`.
    pub open spec fn spec_parent_of(&self, id: NodeId) -> Option<NodeId> {
        if id == DOCUMENT_NODE_ID {
            None
        } else {
            let (is_text, idx) = spec_decode(id);
            if is_text {
                if idx < self.index.texts@.len() && self.index.texts@[idx as int].parent
                    != NO_NODE {
                    Some(self.index.texts@[idx as int].parent)
                } else {
                    None
                }
            } else if idx < self.index.elements@.len() && self.index.elements@[idx as int].parent
                != NO_NODE {
                Some(self.index.elements@[idx as int].parent)
            } else if self.index.root == Some(idx) {
                Some(DOCUMENT_NODE_ID)
            } else {
                None
            }
        }
    }

    /// Create a new view
    pub fn new(index: &'a StructuralIndex, input: &'a [u8]) -> (r: Self)
        ensures
            r.index == index,
            r.input == input,
    {
        Self { index, input }
    }

    /// Get the node kind for a given NodeId
    pub fn node_kind(&self, id: NodeId) -> (r: NodeKind)
        ensures
            r == self.spec_node_kind(id),
    {
        if is_document_node_id(id) {
            return NodeKind::Document;
        }
        let (is_text, idx) = decode_node_id(id);
        if is_text {
            if let Some(text) = self.index.get_text(idx) {
                if text.is_cdata() {
                    NodeKind::CData
                } else if text.is_comment() {
                    NodeKind::Comment
                } else if text.is_pi() {
                    NodeKind::ProcessingInstruction
                } else {
                    NodeKind::Text
                }
            } else {
                NodeKind::Text
            }
        } else {
            NodeKind::Element
        }
    }

    /// The node id of a child reference
    fn id_of(c: ChildRef) -> (r: NodeId)
        ensures
            r == child_id(c),
    {
        proof {
            lemma_child_ref_roundtrip(c);
        }
        if c.is_text() {
            encode_text_id(c.index())
        } else {
            encode_element_id(c.index())
        }
    }

    /// The node ids of child references
    fn ids_of(refs: &Vec<ChildRef>, out: &mut Vec<NodeId>)
        ensures
            final(out)@ == old(out)@ + child_ids(refs@),
    {
        let ghost o0 = out@;
        let mut i: usize = 0;
        while i < refs.len()
            invariant
                i <= refs@.len(),
                out@ == o0 + child_ids(refs@.subrange(0, i as int)),
            decreases refs.len() - i,
        {
            out.push(Self::id_of(refs[i]));
            assert(child_ids(refs@.subrange(0, i + 1)) =~= child_ids(refs@.subrange(0, i as int)).push(
                child_id(refs@[i as int]),
            ));
            i += 1;
        }
        assert(refs@.subrange(0, refs@.len() as int) =~= refs@);
    }

    /// The position in the children of the parent of `target` that `pick` selects,
    /// or `None`.
    fn sibling_in(&self, parent: u32, target: ChildRef, next: bool) -> (r: Option<NodeId>)
        ensures
            next ==> r == next_after(self.index.spec_children(parent as int), target.spec_raw(), 0),
            !next ==> r == prev_before(self.index.spec_children(parent as int), target.spec_raw(), 0),
    {
        let children = self.index.children(parent);
        let mut i: usize = 0;
        while i < children.len()
            invariant
                i <= children@.len(),
                children@ == self.index.spec_children(parent as int),
                next ==> next_after(children@, target.spec_raw(), 0) == next_after(
                    children@,
                    target.spec_raw(),
                    i as int,
                ),
                !next ==> prev_before(children@, target.spec_raw(), 0) == prev_before(
                    children@,
                    target.spec_raw(),
                    i as int,
                ),
            decreases children.len() - i,
        {
            if children[i].raw() == target.raw() {
                if next && i + 1 < children.len() {
                    return Some(Self::id_of(children[i + 1]));
                }
                if !next && i > 0 {
                    return Some(Self::id_of(children[i - 1]));
                }
            }
            i += 1;
        }
        None
    }

    /// Find the next sibling of a text node
    pub fn find_next_sibling_of_text(&self, text_idx: u32) -> (r: Option<NodeId>)
        requires
            text_idx < TEXT_BIT,
        ensures
            r == (if text_idx < self.index.texts@.len() && self.index.texts@[text_idx as int].parent
                != NO_NODE {
                next_after(
                    self.index.spec_children(self.index.texts@[text_idx as int].parent as int),
                    text_idx | TEXT_BIT,
                    0,
                )
            } else {
                None
            }),
    {
        let parent = match self.index.get_text(text_idx) {
            Some(text) => text.parent,
            None => {
                return None;
            },
        };
        if parent == NO_NODE {
            return None;
        }
        self.sibling_in(parent, ChildRef::text(text_idx), true)
    }

    /// Find the previous sibling of a text node
    pub fn find_prev_sibling_of_text(&self, text_idx: u32) -> (r: Option<NodeId>)
        requires
            text_idx < TEXT_BIT,
        ensures
            r == (if text_idx < self.index.texts@.len() && self.index.texts@[text_idx as int].parent
                != NO_NODE {
                prev_before(
                    self.index.spec_children(self.index.texts@[text_idx as int].parent as int),
                    text_idx | TEXT_BIT,
                    0,
                )
            } else {
                None
            }),
    {
        let parent = match self.index.get_text(text_idx) {
            Some(text) => text.parent,
            None => {
                return None;
            },
        };
        if parent == NO_NODE {
            return None;
        }
        self.sibling_in(parent, ChildRef::text(text_idx), false)
    }

    /// Find the next sibling of an element: the entry after it in its parent's child
    /// list, text nodes included
    pub fn find_next_sibling_of_element(&self, elem_idx: u32) -> (r: Option<NodeId>)
        requires
            elem_idx < TEXT_BIT,
        ensures
            r == (if elem_idx < self.index.elements@.len()
                && self.index.elements@[elem_idx as int].parent != NO_NODE {
                next_after(
                    self.index.spec_children(self.index.elements@[elem_idx as int].parent as int),
                    elem_idx,
                    0,
                )
            } else {
                None
            }),
    {
        let parent = match self.index.get_element(elem_idx) {
            Some(elem) => elem.parent,
            None => {
                return None;
            },
        };
        if parent == NO_NODE {
            return None;
        }
        self.sibling_in(parent, ChildRef::element(elem_idx), true)
    }

    /// Find the previous sibling of an element
    /// (elements have next_sibling links but not prev_sibling links in the index)
    pub fn find_prev_sibling_of_element(&self, elem_idx: u32) -> (r: Option<NodeId>)
        requires
            elem_idx < TEXT_BIT,
        ensures
            r == (if elem_idx < self.index.elements@.len()
                && self.index.elements@[elem_idx as int].parent != NO_NODE {
                prev_before(
                    self.index.spec_children(self.index.elements@[elem_idx as int].parent as int),
                    elem_idx,
                    0,
                )
            } else {
                None
            }),
    {
        let parent = match self.index.get_element(elem_idx) {
            Some(elem) => elem.parent,
            None => {
                return None;
            },
        };
        if parent == NO_NODE {
            return None;
        }
        self.sibling_in(parent, ChildRef::element(elem_idx), false)
    }
}

impl<'a> DocumentAccess for IndexedDocumentView<'a> {
    open spec fn spec_node(&self, id: NodeId) -> Option<XmlNode> {
        None
    }

    open spec fn spec_kind(&self, id: NodeId) -> NodeKind {
        self.spec_node_kind(id)
    }

    open spec fn spec_text(&self, id: NodeId) -> Option<Seq<char>> {
        let (is_text, idx) = spec_decode(id);
        let bytes = self.index.texts@[idx as int].span.spec_slice(self.input@);
        if is_text && idx < self.index.texts@.len() && valid_utf8(bytes) {
            Some(decode_utf8(bytes))
        } else {
            None
        }
    }

    open spec fn spec_children(&self, id: NodeId) -> Seq<NodeId> {
        if id == DOCUMENT_NODE_ID {
            match self.index.root {
                Some(root) => seq![root],
                None => seq![],
            }
        } else if spec_decode(id).0 {
            seq![]
        } else {
            child_ids(self.index.spec_children(spec_decode(id).1 as int))
        }
    }

    open spec fn spec_parent(&self, id: NodeId) -> Option<NodeId> {
        self.spec_parent_of(id)
    }

    open spec fn spec_next(&self, id: NodeId) -> Option<NodeId> {
        let (is_text, idx) = spec_decode(id);
        if is_text {
            if idx < self.index.texts@.len() && self.index.texts@[idx as int].parent != NO_NODE {
                next_after(
                    self.index.spec_children(self.index.texts@[idx as int].parent as int),
                    idx | TEXT_BIT,
                    0,
                )
            } else {
                None
            }
        } else if idx < self.index.elements@.len() && self.index.elements@[idx as int].parent
            != NO_NODE {
            next_after(
                self.index.spec_children(self.index.elements@[idx as int].parent as int),
                idx,
                0,
            )
        } else {
            None
        }
    }

    open spec fn spec_prev(&self, id: NodeId) -> Option<NodeId> {
        let (is_text, idx) = spec_decode(id);
        if is_text {
            if idx < self.index.texts@.len() && self.index.texts@[idx as int].parent != NO_NODE {
                prev_before(
                    self.index.spec_children(self.index.texts@[idx as int].parent as int),
                    idx | TEXT_BIT,
                    0,
                )
            } else {
                None
            }
        } else if idx < self.index.elements@.len() && self.index.elements@[idx as int].parent
            != NO_NODE {
            prev_before(
                self.index.spec_children(self.index.elements@[idx as int].parent as int),
                idx,
                0,
            )
        } else {
            None
        }
    }

    open spec fn spec_count(&self) -> nat {
        if self.index.elements@.len() + self.index.texts@.len() < usize::MAX {
            (self.index.elements@.len() + self.index.texts@.len() + 1) as nat
        } else {
            usize::MAX as nat
        }
    }

    fn node_count(&self) -> (r: usize) {
        let n = self.index.elements.len();
        let m = self.index.texts.len();
        if n < usize::MAX - m {
            n + m + 1
        } else {
            usize::MAX
        }
    }

    open spec fn spec_descendants(&self, id: NodeId) -> Seq<NodeId> {
        if id == DOCUMENT_NODE_ID {
            match self.index.root {
                Some(root) => seq![root] + child_ids(desc_below(self.index, spec_decode(root).1 as int)),
                None => seq![],
            }
        } else if spec_decode(id).0 {
            seq![]
        } else {
            child_ids(desc_below(self.index, spec_decode(id).1 as int))
        }
    }

    open spec fn spec_name(&self, id: NodeId) -> Option<Seq<char>> {
        let (is_text, idx) = spec_decode(id);
        let bytes = if is_text {
            self.index.texts@[idx as int].span.spec_slice(self.input@)
        } else {
            self.index.elements@[idx as int].name.spec_slice(self.input@)
        };
        let named = if is_text {
            idx < self.index.texts@.len() && self.index.texts@[idx as int].flags & text_flags::IS_PI
                != 0
        } else {
            idx < self.index.elements@.len()
        };
        if named && valid_utf8(bytes) {
            Some(decode_utf8(bytes))
        } else {
            None
        }
    }

    open spec fn spec_local_name(&self, id: NodeId) -> Option<Seq<char>> {
        let (is_text, idx) = spec_decode(id);
        let name = self.index.elements@[idx as int].name.spec_slice(self.input@);
        if !is_text && idx < self.index.elements@.len() && valid_utf8(name) && valid_utf8(
            local_part(name),
        ) {
            Some(decode_utf8(local_part(name)))
        } else {
            None
        }
    }

    open spec fn spec_root_element(&self) -> Option<NodeId> {
        self.index.root
    }

    open spec fn spec_namespace_uri(&self, id: NodeId) -> Option<Seq<char>> {
        None
    }

    open spec fn spec_prefix(&self, id: NodeId) -> Option<Seq<char>> {
        None
    }

    open spec fn spec_attribute(&self, id: NodeId, name: &str) -> Option<Seq<char>> {
        if spec_decode(id).0 {
            None
        } else {
            let attrs = self.index.spec_element_attributes(spec_decode(id).1 as int);
            let k = first_attr_named(attrs, self.input@, name.spec_bytes(), 0);
            if k >= 0 && valid_utf8(attrs[k].value.spec_slice(self.input@)) {
                Some(decode_utf8(attrs[k].value.spec_slice(self.input@)))
            } else {
                None
            }
        }
    }

    open spec fn spec_attrs(&self, id: NodeId) -> Seq<(Seq<char>, Seq<char>)> {
        if spec_decode(id).0 {
            seq![]
        } else {
            utf8_pairs(self.index.spec_element_attributes(spec_decode(id).1 as int), self.input@)
        }
    }

    fn root_element_id(&self) -> (r: Option<NodeId>)
        ensures
            r == self.index.root,
    {
        match self.index.root {
            Some(idx) => Some(encode_element_id(idx)),
            None => None,
        }
    }

    /// Index-based views hold no node structs; use the navigation methods instead
    fn get_node(&self, id: NodeId) -> (r: Option<&XmlNode>)
        ensures
            r is None,
    {
        None
    }

    /// An element's name, or a processing instruction's target
    fn node_name(&self, id: NodeId) -> (r: Option<&str>)
        ensures
            ({
                let (is_text, idx) = spec_decode(id);
                let bytes = if is_text {
                    self.index.texts@[idx as int].span.spec_slice(self.input@)
                } else {
                    self.index.elements@[idx as int].name.spec_slice(self.input@)
                };
                let named = if is_text {
                    idx < self.index.texts@.len() && self.index.texts@[idx as int].flags
                        & text_flags::IS_PI != 0
                } else {
                    idx < self.index.elements@.len()
                };
                &&& r is Some <==> (named && valid_utf8(bytes))
                &&& r matches Some(s) ==> s@ == decode_utf8(bytes)
            }),
    {
        let (is_text, idx) = decode_node_id(id);
        if is_text {
            if let Some(text) = self.index.get_text(idx) {
                if text.is_pi() {
                    return text.span.as_str(self.input);
                }
            }
            None
        } else {
            self.index.element_name(idx, self.input)
        }
    }

    /// An element's name without its prefix
    fn node_local_name(&self, id: NodeId) -> (r: Option<&str>)
        ensures
            ({
                let (is_text, idx) = spec_decode(id);
                let name = self.index.elements@[idx as int].name.spec_slice(self.input@);
                &&& r is Some <==> (!is_text && idx < self.index.elements@.len() && valid_utf8(
                    name,
                ) && valid_utf8(local_part(name)))
                &&& r matches Some(s) ==> s@ == decode_utf8(local_part(name))
            }),
    {
        let (is_text, idx) = decode_node_id(id);
        if is_text {
            None
        } else {
            self.index.element_name(idx, self.input)?;
            let name = self.index.element_name_bytes(idx, self.input)?;
            utf8_str(super::structural::local_name_bytes(name))
        }
    }

    /// Namespace resolution is not done for indexed documents
    fn node_namespace_uri(&self, id: NodeId) -> (r: Option<&str>)
        ensures
            r is None,
    {
        None
    }

    /// Namespace prefixes are not resolved for indexed documents
    fn node_prefix(&self, id: NodeId) -> (r: Option<&str>)
        ensures
            r is None,
    {
        None
    }

    /// The content of a text node
    fn text_content(&self, id: NodeId) -> (r: Option<&str>)
        ensures
            ({
                let (is_text, idx) = spec_decode(id);
                let bytes = self.index.texts@[idx as int].span.spec_slice(self.input@);
                &&& r is Some <==> (is_text && idx < self.index.texts@.len() && valid_utf8(bytes))
                &&& r matches Some(s) ==> s@ == decode_utf8(bytes)
            }),
    {
        let (is_text, idx) = decode_node_id(id);
        if is_text {
            self.index.text_content(idx, self.input)
        } else {
            None
        }
    }

    /// An attribute of an element, by name
    fn get_attribute(&self, node_id: NodeId, name: &str) -> (r: Option<&str>)
        ensures
            spec_decode(node_id).0 ==> r is None,
            !spec_decode(node_id).0 ==> ({
                let attrs = self.index.spec_element_attributes(spec_decode(node_id).1 as int);
                let k = first_attr_named(attrs, self.input@, name.spec_bytes(), 0);
                &&& r is Some <==> (k >= 0 && valid_utf8(attrs[k].value.spec_slice(self.input@)))
                &&& r matches Some(s) ==> s@ == decode_utf8(attrs[k].value.spec_slice(self.input@))
            }),
    {
        let (is_text, idx) = decode_node_id(node_id);
        if is_text {
            None
        } else {
            self.index.get_attribute(idx, name, self.input)
        }
    }

    /// The attributes of an element
    fn get_attribute_values(&self, node_id: NodeId) -> (r: Vec<(&str, &str)>)
        ensures
            spec_decode(node_id).0 ==> r@.len() == 0,
            !spec_decode(node_id).0 ==> ({
                let pairs = utf8_pairs(
                    self.index.spec_element_attributes(spec_decode(node_id).1 as int),
                    self.input@,
                );
                &&& r@.len() == pairs.len()
                &&& forall|j: int|
                    0 <= j < r@.len() ==> (#[trigger] r@[j]).0@ == pairs[j].0 && r@[j].1@
                        == pairs[j].1
            }),
    {
        let (is_text, idx) = decode_node_id(node_id);
        let r = if is_text {
            Vec::new()
        } else {
            self.index.get_attribute_pairs(idx, self.input)
        };
        assert(pairs_text(r@) =~= self.spec_attrs(node_id));
        r
    }

    /// The children of a node: the root element for the document node
    fn children_vec(&self, id: NodeId) -> (r: Vec<NodeId>)
        ensures
            r@ == (if id == DOCUMENT_NODE_ID {
                match self.index.root {
                    Some(root) => seq![root],
                    None => seq![],
                }
            } else if spec_decode(id).0 {
                seq![]
            } else {
                child_ids(self.index.spec_children(spec_decode(id).1 as int))
            }),
    {
        let mut out: Vec<NodeId> = Vec::new();
        if is_document_node_id(id) {
            if let Some(root) = self.root_element_id() {
                out.push(root);
            }
            return out;
        }
        let (is_text, idx) = decode_node_id(id);
        if !is_text {
            let kids = self.index.children(idx);
            Self::ids_of(&kids, &mut out);
        }
        out
    }

    /// The descendants of a node, depth-first in document order: for the document
    /// node, the root element and its descendants
    fn descendants_vec(&self, id: NodeId) -> (r: Vec<NodeId>)
        ensures
            r@ == (if id == DOCUMENT_NODE_ID {
                match self.index.root {
                    Some(root) => seq![root] + child_ids(desc_below(self.index, spec_decode(root).1 as int)),
                    None => seq![],
                }
            } else if spec_decode(id).0 {
                seq![]
            } else {
                child_ids(desc_below(self.index, spec_decode(id).1 as int))
            }),
    {
        let mut result: Vec<NodeId> = Vec::new();
        if is_document_node_id(id) {
            if let Some(root_id) = self.root_element_id() {
                result.push(root_id);
                let (_, root_idx) = decode_node_id(root_id);
                let desc = self.index.descendants(root_idx);
                Self::ids_of(&desc, &mut result);
            }
            return result;
        }
        let (is_text, idx) = decode_node_id(id);
        if !is_text {
            let desc = self.index.descendants(idx);
            Self::ids_of(&desc, &mut result);
        }
        result
    }

    fn parent_of(&self, id: NodeId) -> (r: Option<NodeId>)
        ensures
            r == self.spec_parent_of(id),
    {
        if is_document_node_id(id) {
            return None;
        }
        let (is_text, idx) = decode_node_id(id);
        if is_text {
            match self.index.get_text(idx) {
                Some(text) => if text.parent == NO_NODE {
                    None
                } else {
                    Some(encode_element_id(text.parent))
                },
                None => None,
            }
        } else {
            match self.index.parent(idx) {
                Some(parent_idx) => Some(encode_element_id(parent_idx)),
                None => {
                    if self.index.root == Some(idx) {
                        Some(DOCUMENT_NODE_ID)
                    } else {
                        None
                    }
                },
            }
        }
    }

    fn document_node_id(&self) -> (r: NodeId)
        ensures
            r == DOCUMENT_NODE_ID,
    {
        DOCUMENT_NODE_ID
    }

    fn next_sibling_of(&self, id: NodeId) -> (r: Option<NodeId>)
        ensures
            ({
                let (is_text, idx) = spec_decode(id);
                if is_text {
                    r == (if idx < self.index.texts@.len() && self.index.texts@[idx as int].parent
                        != NO_NODE {
                        next_after(
                            self.index.spec_children(self.index.texts@[idx as int].parent as int),
                            idx | TEXT_BIT,
                            0,
                        )
                    } else {
                        None
                    })
                } else {
                    r == (if idx < self.index.elements@.len()
                        && self.index.elements@[idx as int].parent != NO_NODE {
                        next_after(
                            self.index.spec_children(self.index.elements@[idx as int].parent as int),
                            idx,
                            0,
                        )
                    } else {
                        None
                    })
                }
            }),
    {
        let (is_text, idx) = decode_node_id(id);
        proof {
            assert(id & !0x8000_0000u32 < 0x8000_0000u32) by (bit_vector);
        }
        if is_text {
            self.find_next_sibling_of_text(idx)
        } else {
            self.find_next_sibling_of_element(idx)
        }
    }

    fn prev_sibling_of(&self, id: NodeId) -> (r: Option<NodeId>)
        ensures
            ({
                let (is_text, idx) = spec_decode(id);
                if is_text {
                    r == (if idx < self.index.texts@.len() && self.index.texts@[idx as int].parent
                        != NO_NODE {
                        prev_before(
                            self.index.spec_children(self.index.texts@[idx as int].parent as int),
                            idx | TEXT_BIT,
                            0,
                        )
                    } else {
                        None
                    })
                } else {
                    r == (if idx < self.index.elements@.len()
                        && self.index.elements@[idx as int].parent != NO_NODE {
                        prev_before(
                            self.index.spec_children(self.index.elements@[idx as int].parent as int),
                            idx,
                            0,
                        )
                    } else {
                        None
                    })
                }
            }),
    {
        let (is_text, idx) = decode_node_id(id);
        proof {
            assert(id & !0x8000_0000u32 < 0x8000_0000u32) by (bit_vector);
        }
        if is_text {
            self.find_prev_sibling_of_text(idx)
        } else {
            self.find_prev_sibling_of_element(idx)
        }
    }

    fn node_kind_of(&self, id: NodeId) -> (r: NodeKind)
        ensures
            r == self.spec_node_kind(id),
    {
        self.node_kind(id)
    }
}

/// What a text-like scan event adds to the index: one text entry after the earlier
/// ones, over the event's span (a processing instruction's target), under the
/// innermost open element, which the view gives as the node kind of the event: text as
/// text (marked for decoding exactly when it holds a reference), a CDATA section as
/// CDATA, a comment as a comment, a processing instruction as one. The elements, the
/// attributes and the open elements stay as they were.
pub proof fn law_index_text_entries(events: Seq<ScanEvent>, e: ScanEvent)
    ensures
        ({
            let m = model_of(events);
            let m2 = model_of(events.push(e));
            let t = m2.texts.last();
            &&& (e matches ScanEvent::Text { .. } || e matches ScanEvent::CData { .. }
                || e matches ScanEvent::Comment { .. } || e matches ScanEvent::ProcessingInstruction {
                .. }) ==> {
                &&& m2.texts.len() == m.texts.len() + 1
                &&& m2.texts.drop_last() == m.texts
                &&& t.parent == top(m.stack)
                &&& m2.elems == m.elems
                &&& m2.attrs == m.attrs
                &&& m2.stack == m.stack
            }
            &&& e matches ScanEvent::Text { span, needs_decode } ==> t.span == ext_span(
                span.offset,
                span.len as int,
            ) && text_kind(t) == NodeKind::Text && (t.flags & text_flags::NEEDS_ENTITY_DECODE
                != 0) == needs_decode
            &&& e matches ScanEvent::CData { span } ==> t.span == ext_span(
                span.offset,
                span.len as int,
            ) && text_kind(t) == NodeKind::CData
            &&& e matches ScanEvent::Comment { span } ==> t.span == ext_span(
                span.offset,
                span.len as int,
            ) && text_kind(t) == NodeKind::Comment
            &&& e matches ScanEvent::ProcessingInstruction { target, .. } ==> t.span == ext_span(
                target.offset,
                target.len as int,
            ) && text_kind(t) == NodeKind::ProcessingInstruction
        }),
{
    assert(events.push(e).drop_last() =~= events);
    let m = model_of(events);
    let m2 = model_of(events.push(e));
    assert(m2 == apply_event(m, e));
    assert(m.texts.push(m2.texts.last()).drop_last() =~= m.texts);
    assert(1u16 & 1u16 != 0 && 0u16 & 1u16 == 0 && 1u16 & 2u16 == 0 && 1u16 & 4u16 == 0 && 1u16
        & 8u16 == 0 && 0u16 & 2u16 == 0 && 0u16 & 4u16 == 0 && 0u16 & 8u16 == 0 && 2u16 & 2u16 != 0
        && 4u16 & 2u16 == 0 && 4u16 & 4u16 != 0 && 8u16 & 2u16 == 0 && 8u16 & 4u16 == 0 && 8u16
        & 8u16 != 0) by (bit_vector);
}

} // verus!
