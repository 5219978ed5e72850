//! DOM Node Types
//!
//! Compact node representation for the DOM: nodes refer to each other by id
//! and to their names through the string pool.

use vstd::prelude::*;

verus! {

/// Node identifier (index into the document's node list)
pub type NodeId = u32;

/// XML node types
#[derive(Debug, Clone, Copy, PartialEq, Eq, Structural)]
pub enum NodeKind {
    Document,
    Element,
    Text,
    CData,
    Comment,
    ProcessingInstruction,
}

/// A DOM node
#[derive(Debug, Clone)]
pub struct XmlNode {
    /// Node type
    pub kind: NodeKind,
    /// Parent node ID (None for document)
    pub parent: Option<NodeId>,
    /// First child node ID
    pub first_child: Option<NodeId>,
    /// Last child node ID
    pub last_child: Option<NodeId>,
    /// Previous sibling node ID
    pub prev_sibling: Option<NodeId>,
    /// Next sibling node ID
    pub next_sibling: Option<NodeId>,
    /// Name in the string pool (element name or PI target)
    pub name_id: u32,
    /// Namespace prefix in the string pool
    pub prefix_id: u32,
    /// Namespace URI in the string pool
    pub namespace_id: u32,
    /// Start index in the attribute list
    pub attr_start: u32,
    /// Number of attributes
    pub attr_count: u16,
    /// Depth in the tree (document = 0)
    pub depth: u16,
}

/// A node with no links, name or attributes.
pub open spec fn bare_node(kind: NodeKind, parent: Option<NodeId>, name_id: u32, depth: u16) -> XmlNode {
    XmlNode {
        kind,
        parent,
        first_child: None,
        last_child: None,
        prev_sibling: None,
        next_sibling: None,
        name_id,
        prefix_id: 0,
        namespace_id: 0,
        attr_start: 0,
        attr_count: 0,
        depth,
    }
}

impl XmlNode {
    /// Create a document node
    pub fn document() -> (r: Self)
        ensures
            r == bare_node(NodeKind::Document, None, 0, 0),
    {
        XmlNode {
            kind: NodeKind::Document,
            parent: None,
            first_child: None,
            last_child: None,
            prev_sibling: None,
            next_sibling: None,
            name_id: 0,
            prefix_id: 0,
            namespace_id: 0,
            attr_start: 0,
            attr_count: 0,
            depth: 0,
        }
    }

    /// Create an element node
    pub fn element(name_id: u32, parent: Option<NodeId>, depth: u16) -> (r: Self)
        ensures
            r == bare_node(NodeKind::Element, parent, name_id, depth),
    {
        XmlNode {
            kind: NodeKind::Element,
            parent: parent,
            first_child: None,
            last_child: None,
            prev_sibling: None,
            next_sibling: None,
            name_id: name_id,
            prefix_id: 0,
            namespace_id: 0,
            attr_start: 0,
            attr_count: 0,
            depth: depth,
        }
    }

    /// Create a text node
    pub fn text(parent: Option<NodeId>, depth: u16) -> (r: Self)
        ensures
            r == bare_node(NodeKind::Text, parent, 0, depth),
    {
        XmlNode {
            kind: NodeKind::Text,
            parent: parent,
            first_child: None,
            last_child: None,
            prev_sibling: None,
            next_sibling: None,
            name_id: 0,
            prefix_id: 0,
            namespace_id: 0,
            attr_start: 0,
            attr_count: 0,
            depth: depth,
        }
    }

    /// Create a comment node
    pub fn comment(parent: Option<NodeId>, depth: u16) -> (r: Self)
        ensures
            r == bare_node(NodeKind::Comment, parent, 0, depth),
    {
        XmlNode {
            kind: NodeKind::Comment,
            parent: parent,
            first_child: None,
            last_child: None,
            prev_sibling: None,
            next_sibling: None,
            name_id: 0,
            prefix_id: 0,
            namespace_id: 0,
            attr_start: 0,
            attr_count: 0,
            depth: depth,
        }
    }

    /// Create a CDATA node
    pub fn cdata(parent: Option<NodeId>, depth: u16) -> (r: Self)
        ensures
            r == bare_node(NodeKind::CData, parent, 0, depth),
    {
        XmlNode {
            kind: NodeKind::CData,
            parent: parent,
            first_child: None,
            last_child: None,
            prev_sibling: None,
            next_sibling: None,
            name_id: 0,
            prefix_id: 0,
            namespace_id: 0,
            attr_start: 0,
            attr_count: 0,
            depth: depth,
        }
    }

    /// Create a processing instruction node
    pub fn processing_instruction(name_id: u32, parent: Option<NodeId>, depth: u16) -> (r: Self)
        ensures
            r == bare_node(NodeKind::ProcessingInstruction, parent, name_id, depth),
    {
        XmlNode {
            kind: NodeKind::ProcessingInstruction,
            parent: parent,
            first_child: None,
            last_child: None,
            prev_sibling: None,
            next_sibling: None,
            name_id: name_id,
            prefix_id: 0,
            namespace_id: 0,
            attr_start: 0,
            attr_count: 0,
            depth: depth,
        }
    }

    /// Check if this is an element
    pub fn is_element(&self) -> (r: bool)
        ensures
            r == (self.kind == NodeKind::Element),
    {
        self.kind == NodeKind::Element
    }

    /// Check if this is a text node
    pub fn is_text(&self) -> (r: bool)
        ensures
            r == (self.kind == NodeKind::Text),
    {
        self.kind == NodeKind::Text
    }

    /// Check if this node has children
    pub fn has_children(&self) -> (r: bool)
        ensures
            r == self.first_child is Some,
    {
        self.first_child.is_some()
    }

    /// Check if this node has attributes
    pub fn has_attributes(&self) -> (r: bool)
        ensures
            r == (self.attr_count > 0),
    {
        self.attr_count > 0
    }
}

/// An attribute of a DOM element
#[derive(Debug, Clone)]
pub struct XmlAttribute {
    /// Attribute name in the string pool
    pub name_id: u32,
    /// Namespace prefix in the string pool
    pub prefix_id: u32,
    /// Attribute value in the string pool
    pub value_id: u32,
}

impl XmlAttribute {
    /// Create a new attribute
    pub fn new(name_id: u32, value_id: u32) -> (r: Self)
        ensures
            r.name_id == name_id,
            r.prefix_id == 0,
            r.value_id == value_id,
    {
        XmlAttribute { name_id, prefix_id: 0, value_id }
    }
}

} // verus!
