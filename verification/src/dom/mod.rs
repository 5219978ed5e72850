//! DOM Module - Core types for XML document access
//!
//! Provides:
//! - `NodeId`, `NodeKind`: compact node representation
//! - `XmlNode`, `XmlAttribute`: node types

pub mod doctype;
pub mod document;
pub mod namespace;
pub mod node;
pub mod serialize;
pub mod strings;
pub mod validation;

pub use document::{validate_strict, XmlDocument};
pub use node::{NodeId, NodeKind, XmlNode};

use self::document::{pairs_text, str_of};

use vstd::prelude::*;
use vstd::string::StringExecFns;

verus! {

/// Trait for document access - enables XPath to work with DOM and Index-based documents
pub trait DocumentAccess {
    /// The node struct kept under an ID (none where the document keeps no node structs).
    spec fn spec_node(&self, id: NodeId) -> Option<XmlNode>;

    /// The name of the node with an ID, as text.
    spec fn spec_name(&self, id: NodeId) -> Option<Seq<char>>;

    /// The local name (without prefix) of the node with an ID, as text.
    spec fn spec_local_name(&self, id: NodeId) -> Option<Seq<char>>;

    /// The kind of the node with an ID.
    spec fn spec_kind(&self, id: NodeId) -> NodeKind;

    /// The text of the text or CDATA node with an ID.
    spec fn spec_text(&self, id: NodeId) -> Option<Seq<char>>;

    /// The descendants of the node with an ID, in document order.
    spec fn spec_descendants(&self, id: NodeId) -> Seq<NodeId>;

    /// The children of the node with an ID, in document order.
    spec fn spec_children(&self, id: NodeId) -> Seq<NodeId>;

    /// The parent of the node with an ID.
    spec fn spec_parent(&self, id: NodeId) -> Option<NodeId>;

    /// The next sibling of the node with an ID.
    spec fn spec_next(&self, id: NodeId) -> Option<NodeId>;

    /// The previous sibling of the node with an ID.
    spec fn spec_prev(&self, id: NodeId) -> Option<NodeId>;

    /// The number of nodes of the document: no chain of parent or sibling links is
    /// longer.
    spec fn spec_count(&self) -> nat;

    /// The ID of the root element, if there is one.
    spec fn spec_root_element(&self) -> Option<NodeId>;

    /// The namespace URI of the node with an ID, as text.
    spec fn spec_namespace_uri(&self, id: NodeId) -> Option<Seq<char>>;

    /// The namespace prefix of the node with an ID, as text.
    spec fn spec_prefix(&self, id: NodeId) -> Option<Seq<char>>;

    /// The value of the attribute `name` of the node with an ID, as text.
    spec fn spec_attribute(&self, id: NodeId, name: &str) -> Option<Seq<char>>;

    /// The attribute names and values of the node with an ID, in order, as text.
    spec fn spec_attrs(&self, id: NodeId) -> Seq<(Seq<char>, Seq<char>)>;

    /// Get root element ID
    fn root_element_id(&self) -> (r: Option<NodeId>)
        ensures
            r == self.spec_root_element(),
    ;

    /// Get a node by ID (index-based views hold no node structs and return None)
    fn get_node(&self, id: NodeId) -> (r: Option<&XmlNode>)
        ensures
            match r {
                Some(n) => self.spec_node(id) == Some(*n),
                None => self.spec_node(id) is None,
            },
    ;

    /// Get node name as string
    fn node_name(&self, id: NodeId) -> (r: Option<&str>)
        ensures
            str_of(r) == self.spec_name(id),
    ;

    /// Get node local name (without prefix)
    fn node_local_name(&self, id: NodeId) -> (r: Option<&str>)
        ensures
            str_of(r) == self.spec_local_name(id),
    ;

    /// Get namespace URI of a node (None if unavailable or no namespace)
    fn node_namespace_uri(&self, id: NodeId) -> (r: Option<&str>)
        ensures
            str_of(r) == self.spec_namespace_uri(id),
    ;

    /// Get namespace prefix of a node (None if unavailable or no prefix)
    fn node_prefix(&self, id: NodeId) -> (r: Option<&str>)
        ensures
            str_of(r) == self.spec_prefix(id),
    ;

    /// Get text content of a text node
    fn text_content(&self, id: NodeId) -> (r: Option<&str>)
        ensures
            str_of(r) == self.spec_text(id),
    ;

    /// Get attribute value by name
    fn get_attribute(&self, node_id: NodeId, name: &str) -> (r: Option<&str>)
        ensures
            str_of(r) == self.spec_attribute(node_id, name),
    ;

    /// Get all attribute names and values
    fn get_attribute_values(&self, node_id: NodeId) -> (r: Vec<(&str, &str)>)
        ensures
            pairs_text(r@) == self.spec_attrs(node_id),
    ;

    /// The children of a node
    fn children_vec(&self, id: NodeId) -> (r: Vec<NodeId>)
        ensures
            r@ == self.spec_children(id),
    ;

    /// The number of nodes of the document
    fn node_count(&self) -> (r: usize)
        ensures
            r == self.spec_count(),
    ;

    /// The descendants of a node
    fn descendants_vec(&self, id: NodeId) -> (r: Vec<NodeId>)
        ensures
            r@ == self.spec_descendants(id),
    ;

    /// Get parent node ID
    fn parent_of(&self, id: NodeId) -> (r: Option<NodeId>)
        ensures
            r == self.spec_parent(id),
    ;

    /// Get next sibling node ID
    fn next_sibling_of(&self, id: NodeId) -> (r: Option<NodeId>)
        ensures
            r == self.spec_next(id),
    ;

    /// Get previous sibling node ID
    fn prev_sibling_of(&self, id: NodeId) -> (r: Option<NodeId>)
        ensures
            r == self.spec_prev(id),
    ;

    /// Get node kind
    fn node_kind_of(&self, id: NodeId) -> (r: NodeKind)
        ensures
            r == self.spec_kind(id),
            self.spec_node(id) matches Some(n) ==> r == n.kind,
    ;

    /// Get the document node ID (for XPath absolute paths)
    fn document_node_id(&self) -> (r: NodeId)
        default_ensures
            r == 0,
    {
        0
    }
}

/// The text of the text and CDATA nodes among `ids`, in order.
pub open spec fn texts_of<D: DocumentAccess>(doc: &D, ids: Seq<NodeId>) -> Seq<char>
    decreases ids.len(),
{
    if ids.len() == 0 {
        seq![]
    } else {
        let prev = texts_of(doc, ids.drop_last());
        let d = ids.last();
        if (doc.spec_kind(d) == NodeKind::Text || doc.spec_kind(d) == NodeKind::CData)
            && doc.spec_text(d) is Some {
            prev + doc.spec_text(d)->0
        } else {
            prev
        }
    }
}

/// The XPath string-value of a node: a text or CDATA node's text, the text of an
/// element's descendant text and CDATA nodes in document order, else empty.
pub open spec fn spec_string_value<D: DocumentAccess>(doc: &D, id: NodeId) -> Seq<char> {
    let k = doc.spec_kind(id);
    if k == NodeKind::Text || k == NodeKind::CData {
        match doc.spec_text(id) {
            Some(t) => t,
            None => seq![],
        }
    } else if k == NodeKind::Element {
        texts_of(doc, doc.spec_descendants(id))
    } else {
        seq![]
    }
}

/// Get the XPath string-value of a node per XPath 1.0 spec.
///
/// - For text/CDATA nodes: returns the text content
/// - For elements: concatenation of all descendant text nodes
/// - For other node types: empty string
pub fn node_string_value<D: DocumentAccess>(doc: &D, node_id: NodeId) -> (r: String)
    ensures
        r@ == spec_string_value(doc, node_id),
{
    let kind = doc.node_kind_of(node_id);
    match kind {
        NodeKind::Text | NodeKind::CData => match doc.text_content(node_id) {
            Some(t) => String::from_str(t),
            None => String::new(),
        },
        NodeKind::Element => {
            let ds = doc.descendants_vec(node_id);
            let mut result = String::new();
            let mut i: usize = 0;
            while i < ds.len()
                invariant
                    i <= ds@.len(),
                    ds@ == doc.spec_descendants(node_id),
                    result@ == texts_of(doc, ds@.take(i as int)),
                decreases ds.len() - i,
            {
                let d = ds[i];
                let k = doc.node_kind_of(d);
                assert(ds@.take(i + 1).drop_last() =~= ds@.take(i as int));
                if k == NodeKind::Text || k == NodeKind::CData {
                    match doc.text_content(d) {
                        Some(t) => {
                            result.append(t);
                        },
                        None => {},
                    }
                }
                i += 1;
            }
            assert(ds@.take(ds@.len() as int) =~= ds@);
            result
        },
        _ => String::new(),
    }
}

} // verus!
