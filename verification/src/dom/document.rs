//! XML Document - Arena-based DOM representation
//!
//! `validate_strict` checks well-formedness; `XmlDocument` is a DOM built from the
//! reader's events.

use super::doctype::{add_found, dtd_scan, lemma_add_found_concat, EntView};
use std::borrow::Cow;
use vstd::prelude::*;
use vstd::string::StringSliceAdditionalSpecFns;
use vstd::utf8::{decode_utf8, valid_utf8};

use super::node::{NodeId, NodeKind, XmlAttribute, XmlNode};
use super::DocumentAccess;
use super::strings::{
    capped_len, kept, lemma_intern_copy_effect, lemma_intern_input_effect, lemma_pool_extends_refl,
    lemma_pool_extends_trans, lookup, lookup_at, pool_extends, pool_fits, pool_wf, StringPool,
};
pub use super::validation::validate_strict;
use super::validation::{validate_run, vstate_init, Validator};
use crate::reader::events::{StartElement, XmlEvent};
use crate::reader::slice::{
    event_of, lemma_read_all_step, lemma_read_from, read_all, tag_attrs, token_text, SliceReader,
};
use crate::xml_core::attributes::{attrs_model, cow_bytes, name_prefix, opt_view};
use crate::index::structural::{local_name_bytes, local_part};
use crate::xml_core::primitives::{
    bytes_eq, has_prefix, offset_within, starts_with, str_eq, utf8_str,
};
use crate::xml_core::tokenizer::model::{ParseState, TokView, TokenKind};

verus! {

// =============================================================================
// Tree shape
// =============================================================================
/// Every link of a node names a node of the list.
pub open spec fn links_in(n: XmlNode, len: int) -> bool {
    &&& n.parent matches Some(p) ==> p < len
    &&& n.first_child matches Some(c) ==> c < len
    &&& n.last_child matches Some(c) ==> c < len
    &&& n.prev_sibling matches Some(c) ==> c < len
    &&& n.next_sibling matches Some(c) ==> c < len
}

/// Node `j` is a child of node `p`.
pub open spec fn is_child_of(nodes: Seq<XmlNode>, p: int, j: int) -> bool {
    0 <= j < nodes.len() && nodes[j].parent == Some(p as NodeId)
}

/// The child and sibling links of node `x` follow ID order, which is document order: the
/// first and last child are the first and last node whose parent is `x`, and the next
/// and previous sibling are the nearest nodes after and before `x` with `x`'s parent.
pub open spec fn node_links_ordered(nodes: Seq<XmlNode>, x: int) -> bool {
    &&& match nodes[x].first_child {
        Some(c) => is_child_of(nodes, x, c as int) && forall|j: int|
            0 <= j < c ==> !#[trigger] is_child_of(nodes, x, j),
        None => forall|j: int| !#[trigger] is_child_of(nodes, x, j),
    }
    &&& match nodes[x].last_child {
        Some(c) => is_child_of(nodes, x, c as int) && forall|j: int|
            c < j ==> !#[trigger] is_child_of(nodes, x, j),
        None => forall|j: int| !#[trigger] is_child_of(nodes, x, j),
    }
    &&& match nodes[x].next_sibling {
        Some(d) => nodes[x].parent matches Some(q) && x < d && is_child_of(nodes, q as int, d as int)
            && forall|j: int| x < j < d ==> !#[trigger] is_child_of(nodes, q as int, j),
        None => nodes[x].parent matches Some(q) ==> forall|j: int|
            x < j ==> !#[trigger] is_child_of(nodes, q as int, j),
    }
    &&& match nodes[x].prev_sibling {
        Some(d) => nodes[x].parent matches Some(q) && d < x && is_child_of(nodes, q as int, d as int)
            && forall|j: int| d < j < x ==> !#[trigger] is_child_of(nodes, q as int, j),
        None => nodes[x].parent matches Some(q) ==> forall|j: int|
            0 <= j < x ==> !#[trigger] is_child_of(nodes, q as int, j),
    }
}

/// The nodes form a tree rooted at the document node 0: every link names a node of the
/// list, each other node's parent comes before it, a next sibling comes after, and the
/// child and sibling links list each node's children in document order.
pub open spec fn tree_wf(nodes: Seq<XmlNode>) -> bool {
    &&& forall|x: int| 0 <= x < nodes.len() ==> #[trigger] node_links_ordered(nodes, x)
    &&& nodes.len() >= 1
    &&& nodes[0].kind == NodeKind::Document
    &&& nodes[0].parent is None
    &&& forall|i: int| 0 <= i < nodes.len() ==> links_in(#[trigger] nodes[i], nodes.len() as int)
    &&& forall|i: int|
        1 <= i < nodes.len() ==> ((#[trigger] nodes[i]).parent is Some && nodes[i].parent->0 < i)
    &&& forall|i: int|
        0 <= i < nodes.len() ==> ((#[trigger] nodes[i]).next_sibling matches Some(d) ==> i < d)
    &&& forall|i: int|
        0 <= i < nodes.len() ==> ((#[trigger] nodes[i]).prev_sibling matches Some(d) ==> d < i)
}

/// The root element, when there is one, is an element child of the document node.
pub open spec fn root_ok(nodes: Seq<XmlNode>, root: Option<NodeId>) -> bool {
    root matches Some(r) ==> 0 < r < nodes.len() && nodes[r as int].kind == NodeKind::Element
        && nodes[r as int].parent == Some(0u32)
}

/// Whether `a` is reached from `i` by following parents, in at most `fuel` steps.
pub open spec fn below(nodes: Seq<XmlNode>, a: int, i: int, fuel: nat) -> bool
    decreases fuel,
{
    if fuel == 0 || i < 0 || i >= nodes.len() {
        false
    } else {
        match nodes[i].parent {
            Some(p) => p == a || below(nodes, a, p as int, (fuel - 1) as nat),
            None => false,
        }
    }
}

// =============================================================================
// Building
// =============================================================================
/// The nodes after the last node `c` is linked as the last child of `p`: it follows the
/// previous last child, if any, else it becomes the first child too.
pub open spec fn linked(o: Seq<XmlNode>, p: int, c: int) -> Seq<XmlNode> {
    match o[p].last_child {
        Some(l) => {
            let a = o.update(c, XmlNode { prev_sibling: Some(l), ..o[c] });
            let b = a.update(l as int, XmlNode { next_sibling: Some(c as NodeId), ..a[l as int] });
            b.update(p, XmlNode { last_child: Some(c as NodeId), ..b[p] })
        },
        None => o.update(
            p,
            XmlNode { first_child: Some(c as NodeId), last_child: Some(c as NodeId), ..o[p] },
        ),
    }
}

/// The facts under which linking keeps the tree well formed.
pub open spec fn can_link(o: Seq<XmlNode>, p: int, c: int) -> bool {
    &&& tree_wf(o.drop_last())
    &&& o.len() >= 2
    &&& c == o.len() - 1
    &&& 0 <= p < c
    &&& c <= u32::MAX
    &&& o[c].parent == Some(p as NodeId)
    &&& o[c].first_child is None && o[c].last_child is None
    &&& o[c].prev_sibling is None && o[c].next_sibling is None
}

/// Linking the last node as the last child of an earlier node keeps the tree well
/// formed.
proof fn lemma_linked_wf(o: Seq<XmlNode>, p: int, c: int)
    requires
        can_link(o, p, c),
    ensures
        tree_wf(linked(o, p, c)),
{
    let n = linked(o, p, c);
    let q = o.drop_last();
    assert(links_in(q[p], q.len() as int));
    assert forall|i: int| 0 <= i < n.len() implies links_in(#[trigger] n[i], n.len() as int) by {
        if i < q.len() {
            assert(links_in(q[i], q.len() as int));
        }
    }
    assert forall|i: int| 1 <= i < n.len() implies ((#[trigger] n[i]).parent is Some && n[i].parent->0 < i) by {
        if i < q.len() {
            assert(q[i].parent is Some && q[i].parent->0 < i);
        }
    }
    assert forall|i: int| 0 <= i < n.len() implies ((#[trigger] n[i]).next_sibling matches Some(d) ==> i < d) by {
        if i < q.len() {
            assert(q[i].next_sibling matches Some(d) ==> i < d);
        }
    }
    assert forall|i: int| 0 <= i < n.len() implies ((#[trigger] n[i]).prev_sibling matches Some(d) ==> d < i) by {
        if i < q.len() {
            assert(q[i].prev_sibling matches Some(d) ==> d < i);
        }
    }
    lemma_linked_ordered(o, p, c);
}

/// Linking keeps the links in document order: the new node comes after every node, so it
/// becomes the last child of `p`, after `p`'s previous last child.
proof fn lemma_linked_ordered(o: Seq<XmlNode>, p: int, c: int)
    requires
        can_link(o, p, c),
    ensures
        forall|x: int| 0 <= x < linked(o, p, c).len() ==> #[trigger] node_links_ordered(
            linked(o, p, c),
            x,
        ),
{
    let n = linked(o, p, c);
    let q = o.drop_last();
    assert(n.len() == o.len());
    assert forall|j: int| 0 <= j < n.len() implies (#[trigger] n[j]).parent == o[j].parent by {}
    assert forall|x: int, j: int| 0 <= x < n.len() implies #[trigger] is_child_of(n, x, j) == (
    is_child_of(q, x, j) || (j == c && x == p)) by {
        if 0 <= j < n.len() {
            assert(n[j].parent == o[j].parent);
            if j < q.len() {
                assert(q[j] == o[j]);
            }
        }
    }
    assert(node_links_ordered(q, p));
    let ol = o[p].last_child;
    if let Some(l) = ol {
        assert(q[p].last_child == Some(l));
        assert(is_child_of(q, p, l as int));
        assert(node_links_ordered(q, l as int));
        assert(q[p].first_child is Some);
    }
    assert forall|x: int| 0 <= x < n.len() implies #[trigger] node_links_ordered(n, x) by {
        if x == c {
            assert forall|j: int| !#[trigger] is_child_of(n, c, j) by {
                if 0 <= j < q.len() && q[j].parent == Some(c as NodeId) {
                    assert(q[j].parent->0 < j || j == 0);
                }
            }
            if let Some(l) = ol {
                assert(n[c].prev_sibling == Some(l));
                assert forall|j: int| l < j < c implies !#[trigger] is_child_of(n, p, j) by {
                    assert(!is_child_of(q, p, j));
                }
            } else {
                assert forall|j: int| 0 <= j < c implies !#[trigger] is_child_of(n, p, j) by {
                    assert(!is_child_of(q, p, j));
                }
            }
            assert(node_links_ordered(n, x));
        } else {
            assert(node_links_ordered(q, x));
            if x == p {
                if let Some(l) = ol {
                    assert(n[p].first_child == q[p].first_child);
                }
                assert(node_links_ordered(n, x));
            } else if ol == Some(x as NodeId) {
                assert(n[x].next_sibling == Some(c as NodeId));
                assert(q[x].parent == Some(p as NodeId));
                assert(node_links_ordered(n, x));
            } else {
                assert(n[x].next_sibling == q[x].next_sibling);
                assert(n[x].prev_sibling == q[x].prev_sibling);
                assert(n[x].first_child == q[x].first_child);
                assert(n[x].last_child == q[x].last_child);
                if let Some(pp) = q[x].parent {
                    assert(x >= 1);
                    assert(pp < x);
                    assert(is_child_of(q, pp as int, x));
                    if pp == p as NodeId {
                        if let Some(l) = ol {
                            if q[x].next_sibling is None {
                                assert(is_child_of(q, p, l as int));
                                assert(!(l < x));
                                assert(false);
                            }
                        } else {
                            assert(false);
                        }
                    }
                }
                assert(node_links_ordered(n, x));
            }
        }
    }
}

// =============================================================================
// What the nodes are
// =============================================================================
/// The kind and parent of each node after the document node, in ID order.
pub open spec fn shape(nodes: Seq<XmlNode>) -> Seq<(NodeKind, Option<NodeId>)> {
    Seq::new((nodes.len() - 1) as nat, |i: int| (nodes[i + 1].kind, nodes[i + 1].parent))
}

/// The kind of node that an event of a token of kind `k` adds, if it adds one.
pub open spec fn tok_node(k: TokenKind) -> Option<NodeKind> {
    match k {
        TokenKind::StartTag | TokenKind::EmptyTag => Some(NodeKind::Element),
        TokenKind::Text => Some(NodeKind::Text),
        TokenKind::CData => Some(NodeKind::CData),
        TokenKind::Comment => Some(NodeKind::Comment),
        TokenKind::ProcessingInstruction => Some(NodeKind::ProcessingInstruction),
        _ => None,
    }
}

/// One event of a token of kind `k` on the nodes (kind and parent, as `shape` gives
/// them) and the stack of open elements: a node is added under the innermost open
/// element (the document node when none is open), a start tag opens its element,
/// an end tag closes the innermost one.
pub open spec fn shape_step(
    nodes: Seq<(NodeKind, Option<NodeId>)>,
    stack: Seq<NodeId>,
    k: TokenKind,
) -> (Seq<(NodeKind, Option<NodeId>)>, Seq<NodeId>) {
    let parent: NodeId = if stack.len() > 0 {
        stack.last()
    } else {
        0
    };
    match tok_node(k) {
        Some(kind) => (
            nodes.push((kind, Some(parent))),
            if k == TokenKind::StartTag {
                stack.push((nodes.len() + 1) as NodeId)
            } else {
                stack
            },
        ),
        None => (
            nodes,
            if k == TokenKind::EndTag && stack.len() > 0 {
                stack.drop_last()
            } else {
                stack
            },
        ),
    }
}

/// The nodes and the open elements after the events of the tokens `toks`, from a
/// document with only its document node open.
pub open spec fn dom_shape(toks: Seq<TokView>) -> (Seq<(NodeKind, Option<NodeId>)>, Seq<NodeId>)
    decreases toks.len(),
{
    if toks.len() == 0 {
        (seq![], seq![0u32])
    } else {
        let prev = dom_shape(toks.drop_last());
        shape_step(prev.0, prev.1, toks.last().kind)
    }
}

/// The token kind that an event stands for.
pub open spec fn event_kind(e: XmlEvent<'_>) -> TokenKind {
    match e {
        XmlEvent::StartElement(_) => TokenKind::StartTag,
        XmlEvent::EndElement(_) => TokenKind::EndTag,
        XmlEvent::EmptyElement(_) => TokenKind::EmptyTag,
        XmlEvent::Text(_) => TokenKind::Text,
        XmlEvent::CData(_) => TokenKind::CData,
        XmlEvent::Comment(_) => TokenKind::Comment,
        XmlEvent::ProcessingInstruction { .. } => TokenKind::ProcessingInstruction,
        XmlEvent::XmlDeclaration { .. } => TokenKind::XmlDeclaration,
        XmlEvent::DocType(_) => TokenKind::DocType,
        XmlEvent::EndDocument => TokenKind::Eof,
    }
}

/// The event of a token stands for the token's kind.
proof fn lemma_event_kind(s: Seq<u8>, t: TokView, strict: bool, e: XmlEvent<'_>)
    requires
        event_of(s, t, strict, e),
    ensures
        event_kind(e) == t.kind,
{
}

/// Linking changes no node's kind or parent.
proof fn lemma_linked_shape(o: Seq<XmlNode>, p: int, c: int)
    requires
        0 <= p < o.len(),
        0 <= c < o.len(),
        o[p].last_child matches Some(l) ==> 0 <= l < o.len(),
    ensures
        shape(linked(o, p, c)) == shape(o),
{
    assert(shape(linked(o, p, c)) =~= shape(o));
}

/// The string that names the node of a token's event: the name of an element or
/// processing instruction, the content of a text, CDATA section or comment.
pub open spec fn tok_string(t: TokView) -> Seq<u8> {
    match t.kind {
        TokenKind::StartTag | TokenKind::EmptyTag | TokenKind::ProcessingInstruction => match t.name {
            Some(n) => n,
            None => seq![],
        },
        _ => match t.content {
            Some(c) => c,
            None => seq![],
        },
    }
}

/// The strings of the nodes that the events of the tokens `toks` add, in order, as
/// the pool keeps them.
pub open spec fn dom_strings(toks: Seq<TokView>) -> Seq<Seq<u8>>
    decreases toks.len(),
{
    if toks.len() == 0 {
        seq![]
    } else {
        let prev = dom_strings(toks.drop_last());
        if tok_node(toks.last().kind) is Some {
            prev.push(kept(tok_string(toks.last())))
        } else {
            prev
        }
    }
}

/// The string that names the node of an event.
pub open spec fn event_string(e: XmlEvent<'_>) -> Seq<u8> {
    match e {
        XmlEvent::StartElement(x) => x.name@,
        XmlEvent::EmptyElement(x) => x.name@,
        XmlEvent::Text(c) => c@,
        XmlEvent::CData(c) => c@,
        XmlEvent::Comment(c) => c@,
        XmlEvent::ProcessingInstruction { target, .. } => target@,
        _ => seq![],
    }
}

/// The event of a token that adds a node names it by the token's string.
proof fn lemma_event_string(s: Seq<u8>, t: TokView, strict: bool, e: XmlEvent<'_>)
    requires
        event_of(s, t, strict, e),
        tok_node(t.kind) is Some,
    ensures
        event_string(e) == tok_string(t),
{
}

/// The nodes after the document node are named, through the pool and against the
/// input, by the strings `strs`.
pub open spec fn names_match(
    nodes: Seq<XmlNode>,
    strings: StringPool,
    input: Seq<u8>,
    strs: Seq<Seq<u8>>,
) -> bool {
    &&& nodes.len() == strs.len() + 1
    &&& forall|i: int|
        0 <= i < strs.len() ==> lookup(
            strings.spec_entries(),
            strings.spec_data(),
            Some(input),
            #[trigger] nodes[i + 1].name_id,
        ) == Some(strs[i])
}

/// The pool is well formed, with its reserved entry, over an input that 32-bit
/// offsets reach.
pub open spec fn pool_ok(strings: StringPool, input: Seq<u8>) -> bool {
    &&& pool_wf(strings.spec_entries(), strings.spec_data())
    &&& strings.spec_entries().len() >= 1
    &&& input.len() < u32::MAX
}

/// A pool that fits 32 bits fitted them before it grew.
proof fn lemma_fits_shrink(a: StringPool, b: StringPool, input: Seq<u8>)
    requires
        pool_extends(a, b, input),
        pool_fits(b.spec_entries(), b.spec_data()),
    ensures
        pool_fits(a.spec_entries(), a.spec_data()),
{
}

/// A lookup that finds a string names an ID of the pool.
proof fn lemma_lookup_in_range(strings: StringPool, input: Seq<u8>, id: u32)
    requires
        lookup(strings.spec_entries(), strings.spec_data(), Some(input), id) is Some,
        strings.spec_entries().len() >= 1,
    ensures
        (id as int) < strings.spec_entries().len(),
{
}

/// The attributes (name, value) that the event of a token gives its node: those of
/// the tag for an element, none for another node.
pub open spec fn tok_attrs(s: Seq<u8>, t: TokView, strict: bool) -> Seq<(Seq<u8>, Seq<u8>)> {
    if t.kind == TokenKind::StartTag || t.kind == TokenKind::EmptyTag {
        tag_attrs(token_text(s, t), strict).0
    } else {
        seq![]
    }
}

/// The attributes of the nodes that the events of the tokens `toks` add, in order.
pub open spec fn dom_attrs(s: Seq<u8>, toks: Seq<TokView>, strict: bool) -> Seq<
    Seq<(Seq<u8>, Seq<u8>)>,
>
    decreases toks.len(),
{
    if toks.len() == 0 {
        seq![]
    } else {
        let prev = dom_attrs(s, toks.drop_last(), strict);
        if tok_node(toks.last().kind) is Some {
            prev.push(tok_attrs(s, toks.last(), strict))
        } else {
            prev
        }
    }
}

// =============================================================================
// Namespaces
// =============================================================================
/// The namespace declarations of one element: its `xmlns:p` bindings (prefix, URI), in
/// order, and the URI of its last `xmlns` attribute.
pub struct NsScope {
    pub bindings: Seq<(Seq<u8>, Seq<u8>)>,
    pub default: Option<Seq<u8>>,
}

/// `xmlns`
pub open spec fn lit_xmlns() -> Seq<u8> {
    seq![0x78u8, 0x6Du8, 0x6Cu8, 0x6Eu8, 0x73u8]
}

/// `xmlns:`
pub open spec fn lit_xmlns_colon() -> Seq<u8> {
    seq![0x78u8, 0x6Du8, 0x6Cu8, 0x6Eu8, 0x73u8, 0x3Au8]
}

/// The namespace declarations among the attributes (name, value) of an element.
pub open spec fn scope_of(attrs: Seq<(Seq<u8>, Seq<u8>)>) -> NsScope
    decreases attrs.len(),
{
    if attrs.len() == 0 {
        NsScope { bindings: seq![], default: None }
    } else {
        let prev = scope_of(attrs.drop_last());
        let a = attrs.last();
        if a.0 == lit_xmlns() {
            NsScope { default: Some(a.1), ..prev }
        } else if has_prefix(a.0, lit_xmlns_colon()) {
            NsScope { bindings: prev.bindings.push((a.0.skip(6), a.1)), ..prev }
        } else {
            prev
        }
    }
}

/// The URI of the first binding of prefix `pf`.
pub open spec fn binding_of(b: Seq<(Seq<u8>, Seq<u8>)>, pf: Seq<u8>) -> Option<Seq<u8>>
    decreases b.len(),
{
    if b.len() == 0 {
        None
    } else if b[0].0 == pf {
        Some(b[0].1)
    } else {
        binding_of(b.drop_first(), pf)
    }
}

/// The URI that prefix `pf` resolves to in the scopes, innermost first: the first
/// binding of the innermost scope that binds `pf` to a non-empty URI (a binding to the
/// empty URI is passed over); empty when there is none.
pub open spec fn resolve_prefix(scopes: Seq<NsScope>, pf: Seq<u8>) -> Seq<u8>
    decreases scopes.len(),
{
    if scopes.len() == 0 {
        seq![]
    } else {
        match binding_of(scopes.last().bindings, pf) {
            Some(u) => if u.len() > 0 {
                u
            } else {
                resolve_prefix(scopes.drop_last(), pf)
            },
            None => resolve_prefix(scopes.drop_last(), pf),
        }
    }
}

/// The namespace URI of an element (empty for none) with declarations `own`, inside the
/// open elements' scopes: a prefixed name resolves its prefix in those scopes and its
/// own, its own first; an unprefixed name takes its own default namespace, else the one
/// that the innermost open element declares.
pub open spec fn element_ns(scopes: Seq<NsScope>, own: NsScope, prefix: Option<Seq<u8>>) -> Seq<
    u8,
> {
    if prefix is Some && prefix->0.len() > 0 {
        resolve_prefix(scopes.push(own), prefix->0)
    } else {
        match own.default {
            Some(u) => u,
            None => if scopes.len() > 0 {
                match scopes.last().default {
                    Some(u) => u,
                    None => seq![],
                }
            } else {
                seq![]
            },
        }
    }
}

/// The namespace URIs of the nodes that the events of the tokens `toks` add (empty for
/// nodes that are not elements), and the scopes of the open elements, the document's
/// own (empty) scope first.
pub open spec fn dom_ns(s: Seq<u8>, toks: Seq<TokView>, strict: bool) -> (Seq<Seq<u8>>, Seq<NsScope>)
    decreases toks.len(),
{
    if toks.len() == 0 {
        (seq![], seq![NsScope { bindings: seq![], default: None }])
    } else {
        let prev = dom_ns(s, toks.drop_last(), strict);
        let t = toks.last();
        if t.kind == TokenKind::StartTag || t.kind == TokenKind::EmptyTag {
            let own = scope_of(tok_attrs(s, t, strict));
            let u = element_ns(prev.1, own, name_prefix(t.name->0));
            (
                prev.0.push(u),
                if t.kind == TokenKind::StartTag {
                    prev.1.push(own)
                } else {
                    prev.1
                },
            )
        } else if t.kind == TokenKind::EndTag {
            (prev.0, if prev.1.len() > 0 {
                prev.1.drop_last()
            } else {
                prev.1
            })
        } else if tok_node(t.kind) is Some {
            (prev.0.push(seq![]), prev.1)
        } else {
            prev
        }
    }
}

/// The bytes of an optional prefix (empty when there is none).
pub open spec fn prefix_bytes(p: Option<Seq<u8>>) -> Seq<u8> {
    match p {
        Some(x) => x,
        None => seq![],
    }
}

/// The prefixes of the nodes that the events of the tokens `toks` add: an element's
/// name up to its first colon, empty for an unprefixed name and for other nodes.
pub open spec fn dom_prefixes(toks: Seq<TokView>) -> Seq<Seq<u8>>
    decreases toks.len(),
{
    if toks.len() == 0 {
        seq![]
    } else {
        let prev = dom_prefixes(toks.drop_last());
        let t = toks.last();
        if t.kind == TokenKind::StartTag || t.kind == TokenKind::EmptyTag {
            prev.push(prefix_bytes(name_prefix(t.name->0)))
        } else if tok_node(t.kind) is Some {
            prev.push(seq![])
        } else {
            prev
        }
    }
}

/// Each node after the document node names, by its prefix ID, the kept bytes of its
/// prefix.
pub open spec fn prefixes_match(nodes: Seq<XmlNode>, strings: StringPool, input: Seq<u8>, ps: Seq<Seq<u8>>) -> bool {
    forall|i: int|
        0 <= i < ps.len() ==> lookup(
            strings.spec_entries(),
            strings.spec_data(),
            Some(input),
            #[trigger] nodes[i + 1].prefix_id,
        ) == Some(kept(ps[i]))
}

/// The prefix of the node that an event adds (empty unless it is a prefixed element).
pub open spec fn event_prefix(e: XmlEvent<'_>) -> Seq<u8> {
    match e {
        XmlEvent::StartElement(x) => prefix_bytes(opt_view(x.prefix)),
        XmlEvent::EmptyElement(x) => prefix_bytes(opt_view(x.prefix)),
        _ => seq![],
    }
}

/// The prefix IDs of the nodes keep naming their prefixes as the pool grows and a node
/// is added.
proof fn lemma_prefix_step(
    nodes0: Seq<XmlNode>,
    q0: StringPool,
    nodes1: Seq<XmlNode>,
    q1: StringPool,
    input: Seq<u8>,
    ps: Seq<Seq<u8>>,
    added: Option<Seq<u8>>,
)
    requires
        pool_ok(q0, input),
        pool_extends(q0, q1, input),
        pool_fits(q0.spec_entries(), q0.spec_data()) ==> prefixes_match(nodes0, q0, input, ps),
        nodes0.len() == ps.len() + 1,
        forall|i: int|
            0 <= i < nodes0.len() ==> (#[trigger] nodes1[i]).prefix_id == nodes0[i].prefix_id,
        nodes1.len() == nodes0.len() + (if added is Some {
            1int
        } else {
            0int
        }),
        added matches Some(x) ==> (pool_fits(q1.spec_entries(), q1.spec_data()) ==> lookup(
            q1.spec_entries(),
            q1.spec_data(),
            Some(input),
            nodes1[nodes0.len() as int].prefix_id,
        ) == Some(kept(x))),
    ensures
        pool_fits(q1.spec_entries(), q1.spec_data()) ==> prefixes_match(
            nodes1,
            q1,
            input,
            match added {
                Some(x) => ps.push(x),
                None => ps,
            },
        ),
{
    if pool_fits(q1.spec_entries(), q1.spec_data()) {
        lemma_fits_shrink(q0, q1, input);
        let ps1 = match added {
            Some(x) => ps.push(x),
            None => ps,
        };
        assert forall|i: int| 0 <= i < ps1.len() implies lookup(
            q1.spec_entries(),
            q1.spec_data(),
            Some(input),
            #[trigger] nodes1[i + 1].prefix_id,
        ) == Some(kept(ps1[i])) by {
            if i < ps.len() {
                let id = nodes0[i + 1].prefix_id;
                assert(nodes1[i + 1].prefix_id == id);
                assert(lookup(q0.spec_entries(), q0.spec_data(), Some(input), id) == Some(
                    kept(ps[i]),
                ));
                lemma_lookup_stays(q0, q1, input, id, kept(ps[i]));
            }
        }
    }
}

/// Each node after the document node names, by its namespace ID, the kept bytes of its
/// namespace URI.
pub open spec fn ns_match(nodes: Seq<XmlNode>, strings: StringPool, input: Seq<u8>, uris: Seq<Seq<u8>>) -> bool {
    forall|i: int|
        0 <= i < uris.len() ==> lookup(
            strings.spec_entries(),
            strings.spec_data(),
            Some(input),
            #[trigger] nodes[i + 1].namespace_id,
        ) == Some(kept(uris[i]))
}

/// ID `id` stands for URI `u`: it is 0 exactly when `u` is empty, and resolves to the
/// kept bytes of `u`, while the pool fits 32 bits.
pub open spec fn uri_is(id: u32, strings: StringPool, input: Seq<u8>, u: Seq<u8>) -> bool {
    pool_fits(strings.spec_entries(), strings.spec_data()) ==> ((id == 0) == (u.len() == 0)
        && lookup(strings.spec_entries(), strings.spec_data(), Some(input), id) == Some(kept(u)))
}

/// The builder's scope stacks hold the scopes `sc`: each binding's prefix bytes and URI
/// ID, and each default's URI ID.
pub open spec fn scopes_are(
    ns: Seq<Vec<(Vec<u8>, u32)>>,
    dns: Seq<Option<u32>>,
    strings: StringPool,
    input: Seq<u8>,
    sc: Seq<NsScope>,
) -> bool {
    &&& ns.len() == sc.len()
    &&& dns.len() == sc.len()
    &&& forall|k: int| 0 <= k < sc.len() ==> (#[trigger] ns[k])@.len() == sc[k].bindings.len()
    &&& forall|k: int, j: int|
        0 <= k < sc.len() && 0 <= j < sc[k].bindings.len() ==> (#[trigger] ns[k]@[j]).0@
            == sc[k].bindings[j].0 && uri_is(ns[k]@[j].1, strings, input, sc[k].bindings[j].1)
    &&& forall|k: int|
        0 <= k < sc.len() ==> match #[trigger] dns[k] {
            Some(id) => sc[k].default matches Some(u) && uri_is(id, strings, input, u),
            None => sc[k].default is None,
        }
}

/// A URI ID keeps standing for its URI as the pool grows.
proof fn lemma_uri_stays(q0: StringPool, q1: StringPool, input: Seq<u8>, id: u32, u: Seq<u8>)
    requires
        pool_ok(q0, input),
        pool_extends(q0, q1, input),
        uri_is(id, q0, input, u),
    ensures
        uri_is(id, q1, input, u),
{
    if pool_fits(q1.spec_entries(), q1.spec_data()) {
        lemma_fits_shrink(q0, q1, input);
        lemma_lookup_stays(q0, q1, input, id, kept(u));
    }
}

/// The scope stacks keep standing for their scopes as the pool grows.
proof fn lemma_scopes_stay(
    ns: Seq<Vec<(Vec<u8>, u32)>>,
    dns: Seq<Option<u32>>,
    q0: StringPool,
    q1: StringPool,
    input: Seq<u8>,
    sc: Seq<NsScope>,
)
    requires
        pool_ok(q0, input),
        pool_extends(q0, q1, input),
        scopes_are(ns, dns, q0, input, sc),
    ensures
        scopes_are(ns, dns, q1, input, sc),
{
    assert forall|k: int, j: int|
        0 <= k < sc.len() && 0 <= j < sc[k].bindings.len() implies (#[trigger] ns[k]@[j]).0@
        == sc[k].bindings[j].0 && uri_is(ns[k]@[j].1, q1, input, sc[k].bindings[j].1) by {
        lemma_uri_stays(q0, q1, input, ns[k]@[j].1, sc[k].bindings[j].1);
    }
    assert forall|k: int| 0 <= k < sc.len() implies match #[trigger] dns[k] {
        Some(id) => sc[k].default matches Some(u) && uri_is(id, q1, input, u),
        None => sc[k].default is None,
    } by {
        if let Some(id) = dns[k] {
            lemma_uri_stays(q0, q1, input, id, sc[k].default->0);
        }
    }
}

/// The namespace IDs of the nodes keep naming their URIs as the pool grows and a node is
/// added.
proof fn lemma_ns_step(
    nodes0: Seq<XmlNode>,
    q0: StringPool,
    nodes1: Seq<XmlNode>,
    q1: StringPool,
    input: Seq<u8>,
    uris: Seq<Seq<u8>>,
    added: Option<Seq<u8>>,
)
    requires
        pool_ok(q0, input),
        pool_extends(q0, q1, input),
        pool_fits(q0.spec_entries(), q0.spec_data()) ==> ns_match(nodes0, q0, input, uris),
        nodes0.len() == uris.len() + 1,
        forall|i: int|
            0 <= i < nodes0.len() ==> (#[trigger] nodes1[i]).namespace_id == nodes0[i].namespace_id,
        nodes1.len() == nodes0.len() + (if added is Some {
            1int
        } else {
            0int
        }),
        added matches Some(x) ==> (pool_fits(q1.spec_entries(), q1.spec_data()) ==> lookup(
            q1.spec_entries(),
            q1.spec_data(),
            Some(input),
            nodes1[nodes0.len() as int].namespace_id,
        ) == Some(kept(x))),
    ensures
        pool_fits(q1.spec_entries(), q1.spec_data()) ==> ns_match(
            nodes1,
            q1,
            input,
            match added {
                Some(x) => uris.push(x),
                None => uris,
            },
        ),
{
    if pool_fits(q1.spec_entries(), q1.spec_data()) {
        lemma_fits_shrink(q0, q1, input);
        let uris1 = match added {
            Some(x) => uris.push(x),
            None => uris,
        };
        assert forall|i: int| 0 <= i < uris1.len() implies lookup(
            q1.spec_entries(),
            q1.spec_data(),
            Some(input),
            #[trigger] nodes1[i + 1].namespace_id,
        ) == Some(kept(uris1[i])) by {
            if i < uris.len() {
                let id = nodes0[i + 1].namespace_id;
                assert(nodes1[i + 1].namespace_id == id);
                assert(lookup(q0.spec_entries(), q0.spec_data(), Some(input), id) == Some(
                    kept(uris[i]),
                ));
                lemma_lookup_stays(q0, q1, input, id, kept(uris[i]));
            }
        }
    }
}

/// The URI ID of the first binding of `pf` in a scope's bindings, if any.
fn find_binding(
    scope: &Vec<(Vec<u8>, u32)>,
    pf: &[u8],
    Ghost(b): Ghost<Seq<(Seq<u8>, Seq<u8>)>>,
    Ghost(strings): Ghost<StringPool>,
    Ghost(input): Ghost<Seq<u8>>,
) -> (r: Option<u32>)
    requires
        scope@.len() == b.len(),
        forall|j: int|
            0 <= j < b.len() ==> (#[trigger] scope@[j]).0@ == b[j].0 && uri_is(
                scope@[j].1,
                strings,
                input,
                b[j].1,
            ),
    ensures
        match binding_of(b, pf@) {
            Some(u) => r matches Some(id) && uri_is(id, strings, input, u),
            None => r is None,
        },
{
    let mut j: usize = 0;
    assert(b.skip(0) =~= b);
    while j < scope.len()
        invariant
            j <= b.len(),
            scope@.len() == b.len(),
            binding_of(b, pf@) == binding_of(b.skip(j as int), pf@),
            forall|i: int|
                0 <= i < b.len() ==> (#[trigger] scope@[i]).0@ == b[i].0 && uri_is(
                    scope@[i].1,
                    strings,
                    input,
                    b[i].1,
                ),
        decreases scope.len() - j,
    {
        assert(scope@[j as int].0@ == b[j as int].0);
        assert(b.skip(j as int)[0] == b[j as int]);
        if bytes_eq(scope[j].0.as_slice(), pf) {
            return Some(scope[j].1);
        }
        assert(b.skip(j as int).drop_first() =~= b.skip(j + 1));
        j += 1;
    }
    None
}

/// The namespace URI ID of an element whose own declarations are `scope_ns` and
/// `scope_default`, inside the open elements' scopes.
fn resolve_namespace(
    ns_scopes: &Vec<Vec<(Vec<u8>, u32)>>,
    default_ns: &Vec<Option<u32>>,
    scope_ns: &Vec<(Vec<u8>, u32)>,
    scope_default: Option<u32>,
    prefix: &Option<Cow<'_, [u8]>>,
    Ghost(sc): Ghost<Seq<NsScope>>,
    Ghost(own): Ghost<NsScope>,
    Ghost(strings): Ghost<StringPool>,
    Ghost(input): Ghost<Seq<u8>>,
) -> (r: u32)
    requires
        scopes_are(ns_scopes@, default_ns@, strings, input, sc),
        scopes_are(seq![*scope_ns], seq![scope_default], strings, input, seq![own]),
    ensures
        uri_is(r, strings, input, element_ns(sc, own, opt_view(*prefix))),
{
    let ghost all = sc.push(own);
    let ghost fits = pool_fits(strings.spec_entries(), strings.spec_data());
    assert(seq![*scope_ns][0] == *scope_ns);
    assert(seq![own][0] == own);
    assert(seq![scope_default][0] == scope_default);
    match prefix {
        Some(p) => {
            let pf = cow_bytes(p);
            if pf.len() > 0 {
                assert forall|j: int| 0 <= j < own.bindings.len() implies (#[trigger] scope_ns@[j]).0@
                    == own.bindings[j].0 && uri_is(scope_ns@[j].1, strings, input, own.bindings[j].1) by {
                    assert(seq![*scope_ns][0]@[j] == scope_ns@[j]);
                }
                match find_binding(scope_ns, pf, Ghost(own.bindings), Ghost(strings), Ghost(input)) {
                    Some(u) => {
                        if u != 0 {
                            return u;
                        }
                    },
                    None => {},
                }
                assert(all.drop_last() =~= sc);
                assert(fits ==> resolve_prefix(all, pf@) == resolve_prefix(sc, pf@));
                let mut k = ns_scopes.len();
                assert(sc.take(k as int) =~= sc);
                while k > 0
                    invariant
                        k <= sc.len(),
                        scopes_are(ns_scopes@, default_ns@, strings, input, sc),
                        fits == pool_fits(strings.spec_entries(), strings.spec_data()),
                        fits ==> resolve_prefix(all, pf@) == resolve_prefix(sc.take(k as int), pf@),
                        all == sc.push(own),
                        opt_view(*prefix) == Some(pf@),
                        pf@.len() > 0,
                    decreases k,
                {
                    let ghost cur = sc.take(k as int);
                    assert(cur.last() == sc[k - 1]);
                    assert(cur.drop_last() =~= sc.take(k - 1));
                    assert forall|j: int| 0 <= j < sc[k - 1].bindings.len() implies (
                    #[trigger] ns_scopes@[k - 1]@[j]).0@ == sc[k - 1].bindings[j].0 && uri_is(
                        ns_scopes@[k - 1]@[j].1,
                        strings,
                        input,
                        sc[k - 1].bindings[j].1,
                    ) by {}
                    assert(ns_scopes@[k - 1]@.len() == sc[k - 1].bindings.len());
                    match find_binding(
                        &ns_scopes[k - 1],
                        pf,
                        Ghost(sc[k - 1].bindings),
                        Ghost(strings),
                        Ghost(input),
                    ) {
                        Some(u) => {
                            if u != 0 {
                                return u;
                            }
                        },
                        None => {},
                    }
                    k -= 1;
                }
                assert(sc.take(0) =~= Seq::<NsScope>::empty());
                return 0;
            }
        },
        None => {},
    }
    match scope_default {
        Some(u) => u,
        None => {
            if default_ns.len() > 0 {
                match default_ns[default_ns.len() - 1] {
                    Some(u) => u,
                    None => 0,
                }
            } else {
                0
            }
        },
    }
}

/// The open elements' scopes after an event.
pub open spec fn event_scopes(sc: Seq<NsScope>, e: XmlEvent<'_>) -> Seq<NsScope> {
    match e {
        XmlEvent::StartElement(x) => sc.push(scope_of(attrs_model(x.attributes@))),
        XmlEvent::EndElement(_) => if sc.len() > 0 {
            sc.drop_last()
        } else {
            sc
        },
        _ => sc,
    }
}

/// The namespace URI of the node that an event adds (empty unless it is an element).
pub open spec fn event_ns(sc: Seq<NsScope>, e: XmlEvent<'_>) -> Seq<u8> {
    match e {
        XmlEvent::StartElement(x) => element_ns(sc, scope_of(attrs_model(x.attributes@)), opt_view(x.prefix)),
        XmlEvent::EmptyElement(x) => element_ns(sc, scope_of(attrs_model(x.attributes@)), opt_view(x.prefix)),
        _ => seq![],
    }
}

/// The namespace model follows the events: a token's event changes the scopes and
/// names the URI of its node as `dom_ns` does for the token.
proof fn lemma_event_ns(s: Seq<u8>, done: Seq<TokView>, t: TokView, strict: bool, e: XmlEvent<'_>)
    requires
        event_of(s, t, strict, e),
    ensures
        dom_prefixes(done.push(t)) == (if tok_node(t.kind) is Some {
            dom_prefixes(done).push(event_prefix(e))
        } else {
            dom_prefixes(done)
        }),
        dom_ns(s, done.push(t), strict).1 == event_scopes(dom_ns(s, done, strict).1, e),
        dom_ns(s, done.push(t), strict).0 == (if tok_node(t.kind) is Some {
            dom_ns(s, done, strict).0.push(event_ns(dom_ns(s, done, strict).1, e))
        } else {
            dom_ns(s, done, strict).0
        }),
{
    assert(done.push(t).drop_last() =~= done);
    assert(done.push(t).last() == t);
}

/// The attributes (name, value) of an event.
pub open spec fn event_attrs(e: XmlEvent<'_>) -> Seq<(Seq<u8>, Seq<u8>)> {
    match e {
        XmlEvent::StartElement(x) => attrs_model(x.attributes@),
        XmlEvent::EmptyElement(x) => attrs_model(x.attributes@),
        _ => seq![],
    }
}

/// The event of a token that adds a node gives it the token's attributes.
proof fn lemma_event_attrs(s: Seq<u8>, t: TokView, strict: bool, e: XmlEvent<'_>)
    requires
        event_of(s, t, strict, e),
        tok_node(t.kind) is Some,
    ensures
        event_attrs(e) == tok_attrs(s, t, strict),
{
}

/// An attribute's name and value resolve to the kept bytes of `p`.
pub open spec fn attr_is(x: XmlAttribute, strings: StringPool, input: Seq<u8>, p: (Seq<u8>, Seq<u8>)) -> bool {
    &&& lookup(strings.spec_entries(), strings.spec_data(), Some(input), x.name_id) == Some(kept(p.0))
    &&& lookup(strings.spec_entries(), strings.spec_data(), Some(input), x.value_id) == Some(
        kept(p.1),
    )
}

/// A node's range of the attribute list holds the first `u16::MAX` of the attributes
/// `a`, in order.
pub open spec fn node_attrs_are(
    n: XmlNode,
    attributes: Seq<XmlAttribute>,
    strings: StringPool,
    input: Seq<u8>,
    a: Seq<(Seq<u8>, Seq<u8>)>,
) -> bool {
    &&& n.attr_count == capped_len(a.len())
    &&& n.attr_start + n.attr_count <= attributes.len()
    &&& forall|j: int|
        0 <= j < n.attr_count ==> attr_is(
            #[trigger] attributes[n.attr_start + j],
            strings,
            input,
            a[j],
        )
}

/// The nodes after the document node have the attributes `model`.
pub open spec fn attrs_match(
    nodes: Seq<XmlNode>,
    attributes: Seq<XmlAttribute>,
    strings: StringPool,
    input: Seq<u8>,
    model: Seq<Seq<(Seq<u8>, Seq<u8>)>>,
) -> bool {
    &&& nodes.len() == model.len() + 1
    &&& forall|i: int|
        0 <= i < model.len() ==> node_attrs_are(
            #[trigger] nodes[i + 1],
            attributes,
            strings,
            input,
            model[i],
        )
}

/// The pool fits 32 bits and the attribute list's positions fit them too.
pub open spec fn doc_fits(strings: StringPool, attributes: Seq<XmlAttribute>) -> bool {
    pool_fits(strings.spec_entries(), strings.spec_data()) && attributes.len() <= u32::MAX
}

/// What a lookup found in a pool it still finds once the pool has grown, as long as
/// the grown pool fits 32 bits.
proof fn lemma_lookup_stays(q0: StringPool, q1: StringPool, input: Seq<u8>, id: u32, x: Seq<u8>)
    requires
        pool_ok(q0, input),
        pool_extends(q0, q1, input),
        pool_fits(q0.spec_entries(), q0.spec_data()) ==> lookup(
            q0.spec_entries(),
            q0.spec_data(),
            Some(input),
            id,
        ) == Some(x),
    ensures
        pool_fits(q1.spec_entries(), q1.spec_data()) ==> lookup(
            q1.spec_entries(),
            q1.spec_data(),
            Some(input),
            id,
        ) == Some(x),
{
    if pool_fits(q1.spec_entries(), q1.spec_data()) {
        lemma_fits_shrink(q0, q1, input);
        lemma_lookup_in_range(q0, input, id);
        assert(lookup_at(q1.spec_entries(), q1.spec_data(), Some(input), id as int) == lookup_at(
            q0.spec_entries(),
            q0.spec_data(),
            Some(input),
            id as int,
        ));
    }
}

/// A node's attributes stay as they are when the list and the pool grow.
proof fn lemma_node_attrs_stay(
    n: XmlNode,
    attrs0: Seq<XmlAttribute>,
    q0: StringPool,
    attrs1: Seq<XmlAttribute>,
    q1: StringPool,
    input: Seq<u8>,
    a: Seq<(Seq<u8>, Seq<u8>)>,
)
    requires
        pool_ok(q0, input),
        pool_extends(q0, q1, input),
        attrs0.len() <= attrs1.len(),
        forall|k: int| 0 <= k < attrs0.len() ==> #[trigger] attrs1[k] == attrs0[k],
        doc_fits(q0, attrs0) ==> node_attrs_are(n, attrs0, q0, input, a),
    ensures
        doc_fits(q1, attrs1) ==> node_attrs_are(n, attrs1, q1, input, a),
{
    if doc_fits(q1, attrs1) {
        lemma_fits_shrink(q0, q1, input);
        assert forall|j: int| 0 <= j < n.attr_count implies attr_is(
            #[trigger] attrs1[n.attr_start + j],
            q1,
            input,
            a[j],
        ) by {
            let x = attrs0[n.attr_start + j];
            assert(attr_is(x, q0, input, a[j]));
            lemma_lookup_stays(q0, q1, input, x.name_id, kept(a[j].0));
            lemma_lookup_stays(q0, q1, input, x.value_id, kept(a[j].1));
        }
    }
}

/// The attributes stay matched when the list and the pool grow and a node, with the
/// attributes `added`, may be added.
proof fn lemma_attrs_step(
    nodes0: Seq<XmlNode>,
    attrs0: Seq<XmlAttribute>,
    q0: StringPool,
    nodes1: Seq<XmlNode>,
    attrs1: Seq<XmlAttribute>,
    q1: StringPool,
    input: Seq<u8>,
    model: Seq<Seq<(Seq<u8>, Seq<u8>)>>,
    added: Option<Seq<(Seq<u8>, Seq<u8>)>>,
)
    requires
        pool_ok(q0, input),
        pool_extends(q0, q1, input),
        attrs0.len() <= attrs1.len(),
        forall|k: int| 0 <= k < attrs0.len() ==> #[trigger] attrs1[k] == attrs0[k],
        doc_fits(q0, attrs0) ==> attrs_match(nodes0, attrs0, q0, input, model),
        nodes0.len() == model.len() + 1,
        forall|i: int|
            0 <= i < nodes0.len() ==> (#[trigger] nodes1[i]).attr_start == nodes0[i].attr_start
                && nodes1[i].attr_count == nodes0[i].attr_count,
        nodes1.len() == nodes0.len() + (if added is Some {
            1int
        } else {
            0int
        }),
        added matches Some(a) ==> (doc_fits(q1, attrs1) ==> node_attrs_are(
            nodes1[nodes0.len() as int],
            attrs1,
            q1,
            input,
            a,
        )),
    ensures
        doc_fits(q1, attrs1) ==> attrs_match(
            nodes1,
            attrs1,
            q1,
            input,
            match added {
                Some(a) => model.push(a),
                None => model,
            },
        ),
{
    if doc_fits(q1, attrs1) {
        lemma_fits_shrink(q0, q1, input);
        let model1 = match added {
            Some(a) => model.push(a),
            None => model,
        };
        assert forall|i: int| 0 <= i < model1.len() implies node_attrs_are(
            #[trigger] nodes1[i + 1],
            attrs1,
            q1,
            input,
            model1[i],
        ) by {
            if i < model.len() {
                let n0 = nodes0[i + 1];
                assert(node_attrs_are(n0, attrs0, q0, input, model[i]));
                lemma_node_attrs_stay(n0, attrs0, q0, attrs1, q1, input, model[i]);
                assert(node_attrs_are(n0, attrs1, q1, input, model[i]));
                assert(nodes1[i + 1].attr_start == n0.attr_start);
                assert(nodes1[i + 1].attr_count == n0.attr_count);
            }
        }
    }
}

/// The names stay matched when the pool grows and a node, named by `added`, may be
/// added.
proof fn lemma_names_step(
    nodes0: Seq<XmlNode>,
    q0: StringPool,
    nodes1: Seq<XmlNode>,
    q1: StringPool,
    input: Seq<u8>,
    strs: Seq<Seq<u8>>,
    added: Option<Seq<u8>>,
)
    requires
        pool_ok(q0, input),
        pool_extends(q0, q1, input),
        pool_fits(q0.spec_entries(), q0.spec_data()) ==> names_match(nodes0, q0, input, strs),
        nodes0.len() == strs.len() + 1,
        forall|i: int| 0 <= i < nodes0.len() ==> (#[trigger] nodes1[i]).name_id == nodes0[i].name_id,
        nodes1.len() == nodes0.len() + (if added is Some {
            1int
        } else {
            0int
        }),
        added matches Some(x) ==> (pool_fits(q1.spec_entries(), q1.spec_data()) ==> lookup(
            q1.spec_entries(),
            q1.spec_data(),
            Some(input),
            nodes1[nodes0.len() as int].name_id,
        ) == Some(x)),
    ensures
        pool_fits(q1.spec_entries(), q1.spec_data()) ==> names_match(
            nodes1,
            q1,
            input,
            match added {
                Some(x) => strs.push(x),
                None => strs,
            },
        ),
{
    if pool_fits(q1.spec_entries(), q1.spec_data()) {
        lemma_fits_shrink(q0, q1, input);
        let strs1 = match added {
            Some(x) => strs.push(x),
            None => strs,
        };
        assert forall|i: int| 0 <= i < strs1.len() implies lookup(
            q1.spec_entries(),
            q1.spec_data(),
            Some(input),
            #[trigger] nodes1[i + 1].name_id,
        ) == Some(strs1[i]) by {
            if i < strs.len() {
                let id = nodes0[i + 1].name_id;
                assert(nodes1[i + 1].name_id == id);
                assert(lookup(q0.spec_entries(), q0.spec_data(), Some(input), nodes0[i + 1].name_id)
                    == Some(strs[i]));
                lemma_lookup_in_range(q0, input, id);
                assert(lookup_at(q1.spec_entries(), q1.spec_data(), Some(input), id as int)
                    == lookup_at(q0.spec_entries(), q0.spec_data(), Some(input), id as int));
            }
        }
    }
}

/// Link the last node, `child`, as the last child of `parent`.
fn link_child(nodes: &mut Vec<XmlNode>, parent_id: NodeId, child_id: NodeId)
    requires
        can_link(old(nodes)@, parent_id as int, child_id as int),
    ensures
        final(nodes)@ == linked(old(nodes)@, parent_id as int, child_id as int),
        tree_wf(final(nodes)@),
{
    let ghost o = nodes@;
    let p = parent_id as usize;
    let c = child_id as usize;
    proof {
        assert(links_in(o.drop_last()[p as int], o.len() - 1));
    }
    let last_child_opt = nodes[p].last_child;
    match last_child_opt {
        Some(last_child_id) => {
            let l = last_child_id as usize;
            let child = XmlNode { prev_sibling: Some(last_child_id), ..*&nodes[c] };
            nodes.set(c, child);
            let last = XmlNode { next_sibling: Some(child_id), ..*&nodes[l] };
            nodes.set(l, last);
            let parent = XmlNode { last_child: Some(child_id), ..*&nodes[p] };
            nodes.set(p, parent);
        },
        None => {
            let parent = XmlNode { first_child: Some(child_id), last_child: Some(child_id), ..*&nodes[p] };
            nodes.set(p, parent);
        },
    }
    assert(nodes@ =~= linked(o, p as int, c as int));
    proof {
        lemma_linked_wf(o, p as int, c as int);
    }
}

/// Intern a `Cow`: a slice that lies in the input is stored as a reference into it
/// (zero-copy), anything else (entity-decoded text) is copied into the pool.
fn intern_cow(strings: &mut StringPool, input: &[u8], cow: &Cow<'_, [u8]>) -> (r: u32)
    requires
        pool_wf(old(strings).spec_entries(), old(strings).spec_data()),
        old(strings).spec_entries().len() >= 1,
        input@.len() < u32::MAX,
    ensures
        pool_extends(*old(strings), *final(strings), input@),
        pool_fits(final(strings).spec_entries(), final(strings).spec_data()) ==> lookup(
            final(strings).spec_entries(),
            final(strings).spec_data(),
            Some(input@),
            r,
        ) == Some(kept(cow@)),
        pool_fits(final(strings).spec_entries(), final(strings).spec_data()) ==> ((r == 0) == (
        cow@.len() == 0)),
{
    let ghost e0 = strings.spec_entries();
    let ghost d0 = strings.spec_data();
    match cow {
        Cow::Borrowed(slice) => match offset_within(slice, input) {
            Some(off) => {
                if slice.len() <= input.len() - off && bytes_eq(&input[off..off + slice.len()], slice) {
                    proof {
                        assert(input@.subrange(off as int, off + slice@.len()) =~= input@.subrange(
                            off as int,
                            (off + slice.len()) as int,
                        ));
                        lemma_intern_input_effect(e0, d0, input@, slice@, off);
                    }
                    strings.intern_ref(slice, input, off)
                } else {
                    proof {
                        lemma_intern_copy_effect(e0, d0, Some(input@), slice@);
                    }
                    strings.intern(slice)
                }
            },
            None => {
                proof {
                    lemma_intern_copy_effect(e0, d0, Some(input@), slice@);
                }
                strings.intern(slice)
            },
        },
        Cow::Owned(v) => {
            proof {
                lemma_intern_copy_effect(e0, d0, Some(input@), v@);
            }
            strings.intern(v.as_slice())
        },
    }
}

/// `xmlns` and `xmlns:`.
fn is_xmlns(name: &[u8]) -> (r: bool)
    ensures
        r == (name@ == seq![0x78u8, 0x6Du8, 0x6Cu8, 0x6Eu8, 0x73u8]),
{
    let r = name.len() == 5 && name[0] == 0x78 && name[1] == 0x6D && name[2] == 0x6C && name[3]
        == 0x6E && name[4] == 0x73;
    assert(r ==> name@ =~= seq![0x78u8, 0x6Du8, 0x6Cu8, 0x6Eu8, 0x73u8]);
    r
}

fn is_xmlns_prefixed(name: &[u8]) -> (r: bool)
    ensures
        r ==> name@.len() >= 6,
        r == has_prefix(name@, seq![0x78u8, 0x6Du8, 0x6Cu8, 0x6Eu8, 0x73u8, 0x3Au8]),
{
    let p: &[u8] = &[0x78u8, 0x6Du8, 0x6Cu8, 0x6Eu8, 0x73u8, 0x3Au8];
    assert(p@ =~= seq![0x78u8, 0x6Du8, 0x6Cu8, 0x6Eu8, 0x73u8, 0x3Au8]);
    let r = starts_with(name, p);
    r
}

/// The nodes pushed so far and the open elements on the stack are valid node IDs.
pub open spec fn stack_ok(stack: Seq<NodeId>, len: int) -> bool {
    forall|k: int| 0 <= k < stack.len() ==> (#[trigger] stack[k]) < len
}

/// An XML document stored in arena format
pub struct XmlDocument<'a> {
    /// Original input (for zero-copy text extraction)
    input: &'a [u8],
    /// Arena of nodes
    nodes: Vec<XmlNode>,
    /// Arena of attributes
    attributes: Vec<XmlAttribute>,
    /// Interned strings
    pub strings: StringPool,
    /// Root element node ID (not document node)
    root_element: Option<NodeId>,
}

impl<'a> XmlDocument<'a> {
    /// The input.
    pub closed spec fn spec_input(&self) -> Seq<u8> {
        self.input@
    }

    /// The nodes, by ID.
    pub closed spec fn spec_nodes(&self) -> Seq<XmlNode> {
        self.nodes@
    }

    /// The attributes of all elements.
    pub closed spec fn spec_attributes(&self) -> Seq<XmlAttribute> {
        self.attributes@
    }

    /// The root element.
    pub closed spec fn spec_root(&self) -> Option<NodeId> {
        self.root_element
    }

    /// The pool of names and texts.
    pub closed spec fn spec_strings(&self) -> StringPool {
        self.strings
    }

    /// Whether the string pool's IDs and copied bytes fit in 32 bits: the condition
    /// under which `parse` and `parse_strict` state the nodes' names, prefixes and
    /// namespace URIs
    pub fn strings_fit(&self) -> (r: bool)
        ensures
            r == pool_fits(self.spec_strings().spec_entries(), self.spec_strings().spec_data()),
    {
        let n = self.strings.len();
        let b = self.strings.bytes_used();
        n < 0xFFFF_FFFFusize && b <= 0xFFFF_FFFFusize
    }

    /// A document with only its document node.
    fn empty(input: &'a [u8]) -> (r: Self)
        ensures
            r.input == input,
            r.nodes@.len() == 1,
            tree_wf(r.nodes@),
            r.root_element is None,
            r.strings.spec_entries().len() == 1,
            pool_wf(r.strings.spec_entries(), r.strings.spec_data()),
            r.attributes@.len() == 0,
    {
        let mut doc = XmlDocument {
            input,
            nodes: Vec::with_capacity(256),
            attributes: Vec::with_capacity(128),
            strings: StringPool::new(),
            root_element: None,
        };
        // Create document root node
        doc.nodes.push(XmlNode::document());
        assert(links_in(doc.nodes@[0], 1));
        doc
    }

    /// Parse an XML document from a byte slice (lenient mode): the nodes form a tree under
    /// the document node, one node for each element, text, CDATA section, comment and
    /// processing instruction that the reader gives, in document order, each under the
    /// innermost element open at its event and named (while the pool's IDs and offsets
    /// fit 32 bits, which `strings_fit` tells) by the element's or instruction's name or
    /// the text's content and
    /// by its prefix and namespace URI (`dom_ns`); child and sibling links list each node's children
    /// in document order; each element's range of the attribute list holds its tag's
    /// attributes, in order
    pub fn parse(input: &'a [u8]) -> (r: Self)
        requires
            input@.len() < u32::MAX,
        ensures
            r.spec_input() == input@,
            tree_wf(r.spec_nodes()),
            root_ok(r.spec_nodes(), r.spec_root()),
            shape(r.spec_nodes()) == dom_shape(
                read_all(input@, 0, ParseState::Init, false, None),
            ).0,
            pool_fits(r.spec_strings().spec_entries(), r.spec_strings().spec_data()) ==> names_match(
                r.spec_nodes(),
                r.spec_strings(),
                input@,
                dom_strings(read_all(input@, 0, ParseState::Init, false, None)),
            ),
            pool_fits(r.spec_strings().spec_entries(), r.spec_strings().spec_data()) ==> prefixes_match(
                r.spec_nodes(),
                r.spec_strings(),
                input@,
                dom_prefixes(read_all(input@, 0, ParseState::Init, false, None)),
            ),
            pool_fits(r.spec_strings().spec_entries(), r.spec_strings().spec_data()) ==> ns_match(
                r.spec_nodes(),
                r.spec_strings(),
                input@,
                dom_ns(input@, read_all(input@, 0, ParseState::Init, false, None), false).0,
            ),
            doc_fits(r.spec_strings(), r.spec_attributes()) ==> attrs_match(
                r.spec_nodes(),
                r.spec_attributes(),
                r.spec_strings(),
                input@,
                dom_attrs(input@, read_all(input@, 0, ParseState::Init, false, None), false),
            ),
    {
        let mut doc = Self::empty(input);
        // Build DOM from events (lenient mode never fails)
        let r = doc.build_from_events(false);
        assert(r is Ok);
        doc
    }

    /// Parse an XML document in strict mode: it is refused exactly when the strict checks
    /// (those of `validate_strict`) refuse the input, with their message
    pub fn parse_strict(input: &'a [u8]) -> (r: Result<Self, String>)
        requires
            input@.len() < u32::MAX,
        ensures
            r is Ok <==> validate_run(input@, 0, ParseState::Init, None, None, vstate_init()) is Ok,
            r matches Err(m) ==> (validate_run(input@, 0, ParseState::Init, None, None, vstate_init())
                matches Err(Some(x)) && m@ == x),
            r matches Ok(d) ==> d.spec_input() == input@ && tree_wf(d.spec_nodes()) && root_ok(
                d.spec_nodes(),
                d.spec_root(),
            ) && shape(d.spec_nodes()) == dom_shape(
                read_all(input@, 0, ParseState::Init, true, None),
            ).0 && (pool_fits(d.spec_strings().spec_entries(), d.spec_strings().spec_data())
                ==> names_match(
                d.spec_nodes(),
                d.spec_strings(),
                input@,
                dom_strings(read_all(input@, 0, ParseState::Init, true, None)),
            )) && (pool_fits(d.spec_strings().spec_entries(), d.spec_strings().spec_data())
                ==> prefixes_match(
                d.spec_nodes(),
                d.spec_strings(),
                input@,
                dom_prefixes(read_all(input@, 0, ParseState::Init, true, None)),
            )) && (pool_fits(d.spec_strings().spec_entries(), d.spec_strings().spec_data())
                ==> ns_match(
                d.spec_nodes(),
                d.spec_strings(),
                input@,
                dom_ns(input@, read_all(input@, 0, ParseState::Init, true, None), true).0,
            )) && (doc_fits(d.spec_strings(), d.spec_attributes()) ==> attrs_match(
                d.spec_nodes(),
                d.spec_attributes(),
                d.spec_strings(),
                input@,
                dom_attrs(input@, read_all(input@, 0, ParseState::Init, true, None), true),
            )),
    {
        let mut doc = Self::empty(input);
        match doc.build_from_events(true) {
            Ok(()) => Ok(doc),
            Err(e) => Err(e),
        }
    }

    /// Add the node of an event, linked as the last child of the innermost open element.
    fn add_event_node(
        &mut self,
        event: &XmlEvent<'_>,
        stack: &mut Vec<NodeId>,
        ns_scopes: &mut Vec<Vec<(Vec<u8>, u32)>>,
        default_ns: &mut Vec<Option<u32>>,
        Ghost(sc): Ghost<Seq<NsScope>>,
    )
        requires
            scopes_are(old(ns_scopes)@, old(default_ns)@, old(self).strings, old(self).input@, sc),
            tree_wf(old(self).nodes@),
            root_ok(old(self).nodes@, old(self).root_element),
            stack_ok(old(stack)@, old(self).nodes@.len() as int),
            *event is EndDocument || old(self).nodes@.len() < u32::MAX,
            pool_ok(old(self).strings, old(self).input@),
        ensures
            tree_wf(final(self).nodes@),
            root_ok(final(self).nodes@, final(self).root_element),
            stack_ok(final(stack)@, final(self).nodes@.len() as int),
            final(self).nodes@.len() <= old(self).nodes@.len() + 1,
            *event is EndDocument ==> final(self).nodes@.len() == old(self).nodes@.len(),
            final(self).input == old(self).input,
            (shape(final(self).nodes@), final(stack)@) == shape_step(
                shape(old(self).nodes@),
                old(stack)@,
                event_kind(*event),
            ),
            pool_ok(final(self).strings, final(self).input@),
            pool_extends(old(self).strings, final(self).strings, final(self).input@),
            forall|i: int|
                0 <= i < old(self).nodes@.len() ==> (#[trigger] final(self).nodes@[i]).name_id
                    == old(self).nodes@[i].name_id && final(self).nodes@[i].attr_start
                    == old(self).nodes@[i].attr_start && final(self).nodes@[i].attr_count
                    == old(self).nodes@[i].attr_count && final(self).nodes@[i].namespace_id
                    == old(self).nodes@[i].namespace_id && final(self).nodes@[i].prefix_id
                    == old(self).nodes@[i].prefix_id,
            scopes_are(
                final(ns_scopes)@,
                final(default_ns)@,
                final(self).strings,
                final(self).input@,
                event_scopes(sc, *event),
            ),
            tok_node(event_kind(*event)) is Some ==> uri_is(
                final(self).nodes@[old(self).nodes@.len() as int].namespace_id,
                final(self).strings,
                final(self).input@,
                event_ns(sc, *event),
            ),
            tok_node(event_kind(*event)) is Some && pool_fits(
                final(self).strings.spec_entries(),
                final(self).strings.spec_data(),
            ) ==> lookup(
                final(self).strings.spec_entries(),
                final(self).strings.spec_data(),
                Some(final(self).input@),
                final(self).nodes@[old(self).nodes@.len() as int].prefix_id,
            ) == Some(kept(event_prefix(*event))),
            old(self).attributes@.len() <= final(self).attributes@.len(),
            forall|k: int|
                0 <= k < old(self).attributes@.len() ==> #[trigger] final(self).attributes@[k]
                    == old(self).attributes@[k],
            tok_node(event_kind(*event)) is Some && doc_fits(
                final(self).strings,
                final(self).attributes@,
            ) ==> node_attrs_are(
                final(self).nodes@[old(self).nodes@.len() as int],
                final(self).attributes@,
                final(self).strings,
                final(self).input@,
                event_attrs(*event),
            ),
            tok_node(event_kind(*event)) is Some && pool_fits(
                final(self).strings.spec_entries(),
                final(self).strings.spec_data(),
            ) ==> lookup(
                final(self).strings.spec_entries(),
                final(self).strings.spec_data(),
                Some(final(self).input@),
                final(self).nodes@[old(self).nodes@.len() as int].name_id,
            ) == Some(kept(event_string(*event))),
    {
        let ghost p0 = self.strings;
        proof {
            lemma_pool_extends_refl(p0, self.input@);
        }
        match event {
            XmlEvent::StartElement(elem) => {
                self.handle_element(elem, false, stack, ns_scopes, default_ns, Ghost(sc));
            },
            XmlEvent::EmptyElement(elem) => {
                self.handle_element(elem, true, stack, ns_scopes, default_ns, Ghost(sc));
            },
            XmlEvent::EndElement(_) => {
                stack.pop();
                ns_scopes.pop();
                default_ns.pop();
            },
            XmlEvent::Text(content) => {
                let (parent_id, depth) = Self::position(stack);
                let text_id = self.intern_in(content, Ghost(p0));
                let node = XmlNode { name_id: text_id, ..XmlNode::text(Some(parent_id), depth) };
                self.push_node(node, parent_id);
            },
            XmlEvent::CData(content) => {
                let (parent_id, depth) = Self::position(stack);
                let text_id = self.intern_in(content, Ghost(p0));
                let node = XmlNode { name_id: text_id, ..XmlNode::cdata(Some(parent_id), depth) };
                self.push_node(node, parent_id);
            },
            XmlEvent::Comment(content) => {
                let (parent_id, depth) = Self::position(stack);
                let text_id = self.intern_in(content, Ghost(p0));
                let node = XmlNode { name_id: text_id, ..XmlNode::comment(Some(parent_id), depth) };
                self.push_node(node, parent_id);
            },
            XmlEvent::ProcessingInstruction { target, .. } => {
                let (parent_id, depth) = Self::position(stack);
                let target_id = self.intern_in(target, Ghost(p0));
                let node = XmlNode::processing_instruction(target_id, Some(parent_id), depth);
                self.push_node(node, parent_id);
            },
            _ => {},
        }
    }

    /// The parent of a new node (the innermost open element, or the document) and its
    /// depth.
    fn position(stack: &Vec<NodeId>) -> (r: (NodeId, u16))
        ensures
            stack@.len() > 0 ==> r.0 == stack@.last(),
            stack@.len() == 0 ==> r.0 == 0,
    {
        let parent_id = if stack.len() > 0 {
            stack[stack.len() - 1]
        } else {
            0
        };
        let depth: u16 = #[verifier::truncate] (stack.len() as u16);
        (parent_id, depth)
    }

    /// Push a node without links and link it under `parent_id`; its ID.
    fn push_node(&mut self, node: XmlNode, parent_id: NodeId) -> (r: NodeId)
        requires
            tree_wf(old(self).nodes@),
            root_ok(old(self).nodes@, old(self).root_element),
            parent_id < old(self).nodes@.len(),
            old(self).nodes@.len() < u32::MAX,
            node.parent == Some(parent_id),
            node.first_child is None && node.last_child is None,
            node.prev_sibling is None && node.next_sibling is None,
            node.kind != NodeKind::Document,
        ensures
            tree_wf(final(self).nodes@),
            root_ok(final(self).nodes@, final(self).root_element),
            final(self).root_element == old(self).root_element,
            final(self).nodes@.len() == old(self).nodes@.len() + 1,
            r as int == old(self).nodes@.len(),
            final(self).nodes@[r as int].kind == node.kind,
            final(self).nodes@[r as int].parent == node.parent,
            shape(final(self).nodes@) == shape(old(self).nodes@).push((node.kind, node.parent)),
            final(self).nodes@[r as int].name_id == node.name_id,
            final(self).nodes@[r as int].attr_start == node.attr_start,
            final(self).nodes@[r as int].attr_count == node.attr_count,
            final(self).nodes@[r as int].namespace_id == node.namespace_id,
            final(self).nodes@[r as int].prefix_id == node.prefix_id,
            forall|i: int|
                0 <= i < old(self).nodes@.len() ==> (#[trigger] final(self).nodes@[i]).name_id
                    == old(self).nodes@[i].name_id && final(self).nodes@[i].attr_start
                    == old(self).nodes@[i].attr_start && final(self).nodes@[i].attr_count
                    == old(self).nodes@[i].attr_count && final(self).nodes@[i].namespace_id
                    == old(self).nodes@[i].namespace_id && final(self).nodes@[i].prefix_id
                    == old(self).nodes@[i].prefix_id,
            final(self).input == old(self).input,
            final(self).strings == old(self).strings,
            final(self).attributes == old(self).attributes,
    {
        let node_id = self.nodes.len() as NodeId;
        let ghost before = self.nodes@;
        self.nodes.push(node);
        proof {
            assert(self.nodes@.drop_last() =~= before);
            assert(shape(self.nodes@) =~= shape(before).push((node.kind, node.parent)));
            assert(links_in(before[parent_id as int], before.len() as int));
            lemma_linked_shape(self.nodes@, parent_id as int, node_id as int);
        }
        link_child(&mut self.nodes, parent_id, node_id);
        proof {
            let n = self.nodes@;
            if let Some(r) = self.root_element {
                assert(before[r as int].kind == NodeKind::Element);
            }
        }
        node_id
    }

    /// Intern a `Cow` into the document's pool; the pool only grows.
    fn intern_in(&mut self, cow: &Cow<'_, [u8]>, Ghost(base): Ghost<StringPool>) -> (r: u32)
        requires
            pool_ok(old(self).strings, old(self).input@),
            pool_extends(base, old(self).strings, old(self).input@),
        ensures
            pool_ok(final(self).strings, final(self).input@),
            pool_extends(base, final(self).strings, final(self).input@),
            pool_extends(old(self).strings, final(self).strings, final(self).input@),
            pool_fits(final(self).strings.spec_entries(), final(self).strings.spec_data()) ==> lookup(
                final(self).strings.spec_entries(),
                final(self).strings.spec_data(),
                Some(final(self).input@),
                r,
            ) == Some(kept(cow@)),
            pool_fits(final(self).strings.spec_entries(), final(self).strings.spec_data()) ==> ((r
                == 0) == (cow@.len() == 0)),
            final(self).nodes == old(self).nodes,
            final(self).attributes == old(self).attributes,
            final(self).input == old(self).input,
            final(self).root_element == old(self).root_element,
    {
        let ghost before = self.strings;
        let r = intern_cow(&mut self.strings, self.input, cow);
        proof {
            lemma_pool_extends_trans(base, before, self.strings, self.input@);
        }
        r
    }

    /// Intern bytes into the document's pool by copy; the pool only grows.
    fn intern_copy_in(&mut self, b: &[u8], Ghost(base): Ghost<StringPool>) -> (r: u32)
        requires
            pool_ok(old(self).strings, old(self).input@),
            pool_extends(base, old(self).strings, old(self).input@),
        ensures
            pool_ok(final(self).strings, final(self).input@),
            pool_extends(base, final(self).strings, final(self).input@),
            pool_extends(old(self).strings, final(self).strings, final(self).input@),
            pool_fits(final(self).strings.spec_entries(), final(self).strings.spec_data()) ==> lookup(
                final(self).strings.spec_entries(),
                final(self).strings.spec_data(),
                Some(final(self).input@),
                r,
            ) == Some(kept(b@)),
            final(self).nodes == old(self).nodes,
            final(self).attributes == old(self).attributes,
            final(self).input == old(self).input,
            final(self).root_element == old(self).root_element,
    {
        let ghost before = self.strings;
        proof {
            lemma_intern_copy_effect(
                before.spec_entries(),
                before.spec_data(),
                Some(self.input@),
                b@,
            );
        }
        let r = self.strings.intern(b);
        proof {
            lemma_pool_extends_trans(base, before, self.strings, self.input@);
        }
        r
    }

    /// Handle start/empty element
    fn handle_element(
        &mut self,
        elem: &StartElement<'_>,
        is_empty: bool,
        stack: &mut Vec<NodeId>,
        ns_scopes: &mut Vec<Vec<(Vec<u8>, u32)>>,
        default_ns: &mut Vec<Option<u32>>,
        Ghost(sc): Ghost<Seq<NsScope>>,
    )
        requires
            scopes_are(old(ns_scopes)@, old(default_ns)@, old(self).strings, old(self).input@, sc),
            tree_wf(old(self).nodes@),
            root_ok(old(self).nodes@, old(self).root_element),
            stack_ok(old(stack)@, old(self).nodes@.len() as int),
            old(self).nodes@.len() < u32::MAX,
            pool_ok(old(self).strings, old(self).input@),
        ensures
            tree_wf(final(self).nodes@),
            root_ok(final(self).nodes@, final(self).root_element),
            stack_ok(final(stack)@, final(self).nodes@.len() as int),
            final(self).nodes@.len() == old(self).nodes@.len() + 1,
            final(self).input == old(self).input,
            pool_ok(final(self).strings, final(self).input@),
            pool_extends(old(self).strings, final(self).strings, final(self).input@),
            forall|i: int|
                0 <= i < old(self).nodes@.len() ==> (#[trigger] final(self).nodes@[i]).name_id
                    == old(self).nodes@[i].name_id && final(self).nodes@[i].attr_start
                    == old(self).nodes@[i].attr_start && final(self).nodes@[i].attr_count
                    == old(self).nodes@[i].attr_count && final(self).nodes@[i].namespace_id
                    == old(self).nodes@[i].namespace_id && final(self).nodes@[i].prefix_id
                    == old(self).nodes@[i].prefix_id,
            scopes_are(
                final(ns_scopes)@,
                final(default_ns)@,
                final(self).strings,
                final(self).input@,
                if is_empty {
                    sc
                } else {
                    sc.push(scope_of(attrs_model(elem.attributes@)))
                },
            ),
            uri_is(
                final(self).nodes@[old(self).nodes@.len() as int].namespace_id,
                final(self).strings,
                final(self).input@,
                element_ns(sc, scope_of(attrs_model(elem.attributes@)), opt_view(elem.prefix)),
            ),
            pool_fits(final(self).strings.spec_entries(), final(self).strings.spec_data()) ==> lookup(
                final(self).strings.spec_entries(),
                final(self).strings.spec_data(),
                Some(final(self).input@),
                final(self).nodes@[old(self).nodes@.len() as int].prefix_id,
            ) == Some(kept(prefix_bytes(opt_view(elem.prefix)))),
            pool_fits(final(self).strings.spec_entries(), final(self).strings.spec_data()) ==> lookup(
                final(self).strings.spec_entries(),
                final(self).strings.spec_data(),
                Some(final(self).input@),
                final(self).nodes@[old(self).nodes@.len() as int].name_id,
            ) == Some(kept(elem.name@)),
            old(self).attributes@.len() <= final(self).attributes@.len(),
            forall|k: int|
                0 <= k < old(self).attributes@.len() ==> #[trigger] final(self).attributes@[k]
                    == old(self).attributes@[k],
            doc_fits(final(self).strings, final(self).attributes@) ==> node_attrs_are(
                final(self).nodes@[old(self).nodes@.len() as int],
                final(self).attributes@,
                final(self).strings,
                final(self).input@,
                attrs_model(elem.attributes@),
            ),
            shape(final(self).nodes@) == shape(old(self).nodes@).push(
                (
                    NodeKind::Element,
                    Some(
                        if old(stack)@.len() > 0 {
                            old(stack)@.last()
                        } else {
                            0u32
                        },
                    ),
                ),
            ),
            final(stack)@ == if is_empty {
                old(stack)@
            } else {
                old(stack)@.push(old(self).nodes@.len() as NodeId)
            },
    {
        let (parent_id, depth) = Self::position(stack);
        let ghost p0 = self.strings;
        proof {
            lemma_pool_extends_refl(p0, self.input@);
        }
        let name_id = self.intern_in(&elem.name, Ghost(p0));
        let ghost p1 = self.strings;
        proof {
            lemma_pool_extends_refl(p1, self.input@);
        }
        let mut prefix_id: u32 = 0;
        if let Some(prefix) = &elem.prefix {
            prefix_id = self.intern_in(prefix, Ghost(p1));
        }
        let ghost pp = self.strings;
        proof {
            lemma_pool_extends_refl(pp, self.input@);
            if pool_fits(pp.spec_entries(), pp.spec_data()) && elem.prefix is None {
                assert(prefix_id == 0);
            }
        }
        let mut scope_ns: Vec<(Vec<u8>, u32)> = Vec::new();
        let mut scope_default: Option<u32> = None;
        let attr_start: u32 = #[verifier::truncate] (self.attributes.len() as u32);
        let ghost a0 = self.attributes@;
        let ghost model = attrs_model(elem.attributes@);
        let mut i: usize = 0;
        proof {
            lemma_scopes_stay(ns_scopes@, default_ns@, old(self).strings, self.strings, self.input@, sc);
            assert(model.take(0) =~= Seq::<(Seq<u8>, Seq<u8>)>::empty());
        }
        while i < elem.attributes.len()
            invariant
                scopes_are(ns_scopes@, default_ns@, self.strings, self.input@, sc),
                scopes_are(
                    seq![scope_ns],
                    seq![scope_default],
                    self.strings,
                    self.input@,
                    seq![scope_of(model.take(i as int))],
                ),
                tree_wf(self.nodes@),
                root_ok(self.nodes@, self.root_element),
                self.nodes == old(self).nodes,
                self.root_element == old(self).root_element,
                self.input == old(self).input,
                pool_ok(self.strings, self.input@),
                pool_extends(p1, self.strings, self.input@),
                pool_extends(pp, self.strings, self.input@),
                i <= elem.attributes@.len(),
                model == attrs_model(elem.attributes@),
                a0 == old(self).attributes@,
                self.attributes@.len() == a0.len() + i,
                forall|k: int| 0 <= k < a0.len() ==> #[trigger] self.attributes@[k] == a0[k],
                forall|j: int|
                    0 <= j < i ==> (pool_fits(self.strings.spec_entries(), self.strings.spec_data())
                        ==> attr_is(#[trigger] self.attributes@[a0.len() + j], self.strings, self.input@, model[j])),
            decreases elem.attributes.len() - i,
        {
            let ghost q0 = self.strings;
            let ghost attrs_before = self.attributes@;
            proof {
                lemma_pool_extends_refl(q0, self.input@);
            }
            let attr = &elem.attributes[i];
            let name = cow_bytes(&attr.name);
            let ghost own0 = scope_of(model.take(i as int));
            let ghost ns0 = scope_ns@;
            let ghost sv0 = scope_ns;
            let ghost dflt0 = scope_default;
            proof {
                assert(model[i as int] == (attr.name@, attr.value@));
                assert(model.take(i + 1).drop_last() =~= model.take(i as int));
                assert(model.take(i + 1).last() == model[i as int]);
                assert(seq![scope_ns][0] == scope_ns);
                assert(seq![scope_default][0] == scope_default);
                assert(seq![own0][0] == own0);
            }
            if is_xmlns(name) {
                let uri_id = self.intern_in(&attr.value, Ghost(q0));
                let ghost qu = self.strings;
                scope_default = Some(uri_id);
                proof {
                    lemma_scopes_stay(ns_scopes@, default_ns@, q0, qu, self.input@, sc);
                    let own1 = scope_of(model.take(i + 1));
                    assert(own1 == NsScope { default: Some(attr.value@), ..own0 });
                    assert forall|j: int| 0 <= j < own1.bindings.len() implies uri_is(
                        ns0[j].1,
                        qu,
                        self.input@,
                        own1.bindings[j].1,
                    ) by {
                        assert(seq![sv0][0]@[j] == ns0[j]);
                        lemma_uri_stays(q0, qu, self.input@, ns0[j].1, own1.bindings[j].1);
                    }
                    assert(seq![scope_ns][0] == scope_ns);
                    assert(seq![scope_default][0] == scope_default);
                    assert(seq![own1][0] == own1);
                    assert(scopes_are(seq![scope_ns], seq![scope_default], qu, self.input@, seq![own1]));
                }
            } else if is_xmlns_prefixed(name) {
                let prefix = &name[6..name.len()];
                self.intern_copy_in(prefix, Ghost(q0));
                let ghost qc = self.strings;
                let uri_id = self.intern_in(&attr.value, Ghost(q0));
                let ghost qu = self.strings;
                scope_ns.push((vstd::slice::slice_to_vec(prefix), uri_id));
                proof {
                    lemma_pool_extends_trans(q0, qc, qu, self.input@);
                    lemma_scopes_stay(ns_scopes@, default_ns@, q0, qu, self.input@, sc);
                    let own1 = scope_of(model.take(i + 1));
                    assert(prefix@ =~= attr.name@.skip(6));
                    assert(own1 == NsScope {
                        bindings: own0.bindings.push((attr.name@.skip(6), attr.value@)),
                        ..own0
                    });
                    assert forall|j: int| 0 <= j < own1.bindings.len() implies (
                    #[trigger] scope_ns@[j]).0@ == own1.bindings[j].0 && uri_is(
                        scope_ns@[j].1,
                        qu,
                        self.input@,
                        own1.bindings[j].1,
                    ) by {
                        if j < ns0.len() {
                            assert(seq![sv0][0]@[j] == ns0[j]);
                            assert(scope_ns@[j] == ns0[j]);
                            lemma_uri_stays(q0, qu, self.input@, ns0[j].1, own1.bindings[j].1);
                        }
                    }
                    if let Some(d) = dflt0 {
                        lemma_uri_stays(q0, qu, self.input@, d, own1.default->0);
                    }
                    assert(seq![scope_ns][0] == scope_ns);
                    assert(seq![scope_default][0] == scope_default);
                    assert(seq![own1][0] == own1);
                    assert(scopes_are(seq![scope_ns], seq![scope_default], qu, self.input@, seq![own1]));
                }
            } else {
                proof {
                    let own1 = scope_of(model.take(i + 1));
                    assert(own1 == own0);
                }
            }
            let ghost qd = self.strings;
            let attr_name_id = self.intern_in(&attr.name, Ghost(q0));
            let ghost qn = self.strings;
            let attr_value_id = self.intern_in(&attr.value, Ghost(q0));
            let ghost qv = self.strings;
            let mut xml_attr = XmlAttribute::new(attr_name_id, attr_value_id);
            if let Some(p) = &attr.prefix {
                xml_attr.prefix_id = self.intern_in(p, Ghost(q0));
            }
            proof {
                lemma_pool_extends_refl(qv, self.input@);
                if attr.prefix is None {
                    assert(self.strings == qv);
                }
                assert(pool_extends(qv, self.strings, self.input@));
                lemma_pool_extends_trans(qn, qv, self.strings, self.input@);
                lemma_lookup_stays(qn, self.strings, self.input@, attr_name_id, kept(attr.name@));
                lemma_lookup_stays(qv, self.strings, self.input@, attr_value_id, kept(attr.value@));
                lemma_pool_extends_trans(p1, q0, self.strings, self.input@);
                lemma_pool_extends_trans(pp, q0, self.strings, self.input@);
                assert(model[i as int] == (attr.name@, attr.value@));
            }
            self.attributes.push(xml_attr);
            proof {
                lemma_pool_extends_trans(qd, qn, qv, self.input@);
                lemma_pool_extends_trans(qd, qv, self.strings, self.input@);
                lemma_scopes_stay(ns_scopes@, default_ns@, qd, self.strings, self.input@, sc);
                lemma_scopes_stay(
                    seq![scope_ns],
                    seq![scope_default],
                    qd,
                    self.strings,
                    self.input@,
                    seq![scope_of(model.take(i + 1))],
                );
                assert forall|j: int|
                    0 <= j < i + 1 implies (pool_fits(self.strings.spec_entries(), self.strings.spec_data())
                    ==> attr_is(#[trigger] self.attributes@[a0.len() + j], self.strings, self.input@, model[j])) by {
                    if j < i && pool_fits(self.strings.spec_entries(), self.strings.spec_data()) {
                        let x = attrs_before[a0.len() + j];
                        assert(self.attributes@[a0.len() + j] == x);
                        lemma_fits_shrink(q0, self.strings, self.input@);
                        assert(attr_is(x, q0, self.input@, model[j]));
                        lemma_lookup_stays(q0, self.strings, self.input@, x.name_id, kept(model[j].0));
                        lemma_lookup_stays(q0, self.strings, self.input@, x.value_id, kept(model[j].1));
                    }
                }
            }
            i += 1;
        }
        let attr_count: u16 = if elem.attributes.len() <= 0xFFFF {
            elem.attributes.len() as u16
        } else {
            0xFFFF
        };
        // The namespace: a prefixed name looks through the element's own declarations,
        // then the enclosing scopes, innermost first; an unprefixed one takes this
        // element's default, else the enclosing one
        proof {
            assert(model.take(elem.attributes@.len() as int) =~= model);
        }
        let namespace_id = resolve_namespace(
            ns_scopes,
            default_ns,
            &scope_ns,
            scope_default,
            &elem.prefix,
            Ghost(sc),
            Ghost(scope_of(model)),
            Ghost(self.strings),
            Ghost(self.input@),
        );
        let node = XmlNode {
            prefix_id,
            namespace_id,
            attr_start,
            attr_count,
            ..XmlNode::element(name_id, Some(parent_id), depth)
        };
        let ghost p2 = self.strings;
        let node_id = self.push_node(node, parent_id);
        proof {
            lemma_pool_extends_trans(p0, p1, self.strings, self.input@);
            lemma_lookup_stays(pp, self.strings, self.input@, prefix_id, kept(prefix_bytes(opt_view(elem.prefix))));
            if pool_fits(self.strings.spec_entries(), self.strings.spec_data()) {
                lemma_fits_shrink(p1, self.strings, self.input@);
                lemma_lookup_in_range(p1, self.input@, name_id);
                assert(lookup_at(
                    self.strings.spec_entries(),
                    self.strings.spec_data(),
                    Some(self.input@),
                    name_id as int,
                ) == lookup_at(p1.spec_entries(), p1.spec_data(), Some(self.input@), name_id as int));
            }
        }
        if self.root_element.is_none() && parent_id == 0 {
            self.root_element = Some(node_id);
        }
        if !is_empty {
            stack.push(node_id);
            let ghost ns_before = ns_scopes@;
            let ghost dns_before = default_ns@;
            proof {
                assert(seq![scope_ns][0] == scope_ns);
                assert(seq![scope_default][0] == scope_default);
                assert(seq![scope_of(model)][0] == scope_of(model));
            }
            ns_scopes.push(scope_ns);
            default_ns.push(scope_default);
            proof {
                let sc1 = sc.push(scope_of(model));
                assert forall|k: int, j: int|
                    0 <= k < sc1.len() && 0 <= j < sc1[k].bindings.len() implies (
                    #[trigger] ns_scopes@[k]@[j]).0@ == sc1[k].bindings[j].0 && uri_is(
                        ns_scopes@[k]@[j].1,
                        self.strings,
                        self.input@,
                        sc1[k].bindings[j].1,
                    ) by {
                    if k < sc.len() {
                        assert(ns_scopes@[k] == ns_before[k]);
                    } else {
                        assert(seq![scope_ns][0]@[j] == scope_ns@[j]);
                    }
                }
                assert forall|k: int| 0 <= k < sc1.len() implies match #[trigger] default_ns@[k] {
                    Some(id) => sc1[k].default matches Some(u) && uri_is(id, self.strings, self.input@, u),
                    None => sc1[k].default is None,
                } by {
                    if k < sc.len() {
                        assert(default_ns@[k] == dns_before[k]);
                    }
                }
            }
        }
    }
}

impl<'a> XmlDocument<'a> {
    /// Build DOM from XML events; in strict mode the checks of `validate_strict` are made
    /// on each event before its node is added
    fn build_from_events(&mut self, strict: bool) -> (r: Result<(), String>)
        requires
            tree_wf(old(self).nodes@),
            old(self).nodes@.len() == 1,
            old(self).root_element is None,
            old(self).input@.len() < u32::MAX,
            pool_ok(old(self).strings, old(self).input@),
            old(self).attributes@.len() == 0,
        ensures
            tree_wf(final(self).nodes@),
            root_ok(final(self).nodes@, final(self).root_element),
            final(self).input == old(self).input,
            !strict ==> r is Ok,
            strict ==> (r is Ok <==> validate_run(
                old(self).input@,
                0,
                ParseState::Init,
                None,
                None,
                vstate_init(),
            ) is Ok),
            strict ==> (r matches Err(m) ==> (validate_run(
                old(self).input@,
                0,
                ParseState::Init,
                None,
                None,
                vstate_init(),
            ) matches Err(Some(x)) && m@ == x)),
            r is Ok ==> shape(final(self).nodes@) == dom_shape(
                read_all(old(self).input@, 0, ParseState::Init, strict, None),
            ).0,
            r is Ok && doc_fits(final(self).strings, final(self).attributes@) ==> attrs_match(
                final(self).nodes@,
                final(self).attributes@,
                final(self).strings,
                old(self).input@,
                dom_attrs(
                    old(self).input@,
                    read_all(old(self).input@, 0, ParseState::Init, strict, None),
                    strict,
                ),
            ),
            r is Ok && pool_fits(final(self).strings.spec_entries(), final(self).strings.spec_data())
                ==> prefixes_match(
                final(self).nodes@,
                final(self).strings,
                old(self).input@,
                dom_prefixes(read_all(old(self).input@, 0, ParseState::Init, strict, None)),
            ),
            r is Ok && pool_fits(final(self).strings.spec_entries(), final(self).strings.spec_data())
                ==> ns_match(
                final(self).nodes@,
                final(self).strings,
                old(self).input@,
                dom_ns(
                    old(self).input@,
                    read_all(old(self).input@, 0, ParseState::Init, strict, None),
                    strict,
                ).0,
            ),
            r is Ok && pool_fits(final(self).strings.spec_entries(), final(self).strings.spec_data())
                ==> names_match(
                final(self).nodes@,
                final(self).strings,
                old(self).input@,
                dom_strings(read_all(old(self).input@, 0, ParseState::Init, strict, None)),
            ),
    {
        let input: &'a [u8] = self.input;
        let mut reader = if strict {
            SliceReader::new_strict(input)
        } else {
            SliceReader::new(input)
        };
        let mut v = Validator::new();
        let ghost s = input@;
        let ghost target = validate_run(s, 0, ParseState::Init, None, None, vstate_init());
        assert(add_found(seq![], vstate_init().found, false) =~= Seq::<(Seq<u8>, EntView)>::empty());
        let mut stack: Vec<NodeId> = Vec::new();
        stack.push(0);  // Start with document node
        let mut ns_scopes: Vec<Vec<(Vec<u8>, u32)>> = Vec::new();
        ns_scopes.push(Vec::new());
        let mut default_ns: Vec<Option<u32>> = Vec::new();
        default_ns.push(None);
        let ghost all = read_all(s, 0, ParseState::Init, strict, None);
        let ghost mut done: Seq<TokView> = seq![];
        let ghost mut ended = false;
        proof {
            assert(shape(self.nodes@) =~= Seq::<(NodeKind, Option<NodeId>)>::empty());
            assert(stack@ =~= seq![0u32]);
            assert(all =~= done + all);
            assert(ns_scopes@[0]@ =~= Seq::<(Vec<u8>, u32)>::empty());
            assert(scopes_are(ns_scopes@, default_ns@, self.strings, s, dom_ns(s, done, strict).1));
        }
        loop
            invariant
                all == read_all(s, 0, ParseState::Init, strict, None),
                (shape(self.nodes@), stack@) == dom_shape(done),
                pool_ok(self.strings, s),
                self.nodes@.len() == dom_strings(done).len() + 1,
                self.nodes@.len() == dom_ns(s, done, strict).0.len() + 1,
                self.nodes@.len() == dom_prefixes(done).len() + 1,
                pool_fits(self.strings.spec_entries(), self.strings.spec_data()) ==> prefixes_match(
                    self.nodes@,
                    self.strings,
                    s,
                    dom_prefixes(done),
                ),
                scopes_are(ns_scopes@, default_ns@, self.strings, s, dom_ns(s, done, strict).1),
                pool_fits(self.strings.spec_entries(), self.strings.spec_data()) ==> ns_match(
                    self.nodes@,
                    self.strings,
                    s,
                    dom_ns(s, done, strict).0,
                ),
                self.nodes@.len() == dom_attrs(s, done, strict).len() + 1,
                doc_fits(self.strings, self.attributes@) ==> attrs_match(
                    self.nodes@,
                    self.attributes@,
                    self.strings,
                    s,
                    dom_attrs(s, done, strict),
                ),
                pool_fits(self.strings.spec_entries(), self.strings.spec_data()) ==> names_match(
                    self.nodes@,
                    self.strings,
                    s,
                    dom_strings(done),
                ),
                !ended ==> all == done + read_all(
                    s,
                    reader.spec_pos(),
                    reader.spec_state(),
                    strict,
                    reader.spec_token_error(),
                ),
                ended ==> all == done && reader.spec_state() == ParseState::Done,
                reader.wf(),
                reader.spec_input() == s,
                reader.spec_strict() == strict,
                s == input@,
                input == self.input,
                self.input == old(self).input,
                s.len() < u32::MAX,
                tree_wf(self.nodes@),
                root_ok(self.nodes@, self.root_element),
                stack_ok(stack@, self.nodes@.len() as int),
                self.nodes@.len() <= reader.spec_pos() + 1,
                v.inv(),
                target == validate_run(s, 0, ParseState::Init, None, None, vstate_init()),
                strict ==> validate_run(
                    s,
                    reader.spec_pos(),
                    reader.spec_state(),
                    reader.spec_token_error(),
                    reader.spec_attr_error(),
                    v.view_state(),
                ) == target,
                strict ==> reader.spec_ents() == add_found(seq![], v.view_state().found, false),
            decreases (s.len() - reader.spec_pos()) * 2 + (if reader.spec_state() == ParseState::Done {
                0int
            } else {
                1int
            }),
        {
            let ghost rs = reader.next_read();
            proof {
                reader.lemma_pos_in_input();
                lemma_read_from(
                    s,
                    reader.spec_pos(),
                    reader.spec_state(),
                    strict,
                    reader.spec_token_error(),
                );
            }
            proof {
                lemma_read_all_step(
                    s,
                    reader.spec_pos(),
                    reader.spec_state(),
                    strict,
                    reader.spec_token_error(),
                );
            }
            match reader.next_event() {
                None => {
                    proof {
                        if !ended {
                            assert(all =~= done);
                        }
                    }
                    if strict {
                        return v.finish(&reader);
                    }
                    return Ok(());
                },
                Some(event) => {
                    let ghost t = rs.token->0;
                    proof {
                        lemma_event_kind(s, t, strict, event);
                    }
                    let ghost found0 = v.view_state().found;
                    if strict {
                        match v.step(&event, Ghost(s), Ghost(t)) {
                            Err(e) => {
                                return Err(e);
                            },
                            Ok(()) => {},
                        }
                        proof {
                            lemma_add_found_concat(seq![], found0, dtd_scan(token_text(s, t), 0), false);
                        }
                    }
                    let ghost nodes0 = self.nodes@;
                    let ghost q0 = self.strings;
                    let ghost attrs0 = self.attributes@;
                    self.add_event_node(
                        &event,
                        &mut stack,
                        &mut ns_scopes,
                        &mut default_ns,
                        Ghost(dom_ns(s, done, strict).1),
                    );
                    proof {
                        lemma_event_ns(s, done, t, strict, event);
                        let added_ns = if tok_node(t.kind) is Some {
                            Some(event_ns(dom_ns(s, done, strict).1, event))
                        } else {
                            None
                        };
                        if let Some(u) = added_ns {
                            if pool_fits(self.strings.spec_entries(), self.strings.spec_data()) {
                                assert(uri_is(
                                    self.nodes@[nodes0.len() as int].namespace_id,
                                    self.strings,
                                    s,
                                    u,
                                ));
                            }
                        }
                        assert(shape(nodes0).len() == nodes0.len() - 1);
                        assert(shape(self.nodes@).len() == self.nodes@.len() - 1);
                        lemma_ns_step(
                            nodes0,
                            q0,
                            self.nodes@,
                            self.strings,
                            s,
                            dom_ns(s, done, strict).0,
                            added_ns,
                        );
                        let added_prefix = if tok_node(t.kind) is Some {
                            Some(event_prefix(event))
                        } else {
                            None
                        };
                        lemma_prefix_step(
                            nodes0,
                            q0,
                            self.nodes@,
                            self.strings,
                            s,
                            dom_prefixes(done),
                            added_prefix,
                        );
                        let added = if tok_node(t.kind) is Some {
                            lemma_event_string(s, t, strict, event);
                            Some(kept(tok_string(t)))
                        } else {
                            None
                        };
                        lemma_names_step(
                            nodes0,
                            q0,
                            self.nodes@,
                            self.strings,
                            s,
                            dom_strings(done),
                            added,
                        );
                        let added_attrs = if tok_node(t.kind) is Some {
                            lemma_event_attrs(s, t, strict, event);
                            Some(tok_attrs(s, t, strict))
                        } else {
                            None
                        };
                        lemma_attrs_step(
                            nodes0,
                            attrs0,
                            q0,
                            self.nodes@,
                            self.attributes@,
                            self.strings,
                            s,
                            dom_attrs(s, done, strict),
                            added_attrs,
                        );
                        if t.kind != TokenKind::Eof {
                            assert(done.push(t).drop_last() =~= done);
                            assert(dom_attrs(s, done.push(t), strict) == match added_attrs {
                                Some(a) => dom_attrs(s, done, strict).push(a),
                                None => dom_attrs(s, done, strict),
                            });
                            assert(dom_strings(done.push(t)) == match added {
                                Some(x) => dom_strings(done).push(x),
                                None => dom_strings(done),
                            });
                        }
                    }
                    proof {
                        if t.kind == TokenKind::Eof {
                            assert(all =~= done);
                            ended = true;
                        } else {
                            let d2 = done.push(t);
                            assert(d2.drop_last() =~= done);
                            assert(all =~= d2 + read_all(
                                s,
                                reader.spec_pos(),
                                reader.spec_state(),
                                strict,
                                reader.spec_token_error(),
                            ));
                            done = d2;
                        }
                    }
                    if strict {
                        match reader.error() {
                            Some(err) => {
                                return Err(err.message.clone());
                            },
                            None => {},
                        }
                    }
                },
            }
        }
    }
}

/// The text of an optional byte string read as UTF-8 (`None` when absent or invalid).
pub open spec fn utf8_of(b: Option<Seq<u8>>) -> Option<Seq<char>> {
    match b {
        Some(x) => if valid_utf8(x) {
            Some(decode_utf8(x))
        } else {
            None
        },
        None => None,
    }
}

/// The text of an optional `&str`.
pub open spec fn str_of(r: Option<&str>) -> Option<Seq<char>> {
    match r {
        Some(s) => Some(s@),
        None => None,
    }
}

impl<'a> XmlDocument<'a> {
    /// The string that a pool ID stands for.
    pub open spec fn string_of(&self, id: u32) -> Option<Seq<u8>> {
        self.spec_strings().resolve(Some(self.spec_input()), id)
    }

    /// The node with ID `id`, when there is one.
    pub open spec fn node_at(&self, id: NodeId) -> Option<XmlNode> {
        if (id as int) < self.spec_nodes().len() {
            Some(self.spec_nodes()[id as int])
        } else {
            None
        }
    }

    /// The attributes of a node: its range of the attribute list, when it lies within it.
    pub open spec fn attrs_of(&self, id: NodeId) -> Seq<XmlAttribute> {
        match self.node_at(id) {
            Some(n) => if n.attr_start + n.attr_count <= self.spec_attributes().len() {
                self.spec_attributes().subrange(n.attr_start as int, n.attr_start + n.attr_count)
            } else {
                seq![]
            },
            None => seq![],
        }
    }

    /// Get the root element (first element child of document)
    pub fn root_element(&self) -> (r: Option<&XmlNode>)
        ensures
            match self.spec_root() {
                Some(id) => match self.node_at(id) {
                    Some(n) => r == Some(&n),
                    None => r is None,
                },
                None => r is None,
            },
    {
        match self.root_element {
            Some(id) => self.get_node(id),
            None => None,
        }
    }

    /// Get root element ID
    pub fn root_element_id(&self) -> (r: Option<NodeId>)
        ensures
            r == self.spec_root(),
    {
        self.root_element
    }

    /// Get a node by ID
    pub fn get_node(&self, id: NodeId) -> (r: Option<&XmlNode>)
        ensures
            match self.node_at(id) {
                Some(n) => r == Some(&n),
                None => r is None,
            },
    {
        if (id as usize) < self.nodes.len() {
            Some(&self.nodes[id as usize])
        } else {
            None
        }
    }

    /// The UTF-8 string of a pool ID.
    fn pool_str(&self, id: u32) -> (r: Option<&str>)
        ensures
            str_of(r) == utf8_of(self.string_of(id)),
    {
        self.strings.get_str_with_input(id, self.input)
    }

    /// Get node name as string
    pub fn node_name(&self, id: NodeId) -> (r: Option<&str>)
        ensures
            str_of(r) == match self.node_at(id) {
                Some(n) => utf8_of(self.string_of(n.name_id)),
                None => None,
            },
    {
        match self.get_node(id) {
            Some(node) => self.pool_str(node.name_id),
            None => None,
        }
    }

    /// Get node local name (without prefix): what follows the first `:` of the name
    pub fn node_local_name(&self, id: NodeId) -> (r: Option<&str>)
        ensures
            str_of(r) == match self.node_at(id) {
                Some(n) => match self.string_of(n.name_id) {
                    Some(b) => if valid_utf8(b) {
                        utf8_of(Some(local_part(b)))
                    } else {
                        None
                    },
                    None => None,
                },
                None => None,
            },
    {
        match self.get_node(id) {
            Some(node) => match self.strings.get_with_input(node.name_id, self.input) {
                Some(b) => match utf8_str(b) {
                    Some(_) => utf8_str(local_name_bytes(b)),
                    None => None,
                },
                None => None,
            },
            None => None,
        }
    }

    /// Get namespace URI of a node (None when it has none)
    pub fn node_namespace_uri(&self, id: NodeId) -> (r: Option<&str>)
        ensures
            str_of(r) == match self.node_at(id) {
                Some(n) => if n.namespace_id == 0 {
                    None
                } else {
                    utf8_of(self.string_of(n.namespace_id))
                },
                None => None,
            },
    {
        match self.get_node(id) {
            Some(node) => if node.namespace_id == 0 {
                None
            } else {
                self.pool_str(node.namespace_id)
            },
            None => None,
        }
    }

    /// Get namespace prefix of a node (None when it has none)
    pub fn node_prefix(&self, id: NodeId) -> (r: Option<&str>)
        ensures
            str_of(r) == match self.node_at(id) {
                Some(n) => if n.prefix_id == 0 {
                    None
                } else {
                    utf8_of(self.string_of(n.prefix_id))
                },
                None => None,
            },
    {
        match self.get_node(id) {
            Some(node) => if node.prefix_id == 0 {
                None
            } else {
                self.pool_str(node.prefix_id)
            },
            None => None,
        }
    }

    /// Get text content of a text or CDATA node
    pub fn text_content(&self, id: NodeId) -> (r: Option<&str>)
        ensures
            str_of(r) == match self.node_at(id) {
                Some(n) => if n.kind == NodeKind::Text || n.kind == NodeKind::CData {
                    utf8_of(self.string_of(n.name_id))
                } else {
                    None
                },
                None => None,
            },
    {
        match self.get_node(id) {
            Some(node) => if node.is_text() || node.kind == NodeKind::CData {
                self.pool_str(node.name_id)
            } else {
                None
            },
            None => None,
        }
    }

    /// Get attributes for an element
    pub fn attributes(&self, id: NodeId) -> (r: &[XmlAttribute])
        ensures
            r@ == self.attrs_of(id),
    {
        match self.get_node(id) {
            Some(node) => {
                let start = node.attr_start as usize;
                let count = node.attr_count as usize;
                if start <= self.attributes.len() && count <= self.attributes.len() - start {
                    let r = &self.attributes.as_slice()[start..start + count];
                    r
                } else {
                    let r = &self.attributes.as_slice()[0..0];
                    assert(r@ =~= Seq::<XmlAttribute>::empty());
                    r
                }
            },
            None => {
                let r = &self.attributes.as_slice()[0..0];
                assert(r@ =~= Seq::<XmlAttribute>::empty());
                r
            },
        }
    }

    /// Get attribute value by name: that of the first attribute whose name reads as
    /// `name`
    pub fn get_attribute(&self, node_id: NodeId, name: &str) -> (r: Option<&str>)
        ensures
            ({
                let attrs = self.attrs_of(node_id);
                let k = first_attr_with(self, attrs, name@, 0);
                &&& k >= attrs.len() ==> r is None
                &&& k < attrs.len() ==> str_of(r) == utf8_of(self.string_of(attrs[k].value_id))
            }),
    {
        let attrs = self.attributes(node_id);
        let mut i: usize = 0;
        while i < attrs.len()
            invariant
                i <= attrs@.len(),
                attrs@ == self.attrs_of(node_id),
                first_attr_with(self, attrs@, name@, 0) == first_attr_with(self, attrs@, name@, i as int),
            decreases attrs.len() - i,
        {
            let found = match self.pool_str(attrs[i].name_id) {
                Some(n) => str_eq(n, name),
                None => false,
            };
            if found {
                return self.pool_str(attrs[i].value_id);
            }
            i += 1;
        }
        None
    }

    /// Get all attribute names and values for a node, those whose name and value both
    /// read as UTF-8
    pub fn get_attribute_values(&self, node_id: NodeId) -> (r: Vec<(&str, &str)>)
        ensures
            pairs_text(r@) == readable_pairs(self, self.attrs_of(node_id)),
    {
        let attrs = self.attributes(node_id);
        let mut out: Vec<(&str, &str)> = Vec::new();
        let mut i: usize = 0;
        while i < attrs.len()
            invariant
                i <= attrs@.len(),
                attrs@ == self.attrs_of(node_id),
                pairs_text(out@) == readable_pairs(self, attrs@.take(i as int)),
            decreases attrs.len() - i,
        {
            let ghost before = out@;
            assert(attrs@.take(i + 1).drop_last() =~= attrs@.take(i as int));
            match (self.pool_str(attrs[i].name_id), self.pool_str(attrs[i].value_id)) {
                (Some(n), Some(v)) => {
                    out.push((n, v));
                    assert(pairs_text(out@) =~= pairs_text(before).push((n@, v@)));
                },
                _ => {
                    assert(pairs_text(out@) =~= pairs_text(before));
                },
            }
            i += 1;
        }
        assert(attrs@.take(attrs@.len() as int) =~= attrs@);
        out
    }

    /// The children of a node, in order of ID (the order they were added in)
    pub fn children(&self, id: NodeId) -> (r: Vec<NodeId>)
        ensures
            r@ == children_from(self.spec_nodes(), id, 0),
    {
        let mut out: Vec<NodeId> = Vec::new();
        let mut i: usize = 0;
        let n = self.nodes.len();
        while i < n
            invariant
                n == self.nodes@.len(),
                i <= n,
                out@ + children_from(self.nodes@, id, i as int) == children_from(
                    self.nodes@,
                    id,
                    0,
                ),
            decreases n - i,
        {
            if self.nodes[i].parent == Some(id) {
                let ghost before = out@;
                out.push(#[verifier::truncate] (i as NodeId));
                assert(out@ =~= before.push(i as NodeId));
            }
            i += 1;
        }
        assert(out@ =~= out@ + children_from(self.nodes@, id, n as int));
        out
    }

    /// All the descendants of a node (the nodes whose chain of parents reaches it), in
    /// order of ID, which for a parsed document is document order
    pub fn descendants(&self, id: NodeId) -> (r: Vec<NodeId>)
        ensures
            r@ == below_from(self.spec_nodes(), id as int, 0),
    {
        let mut out: Vec<NodeId> = Vec::new();
        let mut i: usize = 0;
        let n = self.nodes.len();
        while i < n
            invariant
                n == self.nodes@.len(),
                i <= n,
                out@ + below_from(self.nodes@, id as int, i as int) == below_from(
                    self.nodes@,
                    id as int,
                    0,
                ),
            decreases n - i,
        {
            if self.is_below(id, i) {
                let ghost before = out@;
                out.push(#[verifier::truncate] (i as NodeId));
                assert(out@ =~= before.push(i as NodeId));
            }
            i += 1;
        }
        assert(out@ =~= out@ + below_from(self.nodes@, id as int, n as int));
        out
    }

    /// Whether the chain of parents of node `i` reaches `id`.
    fn is_below(&self, id: NodeId, i: usize) -> (r: bool)
        requires
            i < self.spec_nodes().len(),
        ensures
            r == below(self.spec_nodes(), id as int, i as int, self.spec_nodes().len() as nat),
    {
        let n = self.nodes.len();
        let mut cur = i;
        let mut fuel = n;
        while fuel > 0
            invariant
                n == self.nodes@.len(),
                fuel <= n,
                below(self.nodes@, id as int, i as int, n as nat) == below(
                    self.nodes@,
                    id as int,
                    cur as int,
                    fuel as nat,
                ),
            decreases fuel,
        {
            if cur >= n {
                return false;
            }
            match self.nodes[cur].parent {
                Some(p) => {
                    if p == id {
                        return true;
                    }
                    cur = p as usize;
                },
                None => {
                    return false;
                },
            }
            fuel -= 1;
        }
        false
    }
}

/// The IDs from `i` on of the nodes whose parent is `id`.
pub open spec fn children_from(nodes: Seq<XmlNode>, id: NodeId, i: int) -> Seq<NodeId>
    decreases nodes.len() - i,
{
    if i < 0 || i >= nodes.len() {
        seq![]
    } else if nodes[i].parent == Some(id) {
        seq![i as NodeId] + children_from(nodes, id, i + 1)
    } else {
        children_from(nodes, id, i + 1)
    }
}

/// The IDs from `i` on of the nodes below `a`.
pub open spec fn below_from(nodes: Seq<XmlNode>, a: int, i: int) -> Seq<NodeId>
    decreases nodes.len() - i,
{
    if i < 0 || i >= nodes.len() {
        seq![]
    } else if below(nodes, a, i, nodes.len() as nat) {
        seq![i as NodeId] + below_from(nodes, a, i + 1)
    } else {
        below_from(nodes, a, i + 1)
    }
}

/// The first attribute from `i` on whose name reads as `name`, or the number of them.
pub open spec fn first_attr_with(doc: &XmlDocument, attrs: Seq<XmlAttribute>, name: Seq<char>, i: int) -> int
    decreases attrs.len() - i,
{
    if i < 0 || i >= attrs.len() {
        attrs.len() as int
    } else if utf8_of(doc.string_of(attrs[i].name_id)) == Some(name) {
        i
    } else {
        first_attr_with(doc, attrs, name, i + 1)
    }
}

/// The (name, value) texts of the attributes whose name and value both read as UTF-8.
pub open spec fn readable_pairs(doc: &XmlDocument, attrs: Seq<XmlAttribute>) -> Seq<(Seq<char>, Seq<char>)>
    decreases attrs.len(),
{
    if attrs.len() == 0 {
        seq![]
    } else {
        let prev = readable_pairs(doc, attrs.drop_last());
        let a = attrs.last();
        match (utf8_of(doc.string_of(a.name_id)), utf8_of(doc.string_of(a.value_id))) {
            (Some(n), Some(v)) => prev.push((n, v)),
            _ => prev,
        }
    }
}

/// The texts of a list of string pairs.
pub open spec fn pairs_text(v: Seq<(&str, &str)>) -> Seq<(Seq<char>, Seq<char>)> {
    v.map_values(|p: (&str, &str)| (p.0@, p.1@))
}

impl<'a> DocumentAccess for XmlDocument<'a> {
    open spec fn spec_node(&self, id: NodeId) -> Option<XmlNode> {
        self.node_at(id)
    }

    open spec fn spec_kind(&self, id: NodeId) -> NodeKind {
        match self.node_at(id) {
            Some(n) => n.kind,
            None => NodeKind::Element,
        }
    }

    open spec fn spec_text(&self, id: NodeId) -> Option<Seq<char>> {
        match self.node_at(id) {
            Some(n) => if n.kind == NodeKind::Text || n.kind == NodeKind::CData {
                utf8_of(self.string_of(n.name_id))
            } else {
                None
            },
            None => None,
        }
    }

    open spec fn spec_descendants(&self, id: NodeId) -> Seq<NodeId> {
        below_from(self.spec_nodes(), id as int, 0)
    }

    open spec fn spec_children(&self, id: NodeId) -> Seq<NodeId> {
        children_from(self.spec_nodes(), id, 0)
    }

    open spec fn spec_parent(&self, id: NodeId) -> Option<NodeId> {
        match self.node_at(id) {
            Some(n) => n.parent,
            None => None,
        }
    }

    open spec fn spec_next(&self, id: NodeId) -> Option<NodeId> {
        match self.node_at(id) {
            Some(n) => n.next_sibling,
            None => None,
        }
    }

    open spec fn spec_prev(&self, id: NodeId) -> Option<NodeId> {
        match self.node_at(id) {
            Some(n) => n.prev_sibling,
            None => None,
        }
    }

    open spec fn spec_count(&self) -> nat {
        self.spec_nodes().len()
    }

    fn node_kind_of(&self, id: NodeId) -> (r: NodeKind) {
        match self.get_node(id) {
            Some(n) => n.kind,
            None => NodeKind::Element,
        }
    }

    fn node_count(&self) -> (r: usize) {
        self.nodes.len()
    }

    fn parent_of(&self, id: NodeId) -> (r: Option<NodeId>) {
        match self.get_node(id) {
            Some(n) => n.parent,
            None => None,
        }
    }

    fn next_sibling_of(&self, id: NodeId) -> (r: Option<NodeId>) {
        match self.get_node(id) {
            Some(n) => n.next_sibling,
            None => None,
        }
    }

    fn prev_sibling_of(&self, id: NodeId) -> (r: Option<NodeId>) {
        match self.get_node(id) {
            Some(n) => n.prev_sibling,
            None => None,
        }
    }

    open spec fn spec_name(&self, id: NodeId) -> Option<Seq<char>> {
        match self.node_at(id) {
            Some(n) => utf8_of(self.string_of(n.name_id)),
            None => None,
        }
    }

    open spec fn spec_local_name(&self, id: NodeId) -> Option<Seq<char>> {
        match self.node_at(id) {
            Some(n) => match self.string_of(n.name_id) {
                Some(b) => if valid_utf8(b) {
                    utf8_of(Some(local_part(b)))
                } else {
                    None
                },
                None => None,
            },
            None => None,
        }
    }

    open spec fn spec_root_element(&self) -> Option<NodeId> {
        self.spec_root()
    }

    open spec fn spec_namespace_uri(&self, id: NodeId) -> Option<Seq<char>> {
        match self.node_at(id) {
            Some(n) => if n.namespace_id == 0 {
                None
            } else {
                utf8_of(self.string_of(n.namespace_id))
            },
            None => None,
        }
    }

    open spec fn spec_prefix(&self, id: NodeId) -> Option<Seq<char>> {
        match self.node_at(id) {
            Some(n) => if n.prefix_id == 0 {
                None
            } else {
                utf8_of(self.string_of(n.prefix_id))
            },
            None => None,
        }
    }

    open spec fn spec_attribute(&self, id: NodeId, name: &str) -> Option<Seq<char>> {
        let attrs = self.attrs_of(id);
        let k = first_attr_with(self, attrs, name@, 0);
        if k >= attrs.len() {
            None
        } else {
            utf8_of(self.string_of(attrs[k].value_id))
        }
    }

    open spec fn spec_attrs(&self, id: NodeId) -> Seq<(Seq<char>, Seq<char>)> {
        readable_pairs(self, self.attrs_of(id))
    }

    fn root_element_id(&self) -> (r: Option<NodeId>)
        ensures
            r == self.spec_root(),
    {
        XmlDocument::root_element_id(self)
    }

    fn get_node(&self, id: NodeId) -> (r: Option<&XmlNode>)
        ensures
            match self.node_at(id) {
                Some(n) => r == Some(&n),
                None => r is None,
            },
    {
        XmlDocument::get_node(self, id)
    }

    fn node_name(&self, id: NodeId) -> (r: Option<&str>)
        ensures
            str_of(r) == match self.node_at(id) {
                Some(n) => utf8_of(self.string_of(n.name_id)),
                None => None,
            },
    {
        XmlDocument::node_name(self, id)
    }

    fn node_local_name(&self, id: NodeId) -> (r: Option<&str>) {
        XmlDocument::node_local_name(self, id)
    }

    fn node_namespace_uri(&self, id: NodeId) -> (r: Option<&str>)
        ensures
            str_of(r) == match self.node_at(id) {
                Some(n) => if n.namespace_id == 0 {
                    None
                } else {
                    utf8_of(self.string_of(n.namespace_id))
                },
                None => None,
            },
    {
        XmlDocument::node_namespace_uri(self, id)
    }

    fn node_prefix(&self, id: NodeId) -> (r: Option<&str>)
        ensures
            str_of(r) == match self.node_at(id) {
                Some(n) => if n.prefix_id == 0 {
                    None
                } else {
                    utf8_of(self.string_of(n.prefix_id))
                },
                None => None,
            },
    {
        XmlDocument::node_prefix(self, id)
    }

    fn text_content(&self, id: NodeId) -> (r: Option<&str>)
        ensures
            str_of(r) == match self.node_at(id) {
                Some(n) => if n.kind == NodeKind::Text || n.kind == NodeKind::CData {
                    utf8_of(self.string_of(n.name_id))
                } else {
                    None
                },
                None => None,
            },
    {
        XmlDocument::text_content(self, id)
    }

    fn get_attribute(&self, node_id: NodeId, name: &str) -> (r: Option<&str>)
        ensures
            ({
                let attrs = self.attrs_of(node_id);
                let k = first_attr_with(self, attrs, name@, 0);
                &&& k >= attrs.len() ==> r is None
                &&& k < attrs.len() ==> str_of(r) == utf8_of(self.string_of(attrs[k].value_id))
            }),
    {
        XmlDocument::get_attribute(self, node_id, name)
    }

    fn get_attribute_values(&self, node_id: NodeId) -> (r: Vec<(&str, &str)>)
        ensures
            pairs_text(r@) == readable_pairs(self, self.attrs_of(node_id)),
    {
        XmlDocument::get_attribute_values(self, node_id)
    }

    fn children_vec(&self, id: NodeId) -> (r: Vec<NodeId>)
        ensures
            r@ == children_from(self.spec_nodes(), id, 0),
    {
        self.children(id)
    }

    fn descendants_vec(&self, id: NodeId) -> (r: Vec<NodeId>)
        ensures
            r@ == below_from(self.spec_nodes(), id as int, 0),
    {
        self.descendants(id)
    }
}

} // verus!




