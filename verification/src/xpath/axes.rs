//! XPath axes and node tests against a document
//!
//! All 13 XPath 1.0 axes: child, parent, self, descendant, descendant-or-self,
//! ancestor, ancestor-or-self, following, following-sibling, preceding,
//! preceding-sibling, attribute, namespace. Walks along parent and sibling links are
//! at most as long as the document has nodes.

use vstd::prelude::*;

use super::compiler::CompiledNodeTest;
use super::parser::Axis;
use crate::dom::{DocumentAccess, NodeId, NodeKind};
use crate::xml_core::primitives::str_eq;

verus! {

/// Both strings are present and equal.
fn opt_str_eq(a: Option<&str>, b: &str) -> (r: bool)
    ensures
        r == (a matches Some(x) && x@ == b@),
{
    match a {
        Some(x) => str_eq(x, b),
        None => false,
    }
}

/// Whether a node of kind `kind`, with local name `local` and name `name` (as far as
/// known), passes a node test: `*` and names match elements (by local name; the
/// namespace part of a test is not checked), `node()` anything, `text()` text and
/// CDATA, `comment()` comments, `processing-instruction(t)` instructions with target `t`.
pub open spec fn test_matches(
    kind: NodeKind,
    local: Option<Seq<char>>,
    name: Option<Seq<char>>,
    test: CompiledNodeTest,
) -> bool {
    match test {
        CompiledNodeTest::Any => kind == NodeKind::Element,
        CompiledNodeTest::Name(n) => kind == NodeKind::Element && local == Some(n@),
        CompiledNodeTest::QName(_, l) => kind == NodeKind::Element && local == Some(l@),
        CompiledNodeTest::NamespaceWildcard(_) => kind == NodeKind::Element,
        CompiledNodeTest::Node => true,
        CompiledNodeTest::Text => kind == NodeKind::Text || kind == NodeKind::CData,
        CompiledNodeTest::Comment => kind == NodeKind::Comment,
        CompiledNodeTest::ProcessingInstruction(target) => kind == NodeKind::ProcessingInstruction
            && match target {
            Some(t) => name == Some(t@),
            None => true,
        },
    }
}

/// The text of an optional string.
pub open spec fn opt_text(a: Option<&str>) -> Option<Seq<char>> {
    match a {
        Some(x) => Some(x@),
        None => None,
    }
}

/// Whether a node with these kind, local name and name passes the node test
pub fn node_test_matches(
    kind: NodeKind,
    local: Option<&str>,
    name: Option<&str>,
    node_test: &CompiledNodeTest,
) -> (r: bool)
    ensures
        r == test_matches(kind, opt_text(local), opt_text(name), *node_test),
{
    match node_test {
        CompiledNodeTest::Any => kind == NodeKind::Element,
        CompiledNodeTest::Name(n) => kind == NodeKind::Element && opt_str_eq(local, n.as_str()),
        CompiledNodeTest::QName(_, l) => kind == NodeKind::Element && opt_str_eq(local, l.as_str()),
        CompiledNodeTest::NamespaceWildcard(_) => kind == NodeKind::Element,
        CompiledNodeTest::Node => true,
        CompiledNodeTest::Text => kind == NodeKind::Text || kind == NodeKind::CData,
        CompiledNodeTest::Comment => kind == NodeKind::Comment,
        CompiledNodeTest::ProcessingInstruction(target) => kind == NodeKind::ProcessingInstruction
            && match target {
            Some(t) => opt_str_eq(name, t.as_str()),
            None => true,
        },
    }
}

/// Check if a node matches a node test, with the node's kind and names as the
/// document gives them (the names are asked for only when the test needs them)
pub fn matches_node_test<D: DocumentAccess>(
    doc: &D,
    node_id: NodeId,
    node_test: &CompiledNodeTest,
) -> (r: bool)
    ensures
        r == test_matches(
            doc.spec_kind(node_id),
            doc.spec_local_name(node_id),
            doc.spec_name(node_id),
            *node_test,
        ),
{
    let kind = doc.node_kind_of(node_id);
    let local = match node_test {
        CompiledNodeTest::Name(_) | CompiledNodeTest::QName(_, _) => if kind == NodeKind::Element {
            doc.node_local_name(node_id)
        } else {
            None
        },
        _ => None,
    };
    let name = match node_test {
        CompiledNodeTest::ProcessingInstruction(Some(_)) => if kind == NodeKind::ProcessingInstruction {
            doc.node_name(node_id)
        } else {
            None
        },
        _ => None,
    };
    node_test_matches(kind, local, name, node_test)
}

// =============================================================================
// Axes
// =============================================================================
/// The parents of a node, nearest first, in at most `fuel` steps.
pub open spec fn parent_chain<D: DocumentAccess>(doc: &D, id: NodeId, fuel: nat) -> Seq<NodeId>
    decreases fuel,
{
    if fuel == 0 {
        seq![]
    } else {
        match doc.spec_parent(id) {
            Some(p) => seq![p] + parent_chain(doc, p, (fuel - 1) as nat),
            None => seq![],
        }
    }
}

/// The next siblings of a node, nearest first, in at most `fuel` steps.
pub open spec fn next_chain<D: DocumentAccess>(doc: &D, id: NodeId, fuel: nat) -> Seq<NodeId>
    decreases fuel,
{
    if fuel == 0 {
        seq![]
    } else {
        match doc.spec_next(id) {
            Some(p) => seq![p] + next_chain(doc, p, (fuel - 1) as nat),
            None => seq![],
        }
    }
}

/// The previous siblings of a node, nearest first, in at most `fuel` steps.
pub open spec fn prev_chain<D: DocumentAccess>(doc: &D, id: NodeId, fuel: nat) -> Seq<NodeId>
    decreases fuel,
{
    if fuel == 0 {
        seq![]
    } else {
        match doc.spec_prev(id) {
            Some(p) => seq![p] + prev_chain(doc, p, (fuel - 1) as nat),
            None => seq![],
        }
    }
}

/// Each node of `ns` followed by its descendants.
pub open spec fn with_descendants<D: DocumentAccess>(doc: &D, ns: Seq<NodeId>) -> Seq<NodeId>
    decreases ns.len(),
{
    if ns.len() == 0 {
        seq![]
    } else {
        with_descendants(doc, ns.drop_last()) + seq![ns.last()] + doc.spec_descendants(ns.last())
    }
}

/// For each node of `ns` in turn, its following siblings with their descendants.
pub open spec fn following_of_each<D: DocumentAccess>(doc: &D, ns: Seq<NodeId>, fuel: nat) -> Seq<
    NodeId,
>
    decreases ns.len(),
{
    if ns.len() == 0 {
        seq![]
    } else {
        following_of_each(doc, ns.drop_last(), fuel) + with_descendants(
            doc,
            next_chain(doc, ns.last(), fuel),
        )
    }
}

/// The nodes of `s` before the first `x`.
pub open spec fn upto(s: Seq<NodeId>, x: NodeId) -> Seq<NodeId>
    decreases s.len(),
{
    if s.len() == 0 {
        s
    } else if s[0] == x {
        seq![]
    } else {
        seq![s[0]] + upto(s.drop_first(), x)
    }
}

/// The nodes of `s` that are not in `ex`, in order.
pub open spec fn not_in(s: Seq<NodeId>, ex: Seq<NodeId>) -> Seq<NodeId>
    decreases s.len(),
{
    if s.len() == 0 {
        s
    } else if ex.contains(s.last()) {
        not_in(s.drop_last(), ex)
    } else {
        not_in(s.drop_last(), ex).push(s.last())
    }
}

/// `s` in reverse order.
pub open spec fn rev(s: Seq<NodeId>) -> Seq<NodeId>
    decreases s.len(),
{
    if s.len() == 0 {
        s
    } else {
        rev(s.drop_first()) + seq![s[0]]
    }
}

/// The nodes an axis selects from `context`, with walks along links at most as long as
/// the document has nodes: the following axis takes the following siblings of the node
/// and then of each ancestor, each with its descendants; the preceding axis takes the
/// nodes met before the context node in document order from node 0 on, without the
/// context's ancestors, nearest first; attributes and namespaces are no nodes here.
pub open spec fn spec_axis<D: DocumentAccess>(doc: &D, context: NodeId, axis: Axis) -> Seq<NodeId> {
    let n = doc.spec_count();
    match axis {
        Axis::Child => doc.spec_children(context),
        Axis::Descendant => doc.spec_descendants(context),
        Axis::DescendantOrSelf => seq![context] + doc.spec_descendants(context),
        Axis::Parent => match doc.spec_parent(context) {
            Some(p) => seq![p],
            None => seq![],
        },
        Axis::Ancestor => parent_chain(doc, context, n),
        Axis::AncestorOrSelf => seq![context] + parent_chain(doc, context, n),
        Axis::FollowingSibling => next_chain(doc, context, n),
        Axis::PrecedingSibling => prev_chain(doc, context, n),
        Axis::Following => with_descendants(doc, next_chain(doc, context, n)) + following_of_each(
            doc,
            parent_chain(doc, context, n),
            n,
        ),
        Axis::Preceding => rev(
            not_in(upto(seq![0u32] + doc.spec_descendants(0), context), parent_chain(doc, context, n)),
        ),
        Axis::Self_ => seq![context],
        Axis::Attribute => seq![],
        Axis::Namespace => seq![],
    }
}

/// The parents of a node, nearest first.
fn ancestors<D: DocumentAccess>(doc: &D, context: NodeId) -> (r: Vec<NodeId>)
    ensures
        r@ == parent_chain(doc, context, doc.spec_count()),
{
    let n = doc.node_count();
    let mut result: Vec<NodeId> = Vec::new();
    let mut current = context;
    let mut k: usize = 0;
    while k < n
        invariant
            k <= n,
            n == doc.spec_count(),
            parent_chain(doc, context, n as nat) == result@ + parent_chain(
                doc,
                current,
                (n - k) as nat,
            ),
        decreases n - k,
    {
        match doc.parent_of(current) {
            Some(p) => {
                result.push(p);
                proof {
                    assert(parent_chain(doc, current, (n - k) as nat) == seq![p] + parent_chain(
                        doc,
                        p,
                        (n - k - 1) as nat,
                    ));
                    assert(result@ + parent_chain(doc, p, (n - k - 1) as nat) =~= result@.drop_last()
                        + (seq![p] + parent_chain(doc, p, (n - k - 1) as nat)));
                }
                current = p;
            },
            None => {
                assert(result@ + Seq::<NodeId>::empty() =~= result@);
                return result;
            },
        }
        k += 1;
    }
    assert(result@ + Seq::<NodeId>::empty() =~= result@);
    result
}

/// The siblings of a node along next (`forward`) or previous links, nearest first.
fn siblings<D: DocumentAccess>(doc: &D, context: NodeId, forward: bool) -> (r: Vec<NodeId>)
    ensures
        r@ == (if forward {
            next_chain(doc, context, doc.spec_count())
        } else {
            prev_chain(doc, context, doc.spec_count())
        }),
{
    let n = doc.node_count();
    let mut result: Vec<NodeId> = Vec::new();
    let mut current = context;
    let mut k: usize = 0;
    let ghost chain = |id: NodeId, f: nat|
        if forward {
            next_chain(doc, id, f)
        } else {
            prev_chain(doc, id, f)
        };
    while k < n
        invariant
            k <= n,
            n == doc.spec_count(),
            chain == (|id: NodeId, f: nat|
                if forward {
                    next_chain(doc, id, f)
                } else {
                    prev_chain(doc, id, f)
                }),
            chain(context, n as nat) == result@ + chain(current, (n - k) as nat),
        decreases n - k,
    {
        let step = if forward {
            doc.next_sibling_of(current)
        } else {
            doc.prev_sibling_of(current)
        };
        match step {
            Some(p) => {
                result.push(p);
                proof {
                    assert(chain(current, (n - k) as nat) == seq![p] + chain(p, (n - k - 1) as nat));
                    assert(result@ + chain(p, (n - k - 1) as nat) =~= result@.drop_last() + (seq![p]
                        + chain(p, (n - k - 1) as nat)));
                }
                current = p;
            },
            None => {
                assert(result@ + Seq::<NodeId>::empty() =~= result@);
                return result;
            },
        }
        k += 1;
    }
    assert(result@ + Seq::<NodeId>::empty() =~= result@);
    result
}

/// Append each node of `ns` followed by its descendants.
fn push_with_descendants<D: DocumentAccess>(doc: &D, ns: &Vec<NodeId>, out: &mut Vec<NodeId>)
    ensures
        final(out)@ == old(out)@ + with_descendants(doc, ns@),
{
    let mut i: usize = 0;
    assert(ns@.take(0) =~= Seq::<NodeId>::empty());
    assert(old(out)@ + Seq::<NodeId>::empty() =~= old(out)@);
    while i < ns.len()
        invariant
            i <= ns@.len(),
            out@ == old(out)@ + with_descendants(doc, ns@.take(i as int)),
        decreases ns.len() - i,
    {
        let s = ns[i];
        out.push(s);
        let d = doc.descendants_vec(s);
        let ghost before = out@;
        let mut j: usize = 0;
        while j < d.len()
            invariant
                j <= d@.len(),
                out@ == before + d@.take(j as int),
            decreases d.len() - j,
        {
            out.push(d[j]);
            assert(d@.take(j + 1) =~= d@.take(j as int).push(d@[j as int]));
            j += 1;
        }
        proof {
            assert(d@.take(d@.len() as int) =~= d@);
            assert(ns@.take(i + 1).drop_last() =~= ns@.take(i as int));
            assert(ns@.take(i + 1).last() == s);
            assert(out@ =~= old(out)@ + with_descendants(doc, ns@.take(i + 1)));
        }
        i += 1;
    }
    assert(ns@.take(ns@.len() as int) =~= ns@);
}

/// `upto` is the prefix before the first occurrence.
proof fn lemma_upto(s: Seq<NodeId>, x: NodeId, i: int)
    requires
        0 <= i <= s.len(),
        forall|j: int| 0 <= j < i ==> s[j] != x,
        i == s.len() || s[i] == x,
    ensures
        upto(s, x) == s.take(i),
    decreases i,
{
    if i == 0 {
        if s.len() > 0 {
            assert(s[0] == x);
        }
        assert(s.take(0) =~= Seq::<NodeId>::empty());
    } else {
        lemma_upto(s.drop_first(), x, i - 1);
        assert(s.take(i) =~= seq![s[0]] + s.drop_first().take(i - 1));
    }
}

/// Whether `x` is one of `v`.
fn contains_id(v: &Vec<NodeId>, x: NodeId) -> (r: bool)
    ensures
        r == v@.contains(x),
{
    let mut i: usize = 0;
    while i < v.len()
        invariant
            i <= v@.len(),
            forall|j: int| 0 <= j < i ==> v@[j] != x,
        decreases v.len() - i,
    {
        if v[i] == x {
            assert(v@[i as int] == x);
            return true;
        }
        i += 1;
    }
    false
}

/// The preceding axis: the nodes before `context` from node 0 on in document order,
/// without its ancestors, nearest first.
fn preceding<D: DocumentAccess>(doc: &D, context: NodeId) -> (r: Vec<NodeId>)
    ensures
        r@ == rev(
            not_in(
                upto(seq![0u32] + doc.spec_descendants(0), context),
                parent_chain(doc, context, doc.spec_count()),
            ),
        ),
{
    let anc = ancestors(doc, context);
    let mut order: Vec<NodeId> = Vec::new();
    order.push(0);
    let d = doc.descendants_vec(0);
    let mut j: usize = 0;
    while j < d.len()
        invariant
            j <= d@.len(),
            order@ == seq![0u32] + d@.take(j as int),
        decreases d.len() - j,
    {
        order.push(d[j]);
        assert(d@.take(j + 1) =~= d@.take(j as int).push(d@[j as int]));
        j += 1;
    }
    assert(d@.take(d@.len() as int) =~= d@);
    let ghost s = order@;
    let mut kept: Vec<NodeId> = Vec::new();
    let mut i: usize = 0;
    assert(s.take(0) =~= Seq::<NodeId>::empty());
    while i < order.len() && order[i] != context
        invariant
            i <= s.len(),
            s == order@,
            forall|k: int| 0 <= k < i ==> s[k] != context,
            kept@ == not_in(s.take(i as int), anc@),
        decreases order.len() - i,
    {
        let x = order[i];
        assert(s.take(i + 1).drop_last() =~= s.take(i as int));
        assert(s.take(i + 1).last() == x);
        if !contains_id(&anc, x) {
            kept.push(x);
        }
        i += 1;
    }
    proof {
        lemma_upto(s, context, i as int);
    }
    let mut out: Vec<NodeId> = Vec::new();
    let mut k = kept.len();
    assert(kept@.subrange(k as int, k as int) =~= Seq::<NodeId>::empty());
    while k > 0
        invariant
            k <= kept@.len(),
            out@ == rev(kept@.subrange(k as int, kept@.len() as int)),
        decreases k,
    {
        let ghost sub = kept@.subrange(k - 1, kept@.len() as int);
        assert(sub.drop_first() =~= kept@.subrange(k as int, kept@.len() as int));
        out.push(kept[k - 1]);
        k -= 1;
    }
    assert(kept@.subrange(0, kept@.len() as int) =~= kept@);
    out
}

/// Navigate along an axis from a context node
pub fn navigate<D: DocumentAccess>(doc: &D, context: NodeId, axis: Axis) -> (r: Vec<NodeId>)
    ensures
        r@ == spec_axis(doc, context, axis),
{
    match axis {
        Axis::Child => doc.children_vec(context),
        Axis::Descendant => doc.descendants_vec(context),
        Axis::DescendantOrSelf => {
            let mut result: Vec<NodeId> = Vec::new();
            result.push(context);
            let mut d = doc.descendants_vec(context);
            result.append(&mut d);
            result
        },
        Axis::Parent => match doc.parent_of(context) {
            Some(p) => {
                let mut v: Vec<NodeId> = Vec::new();
                v.push(p);
                v
            },
            None => Vec::new(),
        },
        Axis::Ancestor => ancestors(doc, context),
        Axis::AncestorOrSelf => {
            let mut result: Vec<NodeId> = Vec::new();
            result.push(context);
            let mut a = ancestors(doc, context);
            result.append(&mut a);
            result
        },
        Axis::FollowingSibling => siblings(doc, context, true),
        Axis::PrecedingSibling => siblings(doc, context, false),
        Axis::Following => {
            let mut result: Vec<NodeId> = Vec::new();
            let sibs = siblings(doc, context, true);
            push_with_descendants(doc, &sibs, &mut result);
            let anc = ancestors(doc, context);
            let mut i: usize = 0;
            let ghost n = doc.spec_count();
            let ghost first = result@;
            assert(anc@.take(0) =~= Seq::<NodeId>::empty());
            assert(first + Seq::<NodeId>::empty() =~= first);
            while i < anc.len()
                invariant
                    i <= anc@.len(),
                    n == doc.spec_count(),
                    result@ == first + following_of_each(doc, anc@.take(i as int), n),
                decreases anc.len() - i,
            {
                let s = siblings(doc, anc[i], true);
                let ghost before = result@;
                push_with_descendants(doc, &s, &mut result);
                proof {
                    assert(anc@.take(i + 1).drop_last() =~= anc@.take(i as int));
                    assert(anc@.take(i + 1).last() == anc@[i as int]);
                    assert(result@ =~= first + following_of_each(doc, anc@.take(i + 1), n));
                }
                i += 1;
            }
            assert(anc@.take(anc@.len() as int) =~= anc@);
            result
        },
        Axis::Preceding => preceding(doc, context),
        Axis::Self_ => {
            let mut v: Vec<NodeId> = Vec::new();
            v.push(context);
            v
        },
        Axis::Attribute => Vec::new(),
        Axis::Namespace => Vec::new(),
    }
}

} // verus!
