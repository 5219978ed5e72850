//! Index Builder
//!
//! Builds a StructuralIndex from XML parsing events.
//! Implements the ScanHandler trait for use with UnifiedScanner.
//!
//! Memory-efficient: builds children from parent links after scan,
//! avoiding temporary buffers during construction.
//!
//! What the builder records for a stream of scan events is stated by
//! `model_of`: one element per start tag, with the innermost open element as its
//! parent, one text node per text, CDATA section, comment and processing
//! instruction, and the attributes of each start tag in order.

use vstd::prelude::*;

use super::element::{element_flags, text_flags, IndexAttribute, IndexElement, IndexText, NO_NODE};
use super::span::{ext_span, Span};
use super::element::TEXT_BIT;
use super::structural::{children_in_order, StructuralIndex};
use crate::xml_core::unified_scanner::{
    lemma_scan_step_progress, scan_from, scan_step, ScanEvent, ScanHandler, UnifiedScanner,
};

verus! {

/// What the index records of one element, apart from its links to first child,
/// last child and next sibling.
pub struct ElemModel {
    pub name: Span,
    pub parent: u32,
    pub depth: u16,
    pub attr_start: u32,
    pub attr_count: u16,
    pub flags: u16,
}

/// The index contents that a stream of scan events determines, and the elements
/// still open at its end.
pub struct BuildModel {
    pub elems: Seq<ElemModel>,
    pub texts: Seq<IndexText>,
    pub attrs: Seq<IndexAttribute>,
    pub stack: Seq<u32>,
}

/// The innermost open element, or `NO_NODE`.
pub open spec fn top(stack: Seq<u32>) -> u32 {
    if stack.len() > 0 {
        stack.last()
    } else {
        NO_NODE
    }
}

/// The index attributes for the (name, value) spans of a start tag.
pub open spec fn attr_entries(attrs: Seq<(Span, Span)>) -> Seq<IndexAttribute> {
    attrs.map_values(|p: (Span, Span)| IndexAttribute { name: p.0, value: p.1 })
}

/// A text node of the index.
pub open spec fn text_node(span: Span, parent: u32, flags: u16) -> IndexText {
    IndexText { span: ext_span(span.offset, span.len as int), parent, flags }
}

/// The effect of one scan event on the model.
pub open spec fn apply_event(m: BuildModel, e: ScanEvent) -> BuildModel {
    match e {
        ScanEvent::StartElement { name, attrs, is_empty } => {
            let idx = m.elems.len() as u32;
            let elem = ElemModel {
                name,
                parent: top(m.stack),
                depth: m.stack.len() as u16,
                attr_start: if attrs.len() > 0 {
                    m.attrs.len() as u32
                } else {
                    0
                },
                attr_count: if attrs.len() > 0 {
                    if attrs.len() <= 0xFFFF {
                        attrs.len() as u16
                    } else {
                        0xFFFFu16
                    }
                } else {
                    0
                },
                flags: if is_empty {
                    element_flags::IS_EMPTY
                } else {
                    0
                },
            };
            BuildModel {
                elems: m.elems.push(elem),
                attrs: m.attrs + attr_entries(attrs),
                stack: if is_empty {
                    m.stack
                } else {
                    m.stack.push(idx)
                },
                ..m
            }
        },
        ScanEvent::EndElement { .. } => BuildModel {
            stack: if m.stack.len() > 0 {
                m.stack.drop_last()
            } else {
                m.stack
            },
            ..m
        },
        ScanEvent::Text { span, needs_decode } => BuildModel {
            texts: m.texts.push(
                text_node(
                    span,
                    top(m.stack),
                    if needs_decode {
                        text_flags::NEEDS_ENTITY_DECODE
                    } else {
                        0
                    },
                ),
            ),
            ..m
        },
        ScanEvent::CData { span } => BuildModel {
            texts: m.texts.push(text_node(span, top(m.stack), text_flags::IS_CDATA)),
            ..m
        },
        ScanEvent::Comment { span } => BuildModel {
            texts: m.texts.push(text_node(span, top(m.stack), text_flags::IS_COMMENT)),
            ..m
        },
        ScanEvent::ProcessingInstruction { target, .. } => BuildModel {
            texts: m.texts.push(text_node(target, top(m.stack), text_flags::IS_PI)),
            ..m
        },
        ScanEvent::Doctype { .. } => m,
    }
}

/// The model after a stream of events, starting from an empty index.
pub open spec fn model_of(events: Seq<ScanEvent>) -> BuildModel
    decreases events.len(),
{
    if events.len() == 0 {
        BuildModel { elems: seq![], texts: seq![], attrs: seq![], stack: seq![] }
    } else {
        apply_event(model_of(events.drop_last()), events.last())
    }
}

/// Whether an index element carries what the model records of it.
pub open spec fn elem_matches(e: IndexElement, m: ElemModel) -> bool {
    &&& e.name == m.name
    &&& e.parent == m.parent
    &&& e.depth == m.depth
    &&& e.attr_start == m.attr_start
    &&& e.attr_count == m.attr_count
    &&& e.flags == m.flags
}

/// Whether the index holds what the model records.
pub open spec fn index_matches(index: &StructuralIndex, m: BuildModel) -> bool {
    &&& index.elements@.len() == m.elems.len()
    &&& forall|k: int|
        0 <= k < m.elems.len() ==> elem_matches(#[trigger] index.elements@[k], m.elems[k])
    &&& index.texts@ == m.texts
    &&& index.attributes@ == m.attrs
    &&& index.root == if m.elems.len() > 0 {
        Some(0u32)
    } else {
        None
    }
}

/// No element strictly between positions `lo` and `hi` has parent `p`.
pub open spec fn no_child_between(elems: Seq<IndexElement>, p: u32, lo: int, hi: int) -> bool {
    forall|g: int| lo < g < hi && 0 <= g < elems.len() ==> #[trigger] elems[g].parent != p
}

/// Element `g` is still open: it stands in the stack `open`.
pub open spec fn is_open(open: Seq<u32>, g: int) -> bool {
    exists|i: int| 0 <= i < open.len() && open[i] == g
}

/// The links of element `e`: `next_sibling` is the next element with the same parent,
/// `first_child` the first element whose parent `e` is, `last_child` the last such
/// element that has been closed (with only open ones after it), each `NO_NODE` where
/// there is none; a parent comes before its child and is one level shallower.
pub open spec fn link_facts(elems: Seq<IndexElement>, open: Seq<u32>, e: int) -> bool {
    let n = elems.len() as int;
    let x = elems[e];
    &&& if x.next_sibling == NO_NODE {
        no_child_between(elems, x.parent, e, n)
    } else {
        &&& e < x.next_sibling < n
        &&& elems[x.next_sibling as int].parent == x.parent
        &&& no_child_between(elems, x.parent, e, x.next_sibling as int)
    }
    &&& if x.first_child == NO_NODE {
        no_child_between(elems, e as u32, -1, n)
    } else {
        &&& x.first_child < n
        &&& elems[x.first_child as int].parent == e
        &&& no_child_between(elems, e as u32, -1, x.first_child as int)
    }
    &&& if x.last_child == NO_NODE {
        forall|g: int| 0 <= g < n && #[trigger] elems[g].parent == e ==> is_open(open, g)
    } else {
        &&& x.last_child < n
        &&& elems[x.last_child as int].parent == e
        &&& !is_open(open, x.last_child as int)
        &&& forall|g: int|
            x.last_child < g < n && #[trigger] elems[g].parent == e ==> is_open(open, g)
    }
    &&& x.parent != NO_NODE ==> x.parent < e && x.depth == elems[x.parent as int].depth + 1
}

/// The child and sibling links of every element, with `open` the elements not closed yet.
pub open spec fn links_hold(elems: Seq<IndexElement>, open: Seq<u32>) -> bool {
    forall|e: int| 0 <= e < elems.len() ==> #[trigger] link_facts(elems, open, e)
}

/// The scan stays within the limits the links are kept for: each element starts at a
/// depth below `u16::MAX`, and the elements are numbered below `NO_NODE`.
pub open spec fn within_limits(events: Seq<ScanEvent>) -> bool
    decreases events.len(),
{
    if events.len() == 0 {
        true
    } else {
        within_limits(events.drop_last()) && match events.last() {
            ScanEvent::StartElement { .. } => {
                let m = model_of(events.drop_last());
                m.stack.len() < 0xFFFF && m.elems.len() + 2 < u32::MAX
            },
            _ => true,
        }
    }
}

/// The parent of an element started at depth `d`.
pub open spec fn parent_at(open: Seq<u32>, d: int) -> u32 {
    if d == 0 {
        NO_NODE
    } else {
        open[d - 1]
    }
}

/// What the builder remembers for depth `d`: the last element started there under the
/// current parent, or none where that parent has no child yet.
pub open spec fn prev_ok(elems: Seq<IndexElement>, open: Seq<u32>, prev: Seq<Option<u32>>, d: int) -> bool {
    let par = parent_at(open, d);
    if d < prev.len() && prev[d] is Some {
        let x = prev[d]->0;
        &&& x < elems.len()
        &&& elems[x as int].parent == par
        &&& no_child_between(elems, par, x as int, elems.len() as int)
    } else {
        no_child_between(elems, par, -1, elems.len() as int)
    }
}

/// The state that keeps the links right as elements start and end.
pub open spec fn link_state(elems: Seq<IndexElement>, open: Seq<u32>, prev: Seq<Option<u32>>) -> bool {
    let n = elems.len() as int;
    &&& n + 1 < u32::MAX
    &&& links_hold(elems, open)
    &&& forall|i: int| 0 <= i < open.len() ==> #[trigger] open[i] < n && elems[open[i] as int].depth == i
    &&& forall|i: int, j: int| 0 <= i < j < open.len() ==> #[trigger] open[i] < #[trigger] open[j]
    &&& forall|i: int, g: int|
        #![trigger open[i], elems[g]]
        0 <= i < open.len() && open[i] < g < n ==> elems[g].parent != NO_NODE && open[i]
            <= elems[g].parent
    &&& forall|d: int| 0 <= d <= open.len() ==> #[trigger] prev_ok(elems, open, prev, d)
}

/// Ending the innermost open element `el` records it as the last child of its parent,
/// and its own last child as the last element remembered one level below it.
proof fn lemma_end_links(e0: Seq<IndexElement>, st0: Seq<u32>, prev0: Seq<Option<u32>>, e2: Seq<IndexElement>)
    requires
        link_state(e0, st0, prev0),
        st0.len() > 0,
        e2.len() == e0.len(),
        ({
            let el = st0.last() as int;
            let par = e0[el].parent;
            let d = st0.len() as int;
            let l = if d < prev0.len() && prev0[d] is Some {
                prev0[d]->0
            } else {
                e0[el].last_child
            };
            forall|k: int|
                0 <= k < e0.len() ==> #[trigger] e2[k] == if k == el {
                    IndexElement { last_child: l, ..e0[k] }
                } else if k == par {
                    IndexElement { last_child: el as u32, ..e0[k] }
                } else {
                    e0[k]
                }
        }),
    ensures
        link_state(e2, st0.drop_last(), prev0),
{
    let n = e0.len() as int;
    let el = st0.last() as int;
    let par = e0[el].parent;
    let d = st0.len() as int;
    let st1 = st0.drop_last();
    assert(st0[d - 1] < n);
    assert(link_facts(e0, st0, el));
    assert forall|g: int| 0 <= g < n implies #[trigger] e2[g].parent == e0[g].parent && e2[g].depth
        == e0[g].depth && e2[g].next_sibling == e0[g].next_sibling && e2[g].first_child
        == e0[g].first_child by {}
    assert forall|g: int| is_open(st1, g) implies is_open(st0, g) && g < el by {
        let i = choose|i: int| 0 <= i < st1.len() && st1[i] == g;
        assert(st0[i] == g);
        assert(st0[i] < st0[d - 1]);
    }
    assert forall|g: int| is_open(st0, g) && g != el implies is_open(st1, g) by {
        let i = choose|i: int| 0 <= i < st0.len() && st0[i] == g;
        assert(i != d - 1);
        assert(st1[i] == g);
    }
    assert forall|p: u32, lo: int, hi: int| no_child_between(e0, p, lo, hi) implies no_child_between(
        e2,
        p,
        lo,
        hi,
    ) by {
        assert forall|g: int| lo < g < hi && 0 <= g < e2.len() implies #[trigger] e2[g].parent != p by {
            assert(e0[g].parent != p);
        }
    }
    // what comes after `el` has a parent at or after it
    assert forall|g: int| el < g < n implies #[trigger] e0[g].parent != NO_NODE && el <= e0[g].parent by {
        assert(st0[d - 1] < g);
    }
    assert forall|e: int| 0 <= e < n implies #[trigger] link_facts(e2, st1, e) by {
        assert(link_facts(e0, st0, e));
        let x = e0[e];
        if e == el {
            if d < prev0.len() && prev0[d] is Some {
                assert(prev_ok(e0, st0, prev0, d));
                let l = prev0[d]->0;
                assert(parent_at(st0, d) == el);
                assert(e0[l as int].parent == el);
                assert(link_facts(e0, st0, l as int));
                assert(!is_open(st1, l as int));
            } else {
                assert(prev_ok(e0, st0, prev0, d));
                if x.last_child != NO_NODE {
                    assert(e0[x.last_child as int].parent == el);
                }
            }
        } else if e == par {
            assert(!is_open(st1, el));
            assert forall|g: int| el < g < n && #[trigger] e2[g].parent == e implies is_open(st1, g) by {
                assert(e0[g].parent == e);
            }
        } else {
            if x.last_child == NO_NODE {
                assert forall|g: int| 0 <= g < n && #[trigger] e2[g].parent == e implies is_open(st1, g) by {
                    assert(e0[g].parent == e);
                    assert(is_open(st0, g));
                    if g == el {
                        assert(e0[el].parent == par);
                    }
                }
            } else {
                assert forall|g: int|
                    x.last_child < g < n && #[trigger] e2[g].parent == e implies is_open(st1, g) by {
                    assert(e0[g].parent == e);
                    assert(is_open(st0, g));
                }
            }
        }
    }
    assert forall|dd: int| 0 <= dd <= st1.len() implies #[trigger] prev_ok(e2, st1, prev0, dd) by {
        assert(prev_ok(e0, st0, prev0, dd));
        assert(parent_at(st1, dd) == parent_at(st0, dd));
    }
    assert forall|i: int| 0 <= i < st1.len() implies #[trigger] st1[i] < n && e2[st1[i] as int].depth == i by {
        assert(st0[i] == st1[i]);
    }
    assert forall|i: int, j: int| 0 <= i < j < st1.len() implies #[trigger] st1[i] < #[trigger] st1[j] by {
        assert(st0[i] == st1[i] && st0[j] == st1[j]);
    }
    assert forall|i: int, g: int|
        #![trigger st1[i], e2[g]]
        0 <= i < st1.len() && st1[i] < g < n implies e2[g].parent != NO_NODE && st1[i] <= e2[g].parent by {
        assert(st0[i] == st1[i]);
    }
}

/// Starting element `n` at depth `d` under the innermost open element links it after
/// the last element remembered at that depth, as the parent's first child where it has
/// none, and as the parent's last child where it is empty; it is remembered at its depth
/// and the depths below it are forgotten.
proof fn lemma_start_links(
    e0: Seq<IndexElement>,
    st0: Seq<u32>,
    prev0: Seq<Option<u32>>,
    e3: Seq<IndexElement>,
    st3: Seq<u32>,
    prev3: Seq<Option<u32>>,
    is_empty: bool,
)
    requires
        link_state(e0, st0, prev0),
        st0.len() < 0xFFFF,
        e0.len() + 2 < u32::MAX,
        e3.len() == e0.len() + 1,
        ({
            let n = e0.len() as int;
            let d = st0.len() as int;
            let par = parent_at(st0, d);
            let x: Option<u32> = if d < prev0.len() {
                prev0[d]
            } else {
                None
            };
            &&& e3[n].parent == par
            &&& e3[n].depth == d
            &&& e3[n].first_child == NO_NODE
            &&& e3[n].next_sibling == NO_NODE
            &&& e3[n].last_child == NO_NODE
            &&& forall|k: int|
                0 <= k < n ==> {
                    &&& (#[trigger] e3[k]).parent == e0[k].parent
                    &&& e3[k].depth == e0[k].depth
                    &&& e3[k].next_sibling == if x == Some(k as u32) {
                        n as u32
                    } else {
                        e0[k].next_sibling
                    }
                    &&& e3[k].first_child == if k == par && e0[k].first_child == NO_NODE {
                        n as u32
                    } else {
                        e0[k].first_child
                    }
                    &&& e3[k].last_child == if k == par && is_empty {
                        n as u32
                    } else {
                        e0[k].last_child
                    }
                }
            &&& st3 == if is_empty {
                st0
            } else {
                st0.push(n as u32)
            }
            &&& prev3.len() > d
            &&& prev3[d] == Some(n as u32)
            &&& forall|j: int|
                0 <= j < d ==> #[trigger] prev3[j] == if j < prev0.len() {
                    prev0[j]
                } else {
                    None
                }
            &&& forall|j: int| d < j < prev3.len() ==> #[trigger] prev3[j] is None
        }),
    ensures
        link_state(e3, st3, prev3),
{
    let n = e0.len() as int;
    let d = st0.len() as int;
    let par = parent_at(st0, d);
    let x: Option<u32> = if d < prev0.len() {
        prev0[d]
    } else {
        None
    };
    if d > 0 {
        assert(st0[d - 1] < n);
    }
    assert(par == NO_NODE || par < n);
    assert(prev_ok(e0, st0, prev0, d));
    assert forall|g: int| is_open(st3, g) <==> (is_open(st0, g) || (!is_empty && g == n)) by {
        if is_open(st3, g) {
            let i = choose|i: int| 0 <= i < st3.len() && st3[i] == g;
            if i < d {
                assert(st0[i] == g);
            }
        }
        if is_open(st0, g) {
            let i = choose|i: int| 0 <= i < st0.len() && st0[i] == g;
            assert(st3[i] == g);
        }
        if !is_empty && g == n {
            assert(st3[d] == g);
        }
    }
    assert forall|g: int| is_open(st0, g) implies g < n by {
        let i = choose|i: int| 0 <= i < st0.len() && st0[i] == g;
    }
    assert forall|p: u32, lo: int, hi: int| hi <= n && no_child_between(e0, p, lo, hi) implies no_child_between(
        e3,
        p,
        lo,
        hi,
    ) by {
        assert forall|g: int| lo < g < hi && 0 <= g < e3.len() implies #[trigger] e3[g].parent != p by {
            assert(e0[g].parent != p);
        }
    }
    assert forall|p: u32, lo: int| no_child_between(e0, p, lo, n) && p != par implies no_child_between(
        e3,
        p,
        lo,
        n + 1,
    ) by {
        assert forall|g: int| lo < g < n + 1 && 0 <= g < e3.len() implies #[trigger] e3[g].parent != p by {
            if g < n {
                assert(e0[g].parent != p);
            }
        }
    }
    // nothing has the new element as its parent
    assert(no_child_between(e3, n as u32, -1, n + 1)) by {
        assert forall|g: int| -1 < g < n + 1 && 0 <= g < e3.len() implies #[trigger] e3[g].parent != n as u32 by {
            if g < n {
                assert(link_facts(e0, st0, g));
            }
        }
    }
    assert forall|e: int| 0 <= e < n + 1 implies #[trigger] link_facts(e3, st3, e) by {
        if e == n {
            if par != NO_NODE {
                assert(st0[d - 1] < n && e0[st0[d - 1] as int].depth == d - 1);
            }
        } else {
            assert(link_facts(e0, st0, e));
            let y = e0[e];
            // the next sibling
            if x == Some(e as u32) {
                assert(e0[e].parent == par);
            } else if y.next_sibling == NO_NODE {
                if y.parent == par {
                    if x is Some {
                        let x0 = x->0;
                        assert(e0[x0 as int].parent == par);
                        if e < x0 {
                            assert(e0[x0 as int].parent != par);
                        }
                        if x0 < e {
                            assert(e0[e].parent != par);
                        }
                    } else {
                        assert(e0[e].parent != par);
                    }
                }
            }
            // the first child
            if e == par && y.first_child == NO_NODE {
            } else if y.first_child == NO_NODE {
                assert(e as u32 != par);
            }
            // the last child
            if y.last_child == NO_NODE && !(e == par && is_empty) {
                assert forall|g: int| 0 <= g < n + 1 && #[trigger] e3[g].parent == e implies is_open(
                    st3,
                    g,
                ) by {
                    if g < n {
                        assert(e0[g].parent == e);
                    }
                }
            } else if y.last_child != NO_NODE && !(e == par && is_empty) {
                assert forall|g: int|
                    y.last_child < g < n + 1 && #[trigger] e3[g].parent == e implies is_open(st3, g) by {
                    if g < n {
                        assert(e0[g].parent == e);
                    }
                }
            }
        }
    }
    assert forall|i: int| 0 <= i < st3.len() implies #[trigger] st3[i] < n + 1 && e3[st3[i] as int].depth == i by {
        if i < d {
            assert(st0[i] == st3[i]);
        }
    }
    assert forall|i: int, j: int| 0 <= i < j < st3.len() implies #[trigger] st3[i] < #[trigger] st3[j] by {
        assert(st0[i] == st3[i]);
        if j < d {
            assert(st0[j] == st3[j]);
        }
    }
    assert forall|i: int, g: int|
        #![trigger st3[i], e3[g]]
        0 <= i < st3.len() && st3[i] < g < n + 1 implies e3[g].parent != NO_NODE && st3[i] <= e3[g].parent by {
        if i < d {
            assert(st0[i] == st3[i]);
            if g < n {
                assert(e0[g].parent != NO_NODE && st0[i] <= e0[g].parent);
            } else {
                assert(st0[i] <= st0[d - 1]);
            }
        }
    }
    assert forall|dd: int| 0 <= dd <= st3.len() implies #[trigger] prev_ok(e3, st3, prev3, dd) by {
        if dd < d {
            assert(prev_ok(e0, st0, prev0, dd));
            assert(parent_at(st3, dd) == parent_at(st0, dd));
            if dd > 0 {
                assert(st0[dd - 1] < st0[d - 1]);
            }
            assert(parent_at(st0, dd) != par);
        } else if dd == d {
            assert(parent_at(st3, dd) == par);
        } else {
            assert(parent_at(st3, dd) == n as u32);
        }
    }
}

/// Builder state for constructing a StructuralIndex
///
/// Uses a memory-efficient design:
/// - Stack stores only element indices during scan
/// - Children are built from parent links in finish()
pub struct IndexBuilder<'a> {
    /// The index being built
    index: StructuralIndex,
    /// Original input bytes
    input: &'a [u8],
    /// Stack of open element indices
    stack: Vec<u32>,
    /// Previous sibling element at each depth (for linking siblings)
    prev_sibling_at_depth: Vec<Option<u32>>,
    /// The scan events received so far
    log: Ghost<Seq<ScanEvent>>,
}

impl<'a> IndexBuilder<'a> {
    /// The index built so far.
    pub closed spec fn spec_index(&self) -> &StructuralIndex {
        &self.index
    }

    /// The builder's index holds what its events determine.
    pub closed spec fn wf(&self) -> bool {
        let m = model_of(self.log@);
        &&& index_matches(&self.index, m)
        &&& self.stack@ == m.stack
        &&& within_limits(self.log@) ==> link_state(
            self.index.elements@,
            self.stack@,
            self.prev_sibling_at_depth@,
        )
    }

    /// Create a new builder for the given input
    pub fn new(input: &'a [u8]) -> (r: Self)
        ensures
            r.wf(),
            r.scan_events() == Seq::<ScanEvent>::empty(),
    {
        // Estimate capacity based on input size: about one element per 35 bytes,
        // two text nodes per element and 0.4 attributes per element
        let q = input.len() / 35;
        let estimated_elements = if q > 16 {
            q
        } else {
            16
        };
        let estimated_texts = estimated_elements * 2;
        let estimated_attrs = estimated_texts / 5;
        let r = Self {
            index: StructuralIndex::with_capacity(
                estimated_elements,
                estimated_texts,
                estimated_attrs,
            ),
            input,
            stack: Vec::with_capacity(32),
            prev_sibling_at_depth: Vec::with_capacity(32),
            log: Ghost(Seq::empty()),
        };
        assert(r.index.texts@ =~= model_of(r.log@).texts);
        assert(r.index.attributes@ =~= model_of(r.log@).attrs);
        assert(r.stack@ =~= model_of(r.log@).stack);
        r
    }

    /// Finish building and return the index: what the events determine, with the
    /// children lists built from the parent links.
    pub fn finish(self) -> (r: StructuralIndex)
        requires
            self.wf(),
        ensures
            index_matches(&r, model_of(self.scan_events())),
            r.elements@.len() < TEXT_BIT && r.texts@.len() < TEXT_BIT ==> forall|p: int|
                0 <= p < r.elements@.len() ==> #[trigger] children_in_order(&r, p),
            within_limits(self.scan_events()) ==> links_hold(
                r.elements@,
                model_of(self.scan_events()).stack,
            ),
    {
        let mut index = self.index;
        if index.elements.len() < 0x8000_0000 && index.texts.len() < 0x8000_0000 {
            index.build_children_from_parents();
        }
        let ghost built = index;
        index.shrink_to_fit();
        assert forall|p: int|
            0 <= p < index.elements@.len() && built.elements@.len() < TEXT_BIT && built.texts@.len()
                < TEXT_BIT implies #[trigger] children_in_order(&index, p) by {
            assert(children_in_order(&built, p));
            assert(index.spec_children(p) == built.spec_children(p));
        }
        index
    }

    /// The current depth (number of open elements)
    fn current_depth(&self) -> (r: u16)
        ensures
            r == self.stack@.len() as u16,
    {
        #[verifier::truncate]
        (self.stack.len() as u16)
    }

    /// The current parent element index
    fn current_parent(&self) -> (r: u32)
        ensures
            r == top(self.stack@),
    {
        if self.stack.len() > 0 {
            self.stack[self.stack.len() - 1]
        } else {
            NO_NODE
        }
    }

    /// Ensure prev_sibling_at_depth has an entry for the given depth
    fn ensure_depth(&mut self, depth: usize)
        ensures
            final(self).prev_sibling_at_depth@.len() > depth,
            final(self).prev_sibling_at_depth@.len() >= old(self).prev_sibling_at_depth@.len(),
            forall|j: int|
                0 <= j < final(self).prev_sibling_at_depth@.len() ==> #[trigger] final(self).prev_sibling_at_depth@[j] == if j < old(self).prev_sibling_at_depth@.len() {
                    old(self).prev_sibling_at_depth@[j]
                } else {
                    None
                },
            final(self).index == old(self).index,
            final(self).stack == old(self).stack,
            final(self).log == old(self).log,
    {
        while self.prev_sibling_at_depth.len() <= depth
            invariant
                self.prev_sibling_at_depth@.len() >= old(self).prev_sibling_at_depth@.len(),
                forall|j: int|
                    0 <= j < self.prev_sibling_at_depth@.len() ==> #[trigger] self.prev_sibling_at_depth@[j]
                        == if j < old(self).prev_sibling_at_depth@.len() {
                        old(self).prev_sibling_at_depth@[j]
                    } else {
                        None
                    },
                self.index == old(self).index,
                self.stack == old(self).stack,
                self.log == old(self).log,
            decreases depth + 1 - self.prev_sibling_at_depth@.len(),
        {
            self.prev_sibling_at_depth.push(None);
        }
    }
}

impl<'a> ScanHandler for IndexBuilder<'a> {
    closed spec fn scan_events(&self) -> Seq<ScanEvent> {
        self.log@
    }

    closed spec fn inv(&self) -> bool {
        self.wf()
    }

    /// Handle start of an element
    #[verifier::rlimit(100)]
    #[verifier::spinoff_prover]
    fn start_element(&mut self, name: Span, attrs: &[(Span, Span)], is_empty: bool) {
        let ghost log0 = self.log@;
        let ghost m0 = model_of(self.log@);
        let ghost e0 = self.index.elements@;
        let ghost st0 = self.stack@;
        let ghost prev0 = self.prev_sibling_at_depth@;
        let ghost lim = within_limits(log0) && link_state(e0, st0, prev0) && st0.len() < 0xFFFF
            && e0.len() + 2 < u32::MAX;
        let depth = self.current_depth();
        let parent = self.current_parent();
        let mut elem = IndexElement::new(name, parent, depth);
        let ghost a0 = self.index.attributes@;
        if attrs.len() > 0 {
            elem.attr_start = #[verifier::truncate] (self.index.attributes.len() as u32);
            elem.attr_count = if attrs.len() <= 0xFFFF {
                attrs.len() as u16
            } else {
                0xFFFF
            };
            let mut i: usize = 0;
            while i < attrs.len()
                invariant
                    i <= attrs@.len(),
                    self.index.attributes@ == a0 + attr_entries(attrs@.subrange(0, i as int)),
                    self.index.elements@ == old(self).index.elements@,
                    self.index.texts@ == old(self).index.texts@,
                    self.index.root == old(self).index.root,
                    self.stack == old(self).stack,
                    self.log == old(self).log,
                    self.prev_sibling_at_depth == old(self).prev_sibling_at_depth,
                decreases attrs.len() - i,
            {
                let (attr_name, attr_value) = attrs[i];
                self.index.add_attribute(IndexAttribute::new(attr_name, attr_value));
                assert(attr_entries(attrs@.subrange(0, i + 1)) =~= attr_entries(
                    attrs@.subrange(0, i as int),
                ).push(IndexAttribute { name: attr_name, value: attr_value }));
                i += 1;
            }
            assert(attrs@.subrange(0, attrs@.len() as int) =~= attrs@);
        }
        if is_empty {
            assert(0u16 | 4u16 == 4u16) by (bit_vector);
            elem.flags = elem.flags | element_flags::IS_EMPTY;
        }
        let elem_idx = self.index.add_element(elem);
        let ghost e1 = self.index.elements@;
        if self.index.root.is_none() {
            self.index.root = Some(elem_idx);
        }
        self.ensure_depth(depth as usize);
        let ghost prev1 = self.prev_sibling_at_depth@;
        if let Some(prev_idx) = self.prev_sibling_at_depth[depth as usize] {
            self.index.link_sibling(prev_idx, elem_idx);
        }
        let ghost e2 = self.index.elements@;
        if parent != NO_NODE {
            let first = match self.index.get_element(parent) {
                Some(parent_elem) => Some(parent_elem.first_child),
                None => None,
            };
            if first == Some(NO_NODE) {
                self.index.set_first_child(parent, elem_idx);
            }
        }
        let ghost e2b = self.index.elements@;
        self.prev_sibling_at_depth.set(depth as usize, Some(elem_idx));
        let ghost index_now = self.index;
        let ghost stack_now = self.stack;
        let ghost prev_now = self.prev_sibling_at_depth@;
        let mut d = depth as usize + 1;
        while d < self.prev_sibling_at_depth.len()
            invariant
                self.index == index_now,
                self.stack == stack_now,
                self.log == old(self).log,
                depth < d,
                self.prev_sibling_at_depth@.len() == prev_now.len(),
                forall|j: int|
                    0 <= j < prev_now.len() ==> #[trigger] self.prev_sibling_at_depth@[j] == if depth
                        < j < d {
                        None
                    } else {
                        prev_now[j]
                    },
            decreases self.prev_sibling_at_depth@.len() - d,
        {
            self.prev_sibling_at_depth.set(d, None);
            d += 1;
        }
        if !is_empty {
            self.stack.push(elem_idx);
        } else if parent != NO_NODE {
            self.index.set_last_child(parent, elem_idx);
        }
        self.log = Ghost(self.log@.push(
                ScanEvent::StartElement { name, attrs: attrs@, is_empty },
            ));
        assert(self.log@.drop_last() =~= log0);
        proof {
            if lim {
                let n = e0.len() as int;
                let e3 = self.index.elements@;
                assert(depth == st0.len());
                assert(parent == parent_at(st0, st0.len() as int));
                assert(prev_ok(e0, st0, prev0, st0.len() as int));
                if st0.len() > 0 {
                    assert(st0[st0.len() - 1] < n);
                }
                assert(e3[n].parent == parent && e3[n].depth == depth);
                assert forall|j: int| 0 <= j < depth implies #[trigger] self.prev_sibling_at_depth@[j]
                    == if j < prev0.len() {
                    prev0[j]
                } else {
                    None
                } by {
                    assert(self.prev_sibling_at_depth@[j] == prev_now[j]);
                    assert(prev_now[j] == prev1[j]);
                    assert(prev1[j] == if j < prev0.len() {
                        prev0[j]
                    } else {
                        None
                    });
                }
                assert forall|j: int| depth < j < self.prev_sibling_at_depth@.len() implies #[trigger] self.prev_sibling_at_depth@[j] is None by {}
                assert(self.prev_sibling_at_depth@[depth as int] == prev_now[depth as int]);
                let x: Option<u32> = if depth < prev0.len() {
                    prev0[depth as int]
                } else {
                    None
                };
                assert(prev1[depth as int] == x);
                assert forall|k: int| 0 <= k < n implies {
                    &&& (#[trigger] e3[k]).parent == e0[k].parent
                    &&& e3[k].depth == e0[k].depth
                    &&& e3[k].next_sibling == if x == Some(k as u32) {
                        n as u32
                    } else {
                        e0[k].next_sibling
                    }
                    &&& e3[k].first_child == if k == parent && e0[k].first_child == NO_NODE {
                        n as u32
                    } else {
                        e0[k].first_child
                    }
                    &&& e3[k].last_child == if k == parent && is_empty {
                        n as u32
                    } else {
                        e0[k].last_child
                    }
                } by {
                    assert(e1[k] == e0[k]);
                    assert(e2[k].first_child == e1[k].first_child);
                    assert(e2b[k].next_sibling == e2[k].next_sibling);
                    assert(e3[k].next_sibling == e2b[k].next_sibling);
                    assert(e3[k].first_child == e2b[k].first_child);
                    if parent != NO_NODE {
                        assert(e2[parent as int].first_child == e0[parent as int].first_child);
                    }
                }
                assert(e3[n] == e2b[n] && e2b[n] == e2[n] && e2[n] == e1[n]);
                if is_empty {
                    assert(self.stack@ =~= st0);
                }
                lemma_start_links(
                    e0,
                    st0,
                    prev0,
                    e3,
                    self.stack@,
                    self.prev_sibling_at_depth@,
                    is_empty,
                );
            }
        }
    }

    /// Handle end of an element
    fn end_element(&mut self, name: Span) {
        let ghost log0 = self.log@;
        let ghost e0 = self.index.elements@;
        let ghost st0 = self.stack@;
        let ghost prev0 = self.prev_sibling_at_depth@;
        let ghost lim = within_limits(log0) && link_state(e0, st0, prev0);
        if let Some(elem_idx) = self.stack.pop() {
            let parent = match self.index.get_element(elem_idx) {
                Some(e) => e.parent,
                None => NO_NODE,
            };
            if parent != NO_NODE {
                self.index.set_last_child(parent, elem_idx);
            }
            if let Some(elem) = self.index.get_element(elem_idx) {
                let below = elem.depth as usize + 1;
                if below < self.prev_sibling_at_depth.len() {
                    if let Some(last_elem) = self.prev_sibling_at_depth[below] {
                        self.index.set_last_child(elem_idx, last_elem);
                    }
                }
            }
        }
        self.log = Ghost(self.log@.push(ScanEvent::EndElement { name }));
        assert(self.log@.drop_last() =~= log0);
        proof {
            if lim && st0.len() > 0 {
                let el = st0.last() as int;
                assert(st0[st0.len() - 1] < e0.len());
                assert(link_facts(e0, st0, el));
                lemma_end_links(e0, st0, prev0, self.index.elements@);
            }
        }
    }

    /// Handle text content
    fn text(&mut self, span: Span, needs_entity_decode: bool) {
        let ghost log0 = self.log@;
        let parent = self.current_parent();
        let text = if needs_entity_decode {
            IndexText::new_with_entities(span.offset, span.len as usize, parent)
        } else {
            IndexText::new(span.offset, span.len as usize, parent)
        };
        self.index.add_text(text);
        self.log = Ghost(self.log@.push(ScanEvent::Text { span, needs_decode: needs_entity_decode }));
        assert(self.log@.drop_last() =~= log0);
    }

    /// Handle CDATA section
    fn cdata(&mut self, span: Span) {
        let ghost log0 = self.log@;
        let parent = self.current_parent();
        let text = IndexText::cdata(span.offset, span.len as usize, parent);
        self.index.add_text(text);
        self.log = Ghost(self.log@.push(ScanEvent::CData { span }));
        assert(self.log@.drop_last() =~= log0);
    }

    /// Handle comment
    fn comment(&mut self, span: Span) {
        let ghost log0 = self.log@;
        let parent = self.current_parent();
        let text = IndexText::comment(span.offset, span.len as usize, parent);
        self.index.add_text(text);
        self.log = Ghost(self.log@.push(ScanEvent::Comment { span }));
        assert(self.log@.drop_last() =~= log0);
    }

    /// Handle processing instruction (recorded by its target)
    fn processing_instruction(&mut self, target: Span, data: Option<Span>) {
        let ghost log0 = self.log@;
        let parent = self.current_parent();
        let text = IndexText::pi(target.offset, target.len as usize, parent);
        self.index.add_text(text);
        self.log = Ghost(self.log@.push(ScanEvent::ProcessingInstruction { target, data }));
        assert(self.log@.drop_last() =~= log0);
    }

    fn xml_declaration(
        &mut self,
        version: Option<Span>,
        encoding: Option<Span>,
        standalone: Option<Span>,
    ) {
    }

    fn doctype(&mut self, content: Span) {
        let ghost log0 = self.log@;
        self.log = Ghost(self.log@.push(ScanEvent::Doctype { content }));
        assert(self.log@.drop_last() =~= log0);
    }
}

/// A scan emits at most one event per byte.
pub proof fn lemma_scan_from_len(s: Seq<u8>, p: int)
    requires
        0 <= p,
    ensures
        scan_from(s, p).len() <= if p < s.len() {
            s.len() - p
        } else {
            0
        },
    decreases s.len() - p,
{
    if p < s.len() {
        lemma_scan_step_progress(s, p);
        lemma_scan_from_len(s, scan_step(s, p).1);
        assert(scan_step(s, p).0.len() <= 1);
    }
}

/// Each event adds at most one element and one text node.
pub proof fn lemma_model_len(events: Seq<ScanEvent>)
    ensures
        model_of(events).elems.len() <= events.len(),
        model_of(events).texts.len() <= events.len(),
    decreases events.len(),
{
    if events.len() > 0 {
        lemma_model_len(events.drop_last());
    }
}

/// Build a StructuralIndex using UnifiedScanner (zero-copy)
///
/// The index holds what the scan of the whole input determines (`model_of`); for an
/// input under 2 GiB, each element's children list holds exactly the nodes whose
/// parent it is, in document order; and while no element starts deeper than
/// `u16::MAX - 1` levels, each element's first child, next sibling and last closed
/// child are linked as `links_hold` states (an element left open at the end is not
/// anyone's last child).
pub fn build_index(input: &[u8]) -> (r: StructuralIndex)
    ensures
        index_matches(&r, model_of(scan_from(input@, 0))),
        input@.len() < TEXT_BIT ==> forall|p: int|
            0 <= p < r.elements@.len() ==> #[trigger] children_in_order(&r, p),
        within_limits(scan_from(input@, 0)) ==> links_hold(
            r.elements@,
            model_of(scan_from(input@, 0)).stack,
        ),
{
    let mut builder = IndexBuilder::new(input);
    let mut scanner = UnifiedScanner::new(input);
    scanner.scan(&mut builder);
    proof {
        lemma_scan_from_len(input@, 0);
        lemma_model_len(scan_from(input@, 0));
        assert(builder.scan_events() =~= scan_from(input@, 0));
    }
    builder.finish()
}

} // verus!
