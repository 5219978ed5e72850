//! Structural Index - Main index structure
//!
//! Stores the entire XML document structure as offsets into the original input.
//! Memory efficient: approximately 32 bytes per element + 16 bytes per text node.

use vstd::prelude::*;
use vstd::string::StringSliceAdditionalSpecFns;
use vstd::utf8::*;

use super::element::{
    lemma_child_ref_eq, lemma_child_ref_roundtrip, ChildRef, IndexAttribute, IndexElement,
    IndexText, NO_NODE, TEXT_BIT,
};
use super::sort_keys::{all_distinct, sort_keys, strictly_sorted};
use super::span::Span;
use crate::xml_core::primitives::bytes_eq;

verus! {

/// The structural index of an XML document
///
/// Memory layout optimized for cache efficiency:
/// - Elements stored contiguously for fast traversal
/// - Attributes stored contiguously, referenced by (start, count)
/// - Text nodes stored separately, linked via ChildRef
/// - Children stored as a flat list for each element
#[derive(Debug)]
pub struct StructuralIndex {
    /// Element nodes (index 0 is always the root element)
    pub elements: Vec<IndexElement>,
    /// Text nodes (includes text, CDATA, comments, PIs)
    pub texts: Vec<IndexText>,
    /// Attributes (referenced by elements via attr_start/attr_count)
    pub attributes: Vec<IndexAttribute>,
    /// Children for each element: (start, count) into children_data
    pub children_ranges: Vec<(u32, u32)>,
    /// Flat storage of all children references
    pub children_data: Vec<ChildRef>,
    /// Root element index (None if document is empty)
    pub root: Option<u32>,
}

/// The element at `idx` of `elems`, when there is one.
pub open spec fn elem_at(elems: Seq<IndexElement>, idx: int) -> Option<IndexElement> {
    if 0 <= idx < elems.len() {
        Some(elems[idx])
    } else {
        None
    }
}

/// The position of the first attribute in `attrs` whose name spans the bytes `name`, or -1.
pub open spec fn first_attr_named(
    attrs: Seq<IndexAttribute>,
    input: Seq<u8>,
    name: Seq<u8>,
    from: int,
) -> int
    decreases attrs.len() - from,
{
    if from < 0 || from >= attrs.len() {
        -1
    } else if attrs[from].name.spec_slice(input) == name {
        from
    } else {
        first_attr_named(attrs, input, name, from + 1)
    }
}

/// The attribute pairs whose name and value are both valid UTF-8, decoded.
pub open spec fn utf8_pairs(attrs: Seq<IndexAttribute>, input: Seq<u8>) -> Seq<(Seq<char>, Seq<char>)>
    decreases attrs.len(),
{
    if attrs.len() == 0 {
        seq![]
    } else {
        let rest = utf8_pairs(attrs.drop_last(), input);
        let a = attrs.last();
        if valid_utf8(a.name.spec_slice(input)) && valid_utf8(a.value.spec_slice(input)) {
            rest.push((decode_utf8(a.name.spec_slice(input)), decode_utf8(a.value.spec_slice(input))))
        } else {
            rest
        }
    }
}

/// The indices of the element references among `refs`.
pub open spec fn element_indices(refs: Seq<ChildRef>) -> Seq<u32>
    decreases refs.len(),
{
    if refs.len() == 0 {
        seq![]
    } else if refs.last().spec_is_text() {
        element_indices(refs.drop_last())
    } else {
        element_indices(refs.drop_last()).push(refs.last().spec_index())
    }
}

/// The indices of the text references among `refs`.
pub open spec fn text_indices(refs: Seq<ChildRef>) -> Seq<u32>
    decreases refs.len(),
{
    if refs.len() == 0 {
        seq![]
    } else if refs.last().spec_is_text() {
        text_indices(refs.drop_last()).push(refs.last().spec_index())
    } else {
        text_indices(refs.drop_last())
    }
}

/// The local part of an element name: what follows its first `:`, or all of it.
pub open spec fn local_part(name: Seq<u8>) -> Seq<u8> {
    let k = crate::xml_core::primitives::index_of(name, 0x3A);
    if k >= 0 {
        name.subrange(k + 1, name.len() as int)
    } else {
        name
    }
}

/// The indices `k < n` of `elems` (in order) whose name satisfies `pred`.
pub open spec fn matching_elements(
    elems: Seq<IndexElement>,
    input: Seq<u8>,
    name: Seq<u8>,
    local: bool,
    n: int,
) -> Seq<u32>
    decreases n,
{
    if n <= 0 {
        seq![]
    } else {
        let rest = matching_elements(elems, input, name, local, n - 1);
        let nm = elems[n - 1].name.spec_slice(input);
        if (if local {
            local_part(nm)
        } else {
            nm
        }) == name {
            rest.push((n - 1) as u32)
        } else {
            rest
        }
    }
}


/// Whether `c` refers to a node of `ix` whose parent is element `p`.
pub open spec fn is_child_of(ix: &StructuralIndex, c: ChildRef, p: int) -> bool {
    if c.spec_is_text() {
        c.spec_index() < ix.texts@.len() && ix.texts@[c.spec_index() as int].parent == p
    } else {
        c.spec_index() < ix.elements@.len() && ix.elements@[c.spec_index() as int].parent == p
    }
}

/// The offset in the input where the node that `c` refers to starts.
pub open spec fn ref_offset(ix: &StructuralIndex, c: ChildRef) -> u32 {
    if c.spec_is_text() {
        ix.texts@[c.spec_index() as int].span.span.offset
    } else {
        ix.elements@[c.spec_index() as int].name.offset
    }
}

/// The parent recorded for the node that `c` refers to.
pub open spec fn ref_parent(ix: &StructuralIndex, c: ChildRef) -> u32 {
    if c.spec_is_text() {
        ix.texts@[c.spec_index() as int].parent
    } else {
        ix.elements@[c.spec_index() as int].parent
    }
}

/// Document order of children: by offset, then elements before text nodes, then by
/// index.
pub open spec fn doc_key(ix: &StructuralIndex, c: ChildRef) -> int {
    ref_offset(ix, c) * 0x1_0000_0000 + c.spec_raw()
}

/// The children list of element `p` holds exactly the nodes whose parent is `p`,
/// in document order.
pub open spec fn children_in_order(ix: &StructuralIndex, p: int) -> bool {
    let kids = ix.spec_children(p);
    &&& forall|c: ChildRef| kids.contains(c) <==> is_child_of(ix, c, p)
    &&& forall|a: int, b: int|
        0 <= a < b < kids.len() ==> doc_key(ix, kids[a]) < doc_key(ix, kids[b])
}

/// The sort key of a child: its parent, then its document order.
pub open spec fn key_of(p: int, off: int, raw: int) -> int {
    p * 0x1_0000_0000_0000_0000 + off * 0x1_0000_0000 + raw
}

pub proof fn lemma_key_parts(p: int, off: int, raw: int)
    requires
        0 <= p < 0x1_0000_0000,
        0 <= off < 0x1_0000_0000,
        0 <= raw < 0x1_0000_0000,
    ensures
        key_of(p, off, raw) % 0x1_0000_0000 == raw,
        key_of(p, off, raw) / 0x1_0000_0000_0000_0000 == p,
        0 <= key_of(p, off, raw) < 0x1_0000_0000_0000_0000_0000_0000,
{
    assert(key_of(p, off, raw) == (p * 0x1_0000_0000 + off) * 0x1_0000_0000 + raw);
    assert(0 <= off * 0x1_0000_0000 + raw < 0x1_0000_0000_0000_0000);
    assert(key_of(p, off, raw) == p * 0x1_0000_0000_0000_0000 + (off * 0x1_0000_0000 + raw));
    vstd::arithmetic::div_mod::lemma_fundamental_div_mod_converse(
        key_of(p, off, raw),
        0x1_0000_0000,
        p * 0x1_0000_0000 + off,
        raw,
    );
    vstd::arithmetic::div_mod::lemma_fundamental_div_mod_converse(
        key_of(p, off, raw),
        0x1_0000_0000_0000_0000,
        p,
        off * 0x1_0000_0000 + raw,
    );
}

/// The key of the child `c` of `ix`.
pub open spec fn child_key(ix: &StructuralIndex, c: ChildRef) -> int {
    key_of(ref_parent(ix, c) as int, ref_offset(ix, c) as int, c.spec_raw() as int)
}


/// The descendants, in document order, that the children `kids` of element `e`
/// lead to: each child followed by its own descendants. Only an element child with
/// a greater index than its parent is descended into, which the indexes that the
/// builder makes always satisfy.
pub open spec fn desc_list(ix: &StructuralIndex, kids: Seq<ChildRef>, e: int) -> Seq<ChildRef>
    decreases ix.elements@.len() - e, kids.len(),
{
    if kids.len() == 0 {
        seq![]
    } else {
        let c = kids[0];
        seq![c] + desc_sub(ix, c, e) + desc_list(ix, kids.drop_first(), e)
    }
}

/// The descendants of child `c` of element `e`.
pub open spec fn desc_sub(ix: &StructuralIndex, c: ChildRef, e: int) -> Seq<ChildRef>
    decreases ix.elements@.len() - e, 0int,
{
    if !c.spec_is_text() && e < c.spec_index() < ix.elements@.len() {
        desc_below(ix, c.spec_index() as int)
    } else {
        seq![]
    }
}

/// All descendants of element `e`, depth-first in document order.
pub open spec fn desc_below(ix: &StructuralIndex, e: int) -> Seq<ChildRef>
    decreases ix.elements@.len() - e, ix.children_data@.len() + 1,
{
    if 0 <= e < ix.elements@.len() {
        desc_list(ix, ix.spec_children(e), e)
    } else {
        seq![]
    }
}

/// What a traversal stack still yields: from its top down, each child followed by
/// its descendants.
pub open spec fn expand_stack(ix: &StructuralIndex, stack: Seq<(ChildRef, u32)>) -> Seq<ChildRef>
    decreases stack.len(),
{
    if stack.len() == 0 {
        seq![]
    } else {
        let (c, p) = stack.last();
        seq![c] + desc_sub(ix, c, p as int) + expand_stack(ix, stack.drop_last())
    }
}

/// The children `kids` of `p` as stack entries, the first on top.
pub open spec fn rev_pairs(kids: Seq<ChildRef>, p: u32) -> Seq<(ChildRef, u32)>
    decreases kids.len(),
{
    if kids.len() == 0 {
        seq![]
    } else {
        rev_pairs(kids.drop_first(), p).push((kids[0], p))
    }
}

pub proof fn lemma_expand_push_children(
    ix: &StructuralIndex,
    stack: Seq<(ChildRef, u32)>,
    kids: Seq<ChildRef>,
    p: u32,
)
    ensures
        expand_stack(ix, stack + rev_pairs(kids, p)) == desc_list(ix, kids, p as int)
            + expand_stack(ix, stack),
    decreases kids.len(),
{
    if kids.len() == 0 {
        assert(stack + rev_pairs(kids, p) =~= stack);
    } else {
        lemma_expand_push_children(ix, stack, kids.drop_first(), p);
        let rest = stack + rev_pairs(kids.drop_first(), p);
        assert(stack + rev_pairs(kids, p) =~= rest.push((kids[0], p)));
        assert(rest.push((kids[0], p)).drop_last() =~= rest);
        assert(expand_stack(ix, rest.push((kids[0], p))) == seq![kids[0]] + desc_sub(
            ix,
            kids[0],
            p as int,
        ) + expand_stack(ix, rest));
        assert(seq![kids[0]] + desc_sub(ix, kids[0], p as int) + (desc_list(
            ix,
            kids.drop_first(),
            p as int,
        ) + expand_stack(ix, stack)) =~= desc_list(ix, kids, p as int) + expand_stack(ix, stack));
    }
}

impl StructuralIndex {
    /// The children list recorded for element `i`: the stored range, cut at the end
    /// of the stored data.
    pub open spec fn spec_children(&self, i: int) -> Seq<ChildRef> {
        if 0 <= i < self.children_ranges@.len() {
            let (start, count) = self.children_ranges@[i];
            let end = if start + count > u32::MAX {
                u32::MAX as int
            } else {
                start + count
            };
            let stop = if end < self.children_data@.len() {
                end
            } else {
                self.children_data@.len() as int
            };
            if start < stop {
                self.children_data@.subrange(start as int, stop)
            } else {
                seq![]
            }
        } else {
            seq![]
        }
    }

    /// The child count recorded for element `i`.
    pub open spec fn spec_child_count(&self, i: int) -> int {
        if 0 <= i < self.children_ranges@.len() {
            self.children_ranges@[i].1 as int
        } else {
            0
        }
    }

    /// Whether no children lists have been recorded.
    pub open spec fn spec_no_children(&self) -> bool {
        self.children_ranges@.len() == 0 && self.children_data@.len() == 0
    }

    /// Create a new empty structural index
    pub fn new() -> (r: Self)
        ensures
            r.elements@.len() == 0,
            r.texts@.len() == 0,
            r.attributes@.len() == 0,
            r.root is None,
            r.spec_no_children(),
    {
        Self {
            elements: Vec::with_capacity(256),
            texts: Vec::with_capacity(128),
            attributes: Vec::with_capacity(256),
            children_ranges: Vec::with_capacity(256),
            children_data: Vec::with_capacity(512),
            root: None,
        }
    }

    /// Create with estimated capacity
    pub fn with_capacity(elements: usize, texts: usize, attributes: usize) -> (r: Self)
        ensures
            r.elements@.len() == 0,
            r.texts@.len() == 0,
            r.attributes@.len() == 0,
            r.root is None,
            r.spec_no_children(),
    {
        Self {
            elements: Vec::with_capacity(elements),
            texts: Vec::with_capacity(texts),
            attributes: Vec::with_capacity(attributes),
            children_ranges: Vec::new(),
            children_data: Vec::new(),
            root: None,
        }
    }

    /// Get the root element
    pub fn root_element(&self) -> (r: Option<&IndexElement>)
        ensures
            r is Some <==> (self.root matches Some(i) && i < self.elements@.len()),
            r matches Some(e) ==> *e == self.elements@[self.root->0 as int],
    {
        match self.root {
            Some(idx) => self.get_element(idx),
            None => None,
        }
    }

    /// Get an element by index
    pub fn get_element(&self, idx: u32) -> (r: Option<&IndexElement>)
        ensures
            r is Some <==> idx < self.elements@.len(),
            r matches Some(e) ==> *e == self.elements@[idx as int],
    {
        if (idx as usize) < self.elements.len() {
            Some(&self.elements[idx as usize])
        } else {
            None
        }
    }

    /// Get a mutable element by index: a change through it is a change of that element
    /// alone
    pub fn get_element_mut(&mut self, idx: u32) -> (r: Option<&mut IndexElement>)
        ensures
            r is Some <==> idx < old(self).elements@.len(),
            match r {
                Some(e) => *e == old(self).elements@[idx as int] && final(self).elements@
                    == old(self).elements@.update(idx as int, *final(e)),
                None => final(self).elements@ == old(self).elements@,
            },
            final(self).texts == old(self).texts,
            final(self).attributes == old(self).attributes,
            final(self).children_ranges == old(self).children_ranges,
            final(self).children_data == old(self).children_data,
            final(self).root == old(self).root,
    {
        if (idx as usize) < self.elements.len() {
            Some(&mut self.elements[idx as usize])
        } else {
            None
        }
    }

    /// Get a text node by index
    pub fn get_text(&self, idx: u32) -> (r: Option<&IndexText>)
        ensures
            (idx < self.texts@.len()) == r is Some,
            r matches Some(t) ==> *t == self.texts@[idx as int],
    {
        if (idx as usize) < self.texts.len() {
            Some(&self.texts[idx as usize])
        } else {
            None
        }
    }

    /// Get element name from input
    pub fn element_name<'a>(&self, idx: u32, input: &'a [u8]) -> (r: Option<&'a str>)
        ensures
            r is Some <==> (idx < self.elements@.len() && valid_utf8(
                self.elements@[idx as int].name.spec_slice(input@),
            )),
            r matches Some(s) ==> s@ == decode_utf8(self.elements@[idx as int].name.spec_slice(input@)),
    {
        match self.get_element(idx) {
            Some(e) => e.name.as_str(input),
            None => None,
        }
    }

    /// Get element name bytes from input
    pub fn element_name_bytes<'a>(&self, idx: u32, input: &'a [u8]) -> (r: Option<&'a [u8]>)
        ensures
            r is Some <==> idx < self.elements@.len(),
            r matches Some(b) ==> b@ == self.elements@[idx as int].name.spec_slice(input@),
    {
        match self.get_element(idx) {
            Some(e) => Some(e.name.slice(input)),
            None => None,
        }
    }

    /// Get text content from input
    pub fn text_content<'a>(&self, idx: u32, input: &'a [u8]) -> (r: Option<&'a str>)
        ensures
            r is Some <==> (idx < self.texts@.len() && valid_utf8(
                self.texts@[idx as int].span.spec_slice(input@),
            )),
            r matches Some(s) ==> s@ == decode_utf8(self.texts@[idx as int].span.spec_slice(input@)),
    {
        match self.get_text(idx) {
            Some(t) => t.span.as_str(input),
            None => None,
        }
    }

    /// Get text content bytes from input
    pub fn text_content_bytes<'a>(&self, idx: u32, input: &'a [u8]) -> (r: Option<&'a [u8]>)
        ensures
            r is Some <==> idx < self.texts@.len(),
            r matches Some(b) ==> b@ == self.texts@[idx as int].span.spec_slice(input@),
    {
        match self.get_text(idx) {
            Some(t) => Some(t.span.slice(input)),
            None => None,
        }
    }

    /// The attributes that element `idx` refers to, when they lie within the
    /// attribute list.
    pub open spec fn spec_element_attributes(&self, idx: int) -> Seq<IndexAttribute> {
        if 0 <= idx < self.elements@.len() {
            let e = self.elements@[idx];
            let start = e.attr_start as int;
            let end = start + e.attr_count;
            if end <= self.attributes@.len() {
                self.attributes@.subrange(start, end)
            } else {
                seq![]
            }
        } else {
            seq![]
        }
    }

    /// Get attributes for an element
    pub fn element_attributes(&self, idx: u32) -> (r: &[IndexAttribute])
        ensures
            r@ == self.spec_element_attributes(idx as int),
    {
        if let Some(elem) = self.get_element(idx) {
            let start = elem.attr_start as usize;
            let count = elem.attr_count as usize;
            if count <= self.attributes.len() && start <= self.attributes.len() - count {
                return &self.attributes.as_slice()[start..start + count];
            }
        }
        assert(self.attributes@.subrange(0, 0) =~= Seq::<IndexAttribute>::empty());
        &self.attributes.as_slice()[0..0]
    }

    /// Position of the first of `attrs` whose name is `name`, or `attrs.len()`.
    fn find_attr(attrs: &[IndexAttribute], name: &[u8], input: &[u8]) -> (r: usize)
        ensures
            r < attrs@.len() ==> r == first_attr_named(attrs@, input@, name@, 0),
            r >= attrs@.len() ==> first_attr_named(attrs@, input@, name@, 0) == -1 && r
                == attrs@.len(),
    {
        let mut i: usize = 0;
        while i < attrs.len()
            invariant
                i <= attrs@.len(),
                first_attr_named(attrs@, input@, name@, 0) == first_attr_named(
                    attrs@,
                    input@,
                    name@,
                    i as int,
                ),
            decreases attrs.len() - i,
        {
            if bytes_eq(attrs[i].name.slice(input), name) {
                return i;
            }
            i += 1;
        }
        i
    }

    /// Get attribute value by name (`None` also when that value is not UTF-8)
    pub fn get_attribute<'a>(&self, elem_idx: u32, name: &str, input: &'a [u8]) -> (r: Option<
        &'a str,
    >)
        ensures
            ({
                let attrs = self.spec_element_attributes(elem_idx as int);
                let k = first_attr_named(attrs, input@, name.spec_bytes(), 0);
                &&& r is Some <==> (k >= 0 && valid_utf8(attrs[k].value.spec_slice(input@)))
                &&& r matches Some(s) ==> s@ == decode_utf8(attrs[k].value.spec_slice(input@))
            }),
    {
        let attrs = self.element_attributes(elem_idx);
        let k = Self::find_attr(attrs, name.as_bytes(), input);
        if k < attrs.len() {
            attrs[k].value.as_str(input)
        } else {
            None
        }
    }

    /// Get attribute value bytes by name
    pub fn get_attribute_bytes<'a>(&self, elem_idx: u32, name: &str, input: &'a [u8]) -> (r:
        Option<&'a [u8]>)
        ensures
            ({
                let attrs = self.spec_element_attributes(elem_idx as int);
                let k = first_attr_named(attrs, input@, name.spec_bytes(), 0);
                &&& r is Some <==> k >= 0
                &&& r matches Some(b) ==> b@ == attrs[k].value.spec_slice(input@)
            }),
    {
        let attrs = self.element_attributes(elem_idx);
        let k = Self::find_attr(attrs, name.as_bytes(), input);
        if k < attrs.len() {
            Some(attrs[k].value.slice(input))
        } else {
            None
        }
    }

    /// Get all attribute name-value pairs for an element (those whose name and value
    /// are both UTF-8)
    pub fn get_attribute_pairs<'a>(&self, elem_idx: u32, input: &'a [u8]) -> (r: Vec<
        (&'a str, &'a str),
    >)
        ensures
            r@.len() == utf8_pairs(self.spec_element_attributes(elem_idx as int), input@).len(),
            forall|j: int|
                0 <= j < r@.len() ==> (#[trigger] r@[j]).0@ == utf8_pairs(
                    self.spec_element_attributes(elem_idx as int),
                    input@,
                )[j].0 && r@[j].1@ == utf8_pairs(
                    self.spec_element_attributes(elem_idx as int),
                    input@,
                )[j].1,
    {
        let attrs = self.element_attributes(elem_idx);
        let mut out: Vec<(&'a str, &'a str)> = Vec::new();
        let mut i: usize = 0;
        while i < attrs.len()
            invariant
                i <= attrs@.len(),
                attrs@ == self.spec_element_attributes(elem_idx as int),
                out@.len() == utf8_pairs(attrs@.subrange(0, i as int), input@).len(),
                forall|j: int|
                    0 <= j < out@.len() ==> (#[trigger] out@[j]).0@ == utf8_pairs(
                        attrs@.subrange(0, i as int),
                        input@,
                    )[j].0 && out@[j].1@ == utf8_pairs(attrs@.subrange(0, i as int), input@)[j].1,
            decreases attrs.len() - i,
        {
            assert(attrs@.subrange(0, i + 1).drop_last() =~= attrs@.subrange(0, i as int));
            let a = &attrs[i];
            match (a.name.as_str(input), a.value.as_str(input)) {
                (Some(n), Some(v)) => {
                    out.push((n, v));
                },
                _ => {},
            }
            i += 1;
        }
        assert(attrs@.subrange(0, attrs@.len() as int) =~= attrs@);
        out
    }

    /// The children of an element, in document order
    pub fn children(&self, elem_idx: u32) -> (r: Vec<ChildRef>)
        ensures
            r@ == self.spec_children(elem_idx as int),
    {
        let mut out: Vec<ChildRef> = Vec::new();
        if (elem_idx as usize) < self.children_ranges.len() {
            let (start, count) = self.children_ranges[elem_idx as usize];
            let end = start.saturating_add(count) as usize;
            let stop = if end < self.children_data.len() {
                end
            } else {
                self.children_data.len()
            };
            let mut i = start as usize;
            while i < stop
                invariant
                    start <= i,
                    i <= stop || start >= stop,
                    stop <= self.children_data@.len(),
                    start < stop ==> out@ == self.children_data@.subrange(start as int, i as int),
                    start >= stop ==> out@.len() == 0,
                decreases stop - i,
            {
                out.push(self.children_data[i]);
                proof {
                    assert(self.children_data@.subrange(start as int, i + 1) =~= self.children_data@.subrange(start as int, i as int).push(self.children_data@[i as int]));
                }
                i += 1;
            }
        }
        out
    }

    /// Get number of children for an element
    pub fn child_count(&self, elem_idx: u32) -> (r: usize)
        ensures
            r == self.spec_child_count(elem_idx as int),
    {
        if (elem_idx as usize) < self.children_ranges.len() {
            self.children_ranges[elem_idx as usize].1 as usize
        } else {
            0
        }
    }

    /// The element children only (text nodes skipped)
    pub fn element_children(&self, elem_idx: u32) -> (r: Vec<u32>)
        ensures
            r@ == element_indices(self.spec_children(elem_idx as int)),
    {
        let kids = self.children(elem_idx);
        let mut out: Vec<u32> = Vec::new();
        let mut i: usize = 0;
        while i < kids.len()
            invariant
                i <= kids@.len(),
                out@ == element_indices(kids@.subrange(0, i as int)),
            decreases kids.len() - i,
        {
            assert(kids@.subrange(0, i + 1).drop_last() =~= kids@.subrange(0, i as int));
            let c = kids[i];
            if c.is_element() {
                out.push(c.index());
            }
            i += 1;
        }
        assert(kids@.subrange(0, kids@.len() as int) =~= kids@);
        out
    }

    /// The text children only (elements skipped)
    pub fn text_children(&self, elem_idx: u32) -> (r: Vec<u32>)
        ensures
            r@ == text_indices(self.spec_children(elem_idx as int)),
    {
        let kids = self.children(elem_idx);
        let mut out: Vec<u32> = Vec::new();
        let mut i: usize = 0;
        while i < kids.len()
            invariant
                i <= kids@.len(),
                out@ == text_indices(kids@.subrange(0, i as int)),
            decreases kids.len() - i,
        {
            assert(kids@.subrange(0, i + 1).drop_last() =~= kids@.subrange(0, i as int));
            let c = kids[i];
            if c.is_text() {
                out.push(c.index());
            }
            i += 1;
        }
        assert(kids@.subrange(0, kids@.len() as int) =~= kids@);
        out
    }


    /// Push the children of `p` on a traversal stack, the first child on top.
    fn push_children(&self, stack: &mut Vec<(ChildRef, u32)>, p: u32)
        ensures
            final(stack)@ == old(stack)@ + rev_pairs(self.spec_children(p as int), p),
    {
        let kids = self.children(p);
        let ghost s0 = stack@;
        let mut i = kids.len();
        assert(kids@.subrange(i as int, kids@.len() as int).len() == 0);
        assert(s0 + rev_pairs(kids@.subrange(i as int, kids@.len() as int), p) =~= s0);
        while i > 0
            invariant
                i <= kids@.len(),
                stack@ == s0 + rev_pairs(kids@.subrange(i as int, kids@.len() as int), p),
            decreases i,
        {
            i -= 1;
            stack.push((kids[i], p));
            assert(kids@.subrange(i as int, kids@.len() as int).drop_first() =~= kids@.subrange(
                i + 1,
                kids@.len() as int,
            ));
            assert(kids@.subrange(i as int, kids@.len() as int)[0] == kids@[i as int]);
        }
        assert(kids@.subrange(0, kids@.len() as int) =~= kids@);
    }

    /// All descendants of an element, depth-first in document order (`desc_below`)
    pub fn descendants(&self, elem_idx: u32) -> (r: Vec<ChildRef>)
        ensures
            r@ == desc_below(self, elem_idx as int),
    {
        let mut out: Vec<ChildRef> = Vec::new();
        let mut stack: Vec<(ChildRef, u32)> = Vec::new();
        if (elem_idx as usize) < self.elements.len() {
            self.push_children(&mut stack, elem_idx);
            proof {
                lemma_expand_push_children(self, seq![], self.spec_children(elem_idx as int), elem_idx);
                assert(seq![] + rev_pairs(self.spec_children(elem_idx as int), elem_idx) =~= stack@);
            }
        }
        let ghost total = desc_below(self, elem_idx as int);
        assert(out@ + expand_stack(self, stack@) =~= total);
        while stack.len() > 0
            invariant
                out@ + expand_stack(self, stack@) == total,
            decreases total.len() - out@.len(),
        {
            let ghost before = stack@;
            let (c, p) = stack.pop().unwrap();
            assert(before.drop_last() =~= stack@);
            out.push(c);
            if c.is_element() && p < c.index() && (c.index() as usize) < self.elements.len() {
                let ghost s1 = stack@;
                self.push_children(&mut stack, c.index());
                proof {
                    lemma_expand_push_children(self, s1, self.spec_children(c.spec_index() as int), c.spec_index());
                }
            }
            assert(out@ + expand_stack(self, stack@) =~= total);
        }
        out
    }

    /// Get parent element of an element
    pub fn parent(&self, elem_idx: u32) -> (r: Option<u32>)
        ensures
            r == (match elem_at(self.elements@, elem_idx as int) {
                Some(e) => if e.parent == NO_NODE {
                    None
                } else {
                    Some(e.parent)
                },
                None => None,
            }),
    {
        match self.get_element(elem_idx) {
            Some(elem) => if elem.parent == NO_NODE {
                None
            } else {
                Some(elem.parent)
            },
            None => None,
        }
    }

    /// Get next sibling of an element
    pub fn next_sibling(&self, elem_idx: u32) -> (r: Option<u32>)
        ensures
            r == (match elem_at(self.elements@, elem_idx as int) {
                Some(e) => if e.next_sibling == NO_NODE {
                    None
                } else {
                    Some(e.next_sibling)
                },
                None => None,
            }),
    {
        match self.get_element(elem_idx) {
            Some(elem) => if elem.next_sibling == NO_NODE {
                None
            } else {
                Some(elem.next_sibling)
            },
            None => None,
        }
    }

    /// Get total number of elements
    pub fn element_count(&self) -> (r: usize)
        ensures
            r == self.elements@.len(),
    {
        self.elements.len()
    }

    /// Get total number of text nodes
    pub fn text_count(&self) -> (r: usize)
        ensures
            r == self.texts@.len(),
    {
        self.texts.len()
    }

    /// Get total number of attributes
    pub fn attribute_count(&self) -> (r: usize)
        ensures
            r == self.attributes@.len(),
    {
        self.attributes.len()
    }

    /// Length of the stored children data
    pub fn children_data_len(&self) -> (r: usize)
        ensures
            r == self.children_data@.len(),
    {
        self.children_data.len()
    }

    /// Find all elements with the given name
    pub fn find_elements_by_name(&self, name: &str, input: &[u8]) -> (r: Vec<u32>)
        requires
            self.elements@.len() <= u32::MAX + 1,
        ensures
            r@ == matching_elements(
                self.elements@,
                input@,
                name.spec_bytes(),
                false,
                self.elements@.len() as int,
            ),
    {
        self.find_matching(name.as_bytes(), input, false)
    }

    /// Find all elements with the given local name (ignoring prefix)
    pub fn find_elements_by_local_name(&self, local_name: &str, input: &[u8]) -> (r: Vec<u32>)
        requires
            self.elements@.len() <= u32::MAX + 1,
        ensures
            r@ == matching_elements(
                self.elements@,
                input@,
                local_name.spec_bytes(),
                true,
                self.elements@.len() as int,
            ),
    {
        self.find_matching(local_name.as_bytes(), input, true)
    }

    fn find_matching(&self, name: &[u8], input: &[u8], local: bool) -> (r: Vec<u32>)
        requires
            self.elements@.len() <= u32::MAX + 1,
        ensures
            r@ == matching_elements(self.elements@, input@, name@, local, self.elements@.len() as int),
    {
        let mut out: Vec<u32> = Vec::new();
        let mut i: usize = 0;
        while i < self.elements.len()
            invariant
                i <= self.elements@.len() <= u32::MAX + 1,
                out@ == matching_elements(self.elements@, input@, name@, local, i as int),
            decreases self.elements.len() - i,
        {
            let nm = self.elements[i].name.slice(input);
            let key = if local {
                local_name_bytes(nm)
            } else {
                nm
            };
            if bytes_eq(key, name) {
                out.push(i as u32);
            }
            i += 1;
        }
        out
    }


    /// The sort key of a child, from its parent, offset and raw reference.
    fn make_key(parent: u32, offset: u32, raw: u32) -> (r: u128)
        ensures
            r == key_of(parent as int, offset as int, raw as int),
    {
        (parent as u128) * 0x1_0000_0000_0000_0000u128 + (offset as u128) * 0x1_0000_0000u128 + (
        raw as u128)
    }

    /// The keys of all nodes whose parent is an element of the index.
    fn collect_child_keys(&self) -> (r: (Vec<u128>, Ghost<Seq<ChildRef>>))
        requires
            self.elements@.len() < TEXT_BIT,
            self.texts@.len() < TEXT_BIT,
        ensures
            r.0@.len() == r.1@.len(),
            r.0@.len() <= self.elements@.len() + self.texts@.len(),
            all_distinct(r.0@),
            forall|k: int|
                0 <= k < r.1@.len() ==> {
                    &&& ref_parent(self, #[trigger] r.1@[k]) < self.elements@.len()
                    &&& is_child_of(self, r.1@[k], ref_parent(self, r.1@[k]) as int)
                    &&& r.0@[k] == child_key(self, r.1@[k])
                },
            forall|c: ChildRef, p: int|
                0 <= p < self.elements@.len() && #[trigger] is_child_of(self, c, p) ==> r.1@.contains(c),
    {
        let n = self.elements.len();
        let mut keys: Vec<u128> = Vec::new();
        let ghost mut refs: Seq<ChildRef> = seq![];
        let mut e: usize = 0;
        while e < n
            invariant
                n == self.elements@.len() < TEXT_BIT,
                self.texts@.len() < TEXT_BIT,
                e <= n,
                keys@.len() == refs.len() <= e,
                forall|k: int|
                    0 <= k < refs.len() ==> {
                        &&& !(#[trigger] refs[k]).spec_is_text()
                        &&& refs[k].spec_raw() < e
                        &&& refs[k].spec_raw() == refs[k].spec_index()
                        &&& ref_parent(self, refs[k]) < n
                        &&& is_child_of(self, refs[k], ref_parent(self, refs[k]) as int)
                        &&& keys@[k] == child_key(self, refs[k])
                    },
                forall|k1: int, k2: int|
                    0 <= k1 < k2 < refs.len() ==> (#[trigger] refs[k1]).spec_raw() < (
                    #[trigger] refs[k2]).spec_raw(),
                forall|i: int|
                    0 <= i < e && #[trigger] self.elements@[i].parent < n ==> exists|k: int|
                        0 <= k < refs.len() && refs[k].spec_raw() == i,
            decreases n - e,
        {
            let p = self.elements[e].parent;
            let ghost old_refs = refs;
            if p != NO_NODE && (p as usize) < n {
                let c = ChildRef::element(e as u32);
                let key = Self::make_key(p, self.elements[e].name.offset, c.raw());
                keys.push(key);
                proof {
                    refs = refs.push(c);
                }
            }
            assert forall|i: int|
                0 <= i < e + 1 && #[trigger] self.elements@[i].parent < n implies exists|k: int|
                0 <= k < refs.len() && refs[k].spec_raw() == i by {
                if i < e {
                    let k = choose|k: int| 0 <= k < old_refs.len() && old_refs[k].spec_raw() == i;
                    assert(refs[k] == old_refs[k]);
                } else {
                    assert(refs[refs.len() - 1].spec_raw() == i);
                }
            }
            e += 1;
        }
        let nt = self.texts.len();
        let ghost n_elem_refs = refs.len();
        let mut t: usize = 0;
        while t < nt
            invariant
                n == self.elements@.len() < TEXT_BIT,
                nt == self.texts@.len() < TEXT_BIT,
                t <= nt,
                n_elem_refs <= refs.len(),
                keys@.len() == refs.len() <= n + t,
                forall|k: int|
                    0 <= k < refs.len() ==> {
                        &&& ref_parent(self, #[trigger] refs[k]) < n
                        &&& is_child_of(self, refs[k], ref_parent(self, refs[k]) as int)
                        &&& keys@[k] == child_key(self, refs[k])
                        &&& k < n_elem_refs ==> !refs[k].spec_is_text() && refs[k].spec_raw() < n
                            && refs[k].spec_raw() == refs[k].spec_index()
                        &&& k >= n_elem_refs ==> refs[k].spec_is_text() && refs[k].spec_raw()
                            == (refs[k].spec_index() | TEXT_BIT) && refs[k].spec_index() < t
                    },
                forall|k1: int, k2: int|
                    0 <= k1 < k2 < refs.len() ==> (#[trigger] refs[k1]).spec_raw() < (
                    #[trigger] refs[k2]).spec_raw(),
                forall|i: int|
                    0 <= i < n && #[trigger] self.elements@[i].parent < n ==> exists|k: int|
                        0 <= k < refs.len() && refs[k].spec_raw() == i,
                forall|i: int|
                    0 <= i < t && #[trigger] self.texts@[i].parent < n ==> exists|k: int|
                        0 <= k < refs.len() && refs[k].spec_raw() == (i as u32 | TEXT_BIT),
            decreases nt - t,
        {
            let p = self.texts[t].parent;
            let ghost old_refs = refs;
            if p != NO_NODE && (p as usize) < n {
                let c = ChildRef::text(t as u32);
                let key = Self::make_key(p, self.texts[t].span.span.offset, c.raw());
                proof {
                    let tt = t as u32;
                    assert(tt < 0x8000_0000u32 ==> (tt | 0x8000_0000u32) >= 0x8000_0000u32)
                        by (bit_vector);
                    assert forall|j: u32| j < tt implies (j | 0x8000_0000u32) < (tt
                        | 0x8000_0000u32) by {
                        assert(j < tt && tt < 0x8000_0000u32 ==> (j | 0x8000_0000u32) < (tt
                            | 0x8000_0000u32)) by (bit_vector);
                    }
                }
                keys.push(key);
                proof {
                    refs = refs.push(c);
                }
            }
            assert forall|i: int|
                0 <= i < t + 1 && #[trigger] self.texts@[i].parent < n implies exists|k: int|
                0 <= k < refs.len() && refs[k].spec_raw() == (i as u32 | TEXT_BIT) by {
                if i < t {
                    let k = choose|k: int|
                        0 <= k < old_refs.len() && old_refs[k].spec_raw() == (i as u32 | TEXT_BIT);
                    assert(refs[k] == old_refs[k]);
                } else {
                    assert(refs[refs.len() - 1].spec_raw() == (i as u32 | TEXT_BIT));
                }
            }
            assert forall|i: int|
                0 <= i < n && #[trigger] self.elements@[i].parent < n implies exists|k: int|
                0 <= k < refs.len() && refs[k].spec_raw() == i by {
                let k = choose|k: int| 0 <= k < old_refs.len() && old_refs[k].spec_raw() == i;
                assert(refs[k] == old_refs[k]);
            }
            t += 1;
        }
        proof {
            assert forall|k1: int, k2: int|
                0 <= k1 < keys@.len() && 0 <= k2 < keys@.len() && k1 != k2 implies keys@[k1]
                != keys@[k2] by {
                let (a, b) = if k1 < k2 {
                    (k1, k2)
                } else {
                    (k2, k1)
                };
                assert(refs[a].spec_raw() < refs[b].spec_raw());
                lemma_key_parts(
                    ref_parent(self, refs[a]) as int,
                    ref_offset(self, refs[a]) as int,
                    refs[a].spec_raw() as int,
                );
                lemma_key_parts(
                    ref_parent(self, refs[b]) as int,
                    ref_offset(self, refs[b]) as int,
                    refs[b].spec_raw() as int,
                );
            }
            assert forall|c: ChildRef, p: int|
                0 <= p < self.elements@.len() && #[trigger] is_child_of(self, c, p) implies exists|k: int|
                0 <= k < refs.len() && refs[k] == c by {
                lemma_child_ref_roundtrip(c);
                let k = if c.spec_is_text() {
                    let i = c.spec_index() as int;
                    assert(self.texts@[i].parent < n);
                    choose|k: int| 0 <= k < refs.len() && refs[k].spec_raw() == (i as u32 | TEXT_BIT)
                } else {
                    let i = c.spec_index() as int;
                    assert(self.elements@[i].parent < n);
                    choose|k: int| 0 <= k < refs.len() && refs[k].spec_raw() == i
                };
                lemma_child_ref_eq(refs[k], c);
            }
        }
        let ghost_refs = Ghost(refs);
        assert(ghost_refs@ == refs);
        assert(forall|c: ChildRef, p: int|
            0 <= p < self.elements@.len() && #[trigger] is_child_of(self, c, p) ==> refs.contains(c));
        (keys, ghost_refs)
    }


    /// Build children from parent links
    ///
    /// Uses the parent field of elements and texts to build the children lists:
    /// each element's list holds exactly the nodes whose parent it is, in document
    /// order (by offset; an element before a text node at the same offset; then by
    /// index). With no elements, nothing is changed.
    pub fn build_children_from_parents(&mut self)
        requires
            old(self).elements@.len() < TEXT_BIT,
            old(self).texts@.len() < TEXT_BIT,
        ensures
            final(self).elements@ == old(self).elements@,
            final(self).texts@ == old(self).texts@,
            final(self).attributes@ == old(self).attributes@,
            final(self).root == old(self).root,
            old(self).elements@.len() > 0 ==> final(self).children_ranges@.len()
                == old(self).elements@.len(),
            forall|p: int|
                0 <= p < final(self).elements@.len() ==> #[trigger] children_in_order(final(self), p),
    {
        let n = self.elements.len();
        if n == 0 {
            return;
        }
        let ghost ix0 = *self;
        let (keys, Ghost(refs)) = self.collect_child_keys();
        let sorted = sort_keys(keys.as_slice());
        let ghost s = sorted@;
        // Decode each key back into its child reference
        let mut data: Vec<ChildRef> = Vec::new();
        let mut k: usize = 0;
        while k < sorted.len()
            invariant
                n == self.elements@.len(),
                s == sorted@,
                k <= s.len(),
                data@.len() == k,
                forall|x: u128| s.contains(x) <==> keys@.contains(x),
                keys@.len() == refs.len(),
                forall|j: int|
                    0 <= j < refs.len() ==> {
                        &&& ref_parent(self, #[trigger] refs[j]) < n
                        &&& is_child_of(self, refs[j], ref_parent(self, refs[j]) as int)
                        &&& keys@[j] == child_key(self, refs[j])
                    },
                forall|j: int|
                    0 <= j < k ==> {
                        &&& s[j] == child_key(self, #[trigger] data@[j])
                        &&& ref_parent(self, data@[j]) < n
                        &&& is_child_of(self, data@[j], ref_parent(self, data@[j]) as int)
                    },
            decreases s.len() - k,
        {
            let key = sorted[k];
            let c = ChildRef::from_raw((key % 0x1_0000_0000u128) as u32);
            proof {
                assert(s.contains(key));
                assert(keys@.contains(key));
                let j = choose|j: int| 0 <= j < keys@.len() && keys@[j] == key;
                let r = refs[j];
                lemma_key_parts(ref_parent(self, r) as int, ref_offset(self, r) as int, r.spec_raw() as int);
                lemma_child_ref_eq(c, r);
            }
            data.push(c);
            k += 1;
        }
        // The keys are ordered by parent first: each parent's children are contiguous
        let mut ranges: Vec<(u32, u32)> = Vec::new();
        let mut pos: usize = 0;
        let mut p: usize = 0;
        while p < n
            invariant
                n == self.elements@.len() < TEXT_BIT,
                s == sorted@,
                strictly_sorted(s),
                data@.len() == s.len(),
                s.len() <= n + self.texts@.len(),
                self.texts@.len() < TEXT_BIT,
                forall|j: int|
                    0 <= j < s.len() ==> {
                        &&& s[j] == child_key(self, #[trigger] data@[j])
                        &&& ref_parent(self, data@[j]) < n
                        &&& is_child_of(self, data@[j], ref_parent(self, data@[j]) as int)
                    },
                p <= n,
                pos <= s.len(),
                ranges@.len() == p,
                forall|j: int| 0 <= j < pos ==> ref_parent(self, #[trigger] data@[j]) < p,
                forall|j: int| pos <= j < s.len() ==> ref_parent(self, #[trigger] data@[j]) >= p,
                forall|q: int|
                    0 <= q < p ==> {
                        &&& (#[trigger] ranges@[q]).0 + ranges@[q].1 <= s.len()
                        &&& forall|j: int|
                            0 <= j < s.len() ==> ((ranges@[q].0 <= j < ranges@[q].0 + ranges@[q].1)
                                <==> ref_parent(self, #[trigger] data@[j]) == q)
                    },
            decreases n - p,
        {
            let start = pos;
            while pos < sorted.len() && sorted[pos] / 0x1_0000_0000_0000_0000u128 == p as u128
                invariant
                    n == self.elements@.len() < TEXT_BIT,
                    s == sorted@,
                    start <= pos <= s.len(),
                    data@.len() == s.len(),
                    forall|j: int|
                        0 <= j < s.len() ==> {
                            &&& s[j] == child_key(self, #[trigger] data@[j])
                            &&& ref_parent(self, data@[j]) < n
                        },
                    forall|j: int| start <= j < pos ==> ref_parent(self, #[trigger] data@[j]) == p,
                decreases s.len() - pos,
            {
                proof {
                    let r = data@[pos as int];
                    lemma_key_parts(ref_parent(self, r) as int, ref_offset(self, r) as int, r.spec_raw() as int);
                }
                pos += 1;
            }
            proof {
                if pos < s.len() {
                    let r = data@[pos as int];
                    lemma_key_parts(ref_parent(self, r) as int, ref_offset(self, r) as int, r.spec_raw() as int);
                    assert(ref_parent(self, r) > p);
                    assert forall|j: int| pos <= j < s.len() implies ref_parent(self, #[trigger] data@[j]) > p by {
                        if j > pos {
                            let rj = data@[j];
                            lemma_key_parts(ref_parent(self, rj) as int, ref_offset(self, rj) as int, rj.spec_raw() as int);
                            assert(s[pos as int] < s[j]);
                            vstd::arithmetic::div_mod::lemma_div_is_ordered(s[pos as int] as int, s[j] as int, 0x1_0000_0000_0000_0000);
                        }
                    }
                }
            }
            ranges.push((start as u32, (pos - start) as u32));
            p += 1;
        }
        self.children_data = data;
        self.children_ranges = ranges;
        proof {
            assert forall|q: int| 0 <= q < self.elements@.len() implies #[trigger] children_in_order(self, q) by {
                let (st, cnt) = self.children_ranges@[q];
                let kids = self.spec_children(q);
                assert forall|c: ChildRef| kids.contains(c) <==> is_child_of(self, c, q) by {
                    if kids.contains(c) {
                        let a = choose|a: int| 0 <= a < kids.len() && kids[a] == c;
                        assert(kids[a] == self.children_data@[st + a]);
                    }
                    if is_child_of(self, c, q) {
                        assert(is_child_of(&ix0, c, q));
                        assert(refs.contains(c));
                        let j = choose|j: int| 0 <= j < refs.len() && refs[j] == c;
                        assert(keys@.contains(keys@[j]));
                        assert(s.contains(keys@[j]));
                        let m = choose|m: int| 0 <= m < s.len() && s[m] == keys@[j];
                        let d = self.children_data@[m];
                        lemma_key_parts(ref_parent(self, d) as int, ref_offset(self, d) as int, d.spec_raw() as int);
                        lemma_key_parts(ref_parent(self, c) as int, ref_offset(self, c) as int, c.spec_raw() as int);
                        lemma_child_ref_eq(d, c);
                        assert(kids[m - st] == c);
                    }
                }
                assert forall|a: int, b: int| 0 <= a < b < kids.len() implies doc_key(self, kids[a]) < doc_key(self, kids[b]) by {
                    assert(kids[a] == self.children_data@[st + a]);
                    assert(kids[b] == self.children_data@[st + b]);
                    assert(s[st + a] < s[st + b]);
                }
            }
        }
    }

    /// Release the unused capacity of all internal vectors
    pub fn shrink_to_fit(&mut self)
        ensures
            final(self).elements@ == old(self).elements@,
            final(self).texts@ == old(self).texts@,
            final(self).attributes@ == old(self).attributes@,
            final(self).children_ranges@ == old(self).children_ranges@,
            final(self).children_data@ == old(self).children_data@,
            final(self).root == old(self).root,
    {
        shrink_vec(&mut self.elements);
        shrink_vec(&mut self.texts);
        shrink_vec(&mut self.attributes);
        shrink_vec(&mut self.children_ranges);
        shrink_vec(&mut self.children_data);
    }

    // === Builder methods (used by IndexBuilder) ===
    /// Add an element and return its index
    pub fn add_element(&mut self, elem: IndexElement) -> (r: u32)
        ensures
            r == old(self).elements@.len() as u32,
            final(self).elements@ == old(self).elements@.push(elem),
            final(self).texts@ == old(self).texts@,
            final(self).attributes@ == old(self).attributes@,
            final(self).root == old(self).root,
    {
        let idx = #[verifier::truncate] (self.elements.len() as u32);
        self.elements.push(elem);
        self.children_ranges.push((0, 0));
        idx
    }

    /// Add a text node and return its index
    pub fn add_text(&mut self, text: IndexText) -> (r: u32)
        ensures
            r == old(self).texts@.len() as u32,
            final(self).texts@ == old(self).texts@.push(text),
            final(self).elements@ == old(self).elements@,
            final(self).attributes@ == old(self).attributes@,
            final(self).root == old(self).root,
    {
        let idx = #[verifier::truncate] (self.texts.len() as u32);
        self.texts.push(text);
        idx
    }

    /// Add an attribute and return its index
    pub fn add_attribute(&mut self, attr: IndexAttribute) -> (r: u32)
        ensures
            r == old(self).attributes@.len() as u32,
            final(self).attributes@ == old(self).attributes@.push(attr),
            final(self).elements@ == old(self).elements@,
            final(self).texts@ == old(self).texts@,
            final(self).root == old(self).root,
    {
        let idx = #[verifier::truncate] (self.attributes.len() as u32);
        self.attributes.push(attr);
        idx
    }

    /// Set the children for an element (its list becomes `children`, stored after
    /// the data already recorded)
    pub fn set_children(&mut self, elem_idx: u32, children: Vec<ChildRef>)
        requires
            old(self).children_data@.len() + children@.len() <= u32::MAX,
        ensures
            final(self).elements@ == old(self).elements@,
            final(self).texts@ == old(self).texts@,
            final(self).attributes@ == old(self).attributes@,
            final(self).root == old(self).root,
            elem_idx < old(self).children_ranges@.len() ==> final(self).spec_children(
                elem_idx as int,
            ) == children@,
    {
        if (elem_idx as usize) < self.children_ranges.len() {
            let start = self.children_data.len() as u32;
            let count = children.len() as u32;
            let ghost children_old = children;
            let mut children = children;
            self.children_data.append(&mut children);
            self.children_ranges.set(elem_idx as usize, (start, count));
            assert(self.children_data@.subrange(start as int, start + count) =~= children_old@);
        }
    }

    /// Link sibling elements
    pub fn link_sibling(&mut self, prev_idx: u32, next_idx: u32)
        ensures
            final(self).elements@.len() == old(self).elements@.len(),
            forall|k: int|
                0 <= k < old(self).elements@.len() ==> #[trigger] final(self).elements@[k] == if k
                    == prev_idx {
                    IndexElement { next_sibling: next_idx, ..old(self).elements@[k] }
                } else {
                    old(self).elements@[k]
                },
            final(self).texts@ == old(self).texts@,
            final(self).attributes@ == old(self).attributes@,
            final(self).root == old(self).root,
    {
        if (prev_idx as usize) < self.elements.len() {
            let mut e = self.elements[prev_idx as usize];
            e.next_sibling = next_idx;
            self.elements.set(prev_idx as usize, e);
        }
    }

    /// Set the first child of an element
    pub fn set_first_child(&mut self, parent_idx: u32, child_idx: u32)
        ensures
            final(self).elements@.len() == old(self).elements@.len(),
            forall|k: int|
                0 <= k < old(self).elements@.len() ==> #[trigger] final(self).elements@[k] == if k
                    == parent_idx {
                    IndexElement { first_child: child_idx, ..old(self).elements@[k] }
                } else {
                    old(self).elements@[k]
                },
            final(self).texts@ == old(self).texts@,
            final(self).attributes@ == old(self).attributes@,
            final(self).root == old(self).root,
    {
        if (parent_idx as usize) < self.elements.len() {
            let mut e = self.elements[parent_idx as usize];
            e.first_child = child_idx;
            self.elements.set(parent_idx as usize, e);
        }
    }

    /// Set the last child of an element
    pub fn set_last_child(&mut self, parent_idx: u32, child_idx: u32)
        ensures
            final(self).elements@.len() == old(self).elements@.len(),
            forall|k: int|
                0 <= k < old(self).elements@.len() ==> #[trigger] final(self).elements@[k] == if k
                    == parent_idx {
                    IndexElement { last_child: child_idx, ..old(self).elements@[k] }
                } else {
                    old(self).elements@[k]
                },
            final(self).texts@ == old(self).texts@,
            final(self).attributes@ == old(self).attributes@,
            final(self).root == old(self).root,
    {
        if (parent_idx as usize) < self.elements.len() {
            let mut e = self.elements[parent_idx as usize];
            e.last_child = child_idx;
            self.elements.set(parent_idx as usize, e);
        }
    }
}

/// `Vec::shrink_to_fit`: releases spare capacity; the contents stay as they were.
#[verifier::external_body]
fn shrink_vec<T>(v: &mut Vec<T>)
    ensures
        final(v)@ == old(v)@,
{
    v.shrink_to_fit();
}

/// The local part of a name: what follows its first `:`, or the whole name.
pub fn local_name_bytes(name: &[u8]) -> (r: &[u8])
    ensures
        r@ == local_part(name@),
{
    let mut i: usize = 0;
    while i < name.len()
        invariant
            i <= name@.len(),
            forall|j: int| 0 <= j < i ==> name@[j] != 0x3A,
        decreases name.len() - i,
    {
        if name[i] == 0x3A {
            proof {
                crate::xml_core::attributes::lemma_first_index(name@, 0x3A, i as int);
            }
            return &name[i + 1..name.len()];
        }
        i += 1;
    }
    proof {
        crate::xml_core::primitives::lemma_index_of(name@, 0x3A);
        if crate::xml_core::primitives::index_of(name@, 0x3A) >= 0 {
            assert(name@[crate::xml_core::primitives::index_of(name@, 0x3A)] == 0x3A);
        }
    }
    name
}

} // verus!
