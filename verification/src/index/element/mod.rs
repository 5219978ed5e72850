//! Structural Index Element Types
//!
//! Compact structures for storing XML structure as offsets into the original input.

pub mod element_flags;
pub mod text_flags;

use vstd::prelude::*;

use super::span::{ext_span, ExtendedSpan, Span};

verus! {

/// Sentinel value for "no node"
pub const NO_NODE: u32 = 0xFFFF_FFFF;

/// Index of an element in the structural index
///
/// Stores only offsets into the original input - zero string allocation.
#[derive(Debug, Clone, Copy)]
pub struct IndexElement {
    /// Element name span (tag name in input)
    pub name: Span,
    /// Parent element index (NO_NODE for root)
    pub parent: u32,
    /// First child index (NO_NODE if no children)
    pub first_child: u32,
    /// Next sibling index (NO_NODE if last child)
    pub next_sibling: u32,
    /// Start index in attributes array
    pub attr_start: u32,
    /// Number of attributes
    pub attr_count: u16,
    /// Depth in document tree (0 = root element)
    pub depth: u16,
    /// Flags (see element_flags)
    pub flags: u16,
    /// Last child index (for efficient appendChild)
    pub last_child: u32,
}

impl IndexElement {
    /// Create a new element
    pub fn new(name: Span, parent: u32, depth: u16) -> (r: Self)
        ensures
            r.name == name,
            r.parent == parent,
            r.depth == depth,
            r.first_child == NO_NODE,
            r.next_sibling == NO_NODE,
            r.last_child == NO_NODE,
            r.attr_start == 0,
            r.attr_count == 0,
            r.flags == 0,
    {
        Self {
            name,
            parent,
            first_child: NO_NODE,
            next_sibling: NO_NODE,
            last_child: NO_NODE,
            attr_start: 0,
            attr_count: 0,
            depth,
            flags: 0,
        }
    }

    /// Check if this is the root element
    pub fn is_root(&self) -> (r: bool)
        ensures
            r == (self.parent == NO_NODE),
    {
        self.parent == NO_NODE
    }

    /// Check if this element has children
    pub fn has_children(&self) -> (r: bool)
        ensures
            r == (self.first_child != NO_NODE),
    {
        self.first_child != NO_NODE
    }

    /// Check if this element has attributes
    pub fn has_attributes(&self) -> (r: bool)
        ensures
            r == (self.attr_count > 0),
    {
        self.attr_count > 0
    }

    /// Check if this is an empty/self-closing element
    pub fn is_empty(&self) -> (r: bool)
        ensures
            r == (self.flags & element_flags::IS_EMPTY != 0),
    {
        self.flags & element_flags::IS_EMPTY != 0
    }

    /// Check if this element has a namespace prefix
    pub fn has_prefix(&self) -> (r: bool)
        ensures
            r == (self.flags & element_flags::HAS_PREFIX != 0),
    {
        self.flags & element_flags::HAS_PREFIX != 0
    }
}

impl Default for IndexElement {
    fn default() -> (r: Self)
        ensures
            r.name == Span::empty_spec(),
            r.parent == NO_NODE,
            r.first_child == NO_NODE,
            r.next_sibling == NO_NODE,
            r.last_child == NO_NODE,
            r.attr_start == 0,
            r.attr_count == 0,
            r.depth == 0,
            r.flags == 0,
    {
        Self {
            name: Span::empty(),
            parent: NO_NODE,
            first_child: NO_NODE,
            next_sibling: NO_NODE,
            last_child: NO_NODE,
            attr_start: 0,
            attr_count: 0,
            depth: 0,
            flags: 0,
        }
    }
}

/// Index of a text node (text, CDATA, comment, PI)
///
/// Uses ExtendedSpan to support text > 64KB.
#[derive(Debug, Clone, Copy)]
pub struct IndexText {
    /// Text content span
    pub span: ExtendedSpan,
    /// Parent element index
    pub parent: u32,
    /// Flags (see text_flags)
    pub flags: u16,
}

impl IndexText {
    /// Create a new text node
    pub fn new(offset: u32, len: usize, parent: u32) -> (r: Self)
        requires
            len <= u32::MAX,
        ensures
            r.span.span.offset == offset,
            r.span.spec_len() == len,
            r.span == ext_span(offset, len as int),
            r.parent == parent,
            r.flags == 0,
    {
        Self { span: ExtendedSpan::new(offset, len), parent, flags: 0 }
    }

    /// Create a text node that needs entity decoding
    pub fn new_with_entities(offset: u32, len: usize, parent: u32) -> (r: Self)
        requires
            len <= u32::MAX,
        ensures
            r.span.span.offset == offset,
            r.span.spec_len() == len,
            r.span == ext_span(offset, len as int),
            r.parent == parent,
            r.flags == text_flags::NEEDS_ENTITY_DECODE,
    {
        Self { span: ExtendedSpan::new(offset, len), parent, flags: text_flags::NEEDS_ENTITY_DECODE }
    }

    /// Create a CDATA section
    pub fn cdata(offset: u32, len: usize, parent: u32) -> (r: Self)
        requires
            len <= u32::MAX,
        ensures
            r.span.span.offset == offset,
            r.span.spec_len() == len,
            r.span == ext_span(offset, len as int),
            r.parent == parent,
            r.flags == text_flags::IS_CDATA,
    {
        Self { span: ExtendedSpan::new(offset, len), parent, flags: text_flags::IS_CDATA }
    }

    /// Create a comment
    pub fn comment(offset: u32, len: usize, parent: u32) -> (r: Self)
        requires
            len <= u32::MAX,
        ensures
            r.span.span.offset == offset,
            r.span.spec_len() == len,
            r.span == ext_span(offset, len as int),
            r.parent == parent,
            r.flags == text_flags::IS_COMMENT,
    {
        Self { span: ExtendedSpan::new(offset, len), parent, flags: text_flags::IS_COMMENT }
    }

    /// Create a processing instruction
    pub fn pi(target_offset: u32, target_len: usize, parent: u32) -> (r: Self)
        requires
            target_len <= u32::MAX,
        ensures
            r.span.span.offset == target_offset,
            r.span.spec_len() == target_len,
            r.span == ext_span(target_offset, target_len as int),
            r.parent == parent,
            r.flags == text_flags::IS_PI,
    {
        Self { span: ExtendedSpan::new(target_offset, target_len), parent, flags: text_flags::IS_PI }
    }

    /// Check if this text needs entity decoding
    pub fn needs_decode(&self) -> (r: bool)
        ensures
            r == (self.flags & text_flags::NEEDS_ENTITY_DECODE != 0),
    {
        self.flags & text_flags::NEEDS_ENTITY_DECODE != 0
    }

    /// Check if this is a CDATA section
    pub fn is_cdata(&self) -> (r: bool)
        ensures
            r == (self.flags & text_flags::IS_CDATA != 0),
    {
        self.flags & text_flags::IS_CDATA != 0
    }

    /// Check if this is a comment
    pub fn is_comment(&self) -> (r: bool)
        ensures
            r == (self.flags & text_flags::IS_COMMENT != 0),
    {
        self.flags & text_flags::IS_COMMENT != 0
    }

    /// Check if this is a processing instruction
    pub fn is_pi(&self) -> (r: bool)
        ensures
            r == (self.flags & text_flags::IS_PI != 0),
    {
        self.flags & text_flags::IS_PI != 0
    }

    /// Check if this is regular text (not CDATA/comment/PI)
    pub fn is_text(&self) -> (r: bool)
        ensures
            r == (self.flags & (text_flags::IS_CDATA | text_flags::IS_COMMENT | text_flags::IS_PI)
                == 0),
    {
        self.flags & (text_flags::IS_CDATA | text_flags::IS_COMMENT | text_flags::IS_PI) == 0
    }
}

impl Default for IndexText {
    fn default() -> (r: Self)
        ensures
            r.span.span.offset == 0,
            r.span.spec_len() == 0,
            r.parent == NO_NODE,
            r.flags == 0,
    {
        Self { span: ExtendedSpan::new(0, 0), parent: NO_NODE, flags: 0 }
    }
}

/// An attribute in the structural index
#[derive(Debug, Clone, Copy)]
pub struct IndexAttribute {
    /// Attribute name span
    pub name: Span,
    /// Attribute value span
    pub value: Span,
}

impl IndexAttribute {
    /// Create a new attribute
    pub fn new(name: Span, value: Span) -> (r: Self)
        ensures
            r.name == name,
            r.value == value,
    {
        Self { name, value }
    }
}

impl Default for IndexAttribute {
    fn default() -> (r: Self)
        ensures
            r.name == Span::empty_spec(),
            r.value == Span::empty_spec(),
    {
        Self { name: Span::empty(), value: Span::empty() }
    }
}

/// A child reference - can be either an element or a text node
///
/// The high bit of the index tells the two apart.
#[derive(Debug, Clone, Copy, PartialEq, Eq, Structural)]
pub struct ChildRef(u32);

/// Bit flag indicating a text node reference
pub const TEXT_BIT: u32 = 0x8000_0000;

impl ChildRef {
    /// The raw value.
    pub closed spec fn spec_raw(&self) -> u32 {
        self.0
    }

    /// Whether the reference is to a text node.
    pub closed spec fn spec_is_text(&self) -> bool {
        self.0 & TEXT_BIT != 0
    }

    /// The referenced index, without the type bit.
    pub closed spec fn spec_index(&self) -> u32 {
        self.0 & !TEXT_BIT
    }

    /// Create a reference to an element
    pub fn element(idx: u32) -> (r: Self)
        requires
            idx < TEXT_BIT,
        ensures
            r.spec_raw() == idx,
            !r.spec_is_text(),
            r.spec_index() == idx,
    {
        assert(idx < 0x8000_0000u32 ==> idx & 0x8000_0000u32 == 0 && idx & !0x8000_0000u32 == idx)
            by (bit_vector);
        Self(idx)
    }

    /// Create a reference to a text node
    pub fn text(idx: u32) -> (r: Self)
        requires
            idx < TEXT_BIT,
        ensures
            r.spec_raw() == idx | TEXT_BIT,
            r.spec_is_text(),
            r.spec_index() == idx,
    {
        assert(idx < 0x8000_0000u32 ==> (idx | 0x8000_0000u32) & 0x8000_0000u32 != 0 && (idx
            | 0x8000_0000u32) & !0x8000_0000u32 == idx) by (bit_vector);
        Self(idx | TEXT_BIT)
    }

    /// Check if this is a text node reference
    pub fn is_text(&self) -> (r: bool)
        ensures
            r == self.spec_is_text(),
    {
        self.0 & TEXT_BIT != 0
    }

    /// Check if this is an element reference
    pub fn is_element(&self) -> (r: bool)
        ensures
            r == !self.spec_is_text(),
    {
        self.0 & TEXT_BIT == 0
    }

    /// Get the index (strips the type bit)
    pub fn index(&self) -> (r: u32)
        ensures
            r == self.spec_index(),
            r < TEXT_BIT,
    {
        let v = self.0;
        assert(v & !0x8000_0000u32 < 0x8000_0000u32) by (bit_vector);
        self.0 & !TEXT_BIT
    }

    /// Get the raw value
    pub fn raw(&self) -> (r: u32)
        ensures
            r == self.spec_raw(),
    {
        self.0
    }

    /// Create from raw value
    pub fn from_raw(raw: u32) -> (r: Self)
        ensures
            r.spec_raw() == raw,
    {
        Self(raw)
    }
}

/// Two references with the same raw value are the same reference.
pub proof fn lemma_child_ref_eq(a: ChildRef, b: ChildRef)
    requires
        a.spec_raw() == b.spec_raw(),
    ensures
        a == b,
{
}

/// A reference is determined by its type and index: the encoding loses nothing.
pub proof fn lemma_child_ref_roundtrip(c: ChildRef)
    ensures
        c.spec_is_text() ==> c.spec_raw() == c.spec_index() | TEXT_BIT,
        !c.spec_is_text() ==> c.spec_raw() == c.spec_index(),
{
    let v = c.0;
    assert(v & 0x8000_0000u32 != 0 ==> v == (v & !0x8000_0000u32) | 0x8000_0000u32) by (bit_vector);
    assert(v & 0x8000_0000u32 == 0 ==> v == v & !0x8000_0000u32) by (bit_vector);
}

} // verus!
