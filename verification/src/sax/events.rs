//! SAX Event Types
//!
//! Defines the events emitted during SAX-style XML parsing.

use vstd::prelude::*;

use crate::index::Span;

verus! {

/// A SAX parsing event
///
/// Events use Spans for zero-copy access to the input.
#[derive(Debug, Clone)]
pub enum SaxEvent {
    /// Start of an element
    StartElement {
        /// Element name span
        name: Span,
        /// Attributes as (name_span, value_span) pairs
        attributes: Vec<(Span, Span)>,
    },
    /// End of an element
    EndElement {
        /// Element name span
        name: Span,
    },
    /// Text content
    Text {
        /// Text content span
        span: Span,
        /// Whether the text contains entity references that need decoding
        needs_decode: bool,
    },
    /// CDATA section
    CData {
        /// CDATA content span (excluding markers)
        span: Span,
    },
    /// Comment
    Comment {
        /// Comment content span (excluding markers)
        span: Span,
    },
    /// Processing instruction
    ProcessingInstruction {
        /// Target name span
        target: Span,
        /// Optional data span
        data: Option<Span>,
    },
    /// XML declaration (rarely needed in SAX)
    XmlDeclaration {
        /// Version span
        version: Option<Span>,
        /// Encoding span
        encoding: Option<Span>,
        /// Standalone span
        standalone: Option<Span>,
    },
    /// DOCTYPE declaration
    DocType {
        /// DOCTYPE content span
        content: Span,
    },
}

impl SaxEvent {
    /// Check if this is a start element event
    pub fn is_start_element(&self) -> (r: bool)
        ensures
            r == (self is StartElement),
    {
        match self {
            SaxEvent::StartElement { .. } => true,
            _ => false,
        }
    }

    /// Check if this is an end element event
    pub fn is_end_element(&self) -> (r: bool)
        ensures
            r == (self is EndElement),
    {
        match self {
            SaxEvent::EndElement { .. } => true,
            _ => false,
        }
    }

    /// Check if this is a text event
    pub fn is_text(&self) -> (r: bool)
        ensures
            r == (self is Text),
    {
        match self {
            SaxEvent::Text { .. } => true,
            _ => false,
        }
    }

    /// Get the element name span if this is a start or end element
    pub fn element_name(&self) -> (r: Option<Span>)
        ensures
            match self {
                SaxEvent::StartElement { name, .. } => r == Some(*name),
                SaxEvent::EndElement { name } => r == Some(*name),
                _ => r is None,
            },
    {
        match self {
            SaxEvent::StartElement { name, .. } => Some(*name),
            SaxEvent::EndElement { name } => Some(*name),
            _ => None,
        }
    }
}

/// Compact event for memory-efficient storage
///
/// Uses a tag byte and inline data to minimize memory per event.
#[derive(Debug, Clone, Copy)]
pub struct CompactSaxEvent {
    /// Event type tag
    pub tag: u8,
    /// Flags (e.g., needs_decode for text)
    pub flags: u8,
    /// Primary span offset
    pub offset: u32,
    /// Primary span length
    pub len: u32,
    /// Secondary data (attribute count, or data span for PI)
    pub secondary: u32,
    /// Tertiary data (attribute start index)
    pub tertiary: u32,
}

impl CompactSaxEvent {
    /// Tag values
    pub const TAG_START_ELEMENT: u8 = 1;
    pub const TAG_END_ELEMENT: u8 = 2;
    pub const TAG_TEXT: u8 = 3;
    pub const TAG_CDATA: u8 = 4;
    pub const TAG_COMMENT: u8 = 5;
    pub const TAG_PI: u8 = 6;
    pub const TAG_XML_DECL: u8 = 7;
    pub const TAG_DOCTYPE: u8 = 8;

    /// Flag: text needs entity decoding
    pub const FLAG_NEEDS_DECODE: u8 = 0x01;

    /// Create a start element event
    pub fn start_element(name_offset: u32, name_len: u32, attr_start: u32, attr_count: u32) -> (r:
        Self)
        ensures
            r.tag == Self::TAG_START_ELEMENT,
            r.flags == 0,
            r.offset == name_offset,
            r.len == name_len,
            r.secondary == attr_count,
            r.tertiary == attr_start,
    {
        Self {
            tag: Self::TAG_START_ELEMENT,
            flags: 0,
            offset: name_offset,
            len: name_len,
            secondary: attr_count,
            tertiary: attr_start,
        }
    }

    /// Create an end element event
    pub fn end_element(name_offset: u32, name_len: u32) -> (r: Self)
        ensures
            r.tag == Self::TAG_END_ELEMENT,
            r.flags == 0,
            r.offset == name_offset,
            r.len == name_len,
            r.secondary == 0,
            r.tertiary == 0,
    {
        Self {
            tag: Self::TAG_END_ELEMENT,
            flags: 0,
            offset: name_offset,
            len: name_len,
            secondary: 0,
            tertiary: 0,
        }
    }

    /// Create a text event
    pub fn text(offset: u32, len: u32, needs_decode: bool) -> (r: Self)
        ensures
            r.tag == Self::TAG_TEXT,
            r.flags == if needs_decode {
                Self::FLAG_NEEDS_DECODE
            } else {
                0
            },
            r.offset == offset,
            r.len == len,
            r.secondary == 0,
            r.tertiary == 0,
    {
        Self {
            tag: Self::TAG_TEXT,
            flags: if needs_decode {
                Self::FLAG_NEEDS_DECODE
            } else {
                0
            },
            offset,
            len,
            secondary: 0,
            tertiary: 0,
        }
    }

    /// Create a CDATA event
    pub fn cdata(offset: u32, len: u32) -> (r: Self)
        ensures
            r.tag == Self::TAG_CDATA,
            r.flags == 0,
            r.offset == offset,
            r.len == len,
            r.secondary == 0,
            r.tertiary == 0,
    {
        Self { tag: Self::TAG_CDATA, flags: 0, offset, len, secondary: 0, tertiary: 0 }
    }

    /// Create a comment event
    pub fn comment(offset: u32, len: u32) -> (r: Self)
        ensures
            r.tag == Self::TAG_COMMENT,
            r.flags == 0,
            r.offset == offset,
            r.len == len,
            r.secondary == 0,
            r.tertiary == 0,
    {
        Self { tag: Self::TAG_COMMENT, flags: 0, offset, len, secondary: 0, tertiary: 0 }
    }

    /// Create a PI event
    pub fn pi(target_offset: u32, target_len: u32, data_offset: u32, data_len: u32) -> (r: Self)
        ensures
            r.tag == Self::TAG_PI,
            r.flags == 0,
            r.offset == target_offset,
            r.len == target_len,
            r.secondary == data_offset,
            r.tertiary == data_len,
    {
        Self {
            tag: Self::TAG_PI,
            flags: 0,
            offset: target_offset,
            len: target_len,
            secondary: data_offset,
            tertiary: data_len,
        }
    }

    /// Get the primary span (length capped at `u16::MAX`)
    pub fn span(&self) -> (r: Span)
        ensures
            r.offset == self.offset,
            r.len == if self.len <= u16::MAX {
                self.len as int
            } else {
                u16::MAX as int
            },
    {
        let l: u16 = if self.len <= 0xFFFF {
            self.len as u16
        } else {
            0xFFFF
        };
        Span::new(self.offset, l)
    }

    /// Check if this text event needs decoding
    pub fn needs_decode(&self) -> (r: bool)
        ensures
            r == (self.flags & Self::FLAG_NEEDS_DECODE != 0),
    {
        self.flags & Self::FLAG_NEEDS_DECODE != 0
    }
}

} // verus!
