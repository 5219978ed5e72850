//! Persistent state for streaming parsers and indexed documents.
//!
//! The host environment keeps these values between calls (behind its own locks); here
//! is what each call does to them.

use vstd::prelude::*;

use crate::index::builder::{build_index, index_matches, model_of};
use crate::index::structural::StructuralIndex;
use crate::index::view::IndexedDocumentView;
use crate::sax::stream::{encode_sax_events, sax_encode, tok_run};
use crate::strategy::streaming::{
    find_safe_boundary, lemma_boundary_in_range, lemma_tail_has_no_boundary, safe_boundary,
};
use crate::xml_core::attributes::cow_bytes;
use crate::xml_core::dtd::{spec_utf8_lossy, utf8_lossy};
use crate::xml_core::entities::{decode_text, decoded};
use crate::xml_core::primitives::bytes_eq;
use crate::xml_core::tokenizer::model::ParseState;
use crate::xml_core::unified_scanner::scan_from;
use vstd::string::StringSliceAdditionalSpecFns;
use vstd::utf8::{decode_utf8, valid_utf8};

verus! {

// ============================================================================
// Streaming SAX Parser
// ============================================================================
/// Lightweight streaming SAX parser — just a buffer and depth counter.
///
/// Feed chunk → tokenize the complete elements → encode their events into a compact
/// binary → keep only the unprocessed tail.
pub struct StreamingSaxParser {
    pub buffer: Vec<u8>,
    pub depth: u32,
}

/// The events of the complete elements of `input` from depth `depth`, encoded, and
/// the depth after them.
pub open spec fn encoded_prefix(input: Seq<u8>, depth: u32, cdata_as_chars: bool) -> (Seq<u8>, int) {
    let p = input.take(safe_boundary(input));
    sax_encode(p, tok_run(p, 0, ParseState::Init), depth as int, cdata_as_chars)
}

/// What a feed of `chunk` returns, keeps and reaches, from the saved `buffer` at depth
/// `depth`: the encoded events of the complete elements of the buffer and the chunk,
/// the bytes after them, and the depth after them (nothing, all of it and the same
/// depth where they complete no element).
pub open spec fn sax_feed(buffer: Seq<u8>, depth: u32, chunk: Seq<u8>, cdata_as_chars: bool) -> (
    Seq<u8>,
    Seq<u8>,
    int,
) {
    let input = buffer + chunk;
    let b = safe_boundary(input);
    if b == 0 {
        (Seq::empty(), input, depth as int)
    } else {
        let e = encoded_prefix(input, depth, cdata_as_chars);
        (e.0, input.skip(b), e.1)
    }
}

/// Law: after a feed, the saved tail holds no complete element: each element is
/// encoded by the feed whose chunk completes it.
pub proof fn law_sax_feed_leaves_no_complete_element(
    buffer: Seq<u8>,
    depth: u32,
    chunk: Seq<u8>,
    cdata_as_chars: bool,
)
    ensures
        safe_boundary(sax_feed(buffer, depth, chunk, cdata_as_chars).1) == 0,
{
    lemma_tail_has_no_boundary(buffer + chunk);
}

/// Law: a feed loses no byte: the part it encodes, followed by the tail it saves, is
/// the saved buffer followed by the chunk.
pub proof fn law_sax_feed_keeps_every_byte(
    buffer: Seq<u8>,
    depth: u32,
    chunk: Seq<u8>,
    cdata_as_chars: bool,
)
    ensures
        ({
            let input = buffer + chunk;
            input.take(safe_boundary(input)) + sax_feed(buffer, depth, chunk, cdata_as_chars).1
                == input
        }),
{
    let input = buffer + chunk;
    let b = safe_boundary(input);
    lemma_boundary_in_range(input);
    assert(input.take(b) + input.skip(b) =~= input);
    assert(input.take(0) + input =~= input);
}

/// Law: a chunk that completes no element is held back whole: feeding it and then the
/// next chunk returns, keeps and reaches what feeding both at once does.
pub proof fn law_sax_feed_incomplete_chunk(
    buffer: Seq<u8>,
    depth: u32,
    c1: Seq<u8>,
    c2: Seq<u8>,
    cdata_as_chars: bool,
)
    requires
        safe_boundary(buffer + c1) == 0,
    ensures
        ({
            let first = sax_feed(buffer, depth, c1, cdata_as_chars);
            let second = sax_feed(first.1, depth, c2, cdata_as_chars);
            let once = sax_feed(buffer, depth, c1 + c2, cdata_as_chars);
            &&& first.0 == Seq::<u8>::empty()
            &&& first.2 == depth
            &&& second == once
        }),
{
    assert((buffer + c1) + c2 =~= buffer + (c1 + c2));
}

/// Append `data` to `v`.
fn extend_bytes(v: &mut Vec<u8>, data: &[u8])
    ensures
        final(v)@ == old(v)@ + data@,
{
    let mut i: usize = 0;
    while i < data.len()
        invariant
            i <= data@.len(),
            v@ == old(v)@ + data@.take(i as int),
        decreases data.len() - i,
    {
        v.push(data[i]);
        i += 1;
        assert(v@ =~= old(v)@ + data@.take(i as int));
    }
    assert(data@.take(data@.len() as int) =~= data@);
}

impl StreamingSaxParser {
    pub fn new() -> (r: Self)
        ensures
            r.buffer@ == Seq::<u8>::empty(),
            r.depth == 0,
    {
        StreamingSaxParser { buffer: Vec::with_capacity(64 * 1024), depth: 0 }
    }

    /// Feed a chunk: the complete elements of the saved tail and the chunk are encoded
    /// and returned; what follows them is saved for the next call. When the buffer holds
    /// no tail, the chunk is read in place.
    pub fn feed(&mut self, chunk: &[u8], cdata_as_chars: bool) -> (r: Vec<u8>)
        requires
            old(self).depth + old(self).buffer@.len() + chunk@.len() <= u32::MAX,
        ensures
            ({
                let f = sax_feed(old(self).buffer@, old(self).depth, chunk@, cdata_as_chars);
                &&& r@ == f.0
                &&& final(self).buffer@ == f.1
                &&& final(self).depth as int == f.2
            }),
    {
        let ghost input_all = self.buffer@ + chunk@;
        let had_tail = self.buffer.len() > 0;
        if had_tail {
            extend_bytes(&mut self.buffer, chunk);
        }
        let (out, depth, tail) = {
            let input: &[u8] = if had_tail {
                self.buffer.as_slice()
            } else {
                assert(chunk@ =~= input_all);
                chunk
            };
            let boundary = find_safe_boundary(input);
            if boundary == 0 {
                // Nothing processable yet — save everything as the tail.
                if !had_tail {
                    extend_bytes(&mut self.buffer, chunk);
                    assert(self.buffer@ =~= input_all);
                }
                return Vec::new();
            }
            let processable = &input[0..boundary];
            assert(processable@ =~= input_all.take(boundary as int));
            let (out, depth) = encode_sax_events(processable, self.depth, cdata_as_chars);
            let tail = vstd::slice::slice_to_vec(&input[boundary..input.len()]);
            assert(tail@ =~= input_all.skip(boundary as int));
            (out, depth, tail)
        };
        self.depth = depth;
        // Save only the unprocessed tail
        self.buffer.clear();
        extend_bytes(&mut self.buffer, tail.as_slice());
        out
    }

    /// Process remaining bytes in the buffer after all chunks have been fed
    pub fn finalize(&mut self, cdata_as_chars: bool) -> (r: Vec<u8>)
        requires
            old(self).depth + old(self).buffer@.len() <= u32::MAX,
        ensures
            ({
                let rest = old(self).buffer@;
                let e = sax_encode(rest, tok_run(rest, 0, ParseState::Init), old(self).depth as int, cdata_as_chars);
                if rest.len() == 0 {
                    r@ == Seq::<u8>::empty() && final(self).depth == old(self).depth
                        && final(self).buffer@ == rest
                } else {
                    &&& r@ == e.0
                    &&& final(self).depth as int == e.1
                    &&& final(self).buffer@ == Seq::<u8>::empty()
                }
            }),
    {
        if self.buffer.len() == 0 {
            return Vec::new();
        }
        let mut remaining: Vec<u8> = Vec::new();
        std::mem::swap(&mut remaining, &mut self.buffer);
        let (out, depth) = encode_sax_events(remaining.as_slice(), self.depth, cdata_as_chars);
        self.depth = depth;
        out
    }
}

impl Default for StreamingSaxParser {
    fn default() -> (r: Self)
        ensures
            r.buffer@ == Seq::<u8>::empty(),
            r.depth == 0,
    {
        Self::new()
    }
}

// ============================================================================
// Document Accumulator (Streaming SimpleForm)
// ============================================================================
/// Accumulates XML chunks for streaming SimpleForm parsing: all bytes stay here until
/// the buffer is taken.
pub struct DocumentAccumulator {
    buffer: Vec<u8>,
}

impl DocumentAccumulator {
    /// The bytes fed so far.
    pub closed spec fn spec_buffer(&self) -> Seq<u8> {
        self.buffer@
    }

    pub fn new() -> (r: Self)
        ensures
            r.spec_buffer() == Seq::<u8>::empty(),
    {
        Self { buffer: Vec::with_capacity(64 * 1024) }
    }

    /// Append a chunk
    pub fn feed(&mut self, chunk: &[u8])
        ensures
            final(self).spec_buffer() == old(self).spec_buffer() + chunk@,
    {
        extend_bytes(&mut self.buffer, chunk);
    }

    /// Take all bytes fed so far, leaving the buffer empty
    pub fn take_buffer(&mut self) -> (r: Vec<u8>)
        ensures
            r@ == old(self).spec_buffer(),
            final(self).spec_buffer() == Seq::<u8>::empty(),
    {
        let mut out: Vec<u8> = Vec::new();
        std::mem::swap(&mut out, &mut self.buffer);
        out
    }
}

impl Default for DocumentAccumulator {
    fn default() -> (r: Self)
        ensures
            r.spec_buffer() == Seq::<u8>::empty(),
    {
        Self::new()
    }
}

// ============================================================================
// Structural Index Resource (main parse path)
// ============================================================================
/// Structural Index document resource: the structural index (byte offsets into the
/// input) and the input bytes it points into.
pub struct IndexedDocumentResource {
    /// Structural index (offsets into input)
    pub index: StructuralIndex,
    /// Original input bytes (kept for string extraction)
    input: Vec<u8>,
}

impl IndexedDocumentResource {
    /// The input the index was built from.
    pub closed spec fn spec_input(&self) -> Seq<u8> {
        self.input@
    }

    /// The index.
    pub closed spec fn spec_index(&self) -> StructuralIndex {
        self.index
    }

    /// Create a new index from input binary
    pub fn new(input: Vec<u8>) -> (r: Self)
        ensures
            r.spec_input() == input@,
            index_matches(&r.spec_index(), model_of(scan_from(input@, 0))),
    {
        let index = build_index(input.as_slice());
        Self { index, input }
    }

    /// Create from borrowed input (copies the input)
    pub fn new_from_slice(input: &[u8]) -> (r: Self)
        ensures
            r.spec_input() == input@,
            index_matches(&r.spec_index(), model_of(scan_from(input@, 0))),
    {
        Self::new(vstd::slice::slice_to_vec(input))
    }

    /// Get reference to stored input
    pub fn input(&self) -> (r: &[u8])
        ensures
            r@ == self.spec_input(),
    {
        self.input.as_slice()
    }

    /// Get a view into the document for XPath evaluation
    pub fn as_view(&self) -> (r: IndexedDocumentView<'_>)
        ensures
            *r.index == self.spec_index(),
            r.input@ == self.spec_input(),
    {
        IndexedDocumentView::new(&self.index, self.input.as_slice())
    }

    /// Get element name as string
    pub fn element_name_str(&self, elem_idx: u32) -> (r: Option<&str>)
        ensures
            match r {
                Some(s) => elem_idx < self.spec_index().elements@.len() && valid_utf8(
                    self.spec_index().elements@[elem_idx as int].name.spec_slice(self.spec_input()),
                ) && s@ == decode_utf8(
                    self.spec_index().elements@[elem_idx as int].name.spec_slice(self.spec_input()),
                ),
                None => elem_idx >= self.spec_index().elements@.len() || !valid_utf8(
                    self.spec_index().elements@[elem_idx as int].name.spec_slice(self.spec_input()),
                ),
            },
    {
        match self.index.get_element(elem_idx) {
            Some(elem) => elem.name.as_str(self.input.as_slice()),
            None => None,
        }
    }

    /// Get attribute value as string: the first attribute of the element with that
    /// name, its value decoded and read as UTF-8 (invalid sequences replaced)
    pub fn get_attribute_str(&self, elem_idx: u32, name: &str) -> (r: Option<String>)
        ensures
            ({
                let attrs = self.spec_index().spec_element_attributes(elem_idx as int);
                let k = first_attr_named(attrs, self.spec_input(), name.spec_bytes(), 0);
                &&& r is Some <==> k < attrs.len()
                &&& r matches Some(v) ==> v@ == spec_utf8_lossy(
                    decoded(attrs[k].value.spec_slice(self.spec_input())),
                )
            }),
    {
        let attrs = self.index.element_attributes(elem_idx);
        let name_bytes = name.as_bytes();
        let input = self.input.as_slice();
        let mut i: usize = 0;
        while i < attrs.len()
            invariant
                i <= attrs@.len(),
                attrs@ == self.spec_index().spec_element_attributes(elem_idx as int),
                input@ == self.spec_input(),
                name_bytes@ == name.spec_bytes(),
                first_attr_named(attrs@, input@, name_bytes@, 0) == first_attr_named(
                    attrs@,
                    input@,
                    name_bytes@,
                    i as int,
                ),
            decreases attrs.len() - i,
        {
            if bytes_eq(attrs[i].name.slice(input), name_bytes) {
                let raw = attrs[i].value.slice(input);
                let decoded_value = decode_text(raw);
                return Some(utf8_lossy(cow_bytes(&decoded_value)));
            }
            i += 1;
        }
        None
    }

    /// Get text content as string: decoded where the text holds references, read as
    /// UTF-8 (invalid sequences replaced)
    pub fn text_content_str(&self, text_idx: u32) -> (r: Option<String>)
        ensures
            match r {
                Some(v) => text_idx < self.spec_index().texts@.len() && ({
                    let t = self.spec_index().texts@[text_idx as int];
                    let raw = t.span.spec_slice(self.spec_input());
                    v@ == spec_utf8_lossy(
                        if t.flags & crate::index::element::text_flags::NEEDS_ENTITY_DECODE != 0 {
                            decoded(raw)
                        } else {
                            raw
                        },
                    )
                }),
                None => text_idx >= self.spec_index().texts@.len(),
            },
    {
        match self.index.get_text(text_idx) {
            Some(text) => {
                let raw = text.span.slice(self.input.as_slice());
                if text.needs_decode() {
                    let d = decode_text(raw);
                    Some(utf8_lossy(cow_bytes(&d)))
                } else {
                    Some(utf8_lossy(raw))
                }
            },
            None => None,
        }
    }
}

/// The first attribute at or after `i` whose name in `input` is `name`, or the number
/// of attributes.
pub open spec fn first_attr_named(
    attrs: Seq<crate::index::element::IndexAttribute>,
    input: Seq<u8>,
    name: Seq<u8>,
    i: int,
) -> int
    decreases attrs.len() - i,
{
    if i < 0 || i >= attrs.len() {
        attrs.len() as int
    } else if attrs[i].name.spec_slice(input) == name {
        i
    } else {
        first_attr_named(attrs, input, name, i + 1)
    }
}

} // verus!
