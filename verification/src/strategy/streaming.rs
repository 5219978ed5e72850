//! Streaming XML Parser
//!
//! Stateful parser that processes XML in chunks with bounded memory.

use vstd::prelude::*;

use crate::sax::stream::{lemma_tok_run_step, sax_attrs_range, sax_name_end, tok_run};
use crate::xml_core::attributes::{attrs_from, attrs_model, cow_bytes, parse_attributes, Attribute};
use crate::xml_core::primitives::{bytes_eq, memchr};
use crate::xml_core::tokenizer::model::{ParseState, TokView, TokenKind};
use crate::xml_core::tokenizer::{tok_view, Token, Tokenizer};

verus! {

// =============================================================================
// Safe boundary
// =============================================================================
/// The quote state after byte `b` at position `i`: inside single quotes, inside
/// double quotes, and the position after the last `>` outside quotes.
pub open spec fn quote_step(st: (bool, bool, int), b: u8, i: int) -> (bool, bool, int) {
    let (in_single, in_double, last) = st;
    if b == 0x22 && !in_single {
        (in_single, !in_double, last)
    } else if b == 0x27 && !in_double {
        (!in_single, in_double, last)
    } else if b == 0x3E && !in_single && !in_double {
        (in_single, in_double, i + 1)
    } else {
        st
    }
}

/// The quote state after the first `n` bytes.
pub open spec fn quote_state(buf: Seq<u8>, n: int) -> (bool, bool, int)
    decreases n,
{
    if n <= 0 || n > buf.len() {
        (false, false, 0)
    } else {
        quote_step(quote_state(buf, n - 1), buf[n - 1], n - 1)
    }
}

/// The end of the last complete element: just after the last `>` that stands outside
/// quotes, or 0.
pub open spec fn safe_boundary(buf: Seq<u8>) -> int {
    quote_state(buf, buf.len() as int).2
}

proof fn lemma_quote_state_last(buf: Seq<u8>, n: int)
    requires
        0 <= n <= buf.len(),
    ensures
        0 <= quote_state(buf, n).2 <= n,
    decreases n,
{
    if n > 0 {
        lemma_quote_state_last(buf, n - 1);
    }
}

/// Where the last `>` outside quotes of the first `n` bytes stands at `k`, the quote
/// state after `k` bytes is outside quotes, with that `>` last.
proof fn lemma_quote_state_at_last(buf: Seq<u8>, n: int)
    requires
        0 <= n <= buf.len(),
        quote_state(buf, n).2 > 0,
    ensures
        ({
            let k = quote_state(buf, n).2;
            quote_state(buf, k) == (false, false, k)
        }),
    decreases n,
{
    let k = quote_state(buf, n).2;
    lemma_quote_state_last(buf, n);
    if n > 0 && quote_state(buf, n - 1).2 == k {
        lemma_quote_state_at_last(buf, n - 1);
    }
}

/// Read from position `b`, where the quote state is outside quotes with the last `>`
/// at `b`, the bytes give the same quote states, positions counted from `b`.
proof fn lemma_quote_state_shift(buf: Seq<u8>, b: int, m: int)
    requires
        0 <= b <= buf.len(),
        0 <= m <= buf.len() - b,
        quote_state(buf, b) == (false, false, b),
    ensures
        ({
            let q = quote_state(buf, b + m);
            quote_state(buf.skip(b), m) == (q.0, q.1, q.2 - b)
        }),
    decreases m,
{
    if m > 0 {
        lemma_quote_state_shift(buf, b, m - 1);
        assert(buf.skip(b)[m - 1] == buf[b + m - 1]);
    }
}

/// The bytes after the safe boundary hold no complete element: their own safe
/// boundary is 0.
pub proof fn lemma_tail_has_no_boundary(buf: Seq<u8>)
    ensures
        safe_boundary(buf.skip(safe_boundary(buf))) == 0,
{
    let n = buf.len() as int;
    let b = safe_boundary(buf);
    lemma_quote_state_last(buf, n);
    if b == 0 {
        assert(buf.skip(0) =~= buf);
    } else {
        lemma_quote_state_at_last(buf, n);
        lemma_quote_state_shift(buf, b, n - b);
        assert(buf.skip(b).len() == n - b);
    }
}

/// Find a safe boundary in the buffer (complete element): track quotes while
/// scanning for `>`; large buffers jump from `>` to `>` with `memchr`
pub fn find_safe_boundary(buf: &[u8]) -> (r: usize)
    ensures
        r == safe_boundary(buf@),
        r <= buf@.len(),
{
    let len = buf.len();
    let mut last_valid_gt: usize = 0;
    let mut in_single = false;
    let mut in_double = false;
    proof {
        lemma_quote_state_last(buf@, len as int);
    }
    if len < 1024 {
        // Single pass: scan once, track quotes, find the last valid '>'
        let mut i: usize = 0;
        while i < len
            invariant
                len == buf@.len(),
                i <= len,
                (in_single, in_double, last_valid_gt as int) == quote_state(buf@, i as int),
                last_valid_gt <= i,
            decreases len - i,
        {
            let b = buf[i];
            if b == 0x22 && !in_single {
                in_double = !in_double;
            } else if b == 0x27 && !in_double {
                in_single = !in_single;
            } else if b == 0x3E && !in_single && !in_double {
                last_valid_gt = i + 1;
            }
            i += 1;
        }
        last_valid_gt
    } else {
        // Jump to each '>' and scan only the bytes before it for quote context
        let mut pos: usize = 0;
        loop
            invariant
                len == buf@.len(),
                pos <= len,
                (in_single, in_double, last_valid_gt as int) == quote_state(buf@, pos as int),
                last_valid_gt <= pos,
            decreases len - pos,
        {
            let rest = &buf[pos..len];
            assert(rest@ =~= buf@.subrange(pos as int, len as int));
            let gt = match memchr(0x3E, rest) {
                Some(k) => {
                    assert forall|m: int| pos <= m < pos + k implies buf@[m] != 0x3E by {
                        assert(rest@[m - pos] != 0x3E);
                    }
                    pos + k
                },
                None => {
                    proof {
                        assert forall|m: int| pos <= m < len implies buf@[m] != 0x3E by {
                            assert(rest@[m - pos] != 0x3E);
                        }
                        lemma_no_gt_keeps_last(buf@, pos as int, len as int);
                    }
                    return last_valid_gt;
                },
            };
            let mut j = pos;
            while j < gt
                invariant
                    len == buf@.len(),
                    pos <= j <= gt < len,
                    buf@[gt as int] == 0x3E,
                    forall|k: int| pos <= k < gt ==> buf@[k] != 0x3E,
                    (in_single, in_double, last_valid_gt as int) == quote_state(buf@, j as int),
                    last_valid_gt <= j,
                decreases gt - j,
            {
                let b = buf[j];
                if b == 0x22 && !in_single {
                    in_double = !in_double;
                } else if b == 0x27 && !in_double {
                    in_single = !in_single;
                }
                j += 1;
            }
            pos = gt + 1;
            // Outside quotes, this '>' ends a complete element
            if !in_single && !in_double {
                last_valid_gt = gt + 1;
            }
        }
    }
}

/// Bytes without `>` change the quote flags only.
proof fn lemma_no_gt_keeps_last(buf: Seq<u8>, from: int, to: int)
    requires
        0 <= from <= to <= buf.len(),
        forall|k: int| from <= k < to ==> buf[k] != 0x3E,
    ensures
        quote_state(buf, to).2 == quote_state(buf, from).2,
    decreases to - from,
{
    if from < to {
        lemma_no_gt_keeps_last(buf, from, to - 1);
    }
}

// =============================================================================
// Events
// =============================================================================
/// Owned version of XmlEvent for storage
#[derive(Debug, Clone)]
pub enum OwnedXmlEvent {
    StartElement { name: Vec<u8>, attributes: Vec<(Vec<u8>, Vec<u8>)> },
    EndElement { name: Vec<u8> },
    EmptyElement { name: Vec<u8>, attributes: Vec<(Vec<u8>, Vec<u8>)> },
    Text(Vec<u8>),
    CData(Vec<u8>),
    Comment(Vec<u8>),
    ProcessingInstruction { target: Vec<u8>, data: Vec<u8> },
}

/// An owned event as values.
pub enum EventView {
    StartElement { name: Seq<u8>, attributes: Seq<(Seq<u8>, Seq<u8>)> },
    EndElement { name: Seq<u8> },
    EmptyElement { name: Seq<u8>, attributes: Seq<(Seq<u8>, Seq<u8>)> },
    Text(Seq<u8>),
    CData(Seq<u8>),
    Comment(Seq<u8>),
    ProcessingInstruction { target: Seq<u8>, data: Seq<u8> },
}

/// The (name, value) pairs of owned attributes.
pub open spec fn pairs_view(v: Seq<(Vec<u8>, Vec<u8>)>) -> Seq<(Seq<u8>, Seq<u8>)> {
    v.map_values(|p: (Vec<u8>, Vec<u8>)| (p.0@, p.1@))
}

impl View for OwnedXmlEvent {
    type V = EventView;

    open spec fn view(&self) -> EventView {
        match self {
            OwnedXmlEvent::StartElement { name, attributes } => EventView::StartElement {
                name: name@,
                attributes: pairs_view(attributes@),
            },
            OwnedXmlEvent::EndElement { name } => EventView::EndElement { name: name@ },
            OwnedXmlEvent::EmptyElement { name, attributes } => EventView::EmptyElement {
                name: name@,
                attributes: pairs_view(attributes@),
            },
            OwnedXmlEvent::Text(t) => EventView::Text(t@),
            OwnedXmlEvent::CData(t) => EventView::CData(t@),
            OwnedXmlEvent::Comment(t) => EventView::Comment(t@),
            OwnedXmlEvent::ProcessingInstruction { target, data } => EventView::ProcessingInstruction {
                target: target@,
                data: data@,
            },
        }
    }
}

/// The views of a list of owned events.
pub open spec fn events_view(v: Seq<OwnedXmlEvent>) -> Seq<EventView> {
    v.map_values(|e: OwnedXmlEvent| e@)
}

/// The views of a list of owned byte strings.
pub open spec fn bytes_view(v: Seq<Vec<u8>>) -> Seq<Seq<u8>> {
    v.map_values(|b: Vec<u8>| b@)
}

// =============================================================================
// Model
// =============================================================================
/// What the parser holds between tokens: the events and complete elements ready, the
/// element being captured (bytes so far, where it starts in the buffer), the depth, and
/// the depth of the target element being inside which events are kept (0: none).
pub struct SpState {
    pub events: Seq<EventView>,
    pub elements: Seq<Seq<u8>>,
    pub builder: Option<(Seq<u8>, int)>,
    pub depth: int,
    pub target_depth: int,
}

/// A tag matches the filter (every tag does without one).
pub open spec fn is_target(filter: Option<Seq<u8>>, tag: Seq<u8>) -> bool {
    match filter {
        Some(f) => tag == f,
        None => true,
    }
}

/// The attributes of the tag that token `t` of `s` spans.
pub open spec fn token_attrs(s: Seq<u8>, t: TokView) -> Seq<(Seq<u8>, Seq<u8>)> {
    if t.end <= t.start || t.end > s.len() {
        seq![]
    } else {
        let tag = s.subrange(t.start, t.end);
        let (p, e) = sax_attrs_range(tag);
        if p >= e {
            seq![]
        } else {
            attrs_from(tag.subrange(p, e), 0, false).0
        }
    }
}

/// The state after token `t` of the buffer's processable part `s`.
#[verifier::opaque]
pub open spec fn sp_step(st: SpState, s: Seq<u8>, t: TokView, filter: Option<Seq<u8>>) -> SpState {
    match t.kind {
        TokenKind::StartTag => match t.name {
            Some(n) => {
                let depth = st.depth + 1;
                let entering = is_target(filter, n) && st.target_depth == 0;
                let target_depth = if entering {
                    depth
                } else {
                    st.target_depth
                };
                let builder = if entering {
                    Some((Seq::<u8>::empty(), t.start))
                } else {
                    st.builder
                };
                let events = if target_depth > 0 {
                    st.events.push(EventView::StartElement { name: n, attributes: token_attrs(s, t) })
                } else {
                    st.events
                };
                SpState { events, builder, depth, target_depth, ..st }
            },
            None => st,
        },
        TokenKind::EndTag => match t.name {
            Some(n) => {
                let events = if st.target_depth > 0 {
                    st.events.push(EventView::EndElement { name: n })
                } else {
                    st.events
                };
                let leaving = st.depth == st.target_depth;
                let target_depth = if leaving {
                    0
                } else {
                    st.target_depth
                };
                let elements = match st.builder {
                    Some((acc, start)) => if leaving {
                        st.elements.push(acc + s.subrange(start, t.end))
                    } else {
                        st.elements
                    },
                    None => st.elements,
                };
                let builder = if leaving {
                    None
                } else {
                    st.builder
                };
                let depth = if st.depth > 0 {
                    st.depth - 1
                } else {
                    0
                };
                SpState { events, elements, builder, depth, target_depth }
            },
            None => st,
        },
        TokenKind::EmptyTag => match t.name {
            Some(n) => {
                let top = is_target(filter, n) && st.target_depth == 0;
                let elements = if top {
                    st.elements.push(s.subrange(t.start, t.end))
                } else {
                    st.elements
                };
                let events = if st.target_depth > 0 || top {
                    st.events.push(EventView::EmptyElement { name: n, attributes: token_attrs(s, t) })
                } else {
                    st.events
                };
                SpState { events, elements, ..st }
            },
            None => st,
        },
        TokenKind::Text => match t.content {
            Some(c) => if st.target_depth > 0 && c.len() > 0 {
                SpState { events: st.events.push(EventView::Text(c)), ..st }
            } else {
                st
            },
            None => st,
        },
        TokenKind::CData => match t.content {
            Some(c) => if st.target_depth > 0 {
                SpState { events: st.events.push(EventView::CData(c)), ..st }
            } else {
                st
            },
            None => st,
        },
        TokenKind::Comment => match t.content {
            Some(c) => if st.target_depth > 0 {
                SpState { events: st.events.push(EventView::Comment(c)), ..st }
            } else {
                st
            },
            None => st,
        },
        _ => st,
    }
}

/// The state after a list of tokens.
pub open spec fn sp_run(st: SpState, s: Seq<u8>, toks: Seq<TokView>, filter: Option<Seq<u8>>) -> SpState
    decreases toks.len(),
{
    if toks.len() == 0 {
        st
    } else {
        sp_step(sp_run(st, s, toks.drop_last(), filter), s, toks.last(), filter)
    }
}

/// The state after a whole feed: the complete elements of the buffer are processed,
/// the element being captured keeps what was processed of it, and the processed bytes
/// leave the buffer.
pub open spec fn sp_feed(st: SpState, buffer: Seq<u8>, filter: Option<Seq<u8>>) -> (SpState, Seq<u8>) {
    let b = safe_boundary(buffer);
    if b == 0 {
        (st, buffer)
    } else {
        let s = buffer.take(b);
        let r = sp_run(st, s, tok_run(s, 0, ParseState::Init), filter);
        let builder = match r.builder {
            Some((acc, start)) => Some((acc + buffer.subrange(start, b), 0int)),
            None => None,
        };
        (SpState { builder, ..r }, buffer.skip(b))
    }
}

/// The safe boundary lies within the buffer.
pub proof fn lemma_boundary_in_range(buf: Seq<u8>)
    ensures
        0 <= safe_boundary(buf) <= buf.len(),
{
    lemma_quote_state_last(buf, buf.len() as int);
}

/// Law: after a feed, the buffer that the parser keeps holds no complete element;
/// every element is processed by the feed whose chunk completes it.
pub proof fn law_feed_leaves_no_complete_element(
    st: SpState,
    buffer: Seq<u8>,
    filter: Option<Seq<u8>>,
)
    ensures
        safe_boundary(sp_feed(st, buffer, filter).1) == 0,
{
    lemma_tail_has_no_boundary(buffer);
}

/// Law: a feed loses no byte: the part it processes, followed by the buffer it keeps,
/// is the buffer it was given.
pub proof fn law_feed_keeps_every_byte(st: SpState, buffer: Seq<u8>, filter: Option<Seq<u8>>)
    ensures
        buffer.take(safe_boundary(buffer)) + sp_feed(st, buffer, filter).1 == buffer,
{
    lemma_quote_state_last(buffer, buffer.len() as int);
    assert(buffer.take(safe_boundary(buffer)) + buffer.skip(safe_boundary(buffer)) =~= buffer);
    assert(buffer.take(0) + buffer =~= buffer);
}

/// Law: a chunk that completes no element is held back whole: feeding it and then
/// the next chunk ends in the same state and buffer as feeding both at once.
pub proof fn law_feed_incomplete_chunk(
    st: SpState,
    buffer: Seq<u8>,
    c1: Seq<u8>,
    c2: Seq<u8>,
    filter: Option<Seq<u8>>,
)
    requires
        safe_boundary(buffer + c1) == 0,
    ensures
        ({
            let first = sp_feed(st, buffer + c1, filter);
            sp_feed(first.0, first.1 + c2, filter) == sp_feed(st, buffer + (c1 + c2), filter)
        }),
{
    assert((buffer + c1) + c2 =~= buffer + (c1 + c2));
}

/// The text events of the tokens of a final, incomplete buffer.
pub open spec fn final_texts(toks: Seq<TokView>) -> Seq<EventView>
    decreases toks.len(),
{
    if toks.len() == 0 {
        seq![]
    } else {
        let prev = final_texts(toks.drop_last());
        let t = toks.last();
        if t.kind == TokenKind::Text && t.content is Some && t.content->0.len() > 0 {
            prev.push(EventView::Text(t.content->0))
        } else {
            prev
        }
    }
}

// =============================================================================
// Parser
// =============================================================================
/// Stateful streaming XML parser
pub struct StreamingParser {
    /// Accumulated buffer for incomplete input
    buffer: Vec<u8>,
    /// Parsed events ready to be consumed
    events: Vec<OwnedXmlEvent>,
    /// Complete elements ready to be consumed (faster path - no event rebuild)
    complete_elements: Vec<Vec<u8>>,
    /// Builder for the element being captured: the bytes from earlier chunks and where
    /// it starts in the buffer
    element_builder: Option<(Vec<u8>, usize)>,
    /// Current depth in element tree
    depth: usize,
    /// Tag filter (only emit events for matching tags)
    tag_filter: Option<Vec<u8>>,
    /// Depth when we entered a target element (0 = not inside target)
    inside_target_depth: usize,
}

impl StreamingParser {
    /// The parser's state as values.
    pub closed spec fn spec_state(&self) -> SpState {
        SpState {
            events: events_view(self.events@),
            elements: bytes_view(self.complete_elements@),
            builder: match self.element_builder {
                Some((acc, start)) => Some((acc@, start as int)),
                None => None,
            },
            depth: self.depth as int,
            target_depth: self.inside_target_depth as int,
        }
    }

    /// The unprocessed input.
    pub closed spec fn spec_buffer(&self) -> Seq<u8> {
        self.buffer@
    }

    /// The tag filter.
    pub closed spec fn spec_filter(&self) -> Option<Seq<u8>> {
        match self.tag_filter {
            Some(f) => Some(f@),
            None => None,
        }
    }

    /// Between feeds, the element being captured starts at the buffer's start.
    pub closed spec fn wf(&self) -> bool {
        self.element_builder matches Some((_, start)) ==> start == 0
    }

    /// Create a new streaming parser
    pub fn new() -> (r: Self)
        ensures
            r.wf(),
            r.spec_buffer() == Seq::<u8>::empty(),
            r.spec_filter() is None,
            r.spec_state() == (SpState {
                events: seq![],
                elements: seq![],
                builder: None,
                depth: 0,
                target_depth: 0,
            }),
    {
        let r = StreamingParser {
            buffer: Vec::with_capacity(8192),
            events: Vec::with_capacity(64),
            complete_elements: Vec::with_capacity(16),
            element_builder: None,
            depth: 0,
            tag_filter: None,
            inside_target_depth: 0,
        };
        assert(r.spec_state().events =~= Seq::<EventView>::empty());
        assert(r.spec_state().elements =~= Seq::<Seq<u8>>::empty());
        r
    }

    /// Create a new streaming parser with a tag filter
    pub fn with_filter(tag: &[u8]) -> (r: Self)
        ensures
            r.wf(),
            r.spec_buffer() == Seq::<u8>::empty(),
            r.spec_filter() == Some(tag@),
            r.spec_state() == (SpState {
                events: seq![],
                elements: seq![],
                builder: None,
                depth: 0,
                target_depth: 0,
            }),
    {
        let r = StreamingParser {
            buffer: Vec::with_capacity(8192),
            events: Vec::with_capacity(64),
            complete_elements: Vec::with_capacity(16),
            element_builder: None,
            depth: 0,
            tag_filter: Some(vstd::slice::slice_to_vec(tag)),
            inside_target_depth: 0,
        };
        assert(r.spec_state().events =~= Seq::<EventView>::empty());
        assert(r.spec_state().elements =~= Seq::<Seq<u8>>::empty());
        r
    }

    /// Check if this is a target tag we're looking for
    fn is_target_tag(&self, tag: &[u8]) -> (r: bool)
        ensures
            r == is_target(self.spec_filter(), tag@),
    {
        match &self.tag_filter {
            Some(filter) => bytes_eq(tag, filter.as_slice()),
            None => true,
        }
    }

    /// Get number of available events
    pub fn available_events(&self) -> (r: usize)
        ensures
            r == self.spec_state().events.len(),
    {
        self.events.len()
    }

    /// Get number of available complete elements
    pub fn available_elements(&self) -> (r: usize)
        ensures
            r == self.spec_state().elements.len(),
    {
        self.complete_elements.len()
    }

    /// Get buffer size
    pub fn buffer_size(&self) -> (r: usize)
        ensures
            r == self.spec_buffer().len(),
    {
        self.buffer.len()
    }

    /// Check if there's unprocessed data
    pub fn has_pending(&self) -> (r: bool)
        ensures
            r == (self.spec_buffer().len() > 0),
    {
        self.buffer.len() > 0
    }
}

impl StreamingParser {
    /// Extract attributes of the tag at `span` of `input`
    fn extract_attributes(input: &[u8], span: (usize, usize)) -> (r: Vec<(Vec<u8>, Vec<u8>)>)
        ensures
            pairs_view(r@) == token_attrs(
                input@,
                TokView {
                    kind: TokenKind::StartTag,
                    start: span.0 as int,
                    end: span.1 as int,
                    name: None,
                    content: None,
                },
            ),
    {
        let (start, end) = span;
        if end <= start || end > input.len() {
            return Vec::new();
        }
        let tag = &input[start..end];
        let n = tag.len();
        let mut pos: usize = if n > 1 && (tag[1] == 0x2F || tag[1] == 0x3F) {
            2
        } else {
            1
        };
        let ghost p0 = pos as int;
        while pos < n && !(tag[pos] == 0x20 || tag[pos] == 0x09 || tag[pos] == 0x0A || tag[pos]
            == 0x0D || tag[pos] == 0x3E || tag[pos] == 0x2F)
            invariant
                n == tag@.len(),
                p0 <= pos,
                pos <= n || pos == p0,
                sax_name_end(tag@, pos as int) == sax_name_end(tag@, p0),
            decreases n - pos,
        {
            pos += 1;
        }
        let mut attr_end = n;
        if n >= 2 && (tag[n - 2] == 0x2F || tag[n - 2] == 0x3F) && tag[n - 1] == 0x3E {
            attr_end = n - 2;
        } else if n >= 1 && tag[n - 1] == 0x3E {
            attr_end = n - 1;
        }
        assert((pos as int, attr_end as int) == sax_attrs_range(tag@));
        if pos >= attr_end {
            return Vec::new();
        }
        let content = &tag[pos..attr_end];
        assert(content@ =~= tag@.subrange(pos as int, attr_end as int));
        let attrs = parse_attributes(content);
        let ghost model = attrs_model(attrs@);
        let mut out: Vec<(Vec<u8>, Vec<u8>)> = Vec::new();
        let mut i: usize = 0;
        while i < attrs.len()
            invariant
                i <= attrs@.len(),
                model == attrs_model(attrs@),
                pairs_view(out@) == model.take(i as int),
            decreases attrs.len() - i,
        {
            let name = vstd::slice::slice_to_vec(cow_bytes(&attrs[i].name));
            let value = vstd::slice::slice_to_vec(cow_bytes(&attrs[i].value));
            let ghost before = out@;
            out.push((name, value));
            assert(pairs_view(out@) =~= pairs_view(before).push((name@, value@)));
            assert(model.take(i + 1) =~= model.take(i as int).push(model[i as int]));
            i += 1;
        }
        assert(model.take(attrs@.len() as int) =~= model);
        out
    }

    /// The state after one token of the processable part `s`.
    fn apply_token(&mut self, s: &[u8], token: Token<'_>)
        requires
            0 <= token.span.0 <= token.span.1 <= s@.len(),
            old(self).depth < usize::MAX,
            old(self).element_builder matches Some((_, start)) ==> start <= token.span.1,
        ensures
            final(self).spec_state() == sp_step(old(self).spec_state(), s@, tok_view(token), old(self).spec_filter()),
            final(self).buffer == old(self).buffer,
            final(self).tag_filter == old(self).tag_filter,
            final(self).element_builder matches Some((_, start)) ==> start <= token.span.1,
            final(self).depth <= old(self).depth + 1,
    {
        let ghost st = self.spec_state();
        let ghost t = tok_view(token);
        proof {
            reveal(sp_step);
        }
        match token.kind {
            TokenKind::StartTag => {
                if let Some(name) = token.name {
                    let name_bytes = vstd::slice::slice_to_vec(cow_bytes(&name));
                    self.depth += 1;
                    // Entering a target element: capture it from the token's start
                    let entering = self.is_target_tag(name_bytes.as_slice()) && self.inside_target_depth == 0;
                    if entering {
                        self.inside_target_depth = self.depth;
                        self.element_builder = Some((Vec::new(), token.span.0));
                    }
                    if self.inside_target_depth > 0 {
                        let attrs = Self::extract_attributes(s, token.span);
                        let ghost before = self.events@;
                        self.events.push(OwnedXmlEvent::StartElement { name: name_bytes, attributes: attrs });
                        assert(events_view(self.events@) =~= events_view(before).push(self.events@.last()@));
                    }
                }
            },
            TokenKind::EndTag => {
                if let Some(name) = token.name {
                    let name_bytes = vstd::slice::slice_to_vec(cow_bytes(&name));
                    if self.inside_target_depth > 0 {
                        let ghost before = self.events@;
                        self.events.push(OwnedXmlEvent::EndElement { name: name_bytes });
                        assert(events_view(self.events@) =~= events_view(before).push(self.events@.last()@));
                    }
                    // Leaving the target element completes it
                    if self.depth == self.inside_target_depth {
                        self.inside_target_depth = 0;
                        let builder = self.element_builder.take();
                        if let Some((accumulated, start)) = builder {
                            let mut element = accumulated;
                            let ghost acc = element@;
                            let part = &s[start..token.span.1];
                            assert(part@ =~= s@.subrange(start as int, token.span.1 as int));
                            let mut k: usize = 0;
                            while k < part.len()
                                invariant
                                    k <= part@.len(),
                                    element@ == acc + part@.take(k as int),
                                decreases part.len() - k,
                            {
                                element.push(part[k]);
                                k += 1;
                                assert(element@ =~= acc + part@.take(k as int));
                            }
                            assert(part@.take(part@.len() as int) =~= part@);
                            let ghost before = self.complete_elements@;
                            self.complete_elements.push(element);
                            assert(bytes_view(self.complete_elements@) =~= bytes_view(before).push(acc + part@));
                        }
                    }
                    self.depth = self.depth.saturating_sub(1);
                }
            },
            TokenKind::EmptyTag => {
                if let Some(name) = token.name {
                    let name_bytes = vstd::slice::slice_to_vec(cow_bytes(&name));
                    let top = self.is_target_tag(name_bytes.as_slice()) && self.inside_target_depth == 0;
                    // A target empty element is complete as it stands
                    if top {
                        let whole = vstd::slice::slice_to_vec(&s[token.span.0..token.span.1]);
                        assert(whole@ =~= s@.subrange(token.span.0 as int, token.span.1 as int));
                        let ghost before = self.complete_elements@;
                        self.complete_elements.push(whole);
                        assert(bytes_view(self.complete_elements@) =~= bytes_view(before).push(whole@));
                    }
                    if self.inside_target_depth > 0 || top {
                        let attrs = Self::extract_attributes(s, token.span);
                        let ghost before = self.events@;
                        self.events.push(OwnedXmlEvent::EmptyElement { name: name_bytes, attributes: attrs });
                        assert(events_view(self.events@) =~= events_view(before).push(self.events@.last()@));
                    }
                }
            },
            TokenKind::Text => {
                if self.inside_target_depth > 0 {
                    if let Some(content) = token.content {
                        let bytes = vstd::slice::slice_to_vec(cow_bytes(&content));
                        // Preserve all text including whitespace-only for XML compliance
                        if bytes.len() > 0 {
                            let ghost before = self.events@;
                            self.events.push(OwnedXmlEvent::Text(bytes));
                            assert(events_view(self.events@) =~= events_view(before).push(self.events@.last()@));
                        }
                    }
                }
            },
            TokenKind::CData => {
                if self.inside_target_depth > 0 {
                    if let Some(content) = token.content {
                        let ghost before = self.events@;
                        self.events.push(OwnedXmlEvent::CData(vstd::slice::slice_to_vec(cow_bytes(&content))));
                        assert(events_view(self.events@) =~= events_view(before).push(self.events@.last()@));
                    }
                }
            },
            TokenKind::Comment => {
                if self.inside_target_depth > 0 {
                    if let Some(content) = token.content {
                        let ghost before = self.events@;
                        self.events.push(OwnedXmlEvent::Comment(vstd::slice::slice_to_vec(cow_bytes(&content))));
                        assert(events_view(self.events@) =~= events_view(before).push(self.events@.last()@));
                    }
                }
            },
            _ => {},
        }
    }
}

/// A token of a lenient step lies within the input and ends where the step stops.
proof fn lemma_token_span(s: Seq<u8>, pos: int, st: ParseState)
    requires
        0 <= pos <= s.len(),
    ensures
        ({
            let step = crate::xml_core::tokenizer::model::next_tok(s, pos, st, false);
            (step.token is Some && step.token->0.kind != TokenKind::Eof) ==> 0 <= step.token->0.start
                <= step.token->0.end && step.token->0.end == step.pos && pos < step.pos <= s.len()
        }),
{
    crate::xml_core::tokenizer::model::lemma_next_tok_shape(s, pos, st, false);
}

impl StreamingParser {
    /// Process the complete elements `s` (the start of the buffer), token by token
    #[verifier::rlimit(50)]
    fn process_slice(&mut self, s: &[u8])
        requires
            old(self).depth + s@.len() <= usize::MAX,
            old(self).element_builder matches Some((_, start)) ==> start == 0,
        ensures
            final(self).spec_state() == sp_run(
                old(self).spec_state(),
                s@,
                tok_run(s@, 0, ParseState::Init),
                old(self).spec_filter(),
            ),
            final(self).buffer == old(self).buffer,
            final(self).tag_filter == old(self).tag_filter,
            final(self).element_builder matches Some((_, start)) ==> start <= s@.len(),
    {
        let ghost all = tok_run(s@, 0, ParseState::Init);
        let ghost st0 = self.spec_state();
        let ghost filter = self.spec_filter();
        let ghost mut done: Seq<TokView> = seq![];
        let mut tokenizer = Tokenizer::new(s);
        loop
            invariant
                tokenizer.wf(),
                tokenizer.spec_input() == s@,
                !tokenizer.spec_strict(),
                all == tok_run(s@, 0, ParseState::Init),
                all == done + tok_run(s@, tokenizer.spec_pos(), tokenizer.spec_state()),
                self.spec_state() == sp_run(st0, s@, done, filter),
                self.spec_filter() == filter,
                st0 == old(self).spec_state(),
                filter == old(self).spec_filter(),
                self.buffer == old(self).buffer,
                self.tag_filter == old(self).tag_filter,
                self.depth <= old(self).depth + tokenizer.spec_pos(),
                old(self).depth + s@.len() <= usize::MAX,
                self.element_builder matches Some((_, start)) ==> start <= tokenizer.spec_pos(),
            decreases (s@.len() - tokenizer.spec_pos()) * 2 + (if tokenizer.spec_state()
                == ParseState::Done {
                0int
            } else {
                1int
            }),
        {
            let ghost p0 = tokenizer.spec_pos();
            let ghost ps0 = tokenizer.spec_state();
            proof {
                tokenizer.lemma_pos_in_input();
                lemma_tok_run_step(s@, p0, ps0);
                lemma_token_span(s@, p0, ps0);
            }
            let token = match tokenizer.next_token() {
                Some(t) => t,
                None => {
                    assert(done =~= all);
                    return;
                },
            };
            let ghost t = tok_view(token);
            if token.kind == TokenKind::Eof {
                assert(done =~= all);
                return;
            }
            self.apply_token(s, token);
            proof {
                assert((done + seq![t]).drop_last() =~= done);
                assert(all == (done + seq![t]) + tok_run(s@, tokenizer.spec_pos(), tokenizer.spec_state()));
                done = done + seq![t];
            }
        }
    }

    /// Feed a chunk of data to the parser: the complete elements of the buffer are
    /// processed and leave it
    pub fn feed(&mut self, chunk: &[u8])
        requires
            old(self).wf(),
            old(self).spec_state().depth + old(self).spec_buffer().len() + chunk@.len()
                <= usize::MAX,
        ensures
            final(self).wf(),
            final(self).spec_filter() == old(self).spec_filter(),
            (final(self).spec_state(), final(self).spec_buffer()) == sp_feed(
                old(self).spec_state(),
                old(self).spec_buffer() + chunk@,
                old(self).spec_filter(),
            ),
    {
        let mut i: usize = 0;
        let ghost b0 = self.buffer@;
        while i < chunk.len()
            invariant
                i <= chunk@.len(),
                self.buffer@ == b0 + chunk@.take(i as int),
                self.events == old(self).events,
                self.complete_elements == old(self).complete_elements,
                self.element_builder == old(self).element_builder,
                self.depth == old(self).depth,
                self.tag_filter == old(self).tag_filter,
                self.inside_target_depth == old(self).inside_target_depth,
                b0 == old(self).buffer@,
            decreases chunk.len() - i,
        {
            self.buffer.push(chunk[i]);
            i += 1;
            assert(self.buffer@ =~= b0 + chunk@.take(i as int));
        }
        assert(chunk@.take(chunk@.len() as int) =~= chunk@);
        self.process_buffer();
    }

    /// Process the buffer to extract complete events
    fn process_buffer(&mut self)
        requires
            old(self).wf(),
            old(self).spec_state().depth + old(self).spec_buffer().len() <= usize::MAX,
        ensures
            final(self).wf(),
            final(self).spec_filter() == old(self).spec_filter(),
            (final(self).spec_state(), final(self).spec_buffer()) == sp_feed(
                old(self).spec_state(),
                old(self).spec_buffer(),
                old(self).spec_filter(),
            ),
    {
        // Find the last complete element boundary
        let boundary = find_safe_boundary(self.buffer.as_slice());
        if boundary == 0 {
            return;
        }
        let mut buffer: Vec<u8> = Vec::new();
        std::mem::swap(&mut buffer, &mut self.buffer);
        let processable = &buffer.as_slice()[0..boundary];
        assert(processable@ =~= buffer@.take(boundary as int));
        self.process_slice(processable);
        // The element being captured keeps what was processed of it
        let builder = self.element_builder.take();
        if let Some((accumulated, start)) = builder {
            let mut acc = accumulated;
            let ghost acc0 = acc@;
            let mut k = start;
            while k < boundary
                invariant
                    start <= k <= boundary <= buffer@.len(),
                    acc@ == acc0 + buffer@.subrange(start as int, k as int),
                decreases boundary - k,
            {
                acc.push(buffer[k]);
                k += 1;
                assert(acc@ =~= acc0 + buffer@.subrange(start as int, k as int));
            }
            self.element_builder = Some((acc, 0));
        }
        // Remove the processed bytes
        let rest = vstd::slice::slice_to_vec(&buffer.as_slice()[boundary..buffer.len()]);
        assert(rest@ =~= buffer@.skip(boundary as int));
        self.buffer = rest;
    }
}

impl StreamingParser {
    /// Take up to `max` parsed events, oldest first; the others stay
    pub fn take_events(&mut self, max: usize) -> (r: Vec<OwnedXmlEvent>)
        requires
            old(self).wf(),
        ensures
            final(self).wf(),
            ({
                let ev = old(self).spec_state().events;
                let count = if max < ev.len() {
                    max as int
                } else {
                    ev.len() as int
                };
                &&& events_view(r@) == ev.take(count)
                &&& final(self).spec_state() == (SpState { events: ev.skip(count), ..old(self).spec_state() })
            }),
            final(self).spec_buffer() == old(self).spec_buffer(),
            final(self).spec_filter() == old(self).spec_filter(),
    {
        let count = if max < self.events.len() {
            max
        } else {
            self.events.len()
        };
        let ghost ev = self.events@;
        let mut taken = self.events.split_off(count);
        std::mem::swap(&mut taken, &mut self.events);
        assert(events_view(taken@) =~= events_view(ev).take(count as int));
        assert(events_view(self.events@) =~= events_view(ev).skip(count as int));
        taken
    }

    /// Take up to `max` complete elements, oldest first; the others stay
    pub fn take_elements(&mut self, max: usize) -> (r: Vec<Vec<u8>>)
        requires
            old(self).wf(),
        ensures
            final(self).wf(),
            ({
                let els = old(self).spec_state().elements;
                let count = if max < els.len() {
                    max as int
                } else {
                    els.len() as int
                };
                &&& bytes_view(r@) == els.take(count)
                &&& final(self).spec_state() == (SpState { elements: els.skip(count), ..old(self).spec_state() })
            }),
            final(self).spec_buffer() == old(self).spec_buffer(),
            final(self).spec_filter() == old(self).spec_filter(),
    {
        let count = if max < self.complete_elements.len() {
            max
        } else {
            self.complete_elements.len()
        };
        let ghost els = self.complete_elements@;
        let mut taken = self.complete_elements.split_off(count);
        std::mem::swap(&mut taken, &mut self.complete_elements);
        assert(bytes_view(taken@) =~= bytes_view(els).take(count as int));
        assert(bytes_view(self.complete_elements@) =~= bytes_view(els).skip(count as int));
        taken
    }

    /// Finalize parsing: the text of what remains in the buffer is added, and all
    /// events are taken
    #[verifier::rlimit(50)]
    pub fn finalize(&mut self) -> (r: Vec<OwnedXmlEvent>)
        requires
            old(self).wf(),
        ensures
            final(self).wf(),
            events_view(r@) == old(self).spec_state().events + final_texts(
                tok_run(old(self).spec_buffer(), 0, ParseState::Init),
            ),
            final(self).spec_state() == (SpState { events: seq![], ..old(self).spec_state() }),
            final(self).spec_buffer() == Seq::<u8>::empty(),
            final(self).spec_filter() == old(self).spec_filter(),
    {
        let mut remaining: Vec<u8> = Vec::new();
        std::mem::swap(&mut remaining, &mut self.buffer);
        let ghost s = remaining@;
        let ghost all = tok_run(s, 0, ParseState::Init);
        let ghost ev0 = events_view(self.events@);
        let ghost mut done: Seq<TokView> = seq![];
        if remaining.len() > 0 {
            let mut tokenizer = Tokenizer::new(remaining.as_slice());
            loop
                invariant_except_break
                    all == done + tok_run(s, tokenizer.spec_pos(), tokenizer.spec_state()),
                invariant
                    tokenizer.wf(),
                    tokenizer.spec_input() == s,
                    !tokenizer.spec_strict(),
                    s == remaining@,
                    all == tok_run(s, 0, ParseState::Init),
                    events_view(self.events@) == ev0 + final_texts(done),
                    ev0 == events_view(old(self).events@),
                    self.complete_elements == old(self).complete_elements,
                    self.element_builder == old(self).element_builder,
                    self.depth == old(self).depth,
                    self.tag_filter == old(self).tag_filter,
                    self.inside_target_depth == old(self).inside_target_depth,
                    self.buffer@ == Seq::<u8>::empty(),
                ensures
                    done == all,
                decreases (s.len() - tokenizer.spec_pos()) * 2 + (if tokenizer.spec_state()
                    == ParseState::Done {
                    0int
                } else {
                    1int
                }),
            {
                let ghost p0 = tokenizer.spec_pos();
                let ghost ps0 = tokenizer.spec_state();
                proof {
                    tokenizer.lemma_pos_in_input();
                    lemma_tok_run_step(s, p0, ps0);
                }
                let token = match tokenizer.next_token() {
                    Some(t) => t,
                    None => {
                        assert(done =~= all);
                        break;
                    },
                };
                let ghost t = tok_view(token);
                if token.kind == TokenKind::Eof {
                    assert(done =~= all);
                    break;
                }
                if token.kind == TokenKind::Text {
                    if let Some(content) = token.content {
                        let bytes = vstd::slice::slice_to_vec(cow_bytes(&content));
                        // Preserve all text including whitespace-only for XML compliance
                        if bytes.len() > 0 {
                            let ghost before = self.events@;
                            self.events.push(OwnedXmlEvent::Text(bytes));
                            assert(events_view(self.events@) =~= events_view(before).push(
                                self.events@.last()@,
                            ));
                        }
                    }
                }
                proof {
                    assert((done + seq![t]).drop_last() =~= done);
                    assert(all == (done + seq![t]) + tok_run(
                        s,
                        tokenizer.spec_pos(),
                        tokenizer.spec_state(),
                    ));
                    done = done + seq![t];
                }
            }
        } else {
            proof {
                lemma_tok_run_step(s, 0, ParseState::Init);
                crate::xml_core::tokenizer::model::lemma_next_tok_shape(s, 0, ParseState::Init, false);
            }
            assert(ev0 + final_texts(all) =~= ev0);
        }
        let mut out: Vec<OwnedXmlEvent> = Vec::new();
        std::mem::swap(&mut out, &mut self.events);
        assert(events_view(self.events@) =~= Seq::<EventView>::empty());
        out
    }
}

impl Default for StreamingParser {
    fn default() -> (r: Self)
        ensures
            r.wf(),
            r.spec_buffer() == Seq::<u8>::empty(),
            r.spec_filter() is None,
            r.spec_state() == (SpState {
                events: seq![],
                elements: seq![],
                builder: None,
                depth: 0,
                target_depth: 0,
            }),
    {
        Self::new()
    }
}

} // verus!




