//! SAX Collector
//!
//! Implements ScanHandler to collect SAX events for batch return to Elixir.
//! What the collector records for a stream of scan events is stated by
//! `compact_of`.

use vstd::prelude::*;

use super::events::{CompactSaxEvent, SaxEvent};
use crate::index::Span;
use crate::xml_core::unified_scanner::{scan_from, ScanEvent, ScanHandler, UnifiedScanner};

verus! {

/// An attribute as `(name_offset, name_len, value_offset, value_len)`.
pub type AttrQuad = (u32, u32, u32, u32);

/// Compact SAX result: events + flat attribute quads `(name_off, name_len, val_off, val_len)`.
pub type CompactSaxResult = (Vec<CompactSaxEvent>, Vec<(u32, u32, u32, u32)>);

/// The attribute quads of the (name, value) spans of a start tag.
pub open spec fn attr_quads(attrs: Seq<(Span, Span)>) -> Seq<AttrQuad> {
    attrs.map_values(
        |p: (Span, Span)| (p.0.offset, p.0.len as u32, p.1.offset, p.1.len as u32),
    )
}

/// The compact events and attribute quads that a stream of scan events leaves in a
/// new collector: an empty element gives a start and an end event, a DOCTYPE
/// nothing.
pub open spec fn compact_of(events: Seq<ScanEvent>) -> (Seq<CompactSaxEvent>, Seq<AttrQuad>)
    decreases events.len(),
{
    if events.len() == 0 {
        (seq![], seq![])
    } else {
        let (evs, attrs) = compact_of(events.drop_last());
        match events.last() {
            ScanEvent::StartElement { name, attrs: a, is_empty } => {
                let start = CompactSaxEvent {
                    tag: CompactSaxEvent::TAG_START_ELEMENT,
                    flags: 0,
                    offset: name.offset,
                    len: name.len as u32,
                    secondary: a.len() as u32,
                    tertiary: attrs.len() as u32,
                };
                let end = CompactSaxEvent {
                    tag: CompactSaxEvent::TAG_END_ELEMENT,
                    flags: 0,
                    offset: name.offset,
                    len: name.len as u32,
                    secondary: 0,
                    tertiary: 0,
                };
                (
                    if is_empty {
                        evs.push(start).push(end)
                    } else {
                        evs.push(start)
                    },
                    attrs + attr_quads(a),
                )
            },
            ScanEvent::EndElement { name } => (
                evs.push(
                    CompactSaxEvent {
                        tag: CompactSaxEvent::TAG_END_ELEMENT,
                        flags: 0,
                        offset: name.offset,
                        len: name.len as u32,
                        secondary: 0,
                        tertiary: 0,
                    },
                ),
                attrs,
            ),
            ScanEvent::Text { span, needs_decode } => (
                evs.push(
                    CompactSaxEvent {
                        tag: CompactSaxEvent::TAG_TEXT,
                        flags: if needs_decode {
                            CompactSaxEvent::FLAG_NEEDS_DECODE
                        } else {
                            0
                        },
                        offset: span.offset,
                        len: span.len as u32,
                        secondary: 0,
                        tertiary: 0,
                    },
                ),
                attrs,
            ),
            ScanEvent::CData { span } => (
                evs.push(
                    CompactSaxEvent {
                        tag: CompactSaxEvent::TAG_CDATA,
                        flags: 0,
                        offset: span.offset,
                        len: span.len as u32,
                        secondary: 0,
                        tertiary: 0,
                    },
                ),
                attrs,
            ),
            ScanEvent::Comment { span } => (
                evs.push(
                    CompactSaxEvent {
                        tag: CompactSaxEvent::TAG_COMMENT,
                        flags: 0,
                        offset: span.offset,
                        len: span.len as u32,
                        secondary: 0,
                        tertiary: 0,
                    },
                ),
                attrs,
            ),
            ScanEvent::ProcessingInstruction { target, data } => (
                evs.push(
                    CompactSaxEvent {
                        tag: CompactSaxEvent::TAG_PI,
                        flags: 0,
                        offset: target.offset,
                        len: target.len as u32,
                        secondary: match data {
                            Some(d) => d.offset,
                            None => 0,
                        },
                        tertiary: match data {
                            Some(d) => d.len as u32,
                            None => 0,
                        },
                    },
                ),
                attrs,
            ),
            ScanEvent::Doctype { .. } => (evs, attrs),
        }
    }
}

/// A length capped at `u16::MAX`.
pub open spec fn cap16(n: u32) -> u16 {
    if n <= 0xFFFF {
        n as u16
    } else {
        0xFFFFu16
    }
}

/// The span of an attribute quad's name and value.
pub open spec fn quad_spans(q: AttrQuad) -> (Span, Span) {
    (Span { offset: q.0, len: cap16(q.1) }, Span { offset: q.2, len: cap16(q.3) })
}

/// The attributes that a start event refers to: its range of the attribute list,
/// or none when the range does not lie within it.
pub open spec fn event_attrs(e: CompactSaxEvent, attrs: Seq<AttrQuad>) -> Seq<(Span, Span)> {
    let start = e.tertiary as int;
    let end = start + e.secondary;
    if end <= attrs.len() {
        attrs.subrange(start, end).map_values(|q: AttrQuad| quad_spans(q))
    } else {
        seq![]
    }
}

/// Whether `s` is the rich event for the compact event `e`.
pub open spec fn sax_matches(s: SaxEvent, e: CompactSaxEvent, attrs: Seq<AttrQuad>) -> bool {
    let span = Span { offset: e.offset, len: cap16(e.len) };
    if e.tag == CompactSaxEvent::TAG_START_ELEMENT {
        s matches SaxEvent::StartElement { name, attributes } && name == span && attributes@
            == event_attrs(e, attrs)
    } else if e.tag == CompactSaxEvent::TAG_END_ELEMENT {
        s == SaxEvent::EndElement { name: span }
    } else if e.tag == CompactSaxEvent::TAG_TEXT {
        s == SaxEvent::Text {
            span,
            needs_decode: e.flags & CompactSaxEvent::FLAG_NEEDS_DECODE != 0,
        }
    } else if e.tag == CompactSaxEvent::TAG_CDATA {
        s == SaxEvent::CData { span }
    } else if e.tag == CompactSaxEvent::TAG_COMMENT {
        s == SaxEvent::Comment { span }
    } else if e.tag == CompactSaxEvent::TAG_PI {
        s == SaxEvent::ProcessingInstruction {
            target: span,
            data: if e.tertiary > 0 {
                Some(Span { offset: e.secondary, len: cap16(e.tertiary) })
            } else {
                None
            },
        }
    } else {
        s == SaxEvent::Text { span: Span { offset: 0, len: 0 }, needs_decode: false }
    }
}

/// Collector that gathers SAX events during scanning
///
/// Uses compact event storage for memory efficiency.
pub struct SaxCollector {
    /// Collected events
    events: Vec<CompactSaxEvent>,
    /// Attribute storage: (name_offset, name_len, value_offset, value_len)
    attributes: Vec<(u32, u32, u32, u32)>,
    /// The scan events received so far
    log: Ghost<Seq<ScanEvent>>,
}

impl SaxCollector {
    /// The collected events.
    pub closed spec fn spec_events(&self) -> Seq<CompactSaxEvent> {
        self.events@
    }

    /// The collected attribute quads.
    pub closed spec fn spec_attributes(&self) -> Seq<AttrQuad> {
        self.attributes@
    }

    /// The collector holds what its scan events determine.
    pub closed spec fn wf(&self) -> bool {
        &&& self.events@ == compact_of(self.log@).0
        &&& self.attributes@ == compact_of(self.log@).1
    }

    /// Create a new collector
    pub fn new() -> (r: Self)
        ensures
            r.wf(),
            r.scan_events() == Seq::<ScanEvent>::empty(),
    {
        let r = Self {
            events: Vec::with_capacity(256),
            attributes: Vec::with_capacity(128),
            log: Ghost(Seq::empty()),
        };
        assert(r.events@ =~= compact_of(r.log@).0);
        assert(r.attributes@ =~= compact_of(r.log@).1);
        r
    }

    /// Create with estimated capacity
    pub fn with_capacity(events: usize, attrs: usize) -> (r: Self)
        ensures
            r.wf(),
            r.scan_events() == Seq::<ScanEvent>::empty(),
    {
        let r = Self {
            events: Vec::with_capacity(events),
            attributes: Vec::with_capacity(attrs),
            log: Ghost(Seq::empty()),
        };
        assert(r.events@ =~= compact_of(r.log@).0);
        assert(r.attributes@ =~= compact_of(r.log@).1);
        r
    }

    /// Take the collected events, leaving none
    pub fn take_events(&mut self) -> (r: Vec<CompactSaxEvent>)
        ensures
            r@ == old(self).spec_events(),
            final(self).spec_events() == Seq::<CompactSaxEvent>::empty(),
            final(self).spec_attributes() == old(self).spec_attributes(),
    {
        let mut taken: Vec<CompactSaxEvent> = Vec::new();
        std::mem::swap(&mut self.events, &mut taken);
        taken
    }

    /// Get the collected events as a slice
    pub fn events(&self) -> (r: &[CompactSaxEvent])
        ensures
            r@ == self.spec_events(),
    {
        self.events.as_slice()
    }

    /// Get the attribute storage
    pub fn attributes(&self) -> (r: &[(u32, u32, u32, u32)])
        ensures
            r@ == self.spec_attributes(),
    {
        self.attributes.as_slice()
    }

    /// Get number of collected events
    pub fn event_count(&self) -> (r: usize)
        ensures
            r == self.spec_events().len(),
    {
        self.events.len()
    }

    /// Convert compact events to rich events (for API compatibility)
    pub fn to_sax_events(&self) -> (r: Vec<SaxEvent>)
        ensures
            r@.len() == self.spec_events().len(),
            forall|k: int|
                0 <= k < r@.len() ==> sax_matches(
                    #[trigger] r@[k],
                    self.spec_events()[k],
                    self.spec_attributes(),
                ),
    {
        let mut out: Vec<SaxEvent> = Vec::new();
        let mut i: usize = 0;
        while i < self.events.len()
            invariant
                i <= self.events@.len(),
                out@.len() == i,
                forall|k: int|
                    0 <= k < i ==> sax_matches(#[trigger] out@[k], self.events@[k], self.attributes@),
            decreases self.events.len() - i,
        {
            let e = self.compact_to_sax(&self.events[i]);
            out.push(e);
            i += 1;
        }
        out
    }

    /// Convert a compact event to a SaxEvent
    fn compact_to_sax(&self, event: &CompactSaxEvent) -> (r: SaxEvent)
        ensures
            sax_matches(r, *event, self.attributes@),
    {
        if event.tag == CompactSaxEvent::TAG_START_ELEMENT {
            let name = event.span();
            let attr_start = event.tertiary as usize;
            let attr_count = event.secondary as usize;
            let mut attributes: Vec<(Span, Span)> = Vec::new();
            if attr_count <= self.attributes.len() && attr_start <= self.attributes.len() - attr_count {
                let alen = self.attributes.len();
                let mut i: usize = 0;
                while i < attr_count
                    invariant
                        alen == self.attributes@.len(),
                        attr_start + attr_count <= self.attributes@.len(),
                        i <= attr_count,
                        attributes@ == self.attributes@.subrange(
                            attr_start as int,
                            attr_start + i,
                        ).map_values(|q: AttrQuad| quad_spans(q)),
                    decreases attr_count - i,
                {
                    let (no, nl, vo, vl) = self.attributes[attr_start + i];
                    let n16: u16 = if nl <= 0xFFFF {
                        nl as u16
                    } else {
                        0xFFFF
                    };
                    let v16: u16 = if vl <= 0xFFFF {
                        vl as u16
                    } else {
                        0xFFFF
                    };
                    attributes.push((Span::new(no, n16), Span::new(vo, v16)));
                    assert(self.attributes@.subrange(attr_start as int, attr_start + i + 1)
                        =~= self.attributes@.subrange(attr_start as int, attr_start + i).push(
                        self.attributes@[attr_start + i],
                    ));
                    i += 1;
                }
            } else {
                assert(attributes@ =~= event_attrs(*event, self.attributes@));
            }
            SaxEvent::StartElement { name, attributes }
        } else if event.tag == CompactSaxEvent::TAG_END_ELEMENT {
            SaxEvent::EndElement { name: event.span() }
        } else if event.tag == CompactSaxEvent::TAG_TEXT {
            SaxEvent::Text { span: event.span(), needs_decode: event.needs_decode() }
        } else if event.tag == CompactSaxEvent::TAG_CDATA {
            SaxEvent::CData { span: event.span() }
        } else if event.tag == CompactSaxEvent::TAG_COMMENT {
            SaxEvent::Comment { span: event.span() }
        } else if event.tag == CompactSaxEvent::TAG_PI {
            let target = event.span();
            let data = if event.tertiary > 0 {
                let d16: u16 = if event.tertiary <= 0xFFFF {
                    event.tertiary as u16
                } else {
                    0xFFFF
                };
                Some(Span::new(event.secondary, d16))
            } else {
                None
            };
            SaxEvent::ProcessingInstruction { target, data }
        } else {
            SaxEvent::Text { span: Span::empty(), needs_decode: false }
        }
    }
}

impl Default for SaxCollector {
    fn default() -> (r: Self)
        ensures
            r.wf(),
            r.scan_events() == Seq::<ScanEvent>::empty(),
    {
        Self::new()
    }
}

impl ScanHandler for SaxCollector {
    closed spec fn scan_events(&self) -> Seq<ScanEvent> {
        self.log@
    }

    closed spec fn inv(&self) -> bool {
        self.wf()
    }

    fn start_element(&mut self, name: Span, attrs: &[(Span, Span)], is_empty: bool) {
        let ghost log0 = self.log@;
        let attr_start = #[verifier::truncate] (self.attributes.len() as u32);
        let attr_count = #[verifier::truncate] (attrs.len() as u32);
        let ghost a0 = self.attributes@;
        let mut i: usize = 0;
        while i < attrs.len()
            invariant
                i <= attrs@.len(),
                self.attributes@ == a0 + attr_quads(attrs@.subrange(0, i as int)),
                self.events == old(self).events,
                self.log == old(self).log,
            decreases attrs.len() - i,
        {
            let (n, v) = attrs[i];
            self.attributes.push((n.offset, n.len as u32, v.offset, v.len as u32));
            assert(attr_quads(attrs@.subrange(0, i + 1)) =~= attr_quads(
                attrs@.subrange(0, i as int),
            ).push((n.offset, n.len as u32, v.offset, v.len as u32)));
            i += 1;
        }
        assert(attrs@.subrange(0, attrs@.len() as int) =~= attrs@);
        self.events.push(
            CompactSaxEvent::start_element(name.offset, name.len as u32, attr_start, attr_count),
        );
        if is_empty {
            self.events.push(CompactSaxEvent::end_element(name.offset, name.len as u32));
        }
        self.log = Ghost(self.log@.push(ScanEvent::StartElement { name, attrs: attrs@, is_empty }));
        assert(self.log@.drop_last() =~= log0);
    }

    fn end_element(&mut self, name: Span) {
        let ghost log0 = self.log@;
        self.events.push(CompactSaxEvent::end_element(name.offset, name.len as u32));
        self.log = Ghost(self.log@.push(ScanEvent::EndElement { name }));
        assert(self.log@.drop_last() =~= log0);
    }

    fn text(&mut self, span: Span, needs_entity_decode: bool) {
        let ghost log0 = self.log@;
        self.events.push(CompactSaxEvent::text(span.offset, span.len as u32, needs_entity_decode));
        self.log = Ghost(self.log@.push(ScanEvent::Text { span, needs_decode: needs_entity_decode }));
        assert(self.log@.drop_last() =~= log0);
    }

    fn cdata(&mut self, span: Span) {
        let ghost log0 = self.log@;
        self.events.push(CompactSaxEvent::cdata(span.offset, span.len as u32));
        self.log = Ghost(self.log@.push(ScanEvent::CData { span }));
        assert(self.log@.drop_last() =~= log0);
    }

    fn comment(&mut self, span: Span) {
        let ghost log0 = self.log@;
        self.events.push(CompactSaxEvent::comment(span.offset, span.len as u32));
        self.log = Ghost(self.log@.push(ScanEvent::Comment { span }));
        assert(self.log@.drop_last() =~= log0);
    }

    fn processing_instruction(&mut self, target: Span, data: Option<Span>) {
        let ghost log0 = self.log@;
        let (data_offset, data_len) = match data {
            Some(d) => (d.offset, d.len as u32),
            None => (0, 0),
        };
        self.events.push(
            CompactSaxEvent::pi(target.offset, target.len as u32, data_offset, data_len),
        );
        self.log = Ghost(self.log@.push(ScanEvent::ProcessingInstruction { target, data }));
        assert(self.log@.drop_last() =~= log0);
    }

    fn xml_declaration(
        &mut self,
        version: Option<Span>,
        encoding: Option<Span>,
        standalone: Option<Span>,
    ) {
    }

    fn doctype(&mut self, content: Span) {
        let ghost log0 = self.log@;
        self.log = Ghost(self.log@.push(ScanEvent::Doctype { content }));
        assert(self.log@.drop_last() =~= log0);
    }
}

/// Parse input and return SAX events: one rich event per compact event that the
/// scan of the whole input gives (`compact_of`)
pub fn parse_sax(input: &[u8]) -> (r: Vec<SaxEvent>)
    ensures
        r@.len() == compact_of(scan_from(input@, 0)).0.len(),
        forall|k: int|
            0 <= k < r@.len() ==> sax_matches(
                #[trigger] r@[k],
                compact_of(scan_from(input@, 0)).0[k],
                compact_of(scan_from(input@, 0)).1,
            ),
{
    let mut collector = SaxCollector::new();
    let mut scanner = UnifiedScanner::new(input);
    scanner.scan(&mut collector);
    assert(collector.scan_events() =~= scan_from(input@, 0));
    collector.to_sax_events()
}

/// Parse input and return compact SAX events (more efficient)
pub fn parse_sax_compact(input: &[u8]) -> (r: CompactSaxResult)
    ensures
        r.0@ == compact_of(scan_from(input@, 0)).0,
        r.1@ == compact_of(scan_from(input@, 0)).1,
{
    let mut collector = SaxCollector::new();
    let mut scanner = UnifiedScanner::new(input);
    scanner.scan(&mut collector);
    assert(collector.scan_events() =~= scan_from(input@, 0));
    let events = collector.take_events();
    let attrs = vstd::slice::slice_to_vec(collector.attributes());
    (events, attrs)
}

/// What one scan event adds to the collected events: a start tag a start event (and,
/// when empty, the end event of the same name right after it) whose attributes are
/// the tag's, in order, appended to the attribute list; an end tag an end event; text a
/// text event, marked for decoding exactly when it holds a reference; a CDATA section a
/// CDATA event; a comment a comment event; a processing instruction an event over its
/// target and data; a DOCTYPE nothing. Each rich event matches the compact one: a
/// comment is never reported as text or CDATA.
pub proof fn law_collected_event_kinds(events: Seq<ScanEvent>, e: ScanEvent)
    ensures
        ({
            let (evs, attrs) = compact_of(events);
            let (evs2, attrs2) = compact_of(events.push(e));
            let x = evs2.last();
            &&& e matches ScanEvent::Comment { span } ==> evs2 == evs.push(x) && attrs2 == attrs
                && x.tag == CompactSaxEvent::TAG_COMMENT && sax_matches(
                SaxEvent::Comment { span: Span { offset: span.offset, len: cap16(span.len as u32) } },
                x,
                attrs2,
            ) && x.offset == span.offset && x.len == span.len
            &&& e matches ScanEvent::CData { span } ==> evs2 == evs.push(x) && attrs2 == attrs && x.tag
                == CompactSaxEvent::TAG_CDATA && x.offset == span.offset && x.len == span.len
            &&& e matches ScanEvent::Text { span, needs_decode } ==> evs2 == evs.push(x) && attrs2
                == attrs && x.tag == CompactSaxEvent::TAG_TEXT && x.offset == span.offset && x.len
                == span.len && (x.flags & CompactSaxEvent::FLAG_NEEDS_DECODE != 0) == needs_decode
            &&& e matches ScanEvent::EndElement { name } ==> evs2 == evs.push(x) && attrs2 == attrs
                && x.tag == CompactSaxEvent::TAG_END_ELEMENT && x.offset == name.offset && x.len
                == name.len
            &&& e matches ScanEvent::ProcessingInstruction { target, .. } ==> evs2 == evs.push(x)
                && attrs2 == attrs && x.tag == CompactSaxEvent::TAG_PI && x.offset == target.offset
                && x.len == target.len
            &&& e matches ScanEvent::StartElement { name, attrs: a, is_empty } ==> {
                let st = if is_empty { evs2[evs2.len() - 2] } else { x };
                &&& evs2.len() == evs.len() + if is_empty { 2int } else { 1int }
                &&& evs2.subrange(0, evs.len() as int) == evs
                &&& st.tag == CompactSaxEvent::TAG_START_ELEMENT
                &&& st.offset == name.offset && st.len == name.len
                &&& attrs2 == attrs + attr_quads(a)
                &&& attrs.len() + a.len() <= u32::MAX ==> attrs2.subrange(
                    st.tertiary as int,
                    st.tertiary + st.secondary,
                ) == attr_quads(a)
                &&& is_empty ==> x.tag == CompactSaxEvent::TAG_END_ELEMENT && x.offset == name.offset
                    && x.len == name.len
            }
            &&& e matches ScanEvent::Doctype { .. } ==> evs2 == evs && attrs2 == attrs
        }),
{
    assert(events.push(e).drop_last() =~= events);
    let (evs, attrs) = compact_of(events);
    let (evs2, attrs2) = compact_of(events.push(e));
    match e {
        ScanEvent::StartElement { attrs: a, is_empty, .. } => {
            assert((attrs + attr_quads(a)).subrange(attrs.len() as int, (attrs.len() + a.len()) as int)
                =~= attr_quads(a));
            let st = if is_empty { evs2[evs2.len() - 2] } else { evs2.last() };
            if is_empty {
                assert(evs2.subrange(0, evs.len() as int) =~= evs);
                assert(evs2.len() == evs.len() + 2);
            } else {
                assert(evs2.subrange(0, evs.len() as int) =~= evs);
                assert(evs2.len() == evs.len() + 1);
            }
            assert(st.tag == CompactSaxEvent::TAG_START_ELEMENT);
            assert(attrs2 == attrs + attr_quads(a));
            if attrs.len() + a.len() <= u32::MAX {
                assert(st.tertiary == attrs.len());
                assert(st.secondary == a.len());
                assert(attrs2.subrange(st.tertiary as int, st.tertiary + st.secondary) == attr_quads(a));
            }
        },
        ScanEvent::Doctype { .. } => {},
        ScanEvent::Text { .. } => {
            assert(evs2 =~= evs.push(evs2.last()));
            assert(1u8 & 1u8 != 0 && 0u8 & 1u8 == 0) by (bit_vector);
        },
        _ => {
            assert(evs2 =~= evs.push(evs2.last()));
        },
    }
}

} // verus!
