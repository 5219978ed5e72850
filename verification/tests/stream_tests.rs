use std::io::Cursor;

use rustyxml::reader::buffered::BufferedReader;
use rustyxml::reader::events::{StartElement, XmlEvent};
use rustyxml::reader::slice::{parse_events, SliceReader};
use rustyxml::resource::{DocumentAccumulator, IndexedDocumentResource, StreamingSaxParser};
use rustyxml::sax::collector::{parse_sax, parse_sax_compact};
use rustyxml::sax::events::{CompactSaxEvent, SaxEvent};
use rustyxml::sax::stream::encode_sax_events;
use rustyxml::strategy::streaming::{find_safe_boundary, OwnedXmlEvent, StreamingParser};

// ---------------------------------------------------------------- buffered reader

#[test]
fn test_buffered_reader() {
    let data = b"<root>content</root>";
    let cursor = Cursor::new(data.to_vec());
    let mut reader = BufferedReader::new(cursor);

    reader.fill_buffer().unwrap();
    assert_eq!(reader.buffered(), data);
}

#[test]
fn test_read_to_end() {
    let data = b"<root>content</root>";
    let cursor = Cursor::new(data.to_vec());
    let mut reader = BufferedReader::new(cursor);

    let result = reader.read_to_end().unwrap();
    assert_eq!(result, data);
}

#[test]
fn buffered_reader_consume_and_eof() {
    let data = b"abcdef";
    let mut reader = BufferedReader::with_capacity(Cursor::new(data.to_vec()), 4);
    assert!(reader.fill_buffer().unwrap());
    assert_eq!(reader.buffered(), b"abcd");
    reader.consume(2);
    assert_eq!(reader.buffered(), b"cd");
    reader.consume(10);
    assert_eq!(reader.buffered(), b"");
    while reader.fill_buffer().unwrap() {}
    assert_eq!(reader.buffered(), b"ef");
    assert!(!reader.is_eof());
    let n = reader.buffered().len();
    reader.consume(n);
    assert!(reader.is_eof());
}

#[test]
fn full_buffer_is_not_end_of_input() {
    let data = b"abcdef";
    let mut reader = BufferedReader::with_capacity(Cursor::new(data.to_vec()), 4);
    assert!(reader.fill_buffer().unwrap());
    assert_eq!(reader.buffered(), b"abcd");
    // no room: nothing is read, and the source is not taken to be exhausted
    assert!(!reader.fill_buffer().unwrap());
    assert_eq!(reader.buffered(), b"abcd");
    reader.consume(4);
    assert!(!reader.is_eof());
    assert!(reader.fill_buffer().unwrap());
    assert_eq!(reader.buffered(), b"ef");
}

// ---------------------------------------------------------------- events

#[test]
fn test_start_element() {
    let elem = StartElement::new(b"div", vec![]);
    assert_eq!(elem.name_str(), Some("div"));
    assert_eq!(elem.local_name_str(), Some("div"));
    assert!(elem.prefix.is_none());
}

#[test]
fn test_namespaced_element() {
    let elem = StartElement::new(b"svg:rect", vec![]);
    assert_eq!(elem.name_str(), Some("svg:rect"));
    assert_eq!(elem.local_name_str(), Some("rect"));
    assert_eq!(
        elem.prefix.as_ref().and_then(|p| std::str::from_utf8(p.as_ref()).ok()),
        Some("svg")
    );
}

// ---------------------------------------------------------------- slice reader

#[test]
fn slice_test_simple_element() {
    let events: Vec<_> = SliceReader::new(b"<root>hello</root>").collect_events();
    assert_eq!(events.len(), 3);

    assert!(matches!(&events[0], XmlEvent::StartElement(e) if e.name_str() == Some("root")));
    assert!(matches!(&events[1], XmlEvent::Text(t) if t.as_ref() == b"hello"));
    assert!(matches!(&events[2], XmlEvent::EndElement(e) if e.name_str() == Some("root")));
}

#[test]
fn slice_test_empty_element() {
    let events: Vec<_> = SliceReader::new(b"<br/>").collect_events();
    assert_eq!(events.len(), 1);
    assert!(matches!(&events[0], XmlEvent::EmptyElement(e) if e.name_str() == Some("br")));
}

#[test]
fn slice_test_attributes() {
    let events: Vec<_> = SliceReader::new(b"<div id=\"main\" class=\"container\"/>").collect_events();
    assert_eq!(events.len(), 1);

    if let XmlEvent::EmptyElement(e) = &events[0] {
        assert_eq!(e.get_attribute_value("id"), Some("main"));
        assert_eq!(e.get_attribute_value("class"), Some("container"));
    } else {
        panic!("Expected EmptyElement");
    }
}

#[test]
fn slice_test_cdata() {
    let events: Vec<_> =
        SliceReader::new(b"<script><![CDATA[alert('hi')]]></script>").collect_events();
    assert_eq!(events.len(), 3);
    assert!(matches!(&events[1], XmlEvent::CData(c) if c.as_ref() == b"alert('hi')"));
}

#[test]
fn slice_test_comment() {
    let events: Vec<_> = SliceReader::new(b"<root><!-- comment --></root>").collect_events();
    assert!(events.iter().any(|e| matches!(e, XmlEvent::Comment(_))));
}

#[test]
fn test_nested() {
    let events: Vec<_> = SliceReader::new(b"<a><b>text</b></a>").collect_events();
    assert_eq!(events.len(), 5);
}

#[test]
fn slice_reader_decodes_text_and_stops() {
    let mut reader = SliceReader::new(b"<a>x &lt; y</a>");
    assert!(reader.next_event().is_some());
    match reader.next_event() {
        Some(XmlEvent::Text(t)) => assert_eq!(t.as_ref(), b"x < y"),
        other => panic!("unexpected {:?}", other),
    }
    assert!(reader.next_event().is_some());
    assert!(matches!(reader.next_event(), Some(XmlEvent::EndDocument)));
    assert!(reader.next_event().is_none());
}

#[test]
fn slice_reader_declaration_and_pi() {
    let events = parse_events(b"<?xml version=\"1.0\" encoding=\"UTF-8\"?><?go now?><r/>");
    assert_eq!(events.len(), 3);
    match &events[0] {
        XmlEvent::XmlDeclaration { version, encoding, .. } => {
            assert_eq!(version.as_ref(), b"1.0");
            assert_eq!(encoding.as_ref().map(|e| e.as_ref()), Some(b"UTF-8" as &[u8]));
        }
        other => panic!("unexpected {:?}", other),
    }
    match &events[1] {
        XmlEvent::ProcessingInstruction { target, data } => {
            assert_eq!(target.as_ref(), b"go");
            assert!(data.is_none());
        }
        other => panic!("unexpected {:?}", other),
    }
}

#[test]
fn strict_slice_reader_reports_error() {
    let mut reader = SliceReader::new_strict(b"<a b=1/>");
    let mut n = 0;
    while reader.next_event().is_some() {
        n += 1;
        assert!(n < 10);
    }
    assert!(reader.error().is_some());
}

// ---------------------------------------------------------------- sax

#[test]
fn test_simple_parse() {
    let input = b"<root><child/></root>";
    let events = parse_sax(input);

    assert_eq!(events.len(), 4);
    assert!(events[0].is_start_element());
}

#[test]
fn test_with_text() {
    let input = b"<a>hello</a>";
    let events = parse_sax(input);

    assert_eq!(events.len(), 3);
    assert!(events[1].is_text());
}

#[test]
fn test_with_attributes() {
    let input = b"<root id=\"1\" name=\"test\"/>";
    let events = parse_sax(input);

    assert_eq!(events.len(), 2);

    if let SaxEvent::StartElement { attributes, .. } = &events[0] {
        assert_eq!(attributes.len(), 2);
    } else {
        panic!("Expected StartElement");
    }
}

#[test]
fn test_compact_events() {
    let input = b"<root>text</root>";
    let (events, _attrs) = parse_sax_compact(input);

    assert_eq!(events.len(), 3);
    assert_eq!(events[0].tag, CompactSaxEvent::TAG_START_ELEMENT);
    assert_eq!(events[1].tag, CompactSaxEvent::TAG_TEXT);
    assert_eq!(events[2].tag, CompactSaxEvent::TAG_END_ELEMENT);
}

#[test]
fn sax_spans_point_into_input() {
    let input = b"<ab x=\"1\">t&amp;</ab>";
    let events = parse_sax(input);
    match &events[0] {
        SaxEvent::StartElement { name, attributes } => {
            assert_eq!(name.slice(input), b"ab");
            assert_eq!(attributes[0].0.slice(input), b"x");
            assert_eq!(attributes[0].1.slice(input), b"1");
        }
        other => panic!("unexpected {:?}", other),
    }
    match &events[1] {
        SaxEvent::Text { span, needs_decode } => {
            assert_eq!(span.slice(input), b"t&amp;");
            assert!(*needs_decode);
        }
        other => panic!("unexpected {:?}", other),
    }
}

#[test]
fn test_compact_event_size() {
    let size = std::mem::size_of::<CompactSaxEvent>();
    assert!(size <= 24, "CompactSaxEvent too large: {} bytes", size);
}

#[test]
fn test_start_element_event() {
    let event = CompactSaxEvent::start_element(10, 5, 0, 2);
    assert_eq!(event.tag, CompactSaxEvent::TAG_START_ELEMENT);
    assert_eq!(event.offset, 10);
    assert_eq!(event.len, 5);
    assert_eq!(event.secondary, 2);
    assert_eq!(event.tertiary, 0);
}

#[test]
fn test_text_event_decode_flag() {
    let plain = CompactSaxEvent::text(0, 10, false);
    assert!(!plain.needs_decode());

    let with_entities = CompactSaxEvent::text(0, 10, true);
    assert!(with_entities.needs_decode());
}

// ---------------------------------------------------------------- binary sax stream

#[test]
fn encode_sax_events_bytes() {
    let (bytes, depth) = encode_sax_events(b"<a x=\"1\">hi</a>", 0, false);
    let expected: Vec<u8> = vec![
        1, 0, 1, b'a', 0, 1, 0, 1, b'x', 0, 1, b'1', // start a, one attribute
        3, 0, 0, 0, 2, b'h', b'i', // text
        2, 0, 1, b'a', // end a
    ];
    assert_eq!(bytes, expected);
    assert_eq!(depth, 0);
}

#[test]
fn encode_sax_events_cdata_and_empty() {
    let (bytes, depth) = encode_sax_events(b"<r><![CDATA[z]]><e/>", 0, false);
    let expected: Vec<u8> = vec![
        1, 0, 1, b'r', 0, 0, // start r, no attributes
        4, 0, 0, 0, 1, b'z', // cdata
        1, 0, 1, b'e', 0, 0, 2, 0, 1, b'e', // empty element e
    ];
    assert_eq!(bytes, expected);
    assert_eq!(depth, 1);
    let (as_chars, _) = encode_sax_events(b"<r><![CDATA[z]]></r>", 0, true);
    assert_eq!(as_chars[6], 3);
}

#[test]
fn streaming_sax_parser_chunks_match_whole() {
    let whole = b"<doc><item k=\"v\">one</item><item>two</item></doc>";
    let (expected, _) = encode_sax_events(whole, 0, false);
    let mut parser = StreamingSaxParser::new();
    let mut out = Vec::new();
    for chunk in whole.chunks(5) {
        out.extend(parser.feed(chunk, false));
    }
    out.extend(parser.finalize(false));
    assert_eq!(out, expected);
}

#[test]
fn document_accumulator_collects_chunks() {
    let mut acc = DocumentAccumulator::new();
    acc.feed(b"<a>");
    acc.feed(b"</a>");
    assert_eq!(acc.take_buffer(), b"<a></a>".to_vec());
    assert_eq!(acc.take_buffer(), Vec::<u8>::new());
}

#[test]
fn indexed_resource_lookups() {
    let res = IndexedDocumentResource::new(b"<r id=\"x\">a&amp;b</r>".to_vec());
    assert_eq!(res.element_name_str(0), Some("r"));
    assert_eq!(res.get_attribute_str(0, "id"), Some("x".to_string()));
    assert_eq!(res.get_attribute_str(0, "nope"), None);
    assert_eq!(res.text_content_str(0), Some("a&b".to_string()));
}

// ---------------------------------------------------------------- streaming parser

#[test]
fn test_streaming_simple() {
    let mut parser = StreamingParser::new();
    parser.feed(b"<root>");
    parser.feed(b"<item/>");
    parser.feed(b"</root>");

    let events = parser.take_events(10);
    assert!(!events.is_empty());
}

#[test]
fn test_streaming_chunks() {
    let mut parser = StreamingParser::new();
    parser.feed(b"<ro");
    parser.feed(b"ot><i");
    parser.feed(b"tem/></root>");

    let events = parser.take_events(10);
    assert!(!events.is_empty());
}

#[test]
fn test_with_filter() {
    let mut parser = StreamingParser::with_filter(b"item");
    parser.feed(b"<root><item/><other/><item/></root>");

    let events = parser.take_events(10);
    for event in &events {
        if let OwnedXmlEvent::EmptyElement { name, .. } = event {
            assert_eq!(name, b"item");
        }
    }
}

#[test]
fn streaming_events_in_order() {
    let mut parser = StreamingParser::new();
    parser.feed(b"<r a=\"1\">hi</r>");
    let events = parser.take_events(10);
    assert_eq!(events.len(), 3);
    match &events[0] {
        OwnedXmlEvent::StartElement { name, attributes } => {
            assert_eq!(name, b"r");
            assert_eq!(attributes, &vec![(b"a".to_vec(), b"1".to_vec())]);
        }
        other => panic!("unexpected {:?}", other),
    }
    assert!(matches!(&events[1], OwnedXmlEvent::Text(t) if t == b"hi"));
    assert!(matches!(&events[2], OwnedXmlEvent::EndElement { name } if name == b"r"));
    assert!(!parser.has_pending());
}

#[test]
fn streaming_take_events_respects_max() {
    let mut parser = StreamingParser::new();
    parser.feed(b"<a/><b/><c/>");
    assert_eq!(parser.available_events(), 3);
    assert_eq!(parser.take_events(2).len(), 2);
    assert_eq!(parser.available_events(), 1);
}

#[test]
fn find_safe_boundary_cases() {
    assert_eq!(find_safe_boundary(b"<a>text"), 3);
    assert_eq!(find_safe_boundary(b"<a x=\">\""), 0);
    assert_eq!(find_safe_boundary(b"no markup"), 0);
    assert_eq!(find_safe_boundary(b"<a/><b"), 4);
}

struct Boastful;

impl std::io::Read for Boastful {
    fn read(&mut self, buf: &mut [u8]) -> std::io::Result<usize> {
        for b in buf.iter_mut() {
            *b = b'x';
        }
        Ok(buf.len() + 100)
    }
}

#[test]
fn fill_buffer_takes_an_overlong_count_as_a_full_room() {
    let mut r = BufferedReader::with_capacity(Boastful, 8);
    assert_eq!(r.fill_buffer().unwrap(), true);
    assert_eq!(r.buffered(), b"xxxxxxxx");
    assert_eq!(r.fill_buffer().unwrap(), false);
}
