use std::borrow::Cow;

use rustyxml::index::span::Span;
use rustyxml::xml_core::attributes::{parse_attributes, parse_attributes_strict};
use rustyxml::xml_core::dtd::{
    extract_entity_references, parse_content_spec, ContentSpec, DtdDeclarations, EntityDecl,
};
use rustyxml::xml_core::encoding::{convert_to_utf8, XmlEncoding};
use rustyxml::xml_core::entities::{
    decode_entity, decode_text, decode_text_strict, encode_text, validate_xml_content,
};
use rustyxml::xml_core::primitives::offset_from_addresses;
use rustyxml::xml_core::scanner::Scanner;
use rustyxml::xml_core::tokenizer::checks::validate_tag_chars;
use rustyxml::xml_core::tokenizer::{TokenKind, Tokenizer};
use rustyxml::xml_core::unified_scanner::{ScanLog, ScanRecord, UnifiedScanner};

// ---------------------------------------------------------------- attributes

#[test]
fn test_simple_attributes() {
    let attrs = parse_attributes(b" id=\"test\" class=\"foo\"");
    assert_eq!(attrs.len(), 2);
    assert_eq!(attrs[0].name_str(), Some("id"));
    assert_eq!(attrs[0].value_str(), Some("test"));
    assert_eq!(attrs[1].name_str(), Some("class"));
    assert_eq!(attrs[1].value_str(), Some("foo"));
}

#[test]
fn test_single_quoted() {
    let attrs = parse_attributes(b" id='test'");
    assert_eq!(attrs.len(), 1);
    assert_eq!(attrs[0].value_str(), Some("test"));
}

#[test]
fn test_namespaced_attribute() {
    let attrs = parse_attributes(b" xmlns:xlink=\"http://www.w3.org/1999/xlink\"");
    assert_eq!(attrs.len(), 1);
    assert_eq!(attrs[0].name_str(), Some("xmlns:xlink"));
    assert_eq!(attrs[0].prefix_str(), Some("xmlns"));
    assert_eq!(attrs[0].local_name_str(), Some("xlink"));
}

#[test]
fn test_entity_in_value() {
    let attrs = parse_attributes(b" title=\"&lt;hello&gt;\"");
    assert_eq!(attrs.len(), 1);
    assert_eq!(attrs[0].value_str(), Some("<hello>"));
}

#[test]
fn test_empty_attributes() {
    let attrs = parse_attributes(b"");
    assert_eq!(attrs.len(), 0);
}

#[test]
fn test_whitespace_handling() {
    let attrs = parse_attributes(b"  id  =  \"test\"  ");
    assert_eq!(attrs.len(), 1);
    assert_eq!(attrs[0].name_str(), Some("id"));
    assert_eq!(attrs[0].value_str(), Some("test"));
}

#[test]
fn strict_attributes_reject_bare_values() {
    assert!(parse_attributes_strict(b" a=1").is_err());
    assert!(parse_attributes_strict(b" a=\"x<y\"").is_err());
    let ok = parse_attributes_strict(b" a=\"1\" b='2'").unwrap();
    assert_eq!(ok.len(), 2);
    assert_eq!(ok[1].value_str(), Some("2"));
}

#[test]
fn lenient_attributes_accept_unquoted_and_bare() {
    let attrs = parse_attributes(b" a=1 b=\"2\" c");
    assert_eq!(attrs.len(), 3);
    assert_eq!(attrs[0].value_str(), Some("1"));
    assert_eq!(attrs[1].value_str(), Some("2"));
    assert_eq!(attrs[2].name_str(), Some("c"));
    assert_eq!(attrs[2].value_str(), Some(""));
}

// ---------------------------------------------------------------- dtd

fn internal_entity(value: &[u8], references: Vec<Vec<u8>>) -> EntityDecl {
    EntityDecl {
        is_external: false,
        value: Some(value.to_vec()),
        system_id: None,
        public_id: None,
        ndata: None,
        references,
    }
}

#[test]
fn test_entity_recursion_direct() {
    let mut dtd = DtdDeclarations::new();
    dtd.add_entity(b"foo".to_vec(), internal_entity(b"&foo;", vec![b"foo".to_vec()]), false)
        .unwrap();
    assert!(dtd.validate().is_err());
}

#[test]
fn test_entity_recursion_indirect() {
    let mut dtd = DtdDeclarations::new();
    dtd.add_entity(b"a".to_vec(), internal_entity(b"&b;", vec![b"b".to_vec()]), false)
        .unwrap();
    dtd.add_entity(b"b".to_vec(), internal_entity(b"&a;", vec![b"a".to_vec()]), false)
        .unwrap();
    assert!(dtd.validate().is_err());
}

#[test]
fn entity_recursion_message_names_first_entity() {
    let mut dtd = DtdDeclarations::new();
    dtd.add_entity(b"a".to_vec(), internal_entity(b"&b;", vec![b"b".to_vec()]), false)
        .unwrap();
    dtd.add_entity(b"b".to_vec(), internal_entity(b"&a;", vec![b"a".to_vec()]), false)
        .unwrap();
    assert_eq!(
        dtd.validate(),
        Err("Entity 'a' references itself (directly or indirectly)".to_string())
    );
}

#[test]
fn element_declarations_keep_earlier_entries() {
    let mut dtd = DtdDeclarations::new();
    assert_eq!(dtd.add_element(b"a".to_vec(), ContentSpec::Empty), Ok(()));
    assert_eq!(dtd.add_element(b"b".to_vec(), ContentSpec::Any), Ok(()));
    assert_eq!(
        dtd.add_element(b"a".to_vec(), ContentSpec::Any),
        Err("Element type declared more than once")
    );
    assert_eq!(dtd.elements.len(), 2);
    assert_eq!(dtd.elements[0].0, b"a".to_vec());
    assert!(matches!(dtd.elements[0].1.content_spec, ContentSpec::Empty));
    assert!(matches!(dtd.elements[1].1.content_spec, ContentSpec::Any));
}

#[test]
fn test_no_recursion() {
    let mut dtd = DtdDeclarations::new();
    dtd.add_entity(b"a".to_vec(), internal_entity(b"hello", vec![]), false).unwrap();
    assert!(dtd.validate().is_ok());
}

#[test]
fn test_extract_entity_refs() {
    let value = b"Hello &world; and &foo;!";
    let refs = extract_entity_references(value);
    assert_eq!(refs.len(), 2);
    assert_eq!(refs[0], b"world");
    assert_eq!(refs[1], b"foo");
}

#[test]
fn dtd_first_entity_declaration_wins() {
    let mut dtd = DtdDeclarations::new();
    dtd.add_entity(b"e".to_vec(), internal_entity(b"one", vec![]), false).unwrap();
    dtd.add_entity(b"e".to_vec(), internal_entity(b"two", vec![]), false).unwrap();
    assert_eq!(dtd.entities.len(), 1);
    assert_eq!(dtd.entities[0].1.value.as_deref(), Some(&b"one"[..]));
}

#[test]
fn dtd_chain_without_cycle_is_valid() {
    let mut dtd = DtdDeclarations::new();
    dtd.add_entity(b"a".to_vec(), internal_entity(b"&b;", vec![b"b".to_vec()]), false)
        .unwrap();
    dtd.add_entity(b"b".to_vec(), internal_entity(b"&c;", vec![b"c".to_vec()]), false)
        .unwrap();
    dtd.add_entity(b"c".to_vec(), internal_entity(b"x", vec![]), false).unwrap();
    assert!(dtd.validate().is_ok());
}

// ---------------------------------------------------------------- encoding

#[test]
fn test_detect_utf8() {
    assert_eq!(XmlEncoding::detect(b"<root/>"), XmlEncoding::Utf8);
    assert_eq!(XmlEncoding::detect(b"<?xml"), XmlEncoding::Utf8);
}

#[test]
fn test_detect_utf8_bom() {
    assert_eq!(XmlEncoding::detect(&[0xEF, 0xBB, 0xBF, b'<']), XmlEncoding::Utf8);
}

#[test]
fn test_detect_utf16_le_bom() {
    assert_eq!(XmlEncoding::detect(&[0xFF, 0xFE, b'<', 0x00]), XmlEncoding::Utf16Le);
}

#[test]
fn test_detect_utf16_be_bom() {
    assert_eq!(XmlEncoding::detect(&[0xFE, 0xFF, 0x00, b'<']), XmlEncoding::Utf16Be);
}

#[test]
fn test_convert_utf16_le() {
    let utf16_le = vec![0xFF, 0xFE, b'<', 0x00, b'r', 0x00, b'/', 0x00, b'>', 0x00];
    let result = convert_to_utf8(utf16_le).unwrap();
    assert_eq!(result, b"<r/>");
}

#[test]
fn test_convert_utf16_be() {
    let utf16_be = vec![0xFE, 0xFF, 0x00, b'<', 0x00, b'r', 0x00, b'/', 0x00, b'>'];
    let result = convert_to_utf8(utf16_be).unwrap();
    assert_eq!(result, b"<r/>");
}

#[test]
fn test_utf8_passthrough() {
    let utf8 = b"<root>hello</root>".to_vec();
    let result = convert_to_utf8(utf8.clone()).unwrap();
    assert_eq!(result, utf8);
}

#[test]
fn detect_utf16_without_bom() {
    assert_eq!(XmlEncoding::detect(&[b'<', 0x00, b'?', 0x00]), XmlEncoding::Utf16Le);
    assert_eq!(XmlEncoding::detect(&[0x00, b'<', 0x00, b'?']), XmlEncoding::Utf16Be);
}

#[test]
fn convert_utf16_with_odd_length_keeps_input() {
    let input = vec![0xFF, 0xFE, b'<', 0x00, b'r'];
    assert_eq!(convert_to_utf8(input.clone()), Ok(input));
}

#[test]
fn convert_invalid_utf16_keeps_input() {
    // A lone low surrogate (0xDC00, little endian) is not valid UTF-16.
    let input = vec![0xFF, 0xFE, 0x00, 0xDC];
    assert_eq!(convert_to_utf8(input.clone()), Ok(input));
}

#[test]
fn convert_utf8_bom_is_stripped() {
    let result = convert_to_utf8(vec![0xEF, 0xBB, 0xBF, b'<', b'a', b'/', b'>']).unwrap();
    assert_eq!(result, b"<a/>");
}

// ---------------------------------------------------------------- entities

#[test]
fn test_no_entities() {
    let input = b"Hello, World!";
    let result = decode_text(input);
    assert!(matches!(result, Cow::Borrowed(_)));
    assert_eq!(result.as_ref(), b"Hello, World!");
}

#[test]
fn test_basic_entities() {
    let input = b"&lt;hello&gt; &amp; &quot;world&quot;";
    let result = decode_text(input);
    assert_eq!(result.as_ref(), b"<hello> & \"world\"");
}

#[test]
fn test_numeric_decimal() {
    let input = b"&#65;&#66;&#67;";
    let result = decode_text(input);
    assert_eq!(result.as_ref(), b"ABC");
}

#[test]
fn test_numeric_hex() {
    let input = b"&#x41;&#x42;&#x43;";
    let result = decode_text(input);
    assert_eq!(result.as_ref(), b"ABC");
}

#[test]
fn test_unicode_entity() {
    let input = b"&#x1F600;";
    let result = decode_text(input);
    assert_eq!(std::str::from_utf8(result.as_ref()).unwrap(), "\u{1F600}");
}

#[test]
fn test_unknown_entity() {
    let input = b"&unknown;";
    let result = decode_text(input);
    assert_eq!(result.as_ref(), b"&unknown;");
}

#[test]
fn test_encode_text() {
    let input = "<hello> & \"world\"";
    let result = encode_text(input);
    assert_eq!(result.as_ref(), "&lt;hello&gt; &amp; &quot;world&quot;");
}

#[test]
fn encode_text_without_specials_borrows() {
    assert!(matches!(encode_text("plain text"), Cow::Borrowed(_)));
}

#[test]
fn decode_reverses_encode() {
    let original = "a<b>&'c'\"d\"";
    let encoded = encode_text(original);
    let decoded = decode_text(encoded.as_bytes());
    assert_eq!(decoded.as_ref(), original.as_bytes());
}

#[test]
fn decode_entity_values() {
    assert_eq!(decode_entity(b"apos"), Some(b"'".to_vec()));
    assert_eq!(decode_entity(b"#x3C"), Some(b"<".to_vec()));
    assert_eq!(decode_entity(b"#0"), Some(vec![0]));
    assert_eq!(decode_entity(b"#xD800"), None);
    assert_eq!(decode_entity(b"nope"), None);
}

#[test]
fn only_builtin_named_entities_expand() {
    assert_eq!(decode_entity(b"nbsp"), None);
    assert_eq!(decode_entity(b"mdash"), None);
    assert_eq!(decode_entity(b"copy"), None);
    assert_eq!(decode_text(b"a&nbsp;b").as_ref(), b"a&nbsp;b");
}

#[test]
fn content_validation_follows_xml_char() {
    assert_eq!(validate_xml_content(b"a\x7Fb"), Ok(()));
    assert_eq!(validate_xml_content("caf\u{e9}".as_bytes()), Ok(()));
    assert!(validate_xml_content(b"a\x01b").is_err());
    assert!(validate_xml_content(&[0xEF, 0xBF, 0xBE]).is_err());
    assert!(validate_xml_content(&[0xC3]).is_err());
}

#[test]
fn strict_decode_errors() {
    assert!(decode_text_strict(b"a \x01 b").is_err());
    assert_eq!(decode_text_strict(b"&unknown;").unwrap().as_ref(), b"&unknown;");
    assert!(decode_text_strict(b"&#0;").is_err());
    assert_eq!(decode_text_strict(b"&lt;x").unwrap().as_ref(), b"<x");
    assert!(matches!(decode_text_strict(b"plain").unwrap(), Cow::Borrowed(_)));
}

// ---------------------------------------------------------------- scanner

#[test]
fn test_find_tag_start() {
    let scanner = Scanner::new(b"hello <world>");
    assert_eq!(scanner.find_tag_start(), Some(6));
}

#[test]
fn test_find_tag_end_quoted() {
    let scanner = Scanner::new(b"<a attr=\">test\">content");
    assert_eq!(scanner.find_tag_end_quoted(), Some(15));
}

#[test]
fn test_read_name() {
    let mut scanner = Scanner::new(b"element-name>");
    assert_eq!(scanner.read_name(), Some(b"element-name" as &[u8]));
    assert_eq!(scanner.position(), 12);
}

#[test]
fn test_skip_whitespace() {
    let mut scanner = Scanner::new(b"  \t\n hello");
    scanner.skip_whitespace();
    assert_eq!(scanner.position(), 5);
}

#[test]
fn scanner_read_until_and_missing_byte() {
    let mut scanner = Scanner::new(b"abc=def");
    assert_eq!(scanner.read_until(b'='), Some(b"abc" as &[u8]));
    assert_eq!(scanner.position(), 4);
    assert_eq!(scanner.find_byte(b'z'), None);
    let mut s2 = Scanner::new(b"1abc");
    assert_eq!(s2.read_name(), None);
    assert_eq!(s2.position(), 0);
}

// ---------------------------------------------------------------- tokenizer

#[test]
fn tokenizer_test_simple_element() {
    let mut tok = Tokenizer::new(b"<root>content</root>");

    let t1 = tok.next_token().unwrap();
    assert_eq!(t1.kind, TokenKind::StartTag);
    assert_eq!(t1.name.as_ref().map(|c| c.as_ref()), Some(b"root" as &[u8]));

    let t2 = tok.next_token().unwrap();
    assert_eq!(t2.kind, TokenKind::Text);
    assert_eq!(t2.content.as_ref().map(|c| c.as_ref()), Some(b"content" as &[u8]));

    let t3 = tok.next_token().unwrap();
    assert_eq!(t3.kind, TokenKind::EndTag);
    assert_eq!(t3.name.as_ref().map(|c| c.as_ref()), Some(b"root" as &[u8]));
}

#[test]
fn tokenizer_test_empty_element() {
    let mut tok = Tokenizer::new(b"<br/>");
    let t = tok.next_token().unwrap();
    assert_eq!(t.kind, TokenKind::EmptyTag);
    assert_eq!(t.name.as_ref().map(|c| c.as_ref()), Some(b"br" as &[u8]));
}

#[test]
fn tokenizer_test_cdata() {
    let mut tok = Tokenizer::new(b"<![CDATA[<script>code</script>]]>");
    let t = tok.next_token().unwrap();
    assert_eq!(t.kind, TokenKind::CData);
    assert_eq!(
        t.content.as_ref().map(|c| c.as_ref()),
        Some(b"<script>code</script>" as &[u8])
    );
}

#[test]
fn tokenizer_test_comment() {
    let mut tok = Tokenizer::new(b"<!-- comment -->");
    let t = tok.next_token().unwrap();
    assert_eq!(t.kind, TokenKind::Comment);
    assert_eq!(t.content.as_ref().map(|c| c.as_ref()), Some(b" comment " as &[u8]));
}

#[test]
fn tokenizer_reaches_end() {
    let mut tok = Tokenizer::new(b"<a/>");
    assert_eq!(tok.next_token().unwrap().kind, TokenKind::EmptyTag);
    assert_eq!(tok.next_token().unwrap().kind, TokenKind::Eof);
    assert!(tok.next_token().is_none());
}

#[test]
fn strict_tokenizer_reports_error() {
    let mut tok = Tokenizer::new_strict(b"<a>x ]]> y</a>");
    let mut n = 0;
    while tok.next_token().is_some() {
        n += 1;
        assert!(n < 10);
    }
    assert!(tok.error().is_some());
}

// ---------------------------------------------------------------- unified scanner

/// The calls a scan made, grouped by kind, with each span written as `@offset:len`.
struct TestHandler {
    elements: Vec<(String, bool)>,
    end_elements: Vec<String>,
    texts: Vec<(String, bool)>,
    cdatas: Vec<String>,
    comments: Vec<String>,
}

fn at(span: Span) -> String {
    format!("@{}:{}", span.offset, span.len)
}

impl TestHandler {
    fn new() -> Self {
        TestHandler {
            elements: Vec::new(),
            end_elements: Vec::new(),
            texts: Vec::new(),
            cdatas: Vec::new(),
            comments: Vec::new(),
        }
    }

    fn from_log(log: &ScanLog) -> Self {
        let mut h = TestHandler::new();
        for rec in &log.records {
            match rec {
                ScanRecord::StartElement { name, is_empty, .. } => {
                    h.elements.push((at(*name), *is_empty))
                }
                ScanRecord::EndElement { name } => h.end_elements.push(at(*name)),
                ScanRecord::Text { span, needs_decode } => h.texts.push((at(*span), *needs_decode)),
                ScanRecord::CData { span } => h.cdatas.push(at(*span)),
                ScanRecord::Comment { span } => h.comments.push(at(*span)),
                _ => {}
            }
        }
        h
    }
}

fn scan_all(input: &[u8]) -> TestHandler {
    let mut scanner = UnifiedScanner::new(input);
    let mut log = ScanLog::new();
    scanner.scan(&mut log);
    TestHandler::from_log(&log)
}

#[test]
fn unified_scanner_test_simple_element() {
    let input = b"<root/>";
    let handler = scan_all(input);

    assert_eq!(handler.elements.len(), 1);
    assert!(handler.elements[0].1);
}

#[test]
fn test_nested_elements() {
    let input = b"<a><b/></a>";
    let handler = scan_all(input);

    assert_eq!(handler.elements.len(), 2);
    assert_eq!(handler.end_elements.len(), 1);
}

#[test]
fn test_text_content() {
    let input = b"<a>hello</a>";
    let handler = scan_all(input);

    assert_eq!(handler.texts.len(), 1);
    assert!(!handler.texts[0].1);
}

#[test]
fn test_entity_detection() {
    let input = b"<a>hello &amp; world</a>";
    let handler = scan_all(input);

    assert_eq!(handler.texts.len(), 1);
    assert!(handler.texts[0].1);
}

#[test]
fn unified_scanner_test_comment() {
    let input = b"<!-- comment --><a/>";
    let handler = scan_all(input);

    assert_eq!(handler.comments.len(), 1);
    assert_eq!(handler.elements.len(), 1);
}

#[test]
fn unified_scanner_test_cdata() {
    let input = b"<a><![CDATA[content]]></a>";
    let handler = scan_all(input);

    assert_eq!(handler.cdatas.len(), 1);
    assert_eq!(handler.cdatas[0], "@12:7");
}

#[test]
fn test_invalid_markup_as_text() {
    let input = b"<1invalid/>";
    let handler = scan_all(input);

    assert!(!handler.texts.is_empty(), "Invalid markup should produce text events");
    assert_eq!(handler.elements.len(), 0, "No valid elements in invalid markup");
}

#[test]
fn test_invalid_markup_mixed_with_valid() {
    let input = b"<1bad/><good/>";
    let handler = scan_all(input);

    assert!(!handler.texts.is_empty(), "Invalid markup should produce text");
    assert_eq!(handler.elements.len(), 1, "One valid element should be found");
}

#[test]
fn unified_scanner_reports_spans() {
    let input = b"<ab>xy</ab>";
    let handler = scan_all(input);
    assert_eq!(handler.elements[0].0, "@1:2");
    assert_eq!(handler.texts[0].0, "@4:2");
    assert_eq!(handler.end_elements[0], "@8:2");
}

#[test]
fn scan_log_records_in_order() {
    let input = b"<?xml version=\"1.0\"?><a x=\"1\"/>";
    let mut scanner = UnifiedScanner::new(input);
    let mut log = ScanLog::new();
    scanner.scan(&mut log);
    // the scanner reports an XML declaration as a processing instruction
    assert_eq!(log.declarations.len(), 0);
    assert_eq!(log.records.len(), 2);
    match &log.records[0] {
        ScanRecord::ProcessingInstruction { target, .. } => assert_eq!(target.slice(input), b"xml"),
        other => panic!("unexpected {:?}", other),
    }
    match &log.records[1] {
        ScanRecord::StartElement { name, attrs, is_empty } => {
            assert_eq!(name.slice(input), b"a");
            assert_eq!(attrs.len(), 1);
            assert_eq!(attrs[0].1.slice(input), b"1");
            assert!(*is_empty);
        }
        other => panic!("unexpected {:?}", other),
    }
}

#[test]
fn strict_attribute_name_with_non_ascii_letter() {
    let input = " d\u{e9}='1'".as_bytes();
    let (attrs, err) = rustyxml::xml_core::attributes::parse_attributes_with_validation(input, true);
    assert_eq!(err, None);
    assert_eq!(attrs.len(), 1);
    assert_eq!(attrs[0].name_str(), Some("d\u{e9}"));
    assert_eq!(attrs[0].value_str(), Some("1"));
}

#[test]
fn strict_attribute_parsing_leaves_named_references_to_the_dtd_check() {
    // whether `foo` is declared is known only to the reader, which has read the DOCTYPE
    let (attrs, err) =
        rustyxml::xml_core::attributes::parse_attributes_with_validation(b" b='x&foo;'", true);
    assert_eq!(err, None);
    assert_eq!(attrs[0].value_str(), Some("x&foo;"));
    let (attrs, err) =
        rustyxml::xml_core::attributes::parse_attributes_with_validation(b" b='x&foo;'", false);
    assert_eq!(err, None);
    assert_eq!(attrs[0].value_str(), Some("x&foo;"));
}

#[test]
fn content_spec_kinds() {
    match parse_content_spec(b" (#PCDATA|a|b)*") {
        Ok(ContentSpec::Mixed(names)) => assert_eq!(names, vec![b"a".to_vec(), b"b".to_vec()]),
        _ => panic!("expected mixed content"),
    }
    match parse_content_spec(b"( #PCDATA)") {
        Ok(ContentSpec::Mixed(names)) => assert!(names.is_empty()),
        _ => panic!("expected mixed content"),
    }
    match parse_content_spec(b"(a,b)") {
        Ok(ContentSpec::Children(raw)) => assert_eq!(raw, b"(a,b)".to_vec()),
        _ => panic!("expected children content"),
    }
    assert!(matches!(parse_content_spec(b"EMPTY"), Ok(ContentSpec::Empty)));
    assert!(matches!(parse_content_spec(b"ANY"), Ok(ContentSpec::Any)));
    assert!(matches!(parse_content_spec(b"foo"), Err("Invalid content specification")));
}

#[test]
fn offsets_from_addresses() {
    assert_eq!(offset_from_addresses(10, 4, 8), Some(6));
    assert_eq!(offset_from_addresses(4, 4, 8), Some(0));
    assert_eq!(offset_from_addresses(3, 4, 8), None);
    assert_eq!(offset_from_addresses(12, 4, 8), None);
    assert_eq!(offset_from_addresses(11, 4, 8), Some(7));
}

#[test]
fn tag_characters_plain_and_control() {
    assert_eq!(validate_tag_chars(b"item id=x"), Ok(()));
    assert_eq!(
        validate_tag_chars(b"item\x01"),
        Err("Invalid XML character in tag (control character not allowed)")
    );
    assert_eq!(validate_tag_chars(b"a\tb\nc"), Ok(()));
    assert_eq!(validate_tag_chars(b"a x='<'"), Err("'<' not allowed in attribute value"));
}
