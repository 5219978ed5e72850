use rustyxml::dom::document::XmlDocument;
use rustyxml::dom::namespace::NamespaceResolver;
use rustyxml::dom::serialize::serialize_node_to_xml;
use rustyxml::dom::node::{NodeKind, XmlNode};
use rustyxml::dom::strings::{StringEntry, StringPool};
use rustyxml::dom::validate_strict;
use rustyxml::dom::DocumentAccess;

// ---------------------------------------------------------------- document

#[test]
fn test_parse_simple() {
    let doc = XmlDocument::parse(b"<root>hello</root>");
    assert!(doc.root_element().is_some());
    assert_eq!(doc.node_name(doc.root_element_id().unwrap()), Some("root"));
}

#[test]
fn test_parse_nested() {
    let doc = XmlDocument::parse(b"<a><b><c/></b></a>");
    let root = doc.root_element_id().unwrap();
    let children: Vec<_> = doc.children(root);
    assert_eq!(children.len(), 1);
}

#[test]
fn document_test_descendants() {
    let doc = XmlDocument::parse(b"<root><a/><b><c/></b></root>");
    let root = doc.root_element_id().unwrap();
    let descendants: Vec<_> = doc.descendants(root);
    assert_eq!(descendants.len(), 3);
}

#[test]
fn test_siblings() {
    let doc = XmlDocument::parse(b"<root><a/><b/><c/></root>");
    let root = doc.root_element_id().unwrap();
    let children: Vec<_> = doc.children(root);
    assert_eq!(children.len(), 3);

    let first = doc.get_node(children[0]).unwrap();
    assert!(first.prev_sibling.is_none());
    assert!(first.next_sibling.is_some());
}

#[test]
fn document_text_and_attributes() {
    let doc = XmlDocument::parse(b"<r id=\"7\" k='v'>a &amp; b<x/></r>");
    let root = doc.root_element_id().unwrap();
    assert_eq!(doc.get_attribute(root, "id"), Some("7"));
    assert_eq!(doc.get_attribute(root, "k"), Some("v"));
    assert_eq!(doc.get_attribute(root, "missing"), None);
    assert_eq!(doc.get_attribute_values(root), vec![("id", "7"), ("k", "v")]);
    let children = doc.children(root);
    assert_eq!(children.len(), 2);
    assert_eq!(doc.get_node(children[0]).unwrap().kind, NodeKind::Text);
    assert_eq!(doc.text_content(children[0]), Some("a & b"));
    assert_eq!(doc.node_name(children[1]), Some("x"));
    assert_eq!(doc.get_node(children[1]).unwrap().parent, Some(root));
}

#[test]
fn document_namespaces() {
    let doc = XmlDocument::parse(b"<svg:r xmlns:svg=\"urn:s\"><svg:c/></svg:r>");
    let root = doc.root_element_id().unwrap();
    assert_eq!(doc.node_name(root), Some("svg:r"));
    assert_eq!(doc.node_local_name(root), Some("r"));
    assert_eq!(doc.node_prefix(root), Some("svg"));
    // the element's own declarations are in scope for its own prefix
    assert_eq!(doc.node_namespace_uri(root), Some("urn:s"));
    let c = doc.children(root)[0];
    assert_eq!(doc.node_prefix(c), Some("svg"));
    assert_eq!(doc.node_namespace_uri(c), Some("urn:s"));

    let doc = XmlDocument::parse(b"<r xmlns=\"urn:d\"><c/></r>");
    let root = doc.root_element_id().unwrap();
    assert_eq!(doc.node_namespace_uri(root), Some("urn:d"));
    let c = doc.children(root)[0];
    assert_eq!(doc.node_namespace_uri(c), Some("urn:d"));
    assert_eq!(doc.node_prefix(c), None);
}

#[test]
fn document_access_trait_parent_chain() {
    let doc = XmlDocument::parse(b"<a><b><c/></b></a>");
    let a = doc.root_element_id().unwrap();
    let b = doc.children_vec(a)[0];
    let c = doc.children_vec(b)[0];
    assert_eq!(doc.parent_of(c), Some(b));
    assert_eq!(doc.parent_of(b), Some(a));
    assert_eq!(doc.descendants_vec(a), vec![b, c]);
}

#[test]
fn parse_strict_accepts_well_formed() {
    let doc = XmlDocument::parse_strict(b"<?xml version=\"1.0\"?><a><b/></a>").unwrap();
    assert_eq!(doc.node_name(doc.root_element_id().unwrap()), Some("a"));
}

#[test]
fn parse_strict_rejects_mismatched_tags() {
    let err = XmlDocument::parse_strict(b"<a></b>").err().unwrap();
    assert_eq!(err, "Tag mismatch: <a> closed with </b>");
}

// ---------------------------------------------------------------- strict validation

#[test]
fn validate_strict_messages() {
    assert_eq!(validate_strict(b"<a/>"), Ok(()));
    assert_eq!(
        validate_strict(b"<a><b></a>").unwrap_err(),
        "Tag mismatch: <b> closed with </a>"
    );
    assert_eq!(validate_strict(b"<a>").unwrap_err(), "Unclosed tag: <a>");
    assert_eq!(validate_strict(b"").unwrap_err(), "Document has no root element");
    assert_eq!(
        validate_strict(b"<a/><b/>").unwrap_err(),
        "Content not allowed after root element"
    );
    assert_eq!(
        validate_strict(b"<a x=\"1\" x=\"2\"/>").unwrap_err(),
        "Duplicate attribute: x"
    );
    assert_eq!(
        validate_strict(b"hi<a/>").unwrap_err(),
        "Text content not allowed before root element"
    );
    assert_eq!(
        validate_strict(b"<a/>hi").unwrap_err(),
        "Content not allowed after root element"
    );
    assert_eq!(
        validate_strict(b"<a/><!DOCTYPE a>").unwrap_err(),
        "DOCTYPE must come before root element"
    );
}

#[test]
fn validate_strict_detects_entity_cycle() {
    let doc = b"<!DOCTYPE a [<!ENTITY x \"&y;\"><!ENTITY y \"&x;\">]><a/>";
    assert!(validate_strict(doc).is_err());
    let ok = b"<!DOCTYPE a [<!ENTITY x \"&y;\"><!ENTITY y \"v\">]><a/>";
    assert_eq!(validate_strict(ok), Ok(()));
}

// ---------------------------------------------------------------- namespaces

#[test]
fn test_default_namespaces() {
    let mut strings = StringPool::new();
    let resolver = NamespaceResolver::new(&mut strings);

    let xml_id = strings.intern(b"xml");
    assert!(resolver.resolve(xml_id).is_some());
}

#[test]
fn test_declare_and_resolve() {
    let mut strings = StringPool::new();
    let mut resolver = NamespaceResolver::new(&mut strings);

    let svg_prefix = strings.intern(b"svg");
    let svg_uri = strings.intern(b"http://www.w3.org/2000/svg");

    resolver.push_scope();
    resolver.declare(svg_prefix, svg_uri);

    assert_eq!(resolver.resolve(svg_prefix), Some(svg_uri));
}

#[test]
fn test_scope_pop() {
    let mut strings = StringPool::new();
    let mut resolver = NamespaceResolver::new(&mut strings);

    let prefix = strings.intern(b"foo");
    let uri = strings.intern(b"http://example.com/foo");

    resolver.push_scope();
    resolver.declare(prefix, uri);
    assert_eq!(resolver.resolve(prefix), Some(uri));

    resolver.pop_scope();
    assert_eq!(resolver.resolve(prefix), None);
}

#[test]
fn test_shadow_binding() {
    let mut strings = StringPool::new();
    let mut resolver = NamespaceResolver::new(&mut strings);

    let prefix = strings.intern(b"ns");
    let uri1 = strings.intern(b"http://example.com/ns1");
    let uri2 = strings.intern(b"http://example.com/ns2");

    resolver.push_scope();
    resolver.declare(prefix, uri1);

    resolver.push_scope();
    resolver.declare(prefix, uri2);
    assert_eq!(resolver.resolve(prefix), Some(uri2));

    resolver.pop_scope();
    assert_eq!(resolver.resolve(prefix), Some(uri1));
}

#[test]
fn namespace_default_declaration_and_depth() {
    let mut strings = StringPool::new();
    let mut resolver = NamespaceResolver::new(&mut strings);
    let uri = strings.intern(b"urn:default");
    assert_eq!(resolver.resolve_default(), None);
    resolver.push_scope();
    assert_eq!(resolver.depth(), 1);
    resolver.declare_default(uri);
    assert_eq!(resolver.resolve_default(), Some(uri));
    resolver.pop_scope();
    assert_eq!(resolver.depth(), 0);
    assert_eq!(resolver.resolve_default(), None);
}

// ---------------------------------------------------------------- nodes

#[test]
fn test_node_creation() {
    let doc = XmlNode::document();
    assert_eq!(doc.kind, NodeKind::Document);
    assert!(doc.parent.is_none());
    assert_eq!(doc.depth, 0);
}

#[test]
fn test_element_node() {
    let elem = XmlNode::element(1, Some(0), 1);
    assert_eq!(elem.kind, NodeKind::Element);
    assert_eq!(elem.parent, Some(0));
    assert_eq!(elem.name_id, 1);
    assert_eq!(elem.depth, 1);
}

// ---------------------------------------------------------------- string pool

#[test]
fn test_intern_copied() {
    let mut pool = StringPool::new();
    let id = pool.intern(b"hello");
    assert!(id > 0);
    assert_eq!(pool.get(id), Some(b"hello" as &[u8]));
}

#[test]
fn test_intern_ref() {
    let input = b"<root>hello</root>";
    let mut pool = StringPool::new();
    let id = pool.intern_ref(b"hello", input, 6);
    assert!(id > 0);
    assert_eq!(pool.get_with_input(id, input), Some(b"hello" as &[u8]));
}

#[test]
fn test_intern_duplicate_copied() {
    let mut pool = StringPool::new();
    let id1 = pool.intern(b"hello");
    let id2 = pool.intern(b"hello");
    assert_eq!(id1, id2);
}

#[test]
fn test_intern_different() {
    let mut pool = StringPool::new();
    let id1 = pool.intern(b"hello");
    let id2 = pool.intern(b"world");
    assert_ne!(id1, id2);
}

#[test]
fn test_empty_string() {
    let input = b"test";
    let mut pool = StringPool::new();
    let id = pool.intern(b"");
    assert_eq!(id, 0);
    assert_eq!(pool.get_with_input(0, input), Some(b"" as &[u8]));
}

#[test]
fn test_get_str_copied() {
    let mut pool = StringPool::new();
    let id = pool.intern(b"hello");
    assert_eq!(pool.get_str(id), Some("hello"));
}

#[test]
fn test_get_str_with_input() {
    let input = b"<name>world</name>";
    let mut pool = StringPool::new();
    let id = pool.intern_ref(b"world", input, 6);
    assert_eq!(pool.get_str_with_input(id, input), Some("world"));
}

#[test]
fn test_entry_types() {
    let input = b"hello world";
    let mut pool = StringPool::new();

    let id1 = pool.intern(b"copied");
    assert!(matches!(pool.get_entry(id1), Some(StringEntry::Copied(_, _))));

    let id2 = pool.intern_ref(b"hello", input, 0);
    assert!(matches!(pool.get_entry(id2), Some(StringEntry::InputRef(_, _))));
}

#[test]
fn string_pool_read_back_and_counts() {
    let mut pool = StringPool::new();
    assert!(pool.is_empty());
    let a = pool.intern(b"alpha");
    let b = pool.intern(b"beta");
    let a2 = pool.intern(b"alpha");
    assert_eq!(a, a2);
    assert_eq!(pool.get(a), Some(b"alpha" as &[u8]));
    assert_eq!(pool.get(b), Some(b"beta" as &[u8]));
    assert_eq!(pool.len(), 3);
    assert_eq!(pool.bytes_used(), 9);
    assert_eq!(pool.get(99), None);
}

#[test]
fn strict_rejects_undefined_entity_in_attribute() {
    let r = validate_strict(b"<a b='&undefined;'/>");
    assert_eq!(r, Err("Undefined entity reference in attribute value".to_string()));
    assert!(XmlDocument::parse_strict(b"<a b='&undefined;'/>").is_err());
    assert!(validate_strict(b"<a b='&lt;&#65;&amp;'/>").is_ok());
    let lenient = XmlDocument::parse(b"<a b='&undefined;'/>");
    let root = lenient.root_element_id().unwrap();
    assert_eq!(lenient.get_attribute(root, "b"), Some("&undefined;"));
}

#[test]
fn strict_accepts_non_ascii_attribute_name() {
    assert!(validate_strict("<a d\u{e9}='1'/>".as_bytes()).is_ok());
}

#[test]
fn strict_reports_entity_cycle_message() {
    let input = b"<!DOCTYPE a [<!ENTITY x \"&y;\"><!ENTITY y \"&x;\">]><a/>";
    let expected = Err("Entity 'x' references itself (directly or indirectly)".to_string());
    assert_eq!(validate_strict(input), expected);
    assert_eq!(XmlDocument::parse_strict(input).err(), expected.err());
}

#[test]
fn sibling_links_follow_document_order() {
    let doc = XmlDocument::parse(b"<root><a/>t<b/><c/></root>");
    let root = doc.root_element_id().unwrap();
    let kids = doc.children(root);
    assert_eq!(kids.len(), 4);
    let r = doc.get_node(root).unwrap();
    assert_eq!(r.first_child, Some(kids[0]));
    assert_eq!(r.last_child, Some(kids[3]));
    for i in 0..kids.len() {
        let n = doc.get_node(kids[i]).unwrap();
        let prev = if i == 0 { None } else { Some(kids[i - 1]) };
        let next = if i + 1 == kids.len() { None } else { Some(kids[i + 1]) };
        assert_eq!(n.prev_sibling, prev);
        assert_eq!(n.next_sibling, next);
    }
}

#[test]
fn own_prefix_declaration_binds_element() {
    let input = b"<ns:r xmlns:ns='u'/>";
    let doc = XmlDocument::parse(input);
    let r = doc.root_element_id().unwrap();
    let node = doc.get_node(r).unwrap();
    assert_eq!(doc.strings.get_str_with_input(node.namespace_id, input), Some("u"));
    assert_eq!(doc.node_namespace_uri(r), Some("u"));
}

#[test]
fn namespace_resolution_by_scope() {
    let input = b"<root p:x='1' xmlns='d'><p:a xmlns:p='u1'><p:b/><c/></p:a><q:e/></root>";
    let doc = XmlDocument::parse(input);
    let root = doc.root_element_id().unwrap();
    assert_eq!(doc.node_namespace_uri(root), Some("d"));
    let kids = doc.children(root);
    let a = kids[0];
    assert_eq!(doc.node_namespace_uri(a), Some("u1"));
    let a_kids = doc.children(a);
    assert_eq!(doc.node_namespace_uri(a_kids[0]), Some("u1"));
    // an unprefixed child takes the default of the innermost open element only
    assert_eq!(doc.node_namespace_uri(a_kids[1]), None);
    // an undeclared prefix resolves to no namespace
    assert_eq!(doc.node_namespace_uri(kids[1]), None);
}

#[test]
fn string_value_of_nodes() {
    let doc = XmlDocument::parse(b"<r>a<b>b<!--c--><![CDATA[d]]></b><?p e?>f</r>");
    let root = doc.root_element_id().unwrap();
    assert_eq!(rustyxml::dom::node_string_value(&doc, root), "abdf");
    let kids = doc.children(root);
    assert_eq!(rustyxml::dom::node_string_value(&doc, kids[0]), "a");
    assert_eq!(rustyxml::dom::node_string_value(&doc, kids[1]), "bd");
    assert_eq!(rustyxml::dom::node_string_value(&doc, kids[2]), "");
    assert_eq!(rustyxml::dom::node_string_value(&doc, 0), "");
}

#[test]
fn intern_gives_different_strings_different_ids() {
    let mut pool = StringPool::new();
    let a = pool.intern(b"alpha");
    let b = pool.intern(b"beta");
    assert_ne!(a, b);
    assert_eq!(pool.intern(b"alpha"), a);
    assert_eq!(pool.get(a), Some(&b"alpha"[..]));
    assert_eq!(pool.get(b), Some(&b"beta"[..]));
}

#[test]
fn small_documents_fit_the_string_pool() {
    let doc = XmlDocument::parse(b"<root a='1'>hello &amp; bye</root>");
    assert!(doc.strings_fit());
}

#[test]
fn serialize_element_tree_to_xml() {
    let doc = XmlDocument::parse(b"<root a=\"1&amp;2\" q='say \"hi\"'><b/>t&lt;x<![CDATA[z<]]><c>d</c></root>");
    let root = doc.root_element_id().unwrap();
    let expected = "<root a=\"1&amp;2\" q=\"say &quot;hi&quot;\"><b/>t&lt;x<![CDATA[z<]]><c>d</c></root>";
    assert_eq!(serialize_node_to_xml(&doc, root), expected);
    assert_eq!(serialize_node_to_xml(&doc, 0), expected);
}

#[test]
fn strict_accepts_declared_internal_entity_in_attribute() {
    let doc = b"<!DOCTYPE a [<!ENTITY e \"x\">]><a b='&e;'/>";
    assert_eq!(validate_strict(doc), Ok(()));
    assert!(XmlDocument::parse_strict(doc).is_ok());
    let undeclared = b"<!DOCTYPE a [<!ENTITY e \"x\">]><a b='&f;'/>";
    assert_eq!(
        validate_strict(undeclared),
        Err("Undefined entity reference in attribute value".to_string())
    );
    let external = b"<!DOCTYPE a [<!ENTITY e SYSTEM \"e.xml\">]><a b='&e;'/>";
    assert_eq!(
        validate_strict(external),
        Err("External entity reference not allowed in attribute value".to_string())
    );
    assert!(XmlDocument::parse_strict(external).is_err());
}
