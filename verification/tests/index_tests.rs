use rustyxml::dom::DocumentAccess;
use rustyxml::index::builder::build_index;
use rustyxml::index::element::{element_flags, ChildRef, IndexAttribute, IndexElement, IndexText, NO_NODE};
use rustyxml::index::sort_keys::sort_keys;
use rustyxml::index::span::{ExtendedSpan, Span};
use rustyxml::index::structural::StructuralIndex;
use rustyxml::index::view::{
    decode_node_id, encode_element_id, DOCUMENT_NODE_ID, encode_text_id, is_text_node_id, IndexedDocumentView,
};

// ---------------------------------------------------------------- builder

#[test]
fn test_build_simple() {
    let xml = b"<root><child>text</child></root>";
    let index = build_index(xml);

    assert_eq!(index.element_count(), 2);
    assert!(index.root.is_some());
}

#[test]
fn test_build_with_attributes() {
    let xml = b"<root id=\"1\" name=\"test\"><child/></root>";
    let index = build_index(xml);

    assert_eq!(index.element_count(), 2);
    assert_eq!(index.attribute_count(), 2);
}

#[test]
fn test_build_nested() {
    let xml = b"<a><b><c/></b><d/></a>";
    let index = build_index(xml);

    assert_eq!(index.element_count(), 4);

    let root_children: Vec<_> = index.children(0);
    assert_eq!(root_children.len(), 2);
}

#[test]
fn test_build_with_text() {
    let xml = b"<root>hello<child>world</child>!</root>";
    let index = build_index(xml);

    assert_eq!(index.element_count(), 2);
    assert!(index.text_count() >= 2);
}

#[test]
fn build_children_in_document_order() {
    let xml = b"<r>x<a/>y<b/>z</r>";
    let index = build_index(xml);
    let kids = index.children(0);
    assert_eq!(kids.len(), 5);
    assert!(kids[0].is_text() && kids[1].is_element() && kids[2].is_text());
    assert_eq!(index.element_name(kids[1].index(), xml), Some("a"));
    assert_eq!(index.element_name(kids[3].index(), xml), Some("b"));
    assert_eq!(index.text_content(kids[4].index(), xml), Some("z"));
    assert_eq!(index.element_children(0), vec![1, 2]);
    assert_eq!(index.parent(2), Some(0));
    assert_eq!(index.next_sibling(1), Some(2));
    assert_eq!(index.next_sibling(2), None);
}

#[test]
fn build_empty_input_has_no_root() {
    let index = build_index(b"");
    assert!(index.root.is_none());
    assert_eq!(index.element_count(), 0);
}

#[test]
fn build_find_elements_by_name() {
    let xml = b"<r><x:item/><item/><other/></r>";
    let index = build_index(xml);
    assert_eq!(index.find_elements_by_name("item", xml), vec![2]);
    assert_eq!(index.find_elements_by_local_name("item", xml), vec![1, 2]);
}

// ---------------------------------------------------------------- element

#[test]
fn test_index_element_size() {
    let size = std::mem::size_of::<IndexElement>();
    assert!(size <= 40, "IndexElement too large: {} bytes", size);
}

#[test]
fn test_index_text_size() {
    let size = std::mem::size_of::<IndexText>();
    assert!(size <= 24, "IndexText too large: {} bytes", size);
}

#[test]
fn test_index_attribute_size() {
    let size = std::mem::size_of::<IndexAttribute>();
    assert!(size <= 16, "IndexAttribute too large: {} bytes", size);
}

#[test]
fn test_child_ref() {
    let elem = ChildRef::element(42);
    assert!(elem.is_element());
    assert!(!elem.is_text());
    assert_eq!(elem.index(), 42);

    let text = ChildRef::text(100);
    assert!(text.is_text());
    assert!(!text.is_element());
    assert_eq!(text.index(), 100);
}

#[test]
fn child_ref_raw_round_trip() {
    let t = ChildRef::text(7);
    assert_eq!(ChildRef::from_raw(t.raw()), t);
    assert_eq!(t.raw(), 0x8000_0007);
}

#[test]
fn test_element_flags() {
    let mut elem = IndexElement::default();
    assert!(!elem.is_empty());

    elem.flags |= element_flags::IS_EMPTY;
    assert!(elem.is_empty());
}

#[test]
fn test_text_flags() {
    let text = IndexText::new(0, 10, 0);
    assert!(text.is_text());
    assert!(!text.needs_decode());

    let text_with_entities = IndexText::new_with_entities(0, 10, 0);
    assert!(text_with_entities.needs_decode());

    let cdata = IndexText::cdata(0, 10, 0);
    assert!(cdata.is_cdata());
    assert!(!cdata.is_text());
}

// ---------------------------------------------------------------- span

#[test]
fn test_span_basic() {
    let span = Span::new(5, 10);
    assert_eq!(span.offset, 5);
    assert_eq!(span.len, 10);
    assert_eq!(span.end(), 15);
    assert!(!span.is_empty());
}

#[test]
fn test_span_empty() {
    let span = Span::empty();
    assert!(span.is_empty());
    assert_eq!(span.offset, 0);
    assert_eq!(span.len, 0);
}

#[test]
fn test_span_slice() {
    let input = b"hello world";
    let span = Span::new(6, 5);
    assert_eq!(span.slice(input), b"world");
}

#[test]
fn test_span_as_str() {
    let input = b"hello world";
    let span = Span::new(0, 5);
    assert_eq!(span.as_str(input), Some("hello"));
}

#[test]
fn test_span_from_slice() {
    let input = b"hello world";
    let slice = &input[6..11];
    let span = Span::from_slice(slice, input).unwrap();
    assert_eq!(span.offset, 6);
    assert_eq!(span.len, 5);
}

#[test]
fn span_from_foreign_slice_is_none() {
    let input = b"hello world";
    let other = b"world".to_vec();
    assert!(Span::from_slice(&other, input).is_none());
}

#[test]
fn span_slice_past_end_is_empty() {
    let input = b"abc";
    assert_eq!(Span::new(10, 2).slice(input), b"");
}

#[test]
fn test_extended_span_short() {
    let span = ExtendedSpan::new(0, 100);
    assert_eq!(span.len(), 100);
    assert_eq!(span.extended_len, 0);
}

#[test]
fn test_extended_span_long() {
    let span = ExtendedSpan::new(0, 100_000);
    assert_eq!(span.len(), 100_000);
    assert_eq!(span.span.len, u16::MAX);
    assert_eq!(span.extended_len, 100_000);
}

// ---------------------------------------------------------------- structural

fn make_test_index() -> StructuralIndex {
    let mut index = StructuralIndex::new();

    let root_name = Span::new(1, 4);
    let root = IndexElement::new(root_name, NO_NODE, 0);
    let root_idx = index.add_element(root);
    index.root = Some(root_idx);

    let child_name = Span::new(7, 5);
    let mut child = IndexElement::new(child_name, root_idx, 1);
    child.attr_start = 0;
    child.attr_count = 1;
    let child_idx = index.add_element(child);

    let attr = IndexAttribute::new(Span::new(13, 2), Span::new(17, 5));
    index.add_attribute(attr);

    let text = IndexText::new(24, 11, child_idx);
    let text_idx = index.add_text(text);

    index.set_first_child(root_idx, child_idx);
    index.set_last_child(root_idx, child_idx);
    index.set_children(root_idx, vec![ChildRef::element(child_idx)]);
    index.set_children(child_idx, vec![ChildRef::text(text_idx)]);

    index
}

#[test]
fn test_structural_index_basic() {
    let index = make_test_index();

    assert_eq!(index.element_count(), 2);
    assert_eq!(index.text_count(), 1);
    assert_eq!(index.attribute_count(), 1);
    assert!(index.root.is_some());
}

#[test]
fn test_element_name() {
    let index = make_test_index();
    let input = b"<root><child id=\"value\">hello world</child></root>";

    assert_eq!(index.element_name(0, input), Some("root"));
    assert_eq!(index.element_name(1, input), Some("child"));
}

#[test]
fn test_children_iteration() {
    let index = make_test_index();

    let root_children: Vec<_> = index.children(0);
    assert_eq!(root_children.len(), 1);
    assert!(root_children[0].is_element());
    assert_eq!(root_children[0].index(), 1);

    let child_children: Vec<_> = index.children(1);
    assert_eq!(child_children.len(), 1);
    assert!(child_children[0].is_text());
    assert_eq!(child_children[0].index(), 0);
}

#[test]
fn test_attribute_access() {
    let index = make_test_index();
    let input = b"<root><child id=\"value\">hello world</child></root>";

    let attrs = index.element_attributes(1);
    assert_eq!(attrs.len(), 1);

    assert_eq!(index.get_attribute(1, "id", input), Some("value"));
    assert_eq!(index.get_attribute(1, "missing", input), None);
}

#[test]
fn structural_children_from_parents() {
    let mut index = StructuralIndex::new();
    let r = index.add_element(IndexElement::new(Span::new(1, 1), NO_NODE, 0));
    let a = index.add_element(IndexElement::new(Span::new(4, 1), r, 1));
    let t = index.add_text(IndexText::new(6, 1, r));
    let b = index.add_element(IndexElement::new(Span::new(8, 1), r, 1));
    index.root = Some(r);
    index.build_children_from_parents();
    let kids = index.children(r);
    assert_eq!(kids.len(), 3);
    assert_eq!(index.child_count(r), 3);
    assert_eq!(index.element_children(r), vec![a, b]);
    assert_eq!(index.text_children(r), vec![t]);
}

#[test]
fn sort_keys_orders_ascending() {
    assert_eq!(sort_keys(&[5, 1, 4, 1, 3]), vec![1, 1, 3, 4, 5]);
    assert_eq!(sort_keys(&[]), Vec::<u128>::new());
}

// ---------------------------------------------------------------- view

#[test]
fn test_node_id_encoding() {
    assert_eq!(encode_element_id(0), 0);
    assert_eq!(encode_element_id(100), 100);
    assert_eq!(decode_node_id(0), (false, 0));
    assert_eq!(decode_node_id(100), (false, 100));

    assert_eq!(decode_node_id(encode_text_id(0)), (true, 0));
    assert_eq!(decode_node_id(encode_text_id(100)), (true, 100));
}

#[test]
fn test_basic_view() {
    let input = b"<root><child>text</child></root>";
    let index = build_index(input);
    let view = IndexedDocumentView::new(&index, input);

    let root_id = view.root_element_id();
    assert!(root_id.is_some());

    assert_eq!(view.node_name(root_id.unwrap()), Some("root"));

    let children = view.children_vec(root_id.unwrap());
    assert_eq!(children.len(), 1);

    let child_id = children[0];
    assert_eq!(view.node_name(child_id), Some("child"));
}

#[test]
fn test_text_nodes() {
    let input = b"<root>hello</root>";
    let index = build_index(input);
    let view = IndexedDocumentView::new(&index, input);

    let root_id = view.root_element_id().unwrap();
    let children = view.children_vec(root_id);

    assert_eq!(children.len(), 1);
    let text_id = children[0];

    assert!(is_text_node_id(text_id));
    assert_eq!(view.text_content(text_id), Some("hello"));
    assert_eq!(view.node_name(text_id), None);
    assert_eq!(view.parent_of(text_id), Some(root_id));
}

#[test]
fn view_test_attributes() {
    let input = b"<root id=\"1\" class=\"test\">content</root>";
    let index = build_index(input);
    let view = IndexedDocumentView::new(&index, input);

    let root_id = view.root_element_id().unwrap();

    assert_eq!(view.get_attribute(root_id, "id"), Some("1"));
    assert_eq!(view.get_attribute(root_id, "class"), Some("test"));
    assert_eq!(view.get_attribute(root_id, "missing"), None);

    let attrs = view.get_attribute_values(root_id);
    assert_eq!(attrs.len(), 2);
}

#[test]
fn view_test_descendants() {
    let input = b"<root><a><b>text</b></a><c/></root>";
    let index = build_index(input);
    let view = IndexedDocumentView::new(&index, input);

    let root_id = view.root_element_id().unwrap();
    let descendants = view.descendants_vec(root_id);

    assert_eq!(descendants.len(), 4);
}

#[test]
fn test_navigation() {
    let input = b"<root><a/><b/><c/></root>";
    let index = build_index(input);
    let view = IndexedDocumentView::new(&index, input);

    let root_id = view.root_element_id().unwrap();
    let children = view.children_vec(root_id);

    assert_eq!(children.len(), 3);

    for &child in &children {
        assert_eq!(view.parent_of(child), Some(root_id));
    }

    let a_id = children[0];
    let b_id = children[1];
    let c_id = children[2];

    assert_eq!(view.next_sibling_of(a_id), Some(b_id));
    assert_eq!(view.next_sibling_of(b_id), Some(c_id));
    assert_eq!(view.next_sibling_of(c_id), None);

    assert_eq!(view.prev_sibling_of(c_id), Some(b_id));
    assert_eq!(view.prev_sibling_of(b_id), Some(a_id));
    assert_eq!(view.prev_sibling_of(a_id), None);
}

#[test]
fn view_text_siblings_and_root_parent() {
    let input = b"<root>x<a/>y</root>";
    let index = build_index(input);
    let view = IndexedDocumentView::new(&index, input);
    let root_id = view.root_element_id().unwrap();
    let kids = view.children_vec(root_id);
    assert_eq!(kids.len(), 3);
    assert_eq!(view.next_sibling_of(kids[0]), Some(kids[1]));
    // an element's next sibling is the next entry of the child list, text included
    assert_eq!(view.next_sibling_of(kids[1]), Some(kids[2]));
    assert_eq!(view.next_sibling_of(kids[2]), None);
    assert_eq!(view.prev_sibling_of(kids[2]), Some(kids[1]));
    assert_eq!(view.prev_sibling_of(kids[0]), None);
    assert_eq!(view.parent_of(root_id), Some(DOCUMENT_NODE_ID));
    assert_eq!(view.parent_of(DOCUMENT_NODE_ID), None);
}

#[test]
fn element_changed_in_place() {
    let mut index = build_index(b"<a><b/><c/></a>");
    let before_a = index.get_element(0).unwrap().clone();
    {
        let e = index.get_element_mut(1).unwrap();
        e.flags = 0x40;
    }
    assert_eq!(index.get_element(1).unwrap().flags, 0x40);
    assert_eq!(index.get_element(0).unwrap().flags, before_a.flags);
    assert!(index.get_element_mut(3).is_none());
}

#[test]
fn string_value_through_the_view() {
    let input = b"<r>a<b>b</b>c</r>";
    let index = build_index(input);
    let view = IndexedDocumentView::new(&index, input);
    let root = view.root_element_id().unwrap();
    assert_eq!(rustyxml::dom::node_string_value(&view, root), "abc");
    let kids = view.children_vec(root);
    assert_eq!(rustyxml::dom::node_string_value(&view, kids[1]), "b");
}

#[test]
fn index_links_children_and_siblings() {
    // elements: 0 root, 1 a, 2 b, 3 c, 4 d
    let index = build_index(b"<root><a/><b><c/></b><d/></root>");
    let e = &index.elements;
    assert_eq!(e.len(), 5);
    assert_eq!(e[0].first_child, 1);
    assert_eq!(e[1].next_sibling, 2);
    assert_eq!(e[2].next_sibling, 4);
    assert_eq!(e[4].next_sibling, NO_NODE);
    assert_eq!(e[0].last_child, 4);
    assert_eq!(e[2].first_child, 3);
    assert_eq!(e[2].last_child, 3);
    assert_eq!(e[3].next_sibling, NO_NODE);
    assert_eq!(e[1].first_child, NO_NODE);
    assert_eq!(e[1].last_child, NO_NODE);
    assert_eq!(e[3].depth, e[2].depth + 1);
    assert_eq!(e[0].next_sibling, NO_NODE);
}

#[test]
fn serialize_from_the_index_view() {
    let input = b"<r a=\"x\"><b/>hi<c>d</c></r>";
    let index = build_index(input);
    let view = IndexedDocumentView::new(&index, input);
    let root = view.root_element_id().unwrap();
    assert_eq!(
        rustyxml::dom::serialize::serialize_node_to_xml(&view, root),
        "<r a=\"x\"><b/>hi<c>d</c></r>"
    );
}
