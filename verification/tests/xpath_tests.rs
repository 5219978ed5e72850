use rustyxml::dom::document::XmlDocument;
use rustyxml::dom::node::NodeKind;
use rustyxml::dom::DocumentAccess;
use rustyxml::xpath::axes::{matches_node_test, navigate, node_test_matches};
use rustyxml::xpath::compiler::CompiledNodeTest;
use rustyxml::xpath::lexer::{Lexer, Token};
use rustyxml::xpath::parser::{parse, Axis, BinaryOp, Expr, NodeTest, Parser};
use rustyxml::xpath::strings;

#[test]
fn test_child_axis() {
    let doc = XmlDocument::parse(b"<root><a/><b/></root>");
    let root = doc.root_element_id().unwrap();
    let children = navigate(&doc, root, Axis::Child);
    assert_eq!(children.len(), 2);
}

#[test]
fn test_descendant_axis() {
    let doc = XmlDocument::parse(b"<root><a><b/></a><c/></root>");
    let root = doc.root_element_id().unwrap();
    let descendants = navigate(&doc, root, Axis::Descendant);
    assert_eq!(descendants.len(), 3); // a, b, c
}

#[test]
fn test_ancestor_axis() {
    let doc = XmlDocument::parse(b"<root><a><b/></a></root>");
    let root = doc.root_element_id().unwrap();
    let children: Vec<_> = doc.children_vec(root);
    let a = children[0];
    let a_children: Vec<_> = doc.children_vec(a);
    let b = a_children[0];
    let ancestors = navigate(&doc, b, Axis::Ancestor);
    assert_eq!(ancestors.len(), 3); // a, root, document
}

#[test]
fn axis_names() {
    assert_eq!(Axis::from_str("child"), Some(Axis::Child));
    assert_eq!(Axis::from_str("descendant-or-self"), Some(Axis::DescendantOrSelf));
    assert_eq!(Axis::from_str("preceding-sibling"), Some(Axis::PrecedingSibling));
    assert_eq!(Axis::from_str("self"), Some(Axis::Self_));
    assert_eq!(Axis::from_str("namespace"), Some(Axis::Namespace));
    assert_eq!(Axis::from_str("Child"), None);
    assert_eq!(Axis::from_str(""), None);
}

#[test]
fn node_tests_by_kind_and_name() {
    let name = CompiledNodeTest::Name("a".to_string());
    assert!(node_test_matches(NodeKind::Element, Some("a"), None, &name));
    assert!(!node_test_matches(NodeKind::Element, Some("b"), None, &name));
    assert!(!node_test_matches(NodeKind::Text, Some("a"), None, &name));
    assert!(node_test_matches(NodeKind::CData, None, None, &CompiledNodeTest::Text));
    assert!(!node_test_matches(NodeKind::Comment, None, None, &CompiledNodeTest::Any));
    assert!(node_test_matches(NodeKind::Comment, None, None, &CompiledNodeTest::Node));
    let pi = CompiledNodeTest::ProcessingInstruction(Some("go".to_string()));
    assert!(node_test_matches(NodeKind::ProcessingInstruction, None, Some("go"), &pi));
    assert!(!node_test_matches(NodeKind::ProcessingInstruction, None, Some("stop"), &pi));
    let qname = CompiledNodeTest::QName("x".to_string(), "a".to_string());
    assert!(node_test_matches(NodeKind::Element, Some("a"), None, &qname));
}

#[test]
fn node_tests_on_document() {
    let doc = XmlDocument::parse(b"<r><x:a xmlns:x=\"urn:x\"/>text<!--c--></r>");
    let root = doc.root_element_id().unwrap();
    let kids = doc.children_vec(root);
    assert_eq!(kids.len(), 3);
    let by_local = CompiledNodeTest::Name("a".to_string());
    assert!(matches_node_test(&doc, kids[0], &by_local));
    assert!(!matches_node_test(&doc, kids[1], &by_local));
    assert!(matches_node_test(&doc, kids[1], &CompiledNodeTest::Text));
    assert!(matches_node_test(&doc, kids[2], &CompiledNodeTest::Comment));
}

#[test]
fn lexer_starts_at_zero() {
    let lexer = Lexer::new("/a/b");
    assert_eq!(lexer.input(), "/a/b");
    assert_eq!(lexer.position(), 0);
}

#[test]
fn lexer_test_simple_path() {
    let mut lexer = Lexer::new("/root/child");
    assert_eq!(lexer.next_token(), Token::Slash);
    assert_eq!(lexer.next_token(), Token::Name("root".to_string()));
    assert_eq!(lexer.next_token(), Token::Slash);
    assert_eq!(lexer.next_token(), Token::Name("child".to_string()));
    assert_eq!(lexer.next_token(), Token::Eof);
}

#[test]
fn lexer_test_descendant() {
    let mut lexer = Lexer::new("//item");
    assert_eq!(lexer.next_token(), Token::DoubleSlash);
    assert_eq!(lexer.next_token(), Token::Name("item".to_string()));
}

#[test]
fn lexer_test_predicate() {
    let mut lexer = Lexer::new("item[@id='test']");
    assert_eq!(lexer.next_token(), Token::Name("item".to_string()));
    assert_eq!(lexer.next_token(), Token::LeftBracket);
    assert_eq!(lexer.next_token(), Token::At);
    assert_eq!(lexer.next_token(), Token::Name("id".to_string()));
    assert_eq!(lexer.next_token(), Token::Eq);
    assert_eq!(lexer.next_token(), Token::String("test".to_string()));
    assert_eq!(lexer.next_token(), Token::RightBracket);
}

#[test]
fn test_axis() {
    let mut lexer = Lexer::new("child::element");
    assert_eq!(lexer.next_token(), Token::Axis("child".to_string()));
    assert_eq!(lexer.next_token(), Token::DoubleColon);
    assert_eq!(lexer.next_token(), Token::Name("element".to_string()));
}

#[test]
fn test_number() {
    let mut lexer = Lexer::new("position() = 1");
    let tokens = lexer.tokenize();
    assert!(matches!(tokens.last(), Some(Token::Number(n)) if n.parse::<f64>() == Ok(1.0)));
}

#[test]
fn lexer_numbers_keywords_and_name_tests() {
    let mut lexer = Lexer::new(" .5 3.25 7. a and b div ns:* ns:x text() f(");
    let tokens = lexer.tokenize();
    assert_eq!(
        tokens,
        vec![
            Token::Number(".5".to_string()),
            Token::Number("3.25".to_string()),
            Token::Number("7".to_string()),
            Token::Dot,
            Token::Name("a".to_string()),
            Token::And,
            Token::Name("b".to_string()),
            Token::Div,
            Token::NameTest("ns:*".to_string()),
            Token::NameTest("ns:x".to_string()),
            Token::NodeType("text".to_string()),
            Token::LeftParen,
            Token::RightParen,
            Token::Name("f".to_string()),
            Token::LeftParen,
        ]
    );
    assert_eq!(lexer.next_token(), Token::Eof);
}

#[test]
fn lexer_operators_and_odd_characters() {
    let mut lexer = Lexer::new("a != b <= c >= d | $v , ! : \"open");
    let tokens = lexer.tokenize();
    assert_eq!(
        tokens,
        vec![
            Token::Name("a".to_string()),
            Token::NotEq,
            Token::Name("b".to_string()),
            Token::LtEq,
            Token::Name("c".to_string()),
            Token::GtEq,
            Token::Name("d".to_string()),
            Token::Pipe,
            Token::Dollar,
            Token::Name("v".to_string()),
            Token::Comma,
            Token::Name("!".to_string()),
            Token::Name(":".to_string()),
            Token::String("open".to_string()),
        ]
    );
}

#[test]
fn lexer_axis_after_whitespace_and_unicode_name() {
    let mut lexer = Lexer::new("ancestor ::caf\u{e9}");
    assert_eq!(lexer.next_token(), Token::Axis("ancestor".to_string()));
    assert_eq!(lexer.next_token(), Token::DoubleColon);
    assert_eq!(lexer.next_token(), Token::Name("caf\u{e9}".to_string()));
    assert_eq!(lexer.position(), 15);
}

#[test]
fn all_axes_on_a_small_tree() {
    // ids: 0 document, 1 r, 2 a, 3 x (text), 4 b, 5 c, 6 d
    let doc = XmlDocument::parse(b"<r><a>x<b/></a><c/><d/></r>");
    let c = 5;
    assert_eq!(doc.node_name(c), Some("c"));
    assert_eq!(navigate(&doc, c, Axis::Parent), vec![1]);
    assert_eq!(navigate(&doc, c, Axis::Self_), vec![5]);
    assert_eq!(navigate(&doc, c, Axis::AncestorOrSelf), vec![5, 1, 0]);
    assert_eq!(navigate(&doc, c, Axis::FollowingSibling), vec![6]);
    assert_eq!(navigate(&doc, c, Axis::PrecedingSibling), vec![2]);
    assert_eq!(navigate(&doc, c, Axis::Following), vec![6]);
    assert_eq!(navigate(&doc, c, Axis::Preceding), vec![4, 3, 2]);
    assert_eq!(navigate(&doc, 2, Axis::Following), vec![5, 6]);
    assert_eq!(navigate(&doc, 2, Axis::DescendantOrSelf), vec![2, 3, 4]);
    assert_eq!(navigate(&doc, 3, Axis::Following), vec![4, 5, 6]);
    assert!(navigate(&doc, c, Axis::Attribute).is_empty());
    assert!(navigate(&doc, c, Axis::Namespace).is_empty());
}

#[test]
fn parser_test_simple_path() {
    let expr = parse("/root/child").unwrap();
    assert!(matches!(expr, Expr::Path(..)));
}

#[test]
fn parser_test_predicate() {
    let expr = parse("item[@id='test']").unwrap();
    assert!(matches!(expr, Expr::Step(_) | Expr::Filter(..)));
}

#[test]
fn parser_test_descendant() {
    let expr = parse("//item").unwrap();
    assert!(matches!(expr, Expr::Path(..)));
}

#[test]
fn test_function() {
    let expr = parse("count(//item)").unwrap();
    assert!(matches!(expr, Expr::Function(name, _) if name == "count"));
}

#[test]
fn parser_root_alone_and_descendant_shape() {
    assert!(matches!(parse("/").unwrap(), Expr::Root));
    match parse("//item").unwrap() {
        Expr::Path(base, step) => {
            match *base {
                Expr::Path(root, d) => {
                    assert!(matches!(*root, Expr::Root));
                    assert_eq!(d.axis, Axis::DescendantOrSelf);
                    assert!(matches!(d.node_test, NodeTest::Node));
                }
                other => panic!("unexpected base {:?}", other),
            }
            assert_eq!(step.axis, Axis::Child);
            assert!(matches!(&step.node_test, NodeTest::Name(n) if n == "item"));
        }
        other => panic!("unexpected {:?}", other),
    }
}

#[test]
fn parser_numbers_stay_as_written() {
    match parse("position() = 1.50").unwrap() {
        Expr::Binary(left, op, right) => {
            assert!(matches!(*left, Expr::Function(ref n, ref args) if n == "position" && args.is_empty()));
            assert_eq!(op, BinaryOp::Eq);
            assert!(matches!(*right, Expr::Number(ref t) if t == "1.50"));
        }
        other => panic!("unexpected {:?}", other),
    }
}

#[test]
fn parser_precedence_of_operators() {
    // or binds loosest, then and, =, <, +, *, and unary minus binds tightest
    match parse("1 + 2 * 3 = 7 or -a and b").unwrap() {
        Expr::Binary(left, BinaryOp::Or, right) => {
            match *left {
                Expr::Binary(sum, BinaryOp::Eq, seven) => {
                    assert!(matches!(*seven, Expr::Number(ref t) if t == "7"));
                    match *sum {
                        Expr::Binary(one, BinaryOp::Add, prod) => {
                            assert!(matches!(*one, Expr::Number(ref t) if t == "1"));
                            assert!(matches!(*prod, Expr::Binary(_, BinaryOp::Mul, _)));
                        }
                        other => panic!("unexpected sum {:?}", other),
                    }
                }
                other => panic!("unexpected left {:?}", other),
            }
            match *right {
                Expr::Binary(neg, BinaryOp::And, _) => assert!(matches!(*neg, Expr::Negate(_))),
                other => panic!("unexpected right {:?}", other),
            }
        }
        other => panic!("unexpected {:?}", other),
    }
}

#[test]
fn parser_union_and_axes() {
    match parse("a | ancestor::b").unwrap() {
        Expr::Union(a, b) => {
            assert!(matches!(*a, Expr::Step(ref s) if s.axis == Axis::Child));
            assert!(matches!(*b, Expr::Step(ref s) if s.axis == Axis::Ancestor));
        }
        other => panic!("unexpected {:?}", other),
    }
    assert!(matches!(parse("@id").unwrap(), Expr::Step(ref s) if s.axis == Axis::Attribute));
    assert!(matches!(parse("..").unwrap(), Expr::Parent));
    assert!(matches!(parse(".").unwrap(), Expr::Context));
    assert!(matches!(parse("$v").unwrap(), Expr::Variable(ref n) if n == "v"));
    assert!(matches!(parse("'lit'").unwrap(), Expr::String(ref n) if n == "lit"));
}

#[test]
fn parser_node_type_tests() {
    assert!(matches!(parse("text()").unwrap(), Expr::Step(ref s) if matches!(s.node_test, NodeTest::Text)));
    assert!(matches!(parse("comment()").unwrap(), Expr::Step(ref s) if matches!(s.node_test, NodeTest::Comment)));
    match parse("processing-instruction('x')").unwrap() {
        Expr::Step(s) => {
            assert!(matches!(s.node_test, NodeTest::ProcessingInstruction(Some(ref t)) if t == "x"))
        }
        other => panic!("unexpected {:?}", other),
    }
}

#[test]
fn parser_errors() {
    assert_eq!(parse("a[1").unwrap_err(), "Expected ]");
    assert_eq!(parse("count(1").unwrap_err(), "Expected )");
    assert_eq!(parse("").unwrap_err(), "Unexpected token: Eof");
    assert_eq!(parse("bogus::a").unwrap_err(), "Unknown axis: bogus");
    assert_eq!(parse("$").unwrap_err(), "Expected variable name");
}

#[test]
fn parser_struct_parses_primary_and_whole() {
    let mut p = Parser::new("'x' = 'y'");
    assert!(matches!(p.parse_primary_expr().unwrap(), Expr::String(ref s) if s == "x"));
    let mut whole = Parser::new("'x' = 'y'");
    assert!(matches!(whole.parse().unwrap(), Expr::Binary(_, BinaryOp::Eq, _)));
}

#[test]
fn string_functions_on_characters() {
    assert_eq!(strings::normalize_space("  hello   world  "), "hello world");
    assert_eq!(strings::normalize_space("\tone\n two\u{3000}three "), "one two three");
    assert_eq!(strings::normalize_space("   "), "");
    assert!(strings::contains("hello world", "world"));
    assert!(strings::contains("hello", ""));
    assert!(!strings::contains("hello", "hellos"));
    assert!(strings::starts_with("hello", "he"));
    assert!(!strings::starts_with("hello", "lo"));
    assert_eq!(strings::substring_before("1999/04/01", "/"), "1999");
    assert_eq!(strings::substring_after("1999/04/01", "/"), "04/01");
    assert_eq!(strings::substring_before("abc", "x"), "");
    assert_eq!(strings::substring_after("abc", "x"), "");
    assert_eq!(strings::substring_after("abc", ""), "abc");
    assert_eq!(strings::substring_after("héllo wörld", "ö"), "rld");
    assert_eq!(strings::translate("bar", "abc", "ABC"), "BAr");
    assert_eq!(strings::translate("--aaa--", "abc-", "ABC"), "AAA");
    assert_eq!(strings::translate("aab", "aa", "xy"), "xxb");
}

#[test]
fn normalize_space_splits_on_unicode_white_space() {
    for code in 0u32..0x3100 {
        if let Some(c) = char::from_u32(code) {
            let s = format!("a{}b", c);
            let expected = if c.is_whitespace() { "a b".to_string() } else { s.clone() };
            assert_eq!(strings::normalize_space(&s), expected, "code point {:x}", code);
        }
    }
}
