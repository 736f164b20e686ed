use dom_parser::dom::error::{ParseError, ParseErrorKind};
use dom_parser::dom::html::Parser;
use dom_parser::dom::node::{Node, NodeType};

fn parser(source: &str) -> Parser {
    Parser::new(source.to_string())
}

fn fails<T>(r: Result<T, ParseError>, kind: ParseErrorKind, offset: usize) {
    match r {
        Ok(_) => panic!("parsed, where {:?} at {} was due", kind, offset),
        Err(e) => assert_eq!(e, ParseError { kind, offset }),
    }
}

fn text_of(node: &Node) -> &str {
    match &node.node_type {
        NodeType::Text(t) => t.as_str(),
        _ => panic!("not a text node"),
    }
}

fn tag_of(node: &Node) -> &str {
    match &node.node_type {
        NodeType::Element(e) => e.tag_name.as_str(),
        _ => panic!("not an element"),
    }
}

#[test]
fn attr_value_in_double_quotes() {
    let mut p = parser("\"main\" x");
    assert_eq!(p.parse_attr_value().ok(), Some("main".to_string()));
    assert_eq!(p.position(), 6);
}

#[test]
fn attr_value_in_single_quotes() {
    let mut p = parser("'a b'>");
    assert_eq!(p.parse_attr_value().ok(), Some("a b".to_string()));
    assert_eq!(p.position(), 5);
}

#[test]
fn attr_value_may_hold_the_other_quote() {
    let mut p = parser("'say \"hi\"'");
    assert_eq!(p.parse_attr_value().ok(), Some("say \"hi\"".to_string()));
    let mut q = parser("\"it's\"");
    assert_eq!(q.parse_attr_value().ok(), Some("it's".to_string()));
}

#[test]
fn attr_value_may_be_empty() {
    let mut p = parser("\"\"");
    assert_eq!(p.parse_attr_value().ok(), Some(String::new()));
    assert_eq!(p.position(), 2);
}

#[test]
fn attr_value_keeps_entities_and_multi_byte_characters() {
    let mut p = parser("\"&amp; caf\u{e9} \u{65e5}\u{672c}\"");
    assert_eq!(
        p.parse_attr_value().ok(),
        Some("&amp; caf\u{e9} \u{65e5}\u{672c}".to_string())
    );
    assert_eq!(p.position(), 15);
}

#[test]
fn attr_value_without_quote_is_expected_quote() {
    let mut p = parser("1>");
    fails(p.parse_attr_value(), ParseErrorKind::ExpectedQuote, 0);
    assert_eq!(p.position(), 0);
    let mut q = parser("");
    fails(q.parse_attr_value(), ParseErrorKind::ExpectedQuote, 0);
}

#[test]
fn attr_value_without_closing_quote_is_unterminated() {
    let mut p = parser("\"abc");
    fails(p.parse_attr_value(), ParseErrorKind::UnterminatedAttrValue, 4);
    assert_eq!(p.position(), 4);
    let mut q = parser("'abc\"");
    fails(q.parse_attr_value(), ParseErrorKind::UnterminatedAttrValue, 5);
}

#[test]
fn attr_is_name_equals_value() {
    let mut p = parser("id=\"main\" ");
    let (name, value) = p.parse_attr().ok().unwrap();
    assert_eq!(name, "id");
    assert_eq!(value, "main");
    assert_eq!(p.position(), 9);
}

#[test]
fn attr_without_equals_is_expected_equals() {
    let mut p = parser("id");
    fails(p.parse_attr(), ParseErrorKind::ExpectedEquals, 2);
    let mut q = parser("id x=\"1\"");
    fails(q.parse_attr(), ParseErrorKind::ExpectedEquals, 2);
    assert_eq!(q.position(), 2);
    let mut r = parser("id =\"1\"");
    fails(r.parse_attr(), ParseErrorKind::ExpectedEquals, 2);
}

#[test]
fn attr_with_bare_value_is_expected_quote() {
    let mut p = parser("x=1");
    fails(p.parse_attr(), ParseErrorKind::ExpectedQuote, 2);
    let mut q = parser("x=");
    fails(q.parse_attr(), ParseErrorKind::ExpectedQuote, 2);
}

#[test]
fn attributes_end_at_the_closing_bracket() {
    let mut p = parser(" a=\"1\"  b='2'\n>rest");
    let attrs = p.parse_attributes().ok().unwrap();
    assert_eq!(attrs.len(), 2);
    assert_eq!(attrs.get("a"), Some(&"1".to_string()));
    assert_eq!(attrs.get("b"), Some(&"2".to_string()));
    assert_eq!(attrs.get("c"), None);
    assert_eq!(p.position(), 14);
    assert_eq!(p.next_char(), Ok('>'));
}

#[test]
fn attributes_may_be_none() {
    let mut p = parser(">");
    let attrs = p.parse_attributes().ok().unwrap();
    assert_eq!(attrs.len(), 0);
    assert_eq!(p.position(), 0);
    let mut q = parser("   >");
    assert_eq!(q.parse_attributes().ok().unwrap().len(), 0);
    assert_eq!(q.position(), 3);
}

#[test]
fn attributes_need_no_space_between_them() {
    let mut p = parser("a=\"1\"b=\"2\">");
    let attrs = p.parse_attributes().ok().unwrap();
    assert_eq!(attrs.len(), 2);
    assert_eq!(attrs.get("a"), Some(&"1".to_string()));
    assert_eq!(attrs.get("b"), Some(&"2".to_string()));
}

#[test]
fn attributes_keep_the_last_of_a_name() {
    let mut p = parser(" x=\"1\" y=\"a\" x=\"2\" x=\"3\">");
    let attrs = p.parse_attributes().ok().unwrap();
    assert_eq!(attrs.len(), 2);
    assert_eq!(attrs.get("x"), Some(&"3".to_string()));
    assert_eq!(attrs.get("y"), Some(&"a".to_string()));
}

#[test]
fn attributes_in_any_order_give_the_same_map() {
    let mut p = parser(" a=\"1\" b=\"2\" c=\"3\">");
    let mut q = parser(" c=\"3\" a=\"1\" b=\"2\">");
    let first = p.parse_attributes().ok().unwrap();
    let second = q.parse_attributes().ok().unwrap();
    assert_eq!(first.len(), 3);
    assert_eq!(second.len(), 3);
    for name in ["a", "b", "c"] {
        assert!(first.contains_key(name));
        assert_eq!(first.get(name), second.get(name));
    }
}

#[test]
fn attributes_cut_off_are_unexpected_eof() {
    let mut p = parser(" a=\"1\" ");
    fails(p.parse_attributes(), ParseErrorKind::UnexpectedEof, 7);
    assert_eq!(p.position(), 7);
    let mut q = parser("");
    fails(q.parse_attributes(), ParseErrorKind::UnexpectedEof, 0);
}

#[test]
fn attributes_pass_on_the_error_of_an_attribute() {
    let mut p = parser(" a=\"1\" b>");
    fails(p.parse_attributes(), ParseErrorKind::ExpectedEquals, 8);
    let mut q = parser(" a=1>");
    fails(q.parse_attributes(), ParseErrorKind::ExpectedQuote, 3);
    let mut r = parser(" a=\"1>");
    fails(r.parse_attributes(), ParseErrorKind::UnterminatedAttrValue, 6);
    let mut s = parser("/>");
    fails(s.parse_attributes(), ParseErrorKind::ExpectedEquals, 0);
}

#[test]
fn text_runs_up_to_the_next_element() {
    let mut p = parser("Hi there <b>");
    let node = p.parse_text();
    assert_eq!(text_of(&node), "Hi there ");
    assert!(node.children.is_empty());
    assert_eq!(p.position(), 9);
}

#[test]
fn text_runs_to_the_end() {
    let mut p = parser("a > b");
    let node = p.parse_text();
    assert_eq!(text_of(&node), "a > b");
    assert!(p.eof());
}

#[test]
fn text_at_an_element_is_empty() {
    let mut p = parser("<a>");
    let node = p.parse_text();
    assert_eq!(text_of(&node), "");
    assert_eq!(p.position(), 0);
}

#[test]
fn node_is_an_element_at_a_bracket_and_text_elsewhere() {
    let mut p = parser("<a></a>x");
    let first = p.parse_node().ok().unwrap();
    assert_eq!(tag_of(&first), "a");
    assert_eq!(p.position(), 7);
    let second = p.parse_node().ok().unwrap();
    assert_eq!(text_of(&second), "x");
    assert_eq!(p.position(), 8);
}

#[test]
fn node_at_the_end_is_unexpected_eof() {
    let mut p = parser("");
    fails(p.parse_node(), ParseErrorKind::UnexpectedEof, 0);
    let mut q = parser("x");
    q.consume_char();
    fails(q.parse_node(), ParseErrorKind::UnexpectedEof, 1);
}

#[test]
fn node_does_not_skip_whitespace_itself() {
    let mut p = parser("  <a></a>");
    let node = p.parse_node().ok().unwrap();
    assert_eq!(text_of(&node), "  ");
    assert_eq!(p.position(), 2);
}

#[test]
fn nodes_stop_at_a_closing_tag() {
    let mut p = parser("  <a></a> text <b></b></c>");
    let nodes = p.parse_nodes().ok().unwrap();
    assert_eq!(nodes.len(), 3);
    assert_eq!(tag_of(&nodes[0]), "a");
    assert_eq!(text_of(&nodes[1]), "text ");
    assert_eq!(tag_of(&nodes[2]), "b");
    assert_eq!(p.position(), 22);
    assert!(p.starts_with("</c>"));
}

#[test]
fn nodes_stop_at_the_end() {
    let mut p = parser("a<b></b>  ");
    let nodes = p.parse_nodes().ok().unwrap();
    assert_eq!(nodes.len(), 2);
    assert_eq!(text_of(&nodes[0]), "a");
    assert_eq!(tag_of(&nodes[1]), "b");
    assert!(p.eof());
}

#[test]
fn nodes_may_be_none() {
    let mut p = parser("   ");
    assert_eq!(p.parse_nodes().ok().unwrap().len(), 0);
    assert_eq!(p.position(), 3);
    let mut q = parser("</a>");
    assert_eq!(q.parse_nodes().ok().unwrap().len(), 0);
    assert_eq!(q.position(), 0);
}

#[test]
fn nodes_pass_on_the_error_of_a_node() {
    let mut p = parser("<a></a><b>");
    fails(p.parse_nodes(), ParseErrorKind::UnexpectedEof, 10);
    assert_eq!(p.position(), 10);
}

#[test]
fn element_with_attributes_and_children() {
    let mut p = parser("<div id=\"main\" class='a b'><p>Hi</p><br></br></div>tail");
    let node = p.parse_element().ok().unwrap();
    assert_eq!(p.position(), 51);
    match &node.node_type {
        NodeType::Element(e) => {
            assert_eq!(e.tag_name, "div");
            assert_eq!(e.attributes.len(), 2);
            assert_eq!(e.attributes.get("id"), Some(&"main".to_string()));
            assert_eq!(e.attributes.get("class"), Some(&"a b".to_string()));
        }
        _ => panic!("not an element"),
    }
    assert_eq!(node.children.len(), 2);
    assert_eq!(tag_of(&node.children[0]), "p");
    assert_eq!(text_of(&node.children[0].children[0]), "Hi");
    assert_eq!(tag_of(&node.children[1]), "br");
    assert!(node.children[1].children.is_empty());
}

#[test]
fn element_without_opening_bracket_is_expected_lt() {
    let mut p = parser("a></a>");
    fails(p.parse_element(), ParseErrorKind::ExpectedLt, 0);
    assert_eq!(p.position(), 0);
    let mut q = parser("");
    fails(q.parse_element(), ParseErrorKind::ExpectedLt, 0);
}

#[test]
fn element_cut_off_in_the_opening_tag_is_unexpected_eof() {
    let mut p = parser("<a");
    fails(p.parse_element(), ParseErrorKind::UnexpectedEof, 2);
    let mut q = parser("<");
    fails(q.parse_element(), ParseErrorKind::UnexpectedEof, 1);
    let mut r = parser("<a  ");
    fails(r.parse_element(), ParseErrorKind::UnexpectedEof, 4);
}

#[test]
fn element_without_closing_tag_is_unexpected_eof() {
    let mut p = parser("<a>text");
    fails(p.parse_element(), ParseErrorKind::UnexpectedEof, 7);
    assert_eq!(p.position(), 7);
    let mut q = parser("<a>");
    fails(q.parse_element(), ParseErrorKind::UnexpectedEof, 3);
    let mut r = parser("<a><b></b>  ");
    fails(r.parse_element(), ParseErrorKind::UnexpectedEof, 12);
}

#[test]
fn element_closed_by_another_name_is_mismatched() {
    let mut p = parser("<a></b>");
    fails(p.parse_element(), ParseErrorKind::MismatchedClosingTag, 6);
    assert_eq!(p.position(), 6);
    let mut q = parser("<ab></a>");
    fails(q.parse_element(), ParseErrorKind::MismatchedClosingTag, 7);
    let mut r = parser("<a></A>");
    fails(r.parse_element(), ParseErrorKind::MismatchedClosingTag, 6);
    let mut s = parser("<a><b></a></b>");
    fails(s.parse_element(), ParseErrorKind::MismatchedClosingTag, 9);
}

#[test]
fn element_with_open_closing_tag_is_expected_close_gt() {
    let mut p = parser("<a></a");
    fails(p.parse_element(), ParseErrorKind::ExpectedCloseGt, 6);
    assert_eq!(p.position(), 6);
    let mut q = parser("<a></a >");
    fails(q.parse_element(), ParseErrorKind::ExpectedCloseGt, 6);
}

#[test]
fn element_with_a_slash_in_the_opening_tag_is_expected_equals() {
    let mut p = parser("<br/>");
    fails(p.parse_element(), ParseErrorKind::ExpectedEquals, 3);
    let mut q = parser("<br />");
    fails(q.parse_element(), ParseErrorKind::ExpectedEquals, 4);
}

#[test]
fn element_name_may_be_empty() {
    let mut p = parser("<>x</>");
    let node = p.parse_element().ok().unwrap();
    assert_eq!(tag_of(&node), "");
    assert_eq!(node.children.len(), 1);
    assert_eq!(text_of(&node.children[0]), "x");
    assert_eq!(p.position(), 6);
}

#[test]
fn comment_syntax_is_not_part_of_the_grammar() {
    let mut p = parser("<!-- note -->");
    fails(p.parse_element(), ParseErrorKind::ExpectedEquals, 1);
}
