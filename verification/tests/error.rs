use dom_parser::dom::error::{ParseError, ParseErrorKind};
use dom_parser::dom::html::Parser;
use dom_parser::dom::node::{Node, NodeType};

fn parse_error(source: &str) -> ParseError {
    match Parser::parse(source.to_string()) {
        Ok(_) => panic!("parsed {:?}", source),
        Err(e) => e,
    }
}

fn at(offset: usize) -> ParseError {
    ParseError { kind: ParseErrorKind::UnexpectedEof, offset }
}

#[test]
fn line_and_column_count_from_zero() {
    assert_eq!(at(0).line_column("abc"), (0, 0));
    assert_eq!(at(2).line_column("abc"), (0, 2));
    assert_eq!(at(3).line_column("abc"), (0, 3));
}

#[test]
fn line_and_column_follow_line_feeds() {
    let source = "ab\ncd\n\nef";
    assert_eq!(at(2).line_column(source), (0, 2));
    assert_eq!(at(3).line_column(source), (1, 0));
    assert_eq!(at(5).line_column(source), (1, 2));
    assert_eq!(at(6).line_column(source), (2, 0));
    assert_eq!(at(7).line_column(source), (3, 0));
    assert_eq!(at(9).line_column(source), (3, 2));
}

#[test]
fn line_and_column_behind_the_end_are_those_of_the_end() {
    assert_eq!(at(100).line_column("ab\ncd"), (1, 2));
    assert_eq!(at(1).line_column(""), (0, 0));
    assert_eq!(at(usize::MAX).line_column("\n"), (1, 0));
}

#[test]
fn line_and_column_count_characters() {
    let source = "\u{e9}\u{e9}\n\u{65e5}\u{672c}x";
    assert_eq!(at(2).line_column(source), (0, 2));
    assert_eq!(at(5).line_column(source), (1, 2));
}

#[test]
fn carriage_return_does_not_end_a_line() {
    assert_eq!(at(3).line_column("a\r\nb"), (1, 0));
    assert_eq!(at(2).line_column("a\rb"), (0, 2));
}

#[test]
fn line_and_column_of_a_parse_error() {
    let source = "<a>\n  <b x=1>\n</a>";
    let e = parse_error(source);
    assert_eq!(e, ParseError { kind: ParseErrorKind::ExpectedQuote, offset: 11 });
    assert_eq!(e.line_column(source), (1, 7));

    let cut = "<a>\n<b>\n</b>\n";
    let e = parse_error(cut);
    assert_eq!(e, ParseError { kind: ParseErrorKind::UnexpectedEof, offset: 13 });
    assert_eq!(e.line_column(cut), (3, 0));
}

#[test]
fn errors_compare_and_copy() {
    let e = ParseError { kind: ParseErrorKind::ExpectedLt, offset: 3 };
    let f = e;
    assert_eq!(e, f);
    assert_ne!(e, ParseError { kind: ParseErrorKind::ExpectedGt, offset: 3 });
    assert_ne!(e, ParseError { kind: ParseErrorKind::ExpectedLt, offset: 4 });
    assert_eq!(format!("{:?}", e.kind), "ExpectedLt");
}

fn is_name(s: &str) -> bool {
    s.chars().all(|c| c.is_ascii_alphanumeric())
}

fn has_parsed_shape(node: &Node) -> bool {
    match &node.node_type {
        NodeType::Text(t) => node.children.is_empty() && !t.is_empty() && !t.contains('<'),
        NodeType::Comment(_) => false,
        NodeType::Element(e) => is_name(&e.tag_name) && node.children.iter().all(has_parsed_shape),
    }
}

#[test]
fn parsed_trees_have_names_for_tags_and_no_comments() {
    let sources = [
        "",
        "x",
        "<a></a>",
        "<></>",
        "<a b='1'>t<c></c> u </a><d></d>",
        "  <p>one</p> two <p>three</p></stray>",
        "<!-- c --> is not a comment",
    ];
    for source in sources {
        if let Ok(tree) = Parser::parse(source.to_string()) {
            assert!(has_parsed_shape(&tree), "{:?}", source);
        }
    }
    assert!(Parser::parse("<a b='1'>t<c></c> u </a><d></d>".to_string()).is_ok());
}

#[test]
fn expected_gt_is_never_reported() {
    let sources = [
        "<", "<a", "<a ", "<a b", "<a b=", "<a b='", "<a b=''", "<a/>", "<a b=''/>", "<a <b>",
        "<a\n", "<a b='1' c", "<a>", "<a><", "<a></", "<a></a",
    ];
    for source in sources {
        match Parser::parse(source.to_string()) {
            Ok(_) => panic!("parsed {:?}", source),
            Err(e) => assert_ne!(e.kind, ParseErrorKind::ExpectedGt, "{:?}", source),
        }
    }
}
