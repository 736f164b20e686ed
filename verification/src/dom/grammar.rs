//! The grammar of the markup, as functions from a source text and a cursor to
//! what is read there and where reading stops.
//!
//! A source text is a sequence of characters and a cursor is an index into
//! it. Nothing here is executable: these functions say what the parser has to
//! compute.

use super::chars::{all_but, lemma_run_end, run_end, tag_chars, whitespace_chars};
use super::error::ParseErrorKind;
use super::node::{element_node, text_node, NodeView};
use vstd::prelude::*;

verus! {

/// What reading one construct of the grammar comes to.
pub enum Outcome<T> {
    /// The construct was read: its value, and the cursor just behind it.
    Parsed(T, int),
    /// The text breaks the grammar: how, and the cursor at which that showed.
    Failed(ParseErrorKind, int),
}

/// Whether the character at `p` exists and is `c`.
pub open spec fn has_char(s: Seq<char>, p: int, c: char) -> bool {
    0 <= p < s.len() && s[p] == c
}

/// Whether `prefix` stands in `s` at `p`.
pub open spec fn has_prefix(s: Seq<char>, p: int, prefix: Seq<char>) -> bool {
    0 <= p && p + prefix.len() <= s.len() && s.subrange(p, p + prefix.len()) == prefix
}

/// Whether a closing tag begins at `p`.
pub open spec fn closing_tag_at(s: Seq<char>, p: int) -> bool {
    has_char(s, p, '<') && has_char(s, p + 1, '/')
}

/// The cursor behind the whitespace that begins at `p`.
pub open spec fn skip_whitespace(s: Seq<char>, p: int) -> int {
    run_end(s, p, whitespace_chars())
}

/// The cursor behind the name that begins at `p`. The name may be empty.
pub open spec fn name_end(s: Seq<char>, p: int) -> int {
    run_end(s, p, tag_chars())
}

/// An attribute value at `p`: a quote, single or double, then everything up
/// to the next quote of the same kind, which is read too. The value is what
/// stands between the two.
pub open spec fn attr_value(s: Seq<char>, p: int) -> Outcome<Seq<char>> {
    if has_char(s, p, '"') || has_char(s, p, '\'') {
        let close = run_end(s, p + 1, all_but(s[p]));
        if close < s.len() {
            Outcome::Parsed(s.subrange(p + 1, close), close + 1)
        } else {
            Outcome::Failed(ParseErrorKind::UnterminatedAttrValue, close)
        }
    } else {
        Outcome::Failed(ParseErrorKind::ExpectedQuote, p)
    }
}

/// An attribute at `p`: a name, `=`, and a value.
pub open spec fn attr(s: Seq<char>, p: int) -> Outcome<(Seq<char>, Seq<char>)> {
    let eq = name_end(s, p);
    if has_char(s, eq, '=') {
        match attr_value(s, eq + 1) {
            Outcome::Parsed(value, rest) => Outcome::Parsed((s.subrange(p, eq), value), rest),
            Outcome::Failed(kind, at) => Outcome::Failed(kind, at),
        }
    } else {
        Outcome::Failed(ParseErrorKind::ExpectedEquals, eq)
    }
}

/// The attributes from `p` up to the `>` that ends the opening tag, as
/// pairs of a name and a value in the order in which they are written,
/// appended to those in `seen`. Whitespace before each attribute and before
/// the `>` is skipped. The cursor of the result stands on the `>`.
pub open spec fn attributes(s: Seq<char>, p: int, seen: Seq<(Seq<char>, Seq<char>)>) -> Outcome<
    Seq<(Seq<char>, Seq<char>)>,
>
    decreases s.len() - p,
    via attributes_decreases
{
    let at = skip_whitespace(s, p);
    if !(0 <= at < s.len()) {
        Outcome::Failed(ParseErrorKind::UnexpectedEof, at)
    } else if s[at] == '>' {
        Outcome::Parsed(seen, at)
    } else {
        match attr(s, at) {
            Outcome::Parsed(pair, rest) => attributes(s, rest, seen.push(pair)),
            Outcome::Failed(kind, at) => Outcome::Failed(kind, at),
        }
    }
}

/// The attribute map that a list of attributes stands for: each name with the
/// value of the last attribute of that name.
pub open spec fn attribute_map(pairs: Seq<(Seq<char>, Seq<char>)>) -> Map<Seq<char>, Seq<char>>
    decreases pairs.len(),
{
    if pairs.len() == 0 {
        Map::empty()
    } else {
        attribute_map(pairs.drop_last()).insert(pairs.last().0, pairs.last().1)
    }
}

/// A text node at `p`: everything up to the next `<`, or to the end.
pub open spec fn text_run(s: Seq<char>, p: int) -> Outcome<NodeView> {
    let end = run_end(s, p, all_but('<'));
    Outcome::Parsed(text_node(s.subrange(p, end)), end)
}

/// The sibling nodes from `p` on, appended to those in `seen`. Whitespace
/// before each node is skipped. The siblings end where the text ends or a
/// closing tag begins, and the cursor of the result stands there.
///
/// Every node is at least one character long (`lemma_node_bounds`), so the
/// test on `rest` always holds. It stands here because this definition has to
/// be seen to end before anything can be proved of `node`.
pub open spec fn nodes(s: Seq<char>, p: int, seen: Seq<NodeView>) -> Outcome<Seq<NodeView>>
    decreases s.len() - p, 2nat,
    via nodes_decreases
{
    let at = skip_whitespace(s, p);
    if !(0 <= at < s.len()) || closing_tag_at(s, at) {
        Outcome::Parsed(seen, at)
    } else {
        match node(s, at) {
            Outcome::Parsed(n, rest) => {
                if at < rest <= s.len() {
                    nodes(s, rest, seen.push(n))
                } else {
                    Outcome::Parsed(seen.push(n), rest)
                }
            },
            Outcome::Failed(kind, at) => Outcome::Failed(kind, at),
        }
    }
}

/// One node at `p`: an element where a `<` stands, text elsewhere.
pub open spec fn node(s: Seq<char>, p: int) -> Outcome<NodeView>
    decreases s.len() - p, 1nat,
{
    if !(0 <= p < s.len()) {
        Outcome::Failed(ParseErrorKind::UnexpectedEof, p)
    } else if s[p] == '<' {
        element(s, p)
    } else {
        text_run(s, p)
    }
}

/// An element at `p`: `<`, a name, attributes, `>`, the children, and the
/// closing tag, which is `</`, the same name again, and `>`.
pub open spec fn element(s: Seq<char>, p: int) -> Outcome<NodeView>
    decreases s.len() - p, 0nat,
    via element_decreases
{
    if !has_char(s, p, '<') {
        Outcome::Failed(ParseErrorKind::ExpectedLt, p)
    } else {
        let tag_end = name_end(s, p + 1);
        let tag = s.subrange(p + 1, tag_end);
        match attributes(s, tag_end, Seq::empty()) {
            Outcome::Failed(kind, at) => Outcome::Failed(kind, at),
            Outcome::Parsed(attrs, gt) => {
                if !has_char(s, gt, '>') {
                    Outcome::Failed(ParseErrorKind::ExpectedGt, gt)
                } else {
                    match nodes(s, gt + 1, Seq::empty()) {
                        Outcome::Failed(kind, at) => Outcome::Failed(kind, at),
                        Outcome::Parsed(children, close) => {
                            let close_end = name_end(s, close + 2);
                            if !(0 <= close < s.len()) {
                                Outcome::Failed(ParseErrorKind::UnexpectedEof, close)
                            } else if s.subrange(close + 2, close_end) != tag {
                                Outcome::Failed(ParseErrorKind::MismatchedClosingTag, close_end)
                            } else if !has_char(s, close_end, '>') {
                                Outcome::Failed(ParseErrorKind::ExpectedCloseGt, close_end)
                            } else {
                                Outcome::Parsed(
                                    element_node(tag, attribute_map(attrs), children),
                                    close_end + 1,
                                )
                            }
                        },
                    }
                }
            },
        }
    }
}

/// A whole document: the nodes at the top level, from the start of the text
/// to its end or to a closing tag that closes nothing, where reading stops. A
/// single node is the document. Any other number of them, none too, become
/// the children of an element named `html` that has no attributes.
pub open spec fn document(s: Seq<char>) -> Outcome<NodeView> {
    match nodes(s, 0, Seq::empty()) {
        Outcome::Parsed(top, rest) => {
            if top.len() == 1 {
                Outcome::Parsed(top[0], rest)
            } else {
                Outcome::Parsed(element_node("html"@, Map::empty(), top), rest)
            }
        },
        Outcome::Failed(kind, at) => Outcome::Failed(kind, at),
    }
}

#[via_fn]
proof fn attributes_decreases(s: Seq<char>, p: int, seen: Seq<(Seq<char>, Seq<char>)>) {
    let at = skip_whitespace(s, p);
    if 0 <= at < s.len() {
        if 0 <= p <= s.len() {
            lemma_run_end(s, p, whitespace_chars());
        }
        lemma_attr_bounds(s, at);
    }
}

#[via_fn]
proof fn nodes_decreases(s: Seq<char>, p: int, seen: Seq<NodeView>) {
    if 0 <= p <= s.len() {
        lemma_run_end(s, p, whitespace_chars());
    }
}

#[via_fn]
proof fn element_decreases(s: Seq<char>, p: int) {
    if has_char(s, p, '<') {
        lemma_run_end(s, p + 1, tag_chars());
        lemma_attributes_bounds(s, name_end(s, p + 1), Seq::empty());
    }
}

/// A value that was read is at least its two quotes long, and a failure
/// shows at or behind the place where reading began.
pub proof fn lemma_attr_value_bounds(s: Seq<char>, p: int)
    requires
        0 <= p <= s.len(),
    ensures
        match attr_value(s, p) {
            Outcome::Parsed(_, rest) => p + 2 <= rest <= s.len(),
            Outcome::Failed(_, at) => p <= at <= s.len(),
        },
{
    if has_char(s, p, '"') || has_char(s, p, '\'') {
        lemma_run_end(s, p + 1, all_but(s[p]));
    }
}

/// An attribute that was read is at least three characters long, and a
/// failure shows at or behind the place where reading began.
pub proof fn lemma_attr_bounds(s: Seq<char>, p: int)
    requires
        0 <= p <= s.len(),
    ensures
        match attr(s, p) {
            Outcome::Parsed(_, rest) => p + 3 <= rest <= s.len(),
            Outcome::Failed(_, at) => p <= at <= s.len(),
        },
{
    lemma_run_end(s, p, tag_chars());
    let eq = name_end(s, p);
    if has_char(s, eq, '=') {
        lemma_attr_value_bounds(s, eq + 1);
    }
}

/// Attributes that were read end on a `>`, and a failure shows at or behind
/// the place where reading began.
pub proof fn lemma_attributes_bounds(s: Seq<char>, p: int, seen: Seq<(Seq<char>, Seq<char>)>)
    requires
        0 <= p <= s.len(),
    ensures
        match attributes(s, p, seen) {
            Outcome::Parsed(_, at) => p <= at && has_char(s, at, '>'),
            Outcome::Failed(_, at) => p <= at <= s.len(),
        },
    decreases s.len() - p,
{
    lemma_run_end(s, p, whitespace_chars());
    let at = skip_whitespace(s, p);
    if at < s.len() && s[at] != '>' {
        lemma_attr_bounds(s, at);
        match attr(s, at) {
            Outcome::Parsed(pair, rest) => {
                lemma_attributes_bounds(s, rest, seen.push(pair));
            },
            Outcome::Failed(_, _) => {},
        }
    }
}

/// Sibling nodes that were read end where the text ends or a closing tag
/// begins, and a failure shows at or behind the place where reading began.
pub proof fn lemma_nodes_bounds(s: Seq<char>, p: int, seen: Seq<NodeView>)
    requires
        0 <= p <= s.len(),
    ensures
        match nodes(s, p, seen) {
            Outcome::Parsed(_, at) => {
                &&& p <= at <= s.len()
                &&& at == s.len() || closing_tag_at(s, at)
            },
            Outcome::Failed(_, at) => p <= at <= s.len(),
        },
    decreases s.len() - p, 2nat,
{
    lemma_run_end(s, p, whitespace_chars());
    let at = skip_whitespace(s, p);
    if at < s.len() && !closing_tag_at(s, at) {
        lemma_node_bounds(s, at);
        match node(s, at) {
            Outcome::Parsed(n, rest) => {
                lemma_nodes_bounds(s, rest, seen.push(n));
            },
            Outcome::Failed(_, _) => {},
        }
    }
}

/// A node that was read is at least one character long, and a failure shows
/// at or behind the place where reading began.
pub proof fn lemma_node_bounds(s: Seq<char>, p: int)
    requires
        0 <= p <= s.len(),
    ensures
        match node(s, p) {
            Outcome::Parsed(_, rest) => p < rest <= s.len(),
            Outcome::Failed(_, at) => p <= at <= s.len(),
        },
    decreases s.len() - p, 1nat,
{
    if p < s.len() {
        if s[p] == '<' {
            lemma_element_bounds(s, p);
        } else {
            lemma_run_end(s, p + 1, all_but('<'));
        }
    }
}

/// An element that was read is at least one character long, and a failure
/// shows at or behind the place where reading began.
pub proof fn lemma_element_bounds(s: Seq<char>, p: int)
    requires
        0 <= p <= s.len(),
    ensures
        match element(s, p) {
            Outcome::Parsed(_, rest) => p < rest <= s.len(),
            Outcome::Failed(_, at) => p <= at <= s.len(),
        },
    decreases s.len() - p, 0nat,
{
    if has_char(s, p, '<') {
        lemma_run_end(s, p + 1, tag_chars());
        let tag_end = name_end(s, p + 1);
        lemma_attributes_bounds(s, tag_end, Seq::empty());
        match attributes(s, tag_end, Seq::empty()) {
            Outcome::Failed(_, _) => {},
            Outcome::Parsed(_, gt) => {
                lemma_nodes_bounds(s, gt + 1, Seq::empty());
                match nodes(s, gt + 1, Seq::empty()) {
                    Outcome::Failed(_, _) => {},
                    Outcome::Parsed(_, close) => {
                        if close < s.len() {
                            lemma_run_end(s, close + 2, tag_chars());
                        }
                    },
                }
            },
        }
    }
}

/// No element begins where a closing tag begins: what would be its name is
/// empty, and the `/` is neither a `>` nor the start of an attribute.
pub proof fn lemma_element_is_no_closing_tag(s: Seq<char>, p: int)
    requires
        closing_tag_at(s, p),
    ensures
        element(s, p) is Failed,
{
}

/// A document that is one element, with nothing but whitespace before it and
/// behind it, is that element itself: no `html` element is put around it.
pub proof fn lemma_single_element_document(s: Seq<char>)
    requires
        element(s, skip_whitespace(s, 0)) is Parsed,
        skip_whitespace(s, element(s, skip_whitespace(s, 0))->Parsed_1) >= s.len(),
    ensures
        document(s) == Outcome::Parsed(
            element(s, skip_whitespace(s, 0))->Parsed_0,
            skip_whitespace(s, element(s, skip_whitespace(s, 0))->Parsed_1),
        ),
{
    lemma_run_end(s, 0, whitespace_chars());
    let at = skip_whitespace(s, 0);
    let tree = element(s, at)->Parsed_0;
    let rest = element(s, at)->Parsed_1;
    if closing_tag_at(s, at) {
        lemma_element_is_no_closing_tag(s, at);
    }
    lemma_element_bounds(s, at);
    assert(node(s, at) == element(s, at));
    let one = Seq::<NodeView>::empty().push(tree);
    assert(nodes(s, rest, one) == Outcome::Parsed(one, skip_whitespace(s, rest)));
}

/// A document with no node at its top level, or with more than one, is an
/// element named `html` without attributes, whose children are those nodes
/// in their order.
pub proof fn lemma_siblings_document(s: Seq<char>)
    requires
        nodes(s, 0, Seq::empty()) is Parsed,
        nodes(s, 0, Seq::empty())->Parsed_0.len() != 1,
    ensures
        document(s) == Outcome::Parsed(
            element_node("html"@, Map::empty(), nodes(s, 0, Seq::empty())->Parsed_0),
            nodes(s, 0, Seq::empty())->Parsed_1,
        ),
{
}

/// Whether `outcome` is the failure `ExpectedGt`.
pub open spec fn is_expected_gt<T>(outcome: Outcome<T>) -> bool {
    outcome matches Outcome::Failed(kind, _) && kind == ParseErrorKind::ExpectedGt
}

/// Reading attributes never fails with `ExpectedGt`.
pub proof fn lemma_attributes_never_expected_gt(
    s: Seq<char>,
    p: int,
    seen: Seq<(Seq<char>, Seq<char>)>,
)
    requires
        0 <= p <= s.len(),
    ensures
        !is_expected_gt(attributes(s, p, seen)),
    decreases s.len() - p,
{
    lemma_run_end(s, p, whitespace_chars());
    let at = skip_whitespace(s, p);
    if at < s.len() && s[at] != '>' {
        lemma_attr_bounds(s, at);
        match attr(s, at) {
            Outcome::Parsed(pair, rest) => {
                lemma_attributes_never_expected_gt(s, rest, seen.push(pair));
            },
            Outcome::Failed(_, _) => {},
        }
    }
}

/// Reading sibling nodes never fails with `ExpectedGt`.
pub proof fn lemma_nodes_never_expected_gt(s: Seq<char>, p: int, seen: Seq<NodeView>)
    requires
        0 <= p <= s.len(),
    ensures
        !is_expected_gt(nodes(s, p, seen)),
    decreases s.len() - p, 2nat,
{
    lemma_run_end(s, p, whitespace_chars());
    let at = skip_whitespace(s, p);
    if at < s.len() && !closing_tag_at(s, at) {
        lemma_node_bounds(s, at);
        lemma_node_never_expected_gt(s, at);
        match node(s, at) {
            Outcome::Parsed(n, rest) => {
                lemma_nodes_never_expected_gt(s, rest, seen.push(n));
            },
            Outcome::Failed(_, _) => {},
        }
    }
}

/// Reading a node never fails with `ExpectedGt`.
pub proof fn lemma_node_never_expected_gt(s: Seq<char>, p: int)
    requires
        0 <= p <= s.len(),
    ensures
        !is_expected_gt(node(s, p)),
    decreases s.len() - p, 1nat,
{
    if p < s.len() && s[p] == '<' {
        lemma_element_never_expected_gt(s, p);
    }
}

/// The opening tag of an element always ends with `>`: where it would not,
/// reading the attributes has failed before. So reading an element never
/// fails with `ExpectedGt`, in the element itself or in one below it.
pub proof fn lemma_element_never_expected_gt(s: Seq<char>, p: int)
    requires
        0 <= p <= s.len(),
    ensures
        !is_expected_gt(element(s, p)),
    decreases s.len() - p, 0nat,
{
    if has_char(s, p, '<') {
        lemma_run_end(s, p + 1, tag_chars());
        let tag_end = name_end(s, p + 1);
        lemma_attributes_bounds(s, tag_end, Seq::empty());
        lemma_attributes_never_expected_gt(s, tag_end, Seq::empty());
        match attributes(s, tag_end, Seq::empty()) {
            Outcome::Failed(_, _) => {},
            Outcome::Parsed(_, gt) => {
                lemma_nodes_never_expected_gt(s, gt + 1, Seq::empty());
            },
        }
    }
}

/// Parsing a document never fails with `ExpectedGt`.
pub proof fn lemma_document_never_expected_gt(s: Seq<char>)
    ensures
        !is_expected_gt(document(s)),
{
    lemma_nodes_never_expected_gt(s, 0, Seq::empty());
}

/// The names of an attribute map are the names in the list it was made of.
pub proof fn lemma_attribute_map_names(pairs: Seq<(Seq<char>, Seq<char>)>, name: Seq<char>)
    ensures
        attribute_map(pairs).contains_key(name) <==> exists|i: int|
            0 <= i < pairs.len() && (#[trigger] pairs[i]).0 == name,
    decreases pairs.len(),
{
    if pairs.len() > 0 {
        let front = pairs.drop_last();
        lemma_attribute_map_names(front, name);
        if attribute_map(front).contains_key(name) {
            let i = choose|i: int| 0 <= i < front.len() && (#[trigger] front[i]).0 == name;
            assert(pairs[i].0 == name);
        }
        if exists|i: int| 0 <= i < pairs.len() && (#[trigger] pairs[i]).0 == name {
            let i = choose|i: int| 0 <= i < pairs.len() && (#[trigger] pairs[i]).0 == name;
            if i < front.len() {
                assert(front[i].0 == name);
            }
        }
    }
}

/// The last attribute of a name decides: an attribute that no later one of
/// the same name follows gives the name its value.
pub proof fn lemma_attribute_map_last_wins(pairs: Seq<(Seq<char>, Seq<char>)>, i: int)
    requires
        0 <= i < pairs.len(),
        forall|j: int| i < j < pairs.len() ==> (#[trigger] pairs[j]).0 != pairs[i].0,
    ensures
        attribute_map(pairs).contains_key(pairs[i].0),
        attribute_map(pairs)[pairs[i].0] == pairs[i].1,
    decreases pairs.len(),
{
    if i < pairs.len() - 1 {
        let front = pairs.drop_last();
        assert forall|j: int| i < j < front.len() implies (#[trigger] front[j]).0 != front[i].0 by {
            assert(front[j] == pairs[j]);
        }
        lemma_attribute_map_last_wins(front, i);
    }
}

/// Whether no name comes twice in a list of attributes.
pub open spec fn names_distinct(pairs: Seq<(Seq<char>, Seq<char>)>) -> bool {
    forall|i: int, j: int|
        0 <= i < j < pairs.len() ==> (#[trigger] pairs[i]).0 != (#[trigger] pairs[j]).0
}

/// Where no name comes twice, the order of the attributes does not matter:
/// two lists of the same attributes stand for the same map.
pub proof fn lemma_attribute_map_order(
    a: Seq<(Seq<char>, Seq<char>)>,
    b: Seq<(Seq<char>, Seq<char>)>,
)
    requires
        names_distinct(a),
        names_distinct(b),
        forall|pair: (Seq<char>, Seq<char>)| a.contains(pair) <==> b.contains(pair),
    ensures
        attribute_map(a) == attribute_map(b),
{
    let ma = attribute_map(a);
    let mb = attribute_map(b);
    assert forall|name: Seq<char>| #[trigger] ma.dom().contains(name) implies mb.dom().contains(
        name,
    ) && mb[name] == ma[name] by {
        lemma_attribute_map_names(a, name);
        let i = choose|i: int| 0 <= i < a.len() && (#[trigger] a[i]).0 == name;
        lemma_attribute_map_last_wins(a, i);
        assert(b.contains(a[i]));
        let k = choose|k: int| 0 <= k < b.len() && b[k] == a[i];
        lemma_attribute_map_last_wins(b, k);
    }
    assert forall|name: Seq<char>| #[trigger] mb.dom().contains(name) implies ma.dom().contains(
        name,
    ) by {
        lemma_attribute_map_names(b, name);
        let k = choose|k: int| 0 <= k < b.len() && (#[trigger] b[k]).0 == name;
        assert(a.contains(b[k]));
        let i = choose|i: int| 0 <= i < a.len() && a[i] == b[k];
        lemma_attribute_map_last_wins(a, i);
    }
}

} // verus!
