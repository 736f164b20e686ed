//! What the trees that the parser builds look like.

use super::chars::{all_but, is_name, lemma_run_end, run_end, tag_chars, whitespace_chars};
use super::grammar::{
    attr, attribute_map, attributes, closing_tag_at, document, element, has_char,
    lemma_attr_bounds, lemma_attribute_map_names, lemma_attributes_bounds, lemma_node_bounds,
    lemma_nodes_bounds, name_end, node, nodes, skip_whitespace, Outcome,
};
use super::node::{NodeTypeView, NodeView};
use vstd::prelude::*;

verus! {

/// Whether a tree has the shape of a parsed one. A text is not empty, holds
/// no `<` and has no children. An element has a name for its tag and names
/// for its attributes, and its children have the shape in turn. There is no
/// comment: the grammar has none.
pub open spec fn parsed_shape(tree: NodeView) -> bool
    decreases tree,
{
    match tree.node_type {
        NodeTypeView::Text(content) => {
            &&& tree.children.len() == 0
            &&& content.len() > 0
            &&& forall|i: int| 0 <= i < content.len() ==> #[trigger] content[i] != '<'
        },
        NodeTypeView::Comment(_) => false,
        NodeTypeView::Element(e) => {
            &&& is_name(e.tag_name)
            &&& forall|name: Seq<char>| #[trigger] e.attributes.contains_key(name) ==> is_name(name)
            &&& forall|i: int|
                0 <= i < tree.children.len() ==> parsed_shape(#[trigger] tree.children[i])
        },
    }
}

/// Whether every tree of a sequence has the shape of a parsed one.
pub open spec fn all_parsed_shape(trees: Seq<NodeView>) -> bool {
    forall|i: int| 0 <= i < trees.len() ==> parsed_shape(#[trigger] trees[i])
}

/// Whether every attribute of a list has a name for its name.
pub open spec fn all_named(pairs: Seq<(Seq<char>, Seq<char>)>) -> bool {
    forall|i: int| 0 <= i < pairs.len() ==> is_name((#[trigger] pairs[i]).0)
}

/// What a name scan covers is a name.
pub proof fn lemma_scanned_name(s: Seq<char>, p: int)
    requires
        0 <= p <= s.len(),
    ensures
        p <= name_end(s, p) <= s.len(),
        is_name(s.subrange(p, name_end(s, p))),
{
    lemma_run_end(s, p, tag_chars());
    let name = s.subrange(p, name_end(s, p));
    assert forall|i: int| 0 <= i < name.len() implies tag_chars()(#[trigger] name[i]) by {
        assert(name[i] == s[p + i]);
    }
}

/// The attributes that are read have names for their names.
pub proof fn lemma_attributes_named(s: Seq<char>, p: int, seen: Seq<(Seq<char>, Seq<char>)>)
    requires
        0 <= p <= s.len(),
        all_named(seen),
    ensures
        attributes(s, p, seen) matches Outcome::Parsed(pairs, _) ==> all_named(pairs),
    decreases s.len() - p,
{
    lemma_run_end(s, p, whitespace_chars());
    let at = skip_whitespace(s, p);
    if at < s.len() && s[at] != '>' {
        lemma_attr_bounds(s, at);
        lemma_scanned_name(s, at);
        match attr(s, at) {
            Outcome::Parsed(pair, rest) => {
                let more = seen.push(pair);
                assert forall|i: int| 0 <= i < more.len() implies is_name(
                    (#[trigger] more[i]).0,
                ) by {
                    if i < seen.len() {
                        assert(more[i] == seen[i]);
                    }
                }
                lemma_attributes_named(s, rest, more);
            },
            Outcome::Failed(_, _) => {},
        }
    }
}

/// The sibling nodes that are read have the shape of parsed trees.
pub proof fn lemma_nodes_shape(s: Seq<char>, p: int, seen: Seq<NodeView>)
    requires
        0 <= p <= s.len(),
        all_parsed_shape(seen),
    ensures
        nodes(s, p, seen) matches Outcome::Parsed(trees, _) ==> all_parsed_shape(trees),
    decreases s.len() - p, 2nat,
{
    lemma_run_end(s, p, whitespace_chars());
    let at = skip_whitespace(s, p);
    if at < s.len() && !closing_tag_at(s, at) {
        lemma_node_bounds(s, at);
        lemma_node_shape(s, at);
        match node(s, at) {
            Outcome::Parsed(n, rest) => {
                let more = seen.push(n);
                assert forall|i: int| 0 <= i < more.len() implies parsed_shape(
                    #[trigger] more[i],
                ) by {
                    if i < seen.len() {
                        assert(more[i] == seen[i]);
                    }
                }
                lemma_nodes_shape(s, rest, more);
            },
            Outcome::Failed(_, _) => {},
        }
    }
}

/// The node that is read has the shape of a parsed tree.
pub proof fn lemma_node_shape(s: Seq<char>, p: int)
    requires
        0 <= p <= s.len(),
    ensures
        node(s, p) matches Outcome::Parsed(tree, _) ==> parsed_shape(tree),
    decreases s.len() - p, 1nat,
{
    if p < s.len() {
        if s[p] == '<' {
            lemma_element_shape(s, p);
        } else {
            lemma_run_end(s, p, all_but('<'));
            lemma_run_end(s, p + 1, all_but('<'));
            let end = run_end(s, p, all_but('<'));
            let content = s.subrange(p, end);
            assert forall|i: int| 0 <= i < content.len() implies #[trigger] content[i] != '<' by {
                assert(all_but('<')(s[p + i]));
            }
        }
    }
}

/// The element that is read has the shape of a parsed tree.
pub proof fn lemma_element_shape(s: Seq<char>, p: int)
    requires
        0 <= p <= s.len(),
    ensures
        element(s, p) matches Outcome::Parsed(tree, _) ==> parsed_shape(tree),
    decreases s.len() - p, 0nat,
{
    if has_char(s, p, '<') {
        lemma_scanned_name(s, p + 1);
        let tag_end = name_end(s, p + 1);
        lemma_attributes_bounds(s, tag_end, Seq::empty());
        lemma_attributes_named(s, tag_end, Seq::empty());
        match attributes(s, tag_end, Seq::empty()) {
            Outcome::Failed(_, _) => {},
            Outcome::Parsed(pairs, gt) => {
                assert forall|name: Seq<char>| #[trigger]
                    attribute_map(pairs).contains_key(name) implies is_name(name) by {
                    lemma_attribute_map_names(pairs, name);
                }
                lemma_nodes_bounds(s, gt + 1, Seq::empty());
                lemma_nodes_shape(s, gt + 1, Seq::empty());
            },
        }
    }
}

/// Every document that is parsed has the shape of a parsed tree: its tags
/// and attribute names are names, its texts have no children, and it holds
/// no comment.
pub proof fn lemma_document_shape(s: Seq<char>)
    ensures
        document(s) matches Outcome::Parsed(tree, _) ==> parsed_shape(tree),
{
    lemma_nodes_shape(s, 0, Seq::empty());
    reveal_strlit("html");
    match nodes(s, 0, Seq::empty()) {
        Outcome::Parsed(top, _) => {
            if top.len() == 1 {
                assert(parsed_shape(top[0]));
            }
        },
        Outcome::Failed(_, _) => {},
    }
}

} // verus!
