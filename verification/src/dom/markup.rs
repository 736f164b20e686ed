//! Writing a tree as source text, and the law that reading the text gives the
//! tree back.
//!
//! Nothing here is executable. `Markup` is a document as it is written, with
//! the attributes of an element in their order; `written` is its source text
//! and `denoted` the node tree that it stands for.

use super::chars::{
    all_but, is_name, is_tag_char, is_whitespace, lemma_run_end_unique, run_end, tag_chars,
    whitespace_chars,
};
use super::grammar::{
    attr, attribute_map, attributes, closing_tag_at, document, element, has_char, has_prefix,
    name_end, node, nodes, skip_whitespace, Outcome,
};
use super::node::{element_node, text_node, NodeView};
use vstd::prelude::*;

verus! {

/// A document as it is written: text, or an element with its name, its
/// attributes in their order, and its children.
pub enum Markup {
    Text(Seq<char>),
    Element(Seq<char>, Seq<(Seq<char>, Seq<char>)>, Seq<Markup>),
}

/// One attribute as it is written: a space, the name, `=`, and the value in
/// double quotes.
pub open spec fn written_attr(pair: (Seq<char>, Seq<char>)) -> Seq<char> {
    seq![' '] + pair.0 + seq!['=', '"'] + pair.1 + seq!['"']
}

/// The attributes of an element as they are written, one behind the other.
pub open spec fn written_attrs(pairs: Seq<(Seq<char>, Seq<char>)>) -> Seq<char>
    decreases pairs.len(),
{
    if pairs.len() == 0 {
        Seq::empty()
    } else {
        written_attr(pairs.first()) + written_attrs(pairs.drop_first())
    }
}

/// The source text of a document: text as it is, and an element as its
/// opening tag, its children with nothing between them, and its closing tag.
pub open spec fn written(m: Markup) -> Seq<char>
    decreases m, 0nat,
{
    match m {
        Markup::Text(content) => content,
        Markup::Element(tag, attrs, children) => seq!['<'] + tag + written_attrs(attrs)
            + seq!['>'] + written_all(children) + seq!['<', '/'] + tag + seq!['>'],
    }
}

/// The source text of sibling nodes, one behind the other.
pub open spec fn written_all(ms: Seq<Markup>) -> Seq<char>
    decreases ms, ms.len(),
{
    if ms.len() == 0 {
        Seq::empty()
    } else {
        written(ms.first()) + written_all(ms.drop_first())
    }
}

/// The node tree that a document stands for. Of two attributes of one name
/// the later one counts.
pub open spec fn denoted(m: Markup) -> NodeView
    decreases m, 0nat,
{
    match m {
        Markup::Text(content) => text_node(content),
        Markup::Element(tag, attrs, children) => element_node(
            tag,
            attribute_map(attrs),
            denoted_all(children),
        ),
    }
}

/// The node trees that sibling nodes stand for, in their order.
pub open spec fn denoted_all(ms: Seq<Markup>) -> Seq<NodeView>
    decreases ms, ms.len(),
{
    if ms.len() == 0 {
        Seq::empty()
    } else {
        seq![denoted(ms.first())] + denoted_all(ms.drop_first())
    }
}

/// Whether `s` can be written as an attribute value: it holds no double
/// quote.
pub open spec fn is_value(s: Seq<char>) -> bool {
    forall|i: int| 0 <= i < s.len() ==> #[trigger] s[i] != '"'
}

/// Whether `s` can be written as a text node and read again as the same: it
/// is not empty, does not begin with whitespace, and holds no `<`.
pub open spec fn is_text(s: Seq<char>) -> bool {
    &&& s.len() > 0
    &&& !is_whitespace(s[0])
    &&& forall|i: int| 0 <= i < s.len() ==> #[trigger] s[i] != '<'
}

/// Whether every attribute of the list can be written.
pub open spec fn attrs_well_formed(pairs: Seq<(Seq<char>, Seq<char>)>) -> bool {
    forall|i: int|
        0 <= i < pairs.len() ==> is_name((#[trigger] pairs[i]).0) && is_value(pairs[i].1)
}

/// Whether a document can be written and read again as the same: its names,
/// values and texts can, and no text node follows another directly, since the
/// two would be read as one.
pub open spec fn well_formed(m: Markup) -> bool
    decreases m, 0nat,
{
    match m {
        Markup::Text(content) => is_text(content),
        Markup::Element(tag, attrs, children) => is_name(tag) && attrs_well_formed(attrs)
            && siblings_well_formed(children),
    }
}

/// Whether sibling nodes can be written and read again as the same.
pub open spec fn siblings_well_formed(ms: Seq<Markup>) -> bool
    decreases ms, ms.len(),
{
    if ms.len() == 0 {
        true
    } else {
        &&& well_formed(ms.first())
        &&& siblings_well_formed(ms.drop_first())
        &&& ms.len() >= 2 ==> !(ms[0] is Text && ms[1] is Text)
    }
}

/// Where `a + b` stands, `a` stands, and `b` behind it.
proof fn lemma_prefix_split(s: Seq<char>, p: int, a: Seq<char>, b: Seq<char>)
    requires
        has_prefix(s, p, a + b),
    ensures
        has_prefix(s, p, a),
        has_prefix(s, p + a.len(), b),
{
    let ab = a + b;
    let whole = s.subrange(p, p + ab.len());
    assert forall|i: int| 0 <= i < a.len() implies s.subrange(p, p + a.len())[i] == a[i] by {}
    assert(s.subrange(p, p + a.len()) =~= a);
    assert forall|i: int| 0 <= i < b.len() implies s.subrange(p + a.len(), p + a.len() + b.len())[i]
        == b[i] by {
        assert(whole[a.len() + i] == ab[a.len() + i]);
    }
    assert(s.subrange(p + a.len(), p + a.len() + b.len()) =~= b);
}

/// Where `part` stands, its characters stand.
proof fn lemma_prefix_chars(s: Seq<char>, p: int, part: Seq<char>)
    requires
        has_prefix(s, p, part),
    ensures
        forall|i: int| 0 <= i < part.len() ==> s[p + i] == #[trigger] part[i],
{
    assert forall|i: int| 0 <= i < part.len() implies s[p + i] == #[trigger] part[i] by {}
}

/// Where the one character `c` stands as a text, `c` stands.
proof fn lemma_prefix_char(s: Seq<char>, p: int, c: char)
    requires
        has_prefix(s, p, seq![c]),
    ensures
        has_char(s, p, c),
{
    assert(s.subrange(p, p + 1)[0] == seq![c][0]);
}

/// A run over `part` ends behind it, where every character of `part`
/// satisfies the predicate and what follows does not.
proof fn lemma_run_over(s: Seq<char>, p: int, part: Seq<char>, pred: spec_fn(char) -> bool)
    requires
        has_prefix(s, p, part),
        forall|i: int| 0 <= i < part.len() ==> pred(#[trigger] part[i]),
        p + part.len() == s.len() || !pred(s[p + part.len()]),
    ensures
        run_end(s, p, pred) == p + part.len(),
        s.subrange(p, p + part.len()) == part,
{
    lemma_prefix_chars(s, p, part);
    assert forall|i: int| p <= i < p + part.len() implies pred(#[trigger] s[i]) by {
        assert(s[p + (i - p)] == part[i - p]);
    }
    lemma_run_end_unique(s, p, p + part.len(), pred);
}

/// Reading the attributes that were written gives them back in their order.
proof fn lemma_attributes_parse_back(
    s: Seq<char>,
    p: int,
    pairs: Seq<(Seq<char>, Seq<char>)>,
    seen: Seq<(Seq<char>, Seq<char>)>,
)
    requires
        attrs_well_formed(pairs),
        has_prefix(s, p, written_attrs(pairs)),
        has_char(s, p + written_attrs(pairs).len(), '>'),
    ensures
        attributes(s, p, seen) == Outcome::Parsed(seen + pairs, p + written_attrs(pairs).len()),
    decreases pairs.len(),
{
    if pairs.len() > 0 {
        let pair = pairs.first();
        let rest = pairs.drop_first();
        let name = pair.0;
        let value = pair.1;
        assert(attrs_well_formed(rest)) by {
            assert forall|i: int| 0 <= i < rest.len() implies is_name((#[trigger] rest[i]).0)
                && is_value(rest[i].1) by {}
        }
        let one = written_attr(pair);
        lemma_prefix_split(s, p, one, written_attrs(rest));
        let a1 = seq![' '] + name + seq!['=', '"'] + value;
        lemma_prefix_split(s, p, a1, seq!['"']);
        let a2 = seq![' '] + name + seq!['=', '"'];
        lemma_prefix_split(s, p, a2, value);
        let a3 = seq![' '] + name;
        lemma_prefix_split(s, p, a3, seq!['=', '"']);
        lemma_prefix_split(s, p, seq![' '], name);
        lemma_prefix_char(s, p, ' ');
        let name_at = p + 1;
        let eq_at = name_at + name.len();
        let value_at = eq_at + 2;
        let quote_at = value_at + value.len();
        lemma_prefix_chars(s, eq_at, seq!['=', '"']);
        lemma_prefix_char(s, quote_at, '"');
        // the whitespace before the attribute is the one space
        assert(skip_whitespace(s, p) == name_at) by {
            lemma_prefix_chars(s, name_at, name);
            if name.len() > 0 {
                assert(is_tag_char(name[0]));
            }
            lemma_run_over(s, p, seq![' '], whitespace_chars());
        }
        assert(s[name_at] != '>') by {
            lemma_prefix_chars(s, name_at, name);
            if name.len() > 0 {
                assert(is_tag_char(name[0]));
            }
        }
        assert(name_end(s, name_at) == eq_at && s.subrange(name_at, eq_at) == name) by {
            lemma_run_over(s, name_at, name, tag_chars());
        }
        assert(run_end(s, value_at, all_but('"')) == quote_at && s.subrange(value_at, quote_at)
            == value) by {
            lemma_run_over(s, value_at, value, all_but('"'));
        }
        assert(attr(s, name_at) == Outcome::Parsed((name, value), quote_at + 1));
        lemma_attributes_parse_back(s, p + one.len(), rest, seen.push(pair));
        assert(seen.push(pair) + rest =~= seen + pairs);
    }
}

/// The first character of a node that was written is no whitespace, and no
/// closing tag begins with it.
proof fn lemma_written_start(s: Seq<char>, p: int, m: Markup)
    requires
        well_formed(m),
        has_prefix(s, p, written(m)),
    ensures
        written(m).len() > 0,
        !is_whitespace(s[p]),
        !closing_tag_at(s, p),
        m is Element <==> s[p] == '<',
{
    lemma_prefix_chars(s, p, written(m));
    match m {
        Markup::Text(_) => {},
        Markup::Element(tag, attrs, _) => {
            let w = written(m);
            assert(s[p + 0] == w[0]);
            if tag.len() > 0 {
                assert(w[1] == tag[0]);
            } else if attrs.len() > 0 {
                assert(w[1] == ' ');
            } else {
                assert(w[1] == '>');
            }
        },
    }
}

/// Reading the sibling nodes that were written gives their trees back, where
/// the text ends behind them or a closing tag follows.
proof fn lemma_nodes_parse_back(s: Seq<char>, p: int, ms: Seq<Markup>, seen: Seq<NodeView>)
    requires
        siblings_well_formed(ms),
        has_prefix(s, p, written_all(ms)),
        p + written_all(ms).len() == s.len() || closing_tag_at(s, p + written_all(ms).len()),
    ensures
        nodes(s, p, seen) == Outcome::Parsed(seen + denoted_all(ms), p + written_all(ms).len()),
    decreases ms, ms.len(),
{
    reveal_with_fuel(siblings_well_formed, 2);
    if ms.len() > 0 {
        let m = ms.first();
        let rest = ms.drop_first();
        let w = written(m);
        let end = p + w.len();
        lemma_prefix_split(s, p, w, written_all(rest));
        lemma_written_start(s, p, m);
        // what follows a text: a `<`, or the end
        assert(m is Text ==> end == s.len() || s[end] == '<') by {
            reveal_with_fuel(written_all, 2);
            if m is Text && rest.len() > 0 {
                lemma_prefix_split(s, end, written(rest.first()), written_all(rest.drop_first()));
                lemma_written_start(s, end, rest.first());
            }
        }
        match m {
            Markup::Text(content) => {
                assert forall|i: int| 0 <= i < content.len() implies all_but('<')(
                    #[trigger] content[i],
                ) by {}
                lemma_run_over(s, p, content, all_but('<'));
            },
            Markup::Element(tag, attrs, children) => {
                lemma_element_parses_back(s, p, m);
            },
        }
        assert(node(s, p) == Outcome::Parsed(denoted(m), end));
        lemma_nodes_parse_back(s, end, rest, seen.push(denoted(m)));
        assert(seen.push(denoted(m)) + denoted_all(rest) =~= seen + denoted_all(ms));
    }
}

/// Reading the element that was written gives its tree back.
proof fn lemma_element_parses_back(s: Seq<char>, p: int, m: Markup)
    requires
        m is Element,
        well_formed(m),
        has_prefix(s, p, written(m)),
    ensures
        element(s, p) == Outcome::Parsed(denoted(m), p + written(m).len()),
    decreases m, 0nat,
{
    match m {
        Markup::Text(_) => {},
        Markup::Element(tag, attrs, children) => {
            let open = seq!['<'];
            let gt = seq!['>'];
            let close = seq!['<', '/'];
            let w1 = open + tag;
            let w2 = w1 + written_attrs(attrs);
            let w3 = w2 + gt;
            let w4 = w3 + written_all(children);
            let w5 = w4 + close;
            let w6 = w5 + tag;
            lemma_prefix_split(s, p, w6, gt);
            lemma_prefix_split(s, p, w5, tag);
            lemma_prefix_split(s, p, w4, close);
            lemma_prefix_split(s, p, w3, written_all(children));
            lemma_prefix_split(s, p, w2, gt);
            lemma_prefix_split(s, p, w1, written_attrs(attrs));
            lemma_prefix_split(s, p, open, tag);
            let tag_at = p + 1;
            let attrs_at = tag_at + tag.len();
            let gt_at = attrs_at + written_attrs(attrs).len();
            let children_at = gt_at + 1;
            let close_at = children_at + written_all(children).len();
            let close_tag_at = close_at + 2;
            let end_at = close_tag_at + tag.len();
            lemma_prefix_char(s, p, '<');
            lemma_prefix_char(s, gt_at, '>');
            lemma_prefix_chars(s, close_at, close);
            lemma_prefix_char(s, end_at, '>');
            // the name of the opening tag
            assert(name_end(s, tag_at) == attrs_at && s.subrange(tag_at, attrs_at) == tag) by {
                if attrs.len() > 0 {
                    lemma_prefix_chars(s, attrs_at, written_attrs(attrs));
                    assert(written_attrs(attrs)[0] == ' ');
                }
                lemma_run_over(s, tag_at, tag, tag_chars());
            }
            lemma_attributes_parse_back(s, attrs_at, attrs, Seq::empty());
            lemma_nodes_parse_back(s, children_at, children, Seq::empty());
            // the name of the closing tag
            assert(name_end(s, close_tag_at) == end_at && s.subrange(close_tag_at, end_at) == tag)
                by {
                lemma_run_over(s, close_tag_at, tag, tag_chars());
            }
        },
    }
}

/// Reading what was written gives back what was meant: the source text of
/// well-formed sibling nodes parses, to its end, into the trees that the
/// nodes stand for.
pub proof fn lemma_written_siblings_parse_back(ms: Seq<Markup>)
    requires
        siblings_well_formed(ms),
    ensures
        nodes(written_all(ms), 0, Seq::empty()) == Outcome::Parsed(
            denoted_all(ms),
            written_all(ms).len() as int,
        ),
{
    let s = written_all(ms);
    assert(s.subrange(0, s.len() as int) =~= s);
    lemma_nodes_parse_back(s, 0, ms, Seq::empty());
}

/// Reading what was written gives back what was meant: the source text of a
/// well-formed document parses, to its end, into the tree that the document
/// stands for, with the same names, attributes, texts and structure.
pub proof fn lemma_written_document_parses_back(m: Markup)
    requires
        well_formed(m),
    ensures
        document(written(m)) == Outcome::Parsed(denoted(m), written(m).len() as int),
{
    reveal_with_fuel(written_all, 2);
    reveal_with_fuel(denoted_all, 2);
    reveal_with_fuel(siblings_well_formed, 2);
    let ms = seq![m];
    lemma_written_siblings_parse_back(ms);
}

} // verus!
